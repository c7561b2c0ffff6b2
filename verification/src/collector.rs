use vstd::prelude::*;
use vstd::relations::sorted_by;
use crate::record::{
    FileRecord, RecordModel, views, record_le, record_order, record_le_exec, lemma_record_le_total,
    lemma_record_le_transitive,
};

verus! {

pub proof fn lemma_views_remove(s: Seq<FileRecord>, i: int)
    requires
        0 <= i < s.len(),
    ensures
        views(s.remove(i)) =~= views(s).remove(i),
{
}

pub proof fn lemma_views_push(s: Seq<FileRecord>, r: FileRecord)
    ensures
        views(s.push(r)) =~= views(s).push(r@),
{
}

/// The models of the successful results among a sequence of per-file
/// outcomes, kept in arrival order.
pub open spec fn gathered(s: Seq<Option<FileRecord>>) -> Seq<RecordModel>
    decreases s.len(),
{
    if s.len() == 0 {
        Seq::empty()
    } else {
        let rest = gathered(s.drop_last());
        if s.last() is Some {
            rest.push(s.last().unwrap()@)
        } else {
            rest
        }
    }
}

/// Gather the results of the workers that succeeded, in arrival order,
/// dropping the per-file failures.
pub fn gather(results: Vec<Option<FileRecord>>) -> (r: Vec<FileRecord>)
    ensures
        views(r@) == gathered(results@),
{
    let ghost orig: Seq<Option<FileRecord>> = results@;
    let mut out: Vec<FileRecord> = Vec::new();
    let ghost idx: int = 0;
    let mut results = results;
    proof {
        assert(views(out@) =~= gathered(orig.take(0int)));
    }
    while results.len() > 0
        invariant
            0 <= idx <= orig.len(),
            results@ =~= orig.skip(idx),
            views(out@) == gathered(orig.take(idx)),
        decreases results@.len(),
    {
        let ghost pre = orig.take(idx);
        let ghost pre_out = out@;
        let cur = results.remove(0);
        proof {
            assert(cur == orig[idx]);
        }
        match cur {
            Some(rec) => {
                out.push(rec);
                proof {
                    assert(views(out@) =~= views(pre_out).push(rec@));
                }
            },
            None => {},
        }
        proof {
            assert(orig.take(idx + 1).drop_last() =~= pre);
            assert(orig.take(idx + 1).last() == cur);
            assert(views(out@) =~= gathered(orig.take(idx + 1)));
            idx = idx + 1;
        }
    }
    proof {
        assert(orig.take(idx) =~= orig);
    }
    out
}

/// How many of the per-file outcomes succeeded.
pub open spec fn count_some(s: Seq<Option<FileRecord>>) -> nat
    decreases s.len(),
{
    if s.len() == 0 {
        0
    } else {
        count_some(s.drop_last()) + (if s.last() is Some {
            1nat
        } else {
            0nat
        })
    }
}

pub proof fn lemma_gathered_count(s: Seq<Option<FileRecord>>)
    ensures
        gathered(s).len() == count_some(s),
    decreases s.len(),
{
    if s.len() > 0 {
        lemma_gathered_count(s.drop_last());
    }
}

/// Law: one output record per successful hash — any rearrangement of the
/// gathered records, the sorted catalog order included, has exactly as many
/// records as there were successful per-file results.
pub proof fn lemma_record_count(results: Seq<Option<FileRecord>>, ordered: Seq<RecordModel>)
    requires
        ordered.to_multiset() == gathered(results).to_multiset(),
    ensures
        ordered.len() == count_some(results),
{
    broadcast use vstd::seq_lib::group_to_multiset_ensures;

    lemma_gathered_count(results);
    assert(ordered.to_multiset().len() == ordered.len());
    assert(gathered(results).to_multiset().len() == gathered(results).len());
}

/// Law: the ordered output is unique — two sorted arrangements of the same
/// records are the same sequence, so the catalog built from a scan depends
/// only on which records the scan produced, not on the order workers
/// finished in.
pub proof fn lemma_order_deterministic(s1: Seq<RecordModel>, s2: Seq<RecordModel>)
    requires
        sorted_by(s1, record_order()),
        sorted_by(s2, record_order()),
        s1.to_multiset() == s2.to_multiset(),
    ensures
        s1 == s2,
{
    crate::record::lemma_record_order_total_ordering();
    vstd::seq_lib::lemma_sorted_unique(s1, s2, record_order());
}

/// Law: since a walk cannot visit one concrete path twice, paths are unique,
/// and the sorted output is then strictly ordered by path: each record's
/// path is byte-wise below the next one's.
pub proof fn lemma_unique_paths_sort_strictly(s: Seq<RecordModel>)
    requires
        sorted_by(s, record_order()),
        forall|i: int, j: int|
            0 <= i < j < s.len() ==> (#[trigger] s[i]).path != (#[trigger] s[j]).path,
    ensures
        forall|i: int, j: int|
            0 <= i < j < s.len() ==> crate::record::lex_le((#[trigger] s[i]).path, (#[trigger] s[j]).path)
                && s[i].path != s[j].path,
{
    assert forall|i: int, j: int| 0 <= i < j < s.len() implies crate::record::lex_le(
        (#[trigger] s[i]).path,
        (#[trigger] s[j]).path,
    ) && s[i].path != s[j].path by {
        assert(record_order()(s[i], s[j]));
        assert(record_le(s[i], s[j]));
    }
}

/// Sort records into the deterministic output order: byte-wise lexicographic
/// on paths, with digest and size as tie breakers. The result is a sorted
/// permutation of the input.
pub fn sort_records(recs: Vec<FileRecord>) -> (r: Vec<FileRecord>)
    ensures
        sorted_by(views(r@), record_order()),
        views(r@).to_multiset() == views(recs@).to_multiset(),
{
    broadcast use vstd::seq_lib::group_to_multiset_ensures;

    let ghost orig: Seq<RecordModel> = views(recs@);
    let mut input = recs;
    let mut out: Vec<FileRecord> = Vec::new();
    proof {
        assert(views(out@) =~= Seq::<RecordModel>::empty());
        assert(views(out@).to_multiset().add(views(input@).to_multiset()) =~= orig.to_multiset());
    }
    while input.len() > 0
        invariant
            views(out@).to_multiset().add(views(input@).to_multiset()) == orig.to_multiset(),
            sorted_by(views(out@), record_order()),
            forall|i: int, j: int|
                0 <= i < out@.len() && 0 <= j < input@.len() ==> #[trigger] record_le(
                    out@[i]@,
                    input@[j]@,
                ),
        decreases input@.len(),
    {
        broadcast use vstd::seq_lib::group_to_multiset_ensures;

        let mut best: usize = 0;
        let mut k: usize = 1;
        while k < input.len()
            invariant
                best < k,
                k <= input@.len(),
                0 < input@.len(),
                forall|j: int| 0 <= j < k ==> #[trigger] record_le(input@[best as int]@, input@[j]@),
            decreases input@.len() - k,
        {
            if record_le_exec(&input[k], &input[best]) {
                assert forall|j: int| 0 <= j < k + 1 implies #[trigger] record_le(
                    input@[k as int]@,
                    input@[j]@,
                ) by {
                    if j < k {
                        lemma_record_le_transitive(input@[k as int]@, input@[best as int]@, input@[j]@);
                    } else {
                        lemma_record_le_total(input@[k as int]@, input@[k as int]@);
                    }
                }
                best = k;
            } else {
                proof {
                    lemma_record_le_total(input@[best as int]@, input@[k as int]@);
                }
            }
            k = k + 1;
        }
        let ghost pre_in = input@;
        let ghost pre_out = out@;
        let m = input.remove(best);
        out.push(m);
        proof {
            lemma_views_remove(pre_in, best as int);
            lemma_views_push(pre_out, m);
            let vm = m@;
            let min = views(pre_in).to_multiset();
            let mout = views(pre_out).to_multiset();
            assert(views(pre_in)[best as int] == vm);
            assert(views(input@).to_multiset() =~= min.remove(vm));
            assert(views(out@).to_multiset() =~= mout.insert(vm));
            assert(min.contains(vm)) by {
                assert(views(pre_in).contains(vm)) by {
                    assert(views(pre_in)[best as int] == vm);
                }
            }
            assert(mout.insert(vm).add(min.remove(vm)) =~= mout.add(min));
            assert forall|i: int, j: int|
                0 <= i < out@.len() && 0 <= j < input@.len() implies #[trigger] record_le(
                out@[i]@,
                input@[j]@,
            ) by {
                assert(input@[j] == pre_in[if j < best { j } else { j + 1 }]);
                if i < pre_out.len() {
                    assert(record_le(pre_out[i]@, pre_in[if j < best { j } else { j + 1 }]@));
                } else {
                    assert(out@[i] == m);
                    assert(record_le(pre_in[best as int]@, pre_in[if j < best { j } else { j + 1 }]@));
                }
            }
            assert forall|i: int, j: int| 0 <= i < j < views(out@).len() implies #[trigger] record_order()(
                views(out@)[i],
                views(out@)[j],
            ) by {
                if j < pre_out.len() {
                    assert(sorted_by(views(pre_out), record_order()));
                    assert(record_order()(views(pre_out)[i], views(pre_out)[j]));
                } else {
                    assert(out@[j] == m);
                    assert(record_le(pre_out[i]@, pre_in[best as int]@));
                }
            }
        }
    }
    proof {
        assert(views(input@) =~= Seq::<RecordModel>::empty());
        assert(views(out@).to_multiset().add(views(input@).to_multiset()) =~= views(
            out@,
        ).to_multiset());
    }
    out
}

} // verus!
