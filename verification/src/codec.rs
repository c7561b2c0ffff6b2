use vstd::prelude::*;
use crate::record::{FileRecord, RecordModel, views, record_wf};

verus! {

/// Delimiter written after the path bytes of each record.
pub const PATH_DELIMITER: u8 = 10;

/// The eight bytes of `n` in big-endian order.
pub open spec fn be64(n: u64) -> Seq<u8> {
    seq![
        (n >> 56) as u8,
        (n >> 48) as u8,
        (n >> 40) as u8,
        (n >> 32) as u8,
        (n >> 24) as u8,
        (n >> 16) as u8,
        (n >> 8) as u8,
        n as u8,
    ]
}

/// The four bytes of `n` in big-endian order.
pub open spec fn be32(n: u32) -> Seq<u8> {
    seq![(n >> 24) as u8, (n >> 16) as u8, (n >> 8) as u8, n as u8]
}

/// The value read back from eight big-endian bytes.
pub open spec fn combine64(b0: u8, b1: u8, b2: u8, b3: u8, b4: u8, b5: u8, b6: u8, b7: u8) -> u64 {
    (((b0 as u64) << 56) | ((b1 as u64) << 48) | ((b2 as u64) << 40) | ((b3 as u64) << 32) | ((
    b4 as u64) << 24) | ((b5 as u64) << 16) | ((b6 as u64) << 8) | (b7 as u64)) as u64
}

pub proof fn lemma_be64_roundtrip(n: u64)
    ensures
        combine64(
            (n >> 56) as u8,
            (n >> 48) as u8,
            (n >> 40) as u8,
            (n >> 32) as u8,
            (n >> 24) as u8,
            (n >> 16) as u8,
            (n >> 8) as u8,
            n as u8,
        ) == n,
{
    assert(combine64(
        (n >> 56) as u8,
        (n >> 48) as u8,
        (n >> 40) as u8,
        (n >> 32) as u8,
        (n >> 24) as u8,
        (n >> 16) as u8,
        (n >> 8) as u8,
        n as u8,
    ) == n) by (bit_vector);
}

pub proof fn lemma_be64_reconstruct(b0: u8, b1: u8, b2: u8, b3: u8, b4: u8, b5: u8, b6: u8, b7: u8)
    ensures
        be64(combine64(b0, b1, b2, b3, b4, b5, b6, b7)) =~= seq![b0, b1, b2, b3, b4, b5, b6, b7],
{
    assert((combine64(b0, b1, b2, b3, b4, b5, b6, b7) >> 56) as u8 == b0) by (bit_vector);
    assert((combine64(b0, b1, b2, b3, b4, b5, b6, b7) >> 48) as u8 == b1) by (bit_vector);
    assert((combine64(b0, b1, b2, b3, b4, b5, b6, b7) >> 40) as u8 == b2) by (bit_vector);
    assert((combine64(b0, b1, b2, b3, b4, b5, b6, b7) >> 32) as u8 == b3) by (bit_vector);
    assert((combine64(b0, b1, b2, b3, b4, b5, b6, b7) >> 24) as u8 == b4) by (bit_vector);
    assert((combine64(b0, b1, b2, b3, b4, b5, b6, b7) >> 16) as u8 == b5) by (bit_vector);
    assert((combine64(b0, b1, b2, b3, b4, b5, b6, b7) >> 8) as u8 == b6) by (bit_vector);
    assert(combine64(b0, b1, b2, b3, b4, b5, b6, b7) as u8 == b7) by (bit_vector);
}

/// The value read back from four big-endian bytes.
pub open spec fn combine32(b0: u8, b1: u8, b2: u8, b3: u8) -> u32 {
    (((b0 as u32) << 24) | ((b1 as u32) << 16) | ((b2 as u32) << 8) | (b3 as u32)) as u32
}

pub proof fn lemma_be32_roundtrip(n: u32)
    ensures
        combine32((n >> 24) as u8, (n >> 16) as u8, (n >> 8) as u8, n as u8) == n,
{
    assert(combine32((n >> 24) as u8, (n >> 16) as u8, (n >> 8) as u8, n as u8) == n)
        by (bit_vector);
}

/// A path may stand in a record only if it is free of the delimiter byte.
pub open spec fn path_ok(p: Seq<u8>) -> bool {
    forall|i: int| 0 <= i < p.len() ==> p[i] != PATH_DELIMITER
}

/// One record the payload format can represent faithfully: a well-formed
/// record whose path is free of the delimiter.
pub open spec fn records_ok_at(s: Seq<RecordModel>, i: int) -> bool {
    record_wf(s[i]) && path_ok(s[i].path)
}

/// Records that the payload format can represent faithfully.
pub open spec fn records_ok(s: Seq<RecordModel>) -> bool {
    forall|i: int| 0 <= i < s.len() ==> #[trigger] records_ok_at(s, i)
}

/// The payload bytes of one record: path, delimiter, digest, big-endian
/// size, and two reserved zero bytes.
pub open spec fn record_bytes(r: RecordModel) -> Seq<u8> {
    r.path + seq![PATH_DELIMITER] + r.digest + be64(r.size) + seq![0u8, 0u8]
}

/// The uncompressed payload: the concatenated record encodings, in order.
pub open spec fn payload_bytes(s: Seq<RecordModel>) -> Seq<u8>
    decreases s.len(),
{
    if s.len() == 0 {
        Seq::empty()
    } else {
        record_bytes(s.first()) + payload_bytes(s.drop_first())
    }
}

pub proof fn lemma_payload_snoc(s: Seq<RecordModel>, x: RecordModel)
    ensures
        payload_bytes(s.push(x)) == payload_bytes(s) + record_bytes(x),
    decreases s.len(),
{
    if s.len() == 0 {
        assert(s.push(x).drop_first() =~= Seq::<RecordModel>::empty());
        assert(s.push(x).first() == x);
        assert(payload_bytes(s.push(x)) == record_bytes(x) + payload_bytes(
            Seq::<RecordModel>::empty(),
        ));
        assert(record_bytes(x) + Seq::<u8>::empty() =~= Seq::<u8>::empty() + record_bytes(x));
    } else {
        assert(s.push(x).drop_first() =~= s.drop_first().push(x));
        assert(s.push(x).first() == s.first());
        lemma_payload_snoc(s.drop_first(), x);
        assert(payload_bytes(s.push(x)) == record_bytes(s.first()) + (payload_bytes(s.drop_first())
            + record_bytes(x)));
        assert(record_bytes(s.first()) + (payload_bytes(s.drop_first()) + record_bytes(x)) =~= (
        record_bytes(s.first()) + payload_bytes(s.drop_first())) + record_bytes(x));
    }
}

/// Where each field of a record stands in its encoding.
pub proof fn lemma_record_bytes_index(r: RecordModel)
    requires
        record_wf(r),
    ensures
        record_bytes(r).len() == r.path.len() + 43,
        forall|i: int| 0 <= i < r.path.len() ==> #[trigger] record_bytes(r)[i] == r.path[i],
        record_bytes(r)[r.path.len() as int] == PATH_DELIMITER,
        forall|i: int|
            0 <= i < 32 ==> #[trigger] record_bytes(r)[r.path.len() + 1 + i] == r.digest[i],
        forall|i: int|
            0 <= i < 8 ==> #[trigger] record_bytes(r)[r.path.len() + 33 + i] == be64(r.size)[i],
        record_bytes(r)[r.path.len() as int + 41] == 0u8,
        record_bytes(r)[r.path.len() as int + 42] == 0u8,
{
    let p = r.path.len() as int;
    let a = r.path + seq![PATH_DELIMITER];
    let b = a + r.digest;
    let c = b + be64(r.size);
    let d = c + seq![0u8, 0u8];
    assert(record_bytes(r) == d);
    assert forall|i: int| 0 <= i < r.path.len() implies #[trigger] record_bytes(r)[i]
        == r.path[i] by {
        assert(a[i] == r.path[i]);
        assert(b[i] == a[i]);
        assert(c[i] == b[i]);
        assert(d[i] == c[i]);
    }
    assert(a[p] == PATH_DELIMITER);
    assert(b[p] == a[p]);
    assert(c[p] == b[p]);
    assert(d[p] == c[p]);
    assert forall|i: int| 0 <= i < 32 implies #[trigger] record_bytes(r)[p + 1 + i]
        == r.digest[i] by {
        assert(b[p + 1 + i] == r.digest[i]);
        assert(c[p + 1 + i] == b[p + 1 + i]);
        assert(d[p + 1 + i] == c[p + 1 + i]);
    }
    assert forall|i: int| 0 <= i < 8 implies #[trigger] record_bytes(r)[p + 33 + i] == be64(
        r.size,
    )[i] by {
        assert(c[p + 33 + i] == be64(r.size)[p + 33 + i - b.len()]);
        assert(p + 33 + i - b.len() == i);
        assert(d[p + 33 + i] == c[p + 33 + i]);
    }
    assert(d[p + 41] == 0u8);
    assert(d[p + 42] == 0u8);
}

/// A record's bytes determine the record and what follows it: the payload
/// format is prefix-unambiguous.
pub proof fn lemma_record_unambiguous(r1: RecordModel, r2: RecordModel, t1: Seq<u8>, t2: Seq<u8>)
    requires
        record_wf(r1),
        path_ok(r1.path),
        record_wf(r2),
        path_ok(r2.path),
        record_bytes(r1) + t1 == record_bytes(r2) + t2,
    ensures
        r1 == r2,
        t1 == t2,
{
    let u = record_bytes(r1) + t1;
    let p1 = r1.path.len() as int;
    let p2 = r2.path.len() as int;
    lemma_record_bytes_index(r1);
    lemma_record_bytes_index(r2);
    assert forall|i: int| 0 <= i < p1 + 43 implies u[i] == record_bytes(r1)[i] by {}
    assert forall|i: int| 0 <= i < p2 + 43 implies u[i] == record_bytes(r2)[i] by {
        assert(u == record_bytes(r2) + t2);
        assert((record_bytes(r2) + t2)[i] == record_bytes(r2)[i]);
    }
    assert(u[p1] == PATH_DELIMITER);
    assert(u[p2] == PATH_DELIMITER);
    assert(p1 == p2) by {
        if p1 < p2 {
            assert(u[p1] == record_bytes(r2)[p1]);
            assert(record_bytes(r2)[p1] == r2.path[p1]);
        } else if p2 < p1 {
            assert(u[p2] == record_bytes(r1)[p2]);
            assert(record_bytes(r1)[p2] == r1.path[p2]);
        }
    }
    assert forall|i: int| 0 <= i < p1 implies r1.path[i] == r2.path[i] by {
        assert(u[i] == record_bytes(r1)[i]);
        assert(u[i] == record_bytes(r2)[i]);
    }
    assert(r1.path =~= r2.path);
    assert forall|i: int| 0 <= i < 32 implies r1.digest[i] == r2.digest[i] by {
        assert(u[p1 + 1 + i] == record_bytes(r1)[p1 + 1 + i]);
        assert(u[p1 + 1 + i] == record_bytes(r2)[p1 + 1 + i]);
    }
    assert(r1.digest =~= r2.digest);
    assert forall|i: int| 0 <= i < 8 implies be64(r1.size)[i] == be64(r2.size)[i] by {
        assert(u[p1 + 33 + i] == record_bytes(r1)[p1 + 33 + i]);
        assert(u[p1 + 33 + i] == record_bytes(r2)[p1 + 33 + i]);
    }
    assert(r1.size == r2.size) by {
        lemma_be64_roundtrip(r1.size);
        lemma_be64_roundtrip(r2.size);
        assert(be64(r1.size)[0] == be64(r2.size)[0]);
        assert(be64(r1.size)[1] == be64(r2.size)[1]);
        assert(be64(r1.size)[2] == be64(r2.size)[2]);
        assert(be64(r1.size)[3] == be64(r2.size)[3]);
        assert(be64(r1.size)[4] == be64(r2.size)[4]);
        assert(be64(r1.size)[5] == be64(r2.size)[5]);
        assert(be64(r1.size)[6] == be64(r2.size)[6]);
        assert(be64(r1.size)[7] == be64(r2.size)[7]);
    }
    assert(r1 =~= r2);
    assert(u.len() == p1 + 43 + t1.len());
    assert(u.len() == p2 + 43 + t2.len());
    assert(t1.len() == t2.len());
    assert forall|i: int| 0 <= i < t1.len() implies t1[i] == t2[i] by {
        assert(u[p1 + 43 + i] == t1[(p1 + 43 + i) - record_bytes(r1).len()]);
        assert(u == record_bytes(r2) + t2);
        assert((record_bytes(r2) + t2)[p2 + 43 + i] == t2[(p2 + 43 + i) - record_bytes(r2).len()]);
    }
    assert(t1 =~= t2);
}

/// Two record sequences with the same payload bytes are the same sequence.
pub proof fn lemma_payload_injective(s1: Seq<RecordModel>, s2: Seq<RecordModel>)
    requires
        records_ok(s1),
        records_ok(s2),
        payload_bytes(s1) == payload_bytes(s2),
    ensures
        s1 == s2,
    decreases s1.len(),
{
    if s1.len() == 0 {
        if s2.len() > 0 {
            assert(payload_bytes(s2).len() >= record_bytes(s2.first()).len());
        }
        assert(s1 =~= s2);
    } else if s2.len() == 0 {
        assert(payload_bytes(s1).len() >= record_bytes(s1.first()).len());
        assert(s1 =~= s2);
    } else {
        assert(records_ok_at(s1, 0));
        assert(records_ok_at(s2, 0));
        lemma_record_unambiguous(
            s1.first(),
            s2.first(),
            payload_bytes(s1.drop_first()),
            payload_bytes(s2.drop_first()),
        );
        assert forall|i: int| 0 <= i < s1.drop_first().len() implies #[trigger] records_ok_at(
            s1.drop_first(),
            i,
        ) by {
            assert(s1.drop_first()[i] == s1[i + 1]);
            assert(records_ok_at(s1, i + 1));
        }
        assert forall|i: int| 0 <= i < s2.drop_first().len() implies #[trigger] records_ok_at(
            s2.drop_first(),
            i,
        ) by {
            assert(s2.drop_first()[i] == s2[i + 1]);
            assert(records_ok_at(s2, i + 1));
        }
        lemma_payload_injective(s1.drop_first(), s2.drop_first());
        assert forall|i: int| 0 <= i < s1.len() implies s1[i] == s2[i] by {
            if i > 0 {
                assert(s1[i] == s1.drop_first()[i - 1]);
                assert(s2[i] == s2.drop_first()[i - 1]);
            }
        }
        assert(s1 =~= s2);
    }
}

/// Append the bytes of `data` to `out`.
pub fn push_bytes(out: &mut Vec<u8>, data: &Vec<u8>)
    ensures
        final(out)@ == old(out)@ + data@,
{
    let mut j: usize = 0;
    proof {
        assert(out@ =~= old(out)@ + data@.take(0int));
    }
    while j < data.len()
        invariant
            j <= data@.len(),
            out@ == old(out)@ + data@.take(j as int),
        decreases data@.len() - j,
    {
        out.push(data[j]);
        proof {
            assert(out@ =~= old(out)@ + data@.take(j + 1));
        }
        j = j + 1;
    }
    proof {
        assert(data@.take(data@.len() as int) =~= data@);
    }
}

/// Append the eight big-endian bytes of `n` to `out`.
pub fn push_be64(out: &mut Vec<u8>, n: u64)
    ensures
        final(out)@ == old(out)@ + be64(n),
{
    out.push((n >> 56) as u8);
    out.push((n >> 48) as u8);
    out.push((n >> 40) as u8);
    out.push((n >> 32) as u8);
    out.push((n >> 24) as u8);
    out.push((n >> 16) as u8);
    out.push((n >> 8) as u8);
    out.push(n as u8);
    proof {
        assert(out@ =~= old(out)@ + be64(n));
    }
}

/// Append the four big-endian bytes of `n` to `out`.
pub fn push_be32(out: &mut Vec<u8>, n: u32)
    ensures
        final(out)@ == old(out)@ + be32(n),
{
    out.push((n >> 24) as u8);
    out.push((n >> 16) as u8);
    out.push((n >> 8) as u8);
    out.push(n as u8);
    proof {
        assert(out@ =~= old(out)@ + be32(n));
    }
}

/// Copy `bytes[a..b]` into a fresh vector.
pub fn copy_range(bytes: &Vec<u8>, a: usize, b: usize) -> (r: Vec<u8>)
    requires
        a <= b <= bytes@.len(),
    ensures
        r@ == bytes@.subrange(a as int, b as int),
{
    let mut out: Vec<u8> = Vec::new();
    let mut k: usize = a;
    proof {
        assert(out@ =~= bytes@.subrange(a as int, a as int));
    }
    while k < b
        invariant
            a <= k <= b <= bytes@.len(),
            out@ == bytes@.subrange(a as int, k as int),
        decreases b - k,
    {
        out.push(bytes[k]);
        proof {
            assert(out@ =~= bytes@.subrange(a as int, k + 1));
        }
        k = k + 1;
    }
    out
}

/// Parse an uncompressed payload back into its records.
///
/// Succeeds exactly on the byte strings that are the payload of some
/// representable record sequence, and then returns that sequence: together
/// with `encode_payload` this is the round trip through the payload format.
pub fn decode_payload(bytes: &Vec<u8>) -> (r: Option<Vec<FileRecord>>)
    ensures
        r is Some ==> records_ok(views(r.unwrap()@)) && payload_bytes(views(r.unwrap()@)) == bytes@,
        forall|recs: Seq<RecordModel>|
            records_ok(recs) && payload_bytes(recs) == bytes@ ==> r is Some && views(r.unwrap()@)
                == recs,
{
    let n = bytes.len();
    let mut pos: usize = 0;
    let mut out: Vec<FileRecord> = Vec::new();
    proof {
        assert(views(out@) =~= Seq::<RecordModel>::empty());
        assert(payload_bytes(views(out@)) =~= bytes@.take(0int));
        assert forall|recs: Seq<RecordModel>|
            records_ok(recs) && payload_bytes(recs) == bytes@ implies out@.len() <= recs.len()
            && views(out@) == recs.take(out@.len() as int) && payload_bytes(
            recs.skip(out@.len() as int),
        ) == bytes@.skip(0int) by {
            assert(recs.skip(0int) =~= recs);
            assert(bytes@.skip(0int) =~= bytes@);
            assert(views(out@) =~= recs.take(0int));
        }
    }
    while pos < n
        invariant
            pos <= n,
            n == bytes@.len(),
            records_ok(views(out@)),
            payload_bytes(views(out@)) == bytes@.take(pos as int),
            forall|recs: Seq<RecordModel>|
                records_ok(recs) && payload_bytes(recs) == bytes@ ==> out@.len() <= recs.len()
                    && views(out@) == recs.take(out@.len() as int) && payload_bytes(
                    recs.skip(out@.len() as int),
                ) == bytes@.skip(pos as int),
        decreases n - pos,
    {
        let ghost m = out@.len() as int;
        // Find the path delimiter.
        let mut j: usize = pos;
        while j < n && bytes[j] != PATH_DELIMITER
            invariant
                pos <= j <= n,
                n == bytes@.len(),
                forall|k: int| pos <= k < j ==> bytes@[k] != PATH_DELIMITER,
            decreases n - j,
        {
            j = j + 1;
        }
        proof {
            assert forall|recs: Seq<RecordModel>|
                records_ok(recs) && payload_bytes(recs) == bytes@ implies recs.skip(m).len() > 0
                && (recs.skip(m).first().path.len() == j - pos && j < n && pos + recs.skip(
                m,
            ).first().path.len() + 43 <= n) by {
                let rest = recs.skip(m);
                assert(payload_bytes(rest) == bytes@.skip(pos as int));
                assert(bytes@.skip(pos as int).len() > 0);
                assert(rest.len() > 0);
                let r0 = rest.first();
                assert(records_ok_at(recs, m));
                assert(r0 == recs[m]);
                assert(record_wf(r0) && path_ok(r0.path));
                lemma_record_bytes_index(r0);
                let pl = r0.path.len() as int;
                let tail = payload_bytes(rest.drop_first());
                assert(payload_bytes(rest) == record_bytes(r0) + tail);
                assert(bytes@.skip(pos as int).len() >= pl + 43);
                assert forall|i: int| 0 <= i < pl + 43 implies bytes@[pos + i] == record_bytes(
                    r0,
                )[i] by {
                    assert((record_bytes(r0) + tail)[i] == record_bytes(r0)[i]);
                    assert(bytes@.skip(pos as int)[i] == bytes@[pos + i]);
                }
                assert(bytes@[pos + pl] == PATH_DELIMITER);
                // The scan stopped exactly at the delimiter.
                if pl < j - pos {
                    assert(bytes@[pos + pl] != PATH_DELIMITER);
                }
                if pl > j - pos {
                    assert(j < n) by {
                        assert(pos + pl < bytes@.len());
                    }
                    assert(bytes@[j as int] == PATH_DELIMITER);
                    assert(bytes@[pos + (j - pos)] == record_bytes(r0)[j - pos]);
                    assert(record_bytes(r0)[j - pos] == r0.path[j - pos]);
                    assert(r0.path[j - pos] != PATH_DELIMITER);
                }
                assert(pl == j - pos);
                assert(pos + pl < bytes@.len());
                assert(j < n);
            }
        }
        if j == n {
            proof {
                assert forall|recs: Seq<RecordModel>|
                    !(records_ok(recs) && payload_bytes(recs) == bytes@) by {
                    if records_ok(recs) && payload_bytes(recs) == bytes@ {
                        assert(recs.skip(m).len() > 0 && j < n);
                    }
                }
            }
            return None;
        }
        if n - j < 43 {
            proof {
                assert forall|recs: Seq<RecordModel>|
                    !(records_ok(recs) && payload_bytes(recs) == bytes@) by {
                    if records_ok(recs) && payload_bytes(recs) == bytes@ {
                        assert(pos + recs.skip(m).first().path.len() + 43 <= n);
                        assert(recs.skip(m).first().path.len() == j - pos);
                    }
                }
            }
            return None;
        }
        let path = copy_range(bytes, pos, j);
        let digest = copy_range(bytes, j + 1, j + 33);
        let size: u64 = ((bytes[j + 33] as u64) << 56) | ((bytes[j + 34] as u64) << 48) | ((bytes[j
            + 35] as u64) << 40) | ((bytes[j + 36] as u64) << 32) | ((bytes[j + 37] as u64) << 24)
            | ((bytes[j + 38] as u64) << 16) | ((bytes[j + 39] as u64) << 8) | (bytes[j
            + 40] as u64);
        if bytes[j + 41] != 0 || bytes[j + 42] != 0 {
            proof {
                assert forall|recs: Seq<RecordModel>|
                    !(records_ok(recs) && payload_bytes(recs) == bytes@) by {
                    if records_ok(recs) && payload_bytes(recs) == bytes@ {
                        let rest = recs.skip(m);
                        let r0 = rest.first();
                        assert(records_ok_at(recs, m));
                        assert(r0 == recs[m]);
                        lemma_record_bytes_index(r0);
                        let pl = r0.path.len() as int;
                        assert(pl == j - pos);
                        let tail = payload_bytes(rest.drop_first());
                        assert(payload_bytes(rest) == record_bytes(r0) + tail);
                        assert(bytes@.skip(pos as int)[pl + 41] == record_bytes(r0)[pl + 41]);
                        assert(bytes@.skip(pos as int)[pl + 42] == record_bytes(r0)[pl + 42]);
                        assert(bytes@[j + 41] == 0u8);
                        assert(bytes@[j + 42] == 0u8);
                    }
                }
            }
            return None;
        }
        let rec = FileRecord { path, digest, size };
        proof {
            assert(rec@.path == bytes@.subrange(pos as int, j as int));
            assert(rec@.digest == bytes@.subrange(j + 1, j + 33));
            assert(record_wf(rec@));
            assert(path_ok(rec@.path)) by {
                assert forall|i: int| 0 <= i < rec@.path.len() implies rec@.path[i]
                    != PATH_DELIMITER by {
                    assert(rec@.path[i] == bytes@[pos + i]);
                }
            }
            lemma_record_bytes_index(rec@);
            lemma_be64_reconstruct(
                bytes@[j + 33],
                bytes@[j + 34],
                bytes@[j + 35],
                bytes@[j + 36],
                bytes@[j + 37],
                bytes@[j + 38],
                bytes@[j + 39],
                bytes@[j + 40],
            );
            assert(be64(rec@.size) =~= seq![
                bytes@[j + 33],
                bytes@[j + 34],
                bytes@[j + 35],
                bytes@[j + 36],
                bytes@[j + 37],
                bytes@[j + 38],
                bytes@[j + 39],
                bytes@[j + 40],
            ]);
            assert(record_bytes(rec@) =~= bytes@.subrange(pos as int, j + 43)) by {
                assert(record_bytes(rec@).len() == (j - pos) + 43);
                assert forall|i: int| 0 <= i < (j - pos) + 43 implies record_bytes(rec@)[i]
                    == bytes@[pos + i] by {
                    let pl = j - pos;
                    if i < pl {
                        assert(record_bytes(rec@)[i] == rec@.path[i]);
                        assert(rec@.path[i] == bytes@[pos + i]);
                    } else if i == pl {
                        assert(record_bytes(rec@)[pl] == PATH_DELIMITER);
                    } else if i < pl + 33 {
                        assert(record_bytes(rec@)[pl + 1 + (i - pl - 1)] == rec@.digest[i - pl
                            - 1]);
                        assert(rec@.digest[i - pl - 1] == bytes@[j + 1 + (i - pl - 1)]);
                    } else if i < pl + 41 {
                        assert(record_bytes(rec@)[pl + 33 + (i - pl - 33)] == be64(rec@.size)[i - pl
                            - 33]);
                        assert(be64(rec@.size)[i - pl - 33] == bytes@[j + 33 + (i - pl - 33)]);
                    } else if i == pl + 41 {
                        assert(record_bytes(rec@)[pl + 41] == 0u8);
                        assert(bytes@[j + 41] == 0u8);
                    } else {
                        assert(record_bytes(rec@)[pl + 42] == 0u8);
                        assert(bytes@[j + 42] == 0u8);
                    }
                }
            }
        }
        let ghost pre_out = out@;
        out.push(rec);
        let new_pos = j + 43;
        proof {
            assert(views(out@) =~= views(pre_out).push(rec@));
            // Soundness of the extended prefix.
            lemma_payload_snoc(views(pre_out), rec@);
            assert(bytes@.take(new_pos as int) =~= bytes@.take(pos as int) + bytes@.subrange(
                pos as int,
                j + 43,
            ));
            assert(payload_bytes(views(out@)) == bytes@.take(new_pos as int));
            assert forall|i: int| 0 <= i < views(out@).len() implies #[trigger] records_ok_at(
                views(out@),
                i,
            ) by {
                if i < views(pre_out).len() {
                    assert(records_ok_at(views(pre_out), i));
                    assert(views(out@)[i] == views(pre_out)[i]);
                } else {
                    assert(views(out@)[i] == rec@);
                }
            }
            // Completeness is preserved.
            assert forall|recs: Seq<RecordModel>|
                records_ok(recs) && payload_bytes(recs) == bytes@ implies out@.len() <= recs.len()
                && views(out@) == recs.take(out@.len() as int) && payload_bytes(
                recs.skip(out@.len() as int),
            ) == bytes@.skip(new_pos as int) by {
                let rest = recs.skip(m);
                assert(rest.len() > 0);
                let r0 = rest.first();
                assert(records_ok_at(recs, m));
                assert(r0 == recs[m]);
                let tail = payload_bytes(rest.drop_first());
                assert(payload_bytes(rest) == record_bytes(r0) + tail);
                assert(bytes@.skip(pos as int) =~= bytes@.subrange(pos as int, j + 43) + bytes@.skip(
                    new_pos as int,
                ));
                assert(record_bytes(rec@) + bytes@.skip(new_pos as int) == record_bytes(r0)
                    + tail);
                lemma_record_unambiguous(rec@, r0, bytes@.skip(new_pos as int), tail);
                assert(rec@ == r0);
                assert(rest.drop_first() =~= recs.skip(m + 1));
                assert(payload_bytes(recs.skip(m + 1)) == bytes@.skip(new_pos as int));
                assert(views(out@) =~= recs.take(m + 1)) by {
                    assert(views(pre_out) == recs.take(m));
                    assert forall|i: int| 0 <= i < m + 1 implies views(out@)[i] == recs.take(
                        m + 1,
                    )[i] by {
                        if i < m {
                            assert(views(out@)[i] == views(pre_out)[i]);
                            assert(views(pre_out)[i] == recs.take(m)[i]);
                        } else {
                            assert(views(out@)[i] == rec@);
                            assert(recs.take(m + 1)[i] == recs[m]);
                        }
                    }
                }
            }
        }
        pos = new_pos;
    }
    proof {
        assert(bytes@.take(pos as int) =~= bytes@);
        assert forall|recs: Seq<RecordModel>|
            records_ok(recs) && payload_bytes(recs) == bytes@ implies views(out@) == recs by {
            let rest = recs.skip(out@.len() as int);
            assert(payload_bytes(rest) == bytes@.skip(pos as int));
            assert(bytes@.skip(pos as int).len() == 0);
            if rest.len() > 0 {
                assert(payload_bytes(rest).len() >= record_bytes(rest.first()).len());
            }
            assert(rest.len() == 0);
            assert(recs.take(out@.len() as int) =~= recs);
        }
    }
    Some(out)
}

/// Serialize the records, in the order given, into the uncompressed payload.
pub fn encode_payload(records: &Vec<FileRecord>) -> (r: Vec<u8>)
    ensures
        r@ == payload_bytes(views(records@)),
{
    let mut out: Vec<u8> = Vec::new();
    let mut i: usize = 0;
    proof {
        assert(views(records@).take(0int) =~= Seq::<RecordModel>::empty());
    }
    while i < records.len()
        invariant
            i <= records@.len(),
            out@ == payload_bytes(views(records@).take(i as int)),
        decreases records@.len() - i,
    {
        let ghost pre = out@;
        let rec = &records[i];
        push_bytes(&mut out, &rec.path);
        out.push(PATH_DELIMITER);
        push_bytes(&mut out, &rec.digest);
        push_be64(&mut out, rec.size);
        out.push(0u8);
        out.push(0u8);
        proof {
            assert(out@ =~= pre + record_bytes(records@[i as int]@));
            lemma_payload_snoc(views(records@).take(i as int), records@[i as int]@);
            assert(views(records@).take(i + 1) =~= views(records@).take(i as int).push(
                records@[i as int]@,
            ));
        }
        i = i + 1;
    }
    proof {
        assert(views(records@).take(records@.len() as int) =~= views(records@));
    }
    out
}

} // verus!
