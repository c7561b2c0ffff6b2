use vstd::prelude::*;
use vstd::relations::{sorted_by, total_ordering};

verus! {

/// Number of bytes in a content digest.
pub const DIGEST_LEN: usize = 32;

/// Mathematical model of one record: the path's UTF-8 bytes, the digest
/// bytes, and the file size that was read and verified.
#[verifier::ext_equal]
pub ghost struct RecordModel {
    pub path: Seq<u8>,
    pub digest: Seq<u8>,
    pub size: u64,
}

/// One successfully hashed file: its path bytes, its content digest, and its
/// size in bytes.
pub struct FileRecord {
    pub path: Vec<u8>,
    pub digest: Vec<u8>,
    pub size: u64,
}

impl View for FileRecord {
    type V = RecordModel;

    open spec fn view(&self) -> RecordModel {
        RecordModel { path: self.path@, digest: self.digest@, size: self.size }
    }
}

/// A record is well formed when its digest has the fixed digest width.
pub open spec fn record_wf(r: RecordModel) -> bool {
    r.digest.len() == DIGEST_LEN
}

/// The models of a sequence of records.
pub open spec fn views(s: Seq<FileRecord>) -> Seq<RecordModel> {
    s.map_values(|r: FileRecord| r@)
}

/// Byte-wise lexicographic order on byte strings.
pub open spec fn lex_le(a: Seq<u8>, b: Seq<u8>) -> bool
    decreases a.len(),
{
    if a.len() == 0 {
        true
    } else if b.len() == 0 {
        false
    } else if a[0] < b[0] {
        true
    } else if a[0] > b[0] {
        false
    } else {
        lex_le(a.drop_first(), b.drop_first())
    }
}

pub proof fn lemma_lex_le_total(a: Seq<u8>, b: Seq<u8>)
    ensures
        lex_le(a, b) || lex_le(b, a),
    decreases a.len(),
{
    if a.len() > 0 && b.len() > 0 && a[0] == b[0] {
        lemma_lex_le_total(a.drop_first(), b.drop_first());
    }
}

pub proof fn lemma_lex_le_antisymmetric(a: Seq<u8>, b: Seq<u8>)
    requires
        lex_le(a, b),
        lex_le(b, a),
    ensures
        a == b,
    decreases a.len(),
{
    if a.len() == 0 {
        assert(b.len() == 0);
        assert(a =~= b);
    } else {
        assert(b.len() > 0);
        assert(a[0] == b[0]);
        lemma_lex_le_antisymmetric(a.drop_first(), b.drop_first());
        assert(a.drop_first().len() == b.drop_first().len());
        assert forall|i: int| 0 <= i < a.len() implies a[i] == b[i] by {
            if i >= 1 {
                assert(a[i] == a.drop_first()[i - 1]);
                assert(b[i] == b.drop_first()[i - 1]);
            }
        }
        assert(a =~= b);
    }
}

pub proof fn lemma_lex_le_transitive(a: Seq<u8>, b: Seq<u8>, c: Seq<u8>)
    requires
        lex_le(a, b),
        lex_le(b, c),
    ensures
        lex_le(a, c),
    decreases a.len(),
{
    if a.len() > 0 && b.len() > 0 && c.len() > 0 && a[0] == b[0] && b[0] == c[0] {
        lemma_lex_le_transitive(a.drop_first(), b.drop_first(), c.drop_first());
    }
}

/// Total order on record models: by path bytes, with digest and size as tie
/// breakers so that the relation is antisymmetric on all models.
pub open spec fn record_le(a: RecordModel, b: RecordModel) -> bool {
    if a.path != b.path {
        lex_le(a.path, b.path)
    } else if a.digest != b.digest {
        lex_le(a.digest, b.digest)
    } else {
        a.size <= b.size
    }
}

/// The record order as a binary relation value.
pub open spec fn record_order() -> spec_fn(RecordModel, RecordModel) -> bool {
    |a: RecordModel, b: RecordModel| record_le(a, b)
}

pub proof fn lemma_record_le_total(a: RecordModel, b: RecordModel)
    ensures
        record_le(a, b) || record_le(b, a),
{
    lemma_lex_le_total(a.path, b.path);
    lemma_lex_le_total(a.digest, b.digest);
}

pub proof fn lemma_record_le_antisymmetric(a: RecordModel, b: RecordModel)
    requires
        record_le(a, b),
        record_le(b, a),
    ensures
        a == b,
{
    if a.path != b.path {
        lemma_lex_le_antisymmetric(a.path, b.path);
    } else if a.digest != b.digest {
        lemma_lex_le_antisymmetric(a.digest, b.digest);
    } else {
        assert(a.size == b.size);
        assert(a =~= b);
    }
}

pub proof fn lemma_record_le_transitive(a: RecordModel, b: RecordModel, c: RecordModel)
    requires
        record_le(a, b),
        record_le(b, c),
    ensures
        record_le(a, c),
{
    if a.path == b.path && b.path == c.path {
        if a.digest == b.digest && b.digest == c.digest {
        } else if a.digest == b.digest {
        } else if b.digest == c.digest {
        } else {
            lemma_lex_le_transitive(a.digest, b.digest, c.digest);
            if a.digest == c.digest {
                lemma_lex_le_antisymmetric(b.digest, c.digest);
            }
        }
    } else if a.path == b.path {
    } else if b.path == c.path {
    } else {
        lemma_lex_le_transitive(a.path, b.path, c.path);
        if a.path == c.path {
            lemma_lex_le_antisymmetric(b.path, c.path);
        }
    }
}

pub proof fn lemma_lex_le_from_prefix(a: Seq<u8>, b: Seq<u8>, i: int)
    requires
        0 <= i <= a.len(),
        i <= b.len(),
        forall|k: int| 0 <= k < i ==> a[k] == b[k],
        i == a.len() || (i < b.len() && a[i] < b[i]),
    ensures
        lex_le(a, b),
    decreases i,
{
    if i == 0 {
    } else {
        assert(a[0] == b[0]);
        assert forall|k: int| 0 <= k < i - 1 implies a.drop_first()[k] == b.drop_first()[k] by {
            assert(a.drop_first()[k] == a[k + 1]);
            assert(b.drop_first()[k] == b[k + 1]);
        }
        if i < a.len() {
            assert(a.drop_first()[i - 1] == a[i]);
            assert(b.drop_first()[i - 1] == b[i]);
        }
        lemma_lex_le_from_prefix(a.drop_first(), b.drop_first(), i - 1);
    }
}

/// Outcome of a three-way byte-string comparison.
pub enum Cmp {
    Lt,
    Eq,
    Gt,
}

/// Three-way byte-wise lexicographic comparison.
pub fn cmp_bytes(a: &Vec<u8>, b: &Vec<u8>) -> (r: Cmp)
    ensures
        (r is Eq) == (a@ == b@),
        r is Lt ==> lex_le(a@, b@) && a@ != b@,
        r is Gt ==> lex_le(b@, a@) && a@ != b@,
{
    let n: usize = if a.len() < b.len() {
        a.len()
    } else {
        b.len()
    };
    let mut i: usize = 0;
    while i < n
        invariant
            i <= n,
            n <= a@.len(),
            n <= b@.len(),
            n == a@.len() || n == b@.len(),
            forall|k: int| 0 <= k < i ==> a@[k] == b@[k],
        decreases n - i,
    {
        let x = a[i];
        let y = b[i];
        if x < y {
            proof {
                lemma_lex_le_from_prefix(a@, b@, i as int);
                assert(a@[i as int] != b@[i as int]);
            }
            return Cmp::Lt;
        }
        if x > y {
            proof {
                lemma_lex_le_from_prefix(b@, a@, i as int);
                assert(a@[i as int] != b@[i as int]);
            }
            return Cmp::Gt;
        }
        i = i + 1;
    }
    if a.len() == b.len() {
        proof {
            assert(a@ =~= b@);
        }
        Cmp::Eq
    } else if a.len() < b.len() {
        proof {
            lemma_lex_le_from_prefix(a@, b@, a@.len() as int);
        }
        Cmp::Lt
    } else {
        proof {
            lemma_lex_le_from_prefix(b@, a@, b@.len() as int);
        }
        Cmp::Gt
    }
}

/// Executable form of the record order.
pub fn record_le_exec(a: &FileRecord, b: &FileRecord) -> (r: bool)
    ensures
        r == record_le(a@, b@),
{
    match cmp_bytes(&a.path, &b.path) {
        Cmp::Lt => true,
        Cmp::Gt => {
            proof {
                if lex_le(a@.path, b@.path) {
                    lemma_lex_le_antisymmetric(a@.path, b@.path);
                }
            }
            false
        },
        Cmp::Eq => {
            match cmp_bytes(&a.digest, &b.digest) {
                Cmp::Lt => true,
                Cmp::Gt => {
                    proof {
                        if lex_le(a@.digest, b@.digest) {
                            lemma_lex_le_antisymmetric(a@.digest, b@.digest);
                        }
                    }
                    false
                },
                Cmp::Eq => a.size <= b.size,
            }
        },
    }
}

/// The record order is a total ordering in the sense of `vstd::relations`.
pub proof fn lemma_record_order_total_ordering()
    ensures
        total_ordering(record_order()),
{
    let leq = record_order();
    assert forall|a: RecordModel| #[trigger] leq(a, a) by {
        lemma_record_le_total(a, a);
    }
    assert forall|a: RecordModel, b: RecordModel| #[trigger] leq(a, b) && #[trigger] leq(b, a)
        implies a == b by {
        lemma_record_le_antisymmetric(a, b);
    }
    assert forall|a: RecordModel, b: RecordModel, c: RecordModel|
        #[trigger] leq(a, b) && #[trigger] leq(b, c) implies leq(a, c) by {
        lemma_record_le_transitive(a, b, c);
    }
    assert forall|a: RecordModel, b: RecordModel| #[trigger] leq(a, b) || #[trigger] leq(b, a) by {
        lemma_record_le_total(a, b);
    }
}

} // verus!
