use vstd::prelude::*;
use crate::record::{FileRecord, RecordModel};
use crate::codec::push_bytes;

verus! {

/// The uppercase hexadecimal digit of a value below sixteen.
pub open spec fn hex_digit(n: int) -> u8 {
    if n < 10 {
        (48 + n) as u8
    } else {
        (55 + n) as u8
    }
}

/// The uppercase hexadecimal text of a byte string, two digits per byte.
pub open spec fn hex_bytes(data: Seq<u8>) -> Seq<u8>
    decreases data.len(),
{
    if data.len() == 0 {
        Seq::empty()
    } else {
        hex_bytes(data.drop_last()).push(hex_digit(data.last() as int / 16)).push(
            hex_digit(data.last() as int % 16),
        )
    }
}

/// The decimal text of a number, most significant digit first, no sign and
/// no leading zero.
pub open spec fn dec_bytes(n: nat) -> Seq<u8>
    decreases n,
{
    if n < 10 {
        seq![(48 + n) as u8]
    } else {
        dec_bytes(n / 10).push((48 + n % 10) as u8)
    }
}

/// Uppercase hexadecimal encoding.
pub fn to_hex_upper(data: &Vec<u8>) -> (r: Vec<u8>)
    ensures
        r@ == hex_bytes(data@),
{
    let mut out: Vec<u8> = Vec::new();
    let mut i: usize = 0;
    proof {
        assert(data@.take(0int) =~= Seq::<u8>::empty());
        assert(out@ =~= hex_bytes(data@.take(0int)));
    }
    while i < data.len()
        invariant
            i <= data@.len(),
            out@ == hex_bytes(data@.take(i as int)),
        decreases data@.len() - i,
    {
        let b = data[i];
        let hi = b / 16;
        let lo = b % 16;
        out.push(if hi < 10 {
            48 + hi
        } else {
            55 + hi
        });
        out.push(if lo < 10 {
            48 + lo
        } else {
            55 + lo
        });
        proof {
            assert(data@.take(i + 1).drop_last() =~= data@.take(i as int));
            assert(data@.take(i + 1).last() == data@[i as int]);
        }
        i = i + 1;
    }
    proof {
        assert(data@.take(data@.len() as int) =~= data@);
    }
    out
}

/// Decimal encoding of a size.
pub fn to_decimal(n: u64) -> (r: Vec<u8>)
    ensures
        r@ == dec_bytes(n as nat),
{
    let mut low_first: Vec<u8> = Vec::new();
    let mut m: u64 = n;
    while m >= 10
        invariant
            dec_bytes(n as nat) == dec_bytes(m as nat) + low_first@.reverse(),
        decreases m,
    {
        let ghost pre = low_first@;
        let d: u8 = 48 + ((m % 10) as u8);
        low_first.push(d);
        proof {
            assert(dec_bytes(m as nat) == dec_bytes((m as nat) / 10).push(d));
            assert(low_first@.reverse() =~= seq![d] + pre.reverse());
            assert(dec_bytes((m as nat) / 10) + low_first@.reverse() =~= (dec_bytes(
                (m as nat) / 10,
            ).push(d)) + pre.reverse());
            assert((m / 10) as nat == (m as nat) / 10);
        }
        m = m / 10;
    }
    let mut out: Vec<u8> = Vec::new();
    out.push(48 + (m as u8));
    proof {
        assert(dec_bytes(m as nat) =~= seq![(48 + (m as int)) as u8]);
        assert(out@ =~= dec_bytes(m as nat));
        assert(out@ + low_first@.reverse() == dec_bytes(n as nat));
    }
    while low_first.len() > 0
        invariant
            out@ + low_first@.reverse() == dec_bytes(n as nat),
        decreases low_first@.len(),
    {
        let ghost pre = low_first@;
        let d = low_first.pop().unwrap();
        out.push(d);
        proof {
            assert(pre.reverse() =~= seq![pre.last()] + pre.drop_last().reverse());
            assert(out@ + low_first@.reverse() =~= (out@.drop_last() + pre.reverse()));
        }
    }
    proof {
        assert(low_first@.reverse() =~= Seq::<u8>::empty());
        assert(out@ + low_first@.reverse() =~= out@);
    }
    out
}

/// The streaming sink's line for one record: path, the digest in uppercase
/// hexadecimal, and the size in decimal, semicolon-separated, ending in a
/// newline.
pub open spec fn listing_line_bytes(r: RecordModel) -> Seq<u8> {
    r.path + seq![59u8] + hex_bytes(r.digest) + seq![59u8] + dec_bytes(r.size as nat) + seq![10u8]
}

/// Format one record as a listing line.
pub fn listing_line(rec: &FileRecord) -> (out: Vec<u8>)
    ensures
        out@ == listing_line_bytes(rec@),
{
    let mut out: Vec<u8> = Vec::new();
    push_bytes(&mut out, &rec.path);
    out.push(59u8);
    let hex = to_hex_upper(&rec.digest);
    push_bytes(&mut out, &hex);
    out.push(59u8);
    let dec = to_decimal(rec.size);
    push_bytes(&mut out, &dec);
    out.push(10u8);
    proof {
        assert(out@ =~= listing_line_bytes(rec@));
    }
    out
}

} // verus!
