use vstd::prelude::*;
use crate::record::{FileRecord, RecordModel, views, record_order};
use crate::record::{cmp_bytes, Cmp};
use crate::collector::{gather, sort_records, gathered, count_some, lemma_record_count};
use crate::codec::{
    be32, combine32, lemma_be32_roundtrip, payload_bytes, records_ok, encode_payload,
    decode_payload, push_bytes, push_be32, copy_range,
};
use crate::hashing::{compute_sha256, sha256_of};

verus! {

/// What flate2's zlib encoder, at its highest compression effort, produces
/// for a byte string: one terminated stream, a function of the input alone.
pub uninterp spec fn deflate_of(data: Seq<u8>) -> Seq<u8>;

/// Relies on flate2::write::ZlibEncoder with Compression::best: compresses
/// the whole input into one finished zlib stream. Writing into a Vec cannot
/// fail, so the writer's errors cannot arise.
#[verifier::external_body]
fn zlib_compress(data: &Vec<u8>) -> (r: Vec<u8>)
    ensures
        r@ == deflate_of(data@),
{
    let mut enc = flate2::write::ZlibEncoder::new(Vec::new(), flate2::Compression::best());
    std::io::Write::write_all(&mut enc, data.as_slice()).expect("writing to a Vec cannot fail");
    enc.finish().expect("writing to a Vec cannot fail")
}

/// Relies on flate2::read::ZlibDecoder: reading back a stream the zlib
/// encoder produced yields exactly the bytes that were compressed; a
/// malformed stream is reported as an error.
#[verifier::external_body]
fn zlib_decompress(data: &Vec<u8>) -> (r: Option<Vec<u8>>)
    ensures
        forall|orig: Seq<u8>| data@ == deflate_of(orig) ==> r is Some && r.unwrap()@ == orig,
{
    let mut out = Vec::new();
    let mut dec = flate2::read::ZlibDecoder::new(data.as_slice());
    match std::io::Read::read_to_end(&mut dec, &mut out) {
        Ok(_) => Some(out),
        Err(_) => None,
    }
}

/// The four bytes that open every catalog.
pub open spec fn magic() -> Seq<u8> {
    seq![255u8, 84u8, 67u8, 97u8]
}

/// Append the magic tag to `out`.
pub fn push_magic(out: &mut Vec<u8>)
    ensures
        final(out)@ == old(out)@ + magic(),
{
    out.push(255u8);
    out.push(84u8);
    out.push(67u8);
    out.push(97u8);
    proof {
        assert(out@ =~= old(out)@ + magic());
    }
}

/// The whole catalog container for a record sequence: magic tag, checksum of
/// the uncompressed payload, the payload's 32-bit big-endian length, and the
/// compressed payload.
pub open spec fn catalog_bytes(recs: Seq<RecordModel>) -> Seq<u8> {
    magic() + sha256_of(payload_bytes(recs)) + be32(payload_bytes(recs).len() as u32) + deflate_of(
        payload_bytes(recs),
    )
}

/// The error of a payload too long for the catalog's 32-bit length field.
#[derive(Debug)]
pub struct CatalogTooLarge;

/// Build the catalog for the given records, in the order given. Fails
/// exactly when the uncompressed payload cannot be represented in 32 bits,
/// and then no catalog bytes exist at all.
pub fn encode_catalog(records: &Vec<FileRecord>) -> (r: Result<Vec<u8>, CatalogTooLarge>)
    ensures
        r is Ok <==> payload_bytes(views(records@)).len() <= u32::MAX,
        r is Ok ==> r.unwrap()@ == catalog_bytes(views(records@)),
        r is Ok ==> sha256_of(payload_bytes(views(records@))).len() == 32,
{
    let payload = encode_payload(records);
    if payload.len() > (u32::MAX as usize) {
        return Err(CatalogTooLarge);
    }
    let checksum = compute_sha256(&payload);
    let compressed = zlib_compress(&payload);
    let mut out: Vec<u8> = Vec::new();
    push_magic(&mut out);
    push_bytes(&mut out, &checksum);
    push_be32(&mut out, payload.len() as u32);
    push_bytes(&mut out, &compressed);
    proof {
        assert(out@ =~= catalog_bytes(views(records@)));
    }
    Ok(out)
}

/// Assemble the catalog from the per-file results, as the collector does
/// once every worker has finished: keep the successes, sort them into the
/// deterministic order, and encode. The order is unique, so the catalog is
/// a function of which records the scan produced; its record count is the
/// number of successful results; it fails exactly when the payload
/// outgrows the 32-bit length field, and then no bytes are produced.
/// The order the catalog lists a scan's successful records in.
pub open spec fn catalog_order(results: Seq<Option<FileRecord>>) -> Seq<RecordModel> {
    gathered(results).sort_by(record_order())
}

/// Law: the catalog is a function of which records a scan produced — two
/// runs whose successful records are the same set, in whatever arrival
/// order, list them identically, and so emit byte-identical catalogs.
pub proof fn lemma_catalog_order_deterministic(
    r1: Seq<Option<FileRecord>>,
    r2: Seq<Option<FileRecord>>,
)
    requires
        gathered(r1).to_multiset() == gathered(r2).to_multiset(),
    ensures
        catalog_order(r1) == catalog_order(r2),
{
    crate::record::lemma_record_order_total_ordering();
    gathered(r1).lemma_sort_by_ensures(record_order());
    gathered(r2).lemma_sort_by_ensures(record_order());
    crate::collector::lemma_order_deterministic(catalog_order(r1), catalog_order(r2));
}

pub fn build_catalog(results: Vec<Option<FileRecord>>) -> (r: Result<Vec<u8>, CatalogTooLarge>)
    ensures
        r is Ok <==> payload_bytes(catalog_order(results@)).len() <= u32::MAX,
        r is Ok ==> r.unwrap()@ == catalog_bytes(catalog_order(results@)),
        catalog_order(results@).len() == count_some(results@),
{
    let ghost results_view = results@;
    let recs = gather(results);
    let sorted = sort_records(recs);
    let res = encode_catalog(&sorted);
    proof {
        let w = views(sorted@);
        let gs = gathered(results_view);
        crate::record::lemma_record_order_total_ordering();
        gs.lemma_sort_by_ensures(record_order());
        lemma_record_count(results_view, w);
        crate::collector::lemma_order_deterministic(w, gs.sort_by(record_order()));
    }
    res
}

/// Law: the catalog round-trips — building the catalog of representable
/// records and then decoding it yields exactly those records again,
/// whenever the payload fits the 32-bit length field.
pub fn catalog_round_trip(records: &Vec<FileRecord>) -> (r: Option<Vec<FileRecord>>)
    requires
        records_ok(views(records@)),
    ensures
        payload_bytes(views(records@)).len() <= u32::MAX ==> r is Some && views(r.unwrap()@)
            == views(records@),
{
    match encode_catalog(records) {
        Ok(bytes) => match decode_catalog(&bytes) {
            Some(d) => Some(d.records),
            None => None,
        },
        Err(_) => None,
    }
}

/// A parsed catalog: the checksum and length it carried, and the records of
/// its payload.
pub struct DecodedCatalog {
    pub checksum: Vec<u8>,
    pub payload_len: u32,
    pub records: Vec<FileRecord>,
}

/// Parse a catalog container: decompress the payload, recompute its digest
/// against the embedded checksum, check the length field, and decode the
/// records. A catalog built from representable records is always recovered
/// exactly, and whatever is recovered is internally consistent.
pub fn decode_catalog(bytes: &Vec<u8>) -> (r: Option<DecodedCatalog>)
    ensures
        r is Some ==> r.unwrap().checksum@ == sha256_of(
            payload_bytes(views(r.unwrap().records@)),
        ) && r.unwrap().payload_len == payload_bytes(views(r.unwrap().records@)).len()
            && records_ok(views(r.unwrap().records@)),
        forall|recs: Seq<RecordModel>|
            records_ok(recs) && payload_bytes(recs).len() <= u32::MAX && sha256_of(
                payload_bytes(recs),
            ).len() == 32 && bytes@ == catalog_bytes(recs) ==> r is Some && views(
                r.unwrap().records@,
            ) == recs,
{
    let n = bytes.len();
    if n < 40 {
        return None;
    }
    if !(bytes[0] == 255 && bytes[1] == 84 && bytes[2] == 67 && bytes[3] == 97) {
        proof {
            assert forall|recs: Seq<RecordModel>|
                records_ok(recs) && payload_bytes(recs).len() <= u32::MAX && sha256_of(
                    payload_bytes(recs),
                ).len() == 32 implies bytes@ != catalog_bytes(recs) by {
                if sha256_of(payload_bytes(recs)).len() == 32 && bytes@ == catalog_bytes(recs) {
                    assert(catalog_bytes(recs)[0] == 255u8);
                    assert(catalog_bytes(recs)[1] == 84u8);
                    assert(catalog_bytes(recs)[2] == 67u8);
                    assert(catalog_bytes(recs)[3] == 97u8);
                }
            }
        }
        return None;
    }
    let checksum = copy_range(bytes, 4, 36);
    let stored_len: u32 = ((bytes[36] as u32) << 24) | ((bytes[37] as u32) << 16) | ((bytes[38]
        as u32) << 8) | (bytes[39] as u32);
    let compressed = copy_range(bytes, 40, n);
    let ghost hdr = 40int;
    proof {
        assert forall|recs: Seq<RecordModel>|
            records_ok(recs) && payload_bytes(recs).len() <= u32::MAX && sha256_of(
                payload_bytes(recs),
            ).len() == 32 && bytes@ == catalog_bytes(recs) implies checksum@ == sha256_of(
            payload_bytes(recs),
        ) && stored_len == payload_bytes(recs).len() && compressed@ == deflate_of(
            payload_bytes(recs),
        ) by {
            let p = payload_bytes(recs);
            let cat = catalog_bytes(recs);
            assert(cat.len() == 40 + deflate_of(p).len());
            assert forall|i: int| 0 <= i < 32 implies cat[4 + i] == sha256_of(p)[i] by {}
            assert(checksum@ =~= sha256_of(p));
            assert(cat[36] == be32(p.len() as u32)[0]);
            assert(cat[37] == be32(p.len() as u32)[1]);
            assert(cat[38] == be32(p.len() as u32)[2]);
            assert(cat[39] == be32(p.len() as u32)[3]);
            lemma_be32_roundtrip(p.len() as u32);
            assert(stored_len == combine32(
                be32(p.len() as u32)[0],
                be32(p.len() as u32)[1],
                be32(p.len() as u32)[2],
                be32(p.len() as u32)[3],
            ));
            assert forall|i: int| 0 <= i < deflate_of(p).len() implies cat[40 + i] == deflate_of(
                p,
            )[i] by {}
            assert(compressed@ =~= deflate_of(p));
        }
    }
    let payload = match zlib_decompress(&compressed) {
        Some(p) => p,
        None => {
            return None;
        },
    };
    let recomputed = compute_sha256(&payload);
    match cmp_bytes(&recomputed, &checksum) {
        Cmp::Eq => {},
        _ => {
            return None;
        },
    }
    if payload.len() > (u32::MAX as usize) {
        return None;
    }
    if stored_len as usize != payload.len() {
        return None;
    }
    let records = match decode_payload(&payload) {
        Some(rs) => rs,
        None => {
            return None;
        },
    };
    Some(DecodedCatalog { checksum, payload_len: stored_len, records })
}

} // verus!
