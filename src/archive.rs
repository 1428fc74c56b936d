//! The archive format of a hash record set, with its encoder and a decoder
//! that rejects every buffer that is not exactly an encoding.
//!
//! Layout: the four bytes `BSFH`, the record count as a little-endian `u64`,
//! then each record as the byte length of its path (little-endian `u64`),
//! the path in UTF-8, and the identity as a little-endian two's-complement
//! 64-bit integer. Paths are distinct within one archive.
use vstd::bytes::{
    lemma_auto_spec_u64_to_from_le_bytes, spec_u64_from_le_bytes, spec_u64_to_le_bytes,
    u64_from_le_bytes, u64_to_le_bytes,
};
use vstd::prelude::*;
use vstd::slice::{slice_subrange, slice_to_vec};
use vstd::utf8::{decode_utf8, encode_utf8, valid_utf8};

use crate::hashes::{
    map_of_records, BuildscaleFileHashed, BuildscaleFileHashes,
    HashRecordMap, HashRecordView,
};

verus! {

broadcast use vstd::utf8::encode_utf8_valid_utf8, vstd::utf8::encode_utf8_decode_utf8;

/// File name of the archive inside the cache directory.
pub const BUILDSCALE_FILES_ARCHIVE: &'static str = "buildscale_files.buildscalew.";

/// The archive could not be read as an encoding of a hash record set.
#[derive(Debug, PartialEq, Eq)]
pub struct CorruptArchive;

pub open spec fn archive_magic() -> Seq<u8> {
    seq![66u8, 83u8, 70u8, 72u8]
}

/// The bytes of one record.
pub open spec fn encode_record(r: HashRecordView) -> Seq<u8> {
    spec_u64_to_le_bytes(encode_utf8(r.0).len() as u64) + encode_utf8(r.0)
        + spec_u64_to_le_bytes(r.1 as u64)
}

/// The bytes of records, one after another.
pub open spec fn encode_records(s: Seq<HashRecordView>) -> Seq<u8>
    decreases s.len(),
{
    if s.len() == 0 {
        Seq::empty()
    } else {
        encode_record(s[0]) + encode_records(s.drop_first())
    }
}

/// A path whose UTF-8 length the format can state.
pub open spec fn path_fits(p: Seq<char>) -> bool {
    encode_utf8(p).len() <= u64::MAX
}

pub open spec fn all_paths_fit(s: Seq<HashRecordView>) -> bool {
    forall|i: int| 0 <= i < s.len() ==> path_fits(#[trigger] s[i].0)
}

pub open spec fn distinct_paths(s: Seq<HashRecordView>) -> bool {
    forall|i: int, j: int| 0 <= i < j < s.len() ==> s[i].0 != s[j].0
}

/// The archive that lists the records `s` in this order.
pub open spec fn archive_of_records(s: Seq<HashRecordView>) -> Seq<u8> {
    archive_magic() + spec_u64_to_le_bytes(s.len() as u64) + encode_records(s)
}

/// `b` is the archive of `m` that lists its records in the order `s`.
pub open spec fn is_listing(b: Seq<u8>, m: HashRecordMap, s: Seq<HashRecordView>) -> bool {
    &&& distinct_paths(s)
    &&& all_paths_fit(s)
    &&& s.len() <= u64::MAX
    &&& b == archive_of_records(s)
    &&& map_of_records(s) == m
}

/// `b` encodes the record set `m`, listing its records in some order.
pub open spec fn is_archive_of(b: Seq<u8>, m: HashRecordMap) -> bool {
    exists|s: Seq<HashRecordView>| is_listing(b, m, s)
}

/// The record set that `b` encodes, if `b` is an archive at all.
pub open spec fn archive_decoding(b: Seq<u8>) -> Option<HashRecordMap> {
    if exists|m: HashRecordMap| is_archive_of(b, m) {
        Some(choose|m: HashRecordMap| is_archive_of(b, m))
    } else {
        None
    }
}

proof fn lemma_i64_u64_cast(x: i64)
    ensures
        ((x as u64) as i64) == x,
{
    assert(((x as u64) as i64) == x) by (bit_vector);
}

proof fn lemma_u64_i64_cast(x: u64)
    ensures
        ((x as i64) as u64) == x,
{
    assert(((x as i64) as u64) == x) by (bit_vector);
}

proof fn lemma_encode_record_len(r: HashRecordView)
    ensures
        encode_record(r).len() == 16 + encode_utf8(r.0).len(),
{
    lemma_auto_spec_u64_to_from_le_bytes();
}

proof fn lemma_encode_records_push(s: Seq<HashRecordView>, r: HashRecordView)
    ensures
        encode_records(s.push(r)) == encode_records(s) + encode_record(r),
    decreases s.len(),
{
    if s.len() == 0 {
        assert(s.push(r).drop_first() =~= Seq::<HashRecordView>::empty());
        assert(s.push(r)[0] == r);
        assert(encode_records(s.push(r)) == encode_record(r) + encode_records(Seq::<HashRecordView>::empty()));
        assert(encode_records(s) == Seq::<u8>::empty());
        assert(encode_records(s.push(r)) =~= encode_records(s) + encode_record(r));
    } else {
        lemma_encode_records_push(s.drop_first(), r);
        assert(s.push(r).drop_first() =~= s.drop_first().push(r));
        assert(s.push(r)[0] == s[0]);
        assert(encode_records(s.push(r)) == encode_record(s[0]) + encode_records(s.drop_first().push(r)));
        assert(encode_records(s.push(r)) =~= encode_records(s) + encode_record(r));
    }
}

/// One record's bytes at the front of two buffers determine the record.
proof fn lemma_record_prefix_unique(r1: HashRecordView, r2: HashRecordView, x: Seq<u8>, y: Seq<u8>)
    requires
        path_fits(r1.0),
        path_fits(r2.0),
        encode_record(r1) + x == encode_record(r2) + y,
    ensures
        r1 == r2,
        x == y,
{
    lemma_auto_spec_u64_to_from_le_bytes();
    let b = encode_record(r1) + x;
    let e1 = encode_utf8(r1.0);
    let e2 = encode_utf8(r2.0);
    let n1 = e1.len() as int;
    let n2 = e2.len() as int;
    assert(b.subrange(0, 8) =~= spec_u64_to_le_bytes(n1 as u64));
    assert(b.subrange(0, 8) =~= spec_u64_to_le_bytes(n2 as u64));
    assert(n1 == n2);
    assert(b.subrange(8, 8 + n1) =~= e1);
    assert(b.subrange(8, 8 + n1) =~= e2);
    assert(decode_utf8(e1) == r1.0);
    assert(decode_utf8(e2) == r2.0);
    assert(r1.0 == r2.0);
    assert(b.subrange(8 + n1, 16 + n1) =~= spec_u64_to_le_bytes(r1.1 as u64));
    assert(b.subrange(8 + n1, 16 + n1) =~= spec_u64_to_le_bytes(r2.1 as u64));
    lemma_i64_u64_cast(r1.1);
    lemma_i64_u64_cast(r2.1);
    assert(r1.1 == r2.1);
    assert(x =~= b.subrange(16 + n1, b.len() as int));
    assert(y =~= b.subrange(16 + n1, b.len() as int));
}

/// Records whose bytes begin the bytes of `s` are the first records of `s`.
proof fn lemma_records_prefix(p: Seq<HashRecordView>, s: Seq<HashRecordView>, rest: Seq<u8>)
    requires
        all_paths_fit(p),
        all_paths_fit(s),
        encode_records(s) == encode_records(p) + rest,
    ensures
        p.len() <= s.len(),
        s.subrange(0, p.len() as int) == p,
        encode_records(s.subrange(p.len() as int, s.len() as int)) == rest,
    decreases p.len(),
{
    if p.len() == 0 {
        assert(s.subrange(0, 0) =~= p);
        assert(s.subrange(0, s.len() as int) =~= s);
        assert(encode_records(p) + rest =~= rest);
    } else {
        lemma_encode_record_len(p[0]);
        if s.len() == 0 {
            assert(encode_records(s).len() == 0);
            assert(false);
        }
        assert(path_fits(p[0].0));
        assert(path_fits(s[0].0));
        let tail = encode_records(p.drop_first()) + rest;
        assert(encode_records(p) + rest =~= encode_record(p[0]) + tail);
        lemma_record_prefix_unique(s[0], p[0], encode_records(s.drop_first()), tail);
        assert forall|i: int| 0 <= i < p.drop_first().len() implies path_fits(
            #[trigger] p.drop_first()[i].0,
        ) by {
            assert(path_fits(p[i + 1].0));
        }
        assert forall|i: int| 0 <= i < s.drop_first().len() implies path_fits(
            #[trigger] s.drop_first()[i].0,
        ) by {
            assert(path_fits(s[i + 1].0));
        }
        lemma_records_prefix(p.drop_first(), s.drop_first(), rest);
        assert(s.subrange(0, p.len() as int) =~= seq![s[0]] + s.drop_first().subrange(
            0,
            p.drop_first().len() as int,
        ));
        assert(p =~= seq![p[0]] + p.drop_first());
        assert(s.subrange(p.len() as int, s.len() as int) =~= s.drop_first().subrange(
            p.drop_first().len() as int,
            s.drop_first().len() as int,
        ));
    }
}

proof fn lemma_archive_len(s: Seq<HashRecordView>)
    ensures
        archive_of_records(s).len() >= 12,
        s.len() > 0 ==> encode_records(s).len() >= 16,
{
    lemma_auto_spec_u64_to_from_le_bytes();
    if s.len() > 0 {
        lemma_encode_record_len(s[0]);
    }
}

/// What the records after the first `parsed` are, in an archive of `s`.
proof fn lemma_archive_suffix(b: Seq<u8>, s: Seq<HashRecordView>, parsed: Seq<HashRecordView>, pos: int)
    requires
        b == archive_of_records(s),
        all_paths_fit(s),
        s.len() <= u64::MAX,
        all_paths_fit(parsed),
        12 <= pos <= b.len(),
        b.subrange(12, pos) == encode_records(parsed),
    ensures
        parsed.len() <= s.len(),
        s.subrange(0, parsed.len() as int) == parsed,
        encode_records(s.subrange(parsed.len() as int, s.len() as int)) == b.subrange(pos, b.len() as int),
        s.len() == spec_u64_from_le_bytes(b.subrange(4, 12)),
{
    lemma_auto_spec_u64_to_from_le_bytes();
    assert(b.subrange(4, 12) =~= spec_u64_to_le_bytes(s.len() as u64));
    assert(b.subrange(12, b.len() as int) =~= encode_records(s));
    assert(b.subrange(12, b.len() as int) =~= b.subrange(12, pos) + b.subrange(pos, b.len() as int));
    lemma_records_prefix(parsed, s, b.subrange(pos, b.len() as int));
}

/// Where `b` is an archive and the first `parsed` records were read up to
/// `pos`, the next record can be read there and its path is new.
proof fn lemma_next_record(b: Seq<u8>, m: HashRecordMap, parsed: Seq<HashRecordView>, pos: int)
    requires
        is_archive_of(b, m),
        all_paths_fit(parsed),
        12 <= pos <= b.len(),
        b.subrange(12, pos) == encode_records(parsed),
        parsed.len() < spec_u64_from_le_bytes(b.subrange(4, 12)),
    ensures
        pos + 8 <= b.len(),
        pos + 16 + spec_u64_from_le_bytes(b.subrange(pos, pos + 8)) <= b.len(),
        valid_utf8(b.subrange(pos + 8, pos + 8 + spec_u64_from_le_bytes(b.subrange(pos, pos + 8)))),
        forall|k: int| 0 <= k < parsed.len() ==> parsed[k].0 != decode_utf8(
            b.subrange(pos + 8, pos + 8 + spec_u64_from_le_bytes(b.subrange(pos, pos + 8))),
        ),
{
    lemma_auto_spec_u64_to_from_le_bytes();
    let s = choose|s: Seq<HashRecordView>| is_listing(b, m, s);
    lemma_archive_suffix(b, s, parsed, pos);
    let t = s.subrange(parsed.len() as int, s.len() as int);
    let rem = b.subrange(pos, b.len() as int);
    assert(t.len() > 0);
    let r = t[0];
    assert(r == s[parsed.len() as int]);
    assert(encode_records(t) == encode_record(t[0]) + encode_records(t.drop_first()));
    assert(path_fits(r.0));
    let e = encode_utf8(r.0);
    lemma_encode_record_len(r);
    assert(rem =~= encode_record(r) + encode_records(t.drop_first()));
    assert(rem.subrange(0, 8) =~= spec_u64_to_le_bytes(e.len() as u64));
    assert(b.subrange(pos, pos + 8) =~= rem.subrange(0, 8));
    assert(rem.subrange(8, 8 + e.len() as int) =~= e);
    assert(b.subrange(pos + 8, pos + 8 + e.len() as int) =~= rem.subrange(8, 8 + e.len() as int));
    assert(spec_u64_from_le_bytes(b.subrange(pos, pos + 8)) == e.len());
    assert(b.subrange(pos + 8, pos + 8 + e.len() as int) =~= e);
    assert forall|k: int| 0 <= k < parsed.len() implies parsed[k].0 != r.0 by {
        assert(parsed[k] == s[k]);
    }
}

/// Where the decoder stops on the next record, or on what follows the last
/// one, no record set has `b` as its archive.
proof fn lemma_no_archive_here(b: Seq<u8>, parsed: Seq<HashRecordView>, pos: int)
    requires
        12 <= pos <= b.len(),
        b.subrange(12, pos) == encode_records(parsed),
        all_paths_fit(parsed),
        if parsed.len() < spec_u64_from_le_bytes(b.subrange(4, 12)) {
            pos + 8 > b.len() || pos + 16 + spec_u64_from_le_bytes(b.subrange(pos, pos + 8)) > b.len()
                || !valid_utf8(b.subrange(pos + 8, pos + 8 + spec_u64_from_le_bytes(b.subrange(pos, pos + 8))))
                || exists|k: int| 0 <= k < parsed.len() && parsed[k].0 == decode_utf8(
                b.subrange(pos + 8, pos + 8 + spec_u64_from_le_bytes(b.subrange(pos, pos + 8))),
            )
        } else {
            parsed.len() == spec_u64_from_le_bytes(b.subrange(4, 12)) && pos < b.len()
        },
    ensures
        archive_decoding(b) is None,
{
    if exists|m: HashRecordMap| is_archive_of(b, m) {
        let m = choose|m: HashRecordMap| is_archive_of(b, m);
        if parsed.len() < spec_u64_from_le_bytes(b.subrange(4, 12)) {
            lemma_next_record(b, m, parsed, pos);
        } else {
            let s = choose|s: Seq<HashRecordView>| is_listing(b, m, s);
            lemma_archive_suffix(b, s, parsed, pos);
            assert(s.subrange(parsed.len() as int, s.len() as int) =~= Seq::<HashRecordView>::empty());
            assert(encode_records(Seq::<HashRecordView>::empty()).len() == 0);
        }
    }
}

/// A buffer encodes at most one record set.
pub proof fn lemma_archive_unique(b: Seq<u8>, m1: HashRecordMap, m2: HashRecordMap)
    requires
        is_archive_of(b, m1),
        is_archive_of(b, m2),
    ensures
        m1 == m2,
{
    lemma_auto_spec_u64_to_from_le_bytes();
    let s1 = choose|s: Seq<HashRecordView>| is_listing(b, m1, s);
    let s2 = choose|s: Seq<HashRecordView>| is_listing(b, m2, s);
    lemma_archive_len(s1);
    assert(b.subrange(12, 12) =~= encode_records(Seq::<HashRecordView>::empty()));
    lemma_archive_suffix(b, s2, Seq::empty(), 12);
    lemma_archive_suffix(b, s1, Seq::empty(), 12);
    assert(b.subrange(12, b.len() as int) =~= encode_records(s1));
    lemma_archive_suffix(b, s2, s1, b.len() as int);
    assert(s2.subrange(0, s1.len() as int) =~= s2);
}

/// Decoding the archive of a record set gives that record set back.
pub proof fn lemma_round_trip(b: Seq<u8>, m: HashRecordMap)
    requires
        is_archive_of(b, m),
    ensures
        archive_decoding(b) == Some(m),
{
    let m2 = choose|m2: HashRecordMap| is_archive_of(b, m2);
    lemma_archive_unique(b, m, m2);
}

/// No strict prefix of an archive is an archive: a truncated file is
/// rejected.
pub proof fn lemma_truncation_rejected(b: Seq<u8>, m: HashRecordMap, k: int)
    requires
        is_archive_of(b, m),
        0 <= k < b.len(),
    ensures
        archive_decoding(b.subrange(0, k)) is None,
{
    lemma_auto_spec_u64_to_from_le_bytes();
    let c = b.subrange(0, k);
    if exists|m2: HashRecordMap| is_archive_of(c, m2) {
        let m2 = choose|m2: HashRecordMap| is_archive_of(c, m2);
        let s = choose|s: Seq<HashRecordView>| is_listing(b, m, s);
        let s2 = choose|s: Seq<HashRecordView>| is_listing(c, m2, s);
        lemma_archive_len(s2);
        assert(c.subrange(4, 12) =~= spec_u64_to_le_bytes(s2.len() as u64));
        assert(b.subrange(4, 12) =~= c.subrange(4, 12));
        assert(b.subrange(12, k) =~= c.subrange(12, k));
        assert(c.subrange(12, k) =~= encode_records(s2));
        lemma_archive_suffix(b, s, s2, k);
        assert(s.len() == s2.len());
        assert(s.subrange(s2.len() as int, s.len() as int) =~= Seq::<HashRecordView>::empty());
        assert(encode_records(Seq::<HashRecordView>::empty()).len() == 0);
        assert(false);
    }
}

} // verus!

verus! {

/// Relies on std::str::from_utf8: it accepts exactly the valid UTF-8
/// buffers, and the text it gives has those bytes.
#[verifier::external_body]
fn text_of_utf8(b: &[u8]) -> (r: Option<String>)
    ensures
        match r {
            Some(t) => encode_utf8(t@) == b@,
            None => !valid_utf8(b@),
        },
{
    match std::str::from_utf8(b) {
        Ok(t) => Some(t.to_owned()),
        Err(_) => None,
    }
}

fn append_bytes(out: &mut Vec<u8>, more: Vec<u8>)
    ensures
        final(out)@ == old(out)@ + more@,
{
    let mut more = more;
    out.append(&mut more);
}

/// The archive bytes of a hash record set.
pub fn encode_files_archive(files: &BuildscaleFileHashes) -> (r: Vec<u8>)
    requires
        files.wf(),
    ensures
        is_archive_of(r@, files@),
        archive_decoding(r@) == Some(files@),
{
    let records = files.records();
    let ghost s = records@.map_values(|x: BuildscaleFileHashed| x@);
    let mut out: Vec<u8> = vec![66u8, 83u8, 70u8, 72u8];
    append_bytes(&mut out, u64_to_le_bytes(records.len() as u64));
    let mut i: usize = 0;
    proof {
        assert(s.subrange(0, 0) =~= Seq::<HashRecordView>::empty());
        assert(out@ =~= archive_magic() + spec_u64_to_le_bytes(s.len() as u64) + encode_records(s.subrange(0, 0)));
    }
    while i < records.len()
        invariant
            i <= records@.len(),
            s == records@.map_values(|x: BuildscaleFileHashed| x@),
            out@ == archive_magic() + spec_u64_to_le_bytes(s.len() as u64) + encode_records(s.subrange(0, i as int)),
            all_paths_fit(s.subrange(0, i as int)),
        decreases records@.len() - i,
    {
        let path = records[i].0.as_str().as_bytes();
        let n = path.len();
        let ghost r = s[i as int];
        let ghost before = out@;
        append_bytes(&mut out, u64_to_le_bytes(n as u64));
        append_bytes(&mut out, slice_to_vec(path));
        append_bytes(&mut out, u64_to_le_bytes(#[verifier::truncate] (records[i].1 as u64)));
        proof {
            assert(path@ == encode_utf8(r.0));
            assert(out@ =~= before + encode_record(r));
            lemma_encode_records_push(s.subrange(0, i as int), r);
            assert(s.subrange(0, i + 1) =~= s.subrange(0, i as int).push(r));
            assert forall|j: int| 0 <= j < i + 1 implies path_fits(#[trigger] s.subrange(0, i + 1)[j].0) by {
                if j < i {
                    assert(s.subrange(0, i + 1)[j] == s.subrange(0, i as int)[j]);
                }
            }
        }
        i = i + 1;
    }
    proof {
        assert(s.subrange(0, s.len() as int) =~= s);
        assert forall|j: int| 0 <= j < s.len() implies #[trigger] s[j] == records@[j]@ by {}
        assert forall|j: int, k: int| 0 <= j < k < s.len() implies s[j].0 != s[k].0 by {
            assert(s[j] == records@[j]@);
            assert(s[k] == records@[k]@);
        }
        crate::hashes::lemma_map_of_records(s);
        assert forall|k: Seq<char>| #[trigger] files@.contains_key(k) implies map_of_records(s).contains_key(k) by {
            let j = choose|j: int| 0 <= j < records@.len() && records@[j]@.0 == k;
            assert(s[j].0 == k);
        }
        assert forall|k: Seq<char>| #[trigger] map_of_records(s).contains_key(k) implies files@.contains_key(k)
            && map_of_records(s)[k] == files@[k] by {
            let j = choose|j: int| 0 <= j < s.len() && s[j].0 == k;
            assert(s[j] == records@[j]@);
            assert(files@.contains_key(records@[j]@.0));
            assert(map_of_records(s)[s[j].0] == s[j]);
        }
        assert(map_of_records(s) =~= files@);
        assert(is_listing(out@, files@, s));
        lemma_round_trip(out@, files@);
    }
    out
}

/// The hash record set that `bytes` encodes, or `CorruptArchive` where
/// `bytes` is not exactly the archive of some record set.
pub fn decode_files_archive(bytes: &[u8]) -> (r: Result<BuildscaleFileHashes, CorruptArchive>)
    ensures
        match r {
            Ok(h) => h.wf() && archive_decoding(bytes@) == Some(h@),
            Err(_) => archive_decoding(bytes@) is None,
        },
{
    let len = bytes.len();
    if len < 12 || bytes[0] != 66u8 || bytes[1] != 83u8 || bytes[2] != 70u8 || bytes[3] != 72u8 {
        proof {
            assert forall|m: HashRecordMap| !is_archive_of(bytes@, m) by {
                if is_archive_of(bytes@, m) {
                    let s = choose|s: Seq<HashRecordView>| is_listing(bytes@, m, s);
                    lemma_archive_len(s);
                    assert(bytes@[0] == archive_of_records(s)[0]);
                    assert(bytes@[1] == archive_of_records(s)[1]);
                    assert(bytes@[2] == archive_of_records(s)[2]);
                    assert(bytes@[3] == archive_of_records(s)[3]);
                }
            }
        }
        return Err(CorruptArchive);
    }
    proof {
        assert(bytes@.subrange(0, 4) =~= archive_magic());
    }
    let count = u64_from_le_bytes(slice_subrange(bytes, 4, 12));
    let mut pos: usize = 12;
    let mut i: u64 = 0;
    let mut h = BuildscaleFileHashes::new();
    let ghost mut parsed: Seq<HashRecordView> = Seq::empty();
    proof {
        assert(bytes@.subrange(12, 12) =~= encode_records(parsed));
    }
    while i < count
        invariant
            len == bytes@.len(),
            12 <= pos <= len,
            i == parsed.len(),
            i <= count,
            bytes@.subrange(0, 4) == archive_magic(),
            count == spec_u64_from_le_bytes(bytes@.subrange(4, 12)),
            bytes@.subrange(12, pos as int) == encode_records(parsed),
            all_paths_fit(parsed),
            distinct_paths(parsed),
            h.wf(),
            h@ == map_of_records(parsed),
        decreases count - i,
    {
        if len - pos < 8 {
            proof { lemma_no_archive_here(bytes@, parsed, pos as int); }
            return Err(CorruptArchive);
        }
        let n = u64_from_le_bytes(slice_subrange(bytes, pos, pos + 8));
        if n > (len - pos - 8) as u64 || (len - pos - 8) - (n as usize) < 8 {
            proof { lemma_no_archive_here(bytes@, parsed, pos as int); }
            return Err(CorruptArchive);
        }
        let n = n as usize;
        let path = match text_of_utf8(slice_subrange(bytes, pos + 8, pos + 8 + n)) {
            Some(t) => t,
            None => {
                proof { lemma_no_archive_here(bytes@, parsed, pos as int); }
                return Err(CorruptArchive);
            },
        };
        let idu = u64_from_le_bytes(slice_subrange(bytes, pos + 8 + n, pos + 16 + n));
        let id = #[verifier::truncate] (idu as i64);
        let ghost r: HashRecordView = (path@, id);
        let prev = h.insert(BuildscaleFileHashed(path, id));
        if prev.is_some() {
            proof {
                crate::hashes::lemma_map_of_records(parsed);
                lemma_no_archive_here(bytes@, parsed, pos as int);
            }
            return Err(CorruptArchive);
        }
        proof {
            lemma_auto_spec_u64_to_from_le_bytes();
            let b = bytes@;
            let e = b.subrange(pos + 8, pos + 8 + n);
            assert(encode_utf8(r.0) == e);
            assert(b.subrange(pos as int, pos + 8) =~= spec_u64_to_le_bytes(n as u64));
            lemma_u64_i64_cast(idu);
            let idb = b.subrange(pos + 8 + n, pos + 16 + n);
            assert(spec_u64_to_le_bytes(spec_u64_from_le_bytes(idb)) == idb);
            assert(idb == spec_u64_to_le_bytes(r.1 as u64));
            assert(encode_utf8(r.0).len() == n);
            assert(b.subrange(pos as int, pos + 16 + n) =~= encode_record(r));
            lemma_encode_records_push(parsed, r);
            assert(b.subrange(12, pos + 16 + n) =~= b.subrange(12, pos as int) + b.subrange(pos as int, pos + 16 + n));
            crate::hashes::lemma_map_of_records(parsed);
            assert(parsed.push(r).drop_last() =~= parsed);
            assert forall|j: int, k: int| 0 <= j < k < parsed.push(r).len() implies parsed.push(r)[j].0 != parsed.push(r)[k].0 by {
                if k == parsed.len() {
                    assert(parsed.push(r)[j] == parsed[j]);
                }
            }
            parsed = parsed.push(r);
        }
        pos = pos + 16 + n;
        i = i + 1;
    }
    if pos != len {
        proof { lemma_no_archive_here(bytes@, parsed, pos as int); }
        return Err(CorruptArchive);
    }
    proof {
        lemma_auto_spec_u64_to_from_le_bytes();
        assert(bytes@.subrange(4, 12) =~= spec_u64_to_le_bytes(parsed.len() as u64));
        assert(bytes@ =~= bytes@.subrange(0, 4) + bytes@.subrange(4, 12) + bytes@.subrange(12, len as int));
        assert(bytes@ =~= archive_of_records(parsed));
        assert(is_listing(bytes@, h@, parsed));
        lemma_round_trip(bytes@, h@);
    }
    Ok(h)
}

/// The hash record set a run starts from. `contents` is what the archive
/// file held, or `None` where there was no file. A missing archive and an
/// unreadable one both give `None`: the run then hashes every file.
pub fn load_files_archive(contents: Option<Vec<u8>>) -> (r: Option<BuildscaleFileHashes>)
    ensures
        match contents {
            None => r is None,
            Some(b) => match r {
                Some(h) => h.wf() && archive_decoding(b@) == Some(h@),
                None => archive_decoding(b@) is None,
            },
        },
{
    match contents {
        None => None,
        Some(b) => match decode_files_archive(b.as_slice()) {
            Ok(h) => Some(h),
            Err(_) => None,
        },
    }
}

} // verus!
