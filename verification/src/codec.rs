//! The on-disk record format and its semantics.
//!
//! A log is a byte sequence holding records back to back, each encoded as
//! `key_len (u64, little endian) | key bytes | val_len (u64, little endian) |
//! val bytes`. This module defines the format as specification functions,
//! gives executable encode/parse functions proved against them, and defines
//! the meaning of a whole log: the key-to-offset index and the key-to-value
//! map obtained by scanning records from the start until the bytes run out.

use vstd::prelude::*;

verus! {

use vstd::bytes::{spec_u64_from_le_bytes, spec_u64_to_le_bytes, u64_from_le_bytes,
    u64_to_le_bytes, lemma_auto_spec_u64_to_from_le_bytes};
use vstd::slice::{slice_index_get, slice_subrange, slice_to_vec};
use crate::KvError;

/// One record parsed out of a log: its key, its value, and the offset of the
/// first byte past it.
pub struct ParsedRecord {
    pub key: Seq<u8>,
    pub value: Seq<u8>,
    pub end: int,
}

/// The encoding of one record.
pub open spec fn spec_encode_record(key: Seq<u8>, value: Seq<u8>) -> Seq<u8> {
    spec_u64_to_le_bytes(key.len() as u64) + key + spec_u64_to_le_bytes(value.len() as u64)
        + value
}

/// The record beginning at byte `off` of `log`, if the bytes from `off` on
/// hold a complete record.
pub open spec fn parse_record(log: Seq<u8>, off: int) -> Option<ParsedRecord> {
    if 0 <= off && off + 8 <= log.len() {
        let klen = spec_u64_from_le_bytes(log.subrange(off, off + 8)) as int;
        if off + 8 + klen + 8 <= log.len() {
            let vlen = spec_u64_from_le_bytes(log.subrange(off + 8 + klen, off + 8 + klen + 8))
                as int;
            if off + 8 + klen + 8 + vlen <= log.len() {
                Some(
                    ParsedRecord {
                        key: log.subrange(off + 8, off + 8 + klen),
                        value: log.subrange(off + 8 + klen + 8, off + 8 + klen + 8 + vlen),
                        end: off + 8 + klen + 8 + vlen,
                    },
                )
            } else {
                None
            }
        } else {
            None
        }
    } else {
        None
    }
}

/// Whether a complete record begins at `off`.
pub open spec fn parses_at(log: Seq<u8>, off: int) -> bool {
    parse_record(log, off) is Some
}

/// The key of the record at `off` (empty if none parses there).
pub open spec fn record_key_at(log: Seq<u8>, off: int) -> Seq<u8> {
    match parse_record(log, off) {
        Some(p) => p.key,
        None => Seq::empty(),
    }
}

/// The value of the record at `off` (empty if none parses there).
pub open spec fn record_value_at(log: Seq<u8>, off: int) -> Seq<u8> {
    match parse_record(log, off) {
        Some(p) => p.value,
        None => Seq::empty(),
    }
}

/// The offset just past the record at `off` (`off` itself if none parses).
pub open spec fn record_end_at(log: Seq<u8>, off: int) -> int {
    match parse_record(log, off) {
        Some(p) => p.end,
        None => off,
    }
}

/// The key-to-offset index obtained by scanning records from `off` until the
/// bytes run out: each key is mapped to the offset of its latest record.
pub open spec fn scan_index(log: Seq<u8>, off: int) -> Map<Seq<u8>, int>
    decreases log.len() - off,
{
    match parse_record(log, off) {
        None => Map::empty(),
        Some(p) => {
            let rest = scan_index(log, p.end);
            if rest.dom().contains(p.key) {
                rest
            } else {
                rest.insert(p.key, off)
            }
        },
    }
}

/// The key-to-value map obtained by scanning records from `off`: each key is
/// mapped to the value of its latest record.
pub open spec fn scan_live(log: Seq<u8>, off: int) -> Map<Seq<u8>, Seq<u8>>
    decreases log.len() - off,
{
    match parse_record(log, off) {
        None => Map::empty(),
        Some(p) => {
            let rest = scan_live(log, p.end);
            if rest.dom().contains(p.key) {
                rest
            } else {
                rest.insert(p.key, p.value)
            }
        },
    }
}

/// The offset at which a scan from `off` stops: the first offset at which no
/// complete record begins.
pub open spec fn scan_end(log: Seq<u8>, off: int) -> int
    decreases log.len() - off,
{
    match parse_record(log, off) {
        None => off,
        Some(p) => scan_end(log, p.end),
    }
}

/// A log is clean when a scan from the start consumes every byte: it is a
/// back-to-back sequence of complete records, with no truncated tail.
pub open spec fn log_clean(log: Seq<u8>) -> bool {
    scan_end(log, 0) == log.len()
}

/// The length of an encoded record: two length prefixes plus the key and
/// value bytes.
pub proof fn lemma_encode_len(key: Seq<u8>, value: Seq<u8>)
    ensures
        spec_encode_record(key, value).len() == 16 + key.len() + value.len(),
{
    lemma_auto_spec_u64_to_from_le_bytes();
}

/// A record that parses in `log` parses identically after any bytes are
/// appended.
pub proof fn lemma_parse_extend(log: Seq<u8>, ext: Seq<u8>, off: int)
    requires
        parses_at(log, off),
    ensures
        parse_record(log + ext, off) == parse_record(log, off),
{
    let full = log + ext;
    assert(full.subrange(off, off + 8) =~= log.subrange(off, off + 8));
    let klen = spec_u64_from_le_bytes(log.subrange(off, off + 8)) as int;
    assert(full.subrange(off + 8 + klen, off + 8 + klen + 8) =~= log.subrange(
        off + 8 + klen,
        off + 8 + klen + 8,
    ));
    let vlen = spec_u64_from_le_bytes(log.subrange(off + 8 + klen, off + 8 + klen + 8)) as int;
    assert(full.subrange(off + 8, off + 8 + klen) =~= log.subrange(off + 8, off + 8 + klen));
    assert(full.subrange(off + 8 + klen + 8, off + 8 + klen + 8 + vlen) =~= log.subrange(
        off + 8 + klen + 8,
        off + 8 + klen + 8 + vlen,
    ));
}

/// The bytes of an encoded record, appended to a log, parse at the old end of
/// that log as exactly the record that was encoded.
pub proof fn lemma_parse_encode(log: Seq<u8>, key: Seq<u8>, value: Seq<u8>)
    requires
        key.len() + value.len() + 16 <= u64::MAX,
    ensures
        parses_at(log + spec_encode_record(key, value), log.len() as int),
        record_key_at(log + spec_encode_record(key, value), log.len() as int) == key,
        record_value_at(log + spec_encode_record(key, value), log.len() as int) == value,
        record_end_at(log + spec_encode_record(key, value), log.len() as int) == log.len() + 16
            + key.len() + value.len(),
{
    lemma_auto_spec_u64_to_from_le_bytes();
    let off = log.len() as int;
    let enc = spec_encode_record(key, value);
    let full = log + enc;
    let klen_bytes = spec_u64_to_le_bytes(key.len() as u64);
    let vlen_bytes = spec_u64_to_le_bytes(value.len() as u64);
    assert(full.subrange(off, off + 8) =~= klen_bytes);
    let klen = key.len() as int;
    let vlen = value.len() as int;
    assert(spec_u64_from_le_bytes(klen_bytes) == key.len() as u64);
    assert(full.subrange(off + 8, off + 8 + klen) =~= key);
    assert(full.subrange(off + 8 + klen, off + 8 + klen + 8) =~= vlen_bytes);
    assert(spec_u64_from_le_bytes(vlen_bytes) == value.len() as u64);
    assert(full.subrange(off + 8 + klen + 8, off + 8 + klen + 8 + vlen) =~= value);
}

/// Scanning a log whose records run exactly to its end, after more bytes are
/// appended, yields whatever the scan of the appended part yields, with the
/// appended records overriding the old ones key by key.
pub proof fn lemma_scan_extend(log: Seq<u8>, ext: Seq<u8>, off: int)
    requires
        0 <= off,
        scan_end(log, off) == log.len(),
    ensures
        scan_end(log + ext, off) == scan_end(log + ext, log.len() as int),
        scan_index(log + ext, off) == scan_index(log, off).union_prefer_right(
            scan_index(log + ext, log.len() as int),
        ),
        scan_live(log + ext, off) == scan_live(log, off).union_prefer_right(
            scan_live(log + ext, log.len() as int),
        ),
    decreases log.len() - off,
{
    let full = log + ext;
    let len = log.len() as int;
    let tail_i = scan_index(full, len);
    let tail_l = scan_live(full, len);
    match parse_record(log, off) {
        None => {
            assert(off == len);
            assert(!parses_at(log, len));
            assert(scan_index(log, off) =~= Map::<Seq<u8>, int>::empty());
            assert(scan_live(log, off) =~= Map::<Seq<u8>, Seq<u8>>::empty());
            assert(Map::<Seq<u8>, int>::empty().union_prefer_right(tail_i) =~= tail_i);
            assert(Map::<Seq<u8>, Seq<u8>>::empty().union_prefer_right(tail_l) =~= tail_l);
        },
        Some(p) => {
            lemma_parse_extend(log, ext, off);
            assert(scan_end(log, p.end) == log.len());
            lemma_scan_extend(log, ext, p.end);
            let rest_i = scan_index(log, p.end);
            let rest_l = scan_live(log, p.end);
            let rest_fi = scan_index(full, p.end);
            let rest_fl = scan_live(full, p.end);
            assert(rest_fi == rest_i.union_prefer_right(tail_i));
            assert(rest_fl == rest_l.union_prefer_right(tail_l));
            // the index and live maps of a scan share their domain
            lemma_scan_wf(log, p.end);
            lemma_scan_wf(full, p.end);
            lemma_scan_wf(full, len);
            assert(rest_l.dom() == rest_i.dom());
            assert(tail_l.dom() == tail_i.dom());
            assert(rest_fl.dom() == rest_fi.dom());
            if rest_i.dom().contains(p.key) {
                assert(rest_fi.dom().contains(p.key));
                assert(scan_index(full, off) == rest_fi);
                assert(scan_live(full, off) == rest_fl);
            } else if tail_i.dom().contains(p.key) {
                assert(rest_fi.dom().contains(p.key));
                assert(scan_index(full, off) == rest_fi);
                assert(scan_live(full, off) == rest_fl);
                assert(rest_i.insert(p.key, off).union_prefer_right(tail_i)
                    =~= rest_i.union_prefer_right(tail_i));
                assert(rest_l.insert(p.key, p.value).union_prefer_right(tail_l)
                    =~= rest_l.union_prefer_right(tail_l));
            } else {
                assert(!rest_fi.dom().contains(p.key));
                assert(!rest_fl.dom().contains(p.key));
                assert(scan_index(full, off) == rest_fi.insert(p.key, off));
                assert(scan_live(full, off) == rest_fl.insert(p.key, p.value));
                assert(rest_fi.insert(p.key, off) =~= rest_i.insert(p.key, off)
                    .union_prefer_right(tail_i));
                assert(rest_fl.insert(p.key, p.value) =~= rest_l.insert(p.key, p.value)
                    .union_prefer_right(tail_l));
            }
        },
    }
}

/// The index and live maps of a scan share their domain, and the index is
/// faithful: each indexed offset holds a complete record bearing that key,
/// whose value is the live value.
pub proof fn lemma_scan_wf(log: Seq<u8>, off: int)
    requires
        0 <= off,
    ensures
        scan_index(log, off).dom() == scan_live(log, off).dom(),
        forall|k: Seq<u8>| #[trigger] scan_index(log, off).dom().contains(k) ==> {
            let o = scan_index(log, off)[k];
            &&& off <= o
            &&& parses_at(log, o)
            &&& record_key_at(log, o) == k
            &&& record_value_at(log, o) == scan_live(log, off)[k]
        },
    decreases log.len() - off,
{
    match parse_record(log, off) {
        None => {
            assert(scan_index(log, off).dom() =~= scan_live(log, off).dom());
        },
        Some(p) => {
            lemma_scan_wf(log, p.end);
            assert(scan_index(log, off).dom() =~= scan_live(log, off).dom());
        },
    }
}

/// Appending one encoded record to a clean log inserts that record into the
/// index and the live map, and leaves the log clean.
pub proof fn lemma_scan_append_record(log: Seq<u8>, key: Seq<u8>, value: Seq<u8>)
    requires
        log_clean(log),
        key.len() + value.len() + 16 <= u64::MAX,
    ensures
        log_clean(log + spec_encode_record(key, value)),
        scan_index(log + spec_encode_record(key, value), 0) == scan_index(log, 0).insert(
            key,
            log.len() as int,
        ),
        scan_live(log + spec_encode_record(key, value), 0) == scan_live(log, 0).insert(key, value),
{
    let enc = spec_encode_record(key, value);
    let full = log + enc;
    let len = log.len() as int;
    lemma_auto_spec_u64_to_from_le_bytes();
    lemma_parse_encode(log, key, value);
    assert(enc.len() == 16 + key.len() + value.len());
    assert(record_end_at(full, len) == full.len());
    assert(!parses_at(full, full.len() as int));
    assert(scan_end(full, record_end_at(full, len)) == full.len() as int);
    assert(scan_end(full, len) == full.len() as int);
    assert(scan_index(full, full.len() as int) =~= Map::<Seq<u8>, int>::empty());
    assert(scan_live(full, full.len() as int) =~= Map::<Seq<u8>, Seq<u8>>::empty());
    assert(scan_index(full, len) =~= Map::<Seq<u8>, int>::empty().insert(key, len));
    assert(scan_live(full, len) =~= Map::<Seq<u8>, Seq<u8>>::empty().insert(key, value));
    lemma_scan_extend(log, enc, 0);
    assert(scan_index(full, 0) =~= scan_index(log, 0).insert(key, len));
    assert(scan_live(full, 0) =~= scan_live(log, 0).insert(key, value));
}

/// Truncated tail tolerance: bytes after a clean log that do not form a
/// complete record leave the scan of the log unchanged — every complete
/// record stays visible, and the partial tail is absent from the index.
pub proof fn lemma_scan_truncated(log: Seq<u8>, tail: Seq<u8>)
    requires
        log_clean(log),
        !parses_at(log + tail, log.len() as int),
    ensures
        scan_index(log + tail, 0) == scan_index(log, 0),
        scan_live(log + tail, 0) == scan_live(log, 0),
        scan_end(log + tail, 0) == log.len(),
{
    let full = log + tail;
    let len = log.len() as int;
    lemma_scan_extend(log, tail, 0);
    assert(scan_index(full, len) =~= Map::<Seq<u8>, int>::empty());
    assert(scan_live(full, len) =~= Map::<Seq<u8>, Seq<u8>>::empty());
    assert(scan_index(log, 0).union_prefer_right(scan_index(full, len)) =~= scan_index(log, 0));
    assert(scan_live(log, 0).union_prefer_right(scan_live(full, len)) =~= scan_live(log, 0));
}

/// Encodes one record.
pub fn encode_record(key: &[u8], value: &[u8]) -> (r: Vec<u8>)
    requires
        key@.len() + value@.len() + 16 <= usize::MAX,
    ensures
        r@ == spec_encode_record(key@, value@),
        r@.len() == 16 + key@.len() + value@.len(),
{
    let mut out: Vec<u8> = Vec::new();
    let mut klen_bytes = u64_to_le_bytes(key.len() as u64);
    let mut key_copy = slice_to_vec(key);
    let mut vlen_bytes = u64_to_le_bytes(value.len() as u64);
    let mut value_copy = slice_to_vec(value);
    out.append(&mut klen_bytes);
    out.append(&mut key_copy);
    out.append(&mut vlen_bytes);
    out.append(&mut value_copy);
    proof {
        assert(out@ =~= spec_encode_record(key@, value@));
    }
    out
}

/// Parses the record beginning at `off`, returning its key, its value and the
/// offset just past it; `None` if the remaining bytes do not hold a complete
/// record.
pub fn parse_record_at(log: &[u8], off: usize) -> (r: Option<(Vec<u8>, Vec<u8>, usize)>)
    ensures
        match r {
            Some(t) => {
                &&& parses_at(log@, off as int)
                &&& record_key_at(log@, off as int) == t.0@
                &&& record_value_at(log@, off as int) == t.1@
                &&& record_end_at(log@, off as int) == t.2 as int
            },
            None => !parses_at(log@, off as int),
        },
{
    let n = log.len();
    if off > n || n - off < 8 {
        return None;
    }
    let klen64 = u64_from_le_bytes(slice_subrange(log, off, off + 8));
    let rest = n - off - 8;
    if klen64 > rest as u64 {
        return None;
    }
    let klen = klen64 as usize;
    if rest - klen < 8 {
        return None;
    }
    let vstart = off + 8 + klen;
    let vlen64 = u64_from_le_bytes(slice_subrange(log, vstart, vstart + 8));
    let rest2 = rest - klen - 8;
    if vlen64 > rest2 as u64 {
        return None;
    }
    let vlen = vlen64 as usize;
    let key = slice_to_vec(slice_subrange(log, off + 8, off + 8 + klen));
    let value = slice_to_vec(slice_subrange(log, vstart + 8, vstart + 8 + vlen));
    Some((key, value, vstart + 8 + vlen))
}

/// Byte-for-byte comparison of two slices.
pub fn bytes_eq(a: &[u8], b: &[u8]) -> (r: bool)
    ensures
        r == (a@ == b@),
{
    if a.len() != b.len() {
        return false;
    }
    let mut i: usize = 0;
    while i < a.len()
        invariant
            i <= a@.len(),
            a@.len() == b@.len(),
            forall|j: int| 0 <= j < i ==> a@[j] == b@[j],
        decreases a@.len() - i,
    {
        if *slice_index_get(a, i) != *slice_index_get(b, i) {
            return false;
        }
        i = i + 1;
    }
    proof {
        assert(a@ =~= b@);
    }
    true
}

/// Reads the record at `off` and checks it against the requested key, as a
/// `get` through the index does: an incomplete record is treated as an absent
/// key, and a complete record whose key differs from the requested one is
/// data corruption.
pub fn read_record_checked(log: &[u8], off: usize, key: &[u8]) -> (r: Result<
    Option<Vec<u8>>,
    KvError,
>)
    ensures
        !parses_at(log@, off as int) ==> r == Ok::<Option<Vec<u8>>, KvError>(None),
        parses_at(log@, off as int) && record_key_at(log@, off as int) == key@ ==> {
            &&& r matches Ok(o)
            &&& o matches Some(v) && v@ == record_value_at(log@, off as int)
        },
        parses_at(log@, off as int) && record_key_at(log@, off as int) != key@ ==> r == Err::<
            Option<Vec<u8>>,
            KvError,
        >(KvError::DataCorruption),
{
    match parse_record_at(log, off) {
        None => Ok(None),
        Some((stored_key, value, _end)) => {
            if bytes_eq(stored_key.as_slice(), key) {
                Ok(Some(value))
            } else {
                Err(KvError::DataCorruption)
            }
        },
    }
}

} // verus!
