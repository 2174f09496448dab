//! A single segment store: one append-only record log, modelled as the bytes
//! of its file, together with the in-memory index that maps each key to the
//! byte offset of its latest record.
//!
//! The store's abstract state (its view) is the map from keys to live values.
//! Loading rebuilds the index by scanning the log from the start and stops
//! silently at the first incomplete record, so a truncated tail is tolerated.

use vstd::prelude::*;

verus! {

use vstd::slice::slice_to_vec;
use vstd::utf8::{decode_utf8, valid_utf8};
use crate::KvError;
use crate::codec::{bytes_eq, encode_record, lemma_encode_len, log_clean, parse_record_at, parses_at,
    read_record_checked, record_end_at, record_key_at, record_value_at, scan_index,
    scan_live, spec_encode_record, lemma_parse_extend, lemma_parse_encode,
    lemma_scan_append_record, lemma_scan_wf};

/// A key-value store over one append-only log.
pub struct KVStore {
    log: Vec<u8>,
    index: Vec<(Vec<u8>, usize)>,
}

/// The index entry `e` is faithful to `log`: a complete record bearing `e`'s
/// key begins at `e`'s offset.
pub open spec fn entry_wf(log: Seq<u8>, e: (Vec<u8>, usize)) -> bool {
    &&& parses_at(log, e.1 as int)
    &&& record_key_at(log, e.1 as int) == e.0@
}

/// An index as a sequence of key/offset entries is well formed over `log`:
/// every entry is faithful, keys occur once, and the indexed records lie one
/// after another without overlap.
pub open spec fn entries_wf(log: Seq<u8>, entries: Seq<(Vec<u8>, usize)>) -> bool {
    &&& forall|i: int| 0 <= i < entries.len() ==> entry_wf(log, #[trigger] entries[i])
    &&& forall|i: int, j: int|
        0 <= i < j < entries.len() ==> (#[trigger] entries[i]).0@ != (#[trigger] entries[j]).0@
    &&& forall|i: int, j: int|
        0 <= i < j < entries.len() ==> record_end_at(log, (#[trigger] entries[i]).1 as int) <= (
        #[trigger] entries[j]).1 as int
}

/// The mapping held by a sequence of key/offset entries; a later entry for
/// the same key overrides an earlier one.
pub open spec fn assoc_map(entries: Seq<(Vec<u8>, usize)>) -> Map<Seq<u8>, int>
    decreases entries.len(),
{
    if entries.len() == 0 {
        Map::empty()
    } else {
        assoc_map(entries.drop_last()).insert(entries.last().0@, entries.last().1 as int)
    }
}

/// Whether some entry bears the key `k`.
pub open spec fn has_key(entries: Seq<(Vec<u8>, usize)>, k: Seq<u8>) -> bool {
    exists|i: int| 0 <= i < entries.len() && (#[trigger] entries[i]).0@ == k
}

/// The domain of `assoc_map` is the set of keys of the entries, and with
/// distinct keys each entry's offset is its key's image.
pub proof fn lemma_assoc_map_index(entries: Seq<(Vec<u8>, usize)>)
    ensures
        forall|k: Seq<u8>| #[trigger] assoc_map(entries).dom().contains(k) <==> has_key(entries, k),
        (forall|i: int, j: int|
            0 <= i < j < entries.len() ==> (#[trigger] entries[i]).0@ != (#[trigger] entries[j]).0@)
            ==> forall|i: int|
            0 <= i < entries.len() ==> assoc_map(entries)[(#[trigger] entries[i]).0@]
                == entries[i].1 as int,
    decreases entries.len(),
{
    if entries.len() > 0 {
        lemma_assoc_map_index(entries.drop_last());
        assert(forall|i: int|
            0 <= i < entries.len() - 1 ==> (#[trigger] entries[i]) == entries.drop_last()[i]);
        assert forall|k: Seq<u8>| #[trigger] assoc_map(entries).dom().contains(k) implies has_key(
            entries,
            k,
        ) by {
            if k == entries.last().0@ {
                assert((#[trigger] entries[entries.len() - 1]).0@ == k);
            } else {
                assert(assoc_map(entries.drop_last()).dom().contains(k));
                let i = choose|i: int|
                    0 <= i < entries.drop_last().len() && (#[trigger] entries.drop_last()[i]).0@
                        == k;
                assert((#[trigger] entries[i]).0@ == k);
            }
        }
        assert forall|k: Seq<u8>| has_key(entries, k) implies assoc_map(
            entries,
        ).dom().contains(k) by {
            let i = choose|i: int| 0 <= i < entries.len() && (#[trigger] entries[i]).0@ == k;
            if i < entries.len() - 1 {
                assert((#[trigger] entries.drop_last()[i]).0@ == k);
                assert(has_key(entries.drop_last(), k));
                assert(assoc_map(entries.drop_last()).dom().contains(k));
            } else {
                assert(k == entries.last().0@);
            }
        }
    }
}

/// Removing the entry that bears a key removes that key from the mapping,
/// when keys are distinct.
pub proof fn lemma_assoc_map_remove(entries: Seq<(Vec<u8>, usize)>, i: int)
    requires
        0 <= i < entries.len(),
        forall|p: int, q: int|
            0 <= p < q < entries.len() ==> (#[trigger] entries[p]).0@ != (#[trigger] entries[q]).0@,
    ensures
        assoc_map(entries.remove(i)) == assoc_map(entries).remove(entries[i].0@),
    decreases entries.len(),
{
    let k = entries[i].0@;
    if i == entries.len() - 1 {
        assert(entries.remove(i) =~= entries.drop_last());
        lemma_assoc_map_index(entries.drop_last());
        assert(forall|j: int|
            0 <= j < entries.len() - 1 ==> (#[trigger] entries.drop_last()[j]).0@ != k);
        assert(!assoc_map(entries.drop_last()).dom().contains(k));
        assert(assoc_map(entries).remove(k) =~= assoc_map(entries.drop_last()));
    } else {
        let last = entries.last();
        assert(entries.remove(i).drop_last() =~= entries.drop_last().remove(i));
        assert(entries.remove(i).last() == last);
        assert(forall|j: int|
            0 <= j < entries.len() - 1 ==> (#[trigger] entries.drop_last()[j]) == entries[j]);
        lemma_assoc_map_remove(entries.drop_last(), i);
        assert(entries.drop_last()[i].0@ == k);
        assert(assoc_map(entries.remove(i)) == assoc_map(entries.drop_last()).remove(k).insert(
            last.0@,
            last.1 as int,
        ));
        assert(last.0@ != k);
        assert(assoc_map(entries.drop_last()).remove(k).insert(last.0@, last.1 as int)
            =~= assoc_map(entries.drop_last()).insert(last.0@, last.1 as int).remove(k));
    }
}

/// Finds the position of the entry bearing `key`, if any.
fn find_entry(entries: &Vec<(Vec<u8>, usize)>, key: &[u8]) -> (r: Option<usize>)
    ensures
        match r {
            Some(i) => i < entries@.len() && entries@[i as int].0@ == key@,
            None => !has_key(entries@, key@),
        },
{
    let mut i: usize = 0;
    while i < entries.len()
        invariant
            i <= entries@.len(),
            forall|j: int| 0 <= j < i ==> (#[trigger] entries@[j]).0@ != key@,
        decreases entries@.len() - i,
    {
        if bytes_eq(entries[i].0.as_slice(), key) {
            return Some(i);
        }
        i = i + 1;
    }
    None
}

/// Replaces the entry bearing `key` (if any) by `(key, off)`, placed last.
fn index_insert(entries: &mut Vec<(Vec<u8>, usize)>, key: Vec<u8>, off: usize)
    requires
        forall|p: int, q: int|
            0 <= p < q < old(entries)@.len() ==> (#[trigger] old(entries)@[p]).0@ != (
            #[trigger] old(entries)@[q]).0@,
    ensures
        assoc_map(final(entries)@) == assoc_map(old(entries)@).insert(key@, off as int),
        forall|p: int, q: int|
            0 <= p < q < final(entries)@.len() ==> (#[trigger] final(entries)@[p]).0@ != (
            #[trigger] final(entries)@[q]).0@,
        final(entries)@.len() >= 1 && final(entries)@.last() == (key, off),
        ({
            ||| final(entries)@ == old(entries)@.push((key, off))
            ||| exists|i: int|
                0 <= i < old(entries)@.len() && (#[trigger] old(entries)@[i]).0@ == key@
                    && final(entries)@ == old(entries)@.remove(i).push((key, off))
        }),
{
    let ghost orig = entries@;
    let ghost k = key@;
    let found = find_entry(entries, key.as_slice());
    match found {
        Some(i) => {
            entries.remove(i);
            proof {
                lemma_assoc_map_remove(orig, i as int);
                lemma_assoc_map_index(orig);
            }
        },
        None => {
            proof {
                lemma_assoc_map_index(orig);
            }
        },
    }
    let ghost mid = entries@;
    entries.push((key, off));
    proof {
        assert(entries@.drop_last() =~= mid);
        assert(assoc_map(entries@) == assoc_map(mid).insert(k, off as int));
        match found {
            Some(i) => {
                assert(mid == orig.remove(i as int));
                assert(assoc_map(mid) == assoc_map(orig).remove(orig[i as int].0@));
                assert(assoc_map(orig).remove(k).insert(k, off as int) =~= assoc_map(orig).insert(
                    k,
                    off as int,
                ));
                // keys of mid are the keys of orig at shifted positions
                assert(forall|a: int|
                    0 <= a < mid.len() ==> (#[trigger] mid[a]) == (if a < i as int {
                        orig[a]
                    } else {
                        orig[a + 1]
                    }));
                assert(forall|a: int| 0 <= a < mid.len() ==> (#[trigger] mid[a]).0@ != k);
            },
            None => {
                assert(!assoc_map(orig).dom().contains(k));
                assert(forall|a: int| 0 <= a < mid.len() ==> (#[trigger] mid[a]).0@ != k);
            },
        }
    }
}

/// After a well-formed index takes `(key, off)` as its last entry — `off` at
/// or past the end of every indexed record, with a faithful record there —
/// the index is well formed again.
proof fn lemma_entries_wf_after_insert(
    log: Seq<u8>,
    orig: Seq<(Vec<u8>, usize)>,
    new: Seq<(Vec<u8>, usize)>,
    key: Vec<u8>,
    off: usize,
)
    requires
        entries_wf(log, orig),
        forall|i: int|
            0 <= i < orig.len() ==> record_end_at(log, (#[trigger] orig[i]).1 as int) <= off as int,
        entry_wf(log, (key, off)),
        forall|p: int, q: int|
            0 <= p < q < new.len() ==> (#[trigger] new[p]).0@ != (#[trigger] new[q]).0@,
        new == orig.push((key, off)) || exists|i: int|
            0 <= i < orig.len() && new == #[trigger] orig.remove(i).push((key, off)),
    ensures
        entries_wf(log, new),
        forall|i: int|
            0 <= i < new.len() ==> record_end_at(log, (#[trigger] new[i]).1 as int)
                <= record_end_at(log, off as int),
{
    if new == orig.push((key, off)) {
        assert(forall|a: int| 0 <= a < new.len() - 1 ==> (#[trigger] new[a]) == orig[a]);
        assert(new[new.len() - 1] == (key, off));
    } else {
        let i = choose|i: int| 0 <= i < orig.len() && new == #[trigger] orig.remove(i).push(
            (key, off),
        );
        let mid = orig.remove(i);
        assert(forall|a: int|
            0 <= a < mid.len() ==> (#[trigger] mid[a]) == (if a < i {
                orig[a]
            } else {
                orig[a + 1]
            }));
        assert(forall|a: int| 0 <= a < new.len() - 1 ==> (#[trigger] new[a]) == mid[a]);
        assert(new[new.len() - 1] == (key, off));
    }
}

impl View for KVStore {
    type V = Map<Seq<u8>, Seq<u8>>;

    /// The live contents: each indexed key, mapped to the value of the record
    /// its index offset points at.
    closed spec fn view(&self) -> Map<Seq<u8>, Seq<u8>> {
        Map::new(
            |k: Seq<u8>| assoc_map(self.index@).dom().contains(k),
            |k: Seq<u8>| record_value_at(self.log@, assoc_map(self.index@)[k]),
        )
    }
}

impl KVStore {
    /// The bytes of the log.
    pub closed spec fn log_view(self) -> Seq<u8> {
        self.log@
    }

    /// The index as a map from keys to offsets.
    pub closed spec fn index_map(self) -> Map<Seq<u8>, int> {
        assoc_map(self.index@)
    }

    /// The store's invariant: the index is faithful to the log.
    pub closed spec fn wf(self) -> bool {
        entries_wf(self.log@, self.index@)
    }

    /// The index is exactly what scanning the log yields; this holds after a
    /// load and is preserved by writes as long as the log stays clean.
    pub closed spec fn synced(self) -> bool {
        self.index_map() == scan_index(self.log@, 0)
    }

    /// Whether the log is a back-to-back sequence of complete records.
    pub open spec fn clean(self) -> bool {
        log_clean(self.log_view())
    }

    /// Opens a store over the bytes of a log file and rebuilds its index.
    pub fn new(log: Vec<u8>) -> (s: Self)
        ensures
            s.log_view() == log@,
            s.wf(),
            s.synced(),
            s@ == scan_live(log@, 0),
    {
        let mut s = KVStore { log, index: Vec::new() };
        s.load();
        s
    }

    /// Rebuilds the index by scanning the log from byte 0: each complete
    /// record indexes its key at its offset, later records overriding
    /// earlier ones; the scan stops silently at the first incomplete record.
    pub fn load(&mut self)
        ensures
            final(self).log_view() == old(self).log_view(),
            final(self).wf(),
            final(self).synced(),
            final(self)@ == scan_live(old(self).log_view(), 0),
    {
        self.index = Vec::new();
        let ghost log = self.log@;
        let mut pos: usize = 0;
        loop
            invariant
                self.log@ == log,
                pos <= log.len(),
                entries_wf(log, self.index@),
                forall|i: int|
                    0 <= i < self.index@.len() ==> record_end_at(
                        log,
                        (#[trigger] self.index@[i]).1 as int,
                    ) <= pos as int,
                scan_index(log, 0) == assoc_map(self.index@).union_prefer_right(
                    scan_index(log, pos as int),
                ),
            ensures
                !parses_at(log, pos as int),
            decreases log.len() - pos,
        {
            let parsed = parse_record_at(self.log.as_slice(), pos);
            match parsed {
                None => {
                    break ;
                },
                Some((key, _value, end)) => {
                    let ghost orig = self.index@;
                    let ghost gkey = key;
                    let ghost k = key@;
                    let ghost off = pos;
                    let ghost rest = scan_index(log, end as int);
                    proof {
                        assert(record_end_at(log, pos as int) == end as int);
                        assert(end as int <= log.len());
                        assert(pos + 16 <= end);
                        // one scan step
                        assert(scan_index(log, pos as int) == (if rest.dom().contains(k) {
                            rest
                        } else {
                            rest.insert(k, pos as int)
                        }));
                    }
                    index_insert(&mut self.index, key, pos);
                    pos = end;
                    proof {
                        let a = assoc_map(orig);
                        let a2 = assoc_map(self.index@);
                        assert(a2 == a.insert(k, off as int));
                        if rest.dom().contains(k) {
                            assert(a.insert(k, off as int).union_prefer_right(rest) =~= a
                                .union_prefer_right(rest));
                        } else {
                            assert(a.insert(k, off as int).union_prefer_right(rest) =~= a
                                .union_prefer_right(rest.insert(k, off as int)));
                        }
                        assert(scan_index(log, 0) == a2.union_prefer_right(
                            scan_index(log, pos as int),
                        ));
                        lemma_entries_wf_after_insert(log, orig, self.index@, gkey, off);
                        assert(forall|i: int|
                            0 <= i < self.index@.len() ==> record_end_at(
                                log,
                                (#[trigger] self.index@[i]).1 as int,
                            ) <= pos as int);
                    }
                },
            }
        }
        proof {
            assert(scan_index(log, pos as int) =~= Map::<Seq<u8>, int>::empty());
            assert(assoc_map(self.index@).union_prefer_right(Map::<Seq<u8>, int>::empty())
                =~= assoc_map(self.index@));
            assert(self.synced());
            lemma_scan_wf(log, 0);
            lemma_assoc_map_index(self.index@);
            assert(self@ =~= scan_live(log, 0));
        }
    }

    /// Appends one record for `(key, value)` and indexes the key at the old
    /// end of the log. A later record for a key supersedes any earlier one,
    /// which becomes dead space until compaction.
    pub fn set(&mut self, key: &[u8], value: &[u8])
        requires
            old(self).wf(),
            old(self).log_view().len() + key@.len() + value@.len() + 16 <= usize::MAX,
        ensures
            final(self).wf(),
            final(self)@ == old(self)@.insert(key@, value@),
            final(self).log_view() == old(self).log_view() + spec_encode_record(key@, value@),
            final(self).index_map() == old(self).index_map().insert(
                key@,
                old(self).log_view().len() as int,
            ),
            old(self).synced() && old(self).clean() ==> final(self).synced()
                && final(self).clean(),
    {
        let off = self.log.len();
        let mut rec = encode_record(key, value);
        let ghost old_log = self.log@;
        let ghost old_index = self.index@;
        let ghost enc = rec@;
        self.log.append(&mut rec);
        proof {
            assert(self.log@ == old_log + enc);
            lemma_parse_encode(old_log, key@, value@);
            assert forall|i: int| 0 <= i < old_index.len() implies entry_wf(
                self.log@,
                #[trigger] old_index[i],
            ) && record_end_at(self.log@, old_index[i].1 as int) == record_end_at(
                old_log,
                old_index[i].1 as int,
            ) by {
                lemma_parse_extend(old_log, enc, old_index[i].1 as int);
            }
            assert(entries_wf(self.log@, old_index));
        }
        let key_copy = slice_to_vec(key);
        let ghost gkey = key_copy;
        index_insert(&mut self.index, key_copy, off);
        proof {
            lemma_entries_wf_after_insert(self.log@, old_index, self.index@, gkey, off);
            assert(self.wf());
            lemma_assoc_map_index(old_index);
            lemma_assoc_map_index(self.index@);
            assert forall|k2: Seq<u8>|
                assoc_map(old_index).dom().contains(k2) && k2 != key@ implies record_value_at(
                self.log@,
                assoc_map(old_index)[k2],
            ) == record_value_at(old_log, assoc_map(old_index)[k2]) by {
                let i = choose|i: int|
                    0 <= i < old_index.len() && (#[trigger] old_index[i]).0@ == k2;
                assert(assoc_map(old_index)[k2] == old_index[i].1 as int);
                lemma_parse_extend(old_log, enc, old_index[i].1 as int);
            }
            assert(record_value_at(self.log@, off as int) == value@);
            assert(self@ =~= old(self)@.insert(key@, value@));
            if old(self).synced() && log_clean(old_log) {
                lemma_scan_append_record(old_log, key@, value@);
            }
        }
    }

    /// Looks up `key` in the index and returns its live value decoded as
    /// text; an absent key is not an error.
    pub fn get(&self, key: &[u8]) -> (r: Result<Option<String>, KvError>)
        requires
            self.wf(),
        ensures
            !self@.dom().contains(key@) ==> r == Ok::<Option<String>, KvError>(None),
            self@.dom().contains(key@) && valid_utf8(self@[key@]) ==> (match r {
                Ok(o) => o matches Some(s) && s@ == decode_utf8(self@[key@]),
                Err(_) => false,
            }),
            self@.dom().contains(key@) && !valid_utf8(self@[key@]) ==> r == Err::<
                Option<String>,
                KvError,
            >(KvError::InvalidEncoding),
    {
        let found = find_entry(&self.index, key);
        match found {
            None => {
                proof {
                    lemma_assoc_map_index(self.index@);
                }
                Ok(None)
            },
            Some(i) => {
                let off = self.index[i].1;
                proof {
                    lemma_assoc_map_index(self.index@);
                    assert(entry_wf(self.log@, self.index@[i as int]));
                    assert(assoc_map(self.index@)[key@] == off as int);
                    assert(self@.dom().contains(key@));
                    assert(self@[key@] == record_value_at(self.log@, off as int));
                }
                match read_record_checked(self.log.as_slice(), off, key) {
                    Ok(Some(value)) => {
                        match utf8_to_string(value) {
                            Some(s) => Ok(Some(s)),
                            None => Err(KvError::InvalidEncoding),
                        }
                    },
                    Ok(None) => {
                        proof {
                            assert(false);
                        }
                        Ok(None)
                    },
                    Err(e) => {
                        proof {
                            assert(false);
                        }
                        Err(e)
                    },
                }
            },
        }
    }

    /// Reads the live value bytes of every indexed key, in index order.
    pub fn get_all_key_values(&self) -> (r: Vec<(Vec<u8>, Vec<u8>)>)
        requires
            self.wf(),
        ensures
            forall|i: int|
                0 <= i < r@.len() ==> self@.dom().contains((#[trigger] r@[i]).0@)
                    && self@[r@[i].0@] == r@[i].1@,
            forall|k: Seq<u8>| #[trigger] self@.dom().contains(k) ==> has_pair(r@, k),
            forall|i: int, j: int|
                0 <= i < j < r@.len() ==> (#[trigger] r@[i]).0@ != (#[trigger] r@[j]).0@,
    {
        let mut out: Vec<(Vec<u8>, Vec<u8>)> = Vec::new();
        let mut i: usize = 0;
        while i < self.index.len()
            invariant
                self.wf(),
                i <= self.index@.len(),
                out@.len() == i,
                forall|a: int|
                    0 <= a < i ==> (#[trigger] out@[a]).0@ == self.index@[a].0@ && out@[a].1@
                        == record_value_at(self.log@, self.index@[a].1 as int),
            decreases self.index@.len() - i,
        {
            let entry_key = slice_to_vec(self.index[i].0.as_slice());
            let off = self.index[i].1;
            proof {
                assert(entry_wf(self.log@, self.index@[i as int]));
            }
            match parse_record_at(self.log.as_slice(), off) {
                Some((_stored_key, value, _end)) => {
                    out.push((entry_key, value));
                },
                None => {
                    proof {
                        assert(false);
                    }
                },
            }
            i = i + 1;
        }
        proof {
            lemma_assoc_map_index(self.index@);
            assert forall|k: Seq<u8>| #[trigger] self@.dom().contains(k) implies has_pair(
                out@,
                k,
            ) by {
                let j = choose|j: int|
                    0 <= j < self.index@.len() && (#[trigger] self.index@[j]).0@ == k;
                assert((#[trigger] out@[j]).0@ == k);
            }
            assert forall|a: int| 0 <= a < out@.len() implies self@.dom().contains(
                (#[trigger] out@[a]).0@,
            ) && self@[out@[a].0@] == out@[a].1@ by {
                assert((#[trigger] self.index@[a]).0@ == out@[a].0@);
                assert(assoc_map(self.index@)[out@[a].0@] == self.index@[a].1 as int);
            }
        }
        out
    }

    /// Builds a fresh store holding exactly this store's live contents: one
    /// record per indexed key, written in index order. The result is clean
    /// and synced, and its log is no longer than this store's log.
    pub fn compacted(&self) -> (s: Self)
        requires
            self.wf(),
        ensures
            s.wf(),
            s.synced(),
            s.clean(),
            s@ == self@,
            s.log_view().len() <= self.log_view().len(),
    {
        let mut out = KVStore { log: Vec::new(), index: Vec::new() };
        proof {
            assert(!parses_at(out.log@, 0));
            assert(scan_index(out.log@, 0) =~= Map::<Seq<u8>, int>::empty());
            assert(assoc_map(out.index@) =~= Map::<Seq<u8>, int>::empty());
            assert(out.wf());
            assert(out.synced());
            assert(log_clean(out.log@));
        }
        let mut i: usize = 0;
        while i < self.index.len()
            invariant
                self.wf(),
                i <= self.index@.len(),
                out.wf(),
                out.synced(),
                log_clean(out.log_view()),
                i < self.index@.len() ==> out.log_view().len() <= self.index@[i as int].1 as int,
                out.log_view().len() <= self.log@.len(),
                forall|j: int|
                    0 <= j < i ==> out@.dom().contains((#[trigger] self.index@[j]).0@) && out@[
                        self.index@[j].0@] == record_value_at(self.log@, self.index@[j].1 as int),
                forall|k: Seq<u8>|
                    #[trigger] out@.dom().contains(k) ==> exists|j: int|
                        0 <= j < i && (#[trigger] self.index@[j]).0@ == k,
            decreases self.index@.len() - i,
        {
            let off = self.index[i].1;
            proof {
                assert(entry_wf(self.log@, self.index@[i as int]));
            }
            match parse_record_at(self.log.as_slice(), off) {
                Some((key, value, end)) => {
                    proof {
                        assert(record_end_at(self.log@, off as int) == end as int);
                        assert(end as int <= self.log@.len());
                        assert(key@.len() + value@.len() + 16 == end as int - off as int);
                        assert(i + 1 < self.index@.len() ==> record_end_at(
                            self.log@,
                            (#[trigger] self.index@[i as int]).1 as int,
                        ) <= self.index@[i as int + 1].1 as int);
                    }
                    let ghost out_len = out.log_view().len();
                    out.set(key.as_slice(), value.as_slice());
                    proof {
                        lemma_encode_len(key@, value@);
                        assert(out.log_view().len() == out_len + 16 + key@.len() + value@.len());
                        assert(out.log_view().len() <= end as int);
                    }
                },
                None => {
                    proof {
                        assert(false);
                    }
                },
            }
            i = i + 1;
        }
        proof {
            lemma_assoc_map_index(self.index@);
            assert forall|k: Seq<u8>| #[trigger] self@.dom().contains(k) implies
                out@.dom().contains(k) && out@[k] == self@[k] by {
                let j = choose|j: int|
                    0 <= j < self.index@.len() && (#[trigger] self.index@[j]).0@ == k;
                assert(assoc_map(self.index@)[k] == self.index@[j].1 as int);
            }
            assert(out@ =~= self@);
        }
        out
    }
}

impl KVStore {
    /// The bytes of the log, for mirroring to a file.
    pub fn log_bytes(&self) -> (r: &Vec<u8>)
        ensures
            r@ == self.log_view(),
    {
        &self.log
    }
}

/// Round-trip: writing `(k, v)` makes `k` live with value exactly `v` — so
/// a lookup right after returns `v`, decoded as text when `v` is valid text,
/// by the contract of `get`.
pub proof fn lemma_set_get_round_trip(m: Map<Seq<u8>, Seq<u8>>, k: Seq<u8>, v: Seq<u8>)
    ensures
        m.insert(k, v).dom().contains(k),
        m.insert(k, v)[k] == v,
{
}

/// Last write wins: writing `(k, v1)` and then `(k, v2)` leaves the same
/// live contents as writing `(k, v2)` alone; a lookup of `k` sees `v2`.
pub proof fn lemma_last_write_wins(m: Map<Seq<u8>, Seq<u8>>, k: Seq<u8>, v1: Seq<u8>, v2: Seq<u8>)
    ensures
        m.insert(k, v1).insert(k, v2) == m.insert(k, v2),
        m.insert(k, v1).insert(k, v2)[k] == v2,
{
    assert(m.insert(k, v1).insert(k, v2) =~= m.insert(k, v2));
}

/// Rebuild idempotence: a store whose index is what scanning its log yields
/// — as holds after a load, and is kept by writes while the log is clean —
/// has as its contents exactly what a fresh load of its log bytes exposes.
/// Closing and reopening such a segment changes no lookup's result.
pub proof fn lemma_rebuild_idempotent(s: KVStore)
    requires
        s.wf(),
        s.synced(),
    ensures
        scan_live(s.log_view(), 0) == s@,
{
    lemma_scan_wf(s.log_view(), 0);
    assert(scan_live(s.log_view(), 0) =~= s@);
}

/// Whether some pair bears the key `k`.
pub open spec fn has_pair(pairs: Seq<(Vec<u8>, Vec<u8>)>, k: Seq<u8>) -> bool {
    exists|i: int| 0 <= i < pairs.len() && (#[trigger] pairs[i]).0@ == k
}

/// Relies on std's `String::from_utf8`: it returns the bytes decoded as text
/// exactly when they are valid UTF-8, per vstd's UTF-8 specification.
#[verifier::external_body]
fn utf8_to_string(bytes: Vec<u8>) -> (r: Option<String>)
    ensures
        r is Some <==> valid_utf8(bytes@),
        r matches Some(s) ==> s@ == decode_utf8(bytes@),
{
    match String::from_utf8(bytes) {
        Ok(s) => Some(s),
        Err(_) => None,
    }
}

} // verus!
