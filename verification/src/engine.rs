//! The engine: rotation and compaction around one active segment store.
//!
//! The engine owns the active segment, counts successful writes, and once
//! the count reaches `max_writes` it synchronously rewrites the live
//! contents into a fresh log and resets the counter. Segment files live in a
//! directory under a name pattern with a numeric suffix; scanning that
//! directory and reading or writing the files is the embedding application's
//! part, which hands the engine the log bytes and mirrors them back to disk.

use vstd::prelude::*;

verus! {

use vstd::string::StringSliceAdditionalSpecFns;
use vstd::utf8::{decode_utf8, encode_utf8, valid_utf8};
use crate::KvError;
use crate::codec::{bytes_eq, log_clean, scan_live, spec_encode_record};
use vstd::slice::{slice_index_get, slice_subrange, slice_to_vec};
use crate::segment::KVStore;

/// A size-bounded key-value store over one active segment.
pub struct RCask {
    directory: String,
    pattern: String,
    max_writes: u64,
    store: KVStore,
    writes: u64,
}

impl View for RCask {
    type V = Map<Seq<u8>, Seq<u8>>;

    /// The live contents of the active segment.
    closed spec fn view(&self) -> Map<Seq<u8>, Seq<u8>> {
        self.store@
    }
}

impl RCask {
    /// The engine's invariant: the segment's index is faithful, and the
    /// write counter sits strictly below the threshold (or at zero, right
    /// after creation or compaction).
    pub closed spec fn wf(self) -> bool {
        &&& self.store.wf()
        &&& self.writes == 0 || self.writes < self.max_writes
    }

    /// The bytes of the active segment's log.
    pub closed spec fn log(self) -> Seq<u8> {
        self.store.log_view()
    }

    /// Writes since the last compaction (or since creation).
    pub closed spec fn writes_done(self) -> u64 {
        self.writes
    }

    /// The configured compaction threshold.
    pub closed spec fn write_limit(self) -> u64 {
        self.max_writes
    }

    /// The segment's index is exactly what a scan of its log yields, and the
    /// log is a back-to-back sequence of complete records.
    pub closed spec fn store_synced(self) -> bool {
        self.store.synced() && self.store.clean()
    }

    /// The configured directory name.
    pub closed spec fn spec_directory(self) -> Seq<char> {
        self.directory@
    }

    /// The configured file name pattern.
    pub closed spec fn spec_pattern(self) -> Seq<char> {
        self.pattern@
    }

    /// Creates an engine over the bytes of the active segment file — the
    /// highest-numbered existing one, by numeric suffix, or an empty byte
    /// vector for a fresh store — and rebuilds the index from them.
    pub fn init(directory: String, pattern: String, max_writes: u64, log: Vec<u8>) -> (s: Self)
        ensures
            s.wf(),
            s@ == scan_live(log@, 0),
            s.log() == log@,
            s.writes_done() == 0,
            s.write_limit() == max_writes,
            s.store_synced() == log_clean(log@),
            s.spec_directory() == directory@,
            s.spec_pattern() == pattern@,
    {
        RCask { directory, pattern, max_writes, store: KVStore::new(log), writes: 0 }
    }

    /// Creates an engine with the default threshold of 10000 writes.
    pub fn new(directory: String, pattern: String, log: Vec<u8>) -> (s: Self)
        ensures
            s.wf(),
            s@ == scan_live(log@, 0),
            s.log() == log@,
            s.writes_done() == 0,
            s.write_limit() == 10000,
            s.store_synced() == log_clean(log@),
            s.spec_directory() == directory@,
            s.spec_pattern() == pattern@,
    {
        Self::init(directory, pattern, 10000, log)
    }

    /// Writes one record through the active segment; on the write that
    /// reaches `max_writes`, compacts synchronously before returning.
    /// Returns whether compaction ran, so the embedding application can
    /// mirror the log on disk: append the encoded record where no compaction
    /// ran, or write the fresh log to a new segment file and delete the old
    /// one where it did.
    pub fn set(&mut self, key: &[u8], value: &[u8]) -> (compacted: bool)
        requires
            old(self).wf(),
            old(self).log().len() + key@.len() + value@.len() + 16 <= usize::MAX,
        ensures
            final(self).wf(),
            final(self)@ == old(self)@.insert(key@, value@),
            compacted == (old(self).writes_done() + 1 >= old(self).write_limit()),
            !compacted ==> final(self).log() == old(self).log() + spec_encode_record(key@, value@),
            !compacted ==> final(self).writes_done() == old(self).writes_done() + 1,
            !compacted && old(self).store_synced() ==> final(self).store_synced(),
            compacted ==> final(self).writes_done() == 0,
            compacted ==> final(self).store_synced(),
            compacted ==> final(self).log().len() <= old(self).log().len() + 16 + key@.len()
                + value@.len(),
            final(self).write_limit() == old(self).write_limit(),
            final(self).spec_directory() == old(self).spec_directory(),
            final(self).spec_pattern() == old(self).spec_pattern(),
    {
        self.store.set(key, value);
        proof {
            crate::codec::lemma_encode_len(key@, value@);
        }
        self.writes = self.writes + 1;
        if self.writes >= self.max_writes {
            self.compact();
            true
        } else {
            false
        }
    }

    /// Reads the live value for `key`, decoded as text; an absent key is not
    /// an error.
    pub fn get(&self, key: &str) -> (r: Result<Option<String>, KvError>)
        requires
            self.wf(),
        ensures
            !self@.dom().contains(encode_utf8(key@)) ==> r == Ok::<Option<String>, KvError>(None),
            self@.dom().contains(encode_utf8(key@)) && valid_utf8(self@[encode_utf8(key@)]) ==> (
            match r {
                Ok(o) => o matches Some(s) && s@ == decode_utf8(self@[encode_utf8(key@)]),
                Err(_) => false,
            }),
            self@.dom().contains(encode_utf8(key@)) && !valid_utf8(self@[encode_utf8(key@)])
                ==> r == Err::<Option<String>, KvError>(KvError::InvalidEncoding),
    {
        self.store.get(key.as_bytes())
    }

    /// Rewrites the live contents into a fresh, clean segment and resets the
    /// write counter; the contents are preserved exactly.
    fn compact(&mut self)
        requires
            old(self).store.wf(),
        ensures
            final(self).store.wf(),
            final(self).store@ == old(self).store@,
            final(self).store.synced(),
            final(self).store.clean(),
            final(self).store.log_view().len() <= old(self).store.log_view().len(),
            final(self).writes == 0,
            final(self).max_writes == old(self).max_writes,
            final(self).directory == old(self).directory,
            final(self).pattern == old(self).pattern,
    {
        let new_store = self.store.compacted();
        self.store = new_store;
        self.writes = 0;
    }

    /// The bytes of the active segment's log, for mirroring to disk.
    pub fn log_bytes(&self) -> (r: &Vec<u8>)
        ensures
            r@ == self.log(),
    {
        self.store.log_bytes()
    }

    /// The configured directory name.
    pub fn directory(&self) -> (r: &String)
        ensures
            r@ == self.spec_directory(),
    {
        &self.directory
    }

    /// The configured file name pattern.
    pub fn pattern(&self) -> (r: &String)
        ensures
            r@ == self.spec_pattern(),
    {
        &self.pattern
    }

    /// The configured compaction threshold.
    pub fn max_writes(&self) -> (r: u64)
        ensures
            r == self.write_limit(),
    {
        self.max_writes
    }

    /// Writes since the last compaction.
    pub fn writes(&self) -> (r: u64)
        ensures
            r == self.writes_done(),
    {
        self.writes
    }
}

/// The numeric suffix for the next segment file: one past the largest
/// existing suffix, or 0 where no segment file exists yet. The comparison is
/// numeric, not lexicographic, so suffixes with differing digit counts order
/// correctly.
pub fn next_suffix(existing: &Vec<u64>) -> (r: u64)
    requires
        forall|i: int| 0 <= i < existing@.len() ==> #[trigger] existing@[i] < u64::MAX,
    ensures
        existing@.len() == 0 ==> r == 0,
        forall|i: int| 0 <= i < existing@.len() ==> #[trigger] existing@[i] < r,
        existing@.len() > 0 ==> exists|i: int|
            0 <= i < existing@.len() && r == #[trigger] existing@[i] + 1,
{
    if existing.len() == 0 {
        return 0;
    }
    let mut m: u64 = existing[0];
    let mut i: usize = 1;
    while i < existing.len()
        invariant
            1 <= i <= existing@.len(),
            existing@.len() > 0,
            forall|j: int| 0 <= j < existing@.len() ==> #[trigger] existing@[j] < u64::MAX,
            exists|j: int| 0 <= j < i && m == #[trigger] existing@[j],
            forall|j: int| 0 <= j < i ==> #[trigger] existing@[j] <= m,
        decreases existing@.len() - i,
    {
        if existing[i] > m {
            m = existing[i];
        }
        i = i + 1;
    }
    m + 1
}

/// ASCII digit bytes.
pub open spec fn is_digits(s: Seq<u8>) -> bool {
    forall|i: int| 0 <= i < s.len() ==> 48 <= #[trigger] s[i] <= 57
}

/// The numeric value of a sequence of ASCII digit bytes.
pub open spec fn digits_value(s: Seq<u8>) -> int
    decreases s.len(),
{
    if s.len() == 0 {
        0
    } else {
        digits_value(s.drop_last()) * 10 + (s.last() - 48)
    }
}

/// The decimal digits of `n`, most significant first, without a leading
/// zero.
pub open spec fn spec_decimal(n: int) -> Seq<u8>
    decreases n,
{
    if n < 10 {
        seq![(48 + n) as u8]
    } else {
        spec_decimal(n / 10).push((48 + n % 10) as u8)
    }
}

/// The file name `{pattern}.{digits}.log` as bytes.
pub open spec fn spec_segment_name(pattern: Seq<u8>, digits: Seq<u8>) -> Seq<u8> {
    pattern + seq![46u8] + digits + seq![46u8, 108u8, 111u8, 103u8]
}

/// The bytes between the pattern's dot and the trailing `.log`.
pub open spec fn name_suffix_digits(name: Seq<u8>, pattern: Seq<u8>) -> Seq<u8> {
    name.subrange(pattern.len() as int + 1, name.len() as int - 4)
}

/// Whether `name` is a segment file name for `pattern`: the pattern, a dot,
/// at least one decimal digit, and `.log`.
pub open spec fn is_segment_name(name: Seq<u8>, pattern: Seq<u8>) -> bool {
    &&& name.len() >= pattern.len() + 6
    &&& name == spec_segment_name(pattern, name_suffix_digits(name, pattern))
    &&& is_digits(name_suffix_digits(name, pattern))
}

/// A digit run's value is nonnegative.
proof fn lemma_digits_value_nonneg(s: Seq<u8>)
    requires
        is_digits(s),
    ensures
        digits_value(s) >= 0,
    decreases s.len(),
{
    if s.len() > 0 {
        assert(forall|i: int| 0 <= i < s.len() - 1 ==> s.drop_last()[i] == s[i]);
        lemma_digits_value_nonneg(s.drop_last());
    }
}

/// A digit run's value only grows as digits are appended.
proof fn lemma_digits_value_extend(s: Seq<u8>, j: int)
    requires
        0 <= j <= s.len(),
        is_digits(s),
    ensures
        digits_value(s.take(j)) <= digits_value(s),
    decreases s.len() - j,
{
    assert(forall|t: int, i: int| 0 <= i < t <= s.len() ==> #[trigger] s.take(t)[i] == s[i]);
    if j == s.len() {
        assert(s.take(j) =~= s);
    } else {
        lemma_digits_value_extend(s, j + 1);
        assert(s.take(j + 1).drop_last() =~= s.take(j));
        assert(is_digits(s.take(j)));
        lemma_digits_value_nonneg(s.take(j));
        assert(digits_value(s.take(j + 1)) == digits_value(s.take(j)) * 10 + (s[j] - 48));
    }
}

/// The canonical decimal form really is made of digits and evaluates back
/// to its number.
proof fn lemma_spec_decimal_value(n: int)
    requires
        n >= 0,
    ensures
        is_digits(spec_decimal(n)),
        spec_decimal(n).len() >= 1,
        digits_value(spec_decimal(n)) == n,
    decreases n,
{
    if n < 10 {
        assert(spec_decimal(n).drop_last() =~= Seq::<u8>::empty());
        assert(digits_value(Seq::<u8>::empty()) == 0);
        assert(spec_decimal(n).last() == (48 + n) as u8);
        assert(digits_value(spec_decimal(n)) == (48 + n) as u8 - 48);
    } else {
        lemma_spec_decimal_value(n / 10);
        vstd::arithmetic::div_mod::lemma_fundamental_div_mod(n, 10);
        assert(0 <= n % 10 < 10) by (nonlinear_arith)
            requires
                n >= 10,
        ;
        assert(spec_decimal(n).drop_last() =~= spec_decimal(n / 10));
        assert(spec_decimal(n).last() == (48 + n % 10) as u8);
        assert(digits_value(spec_decimal(n)) == digits_value(spec_decimal(n / 10)) * 10 + (n
            % 10));
    }
}

/// Parses the numeric suffix out of a segment file name: for
/// `{pattern}.{n}.log` it returns `n`, comparing digit runs numerically so
/// that `10` follows `9`; any other name, and a suffix past `u64::MAX`, is
/// rejected.
pub fn parse_segment_name(name: &[u8], pattern: &[u8]) -> (r: Option<u64>)
    ensures
        is_segment_name(name@, pattern@) && digits_value(name_suffix_digits(name@, pattern@))
            <= u64::MAX ==> r == Some(
            digits_value(name_suffix_digits(name@, pattern@)) as u64,
        ),
        !(is_segment_name(name@, pattern@) && digits_value(name_suffix_digits(name@, pattern@))
            <= u64::MAX) ==> r is None,
{
    let n = name.len();
    let p = pattern.len();
    if n < 6 || p > n - 6 {
        return None;
    }
    if !bytes_eq(slice_subrange(name, 0, p), pattern) {
        proof {
            if is_segment_name(name@, pattern@) {
                assert(name@.subrange(0, p as int) =~= pattern@);
            }
        }
        return None;
    }
    if *slice_index_get(name, p) != 46 {
        return None;
    }
    if *slice_index_get(name, n - 4) != 46 || *slice_index_get(name, n - 3) != 108
        || *slice_index_get(name, n - 2) != 111 || *slice_index_get(name, n - 1) != 103 {
        return None;
    }
    let ghost mid = name_suffix_digits(name@, pattern@);
    let mut value: u64 = 0;
    let mut i: usize = p + 1;
    while i < n - 4
        invariant
            p + 1 <= i <= n - 4,
            n == name@.len(),
            p == pattern@.len(),
            n >= p + 6,
            mid == name_suffix_digits(name@, pattern@),
            forall|j: int| p + 1 <= j < i ==> 48 <= #[trigger] name@[j] <= 57,
            value == digits_value(name@.subrange(p as int + 1, i as int)),
        decreases n - 4 - i,
    {
        let b = *slice_index_get(name, i);
        if b < 48 || b > 57 {
            proof {
                if is_segment_name(name@, pattern@) {
                    let j = i as int - (p as int + 1);
                    assert(mid[j] == name@[i as int]);
                    assert(48 <= mid[j] <= 57);
                }
            }
            return None;
        }
        let d = (b - 48) as u64;
        if value > (u64::MAX - d) / 10 {
            proof {
                if is_segment_name(name@, pattern@) {
                    let j = i as int - (p as int + 1);
                    assert(mid.take(j) =~= name@.subrange(p as int + 1, i as int));
                    assert(mid.take(j + 1).drop_last() =~= mid.take(j));
                    assert(mid.take(j + 1).last() == name@[i as int]);
                    assert(digits_value(mid.take(j + 1)) == value * 10 + d);
                    vstd::arithmetic::div_mod::lemma_fundamental_div_mod(
                        (u64::MAX - d) as int,
                        10,
                    );
                    assert(value * 10 + d > u64::MAX);
                    lemma_digits_value_extend(mid, j + 1);
                    assert(digits_value(mid) > u64::MAX);
                }
            }
            return None;
        }
        value = value * 10 + d;
        proof {
            assert(name@.subrange(p as int + 1, i as int + 1).drop_last() =~= name@.subrange(
                p as int + 1,
                i as int,
            ));
            assert(name@.subrange(p as int + 1, i as int + 1).last() == name@[i as int]);
        }
        i = i + 1;
    }
    proof {
        assert(mid =~= name@.subrange(p as int + 1, i as int));
        assert(is_digits(mid));
        assert(name@ =~= spec_segment_name(pattern@, mid));
        assert(is_segment_name(name@, pattern@));
    }
    Some(value)
}

/// The canonical decimal digits of `n`.
pub fn format_suffix(n: u64) -> (r: Vec<u8>)
    ensures
        r@ == spec_decimal(n as int),
    decreases n,
{
    if n < 10 {
        let mut v: Vec<u8> = Vec::new();
        v.push(48 + (n as u8));
        proof {
            assert(v@ =~= spec_decimal(n as int));
        }
        v
    } else {
        let mut v = format_suffix(n / 10);
        v.push(48 + ((n % 10) as u8));
        proof {
            assert(v@ =~= spec_decimal(n as int));
        }
        v
    }
}

/// The file name `{pattern}.{n}.log` for a segment.
pub fn segment_file_name(pattern: &[u8], n: u64) -> (r: Vec<u8>)
    ensures
        r@ == spec_segment_name(pattern@, spec_decimal(n as int)),
{
    let mut v = slice_to_vec(pattern);
    v.push(46);
    let mut digits = format_suffix(n);
    v.append(&mut digits);
    v.push(46);
    v.push(108);
    v.push(111);
    v.push(103);
    proof {
        assert(v@ =~= spec_segment_name(pattern@, spec_decimal(n as int)));
    }
    v
}

/// Segment file names round-trip through their numeric suffix: the name
/// formatted for `n` parses back to exactly `n`.
pub proof fn lemma_segment_name_round_trip(pattern: Seq<u8>, n: u64)
    ensures
        is_segment_name(spec_segment_name(pattern, spec_decimal(n as int)), pattern),
        digits_value(
            name_suffix_digits(spec_segment_name(pattern, spec_decimal(n as int)), pattern),
        ) == n,
{
    lemma_spec_decimal_value(n as int);
    let name = spec_segment_name(pattern, spec_decimal(n as int));
    assert(name_suffix_digits(name, pattern) =~= spec_decimal(n as int));
}

/// The position of the largest suffix in a list — the segment to open at
/// startup — or `None` where no segment file exists.
pub fn latest_suffix_position(existing: &Vec<u64>) -> (r: Option<usize>)
    ensures
        (r is None) == (existing@.len() == 0),
        r matches Some(p) ==> p < existing@.len() && forall|i: int|
            0 <= i < existing@.len() ==> #[trigger] existing@[i] <= existing@[p as int],
{
    if existing.len() == 0 {
        return None;
    }
    let mut best: usize = 0;
    let mut i: usize = 1;
    while i < existing.len()
        invariant
            1 <= i <= existing@.len(),
            best < i,
            forall|j: int| 0 <= j < i ==> #[trigger] existing@[j] <= existing@[best as int],
        decreases existing@.len() - i,
    {
        if existing[i] > existing[best] {
            best = i;
        }
        i = i + 1;
    }
    Some(best)
}

} // verus!
