//! Chromosomes, queries and intervals, and the flattening of intervals into
//! covered positions.

use vstd::prelude::*;
use vstd::slice::slice_to_vec;
use vstd::string::StringExecFns;
use vstd::string::StringSliceAdditionalSpecFns;
use vstd::utf8::encode_utf8;

verus! {

/// The length of a chromosome and the offset of its first position among
/// the positions of all chromosomes.
#[derive(Clone, Copy, Debug, PartialEq, Eq, Structural)]
pub struct ChromData {
    pub length: u32,
    pub offset: u32,
}

impl ChromData {
    /// The data of a chromosome of the given length at the given offset.
    pub fn new(length: u32, offset: u32) -> (data: Self)
        ensures
            data.length == length,
            data.offset == offset,
    {
        ChromData { length, offset }
    }
}

/// A chromosome: its name and its data.
#[derive(Debug)]
pub struct ChromInfo {
    pub name: String,
    pub data: ChromData,
}

impl ChromInfo {
    /// The chromosome `name` of the given length, not yet placed: its offset
    /// is 0.
    pub fn new(name: String, length: u32) -> (chrom: Self)
        ensures
            chrom.name@ == name@,
            chrom.data.length == length,
            chrom.data.offset == 0,
    {
        ChromInfo { name, data: ChromData::new(length, 0) }
    }
}

/// Chromosomes are told apart by their names: two are equal if they are
/// called the same, whatever their data.
impl PartialEq for ChromInfo {
    fn eq(&self, other: &Self) -> (same: bool) {
        same_name(self.name.as_str(), other.name.as_str())
    }
}

impl vstd::std_specs::cmp::PartialEqSpecImpl for ChromInfo {
    open spec fn obeys_eq_spec() -> bool {
        true
    }

    open spec fn eq_spec(&self, other: &Self) -> bool {
        self.name@ == other.name@
    }
}

/// The half-open interval `[start, end)` of a chromosome.
#[derive(Debug)]
pub struct IntervalQuery {
    pub chrom: String,
    pub start: u32,
    pub end: u32,
}

impl IntervalQuery {
    /// The query for `[start, end)` of `chrom`. The bounds are taken as they
    /// are: `make_valid` puts them in order.
    pub fn new(chrom: String, start: u32, end: u32) -> (query: Self)
        ensures
            query.chrom@ == chrom@,
            query.start == start,
            query.end == end,
    {
        IntervalQuery { chrom, start, end }
    }

    /// Whether the end lies strictly past the start.
    pub fn is_valid(&self) -> (valid: bool)
        ensures
            valid == (self.end > self.start),
    {
        self.end > self.start
    }

    /// Puts the bounds in order: a query whose end does not lie past its
    /// start is taken to have its bounds exchanged, and they are exchanged
    /// back. A query of equal bounds stays as it is, and not valid.
    pub fn make_valid(&mut self)
        ensures
            final(self).chrom@ == old(self).chrom@,
            final(self).start == if old(self).end > old(self).start {
                old(self).start
            } else {
                old(self).end
            },
            final(self).end == if old(self).end > old(self).start {
                old(self).end
            } else {
                old(self).start
            },
    {
        if !self.is_valid() {
            let old_start: u32 = self.start;
            self.start = self.end;
            self.end = old_start;
        }
    }
}

/// A query named a chromosome that the file does not hold.
#[derive(Debug)]
pub struct ChromNotFoundError {
    pub chrom: String,
}

impl ChromNotFoundError {
    /// The message of this error, which names the chromosome.
    pub fn message(&self) -> (text: String)
        ensures
            text@ == "Could not find data for chrom "@ + self.chrom@
                + ". Ensure that the files contain the same set of chromosomes you are querying."@,
    {
        let text = String::from_str("Could not find data for chrom ");
        let text = text.concat(self.chrom.as_str());
        text.concat(
            ". Ensure that the files contain the same set of chromosomes you are querying.",
        )
    }
}

/// Whether the bytes `a` come strictly before the bytes `b` in
/// lexicographic order: at the first place where they differ `a` holds the
/// smaller byte, or `a` ends there and `b` goes on.
pub open spec fn bytes_before(a: Seq<u8>, b: Seq<u8>) -> bool {
    exists|k: int|
        {
            &&& 0 <= k <= a.len()
            &&& k < b.len()
            &&& #[trigger] a.take(k) == b.take(k)
            &&& (k == a.len() || a[k] < b[k])
        }
}

/// Whether the name `a` sorts strictly before the name `b`. Names are
/// ordered as strings are: lexicographically by the bytes of their UTF-8
/// encoding.
pub open spec fn name_before(a: Seq<char>, b: Seq<char>) -> bool {
    bytes_before(encode_utf8(a), encode_utf8(b))
}

/// The total length of the first `n` chromosomes.
pub open spec fn total_length(chroms: Seq<ChromInfo>, n: int) -> nat
    decreases n,
{
    if n <= 0 {
        0
    } else {
        total_length(chroms, n - 1) + chroms[n - 1].data.length as nat
    }
}

/// The total length of those of the first `n` chromosomes whose names sort
/// before `name`: the offset of `name` when the chromosomes are laid out in
/// the order of their names.
pub open spec fn length_before(chroms: Seq<ChromInfo>, name: Seq<char>, n: int) -> nat
    decreases n,
{
    if n <= 0 {
        0
    } else if name_before(chroms[n - 1].name@, name) {
        length_before(chroms, name, n - 1) + chroms[n - 1].data.length as nat
    } else {
        length_before(chroms, name, n - 1)
    }
}

/// Whether no two of the chromosomes have the same name.
pub open spec fn distinct_names(chroms: Seq<ChromInfo>) -> bool {
    forall|i: int, j: int| 0 <= i < j < chroms.len() ==> chroms[i].name@ != chroms[j].name@
}

/// Whether the chromosomes can be laid out: their names are distinct and
/// their positions fit into 32 bits.
pub open spec fn is_universe(chroms: Seq<ChromInfo>) -> bool {
    distinct_names(chroms) && total_length(chroms, chroms.len() as int) <= u32::MAX
}

/// The index of the first of the first `n` chromosomes that is called
/// `name`.
pub open spec fn position_of(table: Seq<ChromInfo>, name: Seq<char>, n: int) -> Option<int>
    decreases n,
{
    if n <= 0 {
        None
    } else if position_of(table, name, n - 1) is Some {
        position_of(table, name, n - 1)
    } else if table[n - 1].name@ == name {
        Some(n - 1)
    } else {
        None
    }
}

/// The data of the first chromosome of `table` that is called `name`.
pub open spec fn data_of(table: Seq<ChromInfo>, name: Seq<char>) -> Option<ChromData> {
    match position_of(table, name, table.len() as int) {
        Some(i) => Some(table[i].data),
        None => None,
    }
}

/// The lengths of more chromosomes add up to no less.
proof fn lemma_total_length_grows(chroms: Seq<ChromInfo>, m: int, n: int)
    requires
        0 <= m <= n,
    ensures
        total_length(chroms, m) <= total_length(chroms, n),
    decreases n,
{
    if m < n {
        lemma_total_length_grows(chroms, m, n - 1);
    }
}

/// The chromosomes before a name are no longer than all chromosomes.
proof fn lemma_length_before_bound(chroms: Seq<ChromInfo>, name: Seq<char>, n: int)
    requires
        0 <= n,
    ensures
        length_before(chroms, name, n) <= total_length(chroms, n),
    decreases n,
{
    if n > 0 {
        lemma_length_before_bound(chroms, name, n - 1);
    }
}

/// No bytes come before themselves.
pub proof fn lemma_bytes_before_irreflexive(a: Seq<u8>)
    ensures
        !bytes_before(a, a),
{
}

/// What comes before bytes that come before others comes before those.
pub proof fn lemma_bytes_before_transitive(a: Seq<u8>, b: Seq<u8>, c: Seq<u8>)
    requires
        bytes_before(a, b),
        bytes_before(b, c),
    ensures
        bytes_before(a, c),
{
    let k1 = choose|k: int|
        {
            &&& 0 <= k <= a.len()
            &&& k < b.len()
            &&& #[trigger] a.take(k) == b.take(k)
            &&& (k == a.len() || a[k] < b[k])
        };
    let k2 = choose|k: int|
        {
            &&& 0 <= k <= b.len()
            &&& k < c.len()
            &&& #[trigger] b.take(k) == c.take(k)
            &&& (k == b.len() || b[k] < c[k])
        };
    let k = if k1 < k2 {
        k1
    } else {
        k2
    };
    assert(a.take(k) =~= c.take(k)) by {
        assert forall|i: int| 0 <= i < k implies a[i] == c[i] by {
            assert(a.take(k1)[i] == b.take(k1)[i]);
            assert(b.take(k2)[i] == c.take(k2)[i]);
        }
    }
    if k1 < k2 {
        assert(b.take(k2)[k1] == c.take(k2)[k1]);
    } else if k2 < k1 {
        assert(a.take(k1)[k2] == b.take(k1)[k2]);
    }
    assert(k == a.len() || a[k] < c[k]);
}

/// A chromosome whose name sorts before another's ends where the other
/// begins, or before: the ranges that the layout gives to two chromosomes do
/// not overlap.
pub proof fn lemma_layout_ordered(chroms: Seq<ChromInfo>, i: int, j: int, n: int)
    requires
        0 <= i < chroms.len(),
        0 <= j < chroms.len(),
        0 <= n <= chroms.len(),
        name_before(chroms[i].name@, chroms[j].name@),
    ensures
        length_before(chroms, chroms[i].name@, n) + (if i < n {
            chroms[i].data.length as int
        } else {
            0
        }) <= length_before(chroms, chroms[j].name@, n),
    decreases n,
{
    if n > 0 {
        lemma_layout_ordered(chroms, i, j, n - 1);
        let own = encode_utf8(chroms[i].name@);
        let other = encode_utf8(chroms[j].name@);
        let last = encode_utf8(chroms[n - 1].name@);
        if bytes_before(last, own) {
            lemma_bytes_before_transitive(last, own, other);
        }
        if n - 1 == i {
            lemma_bytes_before_irreflexive(own);
        }
    }
}

/// The range that the layout gives to a chromosome ends within the total
/// length of all chromosomes.
pub proof fn lemma_layout_within(chroms: Seq<ChromInfo>, i: int, n: int)
    requires
        0 <= i < chroms.len(),
        0 <= n <= chroms.len(),
    ensures
        length_before(chroms, chroms[i].name@, n) + (if i < n {
            chroms[i].data.length as int
        } else {
            0
        }) <= total_length(chroms, n),
    decreases n,
{
    if n > 0 {
        lemma_layout_within(chroms, i, n - 1);
        if n - 1 == i {
            lemma_bytes_before_irreflexive(encode_utf8(chroms[i].name@));
        }
    }
}

/// The first chromosome called `name`, if there is one, is called `name`.
pub proof fn lemma_position_of(table: Seq<ChromInfo>, name: Seq<char>, n: int)
    requires
        0 <= n <= table.len(),
    ensures
        match position_of(table, name, n) {
            Some(i) => 0 <= i < n && table[i].name@ == name && forall|j: int|
                0 <= j < i ==> (#[trigger] table[j]).name@ != name,
            None => forall|j: int| 0 <= j < n ==> (#[trigger] table[j]).name@ != name,
        },
    decreases n,
{
    if n > 0 {
        lemma_position_of(table, name, n - 1);
    }
}

/// Whether `a` and `b` are the same name.
fn same_name(a: &str, b: &str) -> (same: bool)
    ensures
        same == (a@ == b@),
{
    let x = a.as_bytes();
    let y = b.as_bytes();
    proof {
        vstd::utf8::encode_utf8_decode_utf8(a@);
        vstd::utf8::encode_utf8_decode_utf8(b@);
    }
    if x.len() != y.len() {
        return false;
    }
    let mut i: usize = 0;
    while i < x.len()
        invariant
            x@ == encode_utf8(a@),
            y@ == encode_utf8(b@),
            x@.len() == y@.len(),
            i <= x@.len(),
            forall|j: int| 0 <= j < i ==> x@[j] == y@[j],
        decreases x@.len() - i,
    {
        if x[i] != y[i] {
            assert(x@[i as int] != y@[i as int]);
            return false;
        }
        i = i + 1;
    }
    assert(x@ =~= y@);
    true
}

/// Whether the name `a` sorts strictly before the name `b`.
fn name_precedes(a: &str, b: &str) -> (before: bool)
    ensures
        before == name_before(a@, b@),
{
    let x = a.as_bytes();
    let y = b.as_bytes();
    let mut i: usize = 0;
    while i < x.len() && i < y.len()
        invariant
            x@ == encode_utf8(a@),
            y@ == encode_utf8(b@),
            i <= x@.len(),
            i <= y@.len(),
            x@.take(i as int) == y@.take(i as int),
        decreases x@.len() - i,
    {
        if x[i] != y[i] {
            let before: bool = x[i] < y[i];
            proof {
                if !before && bytes_before(x@, y@) {
                    let k = choose|k: int|
                        {
                            &&& 0 <= k <= x@.len()
                            &&& k < y@.len()
                            &&& #[trigger] x@.take(k) == y@.take(k)
                            &&& (k == x@.len() || x@[k] < y@[k])
                        };
                    if k > i {
                        assert(x@.take(k)[i as int] == y@.take(k)[i as int]);
                    } else if k < i {
                        assert(x@.take(i as int)[k] == y@.take(i as int)[k]);
                    }
                }
                if before {
                    assert(x@.take(i as int) == y@.take(i as int));
                    assert(bytes_before(x@, y@));
                }
            }
            return before;
        }
        assert(x@.take(i as int + 1) =~= x@.take(i as int).push(x@[i as int]));
        assert(y@.take(i as int + 1) =~= y@.take(i as int).push(y@[i as int]));
        i = i + 1;
    }
    let before: bool = x.len() < y.len();
    proof {
        if !before && bytes_before(x@, y@) {
            let k = choose|k: int|
                {
                    &&& 0 <= k <= x@.len()
                    &&& k < y@.len()
                    &&& #[trigger] x@.take(k) == y@.take(k)
                    &&& (k == x@.len() || x@[k] < y@[k])
                };
            if k < i {
                assert(x@.take(i as int)[k] == y@.take(i as int)[k]);
            }
        }
        if before {
            assert(x@.take(i as int) == y@.take(i as int));
            assert(bytes_before(x@, y@));
        }
    }
    before
}

/// Lays the chromosomes out in the order of their names: each gets as its
/// offset the total length of the chromosomes whose names sort before its
/// own, so that the first in that order starts at 0 and each next one where
/// the one before it ends. The result holds the chromosomes in the order
/// given, with their offsets. Chromosomes of which two share a name, or whose
/// positions do not fit into 32 bits, are not laid out.
pub fn get_chrom_data(chroms: &[ChromInfo]) -> (result: Option<Vec<ChromInfo>>)
    ensures
        match result {
            Some(table) => {
                &&& is_universe(chroms@)
                &&& table@.len() == chroms@.len()
                &&& forall|i: int|
                    0 <= i < chroms@.len() ==> {
                        &&& (#[trigger] table@[i]).name@ == chroms@[i].name@
                        &&& table@[i].data.length == chroms@[i].data.length
                        &&& table@[i].data.offset == length_before(
                            chroms@,
                            chroms@[i].name@,
                            chroms@.len() as int,
                        )
                    }
            },
            None => !is_universe(chroms@),
        },
{
    let n: usize = chroms.len();
    let mut total: u64 = 0;
    let mut i: usize = 0;
    while i < n
        invariant
            n == chroms@.len(),
            i <= n,
            total == total_length(chroms@, i as int),
            total <= u32::MAX,
        decreases n - i,
    {
        total = total + (chroms[i].data.length as u64);
        if total > 0xFFFF_FFFFu64 {
            proof {
                lemma_total_length_grows(chroms@, i as int + 1, n as int);
            }
            return None;
        }
        i = i + 1;
    }
    i = 0;
    while i < n
        invariant
            n == chroms@.len(),
            i <= n,
            forall|a: int, b: int| 0 <= a < b < n && a < i ==> chroms@[a].name@ != chroms@[b].name@,
        decreases n - i,
    {
        let mut j: usize = i + 1;
        while j < n
            invariant
                n == chroms@.len(),
                i < j <= n,
                forall|b: int| i < b < j ==> chroms@[i as int].name@ != chroms@[b].name@,
            decreases n - j,
        {
            if same_name(chroms[i].name.as_str(), chroms[j].name.as_str()) {
                return None;
            }
            j = j + 1;
        }
        i = i + 1;
    }
    let mut table: Vec<ChromInfo> = Vec::new();
    i = 0;
    while i < n
        invariant
            n == chroms@.len(),
            i <= n,
            total_length(chroms@, n as int) <= u32::MAX,
            table@.len() == i,
            forall|a: int|
                0 <= a < i ==> {
                    &&& (#[trigger] table@[a]).name@ == chroms@[a].name@
                    &&& table@[a].data.length == chroms@[a].data.length
                    &&& table@[a].data.offset == length_before(
                        chroms@,
                        chroms@[a].name@,
                        n as int,
                    )
                },
        decreases n - i,
    {
        let mut offset: u64 = 0;
        let mut j: usize = 0;
        while j < n
            invariant
                n == chroms@.len(),
                i < n,
                j <= n,
                total_length(chroms@, n as int) <= u32::MAX,
                offset == length_before(chroms@, chroms@[i as int].name@, j as int),
            decreases n - j,
        {
            proof {
                lemma_length_before_bound(chroms@, chroms@[i as int].name@, j as int + 1);
                lemma_total_length_grows(chroms@, j as int + 1, n as int);
            }
            if name_precedes(chroms[j].name.as_str(), chroms[i].name.as_str()) {
                offset = offset + (chroms[j].data.length as u64);
            }
            j = j + 1;
        }
        proof {
            lemma_length_before_bound(chroms@, chroms@[i as int].name@, n as int);
        }
        table.push(
            ChromInfo {
                name: chroms[i].name.clone(),
                data: ChromData::new(chroms[i].data.length, offset as u32),
            },
        );
        i = i + 1;
    }
    Some(table)
}

/// The data of the first chromosome of `table` that is called `name`.
pub fn find_chrom(table: &[ChromInfo], name: &str) -> (found: Option<ChromData>)
    ensures
        found == data_of(table@, name@),
{
    let mut i: usize = 0;
    while i < table.len()
        invariant
            i <= table@.len(),
            position_of(table@, name@, i as int) is None,
        decreases table@.len() - i,
    {
        if same_name(table[i].name.as_str(), name) {
            proof {
                lemma_found_stays(table@, name@, i as int, table@.len() as int);
            }
            return Some(table[i].data);
        }
        i = i + 1;
    }
    None
}

/// What is first among fewer chromosomes is first among more.
proof fn lemma_found_stays(table: Seq<ChromInfo>, name: Seq<char>, i: int, n: int)
    requires
        0 <= i < n <= table.len(),
        position_of(table, name, i + 1) == Some(i),
    ensures
        position_of(table, name, n) == Some(i),
    decreases n,
{
    if n > i + 1 {
        lemma_found_stays(table, name, i, n - 1);
    }
}

/// The length of the chromosome `chrom`, or the error that names it if
/// `chroms` holds no chromosome of that name.
pub fn get_chrom_end(chroms: &[ChromInfo], chrom: &str) -> (result: Result<u32, ChromNotFoundError>)
    ensures
        match result {
            Ok(length) => data_of(chroms@, chrom@) is Some && length == data_of(
                chroms@,
                chrom@,
            )->0.length,
            Err(error) => data_of(chroms@, chrom@) is None && error.chrom@ == chrom@,
        },
{
    match find_chrom(chroms, chrom) {
        Some(data) => Ok(data.length),
        None => Err(ChromNotFoundError { chrom: String::from_str(chrom) }),
    }
}

/// A half-open interval `[start, end)` of positions.
#[derive(Clone, Copy, Debug, PartialEq, Eq, Structural)]
pub struct Interval {
    pub start: u32,
    pub end: u32,
}

/// The largest end among the first `n` intervals of `s`, and 0 if `n` is 0.
pub open spec fn max_end(s: Seq<Interval>, n: int) -> int
    decreases n,
{
    if n <= 0 {
        0
    } else if s[n - 1].end > max_end(s, n - 1) {
        s[n - 1].end as int
    } else {
        max_end(s, n - 1)
    }
}

/// The first position of interval `i` that no earlier interval reaches.
pub open spec fn fresh_start(s: Seq<Interval>, i: int) -> int {
    if s[i].start >= max_end(s, i) {
        s[i].start as int
    } else {
        max_end(s, i)
    }
}

/// The positions `lo, lo + 1, ..` below `hi`, in order.
pub open spec fn positions(lo: int, hi: int) -> Seq<u32> {
    Seq::new(
        if hi > lo {
            (hi - lo) as nat
        } else {
            0
        },
        |j: int| (lo + j) as u32,
    )
}

/// The positions that the first `n` intervals of `s` cover: each interval
/// contributes what lies past every earlier interval's end.
pub open spec fn covered(s: Seq<Interval>, n: int) -> Seq<u32>
    decreases n,
{
    if n <= 0 {
        Seq::empty()
    } else {
        covered(s, n - 1) + positions(fresh_start(s, n - 1), s[n - 1].end as int)
    }
}

/// Whether `s` is strictly increasing.
pub open spec fn strictly_increasing(s: Seq<u32>) -> bool {
    forall|i: int, j: int| 0 <= i < j < s.len() ==> s[i] < s[j]
}

/// Whether the intervals of `s` come in ascending order of their starts.
pub open spec fn sorted_by_start(s: Seq<Interval>) -> bool {
    forall|i: int, j: int| 0 <= i <= j < s.len() ==> s[i].start <= s[j].start
}

/// Whether `p` lies in one of the first `n` intervals of `s`.
pub open spec fn in_some_interval(s: Seq<Interval>, n: int, p: u32) -> bool {
    exists|i: int| 0 <= i < n && (#[trigger] s[i]).start <= p && p < s[i].end
}

/// Every covered position lies in one of the intervals, below the largest
/// end, and the positions are strictly increasing.
pub proof fn lemma_covered_increasing(s: Seq<Interval>, n: int)
    requires
        0 <= n <= s.len(),
    ensures
        strictly_increasing(covered(s, n)),
        forall|k: int| 0 <= k < covered(s, n).len() ==> (#[trigger] covered(s, n)[k]) < max_end(s, n),
        forall|k: int|
            0 <= k < covered(s, n).len() ==> in_some_interval(s, n, #[trigger] covered(s, n)[k]),
    decreases n,
{
    if n > 0 {
        lemma_covered_increasing(s, n - 1);
        let before = covered(s, n - 1);
        let tail = positions(fresh_start(s, n - 1), s[n - 1].end as int);
        let all = covered(s, n);
        assert(all == before + tail);
        assert forall|k: int| 0 <= k < all.len() implies (#[trigger] all[k]) < max_end(s, n) by {
            if k < before.len() {
                assert(all[k] == before[k]);
            } else {
                assert(all[k] == tail[k - before.len()]);
            }
        }
        assert forall|k: int| 0 <= k < all.len() implies in_some_interval(
            s,
            n,
            #[trigger] all[k],
        ) by {
            if k < before.len() {
                assert(all[k] == before[k]);
                assert(in_some_interval(s, n - 1, before[k]));
                let i = choose|i: int|
                    0 <= i < n - 1 && (#[trigger] s[i]).start <= before[k] && before[k] < s[i].end;
                assert(s[i].start <= all[k] && all[k] < s[i].end);
            } else {
                assert(all[k] == tail[k - before.len()]);
                assert(s[n - 1].start <= all[k] && all[k] < s[n - 1].end);
            }
        }
        assert forall|i: int, j: int| 0 <= i < j < all.len() implies all[i] < all[j] by {
            if j < before.len() {
                assert(all[i] == before[i] && all[j] == before[j]);
            } else if i < before.len() {
                assert(all[i] == before[i]);
                assert(all[j] == tail[j - before.len()]);
            } else {
                assert(all[i] == tail[i - before.len()]);
                assert(all[j] == tail[j - before.len()]);
            }
        }
    }
}

/// Flattening loses nothing when the intervals are sorted by start: every
/// position of every interval is covered.
pub proof fn lemma_covered_complete(s: Seq<Interval>, n: int, i: int, p: u32)
    requires
        0 <= i < n <= s.len(),
        sorted_by_start(s),
        s[i].start <= p < s[i].end,
    ensures
        covered(s, n).contains(p),
    decreases n,
{
    let before = covered(s, n - 1);
    let lo = fresh_start(s, n - 1);
    let tail = positions(lo, s[n - 1].end as int);
    if i < n - 1 {
        lemma_covered_complete(s, n - 1, i, p);
        let k = choose|k: int| 0 <= k < before.len() && before[k] == p;
        assert(covered(s, n)[k] == p);
    } else if p >= lo {
        assert(tail[p - lo] == p);
        assert(covered(s, n)[before.len() + (p - lo)] == p);
    } else {
        lemma_reached(s, n - 1, n - 1, p);
        let j = choose|j: int| 0 <= j < n - 1 && (#[trigger] s[j]).start <= p && p < s[j].end;
        lemma_covered_complete(s, n - 1, j, p);
        let k = choose|k: int| 0 <= k < before.len() && before[k] == p;
        assert(covered(s, n)[k] == p);
    }
}

/// A position below the largest end of the first `n` intervals, and not
/// below the start of a later interval `m`, lies in one of the first `n`.
proof fn lemma_reached(s: Seq<Interval>, n: int, m: int, p: u32)
    requires
        0 <= n <= m < s.len(),
        sorted_by_start(s),
        s[m].start <= p < max_end(s, n),
    ensures
        in_some_interval(s, n, p),
    decreases n,
{
    if n > 0 {
        if p < s[n - 1].end {
            assert(s[n - 1].start <= s[m].start);
        } else {
            lemma_reached(s, n - 1, m, p);
            let j = choose|j: int| 0 <= j < n - 1 && (#[trigger] s[j]).start <= p && p < s[j].end;
            assert(s[j].start <= p && p < s[j].end);
        }
    }
}

/// Flattens intervals into the positions they cover. Each interval adds the
/// positions past the largest end seen so far: one that ends at or before it
/// adds nothing, one that starts at or after it adds all of its positions, and
/// one that straddles it adds its tail. The result is strictly increasing. It
/// holds every position of every interval if the intervals are sorted by
/// start (`lemma_covered_complete`); the order is not checked.
pub fn intervals_to_vec(data: &[Interval]) -> (result: Vec<u32>)
    ensures
        result@ == covered(data@, data@.len() as int),
        strictly_increasing(result@),
{
    let mut result: Vec<u32> = Vec::new();
    let mut virtual_end: u32 = 0;
    let mut i: usize = 0;
    while i < data.len()
        invariant
            0 <= i <= data@.len(),
            virtual_end == max_end(data@, i as int),
            result@ == covered(data@, i as int),
        decreases data@.len() - i,
    {
        let start: u32 = data[i].start;
        let end: u32 = data[i].end;
        if end > virtual_end {
            let start_at: u32 = if start >= virtual_end {
                start
            } else {
                virtual_end
            };
            let mut position: u32 = start_at;
            while position < end
                invariant
                    start_at == fresh_start(data@, i as int),
                    end == data@[i as int].end,
                    start_at <= position,
                    position <= end || start_at >= end,
                    result@ == covered(data@, i as int) + positions(
                        start_at as int,
                        if position <= end {
                            position as int
                        } else {
                            start_at as int
                        },
                    ),
                decreases end - position,
            {
                result.push(position);
                position = position + 1;
                assert(result@ =~= covered(data@, i as int) + positions(
                    start_at as int,
                    position as int,
                ));
            }
            assert(result@ =~= covered(data@, i as int + 1)) by {
                assert(positions(start_at as int, end as int) =~= positions(
                    start_at as int,
                    if position <= end {
                        position as int
                    } else {
                        start_at as int
                    },
                ));
            }
            virtual_end = end;
        } else {
            assert(positions(fresh_start(data@, i as int), end as int) =~= Seq::<u32>::empty());
            assert(result@ =~= covered(data@, i as int + 1));
        }
        i = i + 1;
    }
    proof {
        lemma_covered_increasing(data@, data@.len() as int);
    }
    result
}

/// Whether every bound of `data` can be moved up by `offset` within 32
/// bits.
pub open spec fn offset_fits(data: Seq<Interval>, offset: u32) -> bool {
    forall|i: int|
        0 <= i < data.len() ==> (#[trigger] data[i]).start + offset <= u32::MAX && data[i].end
            + offset <= u32::MAX
}

/// The intervals `data`, each moved up by `offset`.
pub open spec fn moved(data: Seq<Interval>, offset: u32) -> Seq<Interval> {
    Seq::new(
        data.len(),
        |i: int|
            (Interval {
                start: (data[i].start + offset) as u32,
                end: (data[i].end + offset) as u32,
            }),
    )
}

/// The index of the first of the first `n` queries whose chromosome `table`
/// does not hold.
pub open spec fn first_missing(table: Seq<ChromInfo>, queries: Seq<IntervalQuery>, n: int) -> Option<
    int,
>
    decreases n,
{
    if n <= 0 {
        None
    } else if first_missing(table, queries, n - 1) is Some {
        first_missing(table, queries, n - 1)
    } else if data_of(table, queries[n - 1].chrom@) is None {
        Some(n - 1)
    } else {
        None
    }
}

/// What was fetched for the first `n` queries, each interval moved up by
/// the offset of its query's chromosome, one query after the other.
pub open spec fn gathered(
    table: Seq<ChromInfo>,
    queries: Seq<IntervalQuery>,
    fetched: Seq<Vec<Interval>>,
    n: int,
) -> Seq<Interval>
    decreases n,
{
    if n <= 0 {
        Seq::empty()
    } else {
        gathered(table, queries, fetched, n - 1) + moved(
            fetched[n - 1]@,
            data_of(table, queries[n - 1].chrom@)->0.offset,
        )
    }
}

/// Whether the intervals fetched for every query up to the first one whose
/// chromosome is missing can be moved up by their chromosome's offset.
pub open spec fn offsets_fit(
    table: Seq<ChromInfo>,
    queries: Seq<IntervalQuery>,
    fetched: Seq<Vec<Interval>>,
) -> bool {
    forall|i: int|
        0 <= i < queries.len() && first_missing(table, queries, i + 1) is None ==> offset_fits(
            (#[trigger] fetched[i])@,
            data_of(table, queries[i].chrom@)->0.offset,
        )
}

/// Whether every bound of `data` can be moved up by `offset` within 32
/// bits.
pub fn can_offset(data: &[Interval], offset: u32) -> (fits: bool)
    ensures
        fits == offset_fits(data@, offset),
{
    let mut i: usize = 0;
    while i < data.len()
        invariant
            i <= data@.len(),
            forall|j: int|
                0 <= j < i ==> (#[trigger] data@[j]).start + offset <= u32::MAX && data@[j].end
                    + offset <= u32::MAX,
        decreases data@.len() - i,
    {
        if data[i].start > u32::MAX - offset || data[i].end > u32::MAX - offset {
            return false;
        }
        i = i + 1;
    }
    true
}

/// Moves every interval of `data` up by `offset`.
pub fn offset_data(data: &mut Vec<Interval>, offset: u32)
    requires
        offset_fits(old(data)@, offset),
    ensures
        final(data)@ == moved(old(data)@, offset),
{
    let mut i: usize = 0;
    while i < data.len()
        invariant
            i <= data@.len(),
            data@.len() == old(data)@.len(),
            offset_fits(old(data)@, offset),
            forall|j: int| 0 <= j < i ==> data@[j] == moved(old(data)@, offset)[j],
            forall|j: int| i <= j < data@.len() ==> data@[j] == old(data)@[j],
        decreases data@.len() - i,
    {
        let entry: Interval = data[i];
        assert(old(data)@[i as int] == entry);
        data.set(i, Interval { start: entry.start + offset, end: entry.end + offset });
        i = i + 1;
    }
    assert(data@ =~= moved(old(data)@, offset));
}

/// Gathers what was fetched for each query into one list of intervals whose
/// positions are unique over all chromosomes: `fetched[i]` holds the
/// intervals of query `i`, and each is moved up by the offset that `table`
/// gives to the query's chromosome. The first query whose chromosome `table`
/// does not hold ends the work with the error that names it.
pub fn get_offset_intervals(
    table: &[ChromInfo],
    queries: &[IntervalQuery],
    fetched: &[Vec<Interval>],
) -> (result: Result<Vec<Interval>, ChromNotFoundError>)
    requires
        fetched@.len() == queries@.len(),
        offsets_fit(table@, queries@, fetched@),
    ensures
        match result {
            Ok(all) => first_missing(table@, queries@, queries@.len() as int) is None && all@
                == gathered(table@, queries@, fetched@, queries@.len() as int),
            Err(error) => match first_missing(table@, queries@, queries@.len() as int) {
                Some(m) => 0 <= m < queries@.len() && error.chrom@ == queries@[m].chrom@,
                None => false,
            },
        },
{
    let mut all_data: Vec<Interval> = Vec::new();
    let mut i: usize = 0;
    while i < queries.len()
        invariant
            i <= queries@.len(),
            fetched@.len() == queries@.len(),
            offsets_fit(table@, queries@, fetched@),
            first_missing(table@, queries@, i as int) is None,
            all_data@ == gathered(table@, queries@, fetched@, i as int),
        decreases queries@.len() - i,
    {
        let current: ChromData = match find_chrom(table, queries[i].chrom.as_str()) {
            Some(current) => current,
            None => {
                proof {
                    lemma_missing_stays(table@, queries@, i as int, queries@.len() as int);
                }
                return Err(ChromNotFoundError { chrom: queries[i].chrom.clone() });
            },
        };
        assert(first_missing(table@, queries@, i as int + 1) is None);
        assert(offset_fits(fetched@[i as int]@, current.offset));
        let mut data: Vec<Interval> = slice_to_vec(fetched[i].as_slice());
        offset_data(&mut data, current.offset);
        all_data.append(&mut data);
        i = i + 1;
    }
    Ok(all_data)
}

/// What is the first missing chromosome among fewer queries is the first
/// among more.
proof fn lemma_missing_stays(table: Seq<ChromInfo>, queries: Seq<IntervalQuery>, i: int, n: int)
    requires
        0 <= i < n <= queries.len(),
        first_missing(table, queries, i + 1) == Some(i),
    ensures
        first_missing(table, queries, n) == Some(i),
    decreases n,
{
    if n > i + 1 {
        lemma_missing_stays(table, queries, i, n - 1);
    }
}

/// The positions that the queries cover, unique over all chromosomes: the
/// intervals of `get_offset_intervals`, flattened by `intervals_to_vec`.
pub fn get_offset_data(
    table: &[ChromInfo],
    queries: &[IntervalQuery],
    fetched: &[Vec<Interval>],
) -> (result: Result<Vec<u32>, ChromNotFoundError>)
    requires
        fetched@.len() == queries@.len(),
        offsets_fit(table@, queries@, fetched@),
    ensures
        match result {
            Ok(covering) => first_missing(table@, queries@, queries@.len() as int) is None
                && covering@ == covered(
                gathered(table@, queries@, fetched@, queries@.len() as int),
                gathered(table@, queries@, fetched@, queries@.len() as int).len() as int,
            ),
            Err(error) => match first_missing(table@, queries@, queries@.len() as int) {
                Some(m) => 0 <= m < queries@.len() && error.chrom@ == queries@[m].chrom@,
                None => false,
            },
        },
{
    match get_offset_intervals(table, queries, fetched) {
        Ok(intervals) => Ok(intervals_to_vec(intervals.as_slice())),
        Err(error) => Err(error),
    }
}

} // verus!
