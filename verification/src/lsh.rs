//! A banded index over sketches: a sketch of `n_hashes * n_values` values is
//! cut into `n_hashes` bands of `n_values` values, and two sketches meet in
//! the index if they agree on all values of at least one band.

use crate::oph::{agreeing, OnePermutationHasher};
use crate::ratio::Ratio;
use std::collections::HashMap;
use vstd::prelude::*;
use vstd::slice::{slice_subrange, slice_to_vec};

verus! {

/// A sketch does not hold as many values as the index cuts into bands:
/// `expected` is `n_hashes * n_values`, and `found` the length of the sketch.
#[derive(Clone, Copy, Debug, PartialEq, Eq, Structural)]
pub struct IncorrectlyChunkedInputSketchError {
    pub expected: u128,
    pub found: usize,
}

/// The values of band `band` of `sketch`, where a band has `n_values`
/// values.
pub open spec fn band_of(sketch: Seq<u32>, band: int, n_values: nat) -> Seq<u32> {
    sketch.subrange(band * n_values, (band + 1) * n_values)
}

/// The ids that share a chunk in one band, in the order of their insertion.
struct Bucket {
    chunk: Vec<u32>,
    ids: Vec<u32>,
}

/// The multiplier of the fingerprint of a chunk.
const FINGERPRINT_FACTOR: u64 = 0x0000_0100_0000_01B3;

/// The fingerprint under which a band table files the buckets of a chunk.
spec fn fingerprint_spec(chunk: Seq<u32>) -> u64
    decreases chunk.len(),
{
    if chunk.len() == 0 {
        0
    } else {
        ((fingerprint_spec(chunk.drop_last()) as int * FINGERPRINT_FACTOR as int
            + chunk.last() as int) % 0x1_0000_0000_0000_0000) as u64
    }
}

/// The index of the first of the first `n` buckets of `chain` that belongs
/// to `chunk`.
spec fn chain_index(chain: Seq<Bucket>, chunk: Seq<u32>, n: int) -> Option<int>
    decreases n,
{
    if n <= 0 {
        None
    } else if chain_index(chain, chunk, n - 1) is Some {
        chain_index(chain, chunk, n - 1)
    } else if chain[n - 1].chunk@ == chunk {
        Some(n - 1)
    } else {
        None
    }
}

/// The ids that `chain` holds for `chunk`.
spec fn chain_ids(chain: Seq<Bucket>, chunk: Seq<u32>) -> Seq<u32> {
    match chain_index(chain, chunk, chain.len() as int) {
        Some(j) => chain[j].ids@,
        None => Seq::empty(),
    }
}

/// The ids that a band table holds for `chunk`.
spec fn table_ids(table: Map<u64, Vec<Bucket>>, chunk: Seq<u32>) -> Seq<u32> {
    if table.contains_key(fingerprint_spec(chunk)) {
        chain_ids(table[fingerprint_spec(chunk)]@, chunk)
    } else {
        Seq::empty()
    }
}

/// What `chain_index` finds lies below `n` and belongs to the chunk, and
/// no bucket before it does.
proof fn lemma_chain_index(chain: Seq<Bucket>, chunk: Seq<u32>, n: int)
    requires
        0 <= n <= chain.len(),
    ensures
        match chain_index(chain, chunk, n) {
            Some(j) => 0 <= j < n && chain[j].chunk@ == chunk && forall|i: int|
                0 <= i < j ==> (#[trigger] chain[i]).chunk@ != chunk,
            None => forall|i: int| 0 <= i < n ==> (#[trigger] chain[i]).chunk@ != chunk,
        },
    decreases n,
{
    if n > 0 {
        lemma_chain_index(chain, chunk, n - 1);
    }
}

/// The first bucket of a chunk is determined by where the chunk occurs.
proof fn lemma_chain_index_is(chain: Seq<Bucket>, chunk: Seq<u32>, n: int, j: int)
    requires
        0 <= j < n <= chain.len(),
        chain[j].chunk@ == chunk,
        forall|i: int| 0 <= i < j ==> (#[trigger] chain[i]).chunk@ != chunk,
    ensures
        chain_index(chain, chunk, n) == Some(j),
    decreases n,
{
    lemma_chain_index(chain, chunk, n - 1);
    if n - 1 > j {
        lemma_chain_index_is(chain, chunk, n - 1, j);
    }
}

/// A chunk that occurs nowhere has no bucket.
proof fn lemma_chain_index_none(chain: Seq<Bucket>, chunk: Seq<u32>, n: int)
    requires
        0 <= n <= chain.len(),
        forall|i: int| 0 <= i < n ==> (#[trigger] chain[i]).chunk@ != chunk,
    ensures
        chain_index(chain, chunk, n) is None,
    decreases n,
{
    if n > 0 {
        lemma_chain_index_none(chain, chunk, n - 1);
    }
}

/// Whether `a` and `b` hold the same values.
fn same_values(a: &[u32], b: &[u32]) -> (same: bool)
    ensures
        same == (a@ == b@),
{
    if a.len() != b.len() {
        return false;
    }
    let mut i: usize = 0;
    while i < a.len()
        invariant
            a@.len() == b@.len(),
            i <= a@.len(),
            forall|j: int| 0 <= j < i ==> a@[j] == b@[j],
        decreases a@.len() - i,
    {
        if a[i] != b[i] {
            return false;
        }
        i = i + 1;
    }
    assert(a@ =~= b@);
    true
}

/// The fingerprint of `chunk`.
fn fingerprint(chunk: &[u32]) -> (print: u64)
    ensures
        print == fingerprint_spec(chunk@),
{
    let mut print: u64 = 0;
    let mut i: usize = 0;
    while i < chunk.len()
        invariant
            i <= chunk@.len(),
            print == fingerprint_spec(chunk@.take(i as int)),
        decreases chunk@.len() - i,
    {
        assert(chunk@.take(i as int + 1).drop_last() =~= chunk@.take(i as int));
        assert((print as int) * (FINGERPRINT_FACTOR as int) <= 0xFFFF_FFFF_FFFF_FFFF
            * 0xFFFF_FFFF_FFFF_FFFF) by (nonlinear_arith)
            requires
                0 <= (print as int) <= 0xFFFF_FFFF_FFFF_FFFF,
                0 <= (FINGERPRINT_FACTOR as int) <= 0xFFFF_FFFF_FFFF_FFFF,
        ;
        let wide: u128 = (print as u128) * (FINGERPRINT_FACTOR as u128) + (chunk[i] as u128);
        print = (wide % 0x1_0000_0000_0000_0000u128) as u64;
        i = i + 1;
    }
    assert(chunk@.take(i as int) =~= chunk@);
    print
}

/// The index of the first bucket of `chain` that belongs to `chunk`.
fn find_bucket(chain: &Vec<Bucket>, chunk: &[u32]) -> (found: Option<usize>)
    ensures
        match found {
            Some(j) => j < chain@.len() && chain_index(chain@, chunk@, chain@.len() as int)
                == Some(j as int),
            None => chain_index(chain@, chunk@, chain@.len() as int) is None,
        },
{
    let mut j: usize = 0;
    while j < chain.len()
        invariant
            j <= chain@.len(),
            forall|i: int| 0 <= i < j ==> (#[trigger] chain@[i]).chunk@ != chunk@,
        decreases chain@.len() - j,
    {
        if same_values(chain[j].chunk.as_slice(), chunk) {
            proof {
                lemma_chain_index_is(chain@, chunk@, chain@.len() as int, j as int);
            }
            return Some(j);
        }
        j = j + 1;
    }
    proof {
        lemma_chain_index_none(chain@, chunk@, chain@.len() as int);
    }
    None
}

/// Files `id` under `chunk` in a band table: at the end of the chunk's
/// bucket, which is made if the table has none.
fn file_id(table: &mut HashMap<u64, Vec<Bucket>>, chunk: &[u32], id: u32)
    ensures
        forall|other: Seq<u32>|
            #[trigger] table_ids(final(table)@, other) == if other == chunk@ {
                table_ids(old(table)@, other).push(id)
            } else {
                table_ids(old(table)@, other)
            },
{
    broadcast use vstd::std_specs::hash::group_hash_axioms;

    let print: u64 = fingerprint(chunk);
    let mut chain: Vec<Bucket> = match table.remove(&print) {
        Some(chain) => chain,
        None => Vec::new(),
    };
    let ghost before = chain@;
    assert(forall|other: Seq<u32>|
        fingerprint_spec(other) == print ==> #[trigger] table_ids(old(table)@, other) == chain_ids(
            before,
            other,
        ));
    match find_bucket(&chain, chunk) {
        Some(j) => {
            chain[j].ids.push(id);
            proof {
                lemma_chain_index(before, chunk@, before.len() as int);
                assert forall|other: Seq<u32>| #[trigger]
                    chain_ids(chain@, other) == if other == chunk@ {
                        chain_ids(before, other).push(id)
                    } else {
                        chain_ids(before, other)
                    } by {
                    lemma_same_chunks(before, chain@, other, before.len() as int);
                    lemma_chain_index(before, other, before.len() as int);
                }
            }
        },
        None => {
            let mut ids: Vec<u32> = Vec::new();
            ids.push(id);
            chain.push(Bucket { chunk: slice_to_vec(chunk), ids });
            proof {
                assert(chain@[before.len() as int].ids@ =~= Seq::<u32>::empty().push(id));
                lemma_chain_index(before, chunk@, before.len() as int);
                assert forall|other: Seq<u32>| #[trigger]
                    chain_ids(chain@, other) == if other == chunk@ {
                        chain_ids(before, other).push(id)
                    } else {
                        chain_ids(before, other)
                    } by {
                    lemma_same_chunks(before, chain@, other, before.len() as int);
                    lemma_chain_index(before, other, before.len() as int);
                }
            }
        },
    }
    let ghost after = chain@;
    table.insert(print, chain);
    assert forall|other: Seq<u32>| #[trigger]
        table_ids(table@, other) == if other == chunk@ {
            table_ids(old(table)@, other).push(id)
        } else {
            table_ids(old(table)@, other)
        } by {
        if fingerprint_spec(other) == print {
            assert(table_ids(table@, other) == chain_ids(after, other));
        }
    }
}

/// Chains whose first `n` buckets belong to the same chunks find the same
/// bucket among them.
proof fn lemma_same_chunks(a: Seq<Bucket>, b: Seq<Bucket>, chunk: Seq<u32>, n: int)
    requires
        0 <= n <= a.len(),
        n <= b.len(),
        forall|i: int| 0 <= i < n ==> (#[trigger] a[i]).chunk@ == b[i].chunk@,
    ensures
        chain_index(a, chunk, n) == chain_index(b, chunk, n),
    decreases n,
{
    if n > 0 {
        lemma_same_chunks(a, b, chunk, n - 1);
        assert(a[n - 1].chunk@ == b[n - 1].chunk@);
    }
}

/// Whether the ids of `s` are strictly ascending.
pub open spec fn ascending_ids(s: Seq<u32>) -> bool {
    forall|i: int, j: int| 0 <= i < j < s.len() ==> s[i] < s[j]
}

/// The ids that a band table holds for `chunk`, if it holds any.
fn bucket_ids<'a>(table: &'a HashMap<u64, Vec<Bucket>>, chunk: &[u32]) -> (found: Option<
    &'a Vec<u32>,
>)
    ensures
        match found {
            Some(ids) => ids@ == table_ids(table@, chunk@),
            None => table_ids(table@, chunk@) == Seq::<u32>::empty(),
        },
{
    broadcast use vstd::std_specs::hash::group_hash_axioms;

    let print: u64 = fingerprint(chunk);
    match table.get(&print) {
        Some(chain) => match find_bucket(chain, chunk) {
            Some(j) => Some(&chain[j].ids),
            None => None,
        },
        None => None,
    }
}

/// Puts `id` into the ascending ids `set`, unless it is there.
fn insert_id(set: &mut Vec<u32>, id: u32)
    requires
        ascending_ids(old(set)@),
    ensures
        ascending_ids(final(set)@),
        forall|x: u32| #[trigger] final(set)@.contains(x) <==> old(set)@.contains(x) || x == id,
{
    let mut lo: usize = 0;
    let mut hi: usize = set.len();
    while lo < hi
        invariant
            set@ == old(set)@,
            ascending_ids(set@),
            lo <= hi <= set@.len(),
            forall|i: int| 0 <= i < lo ==> set@[i] < id,
            forall|i: int| hi <= i < set@.len() ==> set@[i] > id,
        decreases hi - lo,
    {
        let mid: usize = lo + (hi - lo) / 2;
        let at: u32 = set[mid];
        if at == id {
            assert(set@.contains(id));
            return ;
        } else if at < id {
            lo = mid + 1;
        } else {
            hi = mid;
        }
    }
    set.insert(lo, id);
    proof {
        let before = old(set)@;
        let after = set@;
        assert(after == before.insert(lo as int, id));
        assert forall|x: u32| #[trigger] after.contains(x) <==> before.contains(x) || x == id by {
            if after.contains(x) {
                let i = choose|i: int| 0 <= i < after.len() && after[i] == x;
                if i < lo {
                    assert(before[i] == x);
                } else if i > lo {
                    assert(before[i - 1] == x);
                }
            }
            if before.contains(x) {
                let i = choose|i: int| 0 <= i < before.len() && before[i] == x;
                if i < lo {
                    assert(after[i] == x);
                } else {
                    assert(after[i + 1] == x);
                }
            }
            if x == id {
                assert(after[lo as int] == x);
            }
        }
        assert forall|i: int, j: int| 0 <= i < j < after.len() implies after[i] < after[j] by {
            let bi = if i < lo { i } else { i - 1 };
            let bj = if j < lo { j } else { j - 1 };
            if i != lo && j != lo {
                assert(before[bi] < before[bj]);
            }
        }
    }
}

/// Whether hit `a` ranks before hit `b`: its sketch agrees with the query in
/// more values or, where both agree in as many, its id is larger.
pub open spec fn ranks_before(a: (u32, Ratio), b: (u32, Ratio)) -> bool {
    a.1.num > b.1.num || (a.1.num == b.1.num && a.0 > b.0)
}

/// Whether each hit of `hits` ranks before those behind it.
pub open spec fn ranked(hits: Seq<(u32, Ratio)>) -> bool {
    forall|i: int, j: int| 0 <= i < j < hits.len() ==> ranks_before(hits[i], hits[j])
}

/// Puts `hit` into the ranked hits `ranking`, which hold none of its id.
fn insert_hit(ranking: &mut Vec<(u32, Ratio)>, hit: (u32, Ratio))
    requires
        ranked(old(ranking)@),
        forall|i: int| 0 <= i < old(ranking)@.len() ==> (#[trigger] old(ranking)@[i]).0 != hit.0,
    ensures
        ranked(final(ranking)@),
        forall|x: (u32, Ratio)| #[trigger]
            final(ranking)@.contains(x) <==> old(ranking)@.contains(x) || x == hit,
{
    let mut lo: usize = 0;
    let mut hi: usize = ranking.len();
    while lo < hi
        invariant
            ranking@ == old(ranking)@,
            ranked(ranking@),
            forall|i: int| 0 <= i < ranking@.len() ==> (#[trigger] ranking@[i]).0 != hit.0,
            lo <= hi <= ranking@.len(),
            forall|i: int| 0 <= i < lo ==> ranks_before(#[trigger] ranking@[i], hit),
            forall|i: int| hi <= i < ranking@.len() ==> ranks_before(hit, #[trigger] ranking@[i]),
        decreases hi - lo,
    {
        let mid: usize = lo + (hi - lo) / 2;
        let at: (u32, Ratio) = ranking[mid];
        if at.1.num > hit.1.num || (at.1.num == hit.1.num && at.0 > hit.0) {
            assert forall|i: int| 0 <= i < mid + 1 implies ranks_before(
                #[trigger] ranking@[i],
                hit,
            ) by {
                if i < mid {
                    assert(ranks_before(ranking@[i], ranking@[mid as int]));
                }
            }
            lo = mid + 1;
        } else {
            assert(ranking@[mid as int].0 != hit.0);
            assert forall|i: int| mid <= i < ranking@.len() implies ranks_before(
                hit,
                #[trigger] ranking@[i],
            ) by {
                if i > mid {
                    assert(ranks_before(ranking@[mid as int], ranking@[i]));
                }
            }
            hi = mid;
        }
    }
    ranking.insert(lo, hit);
    proof {
        let before = old(ranking)@;
        let after = ranking@;
        assert(after == before.insert(lo as int, hit));
        assert forall|x: (u32, Ratio)| #[trigger]
            after.contains(x) <==> before.contains(x) || x == hit by {
            if after.contains(x) {
                let i = choose|i: int| 0 <= i < after.len() && after[i] == x;
                if i < lo {
                    assert(before[i] == x);
                } else if i > lo {
                    assert(before[i - 1] == x);
                }
            }
            if before.contains(x) {
                let i = choose|i: int| 0 <= i < before.len() && before[i] == x;
                if i < lo {
                    assert(after[i] == x);
                } else {
                    assert(after[i + 1] == x);
                }
            }
            if x == hit {
                assert(after[lo as int] == x);
            }
        }
        assert forall|i: int, j: int| 0 <= i < j < after.len() implies ranks_before(
            after[i],
            after[j],
        ) by {
            let bi = if i < lo { i } else { i - 1 };
            let bj = if j < lo { j } else { j - 1 };
            if i != lo && j != lo {
                assert(ranks_before(before[bi], before[bj]));
            } else if i == lo {
                assert(ranks_before(hit, before[bj]));
            } else {
                assert(ranks_before(before[bi], hit));
            }
        }
    }
}

/// Where the bands of a sketch begin and end.
proof fn lemma_band_bounds(band: int, n_hashes: int, n_values: int)
    requires
        0 <= band < n_hashes,
        0 <= n_values,
    ensures
        0 <= band * n_values,
        band * n_values + n_values == (band + 1) * n_values,
        (band + 1) * n_values <= n_hashes * n_values,
{
    assert(0 <= band * n_values && band * n_values + n_values == (band + 1) * n_values && (band
        + 1) * n_values <= n_hashes * n_values) by (nonlinear_arith)
        requires
            0 <= band < n_hashes,
            0 <= n_values,
    ;
}

/// A banded index of sketches of 32-bit values under 32-bit ids. The index
/// is a plain value: an insertion borrows it exclusively and queries share
/// it, so callers on several threads keep it behind a lock of their own.
pub struct Lsh {
    /// One table for each band, from the chunks of that band to the ids.
    hashers: Vec<HashMap<u64, Vec<Bucket>>>,
    /// The number of bands, L in the literature.
    n_hashes: usize,
    /// The number of values in a band, K in the literature.
    n_values: usize,
    /// The sketch of each id, so that the tables hold ids only.
    sketches: HashMap<u32, Vec<u32>>,
}

impl Lsh {
    /// The number of bands.
    pub closed spec fn spec_n_hashes(&self) -> nat {
        self.n_hashes as nat
    }

    /// The number of values in a band.
    pub closed spec fn spec_n_values(&self) -> nat {
        self.n_values as nat
    }

    /// The ids whose sketches hold `chunk` in band `band`, in the order of
    /// their insertion.
    pub closed spec fn bucket(&self, band: int, chunk: Seq<u32>) -> Seq<u32> {
        table_ids(self.hashers@[band]@, chunk)
    }

    /// The sketch of each id that was inserted.
    pub closed spec fn stored(&self) -> Map<u32, Seq<u32>> {
        Map::new(|id: u32| self.sketches@.contains_key(id), |id: u32| self.sketches@[id]@)
    }

    /// The index has a table for each band, every stored sketch has as many
    /// values as the bands take, and every id in a bucket has its sketch
    /// stored.
    pub closed spec fn well_formed(&self) -> bool {
        &&& self.hashers@.len() == self.n_hashes
        &&& forall|id: u32| #[trigger]
            self.sketches@.contains_key(id) ==> self.sketches@[id]@.len() == self.n_hashes
                * self.n_values
        &&& forall|band: int, chunk: Seq<u32>, j: int|
            0 <= band < self.n_hashes && 0 <= j < table_ids(self.hashers@[band]@, chunk).len()
                ==> self.sketches@.contains_key(
                #[trigger] table_ids(self.hashers@[band]@, chunk)[j],
            )
    }

    /// Whether `sketch` has as many values as the bands take.
    pub open spec fn sketch_fits(&self, sketch: Seq<u32>) -> bool {
        sketch.len() == self.spec_n_hashes() * self.spec_n_values()
    }

    /// Whether the index holds what `other` holds.
    pub open spec fn same_as(&self, other: &Self) -> bool {
        &&& self.spec_n_hashes() == other.spec_n_hashes()
        &&& self.spec_n_values() == other.spec_n_values()
        &&& self.stored() == other.stored()
        &&& forall|band: int, chunk: Seq<u32>|
            0 <= band < self.spec_n_hashes() ==> #[trigger] self.bucket(band, chunk)
                == other.bucket(band, chunk)
    }

    /// Whether the index holds what `before` holds and `sketch` under the
    /// id `id`: the sketch is stored, and the id stands at the end of the
    /// bucket of each band's chunk.
    pub open spec fn is_insertion(&self, before: &Self, sketch: Seq<u32>, id: u32) -> bool {
        &&& self.spec_n_hashes() == before.spec_n_hashes()
        &&& self.spec_n_values() == before.spec_n_values()
        &&& self.stored() == before.stored().insert(id, sketch)
        &&& forall|band: int, chunk: Seq<u32>|
            0 <= band < before.spec_n_hashes() ==> #[trigger] self.bucket(band, chunk) == if chunk
                == band_of(sketch, band, before.spec_n_values()) {
                before.bucket(band, chunk).push(id)
            } else {
                before.bucket(band, chunk)
            }
    }

    /// Every sketch that the index stores has as many values as the bands
    /// take.
    pub proof fn lemma_stored_fits(&self, id: u32)
        requires
            self.well_formed(),
            self.stored().contains_key(id),
        ensures
            self.sketch_fits(self.stored()[id]),
    {
        assert(self.sketches@.contains_key(id));
    }

    /// Every id in a bucket has its sketch stored.
    pub proof fn lemma_bucket_ids_stored(&self, band: int, chunk: Seq<u32>, j: int)
        requires
            self.well_formed(),
            0 <= band < self.spec_n_hashes(),
            0 <= j < self.bucket(band, chunk).len(),
        ensures
            self.stored().contains_key(self.bucket(band, chunk)[j]),
    {
        assert(self.sketches@.contains_key(table_ids(self.hashers@[band]@, chunk)[j]));
    }

    /// An empty index of `n_hashes` bands of `n_values` values each.
    pub fn new(n_hashes: usize, n_values: usize) -> (index: Self)
        ensures
            index.well_formed(),
            index.spec_n_hashes() == n_hashes,
            index.spec_n_values() == n_values,
            index.stored() == Map::<u32, Seq<u32>>::empty(),
            forall|band: int, chunk: Seq<u32>|
                0 <= band < n_hashes ==> #[trigger] index.bucket(band, chunk) == Seq::<u32>::empty(),
    {
        let mut hashers: Vec<HashMap<u64, Vec<Bucket>>> = Vec::new();
        let mut i: usize = 0;
        while i < n_hashes
            invariant
                i <= n_hashes,
                hashers@.len() == i,
                forall|band: int| 0 <= band < i ==> (#[trigger] hashers@[band])@ == Map::<
                    u64,
                    Vec<Bucket>,
                >::empty(),
            decreases n_hashes - i,
        {
            hashers.push(HashMap::new());
            i = i + 1;
        }
        let index = Lsh { hashers, n_hashes, n_values, sketches: HashMap::new() };
        assert(index.stored() =~= Map::<u32, Seq<u32>>::empty());
        index
    }

    /// The number of bands.
    pub fn n_hashes(&self) -> (n: usize)
        ensures
            n == self.spec_n_hashes(),
    {
        self.n_hashes
    }

    /// The number of values in a band.
    pub fn n_values(&self) -> (n: usize)
        ensures
            n == self.spec_n_values(),
    {
        self.n_values
    }

    /// The number of band tables that the index keeps: one for each band.
    pub fn table_count(&self) -> (n: usize)
        requires
            self.well_formed(),
        ensures
            n == self.spec_n_hashes(),
    {
        self.hashers.len()
    }

    /// The ids whose sketches hold `chunk` in band `band`, in the order of
    /// their insertion.
    pub fn ids_of(&self, band: usize, chunk: &[u32]) -> (ids: Vec<u32>)
        requires
            self.well_formed(),
            band < self.spec_n_hashes(),
        ensures
            ids@ == self.bucket(band as int, chunk@),
    {
        match bucket_ids(&self.hashers[band], chunk) {
            Some(ids) => slice_to_vec(ids.as_slice()),
            None => Vec::new(),
        }
    }

    /// The sketch that was inserted under `id`, if one was.
    pub fn sketch_of(&self, id: u32) -> (sketch: Option<Vec<u32>>)
        ensures
            match sketch {
                Some(values) => self.stored().contains_key(id) && values@ == self.stored()[id],
                None => !self.stored().contains_key(id),
            },
    {
        broadcast use vstd::std_specs::hash::group_hash_axioms;

        match self.sketches.get(&id) {
            Some(values) => Some(slice_to_vec(values.as_slice())),
            None => None,
        }
    }

    /// Cuts `sketch` into its bands: band `i` holds the values from place
    /// `i * n_values` up to place `(i + 1) * n_values`. A sketch that does not
    /// hold `n_hashes * n_values` values is refused.
    pub fn chunk_sketch(&self, sketch: &[u32]) -> (result: Result<
        Vec<Vec<u32>>,
        IncorrectlyChunkedInputSketchError,
    >)
        ensures
            match result {
                Ok(chunks) => {
                    &&& self.sketch_fits(sketch@)
                    &&& chunks@.len() == self.spec_n_hashes()
                    &&& forall|band: int|
                        0 <= band < self.spec_n_hashes() ==> (#[trigger] chunks@[band])@
                            == band_of(sketch@, band, self.spec_n_values())
                },
                Err(error) => {
                    &&& !self.sketch_fits(sketch@)
                    &&& error.expected == self.spec_n_hashes() * self.spec_n_values()
                    &&& error.found == sketch@.len()
                },
            },
    {
        assert((self.n_hashes as int) * (self.n_values as int) <= 0xFFFF_FFFF_FFFF_FFFF
            * 0xFFFF_FFFF_FFFF_FFFF) by (nonlinear_arith)
            requires
                0 <= (self.n_hashes as int) <= 0xFFFF_FFFF_FFFF_FFFF,
                0 <= (self.n_values as int) <= 0xFFFF_FFFF_FFFF_FFFF,
        ;
        let expected: u128 = (self.n_hashes as u128) * (self.n_values as u128);
        let sketch_len: usize = sketch.len();
        if (sketch_len as u128) != expected {
            return Err(IncorrectlyChunkedInputSketchError { expected, found: sketch_len });
        }
        let mut result: Vec<Vec<u32>> = Vec::new();
        let mut band: usize = 0;
        let mut start: usize = 0;
        while band < self.n_hashes
            invariant
                band <= self.n_hashes,
                sketch_len == sketch@.len(),
                sketch@.len() == self.n_hashes * self.n_values,
                start == band * self.n_values,
                result@.len() == band,
                forall|b: int|
                    0 <= b < band ==> (#[trigger] result@[b])@ == band_of(
                        sketch@,
                        b,
                        self.n_values as nat,
                    ),
            decreases self.n_hashes - band,
        {
            proof {
                lemma_band_bounds(band as int, self.n_hashes as int, self.n_values as int);
                assert(start + self.n_values == (band + 1) * self.n_values);
                assert(start + self.n_values <= sketch@.len());
            }
            let end: usize = start + self.n_values;
            result.push(slice_to_vec(slice_subrange(sketch, start, end)));
            start = end;
            band = band + 1;
        }
        Ok(result)
    }

    /// Inserts `sketch` under `sketch_id`: the sketch is stored, and the id
    /// is put at the end of the bucket of each band's chunk. The first sketch
    /// of an id stays: inserting under an id that the index holds changes
    /// nothing, whatever the sketch. A sketch that does not hold
    /// `n_hashes * n_values` values is refused, and nothing is changed.
    pub fn insert(&mut self, sketch: &[u32], sketch_id: u32) -> (result: Result<
        (),
        IncorrectlyChunkedInputSketchError,
    >)
        requires
            old(self).well_formed(),
        ensures
            final(self).well_formed(),
            final(self).spec_n_hashes() == old(self).spec_n_hashes(),
            final(self).spec_n_values() == old(self).spec_n_values(),
            old(self).stored().contains_key(sketch_id) ==> result is Ok && final(self).same_as(
                old(self),
            ),
            !old(self).stored().contains_key(sketch_id) ==> match result {
                Ok(_) => old(self).sketch_fits(sketch@) && final(self).is_insertion(
                    old(self),
                    sketch@,
                    sketch_id,
                ),
                Err(error) => {
                    &&& !old(self).sketch_fits(sketch@)
                    &&& final(self).same_as(old(self))
                    &&& error.expected == old(self).spec_n_hashes() * old(self).spec_n_values()
                    &&& error.found == sketch@.len()
                },
            },
    {
        broadcast use vstd::std_specs::hash::group_hash_axioms;

        if self.sketches.contains_key(&sketch_id) {
            return Ok(());
        }
        let chunked_sketch: Vec<Vec<u32>> = match self.chunk_sketch(sketch) {
            Ok(chunks) => chunks,
            Err(error) => {
                return Err(error);
            },
        };
        self.sketches.insert(sketch_id, slice_to_vec(sketch));
        assert(self.stored() =~= old(self).stored().insert(sketch_id, sketch@));
        let mut band: usize = 0;
        while band < self.n_hashes
            invariant
                band <= self.n_hashes,
                self.n_hashes == old(self).n_hashes,
                self.n_values == old(self).n_values,
                self.hashers@.len() == self.n_hashes,
                chunked_sketch@.len() == self.n_hashes,
                self.sketches@ == old(self).sketches@.insert(sketch_id, self.sketches@[sketch_id]),
                self.sketches@[sketch_id]@ == sketch@,
                sketch@.len() == self.n_hashes * self.n_values,
                old(self).well_formed(),
                forall|b: int|
                    0 <= b < self.n_hashes ==> (#[trigger] chunked_sketch@[b])@ == band_of(
                        sketch@,
                        b,
                        self.n_values as nat,
                    ),
                forall|b: int| band <= b < self.n_hashes ==> self.hashers@[b] == old(self).hashers@[b],
                forall|b: int, chunk: Seq<u32>|
                    0 <= b < band ==> #[trigger] table_ids(self.hashers@[b]@, chunk) == if chunk
                        == band_of(sketch@, b, self.n_values as nat) {
                        table_ids(old(self).hashers@[b]@, chunk).push(sketch_id)
                    } else {
                        table_ids(old(self).hashers@[b]@, chunk)
                    },
            decreases self.n_hashes - band,
        {
            let ghost tables = self.hashers@;
            file_id(&mut self.hashers[band], chunked_sketch[band].as_slice(), sketch_id);
            assert(forall|b: int| 0 <= b < self.n_hashes && b != band ==> self.hashers@[b] == tables[b]);
            band = band + 1;
        }
        proof {
            assert forall|band: int, chunk: Seq<u32>, j: int|
                0 <= band < self.n_hashes && 0 <= j < table_ids(
                    self.hashers@[band]@,
                    chunk,
                ).len() implies self.sketches@.contains_key(
                #[trigger] table_ids(self.hashers@[band]@, chunk)[j],
            ) by {
                let before = table_ids(old(self).hashers@[band]@, chunk);
                if j < before.len() {
                    assert(old(self).sketches@.contains_key(before[j]));
                }
            }
            assert(self.stored() =~= old(self).stored().insert(sketch_id, sketch@));
            assert forall|band: int, chunk: Seq<u32>|
                0 <= band < old(self).spec_n_hashes() implies #[trigger] self.bucket(band, chunk)
                == if chunk == band_of(sketch@, band, old(self).spec_n_values()) {
                old(self).bucket(band, chunk).push(sketch_id)
            } else {
                old(self).bucket(band, chunk)
            } by {
                assert(self.bucket(band, chunk) == table_ids(self.hashers@[band]@, chunk));
            }
            assert(self.is_insertion(old(self), sketch@, sketch_id));
        }
        Ok(())
    }

    /// Whether `id` was inserted with a sketch that agrees with `sketch` in
    /// one of the first `n` bands.
    pub open spec fn meets_within(&self, sketch: Seq<u32>, id: u32, n: int) -> bool {
        exists|band: int|
            0 <= band < n && #[trigger] self.bucket(
                band,
                band_of(sketch, band, self.spec_n_values()),
            ).contains(id)
    }

    /// Whether `id` is a candidate for `sketch`: it was inserted with a
    /// sketch that agrees with `sketch` in at least one band.
    pub open spec fn is_candidate(&self, sketch: Seq<u32>, id: u32) -> bool {
        self.meets_within(sketch, id, self.spec_n_hashes() as int)
    }

    /// Whether `answer` answers the query for `sketch`: it holds the
    /// candidates, each once and in ascending order, and is `None` if there is
    /// no candidate.
    pub open spec fn answers(&self, sketch: Seq<u32>, answer: Option<Vec<u32>>) -> bool {
        match answer {
            Some(ids) => {
                &&& ids@.len() > 0
                &&& ascending_ids(ids@)
                &&& forall|id: u32| #[trigger] ids@.contains(id) <==> self.is_candidate(sketch, id)
            },
            None => forall|id: u32| !self.is_candidate(sketch, id),
        }
    }

    /// The ids whose sketches agree with `sketch` in at least one band, in
    /// ascending order and each once, or `None` if there is none. A sketch
    /// that does not hold `n_hashes * n_values` values is refused.
    pub fn query(&self, sketch: &[u32]) -> (result: Result<
        Option<Vec<u32>>,
        IncorrectlyChunkedInputSketchError,
    >)
        requires
            self.well_formed(),
        ensures
            match result {
                Ok(answer) => self.sketch_fits(sketch@) && self.answers(sketch@, answer),
                Err(error) => {
                    &&& !self.sketch_fits(sketch@)
                    &&& error.expected == self.spec_n_hashes() * self.spec_n_values()
                    &&& error.found == sketch@.len()
                },
            },
    {
        let chunked_sketch: Vec<Vec<u32>> = match self.chunk_sketch(sketch) {
            Ok(chunks) => chunks,
            Err(error) => {
                return Err(error);
            },
        };
        let mut results: Vec<u32> = Vec::new();
        let mut band: usize = 0;
        while band < self.n_hashes
            invariant
                band <= self.n_hashes,
                self.hashers@.len() == self.n_hashes,
                chunked_sketch@.len() == self.n_hashes,
                forall|b: int|
                    0 <= b < self.n_hashes ==> (#[trigger] chunked_sketch@[b])@ == band_of(
                        sketch@,
                        b,
                        self.n_values as nat,
                    ),
                ascending_ids(results@),
                forall|id: u32| #[trigger]
                    results@.contains(id) <==> self.meets_within(sketch@, id, band as int),
            decreases self.n_hashes - band,
        {
            let ghost chunk = band_of(sketch@, band as int, self.n_values as nat);
            let ghost had = results@;
            match bucket_ids(&self.hashers[band], chunked_sketch[band].as_slice()) {
                Some(ids) => {
                    assert(ids@ == self.bucket(band as int, chunk));
                    let mut j: usize = 0;
                    while j < ids.len()
                        invariant
                            j <= ids@.len(),
                            ascending_ids(results@),
                            forall|id: u32| #[trigger]
                                results@.contains(id) <==> had.contains(id) || ids@.take(
                                    j as int,
                                ).contains(id),
                        decreases ids@.len() - j,
                    {
                        let ghost seen = ids@.take(j as int);
                        let ghost held = results@;
                        insert_id(&mut results, ids[j]);
                        proof {
                            let next = ids@.take(j as int + 1);
                            assert(next =~= seen.push(ids@[j as int]));
                            assert forall|id: u32| #[trigger]
                                next.contains(id) <==> seen.contains(id) || id == ids@[j as int] by {
                                if next.contains(id) {
                                    let i = choose|i: int| 0 <= i < next.len() && next[i] == id;
                                    if i < j {
                                        assert(seen[i] == id);
                                    }
                                }
                                if seen.contains(id) {
                                    let i = choose|i: int| 0 <= i < seen.len() && seen[i] == id;
                                    assert(next[i] == id);
                                }
                                if id == ids@[j as int] {
                                    assert(next[j as int] == id);
                                }
                            }
                            assert forall|id: u32| #[trigger]
                                results@.contains(id) <==> had.contains(id) || next.contains(id) by {
                                assert(results@.contains(id) <==> held.contains(id) || id
                                    == ids@[j as int]);
                                assert(held.contains(id) <==> had.contains(id) || seen.contains(id));
                                assert(next.contains(id) <==> seen.contains(id) || id
                                    == ids@[j as int]);
                            }
                        }
                        j = j + 1;
                    }
                    assert(ids@.take(j as int) =~= ids@);
                },
                None => {
                    assert(self.bucket(band as int, chunk) =~= Seq::<u32>::empty());
                },
            }
            proof {
                assert forall|id: u32| #[trigger]
                    results@.contains(id) <==> self.meets_within(sketch@, id, band as int + 1) by {
                    let here = self.bucket(band as int, chunk);
                    assert(results@.contains(id) <==> had.contains(id) || here.contains(id));
                    if self.meets_within(sketch@, id, band as int + 1) {
                        let b = choose|b: int|
                            0 <= b < band + 1 && #[trigger] self.bucket(
                                b,
                                band_of(sketch@, b, self.spec_n_values()),
                            ).contains(id);
                        if b < band {
                            assert(self.meets_within(sketch@, id, band as int));
                        }
                    }
                    if had.contains(id) {
                        let b = choose|b: int|
                            0 <= b < band && #[trigger] self.bucket(
                                b,
                                band_of(sketch@, b, self.spec_n_values()),
                            ).contains(id);
                        assert(0 <= b < band + 1);
                    }
                }
            }
            band = band + 1;
        }
        if results.len() == 0 {
            assert forall|id: u32| !self.is_candidate(sketch@, id) by {
                if self.is_candidate(sketch@, id) {
                    assert(results@.contains(id));
                }
            }
            Ok(None)
        } else {
            Ok(Some(results))
        }
    }

    /// The answer to the query for each sketch, in the order of the
    /// sketches.
    pub fn query_bulk(&self, sketches: &[&[u32]]) -> (results: Vec<
        Result<Option<Vec<u32>>, IncorrectlyChunkedInputSketchError>,
    >)
        requires
            self.well_formed(),
        ensures
            results@.len() == sketches@.len(),
            forall|i: int|
                0 <= i < sketches@.len() ==> match #[trigger] results@[i] {
                    Ok(answer) => self.sketch_fits(sketches@[i]@) && self.answers(
                        sketches@[i]@,
                        answer,
                    ),
                    Err(error) => {
                        &&& !self.sketch_fits(sketches@[i]@)
                        &&& error.expected == self.spec_n_hashes() * self.spec_n_values()
                        &&& error.found == sketches@[i]@.len()
                    },
                },
    {
        let mut results: Vec<Result<Option<Vec<u32>>, IncorrectlyChunkedInputSketchError>> =
            Vec::new();
        let mut i: usize = 0;
        while i < sketches.len()
            invariant
                self.well_formed(),
                i <= sketches@.len(),
                results@.len() == i,
                forall|k: int|
                    0 <= k < i ==> match #[trigger] results@[k] {
                        Ok(answer) => self.sketch_fits(sketches@[k]@) && self.answers(
                            sketches@[k]@,
                            answer,
                        ),
                        Err(error) => {
                            &&& !self.sketch_fits(sketches@[k]@)
                            &&& error.expected == self.spec_n_hashes() * self.spec_n_values()
                            &&& error.found == sketches@[k]@.len()
                        },
                    },
            decreases sketches@.len() - i,
        {
            results.push(self.query(sketches[i]));
            i = i + 1;
        }
        results
    }

    /// The similarity of the sketch stored under `id` to `query`: the values
    /// in which they agree, out of the values of `query`.
    pub open spec fn similarity(&self, id: u32, query: Seq<u32>) -> Ratio {
        Ratio {
            num: agreeing(self.stored()[id], query, query.len() as int) as usize,
            den: query.len() as usize,
        }
    }

    /// Ranks the ids `results` by the similarity of their sketches to
    /// `query`, as `OnePermutationHasher::jaccard` estimates it: the most
    /// similar comes first, and of two that are as similar the larger id.
    /// Each id is ranked once.
    pub fn get_top_hits(&self, results: Option<Vec<u32>>, query: &[u32]) -> (hits: Option<
        Vec<(u32, Ratio)>,
    >)
        requires
            self.well_formed(),
            self.sketch_fits(query@),
            match results {
                Some(ids) => forall|i: int|
                    0 <= i < ids@.len() ==> self.stored().contains_key(#[trigger] ids@[i]),
                None => true,
            },
        ensures
            match (results, hits) {
                (Some(ids), Some(ranking)) => {
                    &&& ranked(ranking@)
                    &&& forall|hit: (u32, Ratio)| #[trigger]
                        ranking@.contains(hit) <==> ids@.contains(hit.0) && hit.1
                            == self.similarity(hit.0, query@)
                },
                (None, None) => true,
                _ => false,
            },
    {
        broadcast use vstd::std_specs::hash::group_hash_axioms;

        let ids: Vec<u32> = match results {
            Some(ids) => ids,
            None => {
                return None;
            },
        };
        let mut distinct: Vec<u32> = Vec::new();
        let mut i: usize = 0;
        while i < ids.len()
            invariant
                i <= ids@.len(),
                ascending_ids(distinct@),
                forall|id: u32| #[trigger] distinct@.contains(id) <==> ids@.take(i as int).contains(id),
            decreases ids@.len() - i,
        {
            let ghost seen = ids@.take(i as int);
            let ghost held = distinct@;
            insert_id(&mut distinct, ids[i]);
            proof {
                let next = ids@.take(i as int + 1);
                assert(next =~= seen.push(ids@[i as int]));
                assert forall|id: u32| #[trigger]
                    distinct@.contains(id) <==> next.contains(id) by {
                    assert(distinct@.contains(id) <==> held.contains(id) || id == ids@[i as int]);
                    assert(held.contains(id) <==> seen.contains(id));
                    if next.contains(id) {
                        let k = choose|k: int| 0 <= k < next.len() && next[k] == id;
                        if k < i {
                            assert(seen[k] == id);
                        }
                    }
                    if seen.contains(id) {
                        let k = choose|k: int| 0 <= k < seen.len() && seen[k] == id;
                        assert(next[k] == id);
                    }
                    if id == ids@[i as int] {
                        assert(next[i as int] == id);
                    }
                }
            }
            i = i + 1;
        }
        assert(ids@.take(i as int) =~= ids@);
        let mut ranking: Vec<(u32, Ratio)> = Vec::new();
        let mut k: usize = 0;
        while k < distinct.len()
            invariant
                self.well_formed(),
                self.sketch_fits(query@),
                k <= distinct@.len(),
                ascending_ids(distinct@),
                forall|id: u32| #[trigger] distinct@.contains(id) ==> self.stored().contains_key(id),
                ranked(ranking@),
                forall|hit: (u32, Ratio)| #[trigger]
                    ranking@.contains(hit) <==> distinct@.take(k as int).contains(hit.0) && hit.1
                        == self.similarity(hit.0, query@),
            decreases distinct@.len() - k,
        {
            let id: u32 = distinct[k];
            assert(distinct@.contains(id));
            let stored: &Vec<u32> = self.sketches.get(&id).unwrap();
            let ratio: Ratio = OnePermutationHasher::jaccard(stored.as_slice(), query).unwrap();
            let hit: (u32, Ratio) = (id, ratio);
            let ghost seen = distinct@.take(k as int);
            let ghost held = ranking@;
            proof {
                assert(stored@ == self.stored()[id]);
                assert(hit.1 == self.similarity(id, query@));
                assert forall|j: int| 0 <= j < held.len() implies (#[trigger] held[j]).0 != id by {
                    assert(held.contains(held[j]));
                    if held[j].0 == id {
                        let at = choose|at: int| 0 <= at < seen.len() && seen[at] == id;
                        assert(distinct@[at] < distinct@[k as int]);
                    }
                }
            }
            insert_hit(&mut ranking, hit);
            proof {
                let next = distinct@.take(k as int + 1);
                assert(next =~= seen.push(id));
                assert forall|other: (u32, Ratio)| #[trigger]
                    ranking@.contains(other) <==> next.contains(other.0) && other.1
                        == self.similarity(other.0, query@) by {
                    assert(ranking@.contains(other) <==> held.contains(other) || other == hit);
                    assert(held.contains(other) <==> seen.contains(other.0) && other.1
                        == self.similarity(other.0, query@));
                    if next.contains(other.0) {
                        let at = choose|at: int| 0 <= at < next.len() && next[at] == other.0;
                        if at < k {
                            assert(seen[at] == other.0);
                        }
                    }
                    if seen.contains(other.0) {
                        let at = choose|at: int| 0 <= at < seen.len() && seen[at] == other.0;
                        assert(next[at] == other.0);
                    }
                    if other.0 == id {
                        assert(next[k as int] == id);
                    }
                }
            }
            k = k + 1;
        }
        assert(distinct@.take(k as int) =~= distinct@);
        Some(ranking)
    }

    /// Whether `answer` answers the ranked query for `query`: it holds each
    /// candidate once, with its similarity to `query`, the most similar first
    /// and of two that are as similar the larger id, and is `None` if there is
    /// no candidate.
    pub open spec fn answers_ranked(&self, query: Seq<u32>, answer: Option<Vec<(u32, Ratio)>>) -> bool {
        match answer {
            Some(hits) => {
                &&& hits@.len() > 0
                &&& ranked(hits@)
                &&& forall|hit: (u32, Ratio)| #[trigger]
                    hits@.contains(hit) <==> self.is_candidate(query, hit.0) && hit.1
                        == self.similarity(hit.0, query)
            },
            None => forall|id: u32| !self.is_candidate(query, id),
        }
    }

    /// The candidates for `query`, as `query` finds them, ranked by the
    /// similarity of their sketches to `query`, as `get_top_hits` ranks them.
    pub fn ranked_query(&self, query: &[u32]) -> (result: Result<
        Option<Vec<(u32, Ratio)>>,
        IncorrectlyChunkedInputSketchError,
    >)
        requires
            self.well_formed(),
        ensures
            match result {
                Ok(answer) => self.sketch_fits(query@) && self.answers_ranked(query@, answer),
                Err(error) => {
                    &&& !self.sketch_fits(query@)
                    &&& error.expected == self.spec_n_hashes() * self.spec_n_values()
                    &&& error.found == query@.len()
                },
            },
    {
        let results: Option<Vec<u32>> = match self.query(query) {
            Ok(results) => results,
            Err(error) => {
                return Err(error);
            },
        };
        let ghost found = results;
        proof {
            if found is Some {
                let ids = found->0;
                assert forall|i: int| 0 <= i < ids@.len() implies self.stored().contains_key(
                    #[trigger] ids@[i],
                ) by {
                    assert(ids@.contains(ids@[i]));
                    assert(self.is_candidate(query@, ids@[i]));
                    let band = choose|band: int|
                        0 <= band < self.spec_n_hashes() && #[trigger] self.bucket(
                            band,
                            band_of(query@, band, self.spec_n_values()),
                        ).contains(ids@[i]);
                    let bucket = self.bucket(band, band_of(query@, band, self.spec_n_values()));
                    let j = choose|j: int| 0 <= j < bucket.len() && bucket[j] == ids@[i];
                    assert(self.sketches@.contains_key(bucket[j]));
                }
            }
        }
        let hits = self.get_top_hits(results, query);
        proof {
            if hits is Some {
                let ranking = hits->0;
                let ids = found->0;
                assert(ranking@.len() > 0) by {
                    let first = (ids@[0], self.similarity(ids@[0], query@));
                    assert(ids@.contains(first.0));
                    assert(ranking@.contains(first));
                }
            }
        }
        Ok(hits)
    }
}

/// A sketch that was inserted under a new id is a candidate for every
/// query that holds the same values in at least one band.
pub proof fn lemma_shared_band_meets(
    before: &Lsh,
    after: &Lsh,
    sketch: Seq<u32>,
    id: u32,
    query: Seq<u32>,
    band: int,
)
    requires
        after.is_insertion(before, sketch, id),
        0 <= band < after.spec_n_hashes(),
        band_of(query, band, after.spec_n_values()) == band_of(sketch, band, after.spec_n_values()),
    ensures
        after.is_candidate(query, id),
{
    let chunk = band_of(query, band, after.spec_n_values());
    let bucket = after.bucket(band, chunk);
    assert(bucket == before.bucket(band, chunk).push(id));
    assert(bucket[bucket.len() - 1] == id);
    assert(bucket.contains(id));
}

/// Inserting a sketch changes the candidates of no query that differs from
/// it in every band.
pub proof fn lemma_no_shared_band(
    before: &Lsh,
    after: &Lsh,
    sketch: Seq<u32>,
    id: u32,
    query: Seq<u32>,
)
    requires
        after.is_insertion(before, sketch, id),
        forall|band: int|
            0 <= band < after.spec_n_hashes() ==> #[trigger] band_of(
                query,
                band,
                after.spec_n_values(),
            ) != band_of(sketch, band, after.spec_n_values()),
    ensures
        forall|other: u32| after.is_candidate(query, other) <==> before.is_candidate(query, other),
{
    assert forall|other: u32| after.is_candidate(query, other) <==> before.is_candidate(
        query,
        other,
    ) by {
        if after.is_candidate(query, other) {
            let band = choose|band: int|
                0 <= band < after.spec_n_hashes() && #[trigger] after.bucket(
                    band,
                    band_of(query, band, after.spec_n_values()),
                ).contains(other);
            assert(band_of(query, band, after.spec_n_values()) != band_of(
                sketch,
                band,
                after.spec_n_values(),
            ));
            assert(before.bucket(band, band_of(query, band, before.spec_n_values())).contains(
                other,
            ));
        }
        if before.is_candidate(query, other) {
            let band = choose|band: int|
                0 <= band < before.spec_n_hashes() && #[trigger] before.bucket(
                    band,
                    band_of(query, band, before.spec_n_values()),
                ).contains(other);
            assert(band_of(query, band, after.spec_n_values()) != band_of(
                sketch,
                band,
                after.spec_n_values(),
            ));
            assert(after.bucket(band, band_of(query, band, after.spec_n_values())).contains(other));
        }
    }
}

} // verus!
