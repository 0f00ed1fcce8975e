//! One-permutation hashing: positions are binned by their hash, each bin
//! keeps its smallest hash, and empty bins are filled from other bins.

use crate::hash::{hash, hash_spec};
use crate::ratio::Ratio;
use rand::distributions::Bernoulli;
use rand::rngs::StdRng;
use rand::{Rng, SeedableRng};
use vstd::prelude::*;

verus! {

/// Every bin of a sketch was empty, so that nothing could fill it.
#[derive(Debug)]
pub struct EmptySketchError;

impl EmptySketchError {
    /// The message of this error.
    pub fn message(&self) -> (text: String)
        ensures
            text@ == "All bins of sketch were empty, could not densify."@,
    {
        "All bins of sketch were empty, could not densify.".to_string()
    }
}

/// Two sketches of different lengths were compared.
#[derive(Debug)]
pub struct SketchLengthMismatchError;

impl SketchLengthMismatchError {
    /// The message of this error.
    pub fn message(&self) -> (text: String)
        ensures
            text@ == "Sketches to compare must be the same length"@,
    {
        "Sketches to compare must be the same length".to_string()
    }
}

/// The seed of the search directions that `OnePermutationHasher::new` uses.
pub const OPH_SEED: u64 = 12_963_566_592_248_599_713;

/// The first `count` coin flips of the generator seeded with `seed`.
pub uninterp spec fn indicator_bits(seed: u64, count: nat) -> Seq<bool>;

/// Seeds rand's `StdRng` with `StdRng::seed_from_u64` and draws `count`
/// samples of `Bernoulli::from_ratio(1, 2)` from it through
/// `Rng::sample_iter`. The generator is deterministic, so the flips depend on
/// the seed and the count alone; nothing else is claimed of them but their
/// number.
#[verifier::external_body]
fn draw_indicators(seed: u64, count: usize) -> (bits: Vec<bool>)
    ensures
        bits@ == indicator_bits(seed, count as nat),
        bits@.len() == count,
{
    let fair = Bernoulli::from_ratio(1, 2).unwrap();
    StdRng::seed_from_u64(seed).sample_iter(fair).take(count).collect()
}

/// The distance between the hash ranges of neighbouring bins:
/// `floor((2^32 - 1) / num_bins) + 1`.
pub open spec fn bin_offset(num_bins: nat) -> nat
    recommends
        num_bins > 0,
{
    (0xFFFF_FFFF as nat) / num_bins + 1
}

/// The bin of a hash among `num_bins` bins.
pub open spec fn bin_of(h: u32, num_bins: nat) -> int
    recommends
        num_bins > 0,
{
    (h as int) % (num_bins as int)
}

/// Whether `entry` is what bin `bin` holds after the first `count` of
/// `positions` were sketched into `num_bins` bins: nothing if none of them
/// falls into the bin, and else the smallest of their hashes.
pub open spec fn is_bin_minimum(
    positions: Seq<u32>,
    count: int,
    num_bins: nat,
    bin: int,
    entry: Option<u32>,
) -> bool {
    match entry {
        None => forall|k: int|
            0 <= k < count ==> bin_of(hash_spec(#[trigger] positions[k]), num_bins) != bin,
        Some(h) => {
            &&& bin_of(h, num_bins) == bin
            &&& exists|k: int| 0 <= k < count && hash_spec(#[trigger] positions[k]) == h
            &&& forall|k: int|
                0 <= k < count && bin_of(hash_spec(#[trigger] positions[k]), num_bins) == bin
                    ==> h <= hash_spec(positions[k])
        },
    }
}

/// Whether `sketch` is the sketch of `positions` in `num_bins` bins.
pub open spec fn is_sketch_of(sketch: Seq<Option<u32>>, positions: Seq<u32>, num_bins: nat) -> bool {
    &&& sketch.len() == num_bins
    &&& forall|bin: int|
        0 <= bin < num_bins ==> is_bin_minimum(
            positions,
            positions.len() as int,
            num_bins,
            bin,
            #[trigger] sketch[bin],
        )
}

/// The bin that lies `d` steps from bin `i` on the circle of `n` bins,
/// forward or backward.
pub open spec fn neighbour(i: int, d: int, n: int, forward: bool) -> int {
    if forward {
        if i + d < n {
            i + d
        } else {
            i + d - n
        }
    } else {
        if d <= i {
            i - d
        } else {
            i - d + n
        }
    }
}

/// Whether the bin `d` steps from the empty bin `i` is the nearest filled
/// bin in the given direction.
pub open spec fn is_nearest_filled(sketch: Seq<Option<u32>>, i: int, forward: bool, d: int) -> bool {
    let n = sketch.len() as int;
    &&& 1 <= d < n
    &&& sketch[neighbour(i, d, n, forward)] is Some
    &&& forall|e: int| 1 <= e < d ==> (#[trigger] sketch[neighbour(i, e, n, forward)]) is None
}

/// The value borrowed over `d` bins: `value + d * offset`, reduced modulo
/// 2^32.
pub open spec fn shifted(value: u32, d: int, offset: nat) -> u32 {
    ((value as int + d * (offset as int)) % 0x1_0000_0000) as u32
}

/// Whether every bin of `sketch` is empty.
pub open spec fn all_empty(sketch: Seq<Option<u32>>) -> bool {
    forall|i: int| 0 <= i < sketch.len() ==> (#[trigger] sketch[i]) is None
}

/// Whether `value` fills bin `i` of `sketch`: a filled bin keeps its value,
/// and an empty bin borrows from the nearest filled bin in its direction.
pub open spec fn fills_bin(
    sketch: Seq<Option<u32>>,
    forward: bool,
    offset: nat,
    i: int,
    value: u32,
) -> bool {
    match sketch[i] {
        Some(own) => value == own,
        None => exists|d: int|
            #[trigger] is_nearest_filled(sketch, i, forward, d) && value == shifted(
                sketch[neighbour(i, d, sketch.len() as int, forward)].unwrap(),
                d,
                offset,
            ),
    }
}

/// Whether `dense` is `sketch` densified with the search directions
/// `indicators`.
pub open spec fn is_densified(
    sketch: Seq<Option<u32>>,
    indicators: Seq<bool>,
    offset: nat,
    dense: Seq<u32>,
) -> bool {
    &&& dense.len() == sketch.len()
    &&& forall|i: int|
        0 <= i < sketch.len() ==> fills_bin(sketch, indicators[i], offset, i, #[trigger] dense[i])
}

/// A bin that is not bin `i` lies between 1 and `n - 1` steps from it.
proof fn lemma_reachable(i: int, j: int, n: int, forward: bool) -> (d: int)
    requires
        0 <= i < n,
        0 <= j < n,
        i != j,
    ensures
        1 <= d < n,
        neighbour(i, d, n, forward) == j,
{
    if forward {
        if j > i {
            j - i
        } else {
            j - i + n
        }
    } else {
        if j < i {
            i - j
        } else {
            i - j + n
        }
    }
}

/// Densifies `sketch` after Shrivastava and Li (2014,
/// http://www.auai.org/uai2014/proceedings/individuals/225.pdf). A filled
/// bin keeps its value. An empty bin looks along the circle of bins, forward
/// if its indicator is `true` and backward if not, for the nearest filled bin,
/// and takes that bin's value plus `offset` times the number of bins
/// travelled, reduced modulo 2^32. A sketch without a filled bin cannot be
/// densified.
pub fn densify_with(sketch: &[Option<u32>], indicators: &[bool], offset: u64) -> (result: Result<
    Vec<u32>,
    EmptySketchError,
>)
    requires
        indicators@.len() == sketch@.len(),
    ensures
        match result {
            Ok(dense) => (sketch@.len() == 0 || !all_empty(sketch@)) && is_densified(
                sketch@,
                indicators@,
                offset as nat,
                dense@,
            ),
            Err(_) => sketch@.len() > 0 && all_empty(sketch@),
        },
{
    let n: usize = sketch.len();
    let mut dense: Vec<u32> = Vec::new();
    let mut seen_filled: Ghost<int> = Ghost(-1);
    let mut i: usize = 0;
    while i < n
        invariant
            n == sketch@.len(),
            indicators@.len() == n,
            i <= n,
            dense@.len() == i,
            i > 0 ==> 0 <= seen_filled@ < n && sketch@[seen_filled@] is Some,
            forall|j: int|
                0 <= j < i ==> fills_bin(
                    sketch@,
                    indicators@[j],
                    offset as nat,
                    j,
                    #[trigger] dense@[j],
                ),
        decreases n - i,
    {
        let forward: bool = indicators[i];
        let value: u32 = match sketch[i] {
            Some(own) => {
                proof {
                    seen_filled@ = i as int;
                }
                own
            },
            None => {
                let mut d: usize = 1;
                let mut found: Option<u32> = None;
                while d < n && found.is_none()
                    invariant
                        n == sketch@.len(),
                        i < n,
                        1 <= d <= n,
                        found is None ==> forall|e: int|
                            1 <= e < d ==> (#[trigger] sketch@[neighbour(
                                i as int,
                                e,
                                n as int,
                                forward,
                            )]) is None,
                        found is Some ==> is_nearest_filled(sketch@, i as int, forward, d as int)
                            && found == sketch@[neighbour(i as int, d as int, n as int, forward)],
                    decreases n - d + (if found is None { 1int } else { 0int }),
                {
                    let at: usize = if forward {
                        if d < n - i {
                            i + d
                        } else {
                            d - (n - i)
                        }
                    } else {
                        if d <= i {
                            i - d
                        } else {
                            n - (d - i)
                        }
                    };
                    assert(at as int == neighbour(i as int, d as int, n as int, forward));
                    match sketch[at] {
                        Some(theirs) => {
                            found = Some(theirs);
                        },
                        None => {
                            d = d + 1;
                        },
                    }
                }
                match found {
                    Some(theirs) => {
                        assert((d as int) * (offset as int) <= 0xFFFF_FFFF_FFFF_FFFF
                            * 0xFFFF_FFFF_FFFF_FFFF) by (nonlinear_arith)
                            requires
                                0 <= (d as int) <= 0xFFFF_FFFF_FFFF_FFFF,
                                0 <= (offset as int) <= 0xFFFF_FFFF_FFFF_FFFF,
                        ;
                        let sum: u128 = (theirs as u128) + (d as u128) * (offset as u128);
                        proof {
                            seen_filled@ = neighbour(i as int, d as int, n as int, forward);
                        }
                        (sum % 0x1_0000_0000u128) as u32
                    },
                    None => {
                        proof {
                            assert forall|j: int| 0 <= j < n implies (#[trigger] sketch@[j])
                                is None by {
                                if j != i {
                                    let e = lemma_reachable(i as int, j, n as int, forward);
                                    assert(sketch@[neighbour(i as int, e, n as int, forward)]
                                        is None);
                                }
                            }
                        }
                        return Err(EmptySketchError);
                    },
                }
            },
        };
        dense.push(value);
        i = i + 1;
    }
    Ok(dense)
}

/// The number of probes after which the probe sequence of a bin repeats.
pub const PROBE_PERIOD: u64 = 0x1_0000_0000;

/// The bin that the empty bin `i` probes at its attempt number `attempt`:
/// the bin of the hash of `i + attempt`, the sum reduced modulo 2^32.
pub open spec fn probe_bin(i: int, attempt: int, num_bins: nat) -> int {
    bin_of(hash_spec(((i + attempt) % 0x1_0000_0000) as u32), num_bins)
}

/// Whether attempt number `attempt` is the first at which the empty bin `i`
/// probes a filled bin.
pub open spec fn is_first_hit(sketch: Seq<Option<u32>>, i: int, attempt: int) -> bool {
    &&& 1 <= attempt <= PROBE_PERIOD
    &&& sketch[probe_bin(i, attempt, sketch.len())] is Some
    &&& forall|e: int|
        1 <= e < attempt ==> (#[trigger] sketch[probe_bin(i, e, sketch.len())]) is None
}

/// Whether bin `i` is empty and none of its probes finds a filled bin.
pub open spec fn probes_miss(sketch: Seq<Option<u32>>, i: int) -> bool {
    &&& sketch[i] is None
    &&& forall|e: int|
        1 <= e <= PROBE_PERIOD ==> (#[trigger] sketch[probe_bin(i, e, sketch.len())]) is None
}

/// Whether `value` fills bin `i` of `sketch` by probing: a filled bin keeps
/// its value, and an empty bin takes the value of the first filled bin that it
/// probes.
pub open spec fn probe_fills(sketch: Seq<Option<u32>>, i: int, value: u32) -> bool {
    match sketch[i] {
        Some(own) => value == own,
        None => exists|attempt: int|
            #[trigger] is_first_hit(sketch, i, attempt) && value == sketch[probe_bin(
                i,
                attempt,
                sketch.len(),
            )].unwrap(),
    }
}

/// The number of the first `n` places at which `a` and `b` hold the same
/// value.
pub open spec fn agreeing(a: Seq<u32>, b: Seq<u32>, n: int) -> nat
    decreases n,
{
    if n <= 0 {
        0
    } else if a[n - 1] == b[n - 1] {
        agreeing(a, b, n - 1) + 1
    } else {
        agreeing(a, b, n - 1)
    }
}

/// At most `n` of the first `n` places agree.
pub proof fn lemma_agreeing_bound(a: Seq<u32>, b: Seq<u32>, n: int)
    requires
        0 <= n,
    ensures
        agreeing(a, b, n) <= n,
    decreases n,
{
    if n > 0 {
        lemma_agreeing_bound(a, b, n - 1);
    }
}

/// A one-permutation hasher with a fixed number of bins.
pub struct OnePermutationHasher {
    num_bins: usize,
    offset: u64,
    seed: u64,
    indicators: Option<Vec<bool>>,
}

impl OnePermutationHasher {
    /// The number of bins.
    pub closed spec fn spec_num_bins(&self) -> nat {
        self.num_bins as nat
    }

    /// The seed of the search directions.
    pub closed spec fn spec_seed(&self) -> u64 {
        self.seed
    }

    /// The search directions, once they were drawn.
    pub closed spec fn spec_indicators(&self) -> Option<Seq<bool>> {
        match self.indicators {
            Some(bits) => Some(bits@),
            None => None,
        }
    }

    /// The hasher has a bin, its offset belongs to its number of bins, and
    /// search directions that were drawn are those of its seed.
    pub closed spec fn well_formed(&self) -> bool {
        &&& self.num_bins > 0
        &&& self.offset == bin_offset(self.num_bins as nat)
        &&& match self.indicators {
            Some(bits) => bits@ == indicator_bits(self.seed, self.num_bins as nat) && bits@.len()
                == self.num_bins,
            None => true,
        }
    }

    /// A hasher with `num_bins` bins whose search directions come from
    /// `OPH_SEED`.
    pub fn new(num_bins: usize) -> (hasher: Self)
        requires
            num_bins > 0,
        ensures
            hasher.well_formed(),
            hasher.spec_num_bins() == num_bins,
            hasher.spec_seed() == OPH_SEED,
            hasher.spec_indicators() is None,
    {
        Self::with_seed(num_bins, OPH_SEED)
    }

    /// A hasher with `num_bins` bins whose search directions come from `seed`.
    /// The directions are drawn when they are first asked for.
    pub fn with_seed(num_bins: usize, seed: u64) -> (hasher: Self)
        requires
            num_bins > 0,
        ensures
            hasher.well_formed(),
            hasher.spec_num_bins() == num_bins,
            hasher.spec_seed() == seed,
            hasher.spec_indicators() is None,
    {
        let offset: u64 = 0xFFFF_FFFFu64 / (num_bins as u64) + 1;
        OnePermutationHasher { num_bins, offset, seed, indicators: None }
    }

    /// The number of bins.
    pub fn num_bins(&self) -> (n: usize)
        ensures
            n == self.spec_num_bins(),
    {
        self.num_bins
    }

    /// The distance between the hash ranges of neighbouring bins.
    pub fn offset(&self) -> (offset: u64)
        requires
            self.well_formed(),
        ensures
            offset == bin_offset(self.spec_num_bins()),
    {
        self.offset
    }

    /// The search direction of each bin, `true` for forward: one fair coin
    /// flip per bin, drawn from the hasher's seed on the first call and kept.
    pub fn get_indicators(&mut self) -> (bits: &Vec<bool>)
        requires
            old(self).well_formed(),
        ensures
            final(self).well_formed(),
            final(self).spec_num_bins() == old(self).spec_num_bins(),
            final(self).spec_seed() == old(self).spec_seed(),
            final(self).spec_indicators() == Some(bits@),
            bits@ == indicator_bits(old(self).spec_seed(), old(self).spec_num_bins()),
            bits@.len() == old(self).spec_num_bins(),
    {
        if self.indicators.is_none() {
            self.indicators = Some(draw_indicators(self.seed, self.num_bins));
        }
        self.indicators.as_ref().unwrap()
    }

    /// The sketch of `positions`: bin `hash(x) mod num_bins` of each position
    /// `x` keeps the smallest hash that fell into it, and a bin that no
    /// position fell into stays empty.
    pub fn sketch(&self, positions: &[u32]) -> (sketch: Vec<Option<u32>>)
        requires
            self.well_formed(),
        ensures
            is_sketch_of(sketch@, positions@, self.spec_num_bins()),
    {
        let mut output: Vec<Option<u32>> = Vec::new();
        let mut filled: usize = 0;
        while filled < self.num_bins
            invariant
                filled <= self.num_bins,
                output@.len() == filled,
                forall|j: int| 0 <= j < filled ==> output@[j] is None,
            decreases self.num_bins - filled,
        {
            output.push(None);
            filled = filled + 1;
        }
        let mut k: usize = 0;
        while k < positions.len()
            invariant
                self.num_bins > 0,
                k <= positions@.len(),
                output@.len() == self.num_bins,
                forall|bin: int|
                    0 <= bin < self.num_bins ==> is_bin_minimum(
                        positions@,
                        k as int,
                        self.num_bins as nat,
                        bin,
                        #[trigger] output@[bin],
                    ),
            decreases positions@.len() - k,
        {
            let current_hash: u32 = hash(positions[k]);
            let bin: usize = ((current_hash as u64) % (self.num_bins as u64)) as usize;
            let smaller: bool = match output[bin] {
                Some(val) => current_hash < val,
                None => true,
            };
            let ghost before = output@;
            if smaller {
                output.set(bin, Some(current_hash));
            }
            proof {
                let n = self.num_bins as nat;
                assert(bin as int == bin_of(hash_spec(positions@[k as int]), n));
                assert forall|b: int| 0 <= b < self.num_bins implies is_bin_minimum(
                    positions@,
                    k as int + 1,
                    n,
                    b,
                    #[trigger] output@[b],
                ) by {
                    assert(is_bin_minimum(positions@, k as int, n, b, before[b]));
                    if b == bin as int && smaller {
                        assert(hash_spec(positions@[k as int]) == current_hash);
                    } else if let Some(h) = before[b] {
                        let w = choose|w: int| 0 <= w < k && hash_spec(#[trigger] positions@[w]) == h;
                        assert(0 <= w < k + 1 && hash_spec(positions@[w]) == h);
                    }
                }
            }
            k = k + 1;
        }
        output
    }

    /// Densifies `sketch` with this hasher's search directions and offset, as
    /// `densify_with` does. The directions are drawn if they were not yet.
    pub fn densify(&mut self, sketch: &[Option<u32>]) -> (result: Result<
        Vec<u32>,
        EmptySketchError,
    >)
        requires
            old(self).well_formed(),
            sketch@.len() == old(self).spec_num_bins(),
        ensures
            final(self).well_formed(),
            final(self).spec_num_bins() == old(self).spec_num_bins(),
            final(self).spec_seed() == old(self).spec_seed(),
            final(self).spec_indicators() == Some(
                indicator_bits(old(self).spec_seed(), old(self).spec_num_bins()),
            ),
            match result {
                Ok(dense) => !all_empty(sketch@) && is_densified(
                    sketch@,
                    indicator_bits(old(self).spec_seed(), old(self).spec_num_bins()),
                    bin_offset(old(self).spec_num_bins()),
                    dense@,
                ),
                Err(_) => all_empty(sketch@),
            },
    {
        let offset: u64 = self.offset;
        let indicators = self.get_indicators();
        densify_with(sketch, indicators.as_slice(), offset)
    }

    /// The densified sketch of `positions`.
    pub fn dense_sketch(&mut self, positions: &[u32]) -> (result: Result<
        Vec<u32>,
        EmptySketchError,
    >)
        requires
            old(self).well_formed(),
        ensures
            final(self).well_formed(),
            final(self).spec_num_bins() == old(self).spec_num_bins(),
            final(self).spec_seed() == old(self).spec_seed(),
            final(self).spec_indicators() == Some(
                indicator_bits(old(self).spec_seed(), old(self).spec_num_bins()),
            ),
            match result {
                Ok(dense) => exists|sketch: Seq<Option<u32>>|
                    #[trigger] is_sketch_of(sketch, positions@, old(self).spec_num_bins())
                        && !all_empty(sketch) && is_densified(
                        sketch,
                        indicator_bits(old(self).spec_seed(), old(self).spec_num_bins()),
                        bin_offset(old(self).spec_num_bins()),
                        dense@,
                    ),
                Err(_) => positions@.len() == 0,
            },
    {
        let sketch = self.sketch(positions);
        let result = self.densify(sketch.as_slice());
        proof {
            if result is Err && positions@.len() > 0 {
                let h = hash_spec(positions@[0]);
                let bin = bin_of(h, self.num_bins as nat);
                assert(sketch@[bin] is None);
            }
        }
        result
    }

    /// Densifies `sketch` after Shrivastava (2017,
    /// https://arxiv.org/pdf/1703.04664.pdf). A filled bin keeps its value. An
    /// empty bin `i` probes the bins `hash(i + 1) mod num_bins`,
    /// `hash(i + 2) mod num_bins`, and so on, and takes the value of the first
    /// filled bin that it meets, unchanged. After `PROBE_PERIOD` attempts the
    /// probes repeat, so a bin that has met no filled bin by then never will,
    /// and the sketch cannot be densified. That holds of every bin of a sketch
    /// without a filled bin.
    pub fn densify_optimal(&self, sketch: &[Option<u32>]) -> (result: Result<
        Vec<u32>,
        EmptySketchError,
    >)
        requires
            self.well_formed(),
            sketch@.len() == self.spec_num_bins(),
        ensures
            match result {
                Ok(dense) => dense@.len() == sketch@.len() && forall|i: int|
                    0 <= i < sketch@.len() ==> probe_fills(sketch@, i, #[trigger] dense@[i]),
                Err(_) => exists|i: int| 0 <= i < sketch@.len() && #[trigger] probes_miss(sketch@, i),
            },
    {
        let n: usize = sketch.len();
        let mut any_filled: bool = false;
        let mut j: usize = 0;
        while j < n && !any_filled
            invariant
                n == sketch@.len(),
                j <= n,
                !any_filled ==> forall|b: int| 0 <= b < j ==> (#[trigger] sketch@[b]) is None,
            decreases n - j + (if any_filled { 0int } else { 1int }),
        {
            if sketch[j].is_some() {
                any_filled = true;
            } else {
                j = j + 1;
            }
        }
        if !any_filled {
            assert(probes_miss(sketch@, 0));
            return Err(EmptySketchError);
        }
        let mut dense: Vec<u32> = Vec::new();
        let mut i: usize = 0;
        while i < n
            invariant
                n == sketch@.len(),
                n > 0,
                i <= n,
                dense@.len() == i,
                forall|b: int| 0 <= b < i ==> probe_fills(sketch@, b, #[trigger] dense@[b]),
            decreases n - i,
        {
            let value: u32 = match sketch[i] {
                Some(own) => own,
                None => {
                    let mut attempts: u64 = 1;
                    let mut found: Option<u32> = None;
                    while attempts <= PROBE_PERIOD && found.is_none()
                        invariant
                            n == sketch@.len(),
                            n > 0,
                            i < n,
                            1 <= attempts <= PROBE_PERIOD + 1,
                            found is None ==> forall|e: int|
                                1 <= e < attempts ==> (#[trigger] sketch@[probe_bin(
                                    i as int,
                                    e,
                                    n as nat,
                                )]) is None,
                            found is Some ==> is_first_hit(sketch@, i as int, attempts as int)
                                && found == sketch@[probe_bin(i as int, attempts as int, n as nat)],
                        decreases PROBE_PERIOD + 1 - attempts + (if found is None {
                            1int
                        } else {
                            0int
                        }),
                    {
                        let input: u128 = ((i as u128) + (attempts as u128)) % 0x1_0000_0000u128;
                        let next_bin: usize = ((hash(input as u32) as u64) % (n as u64)) as usize;
                        assert(next_bin as int == probe_bin(i as int, attempts as int, n as nat));
                        match sketch[next_bin] {
                            Some(theirs) => {
                                found = Some(theirs);
                            },
                            None => {
                                attempts = attempts + 1;
                            },
                        }
                    }
                    match found {
                        Some(theirs) => theirs,
                        None => {
                            assert(probes_miss(sketch@, i as int));
                            return Err(EmptySketchError);
                        },
                    }
                },
            };
            dense.push(value);
            i = i + 1;
        }
        Ok(dense)
    }

    /// The Jaccard estimate of two densified sketches, after Shrivastava and
    /// Li (http://proceedings.mlr.press/v32/shrivastava14.pdf): the number of
    /// bins that hold the same value in both, out of the number of bins.
    /// Sketches of different lengths cannot be compared.
    pub fn jaccard(dense_sketch_1: &[u32], dense_sketch_2: &[u32]) -> (result: Result<
        Ratio,
        SketchLengthMismatchError,
    >)
        ensures
            match result {
                Ok(ratio) => {
                    &&& dense_sketch_1@.len() == dense_sketch_2@.len()
                    &&& ratio.num == agreeing(
                        dense_sketch_1@,
                        dense_sketch_2@,
                        dense_sketch_1@.len() as int,
                    )
                    &&& ratio.den == dense_sketch_1@.len()
                },
                Err(_) => dense_sketch_1@.len() != dense_sketch_2@.len(),
            },
    {
        let total: usize = dense_sketch_1.len();
        if dense_sketch_2.len() != total {
            return Err(SketchLengthMismatchError);
        }
        let mut shared: usize = 0;
        let mut i: usize = 0;
        while i < total
            invariant
                total == dense_sketch_1@.len(),
                total == dense_sketch_2@.len(),
                i <= total,
                shared == agreeing(dense_sketch_1@, dense_sketch_2@, i as int),
                shared <= i,
            decreases total - i,
        {
            if dense_sketch_1[i] == dense_sketch_2[i] {
                shared = shared + 1;
            }
            i = i + 1;
        }
        Ok(Ratio { num: shared, den: total })
    }
}

} // verus!
