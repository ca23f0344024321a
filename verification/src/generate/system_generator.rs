use rand::rngs::StdRng;
use rand::seq::SliceRandom;
use rand::Rng;
use rand::SeedableRng;
use vstd::prelude::*;

use crate::game_elements::color::{lemma_color_view_injective, lemma_empty_color_id, Color};
use crate::game_elements::glass::{contents, Glass, GlassError};
use crate::game_elements::glass_system::{count_units, glass_units, lemma_count_units_prefix, system_units, GlassSystem};
use crate::game_elements::GLASS_CAPACITY;

verus! {

broadcast use lemma_color_view_injective, lemma_empty_color_id;

/// Errors of the generator.
#[derive(Debug, PartialEq, Eq, Structural, Clone, Copy)]
pub enum SystemGeneratorError {
    /// Derived from the GlassError if an issue happens on that level.
    GlassError(GlassError),
}

/// Result of the generator.
pub type SystemGeneratorResult<T> = Result<T, SystemGeneratorError>;

/// Shuffles the colors with a `StdRng` seeded from `seed` (`SeedableRng::seed_from_u64`
/// and `SliceRandom::shuffle`). The shuffle gives back a permutation of its input; which
/// one depends on the seed and, as `StdRng` is not portable, on the platform and the
/// version of `rand`, so nothing is said of it but that it is a permutation.
#[verifier::external_body]
fn shuffle_seeded(pool: Vec<Color>, seed: u64) -> (r: Vec<Color>)
    ensures
        r@.to_multiset() == pool@.to_multiset(),
{
    let mut pool = pool;
    let mut rng = StdRng::seed_from_u64(seed);
    pool.shuffle(&mut rng);
    pool
}

/// A random seed from the thread-local generator (`rand::rng().random()`).
#[verifier::external_body]
fn random_seed() -> u64 {
    rand::rng().random()
}

/// The ordered pool of units: `glass_size` units of each color id `1..=no_colors`
/// (ids taken modulo 256, as they are stored in a byte).
pub open spec fn color_pool(no_colors: nat, glass_size: nat) -> Seq<u8> {
    Seq::new(no_colors * glass_size, |i: int| ((i / glass_size as int + 1) % 256) as u8)
}

/// `sys` holds, glass by glass, the consecutive runs of `GLASS_CAPACITY` units of `pool`
/// (each glass full), followed by two empty glasses.
pub open spec fn laid_out(pool: Seq<Color>, no_colors: nat, sys: Seq<Glass>) -> bool {
    &&& sys.len() == no_colors + 2
    &&& forall|g: int| 0 <= g < no_colors ==> {
        &&& (#[trigger] sys[g]).top == GLASS_CAPACITY
        &&& sys[g].glass@[0]@ == 0
        &&& contents(sys[g]) == pool.subrange(g * 4, g * 4 + 4)
    }
    &&& forall|g: int| no_colors <= g < no_colors + 2 ==> {
        &&& (#[trigger] sys[g]).top == 0
        &&& forall|i: int| 0 <= i < 5 ==> (#[trigger] sys[g].glass@[i])@ == 0
    }
}

/// What generating gives: an error exactly when there are colors and the glass size is not
/// `GLASS_CAPACITY` (the only size a `Glass` has), else the glasses of some shuffle of the
/// color pool.
pub open spec fn generated(no_colors: usize, glass_size: usize, r: SystemGeneratorResult<GlassSystem>) -> bool {
    &&& (no_colors > 0 && glass_size != GLASS_CAPACITY <==> r == Err::<GlassSystem, SystemGeneratorError>(
        SystemGeneratorError::GlassError(GlassError::InvalidConstructorColorLength(glass_size)),
    ))
    &&& (no_colors == 0 || glass_size == GLASS_CAPACITY ==> r is Ok)
    &&& r matches Ok(sys) ==> exists|shuffled: Seq<Color>| {
        &&& shuffled.map_values(|c: Color| c@).to_multiset() == color_pool(no_colors as nat, glass_size as nat).to_multiset()
        &&& laid_out(shuffled, no_colors as nat, sys@)
    }
}

/// Lays the units of the pool out into glasses: glass `g` gets the units
/// `g * glass_size .. (g + 1) * glass_size`; then two empty glasses follow.
pub fn system_from_color_pool(pool: &[Color], no_colors: usize, glass_size: usize) -> (r: SystemGeneratorResult<GlassSystem>)
    requires
        pool@.len() == no_colors * glass_size,
    ensures
        no_colors > 0 && glass_size != GLASS_CAPACITY <==> r == Err::<GlassSystem, SystemGeneratorError>(
            SystemGeneratorError::GlassError(GlassError::InvalidConstructorColorLength(glass_size)),
        ),
        no_colors == 0 || glass_size == GLASS_CAPACITY ==> r is Ok,
        r matches Ok(sys) ==> laid_out(pool@, no_colors as nat, sys@),
{
    let total = pool.len();
    let mut glasses: Vec<Glass> = Vec::new();
    let mut glass_idx: usize = 0;
    while glass_idx < no_colors
        invariant
            pool@.len() == no_colors * glass_size,
            total == pool@.len(),
            glass_idx <= no_colors,
            glass_idx > 0 ==> glass_size == GLASS_CAPACITY,
            glasses@.len() == glass_idx,
            forall|g: int| 0 <= g < glass_idx ==> {
                &&& (#[trigger] glasses@[g]).top == GLASS_CAPACITY
                &&& glasses@[g].glass@[0]@ == 0
                &&& contents(glasses@[g]) == pool@.subrange(g * 4, g * 4 + 4)
            },
        decreases no_colors - glass_idx,
    {
        proof {
            assert(glass_idx * glass_size + glass_size <= no_colors * glass_size) by (nonlinear_arith)
                requires glass_idx < no_colors;
        }
        let start_idx = glass_idx * glass_size;
        let end_idx = start_idx + glass_size;
        let mut glass_colors: Vec<Color> = Vec::new();
        let mut t = start_idx;
        while t < end_idx
            invariant
                start_idx <= t <= end_idx <= pool@.len(),
                glass_colors@ == pool@.subrange(start_idx as int, t as int),
            decreases end_idx - t,
        {
            glass_colors.push(pool[t]);
            t = t + 1;
            assert(glass_colors@ =~= pool@.subrange(start_idx as int, t as int));
        }
        let glass = match Glass::from_colors(glass_colors.as_slice()) {
            Ok(g) => g,
            Err(e) => {
                return Err(SystemGeneratorError::GlassError(e));
            },
        };
        glasses.push(glass);
        glass_idx = glass_idx + 1;
    }
    let no_empty_glasses: usize = 2;
    let mut e: usize = 0;
    while e < no_empty_glasses
        invariant
            no_empty_glasses == 2,
            e <= 2,
            glasses@.len() == no_colors + e,
            forall|g: int| 0 <= g < no_colors ==> {
                &&& (#[trigger] glasses@[g]).top == GLASS_CAPACITY
                &&& glasses@[g].glass@[0]@ == 0
                &&& contents(glasses@[g]) == pool@.subrange(g * 4, g * 4 + 4)
            },
            forall|g: int| no_colors <= g < no_colors + e ==> {
                &&& (#[trigger] glasses@[g]).top == 0
                &&& forall|i: int| 0 <= i < 5 ==> (#[trigger] glasses@[g].glass@[i])@ == 0
            },
        decreases 2 - e,
    {
        glasses.push(Glass::new());
        e = e + 1;
    }
    Ok(GlassSystem::new(glasses))
}

/// The ordered pool: `glass_size` units of each color id `1..=no_colors`.
fn ordered_pool(no_colors: usize, glass_size: usize) -> (pool: Vec<Color>)
    requires
        no_colors * glass_size <= usize::MAX,
    ensures
        pool@.len() == no_colors * glass_size,
        forall|i: int| 0 <= i < pool@.len() ==> (#[trigger] pool@[i])@ == color_pool(no_colors as nat, glass_size as nat)[i],
{
    let mut color_pool_vec: Vec<Color> = Vec::new();
    let mut c: usize = 0;
    while c < no_colors
        invariant
            c <= no_colors,
            no_colors * glass_size <= usize::MAX,
            color_pool_vec@.len() == c * glass_size,
            forall|i: int| 0 <= i < color_pool_vec@.len() ==> (#[trigger] color_pool_vec@[i])@ == color_pool(no_colors as nat, glass_size as nat)[i],
        decreases no_colors - c,
    {
        let id: u8 = ((c % 256 + 1) % 256) as u8;
        let mut k: usize = 0;
        while k < glass_size
            invariant
                c < no_colors,
                id == (c + 1) % 256,
                no_colors * glass_size <= usize::MAX,
                k <= glass_size,
                color_pool_vec@.len() == c * glass_size + k,
                forall|i: int| 0 <= i < color_pool_vec@.len() ==> (#[trigger] color_pool_vec@[i])@ == color_pool(no_colors as nat, glass_size as nat)[i],
            decreases glass_size - k,
        {
            proof {
                assert(c * glass_size + k < no_colors * glass_size) by (nonlinear_arith)
                    requires c < no_colors, k < glass_size;
            }
            let ghost i = color_pool_vec@.len() as int;
            color_pool_vec.push(Color::new(id));
            proof {
                assert(i / glass_size as int == c) by (nonlinear_arith)
                    requires i == c * glass_size + k, k < glass_size;
            }
            k = k + 1;
        }
        proof {
            assert(c * glass_size + glass_size == (c + 1) * glass_size) by (nonlinear_arith);
        }
        c = c + 1;
    }
    color_pool_vec
}

/// Generate a random system with a seed for deterministic generation.
/// Current rules:
/// - Two glasses are always completely empty
/// - All other glasses are always full
/// - Number of glasses = number of colors + 2
pub fn generate_random_system_with_seed(no_colors: usize, seed: u64, glass_size: usize) -> (r: SystemGeneratorResult<GlassSystem>)
    requires
        no_colors * glass_size <= usize::MAX,
    ensures
        generated(no_colors, glass_size, r),
        no_colors < 256 ==> (r matches Ok(sys) ==> forall|x: u8| #[trigger] system_units(sys@, sys@.len() as int, x)
            == if 1 <= x <= no_colors { glass_size as nat } else { 0nat }),
{
    let pool = ordered_pool(no_colors, glass_size);
    let ghost ordered = pool@;
    let shuffled = shuffle_seeded(pool, seed);
    proof {
        broadcast use vstd::seq_lib::group_to_multiset_ensures;
        assert(shuffled@.len() == shuffled@.to_multiset().len());
        assert(ordered.len() == ordered.to_multiset().len());
    }
    let r = system_from_color_pool(shuffled.as_slice(), no_colors, glass_size);
    proof {
        lemma_ids_multiset(ordered, shuffled@);
        assert(ordered.map_values(|c: Color| c@) =~= color_pool(no_colors as nat, glass_size as nat));
        assert(generated(no_colors, glass_size, r));
        if r is Ok && no_colors < 256 {
            assert forall|x: u8| #[trigger] system_units(r->Ok_0@, r->Ok_0@.len() as int, x)
                == if 1 <= x <= no_colors { glass_size as nat } else { 0nat } by {
                lemma_generated_units(no_colors, glass_size, r, x);
            }
        }
    }
    r
}

/// Convenience function that uses a random seed.
pub fn generate_random_system(no_colors: usize, glass_size: usize) -> (r: SystemGeneratorResult<GlassSystem>)
    requires
        no_colors * glass_size <= usize::MAX,
    ensures
        generated(no_colors, glass_size, r),
        no_colors < 256 ==> (r matches Ok(sys) ==> forall|x: u8| #[trigger] system_units(sys@, sys@.len() as int, x)
            == if 1 <= x <= no_colors { glass_size as nat } else { 0nat }),
{
    let seed = random_seed();
    generate_random_system_with_seed(no_colors, seed, glass_size)
}

/// The first `m` units of the ordered pool of glasses of `GLASS_CAPACITY` units.
spec fn pool_prefix(m: nat) -> Seq<u8> {
    Seq::new(m, |i: int| ((i / 4 + 1) % 256) as u8)
}

/// How often the id `x` occurs among the first `m` units of that pool: the units
/// `4 * (x - 1) .. 4 * x` carry it.
spec fn pool_count(m: int, x: u8) -> int {
    if x == 0 {
        0
    } else if m <= 4 * (x - 1) {
        0
    } else if m >= 4 * x {
        4
    } else {
        m - 4 * (x - 1)
    }
}

proof fn lemma_pool_count(m: nat, x: u8)
    requires
        m <= 1020,
    ensures
        pool_prefix(m).to_multiset().count(x) == pool_count(m as int, x),
    decreases m,
{
    broadcast use vstd::seq_lib::group_to_multiset_ensures, vstd::multiset::group_multiset_axioms;

    if m == 0 {
        assert(!pool_prefix(m).contains(x));
    } else {
        let k = (m - 1) as nat;
        lemma_pool_count(k, x);
        let v = ((k / 4 + 1) % 256) as u8;
        assert(pool_prefix(m) =~= pool_prefix(k).push(v));
        assert(k / 4 + 1 <= 255);
        assert(v == k / 4 + 1);
        assert(4 * (k / 4) <= k < 4 * (k / 4) + 4);
    }
}

/// The id counts of a sequence of colors are those of its multiset of ids.
proof fn lemma_units_multiset(s: Seq<Color>, x: u8)
    ensures
        s.map_values(|c: Color| c@).to_multiset().count(x) == count_units(s, s.len() as int, x),
    decreases s.len(),
{
    broadcast use vstd::seq_lib::group_to_multiset_ensures, vstd::multiset::group_multiset_axioms;

    let f = |c: Color| c@;
    if s.len() == 0 {
        assert(!s.map_values(f).contains(x));
    } else {
        let t = s.drop_last();
        lemma_units_multiset(t, x);
        assert(s.map_values(f) =~= t.map_values(f).push(s.last()@));
        lemma_count_units_prefix(s, t, t.len() as int, x);
    }
}

proof fn lemma_count_units_split(s: Seq<Color>, a: int, k: int, x: u8)
    requires
        0 <= a,
        0 <= k,
        a + k <= s.len(),
    ensures
        count_units(s, a + k, x) == count_units(s, a, x) + count_units(s.subrange(a, a + k), k, x),
    decreases k,
{
    if k > 0 {
        lemma_count_units_split(s, a, k - 1, x);
        lemma_count_units_prefix(s.subrange(a, a + k), s.subrange(a, a + k - 1), k - 1, x);
    }
}

/// The first `g` full glasses of a laid out pool hold its first `4 * g` units.
proof fn lemma_laid_out_units(pool: Seq<Color>, n: nat, sys: Seq<Glass>, g: int, x: u8)
    requires
        laid_out(pool, n, sys),
        pool.len() == 4 * n,
        0 <= g <= n,
    ensures
        system_units(sys, g, x) == count_units(pool, 4 * g, x),
    decreases g,
{
    if g > 0 {
        lemma_laid_out_units(pool, n, sys, g - 1, x);
        assert(sys[g - 1].top == 4);
        lemma_count_units_split(pool, (g - 1) * 4, 4, x);
        assert(glass_units(sys[g - 1], x) == count_units(pool.subrange((g - 1) * 4, (g - 1) * 4 + 4), 4, x));
    }
}

/// A generated system holds, of each color id `1..=no_colors`, exactly `glass_size` units,
/// and no unit of any other id.
pub proof fn lemma_generated_units(no_colors: usize, glass_size: usize, r: SystemGeneratorResult<GlassSystem>, x: u8)
    requires
        generated(no_colors, glass_size, r),
        r is Ok,
        no_colors < 256,
    ensures
        r matches Ok(sys) && system_units(sys@, sys@.len() as int, x) == if 1 <= x <= no_colors {
            glass_size as nat
        } else {
            0nat
        },
{
    broadcast use vstd::seq_lib::group_to_multiset_ensures;

    if let Ok(sys) = r {
        let n = no_colors as nat;
        let shuffled = choose|shuffled: Seq<Color>| {
            &&& shuffled.map_values(|c: Color| c@).to_multiset() == color_pool(n, glass_size as nat).to_multiset()
            &&& laid_out(shuffled, n, sys@)
        };
        let ids = shuffled.map_values(|c: Color| c@);
        assert(ids.len() == ids.to_multiset().len());
        let pool = color_pool(n, glass_size as nat);
        assert(pool.len() == pool.to_multiset().len());
        assert(ids.to_multiset() == pool.to_multiset());
        assert(ids.len() == pool.len());
        assert(pool.len() == 4 * n) by {
            if n > 0 {
                assert(glass_size == 4);
            }
            assert(pool.len() == n * glass_size);
            assert(n * glass_size == 4 * n) by (nonlinear_arith)
                requires n == 0 || glass_size == 4;
        }
        lemma_laid_out_units(shuffled, n, sys@, n as int, x);
        assert(sys@[n as int].top == 0);
        assert(sys@[n + 1int].top == 0);
        assert(glass_units(sys@[n as int], x) == 0);
        assert(glass_units(sys@[n + 1int], x) == 0);
        assert(system_units(sys@, n + 1int, x) == system_units(sys@, n as int, x));
        assert(system_units(sys@, n + 2int, x) == system_units(sys@, n + 1int, x));
        if n > 0 {
            assert(glass_size == 4);
            lemma_units_multiset(shuffled, x);
            assert(pool =~= pool_prefix(4 * n));
            lemma_pool_count(4 * n, x);
        }
    }
}

/// Sequences with the same colors have the same ids.
proof fn lemma_ids_multiset(a: Seq<Color>, b: Seq<Color>)
    requires
        a.to_multiset() == b.to_multiset(),
    ensures
        a.map_values(|c: Color| c@).to_multiset() == b.map_values(|c: Color| c@).to_multiset(),
    decreases a.len(),
{
    broadcast use vstd::seq_lib::group_to_multiset_ensures, vstd::multiset::group_multiset_axioms;

    if a.len() > 0 {
        let x = a.last();
        assert(a.to_multiset().count(x) > 0) by {
            assert(a.contains(x));
        }
        assert(b.contains(x));
        let j = choose|j: int| 0 <= j < b.len() && b[j] == x;
        let a1 = a.drop_last();
        let b1 = b.remove(j);
        assert(a1.to_multiset() =~= a.to_multiset().remove(x)) by {
            assert(a =~= a1.push(x));
        }
        assert(b1.to_multiset() =~= b.to_multiset().remove(x));
        lemma_ids_multiset(a1, b1);
        let f = |c: Color| c@;
        assert(a.map_values(f) =~= a1.map_values(f).push(x@));
        assert(b1.map_values(f) =~= b.map_values(f).remove(j));
        assert(b.map_values(f)[j] == x@);
        assert(b.map_values(f).remove(j).to_multiset() =~= b.map_values(f).to_multiset().remove(x@));
        assert(b.map_values(f).to_multiset().count(x@) > 0) by {
            assert(b.map_values(f).contains(x@));
        }
        assert(b.map_values(f).to_multiset() =~= b1.map_values(f).to_multiset().insert(x@));
    } else {
        assert(b.len() == 0) by {
            assert(a.to_multiset().len() == 0);
        }
        assert(a.map_values(|c: Color| c@) =~= b.map_values(|c: Color| c@));
    }
}

} // verus!
