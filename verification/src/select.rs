//! The weighted selector: draws the next wallpaper at random, exponentially
//! favoring images that have been shown less often.
//!
//! An entry shown `count` times gets the weight `WEIGHT_SCALE / 1.001^count`,
//! computed in fixed-point integer arithmetic and floored at one, so that a
//! frequently shown image keeps a small but nonzero probability. The draw is
//! inverse-CDF sampling: a uniform target below the total weight picks the
//! first entry whose cumulative weight exceeds it.

use vstd::arithmetic::div_mod::{lemma_div_is_ordered, lemma_div_multiples_vanish};
use vstd::arithmetic::mul::lemma_mul_is_commutative;
use vstd::prelude::*;

use crate::wallpapers::{models, Wallpaper, WallpaperModel};

verus! {

/// Fixed-point weight of a never-shown image.
pub const WEIGHT_SCALE: u64 = 1_000_000_000;

/// Each show divides an entry's weight by `FACTOR_DEN / FACTOR_NUM`, that is
/// by 1.001.
pub const FACTOR_NUM: u64 = 1000;

pub const FACTOR_DEN: u64 = 1001;

/// The selection weight of an entry shown `count` times:
/// `WEIGHT_SCALE / 1.001^count` in fixed point, never below one.
pub open spec fn weight(count: nat) -> nat
    decreases count,
{
    if count == 0 {
        WEIGHT_SCALE as nat
    } else {
        let p = weight((count - 1) as nat);
        if p <= 1 {
            1
        } else {
            (p * (FACTOR_NUM as nat)) / (FACTOR_DEN as nat)
        }
    }
}

/// Every weight lies between one and the scale.
pub proof fn lemma_weight_bounds(count: nat)
    ensures
        1 <= weight(count) <= WEIGHT_SCALE,
    decreases count,
{
    if count > 0 {
        lemma_weight_bounds((count - 1) as nat);
        let p = weight((count - 1) as nat);
        if p > 1 {
            assert((p * (FACTOR_NUM as nat)) / (FACTOR_DEN as nat) >= 1) by {
                lemma_div_is_ordered(2000, p as int * 1000, 1001);
            }
            assert((p * (FACTOR_NUM as nat)) / (FACTOR_DEN as nat) <= p) by {
                lemma_div_is_ordered(p as int * 1000, p as int * 1001, 1001);
                lemma_mul_is_commutative(p as int, 1001);
                lemma_div_multiples_vanish(p as int, 1001);
            }
        }
    }
}

/// Once a weight has decayed to one it stays at one.
pub proof fn lemma_weight_one_stable(j: nat, k: nat)
    requires
        weight(j) == 1,
        j <= k,
    ensures
        weight(k) == 1,
    decreases k,
{
    if j < k {
        lemma_weight_one_stable(j, (k - 1) as nat);
    }
}

/// The summed weight of the first `k` entries.
pub open spec fn weight_sum_prefix(s: Seq<WallpaperModel>, k: int) -> nat
    decreases k,
{
    if k <= 0 {
        0
    } else {
        weight_sum_prefix(s, k - 1) + weight(s[k - 1].count)
    }
}

/// The summed weight of the whole collection.
pub open spec fn total_weight(s: Seq<WallpaperModel>) -> nat {
    weight_sum_prefix(s, s.len() as int)
}

/// Prefix sums of weights are monotone, and grow by at least one per entry.
pub proof fn lemma_weight_sum_range(s: Seq<WallpaperModel>, j: int, k: int)
    requires
        0 <= j <= k,
    ensures
        weight_sum_prefix(s, j) + (k - j) <= weight_sum_prefix(s, k),
        weight_sum_prefix(s, k) <= weight_sum_prefix(s, j) + (k - j) * WEIGHT_SCALE,
    decreases k,
{
    if j < k {
        lemma_weight_sum_range(s, j, k - 1);
        lemma_weight_bounds(s[k - 1].count);
    }
}

/// Computes `weight(count)` by repeated fixed-point division, stopping early
/// once the weight has bottomed out at one.
fn compute_weight(count: usize) -> (w: u64)
    ensures
        w == weight(count as nat),
{
    let mut w: u64 = WEIGHT_SCALE;
    let mut i: usize = 0;
    while i < count && w > 1
        invariant
            0 <= i <= count,
            w == weight(i as nat),
            1 <= w <= WEIGHT_SCALE,
        decreases count - i,
    {
        proof {
            lemma_weight_bounds((i + 1) as nat);
        }
        w = w * FACTOR_NUM / FACTOR_DEN;
        if w == 0 {
            w = 1;
        }
        i = i + 1;
    }
    proof {
        if i < count {
            lemma_weight_one_stable(i as nat, count as nat);
        }
    }
    w
}

/// Sums the weights of all entries.
pub fn compute_total_weight(wallpapers: &Vec<Wallpaper>) -> (t: u128)
    ensures
        t == total_weight(models(wallpapers@)),
        t >= wallpapers@.len(),
{
    let ghost ms = models(wallpapers@);
    let n = wallpapers.len();
    let mut t: u128 = 0;
    let mut i: usize = 0;
    while i < n
        invariant
            0 <= i <= n,
            n == wallpapers@.len(),
            ms == models(wallpapers@),
            t == weight_sum_prefix(ms, i as int),
        decreases n - i,
    {
        let w = compute_weight(wallpapers[i].count);
        proof {
            lemma_weight_bounds(ms[i as int].count);
            assert(ms[i as int].count == wallpapers@[i as int].count as nat);
            lemma_weight_sum_range(ms, 0, i as int);
            assert(weight_sum_prefix(ms, i as int) <= i * (WEIGHT_SCALE as int));
            assert(i * (WEIGHT_SCALE as int) <= 0xffff_ffff_ffff_ffff * (WEIGHT_SCALE as int));
        }
        t = t + w as u128;
        i = i + 1;
    }
    proof {
        lemma_weight_sum_range(ms, 0, n as int);
    }
    t
}

/// The entry that a target value below the total weight selects: the first
/// index whose cumulative weight exceeds the target.
pub open spec fn selected_index(s: Seq<WallpaperModel>, target: u128, i: int) -> bool {
    &&& 0 <= i < s.len()
    &&& weight_sum_prefix(s, i) <= target
    &&& target < weight_sum_prefix(s, i + 1)
}

/// Walks the cumulative weights and returns the entry that `target` selects.
pub fn index_for_target(wallpapers: &Vec<Wallpaper>, target: u128) -> (i: usize)
    requires
        wallpapers@.len() > 0,
        target < total_weight(models(wallpapers@)),
    ensures
        selected_index(models(wallpapers@), target, i as int),
{
    let ghost ms = models(wallpapers@);
    let n = wallpapers.len();
    let mut cum: u128 = 0;
    let mut i: usize = 0;
    loop
        invariant
            0 <= i <= n,
            n == wallpapers@.len(),
            ms == models(wallpapers@),
            target < total_weight(ms),
            cum == weight_sum_prefix(ms, i as int),
            cum <= target,
        decreases n - i,
    {
        proof {
            lemma_weight_sum_range(ms, i as int, n as int);
            assert(i < n);
            lemma_weight_sum_range(ms, 0, i as int);
            lemma_weight_bounds(ms[i as int].count);
        }
        let w = compute_weight(wallpapers[i].count);
        proof {
            assert(ms[i as int].count == wallpapers@[i as int].count as nat);
        }
        if target < cum + w as u128 {
            return i;
        }
        cum = cum + w as u128;
        i = i + 1;
    }
}

/// The random generator the selector draws from.
#[verifier::external_type_specification]
#[verifier::external_body]
pub struct ExHc128Rng(rand_hc::Hc128Rng);

/// Relies on rand::SeedableRng::from_entropy: a fresh generator seeded from
/// the operating system's entropy source. Nothing is assumed about what it
/// will produce.
#[verifier::external_body]
fn fresh_rng() -> rand_hc::Hc128Rng {
    <rand_hc::Hc128Rng as rand::SeedableRng>::from_entropy()
}

/// Relies on rand::Rng::gen_range over the half-open range below `bound`:
/// the draw lies in that range. Nothing is assumed about its distribution.
#[verifier::external_body]
fn rand_below(rng: &mut rand_hc::Hc128Rng, bound: u128) -> (r: u128)
    requires
        bound > 0,
    ensures
        r < bound,
{
    rand::Rng::gen_range(rng, 0..bound)
}

/// Draws a random entry of a non-empty collection, each entry weighted by
/// `weight` of its show count. The collection is not changed; only membership
/// of the index is promised, since the draw is random.
pub fn pick_index(wallpapers: &Vec<Wallpaper>, rng: &mut rand_hc::Hc128Rng) -> (i: usize)
    requires
        wallpapers@.len() > 0,
    ensures
        i < wallpapers@.len(),
{
    let total = compute_total_weight(wallpapers);
    let target = rand_below(rng, total);
    index_for_target(wallpapers, target)
}

/// Selection on an empty collection fails: there is nothing to select.
#[derive(Debug, PartialEq)]
pub enum SelectError {
    EmptyCatalog,
}

/// Draws the next wallpaper: picks a random entry, weighted by show count,
/// increments that entry's count by exactly one, leaves every other entry
/// unchanged, and returns the chosen identifier. An empty collection is the
/// one defined error, and leaves the collection untouched.
pub fn pick_random_wallpaper(wallpapers: &mut Vec<Wallpaper>) -> (r: Result<String, SelectError>)
    requires
        forall|j: int| 0 <= j < old(wallpapers)@.len() ==> old(wallpapers)@[j].count < usize::MAX,
    ensures
        old(wallpapers)@.len() == 0 ==> r == Result::<String, SelectError>::Err(
            SelectError::EmptyCatalog,
        ) && final(wallpapers)@ == old(wallpapers)@,
        old(wallpapers)@.len() > 0 ==> (r matches Ok(name) && exists|i: int|
            {
                &&& 0 <= i < old(wallpapers)@.len()
                &&& name@ == models(old(wallpapers)@)[i].name
                &&& models(final(wallpapers)@) == models(old(wallpapers)@).update(
                    i,
                    WallpaperModel {
                        name: models(old(wallpapers)@)[i].name,
                        count: models(old(wallpapers)@)[i].count + 1,
                    },
                )
            }),
{
    let ghost before = models(old(wallpapers)@);
    if wallpapers.len() == 0 {
        return Err(SelectError::EmptyCatalog);
    }
    let mut rng = fresh_rng();
    let i = pick_index(wallpapers, &mut rng);
    let ghost pre = wallpapers@;
    let c = wallpapers[i].count;
    wallpapers[i].count = c + 1;
    let name = wallpapers[i].file_name.clone();
    proof {
        assert(pre == old(wallpapers)@);
        assert forall|j: int| 0 <= j < pre.len() && j != i implies models(wallpapers@)[j] == before[j] by {
            assert(wallpapers@[j] == pre[j]);
        }
        assert(wallpapers@[i as int].file_name == pre[i as int].file_name);
        assert(wallpapers@[i as int].count == pre[i as int].count + 1);
        assert(models(wallpapers@) =~= before.update(
            i as int,
            WallpaperModel { name: before[i as int].name, count: before[i as int].count + 1 },
        ));
        assert(name@ == before[i as int].name);
    }
    Ok(name)
}

} // verus!
