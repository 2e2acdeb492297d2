use crate::puzzle::{
    damage, damage_upto, fits_in_usize, is_min_damage, is_skip_set, lemma_agree_below,
    lemma_skip_count_is_size, lemma_skips_before_bound,
    lemma_total_upto_monotone, skips_before, total_upto, TrapsPuzzle,
};
use std::collections::HashSet;
use vstd::prelude::*;

verus! {

broadcast use vstd::std_specs::hash::group_hash_axioms;

/// The ranking key of position `j`: its damage plus its index. It differs
/// from the score `d[j] - (n - j - 1)` by the constant `n - 1`, so keys and
/// scores rank positions alike.
pub open spec fn key(d: Seq<usize>, j: int) -> int {
    d[j] + j
}

/// Sum of the keys of the skipped positions below `m`.
pub open spec fn key_sum(d: Seq<usize>, skip: Set<usize>, m: nat) -> int
    decreases m,
{
    if m == 0 {
        0
    } else {
        key_sum(d, skip, (m - 1) as nat) + if skip.contains((m - 1) as usize) {
            key(d, m - 1)
        } else {
            0
        }
    }
}

/// Sum of `key - t` over the skipped positions below `m`.
pub open spec fn excess_sum(d: Seq<usize>, skip: Set<usize>, m: nat, t: int) -> int
    decreases m,
{
    if m == 0 {
        0
    } else {
        excess_sum(d, skip, (m - 1) as nat, t) + if skip.contains((m - 1) as usize) {
            key(d, m - 1) - t
        } else {
            0
        }
    }
}

/// Sum of `key - t` over the positions below `m` whose key exceeds `t`.
pub open spec fn positive_excess(d: Seq<usize>, m: nat, t: int) -> int
    decreases m,
{
    if m == 0 {
        0
    } else {
        positive_excess(d, (m - 1) as nat, t) + if key(d, m - 1) > t {
            key(d, m - 1) - t
        } else {
            0
        }
    }
}

/// The skipped positions below `n` are exactly a top group by key: every
/// key above `t` is skipped and no key below `t` is.
pub open spec fn is_threshold_set(d: Seq<usize>, skip: Set<usize>, t: int) -> bool {
    forall|j: usize|
        j < d.len() ==> (key(d, j as int) > t ==> #[trigger] skip.contains(j)) && (skip.contains(j)
            ==> key(d, j as int) >= t)
}

/// Damage rewritten in closed form: the plain sum, less the keys of the
/// skipped positions, plus `c * (m - 1) - c * (c - 1) / 2` for `c` skips.
pub proof fn lemma_damage_closed_form(d: Seq<usize>, skip: Set<usize>, m: nat)
    requires
        m <= d.len(),
    ensures
        ({
            let c = skips_before(skip, m) as int;
            2 * damage_upto(d, skip, m) == 2 * total_upto(d, m) - 2 * key_sum(d, skip, m) + 2 * c
                * (m - 1) - c * (c - 1)
        }),
    decreases m,
{
    if m > 0 {
        let p = (m - 1) as nat;
        lemma_damage_closed_form(d, skip, p);
        let c = skips_before(skip, p) as int;
        let mi = m as int;
        if skip.contains(p as usize) {
            assert(2 * (c + 1) * (mi - 1) - (c + 1) * c == 2 * c * (mi - 2) - c * (c - 1) + 2 * (mi
                - 1)) by (nonlinear_arith);
        } else {
            assert(2 * c * (mi - 1) == 2 * c * (mi - 2) + 2 * c) by (nonlinear_arith);
        }
    }
}

pub proof fn lemma_key_sum_shift(d: Seq<usize>, skip: Set<usize>, m: nat, t: int)
    ensures
        key_sum(d, skip, m) == excess_sum(d, skip, m, t) + t * skips_before(skip, m),
    decreases m,
{
    if m > 0 {
        let p = (m - 1) as nat;
        lemma_key_sum_shift(d, skip, p, t);
        let c = skips_before(skip, p) as int;
        assert(t * (c + 1) == t * c + t) by (nonlinear_arith);
        if skip.contains(p as usize) {
            assert(skips_before(skip, m) == c + 1);
        } else {
            assert(skips_before(skip, m) == c);
        }
    } else {
        assert(t * 0 == 0) by (nonlinear_arith);
    }
}

pub proof fn lemma_excess_at_most_positive(d: Seq<usize>, skip: Set<usize>, m: nat, t: int)
    ensures
        excess_sum(d, skip, m, t) <= positive_excess(d, m, t),
    decreases m,
{
    if m > 0 {
        lemma_excess_at_most_positive(d, skip, (m - 1) as nat, t);
    }
}

pub proof fn lemma_threshold_excess(d: Seq<usize>, skip: Set<usize>, m: nat, t: int)
    requires
        m <= d.len(),
        d.len() <= usize::MAX,
        is_threshold_set(d, skip, t),
    ensures
        excess_sum(d, skip, m, t) == positive_excess(d, m, t),
    decreases m,
{
    if m > 0 {
        lemma_threshold_excess(d, skip, (m - 1) as nat, t);
        let j = (m - 1) as usize;
        assert(key(d, j as int) > t ==> skip.contains(j));
    }
}

/// Skipping a top group of `k` positions by key gives the least damage over
/// every valid choice of `k` skipped positions.
pub proof fn lemma_threshold_set_is_optimal(d: Seq<usize>, k: nat, g: Set<usize>, t: int)
    requires
        d.len() <= usize::MAX,
        is_skip_set(d.len(), k, g),
        is_threshold_set(d, g, t),
    ensures
        forall|s: Set<usize>| #[trigger] is_skip_set(d.len(), k, s) ==> damage(d, g) <= damage(d, s),
{
    let n = d.len();
    lemma_skip_count_is_size(g, n);
    lemma_damage_closed_form(d, g, n);
    lemma_key_sum_shift(d, g, n, t);
    lemma_threshold_excess(d, g, n, t);
    assert forall|s: Set<usize>| #[trigger] is_skip_set(n, k, s) implies damage(d, g) <= damage(d, s) by {
        lemma_skip_count_is_size(s, n);
        lemma_damage_closed_form(d, s, n);
        lemma_key_sum_shift(d, s, n, t);
        lemma_excess_at_most_positive(d, s, n, t);
    }
}

/// How many of the first `m` keys are at least `t`.
pub open spec fn count_at_least(keys: Seq<usize>, m: nat, t: int) -> nat
    decreases m,
{
    if m == 0 {
        0
    } else {
        count_at_least(keys, (m - 1) as nat, t) + if keys[m - 1] >= t {
            1nat
        } else {
            0nat
        }
    }
}

pub proof fn lemma_count_at_least_extremes(keys: Seq<usize>, m: nat, t: int)
    requires
        m <= keys.len(),
    ensures
        (forall|j: int| 0 <= j < m ==> keys[j] >= t) ==> count_at_least(keys, m, t) == m,
        (forall|j: int| 0 <= j < m ==> keys[j] < t) ==> count_at_least(keys, m, t) == 0,
    decreases m,
{
    if m > 0 {
        lemma_count_at_least_extremes(keys, (m - 1) as nat, t);
    }
}

/// The key of every position, and a bound strictly above all of them.
fn ranking_keys(d: &Vec<usize>) -> (res: (Vec<usize>, usize))
    requires
        d@.len() >= 1,
        fits_in_usize(d@),
    ensures
        res.0@.len() == d@.len(),
        forall|j: int| 0 <= j < d@.len() ==> res.0@[j] == key(d@, j),
        forall|j: int| 0 <= j < d@.len() ==> res.0@[j] < res.1,
{
    let n = d.len();
    let mut keys: Vec<usize> = Vec::with_capacity(n);
    let mut bound: usize = 0;
    let mut i: usize = 0;
    proof {
        lemma_total_upto_monotone(d@, 0, n as nat);
    }
    while i < n
        invariant
            n == d@.len(),
            i <= n,
            total_upto(d@, n as nat) + n <= usize::MAX,
            keys@.len() == i,
            forall|j: int| 0 <= j < i ==> keys@[j] == key(d@, j),
            forall|j: int| 0 <= j < i ==> keys@[j] < bound,
            bound <= total_upto(d@, n as nat) + n,
        decreases n - i,
    {
        proof {
            lemma_total_upto_monotone(d@, (i + 1) as nat, n as nat);
            lemma_total_upto_monotone(d@, 0, i as nat);
        }
        let kv = d[i] + i;
        keys.push(kv);
        if kv >= bound {
            bound = kv + 1;
        }
        i += 1;
    }
    (keys, bound)
}

/// How many keys are at least `t`.
fn count_keys_at_least(keys: &Vec<usize>, t: usize) -> (r: usize)
    ensures
        r == count_at_least(keys@, keys@.len(), t as int),
{
    let mut count: usize = 0;
    let mut i: usize = 0;
    while i < keys.len()
        invariant
            i <= keys@.len(),
            count == count_at_least(keys@, i as nat, t as int),
            count <= i,
        decreases keys@.len() - i,
    {
        if keys[i] >= t {
            count += 1;
        }
        i += 1;
    }
    count
}

/// A threshold `t` with fewer than or exactly `k` keys above it and at least
/// `k` keys at or above it: the key of the `k`-th best position.
fn select_threshold(keys: &Vec<usize>, bound: usize, k: usize) -> (t: usize)
    requires
        1 <= keys@.len(),
        k <= keys@.len(),
        forall|j: int| 0 <= j < keys@.len() ==> keys@[j] < bound,
    ensures
        t < bound,
        count_at_least(keys@, keys@.len(), t as int) >= k,
        count_at_least(keys@, keys@.len(), t + 1) <= k,
{
    proof {
        lemma_count_at_least_extremes(keys@, keys@.len(), 0);
        lemma_count_at_least_extremes(keys@, keys@.len(), bound as int);
    }
    let mut lo: usize = 0;
    let mut hi: usize = bound;
    assert(keys@[0] < bound);
    while hi - lo > 1
        invariant
            lo < hi <= bound,
            count_at_least(keys@, keys@.len(), lo as int) >= k,
            count_at_least(keys@, keys@.len(), hi as int) <= k,
        decreases hi - lo,
    {
        let mid = lo + (hi - lo) / 2;
        if count_keys_at_least(keys, mid) >= k {
            lo = mid;
        } else {
            hi = mid;
        }
    }
    lo
}

/// Skip all positions with a key above `t`, then the earliest positions with
/// key exactly `t` until `k` are skipped.
fn choose_skips(keys: &Vec<usize>, t: usize, k: usize) -> (skip: HashSet<usize>)
    requires
        t < usize::MAX,
        count_at_least(keys@, keys@.len(), t as int) >= k,
        count_at_least(keys@, keys@.len(), t + 1) <= k,
    ensures
        forall|j: usize| #[trigger] skip@.contains(j) ==> j < keys@.len(),
        skips_before(skip@, keys@.len() as nat) == k,
        forall|j: usize|
            j < keys@.len() ==> (keys@[j as int] > t ==> #[trigger] skip@.contains(j)) && (
            skip@.contains(j) ==> keys@[j as int] >= t),
{
    let n = keys.len();
    let ghost above = count_at_least(keys@, n as nat, t + 1);
    let need: usize = k - count_keys_at_least(keys, t + 1);
    let mut skip: HashSet<usize> = HashSet::with_capacity(k);
    let mut taken: usize = 0;
    let mut i: usize = 0;
    while i < n
        invariant
            n == keys@.len(),
            i <= n,
            need == k - above,
            above == count_at_least(keys@, n as nat, t + 1),
            count_at_least(keys@, n as nat, t as int) >= k,
            taken <= need,
            taken < need ==> taken == count_at_least(keys@, i as nat, t as int) - count_at_least(
                keys@,
                i as nat,
                t + 1,
            ),
            taken <= count_at_least(keys@, i as nat, t as int) - count_at_least(
                keys@,
                i as nat,
                t + 1,
            ),
            skips_before(skip@, i as nat) == count_at_least(keys@, i as nat, t + 1) + taken,
            forall|j: usize| #[trigger] skip@.contains(j) ==> j < i,
            forall|j: usize|
                j < i ==> (keys@[j as int] > t ==> #[trigger] skip@.contains(j)) && (skip@.contains(
                    j,
                ) ==> keys@[j as int] >= t),
        decreases n - i,
    {
        let ghost before = skip@;
        if keys[i] > t {
            skip.insert(i);
        } else if keys[i] == t && taken < need {
            skip.insert(i);
            taken += 1;
        }
        proof {
            lemma_agree_below(Seq::<usize>::empty(), before, skip@, i as nat);
        }
        i += 1;
    }
    skip
}

/// Least total damage for the puzzle, by skipping the `k` positions with the
/// highest score `base_dmgs[i] - (n - i - 1)`, earlier positions first among
/// equal scores. The score of the `k`-th best position is found by binary
/// search over counts, so the work is `O(n log(max damage + n))`.
pub fn naive_solve(puzzle: &TrapsPuzzle) -> (r: usize)
    requires
        puzzle.wf(),
    ensures
        is_min_damage(puzzle.base_dmgs@, puzzle.k as nat, r as int),
        puzzle.k == 0 ==> r == total_upto(puzzle.base_dmgs@, puzzle.base_dmgs@.len()),
        puzzle.k == puzzle.base_dmgs@.len() ==> r == 0,
{
    let ghost d = puzzle.base_dmgs@;
    let (keys, bound) = ranking_keys(&puzzle.base_dmgs);
    let t = select_threshold(&keys, bound, puzzle.k);
    let skip_inds = choose_skips(&keys, t, puzzle.k);
    proof {
        lemma_skip_count_is_size(skip_inds@, d.len());
        assert(is_skip_set(d.len(), puzzle.k as nat, skip_inds@));
        assert(is_threshold_set(d, skip_inds@, t as int));
        lemma_threshold_set_is_optimal(d, puzzle.k as nat, skip_inds@, t as int);
        lemma_skipping_last_positions(d, puzzle.k as nat);
        lemma_total_upto_monotone(d, 0, d.len());
    }
    let r = puzzle.dmg_from_skip_inds(&skip_inds);
    proof {
        lemma_min_damage_boundaries(d, puzzle.k as nat, r as int);
    }
    r
}

/// The positions `n - k .. n`.
pub open spec fn last_positions(n: nat, k: nat) -> Set<usize> {
    Set::new(|i: usize| n - k <= i < n)
}

/// Before the last `k` positions no skip has happened, and those positions
/// cost nothing.
pub proof fn lemma_last_positions_prefix(d: Seq<usize>, k: nat, m: nat)
    requires
        k <= d.len() <= usize::MAX,
        m <= d.len(),
    ensures
        skips_before(last_positions(d.len(), k), m) == if m <= d.len() - k {
            0
        } else {
            m - (d.len() - k)
        },
        damage_upto(d, last_positions(d.len(), k), m) == total_upto(
            d,
            if m <= d.len() - k {
                m
            } else {
                (d.len() - k) as nat
            },
        ),
    decreases m,
{
    if m > 0 {
        let p = (m - 1) as nat;
        lemma_last_positions_prefix(d, k, p);
        let s = last_positions(d.len(), k);
        assert(s.contains(p as usize) <==> d.len() - k <= p);
    }
}

/// Skipping the last `k` positions is a valid choice whose damage is at most
/// the plain sum, so the least damage never exceeds the plain sum.
pub proof fn lemma_skipping_last_positions(d: Seq<usize>, k: nat)
    requires
        k <= d.len() <= usize::MAX,
    ensures
        is_skip_set(d.len(), k, last_positions(d.len(), k)),
        damage(d, last_positions(d.len(), k)) <= total_upto(d, d.len()),
{
    let n = d.len();
    lemma_last_positions_prefix(d, k, n);
    lemma_skip_count_is_size(last_positions(n, k), n);
    lemma_total_upto_monotone(d, (n - k) as nat, n);
}

/// With no skips the least damage is the plain sum of the damages; with
/// every position skipped it is zero.
pub proof fn lemma_min_damage_boundaries(d: Seq<usize>, k: nat, r: int)
    requires
        d.len() <= usize::MAX,
        is_min_damage(d, k, r),
    ensures
        k == 0 ==> r == total_upto(d, d.len()),
        k == d.len() ==> r == 0,
{
    let s = choose|s: Set<usize>| #[trigger] is_skip_set(d.len(), k, s) && damage(d, s) == r;
    lemma_skip_count_is_size(s, d.len());
    lemma_damage_with_skip_count(d, s, d.len());
}

pub proof fn lemma_damage_with_skip_count(d: Seq<usize>, s: Set<usize>, m: nat)
    requires
        m <= d.len(),
    ensures
        skips_before(s, m) == 0 ==> damage_upto(d, s, m) == total_upto(d, m),
        skips_before(s, m) == m ==> damage_upto(d, s, m) == 0,
    decreases m,
{
    if m > 0 {
        let p = (m - 1) as nat;
        lemma_damage_with_skip_count(d, s, p);
        lemma_skips_before_bound(s, p);
    }
}

} // verus!
