use std::collections::HashSet;
use vstd::prelude::*;

verus! {

broadcast use vstd::std_specs::hash::group_hash_axioms;

/// A row of traps and the number of them that must be skipped.
#[derive(Debug, PartialEq)]
pub struct TrapsPuzzle {
    pub base_dmgs: Vec<usize>,
    pub k: usize,
}

/// How many of the positions `0..m` are in `skip`.
pub open spec fn skips_before(skip: Set<usize>, m: nat) -> nat
    decreases m,
{
    if m == 0 {
        0
    } else {
        skips_before(skip, (m - 1) as nat) + if skip.contains((m - 1) as usize) {
            1nat
        } else {
            0nat
        }
    }
}

/// Damage taken over positions `0..m`: a skipped position costs nothing, any
/// other costs its own damage plus the number of skips before it.
pub open spec fn damage_upto(d: Seq<usize>, skip: Set<usize>, m: nat) -> int
    decreases m,
{
    if m == 0 {
        0
    } else {
        damage_upto(d, skip, (m - 1) as nat) + if skip.contains((m - 1) as usize) {
            0
        } else {
            d[m - 1] + skips_before(skip, (m - 1) as nat)
        }
    }
}

/// Total damage taken through the whole row with the positions of `skip` skipped.
pub open spec fn damage(d: Seq<usize>, skip: Set<usize>) -> int {
    damage_upto(d, skip, d.len())
}

/// A valid choice of skipped positions: exactly `k` positions, all inside the row.
pub open spec fn is_skip_set(n: nat, k: nat, skip: Set<usize>) -> bool {
    &&& forall|i: usize| #[trigger] skip.contains(i) ==> i < n
    &&& skip.len() == k
}

/// `r` is the least damage over all valid choices of `k` skipped positions.
pub open spec fn is_min_damage(d: Seq<usize>, k: nat, r: int) -> bool {
    &&& exists|s: Set<usize>| #[trigger] is_skip_set(d.len(), k, s) && damage(d, s) == r
    &&& forall|s: Set<usize>| #[trigger] is_skip_set(d.len(), k, s) ==> r <= damage(d, s)
}

pub proof fn lemma_skips_before_bound(skip: Set<usize>, m: nat)
    ensures
        skips_before(skip, m) <= m,
    decreases m,
{
    if m > 0 {
        lemma_skips_before_bound(skip, (m - 1) as nat);
    }
}

pub proof fn lemma_damage_upto_monotone(d: Seq<usize>, skip: Set<usize>, a: nat, b: nat)
    requires
        a <= b,
    ensures
        damage_upto(d, skip, a) <= damage_upto(d, skip, b),
    decreases b,
{
    if a < b {
        lemma_damage_upto_monotone(d, skip, a, (b - 1) as nat);
    }
}

/// Sum of the damages at positions `0..m`.
pub open spec fn total_upto(d: Seq<usize>, m: nat) -> int
    decreases m,
{
    if m == 0 {
        0
    } else {
        total_upto(d, (m - 1) as nat) + d[m - 1]
    }
}

/// The plain sum of the damages, plus the length of the row, fits a `usize`.
/// The least damage never exceeds the plain sum, and a damage plus its index
/// never exceeds this bound.
pub open spec fn fits_in_usize(d: Seq<usize>) -> bool {
    total_upto(d, d.len()) + d.len() <= usize::MAX
}

/// The damage of every skip set fits a `usize`: each trap could take a bonus
/// of up to `n` on top of the plain sum.
pub open spec fn fits_with_any_skips(d: Seq<usize>) -> bool {
    total_upto(d, d.len()) + d.len() * d.len() <= usize::MAX
}

pub proof fn lemma_total_upto_monotone(d: Seq<usize>, a: nat, b: nat)
    requires
        a <= b,
    ensures
        total_upto(d, a) <= total_upto(d, b),
    decreases b,
{
    if a < b {
        lemma_total_upto_monotone(d, a, (b - 1) as nat);
    }
}

/// Each trap costs at most its damage plus the number of traps before it.
pub proof fn lemma_damage_upto_bound(d: Seq<usize>, skip: Set<usize>, m: nat)
    requires
        m <= d.len(),
    ensures
        damage_upto(d, skip, m) <= total_upto(d, m) + m * m,
    decreases m,
{
    if m > 0 {
        let p = (m - 1) as nat;
        lemma_damage_upto_bound(d, skip, p);
        lemma_skips_before_bound(skip, p);
        assert(p * p + p <= m * m) by (nonlinear_arith)
            requires
                m == p + 1,
        ;
    }
}

/// Damage and skip counts over `0..m` depend only on which positions below
/// `m` are skipped.
pub proof fn lemma_agree_below(d: Seq<usize>, s1: Set<usize>, s2: Set<usize>, m: nat)
    requires
        forall|j: usize| j < m ==> (s1.contains(j) <==> s2.contains(j)),
    ensures
        skips_before(s1, m) == skips_before(s2, m),
        damage_upto(d, s1, m) == damage_upto(d, s2, m),
    decreases m,
{
    if m > 0 {
        lemma_agree_below(d, s1, s2, (m - 1) as nat);
    }
}

/// The skip count grows by at least nothing and at most one per position.
pub proof fn lemma_skips_between(skip: Set<usize>, a: nat, b: nat)
    requires
        a <= b,
    ensures
        skips_before(skip, a) <= skips_before(skip, b),
        skips_before(skip, b) <= skips_before(skip, a) + (b - a),
    decreases b,
{
    if a < b {
        lemma_skips_between(skip, a, (b - 1) as nat);
    }
}

/// Whether the damages satisfy `fits_in_usize`, computed without overflow.
fn damages_fit(d: &Vec<usize>) -> (r: bool)
    ensures
        r == fits_in_usize(d@),
{
    let n = d.len();
    let mut total: usize = 0;
    let mut i: usize = 0;
    while i < n
        invariant
            n == d@.len(),
            i <= n,
            total == total_upto(d@, i as nat),
        decreases n - i,
    {
        match total.checked_add(d[i]) {
            None => {
                proof {
                    lemma_total_upto_monotone(d@, (i + 1) as nat, n as nat);
                }
                return false;
            },
            Some(t) => {
                total = t;
            },
        }
        i += 1;
    }
    total.checked_add(n).is_some()
}

/// For a set of positions below `n`, the skip count over `0..n` is the
/// size of the set.
pub proof fn lemma_skip_count_is_size(skip: Set<usize>, n: nat)
    requires
        n <= usize::MAX + 1,
        forall|i: usize| #[trigger] skip.contains(i) ==> i < n,
    ensures
        skip.finite(),
        skip.len() == skips_before(skip, n),
    decreases n,
{
    if n == 0 {
        assert(skip =~= Set::<usize>::empty());
    } else {
        let last = (n - 1) as usize;
        let rest = skip.remove(last);
        lemma_skip_count_is_size(rest, (n - 1) as nat);
        lemma_agree_below(Seq::<usize>::empty(), rest, skip, (n - 1) as nat);
        if skip.contains(last) {
            assert(skip =~= rest.insert(last));
        } else {
            assert(skip =~= rest);
        }
    }
}

impl TrapsPuzzle {
    /// A puzzle is well formed when it has at least one trap, no more skips
    /// than traps, and damages small enough for every total to fit a `usize`.
    pub open spec fn wf(&self) -> bool {
        &&& self.base_dmgs.len() >= 1
        &&& self.k <= self.base_dmgs.len()
        &&& fits_in_usize(self.base_dmgs@)
    }

    /// The puzzle with these damages and skip count, if it is well formed.
    pub fn new(base_dmgs: Vec<usize>, k: usize) -> (r: Option<TrapsPuzzle>)
        ensures
            match r {
                None => !(TrapsPuzzle { base_dmgs, k }).wf(),
                Some(p) => p.base_dmgs@ == base_dmgs@ && p.k == k && p.wf(),
            },
    {
        if base_dmgs.len() >= 1 && k <= base_dmgs.len() && damages_fit(&base_dmgs) {
            Some(TrapsPuzzle { base_dmgs, k })
        } else {
            None
        }
    }

    /// Whether the puzzle is well formed.
    pub fn is_valid(&self) -> (r: bool)
        ensures
            r == self.wf(),
    {
        self.base_dmgs.len() >= 1 && self.k <= self.base_dmgs.len() && damages_fit(&self.base_dmgs)
    }

    /// Total damage taken when the positions in `skip_inds` are skipped.
    pub fn dmg_from_skip_inds(&self, skip_inds: &HashSet<usize>) -> (r: usize)
        requires
            damage(self.base_dmgs@, skip_inds@) <= usize::MAX,
        ensures
            r == damage(self.base_dmgs@, skip_inds@),
    {
        let ghost d = self.base_dmgs@;
        let ghost s = skip_inds@;
        let n = self.base_dmgs.len();
        let mut total_dmg: usize = 0;
        let mut bonus_dmg: usize = 0;
        let mut i: usize = 0;
        while i < n
            invariant
                n == d.len(),
                d == self.base_dmgs@,
                s == skip_inds@,
                i <= n,
                total_dmg == damage_upto(d, s, i as nat),
                bonus_dmg == skips_before(s, i as nat),
                damage(d, s) <= usize::MAX,
            decreases n - i,
        {
            proof {
                lemma_skips_before_bound(s, i as nat);
                lemma_damage_upto_monotone(d, s, (i + 1) as nat, n as nat);
            }
            if skip_inds.contains(&i) {
                bonus_dmg += 1;
            } else {
                total_dmg += self.base_dmgs[i] + bonus_dmg;
            }
            i += 1;
        }
        total_dmg
    }
}

} // verus!
