use crate::puzzle::{
    damage, fits_with_any_skips, is_min_damage, is_skip_set, lemma_agree_below, lemma_damage_upto_bound,
    lemma_skip_count_is_size, lemma_skips_between, skips_before, total_upto, TrapsPuzzle,
};
use crate::solver::lemma_min_damage_boundaries;
use std::collections::HashSet;
use vstd::prelude::*;

verus! {

broadcast use vstd::std_specs::hash::group_hash_axioms;

/// `a` and `b` skip the same positions below `m`.
pub open spec fn agrees_below(a: Set<usize>, b: Set<usize>, m: nat) -> bool {
    forall|j: usize| j < m ==> (a.contains(j) <==> b.contains(j))
}

/// Least damage over every valid skip set that keeps the choices of `skip`
/// for positions below `i` and skips `left` more positions from `i` on.
fn search(puzzle: &TrapsPuzzle, skip: &mut HashSet<usize>, i: usize, left: usize) -> (r: usize)
    requires
        puzzle.wf(),
        fits_with_any_skips(puzzle.base_dmgs@),
        i <= puzzle.base_dmgs@.len(),
        left <= puzzle.base_dmgs@.len() - i,
        forall|j: usize| #[trigger] old(skip)@.contains(j) ==> j < i,
        skips_before(old(skip)@, i as nat) + left == puzzle.k,
    ensures
        final(skip)@ == old(skip)@,
        exists|s: Set<usize>|
            #[trigger] is_skip_set(puzzle.base_dmgs@.len(), puzzle.k as nat, s) && agrees_below(
                s,
                old(skip)@,
                i as nat,
            ) && damage(puzzle.base_dmgs@, s) == r,
        forall|s: Set<usize>|
            #[trigger] is_skip_set(puzzle.base_dmgs@.len(), puzzle.k as nat, s) && agrees_below(
                s,
                old(skip)@,
                i as nat,
            ) ==> r <= damage(puzzle.base_dmgs@, s),
    decreases puzzle.base_dmgs@.len() - i,
{
    let ghost d = puzzle.base_dmgs@;
    let ghost k = puzzle.k as nat;
    let ghost base = skip@;
    let n = puzzle.base_dmgs.len();
    if i == n {
        proof {
            lemma_damage_upto_bound(d, base, n as nat);
            lemma_skip_count_is_size(base, n as nat);
            assert(is_skip_set(n as nat, k, base));
            assert(agrees_below(base, base, i as nat));
            assert forall|s: Set<usize>|
                #[trigger] is_skip_set(n as nat, k, s) && agrees_below(
                    s,
                    base,
                    i as nat,
                ) implies damage(d, base) <= damage(d, s) by {
                lemma_skip_count_is_size(s, n as nat);
                lemma_agree_below(d, s, base, n as nat);
            }
        }
        return puzzle.dmg_from_skip_inds(skip);
    }
    let ghost with_i = base.insert(i);
    proof {
        lemma_agree_below(d, base, with_i, i as nat);
    }
    let mut best: usize = 0;
    let mut found = false;
    if left > 0 {
        skip.insert(i);
        let ra = search(puzzle, skip, i + 1, left - 1);
        skip.remove(&i);
        proof {
            assert(skip@ =~= base);
            let sa = choose|s: Set<usize>|
                #[trigger] is_skip_set(n as nat, k, s) && agrees_below(s, with_i, (i + 1) as nat)
                    && damage(d, s) == ra;
            assert(agrees_below(sa, base, i as nat));
        }
        best = ra;
        found = true;
    }
    if left < n - i {
        let rb = search(puzzle, skip, i + 1, left);
        proof {
            let sb = choose|s: Set<usize>|
                #[trigger] is_skip_set(n as nat, k, s) && agrees_below(s, base, (i + 1) as nat)
                    && damage(d, s) == rb;
            assert(agrees_below(sb, base, i as nat));
        }
        if !found || rb < best {
            best = rb;
        }
        found = true;
    }
    proof {
        assert forall|s: Set<usize>|
            #[trigger] is_skip_set(n as nat, k, s) && agrees_below(
                s,
                base,
                i as nat,
            ) implies best <= damage(d, s) by {
            lemma_skip_count_is_size(s, n as nat);
            lemma_agree_below(d, s, base, i as nat);
            lemma_skips_between(s, (i + 1) as nat, n as nat);
            if s.contains(i) {
                assert(agrees_below(s, with_i, (i + 1) as nat));
            } else {
                assert(agrees_below(s, base, (i + 1) as nat));
            }
        }
    }
    best
}

/// Least total damage for the puzzle, found by trying every choice of `k`
/// skipped positions. Its running time grows with the number of such
/// choices, so it suits small rows only. Every choice is evaluated, so the
/// damage of every choice must fit a `usize`.
pub fn brute_force_solve(puzzle: &TrapsPuzzle) -> (r: usize)
    requires
        puzzle.wf(),
        fits_with_any_skips(puzzle.base_dmgs@),
    ensures
        is_min_damage(puzzle.base_dmgs@, puzzle.k as nat, r as int),
        puzzle.k == 0 ==> r == total_upto(puzzle.base_dmgs@, puzzle.base_dmgs@.len()),
        puzzle.k == puzzle.base_dmgs@.len() ==> r == 0,
{
    let mut skip: HashSet<usize> = HashSet::new();
    let r = search(puzzle, &mut skip, 0, puzzle.k);
    proof {
        assert forall|s: Set<usize>| #[trigger]
            is_skip_set(puzzle.base_dmgs@.len(), puzzle.k as nat, s) implies agrees_below(
            s,
            Set::<usize>::empty(),
            0,
        ) by {}
        lemma_min_damage_boundaries(puzzle.base_dmgs@, puzzle.k as nat, r as int);
    }
    r
}

/// The least damage of a puzzle is a single number: the greedy solver and
/// the exhaustive search agree on every puzzle, and repeated solves of one
/// puzzle return the same total.
pub proof fn lemma_min_damage_is_unique(d: Seq<usize>, k: nat, a: int, b: int)
    requires
        is_min_damage(d, k, a),
        is_min_damage(d, k, b),
    ensures
        a == b,
{
    let sa = choose|s: Set<usize>| #[trigger] is_skip_set(d.len(), k, s) && damage(d, s) == a;
    let sb = choose|s: Set<usize>| #[trigger] is_skip_set(d.len(), k, s) && damage(d, s) == b;
}

} // verus!
