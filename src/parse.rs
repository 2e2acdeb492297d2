use crate::puzzle::{fits_in_usize, TrapsPuzzle};
use vstd::prelude::*;

verus! {

/// A separator inside a line: space, tab or carriage return.
pub open spec fn is_separator(c: u8) -> bool {
    c == 32 || c == 9 || c == 13
}

/// The line feed that ends a line.
pub open spec fn is_line_feed(c: u8) -> bool {
    c == 10
}

pub open spec fn is_digit(c: u8) -> bool {
    48 <= c <= 57
}

/// The first position at or after `pos` that holds no separator.
pub open spec fn skip_separators(b: Seq<u8>, pos: nat) -> nat
    decreases b.len() - pos,
{
    if pos < b.len() && is_separator(b[pos as int]) {
        skip_separators(b, pos + 1)
    } else {
        pos
    }
}

/// The first position at or after `pos` that holds no decimal digit.
pub open spec fn digits_end(b: Seq<u8>, pos: nat) -> nat
    decreases b.len() - pos,
{
    if pos < b.len() && is_digit(b[pos as int]) {
        digits_end(b, pos + 1)
    } else {
        pos
    }
}

/// The value of the decimal digits `b[start..end]`.
pub open spec fn digits_value(b: Seq<u8>, start: nat, end: nat) -> nat
    decreases end,
{
    if end <= start {
        0
    } else {
        digits_value(b, start, (end - 1) as nat) * 10 + (b[end - 1] - 48) as nat
    }
}

/// The number that follows any separators at `pos` on the same line, and the
/// position just after its last digit. There is none when no digit comes
/// before the line ends, when the digits run into a character that is neither
/// a separator nor a line feed, or when the value exceeds `usize::MAX`.
pub open spec fn number_at(b: Seq<u8>, pos: nat) -> Option<(usize, nat)> {
    let s = skip_separators(b, pos);
    let e = digits_end(b, s);
    if s < e && (e == b.len() || is_separator(b[e as int]) || is_line_feed(
        b[e as int],
    )) && digits_value(b, s, e) <= usize::MAX {
        Some((digits_value(b, s, e) as usize, e))
    } else {
        None
    }
}

/// `count` numbers read one after another from `pos`, and the position after
/// the last of them.
pub open spec fn numbers_at(b: Seq<u8>, pos: nat, count: nat) -> Option<(Seq<usize>, nat)>
    decreases count,
{
    if count == 0 {
        Some((Seq::empty(), pos))
    } else {
        match number_at(b, pos) {
            None => None,
            Some((v, p)) => match numbers_at(b, p, (count - 1) as nat) {
                None => None,
                Some((vs, q)) => Some((seq![v] + vs, q)),
            },
        }
    }
}

/// The end of the line at `pos`: any separators, then a line feed or the end
/// of the text. Gives the position where the next line starts; there is none
/// when something else stands before the line ends.
pub open spec fn line_end_at(b: Seq<u8>, pos: nat) -> Option<nat> {
    let s = skip_separators(b, pos);
    if s == b.len() {
        Some(s)
    } else if s < b.len() && is_line_feed(b[s as int]) {
        Some(s + 1)
    } else {
        None
    }
}

/// A puzzle written from `pos` as a line `n k` and then a line of exactly
/// `n` damages: its damages, its skip count and the position after it. There
/// is none where the text does not have that shape or the puzzle would not
/// be well formed.
pub open spec fn puzzle_at(b: Seq<u8>, pos: nat) -> Option<(Seq<usize>, usize, nat)> {
    match numbers_at(b, pos, 2) {
        None => None,
        Some((head, p)) => match line_end_at(b, p) {
            None => None,
            Some(p2) => match numbers_at(b, p2, head[0] as nat) {
                None => None,
                Some((ds, q)) => match line_end_at(b, q) {
                    None => None,
                    Some(q2) => if 1 <= ds.len() && head[1] <= ds.len() && fits_in_usize(ds) {
                        Some((ds, head[1], q2))
                    } else {
                        None
                    },
                },
            },
        },
    }
}

/// `count` puzzles read one after another from `pos`.
pub open spec fn puzzles_at(b: Seq<u8>, pos: nat, count: nat) -> Option<
    (Seq<(Seq<usize>, usize)>, nat),
>
    decreases count,
{
    if count == 0 {
        Some((Seq::empty(), pos))
    } else {
        match puzzle_at(b, pos) {
            None => None,
            Some((ds, k, p)) => match puzzles_at(b, p, (count - 1) as nat) {
                None => None,
                Some((ps, q)) => Some((seq![(ds, k)] + ps, q)),
            },
        }
    }
}

/// A line holding a count of puzzles, followed by that many puzzles.
pub open spec fn puzzle_list(b: Seq<u8>) -> Option<Seq<(Seq<usize>, usize)>> {
    match number_at(b, 0) {
        None => None,
        Some((count, p)) => match line_end_at(b, p) {
            None => None,
            Some(p2) => match puzzles_at(b, p2, count as nat) {
                None => None,
                Some((ps, q)) => Some(ps),
            },
        },
    }
}

pub proof fn lemma_digits_end_bound(b: Seq<u8>, pos: nat)
    requires
        pos <= b.len(),
    ensures
        pos <= digits_end(b, pos) <= b.len(),
    decreases b.len() - pos,
{
    if pos < b.len() && is_digit(b[pos as int]) {
        lemma_digits_end_bound(b, pos + 1);
    }
}

pub proof fn lemma_digits_value_monotone(b: Seq<u8>, start: nat, mid: nat, end: nat)
    requires
        start <= mid <= end <= b.len(),
        forall|j: int| start <= j < end ==> is_digit(#[trigger] b[j]),
    ensures
        digits_value(b, start, mid) <= digits_value(b, start, end),
    decreases end,
{
    if mid < end {
        lemma_digits_value_monotone(b, start, mid, (end - 1) as nat);
    }
}

/// Reads the number at `pos`, as `number_at` describes it.
fn read_number(b: &[u8], pos: usize) -> (r: Option<(usize, usize)>)
    requires
        pos <= b@.len(),
    ensures
        match number_at(b@, pos as nat) {
            None => r is None,
            Some((v, e)) => r matches Some((rv, re)) && rv == v && re == e && e <= b@.len(),
        },
{
    let n = b.len();
    let mut s: usize = pos;
    while s < n && (b[s] == 32 || b[s] == 9 || b[s] == 13)
        invariant
            pos <= s <= n,
            n == b@.len(),
            skip_separators(b@, pos as nat) == skip_separators(b@, s as nat),
        decreases n - s,
    {
        s += 1;
    }
    let ghost start = s as nat;
    let mut i: usize = s;
    let mut value: usize = 0;
    while i < n && 48 <= b[i] && b[i] <= 57
        invariant
            s <= i <= n,
            n == b@.len(),
            start == s,
            skip_separators(b@, pos as nat) == start,
            digits_end(b@, start) == digits_end(b@, i as nat),
            forall|j: int| s <= j < i ==> is_digit(#[trigger] b@[j]),
            value == digits_value(b@, start, i as nat),
        decreases n - i,
    {
        let digit = (b[i] - 48) as usize;
        if value > (usize::MAX - digit) / 10 {
            proof {
                let m = usize::MAX as int;
                let v = value as int;
                let dg = digit as int;
                assert(v * 10 + dg > m) by (nonlinear_arith)
                    requires
                        v > (m - dg) / 10,
                        0 <= dg <= 9,
                        m > 9,
                ;
                lemma_digits_end_bound(b@, (i + 1) as nat);
                let e = digits_end(b@, start);
                assert(digits_end(b@, i as nat) == digits_end(b@, (i + 1) as nat));
                assert forall|j: int| s <= j < e implies is_digit(#[trigger] b@[j]) by {
                    if j >= i {
                        lemma_digits_run(b@, i as nat, j);
                    }
                }
                lemma_digits_value_monotone(b@, start, (i + 1) as nat, e);
            }
            return None;
        }
        value = value * 10 + digit;
        i += 1;
    }
    if i > s && (i == n || b[i] == 32 || b[i] == 9 || b[i] == 13 || b[i] == 10) {
        Some((value, i))
    } else {
        None
    }
}

/// Every position from `pos` up to where the digits end holds a digit.
pub proof fn lemma_digits_run(b: Seq<u8>, pos: nat, j: int)
    requires
        pos <= j < digits_end(b, pos),
    ensures
        is_digit(b[j]),
    decreases b.len() - pos,
{
    if pos < b.len() && is_digit(b[pos as int]) {
        if j > pos {
            lemma_digits_run(b, pos + 1, j);
        }
    }
}

/// Reads the end of the line at `pos`, as `line_end_at` describes it.
fn read_line_end(b: &[u8], pos: usize) -> (r: Option<usize>)
    requires
        pos <= b@.len(),
    ensures
        match line_end_at(b@, pos as nat) {
            None => r is None,
            Some(e) => r matches Some(re) && re == e && e <= b@.len(),
        },
{
    let n = b.len();
    let mut s: usize = pos;
    while s < n && (b[s] == 32 || b[s] == 9 || b[s] == 13)
        invariant
            pos <= s <= n,
            n == b@.len(),
            skip_separators(b@, pos as nat) == skip_separators(b@, s as nat),
        decreases n - s,
    {
        s += 1;
    }
    if s == n {
        Some(s)
    } else if b[s] == 10 {
        Some(s + 1)
    } else {
        None
    }
}

/// Values read so far, in front of what the rest of the text gives.
pub open spec fn prepend(acc: Seq<usize>, rest: Option<(Seq<usize>, nat)>) -> Option<
    (Seq<usize>, nat),
> {
    match rest {
        None => None,
        Some((vs, q)) => Some((acc + vs, q)),
    }
}

/// Reads `count` numbers from `pos`, as `numbers_at` describes them.
fn read_numbers(b: &[u8], pos: usize, count: usize) -> (r: Option<(Vec<usize>, usize)>)
    requires
        pos <= b@.len(),
    ensures
        match numbers_at(b@, pos as nat, count as nat) {
            None => r is None,
            Some((vs, e)) => r matches Some((got, end)) && got@ == vs && end == e && e <= b@.len(),
        },
        r matches Some((got, _)) ==> got@.len() == count,
{
    let mut acc: Vec<usize> = Vec::new();
    let mut p: usize = pos;
    let mut got: usize = 0;
    while got < count
        invariant
            got <= count,
            p <= b@.len(),
            acc@.len() == got,
            numbers_at(b@, pos as nat, count as nat) == prepend(
                acc@,
                numbers_at(b@, p as nat, (count - got) as nat),
            ),
        decreases count - got,
    {
        match read_number(b, p) {
            None => {
                return None;
            },
            Some((v, e)) => {
                proof {
                    let rest = numbers_at(b@, e as nat, (count - got - 1) as nat);
                    assert(numbers_at(b@, p as nat, (count - got) as nat) == match rest {
                        None => None,
                        Some((vs, q)) => Some((seq![v] + vs, q)),
                    });
                    if let Some((vs, q)) = rest {
                        assert(acc@.push(v) + vs =~= acc@ + (seq![v] + vs));
                    }
                }
                acc.push(v);
                p = e;
                got += 1;
            },
        }
    }
    proof {
        assert(acc@ + Seq::<usize>::empty() =~= acc@);
    }
    Some((acc, p))
}

/// Reads one puzzle from `pos`, as `puzzle_at` describes it.
fn read_puzzle(b: &[u8], pos: usize) -> (r: Option<(TrapsPuzzle, usize)>)
    requires
        pos <= b@.len(),
    ensures
        match puzzle_at(b@, pos as nat) {
            None => r is None,
            Some((ds, k, e)) => r matches Some((p, end)) && p.base_dmgs@ == ds && p.k == k && end
                == e && e <= b@.len(),
        },
{
    let (head, p) = match read_numbers(b, pos, 2) {
        None => {
            return None;
        },
        Some(x) => x,
    };
    let p2 = match read_line_end(b, p) {
        None => {
            return None;
        },
        Some(x) => x,
    };
    let (base_dmgs, q) = match read_numbers(b, p2, head[0]) {
        None => {
            return None;
        },
        Some(x) => x,
    };
    let q2 = match read_line_end(b, q) {
        None => {
            return None;
        },
        Some(x) => x,
    };
    match TrapsPuzzle::new(base_dmgs, head[1]) {
        None => None,
        Some(puzzle) => Some((puzzle, q2)),
    }
}

/// Reads one puzzle, written as a line `n k` and then a line of exactly `n`
/// damages, from the start of `input`; anything after it is left unread. There is none when the text
/// does not have that shape or the puzzle would not be well formed.
pub fn parse_traps_puzzle(input: &[u8]) -> (r: Option<TrapsPuzzle>)
    ensures
        match puzzle_at(input@, 0) {
            None => r is None,
            Some((ds, k, e)) => r is Some && r->0.base_dmgs@ == ds && r->0.k == k,
        },
        r matches Some(p) ==> p.wf(),
{
    match read_puzzle(input, 0) {
        None => None,
        Some((puzzle, _)) => Some(puzzle),
    }
}

/// Reads a line holding a count of puzzles and then that many puzzles from
/// `input`; anything after them is left unread.
pub fn parse_traps_puzzles(input: &[u8]) -> (r: Option<Vec<TrapsPuzzle>>)
    ensures
        match puzzle_list(input@) {
            None => r is None,
            Some(ps) => r is Some && r->0@.len() == ps.len() && forall|i: int|
                0 <= i < ps.len() ==> (#[trigger] r->0@[i]).base_dmgs@ == ps[i].0 && r->0@[i].k
                    == ps[i].1,
        },
        r matches Some(v) ==> forall|i: int| 0 <= i < v@.len() ==> (#[trigger] v@[i]).wf(),
{
    let (count, p1) = match read_number(input, 0) {
        None => {
            return None;
        },
        Some(x) => x,
    };
    let mut p = match read_line_end(input, p1) {
        None => {
            return None;
        },
        Some(x) => x,
    };
    let mut puzzles: Vec<TrapsPuzzle> = Vec::new();
    let mut got: usize = 0;
    proof {
        if let Some((ps, q)) = puzzles_at(input@, p as nat, count as nat) {
            assert(puzzles@.map_values(|t: TrapsPuzzle| (t.base_dmgs@, t.k)) + ps =~= ps);
        }
    }
    while got < count
        invariant
            got <= count,
            p <= input@.len(),
            puzzles@.len() == got,
            forall|i: int| 0 <= i < got ==> (#[trigger] puzzles@[i]).wf(),
            puzzle_list(input@) == match puzzles_at(input@, p as nat, (count - got) as nat) {
                None => None::<Seq<(Seq<usize>, usize)>>,
                Some((ps, q)) => Some(puzzles@.map_values(|t: TrapsPuzzle| (t.base_dmgs@, t.k)) + ps),
            },
        decreases count - got,
    {
        match read_puzzle(input, p) {
            None => {
                return None;
            },
            Some((puzzle, e)) => {
                let ghost before = puzzles@;
                let ghost item = (puzzle.base_dmgs@, puzzle.k);
                proof {
                    let rest = puzzles_at(input@, e as nat, (count - got - 1) as nat);
                    if let Some((ps, q)) = rest {
                        assert(before.push(puzzle).map_values(|t: TrapsPuzzle| (t.base_dmgs@, t.k))
                            + ps =~= before.map_values(|t: TrapsPuzzle| (t.base_dmgs@, t.k)) + (
                        seq![item] + ps));
                    }
                }
                puzzles.push(puzzle);
                p = e;
                got += 1;
            },
        }
    }
    proof {
        let m = puzzles@.map_values(|t: TrapsPuzzle| (t.base_dmgs@, t.k));
        assert(m + Seq::<(Seq<usize>, usize)>::empty() =~= m);
    }
    Some(puzzles)
}

} // verus!
