use vstd::prelude::*;
use vstd::set_lib::{lemma_int_range, lemma_len_subset, set_int_range};

use crate::equation::{admissible, Equation, EquationError};
use crate::eval::{apply_operation, holds};
use crate::parse::{puzzle_of, Puzzle};

verus! {

/// Whether `d` solves the puzzle: an admissible digit for every letter, under
/// which both sides are equal.
pub open spec fn is_solution(p: Puzzle, d: Seq<u8>) -> bool {
    &&& d.len() == p.letters.len()
    &&& admissible(p.letters, p.leading, d)
    &&& holds(p.letters, d, p.rpn, p.result) == Ok::<bool, EquationError>(true)
}

/// Whether `d` continues `start` with digits taken from `order` alone.
pub open spec fn extends(start: Seq<u8>, d: Seq<u8>, order: Seq<u8>) -> bool {
    &&& start.len() <= d.len()
    &&& d.take(start.len() as int) == start
    &&& forall|i: int| start.len() <= i < d.len() ==> order.contains(#[trigger] d[i])
}

/// Where `x` first stands in `order`; `order.len()` where it does not.
pub open spec fn position(order: Seq<u8>, x: u8) -> int
    decreases order.len(),
{
    if order.len() == 0 {
        0
    } else if order[0] == x {
        0
    } else {
        1 + position(order.drop_first(), x)
    }
}

/// Whether `d` comes before `r` when digits are ranked by `order`: at the
/// first letter where they differ, the digit of `d` is tried first.
pub open spec fn precedes(order: Seq<u8>, d: Seq<u8>, r: Seq<u8>) -> bool {
    exists|i: int|
        0 <= i < d.len() && i < r.len() && d.take(i) == r.take(i) && #[trigger] position(
            order,
            d[i],
        ) < position(order, r[i])
}

proof fn lemma_position(order: Seq<u8>, x: u8)
    ensures
        0 <= position(order, x) <= order.len(),
        order.contains(x) ==> position(order, x) < order.len() && order[position(order, x)] == x,
        forall|j: int| 0 <= j < order.len() && order[j] == x ==> position(order, x) <= j,
    decreases order.len(),
{
    if order.len() > 0 && order[0] != x {
        let t = order.drop_first();
        lemma_position(t, x);
        if order.contains(x) {
            let j = choose|j: int| 0 <= j < order.len() && order[j] == x;
            assert(t[j - 1] == x);
        }
        assert forall|j: int| 0 <= j < order.len() && order[j] == x implies position(order, x)
            <= j by {
            assert(t[j - 1] == x);
        }
    }
}

/// Pairwise distinct digits are at most ten.
proof fn lemma_distinct_digits_at_most_ten(d: Seq<u8>)
    requires
        forall|i: int| 0 <= i < d.len() ==> d[i] < 10,
        forall|i: int, j: int| 0 <= i < j < d.len() ==> d[i] != d[j],
    ensures
        d.len() <= 10,
{
    let s = d.map_values(|x: u8| x as int);
    assert(s.no_duplicates()) by {
        assert forall|i: int, j: int| 0 <= i < s.len() && 0 <= j < s.len() && i != j implies s[i]
            != s[j] by {
            if i < j {
                assert(d[i] != d[j]);
            } else {
                assert(d[j] != d[i]);
            }
        }
    }
    s.unique_seq_to_set();
    assert(s.to_set().subset_of(set_int_range(0, 10))) by {
        assert forall|x: int| s.to_set().contains(x) implies set_int_range(0, 10).contains(x) by {
            let k = choose|k: int| 0 <= k < s.len() && s[k] == x;
            assert(d[k] < 10);
        }
    }
    lemma_int_range(0, 10);
    lemma_len_subset(s.to_set(), set_int_range(0, 10));
}

/// Every solution gives each letter a digit below ten, no digit to two
/// letters and none of zero to a leading letter; so a solved puzzle has at
/// most ten letters.
pub proof fn lemma_solution_is_valid(p: Puzzle, d: Seq<u8>)
    requires
        is_solution(p, d),
    ensures
        p.letters.len() <= 10,
        d.len() == p.letters.len(),
        forall|i: int| 0 <= i < d.len() ==> d[i] < 10,
        forall|i: int, j: int| 0 <= i < j < d.len() ==> d[i] != d[j],
        forall|i: int| 0 <= i < d.len() && p.leading.contains(p.letters[i]) ==> d[i] != 0,
{
    lemma_distinct_digits_at_most_ten(d);
}

/// A puzzle of more than ten letters has no solution.
pub proof fn lemma_too_many_letters(p: Puzzle, d: Seq<u8>)
    requires
        p.letters.len() > 10,
    ensures
        !is_solution(p, d),
{
    if is_solution(p, d) {
        lemma_solution_is_valid(p, d);
    }
}

/// A search that starts with no digits given and may try every digit below
/// ten reaches every solution; so where it finds none, there is none.
pub proof fn lemma_full_search_reaches_every_solution(p: Puzzle, order: Seq<u8>, d: Seq<u8>)
    requires
        forall|x: u8| x < 10 ==> order.contains(x),
        is_solution(p, d),
    ensures
        extends(Seq::empty(), d, order),
{
    assert(d.take(0) =~= Seq::<u8>::empty());
    assert forall|i: int| 0 <= i < d.len() implies order.contains(#[trigger] d[i]) by {
        assert(d[i] < 10);
    }
}

fn contains_char(v: &Vec<char>, c: char) -> (r: bool)
    ensures
        r == v@.contains(c),
{
    let mut i: usize = 0;
    while i < v.len()
        invariant
            i <= v.len(),
            forall|j: int| 0 <= j < i ==> v@[j] != c,
        decreases v.len() - i,
    {
        if v[i] == c {
            return true;
        }
        i = i + 1;
    }
    false
}

fn contains_digit(v: &Vec<u8>, x: u8) -> (r: bool)
    ensures
        r == v@.contains(x),
{
    let mut i: usize = 0;
    while i < v.len()
        invariant
            i <= v.len(),
            forall|j: int| 0 <= j < i ==> v@[j] != x,
        decreases v.len() - i,
    {
        if v[i] == x {
            return true;
        }
        i = i + 1;
    }
    false
}

/// Searches depth first for digits for the letters that have none yet, the
/// smallest letter first, trying digits in the order of `digits`.
///
/// On success the equation holds a solution that continues its digits with
/// digits of `digits`, and of all such solutions the first when digits are
/// ranked by `digits`; otherwise it is left as it was, and there is no such
/// solution. An assignment whose evaluation fails (a
/// division by zero) is no solution, and the search goes on.
pub fn backtrack(equation: &mut Equation, digits: &[u8]) -> (found: bool)
    requires
        old(equation).wf(),
        forall|i: int| 0 <= i < digits@.len() ==> digits@[i] < 10,
    ensures
        final(equation).wf(),
        puzzle_of(*final(equation)) == puzzle_of(*old(equation)),
        found ==> is_solution(puzzle_of(*final(equation)), final(equation).digits()),
        found ==> extends(old(equation).digits(), final(equation).digits(), digits@),
        found ==> forall|d: Seq<u8>|
            extends(old(equation).digits(), d, digits@) && is_solution(puzzle_of(*old(equation)), d)
                ==> !precedes(digits@, d, final(equation).digits()),
        !found ==> final(equation).digits() == old(equation).digits(),
        !found ==> forall|d: Seq<u8>|
            extends(old(equation).digits(), d, digits@) ==> !is_solution(
                puzzle_of(*old(equation)),
                d,
            ),
    decreases old(equation).letter_seq().len() - old(equation).digits().len(),
{
    let ghost p = puzzle_of(*equation);
    let ghost m0 = equation.digits();
    let k = equation.mapping.len();
    if k >= equation.letters.len() {
        let found = match apply_operation(equation) {
            Ok(b) => b,
            Err(_) => false,
        };
        proof {
            assert forall|d: Seq<u8>| extends(m0, d, digits@) && is_solution(p, d) implies d
                == m0 by {
                assert(d =~= d.take(k as int));
            }
            assert(m0.take(k as int) =~= m0);
            assert forall|d: Seq<u8>| extends(m0, d, digits@) && is_solution(p, d) implies !precedes(
                digits@,
                d,
                m0,
            ) by {
                assert(d =~= d.take(k as int));
            }
        }
        return found;
    }
    if equation.letters.len() > 10 {
        proof {
            assert forall|d: Seq<u8>| extends(m0, d, digits@) implies !is_solution(p, d) by {
                lemma_too_many_letters(p, d);
            }
        }
        return false;
    }
    let ch = equation.letters[k];
    let leading = contains_char(&equation.leading, ch);
    let mut idx: usize = 0;
    while idx < digits.len()
        invariant
            0 <= idx <= digits@.len(),
            k < equation.letter_seq().len(),
            ch == equation.letter_seq()[k as int],
            leading == equation.leading_seq().contains(ch),
            p == puzzle_of(*old(equation)),
            m0 == old(equation).digits(),
            k == m0.len(),
            puzzle_of(*equation) == p,
            equation.digits() == m0,
            equation.wf(),
            forall|i: int| 0 <= i < digits@.len() ==> digits@[i] < 10,
            forall|d: Seq<u8>|
                extends(m0, d, digits@) && #[trigger] is_solution(p, d) ==> !digits@.take(
                    idx as int,
                ).contains(d[k as int]),
        decreases digits@.len() - idx,
    {
        let digit = digits[idx];
        if !(digit == 0 && leading) && !contains_digit(&equation.mapping, digit) {
            equation.mapping.push(digit);
            let ghost m1 = equation.digits();
            assert(m1.take(k as int) =~= m0);
            if backtrack(equation, digits) {
                proof {
                    let f = equation.digits();
                    assert(f.take(k as int) =~= f.take(k + 1).take(k as int));
                    assert(f.take(k + 1)[k as int] == f[k as int]);
                    assert(m1[k as int] == digit);
                    assert(digits@[idx as int] == f[k as int]);
                    assert(digits@.contains(f[k as int]));
                    lemma_position(digits@, digit);
                    assert forall|d: Seq<u8>|
                        extends(m0, d, digits@) && is_solution(p, d) implies !precedes(
                        digits@,
                        d,
                        f,
                    ) by {
                        if precedes(digits@, d, f) {
                            let i = choose|i: int|
                                0 <= i < d.len() && i < f.len() && d.take(i) == f.take(i)
                                    && #[trigger] position(digits@, d[i]) < position(
                                    digits@,
                                    f[i],
                                );
                            if i < k {
                                assert(d.take(k as int)[i] == d[i]);
                                assert(f.take(k as int)[i] == f[i]);
                            } else if i == k {
                                lemma_position(digits@, d[i]);
                                assert(digits@.contains(d[i]));
                                let q = position(digits@, d[i]);
                                assert(digits@.take(idx as int)[q] == d[i]);
                                assert(digits@.take(idx as int).contains(d[k as int]));
                            } else {
                                assert(d.take(i)[k as int] == d[k as int]);
                                assert(f.take(i)[k as int] == f[k as int]);
                                assert(d.take(k + 1) =~= m1);
                                assert(extends(m1, d, digits@));
                            }
                        }
                    }
                }
                return true;
            }
            equation.mapping.pop();
            assert(equation.digits() =~= m0);
            proof {
                assert forall|d: Seq<u8>|
                    extends(m0, d, digits@) && #[trigger] is_solution(p, d) implies d[k as int]
                    != digit by {
                    if d[k as int] == digit {
                        assert(d.take(k + 1) =~= m1);
                        assert(extends(m1, d, digits@));
                    }
                }
            }
        } else {
            proof {
                assert forall|d: Seq<u8>|
                    extends(m0, d, digits@) && #[trigger] is_solution(p, d) implies d[k as int]
                    != digit by {
                    if d[k as int] == digit {
                        if digit == 0 && leading {
                        } else {
                            let i = choose|i: int| 0 <= i < m0.len() && m0[i] == digit;
                            assert(d.take(k as int)[i] == d[i]);
                        }
                    }
                }
            }
        }
        proof {
            assert forall|d: Seq<u8>|
                extends(m0, d, digits@) && #[trigger] is_solution(p, d) implies !digits@.take(
                idx + 1,
            ).contains(d[k as int]) by {
                if digits@.take(idx + 1).contains(d[k as int]) {
                    let j = choose|j: int|
                        0 <= j < idx + 1 && #[trigger] digits@.take(idx + 1)[j] == d[k as int];
                    if j < idx {
                        assert(digits@.take(idx as int)[j] == d[k as int]);
                    }
                }
            }
        }
        idx = idx + 1;
    }
    proof {
        assert(digits@.take(digits@.len() as int) =~= digits@);
    }
    false
}

} // verus!
