use vstd::prelude::*;

use crate::equation::{Equation, EquationError, Operator, Symbol, Token};

verus! {

/// The digit of letter `c` when `digits[i]` is given to `letters[i]`; a letter
/// without a digit counts as 1.
pub open spec fn digit_of(letters: Seq<char>, digits: Seq<u8>, c: char) -> int
    decreases digits.len(),
{
    if digits.len() == 0 || letters.len() == 0 {
        1
    } else if letters[0] == c {
        digits[0] as int
    } else {
        digit_of(letters.drop_first(), digits.drop_first(), c)
    }
}

/// The number that word `w` spells, most significant digit first.
pub open spec fn word_value(letters: Seq<char>, digits: Seq<u8>, w: Seq<char>) -> int
    decreases w.len(),
{
    if w.len() == 0 {
        0
    } else {
        10 * word_value(letters, digits, w.drop_last()) + digit_of(letters, digits, w.last())
    }
}

/// Whether `v` fits in an `i64`.
pub open spec fn fits(v: int) -> bool {
    i64::MIN <= v <= i64::MAX
}

/// Division that truncates toward zero.
pub open spec fn quotient(a: int, b: int) -> int {
    let q = if a >= 0 { a } else { -a } / if b >= 0 { b } else { -b };
    if (a < 0) == (b < 0) { q } else { -q }
}

/// `a op b`, or `None` where it divides by zero.
pub open spec fn combine(op: Operator, a: int, b: int) -> Option<int> {
    match op {
        Operator::Add => Some(a + b),
        Operator::Sub => Some(a - b),
        Operator::Mul => Some(a * b),
        Operator::Div => if b == 0 { None } else { Some(quotient(a, b)) },
    }
}

/// One step of the evaluation stack machine.
pub open spec fn step(
    letters: Seq<char>,
    digits: Seq<u8>,
    stack: Seq<int>,
    s: Symbol,
) -> Result<Seq<int>, EquationError> {
    match s {
        Symbol::Word(w) => {
            let v = word_value(letters, digits, w);
            if fits(v) { Ok(stack.push(v)) } else { Err(EquationError::ArithmeticError) }
        },
        Symbol::Operator(op) => {
            if stack.len() < 2 {
                Err(EquationError::StackUnderflow)
            } else {
                match combine(op, stack[stack.len() - 2], stack.last()) {
                    Some(v) => if fits(v) {
                        Ok(stack.drop_last().drop_last().push(v))
                    } else {
                        Err(EquationError::ArithmeticError)
                    },
                    None => Err(EquationError::ArithmeticError),
                }
            }
        },
    }
}

/// The evaluation stack after the postfix sequence `toks`.
pub open spec fn run(letters: Seq<char>, digits: Seq<u8>, toks: Seq<Symbol>) -> Result<
    Seq<int>,
    EquationError,
>
    decreases toks.len(),
{
    if toks.len() == 0 {
        Ok(Seq::empty())
    } else {
        match run(letters, digits, toks.drop_last()) {
            Ok(stack) => step(letters, digits, stack, toks.last()),
            Err(e) => Err(e),
        }
    }
}

/// The value of a left-hand side: the single value that its evaluation leaves.
pub open spec fn lhs_value(letters: Seq<char>, digits: Seq<u8>, toks: Seq<Symbol>) -> Result<
    int,
    EquationError,
> {
    match run(letters, digits, toks) {
        Ok(stack) => if stack.len() == 1 {
            Ok(stack[0])
        } else {
            Err(EquationError::MalformedExpression)
        },
        Err(e) => Err(e),
    }
}

/// The value of a result word.
pub open spec fn rhs_value(letters: Seq<char>, digits: Seq<u8>, w: Seq<char>) -> Result<
    int,
    EquationError,
> {
    if w.len() == 0 {
        Err(EquationError::MalformedExpression)
    } else if fits(word_value(letters, digits, w)) {
        Ok(word_value(letters, digits, w))
    } else {
        Err(EquationError::ArithmeticError)
    }
}

/// Whether both sides are equal under the assignment, or the first error met.
pub open spec fn holds(
    letters: Seq<char>,
    digits: Seq<u8>,
    rpn: Seq<Symbol>,
    result: Seq<char>,
) -> Result<bool, EquationError> {
    match lhs_value(letters, digits, rpn) {
        Ok(l) => match rhs_value(letters, digits, result) {
            Ok(r) => Ok(l == r),
            Err(e) => Err(e),
        },
        Err(e) => Err(e),
    }
}

/// Whether the equation holds under the digits it holds now.
pub open spec fn holds_now(e: Equation) -> Result<bool, EquationError> {
    holds(e.letter_seq(), e.digits(), e.rpn(), e.result_word())
}

fn lookup(letters: &Vec<char>, digits: &Vec<u8>, c: char) -> (d: u8)
    ensures
        d == digit_of(letters@, digits@, c),
{
    let mut i: usize = 0;
    assert(letters@.skip(0) =~= letters@);
    assert(digits@.skip(0) =~= digits@);
    while i < letters.len() && i < digits.len()
        invariant
            i <= letters.len(),
            i <= digits.len(),
            digit_of(letters@, digits@, c) == digit_of(
                letters@.skip(i as int),
                digits@.skip(i as int),
                c,
            ),
        decreases letters.len() - i,
    {
        if letters[i] == c {
            return digits[i];
        }
        assert(letters@.skip(i as int).drop_first() =~= letters@.skip(i + 1));
        assert(digits@.skip(i as int).drop_first() =~= digits@.skip(i + 1));
        i = i + 1;
    }
    1
}

proof fn lemma_digit_nonneg(letters: Seq<char>, digits: Seq<u8>, c: char)
    ensures
        0 <= digit_of(letters, digits, c),
    decreases digits.len(),
{
    if digits.len() > 0 && letters.len() > 0 && letters[0] != c {
        lemma_digit_nonneg(letters.drop_first(), digits.drop_first(), c);
    }
}

proof fn lemma_prefix_value_le(letters: Seq<char>, digits: Seq<u8>, w: Seq<char>, i: int)
    requires
        0 <= i <= w.len(),
    ensures
        0 <= word_value(letters, digits, w.take(i)) <= word_value(letters, digits, w),
    decreases w.len(),
{
    if w.len() > 0 {
        lemma_digit_nonneg(letters, digits, w.last());
        if i == w.len() {
            assert(w.take(i) =~= w);
            lemma_prefix_value_le(letters, digits, w.drop_last(), i - 1);
        } else {
            assert(w.take(i) =~= w.drop_last().take(i));
            lemma_prefix_value_le(letters, digits, w.drop_last(), i);
        }
    }
}

fn word_number(letters: &Vec<char>, digits: &Vec<u8>, w: &Vec<char>) -> (r: Option<i64>)
    ensures
        match r {
            Some(v) => v == word_value(letters@, digits@, w@),
            None => word_value(letters@, digits@, w@) > i64::MAX,
        },
{
    let mut v: i64 = 0;
    let mut i: usize = 0;
    while i < w.len()
        invariant
            i <= w.len(),
            v == word_value(letters@, digits@, w@.take(i as int)),
        decreases w.len() - i,
    {
        let d = lookup(letters, digits, w[i]);
        proof {
            assert(w@.take(i + 1).drop_last() =~= w@.take(i as int));
            lemma_prefix_value_le(letters@, digits@, w@, i + 1);
            lemma_prefix_value_le(letters@, digits@, w@, i as int);
        }
        match v.checked_mul(10) {
            Some(t) => match t.checked_add(d as i64) {
                Some(n) => v = n,
                None => return None,
            },
            None => return None,
        }
        i = i + 1;
    }
    assert(w@.take(w.len() as int) =~= w@);
    Some(v)
}


proof fn lemma_run_error_stays(letters: Seq<char>, digits: Seq<u8>, toks: Seq<Symbol>, i: int)
    requires
        0 <= i <= toks.len(),
        run(letters, digits, toks.take(i)) is Err,
    ensures
        run(letters, digits, toks) == run(letters, digits, toks.take(i)),
    decreases toks.len() - i,
{
    if i < toks.len() {
        assert(toks.take(i + 1).drop_last() =~= toks.take(i));
        lemma_run_error_stays(letters, digits, toks, i + 1);
    } else {
        assert(toks.take(i) =~= toks);
    }
}

fn operate(op: Operator, a: i64, b: i64) -> (r: Option<i64>)
    ensures
        r matches Some(v) ==> combine(op, a as int, b as int) == Some(v as int),
        r is None ==> match combine(op, a as int, b as int) {
            Some(v) => !fits(v),
            None => true,
        },
{
    match op {
        Operator::Add => a.checked_add(b),
        Operator::Sub => a.checked_sub(b),
        Operator::Mul => a.checked_mul(b),
        Operator::Div => a.checked_div(b),
    }
}

/// Evaluates the equation under the digits given so far, a letter without
/// one counting as 1: `Ok(true)` where both sides are equal.
pub fn apply_operation(equation: &Equation) -> (r: Result<bool, EquationError>)
    ensures
        r == holds_now(*equation),
{
    let letters = &equation.letters;
    let digits = &equation.mapping;
    let toks = &equation.rpn_token;
    let ghost rpn = equation.rpn();
    let mut stack: Vec<i64> = Vec::new();
    let mut i: usize = 0;
    assert(rpn.take(0) =~= Seq::<Symbol>::empty());
    assert(stack@.map_values(|v: i64| v as int) =~= Seq::<int>::empty());
    while i < toks.len()
        invariant
            i <= toks.len(),
            rpn == toks@.map_values(|t: Token| t@),
            rpn == equation.rpn(),
            letters@ == equation.letter_seq(),
            digits@ == equation.digits(),
            run(letters@, digits@, rpn.take(i as int)) == Ok::<Seq<int>, EquationError>(
                stack@.map_values(|v: i64| v as int),
            ),
        decreases toks.len() - i,
    {
        assert(rpn.take(i + 1).drop_last() =~= rpn.take(i as int));
        let ghost before = stack@.map_values(|v: i64| v as int);
        assert(rpn.take(i + 1).last() == toks@[i as int]@);
        assert(run(letters@, digits@, rpn.take(i + 1)) == step(
            letters@,
            digits@,
            before,
            toks@[i as int]@,
        ));
        match &toks[i] {
            Token::Word(w) => {
                match word_number(letters, digits, w) {
                    Some(v) => stack.push(v),
                    None => {
                        proof {
                            lemma_run_error_stays(letters@, digits@, rpn, i + 1);
                        }
                        return Err(EquationError::ArithmeticError);
                    },
                }
                assert(stack@.map_values(|v: i64| v as int) =~= before.push(
                    word_value(letters@, digits@, w@),
                ));
            },
            Token::Operator(op) => {
                if stack.len() < 2 {
                    proof {
                        lemma_run_error_stays(letters@, digits@, rpn, i + 1);
                    }
                    return Err(EquationError::StackUnderflow);
                }
                let b = stack.pop().unwrap();
                let a = stack.pop().unwrap();
                assert(a == before[before.len() - 2] && b == before.last());
                match operate(*op, a, b) {
                    Some(v) => stack.push(v),
                    None => {
                        proof {
                            lemma_run_error_stays(letters@, digits@, rpn, i + 1);
                        }
                        return Err(EquationError::ArithmeticError);
                    },
                }
                assert(stack@.map_values(|v: i64| v as int) =~= before.drop_last().drop_last().push(
                    stack@.last() as int,
                ));
            },
        }
        i = i + 1;
    }
    assert(rpn.take(toks.len() as int) =~= rpn);
    if stack.len() != 1 {
        return Err(EquationError::MalformedExpression);
    }
    let lhs = stack[0];
    if equation.result.len() == 0 {
        return Err(EquationError::MalformedExpression);
    }
    match word_number(letters, digits, &equation.result) {
        Some(rhs) => Ok(lhs == rhs),
        None => Err(EquationError::ArithmeticError),
    }
}

} // verus!
