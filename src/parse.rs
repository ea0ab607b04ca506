use vstd::prelude::*;
use vstd::string::*;

use crate::equation::{ascending, Equation, EquationError, Operator, Symbol, Token};
use crate::eval::{apply_operation, holds};

verus! {

/// Whether a character has the Unicode `Alphabetic` property.
pub uninterp spec fn alphabetic_char(c: char) -> bool;

/// Whether a character has the Unicode `White_Space` property.
pub uninterp spec fn white_space_char(c: char) -> bool;

/// Relies on `char::is_alphabetic`, which tests the Unicode `Alphabetic` property.
#[verifier::external_body]
fn is_alphabetic(c: char) -> (r: bool)
    ensures
        r == alphabetic_char(c),
{
    c.is_alphabetic()
}

/// Relies on `char::is_whitespace`, which tests the Unicode `White_Space` property.
#[verifier::external_body]
fn is_whitespace(c: char) -> (r: bool)
    ensures
        r == white_space_char(c),
{
    c.is_whitespace()
}

/// What a puzzle's text describes: its left-hand side in postfix order, its
/// result word, its letters and the first letters of its words (both in
/// ascending order, without repetition).
pub struct Puzzle {
    pub rpn: Seq<Symbol>,
    pub result: Seq<char>,
    pub letters: Seq<char>,
    pub leading: Seq<char>,
}

/// The parser's state after a prefix of the text.
pub struct ParseState {
    pub rpn: Seq<Symbol>,
    pub buffer: Seq<char>,
    pub ops: Seq<Operator>,
    pub letters: Seq<char>,
    pub leading: Seq<char>,
}

pub open spec fn operator_of(c: char) -> Option<Operator> {
    if c == '+' {
        Some(Operator::Add)
    } else if c == '-' {
        Some(Operator::Sub)
    } else if c == '*' {
        Some(Operator::Mul)
    } else if c == '/' {
        Some(Operator::Div)
    } else {
        None
    }
}

/// `*` and `/` bind tighter than `+` and `-`.
pub open spec fn precedence(op: Operator) -> int {
    match op {
        Operator::Add | Operator::Sub => 1,
        Operator::Mul | Operator::Div => 2,
    }
}

/// `s` with `c` added in its place, unless it is there already.
pub open spec fn insert_sorted(s: Seq<char>, c: char) -> Seq<char>
    decreases s.len(),
{
    if s.len() == 0 {
        seq![c]
    } else if s[0] == c {
        s
    } else if c < s[0] {
        seq![c] + s
    } else {
        seq![s[0]] + insert_sorted(s.drop_first(), c)
    }
}

/// Moves operators from the top of the stack `ops` to the output `rpn` while
/// they bind at least as tightly as `p`.
pub open spec fn unwind(rpn: Seq<Symbol>, ops: Seq<Operator>, p: int) -> (Seq<Symbol>, Seq<Operator>)
    decreases ops.len(),
{
    if ops.len() > 0 && precedence(ops.last()) >= p {
        unwind(rpn.push(Symbol::Operator(ops.last())), ops.drop_last(), p)
    } else {
        (rpn, ops)
    }
}

/// Ends the word being read, if there is one.
pub open spec fn flush(st: ParseState) -> ParseState {
    if st.buffer.len() > 0 {
        ParseState {
            rpn: st.rpn.push(Symbol::Word(st.buffer)),
            buffer: Seq::empty(),
            leading: insert_sorted(st.leading, st.buffer[0]),
            ..st
        }
    } else {
        st
    }
}

/// Reads one character.
pub open spec fn scan(st: ParseState, c: char) -> Result<ParseState, EquationError> {
    if alphabetic_char(c) {
        Ok(ParseState { letters: insert_sorted(st.letters, c), buffer: st.buffer.push(c), ..st })
    } else if operator_of(c) is Some {
        let op = operator_of(c)->Some_0;
        let f = flush(st);
        let (rpn, ops) = unwind(f.rpn, f.ops, precedence(op));
        Ok(ParseState { rpn, ops: ops.push(op), ..f })
    } else if c == '=' || white_space_char(c) {
        Ok(flush(st))
    } else {
        Err(EquationError::InvalidToken(c))
    }
}

/// The parser's state after the text `s`, or the first invalid character.
pub open spec fn scan_all(s: Seq<char>) -> Result<ParseState, EquationError>
    decreases s.len(),
{
    if s.len() == 0 {
        Ok(
            ParseState {
                rpn: Seq::empty(),
                buffer: Seq::empty(),
                ops: Seq::empty(),
                letters: Seq::empty(),
                leading: Seq::empty(),
            },
        )
    } else {
        match scan_all(s.drop_last()) {
            Ok(st) => scan(st, s.last()),
            Err(e) => Err(e),
        }
    }
}

/// The puzzle that the whole text describes: the word being read at its end
/// is the result, and the operators left on the stack follow the output.
pub open spec fn finish(st: ParseState) -> Puzzle {
    Puzzle {
        rpn: unwind(st.rpn, st.ops, 0).0,
        result: st.buffer,
        letters: st.letters,
        leading: if st.buffer.len() > 0 {
            insert_sorted(st.leading, st.buffer[0])
        } else {
            st.leading
        },
    }
}

/// What parsing the text `s` gives: the puzzle, once a trial evaluation with
/// no digits given has passed, or the first error.
pub open spec fn parse_spec(s: Seq<char>) -> Result<Puzzle, EquationError> {
    match scan_all(s) {
        Ok(st) => {
            let p = finish(st);
            match holds(p.letters, Seq::empty(), p.rpn, p.result) {
                Ok(_) => Ok(p),
                Err(e) => Err(e),
            }
        },
        Err(e) => Err(e),
    }
}

/// The puzzle that an equation describes.
pub open spec fn puzzle_of(e: Equation) -> Puzzle {
    Puzzle {
        rpn: e.rpn(),
        result: e.result_word(),
        letters: e.letter_seq(),
        leading: e.leading_seq(),
    }
}

/// Parsing is a function of the text: two equations parsed from the same
/// text describe the same puzzle and hold the same digits, so they are
/// equal as cache keys.
pub proof fn lemma_same_text_same_equation(s: Seq<char>, e1: Equation, e2: Equation)
    requires
        parse_spec(s) == Ok::<Puzzle, EquationError>(puzzle_of(e1)),
        parse_spec(s) == Ok::<Puzzle, EquationError>(puzzle_of(e2)),
        e1.digits().len() == 0,
        e2.digits().len() == 0,
    ensures
        e1.rpn() == e2.rpn(),
        e1.result_word() == e2.result_word(),
        e1.letter_seq() == e2.letter_seq(),
        e1.leading_seq() == e2.leading_seq(),
        e1.digits() == e2.digits(),
{
    assert(e1.digits() =~= e2.digits());
}

proof fn lemma_insert_sorted_skip(s: Seq<char>, c: char, i: int)
    requires
        0 <= i <= s.len(),
        forall|j: int| 0 <= j < i ==> s[j] < c,
    ensures
        insert_sorted(s, c) == s.take(i) + insert_sorted(s.skip(i), c),
    decreases i,
{
    if i == 0 {
        assert(s.skip(0) =~= s);
        assert(s.take(0) + insert_sorted(s, c) =~= insert_sorted(s, c));
    } else {
        lemma_insert_sorted_skip(s.drop_first(), c, i - 1);
        assert(s.drop_first().skip(i - 1) =~= s.skip(i));
        assert(seq![s[0]] + s.drop_first().take(i - 1) =~= s.take(i));
    }
}

proof fn lemma_insert_sorted_ascending(s: Seq<char>, c: char)
    requires
        ascending(s),
    ensures
        ascending(insert_sorted(s, c)),
        forall|x: char| #[trigger] insert_sorted(s, c).contains(x) <==> (s.contains(x) || x == c),
    decreases s.len(),
{
    if s.len() > 0 && s[0] != c && c >= s[0] {
        let t = s.drop_first();
        lemma_insert_sorted_ascending(t, c);
        let r = insert_sorted(s, c);
        assert(r == seq![s[0]] + insert_sorted(t, c));
        assert forall|x: char| r.contains(x) <==> (s.contains(x) || x == c) by {
            if r.contains(x) {
                let k = choose|k: int| 0 <= k < r.len() && r[k] == x;
                if k > 0 {
                    assert(insert_sorted(t, c)[k - 1] == x);
                    assert(insert_sorted(t, c).contains(x));
                    if t.contains(x) {
                        let m = choose|m: int| 0 <= m < t.len() && t[m] == x;
                        assert(s[m + 1] == x);
                    }
                } else {
                    assert(s[0] == x);
                }
            }
            if s.contains(x) {
                let m = choose|m: int| 0 <= m < s.len() && s[m] == x;
                if m > 0 {
                    assert(t[m - 1] == x);
                    assert(t.contains(x));
                    assert(insert_sorted(t, c).contains(x));
                    let k = choose|k: int| 0 <= k < insert_sorted(t, c).len() && insert_sorted(t, c)[k] == x;
                    assert(r[k + 1] == x);
                } else {
                    assert(r[0] == x);
                }
            }
            if x == c {
                assert(insert_sorted(t, c).contains(c));
                let k = choose|k: int| 0 <= k < insert_sorted(t, c).len() && insert_sorted(t, c)[k] == c;
                assert(r[k + 1] == c);
            }
        }
        assert forall|i: int, j: int| 0 <= i < j < r.len() implies r[i] < r[j] by {
            if i == 0 {
                let x = r[j];
                assert(insert_sorted(t, c)[j - 1] == x);
                assert(insert_sorted(t, c).contains(x));
                if t.contains(x) {
                    let m = choose|m: int| 0 <= m < t.len() && t[m] == x;
                    assert(s[m + 1] == x);
                }
            }
        }
    } else if s.len() > 0 && s[0] != c {
        let r = insert_sorted(s, c);
        assert(r == seq![c] + s);
        assert forall|x: char| r.contains(x) <==> (s.contains(x) || x == c) by {
            if r.contains(x) {
                let k = choose|k: int| 0 <= k < r.len() && r[k] == x;
                if k > 0 {
                    assert(s[k - 1] == x);
                }
            }
            if s.contains(x) {
                let m = choose|m: int| 0 <= m < s.len() && s[m] == x;
                assert(r[m + 1] == x);
            }
            if x == c {
                assert(r[0] == c);
            }
        }
    } else if s.len() == 0 {
        let r = insert_sorted(s, c);
        assert forall|x: char| r.contains(x) <==> (s.contains(x) || x == c) by {
            if x == c {
                assert(r[0] == c);
            }
        }
    } else {
        assert(s[0] == c);
    }
}

fn insert_letter(set: &mut Vec<char>, c: char)
    requires
        ascending(old(set)@),
    ensures
        final(set)@ == insert_sorted(old(set)@, c),
        ascending(final(set)@),
{
    proof {
        lemma_insert_sorted_ascending(set@, c);
    }
    let mut i: usize = 0;
    while i < set.len() && set[i] < c
        invariant
            i <= set.len(),
            forall|j: int| 0 <= j < i ==> set@[j] < c,
        decreases set.len() - i,
    {
        i = i + 1;
    }
    proof {
        lemma_insert_sorted_skip(set@, c, i as int);
    }
    if i == set.len() {
        assert(set@.skip(i as int) =~= Seq::<char>::empty());
        assert(set@.take(i as int) =~= set@);
        set.push(c);
        assert(set@ =~= insert_sorted(old(set)@, c));
    } else if set[i] != c {
        assert(set@.skip(i as int)[0] == set@[i as int]);
        assert(insert_sorted(set@.skip(i as int), c) == seq![c] + set@.skip(i as int));
        set.insert(i, c);
        assert(set@ =~= old(set)@.take(i as int) + (seq![c] + old(set)@.skip(i as int)));
    } else {
        assert(set@.take(i as int) + set@.skip(i as int) =~= set@);
    }
}

fn precedence_of(op: Operator) -> (p: u8)
    ensures
        p == precedence(op),
{
    match op {
        Operator::Add | Operator::Sub => 1,
        Operator::Mul | Operator::Div => 2,
    }
}

fn unwind_ops(rpn: &mut Vec<Token>, ops: &mut Vec<Operator>, p: u8)
    ensures
        unwind(old(rpn)@.map_values(|t: Token| t@), old(ops)@, p as int) == (
            final(rpn)@.map_values(|t: Token| t@),
            final(ops)@,
        ),
{
    while ops.len() > 0 && precedence_of(ops[ops.len() - 1]) >= p
        invariant
            unwind(old(rpn)@.map_values(|t: Token| t@), old(ops)@, p as int) == unwind(
                rpn@.map_values(|t: Token| t@),
                ops@,
                p as int,
            ),
        decreases ops.len(),
    {
        let ghost before = rpn@.map_values(|t: Token| t@);
        let op = ops.pop().unwrap();
        rpn.push(Token::Operator(op));
        assert(rpn@.map_values(|t: Token| t@) =~= before.push(Symbol::Operator(op)));
    }
}

/// Ends the word being read, if there is one: it joins the output and its
/// first letter the leading letters.
fn flush_word(rpn: &mut Vec<Token>, buffer: &mut Vec<char>, leading: &mut Vec<char>)
    requires
        ascending(old(leading)@),
    ensures
        ascending(final(leading)@),
        old(buffer)@.len() > 0 ==> {
            &&& final(rpn)@.map_values(|t: Token| t@) == old(rpn)@.map_values(|t: Token| t@).push(
                Symbol::Word(old(buffer)@),
            )
            &&& final(buffer)@ == Seq::<char>::empty()
            &&& final(leading)@ == insert_sorted(old(leading)@, old(buffer)@[0])
        },
        old(buffer)@.len() == 0 ==> {
            &&& final(rpn)@ == old(rpn)@
            &&& final(buffer)@ == old(buffer)@
            &&& final(leading)@ == old(leading)@
        },
{
    if buffer.len() > 0 {
        insert_letter(leading, buffer[0]);
        let ghost before = rpn@.map_values(|t: Token| t@);
        let word = buffer.split_off(0);
        assert(word@ =~= old(buffer)@);
        assert(buffer@ =~= Seq::<char>::empty());
        rpn.push(Token::Word(word));
        assert(rpn@.map_values(|t: Token| t@) =~= before.push(Symbol::Word(old(buffer)@)));
    }
}

spec fn state_of(
    rpn: Seq<Token>,
    buffer: Seq<char>,
    ops: Seq<Operator>,
    letters: Seq<char>,
    leading: Seq<char>,
) -> ParseState {
    ParseState { rpn: rpn.map_values(|t: Token| t@), buffer, ops, letters, leading }
}

fn operator_from(c: char) -> (r: Option<Operator>)
    ensures
        r == operator_of(c),
{
    if c == '+' {
        Some(Operator::Add)
    } else if c == '-' {
        Some(Operator::Sub)
    } else if c == '*' {
        Some(Operator::Mul)
    } else if c == '/' {
        Some(Operator::Div)
    } else {
        None
    }
}

proof fn lemma_scan_error_stays(s: Seq<char>, i: int)
    requires
        0 <= i <= s.len(),
        scan_all(s.take(i)) is Err,
    ensures
        scan_all(s) == scan_all(s.take(i)),
    decreases s.len() - i,
{
    if i < s.len() {
        assert(s.take(i + 1).drop_last() =~= s.take(i));
        lemma_scan_error_stays(s, i + 1);
    } else {
        assert(s.take(i) =~= s);
    }
}

/// Parses the text of a puzzle, such as `SEND + MORE = MONEY`.
///
/// Letters form words; `+ - * /` are operators, `*` and `/` binding tighter,
/// all of them left-associative; whitespace and `=` end a word, and the word
/// still being read at the end is the result. The left-hand side is then
/// evaluated once with no digits given, which rejects a malformed one.
pub fn parse_input(text: &str) -> (r: Result<Equation, EquationError>)
    ensures
        match r {
            Ok(e) => {
                &&& parse_spec(text@) == Ok::<Puzzle, EquationError>(puzzle_of(e))
                &&& e.wf()
                &&& e.digits().len() == 0
            },
            Err(err) => parse_spec(text@) == Err::<Puzzle, EquationError>(err),
        },
{
    let n = text.unicode_len();
    let mut rpn: Vec<Token> = Vec::new();
    let mut buffer: Vec<char> = Vec::new();
    let mut ops: Vec<Operator> = Vec::new();
    let mut letters: Vec<char> = Vec::new();
    let mut leading: Vec<char> = Vec::new();
    let mut i: usize = 0;
    assert(text@.take(0) =~= Seq::<char>::empty());
    assert(rpn@.map_values(|t: Token| t@) =~= Seq::<Symbol>::empty());
    while i < n
        invariant
            n == text@.len(),
            i <= n,
            ascending(letters@),
            ascending(leading@),
            scan_all(text@.take(i as int)) == Ok::<ParseState, EquationError>(
                ParseState {
                    rpn: rpn@.map_values(|t: Token| t@),
                    buffer: buffer@,
                    ops: ops@,
                    letters: letters@,
                    leading: leading@,
                },
            ),
        decreases n - i,
    {
        let ch = text.get_char(i);
        assert(text@.take(i + 1).drop_last() =~= text@.take(i as int));
        assert(text@.take(i + 1).last() == ch);
        let ghost st = ParseState {
            rpn: rpn@.map_values(|t: Token| t@),
            buffer: buffer@,
            ops: ops@,
            letters: letters@,
            leading: leading@,
        };
        assert(scan_all(text@.take(i + 1)) == scan(st, ch));
        if is_alphabetic(ch) {
            insert_letter(&mut letters, ch);
            buffer.push(ch);
            assert(scan(st, ch) == Ok::<ParseState, EquationError>(
                state_of(rpn@, buffer@, ops@, letters@, leading@),
            ));
        } else {
            match operator_from(ch) {
                Some(op) => {
                    flush_word(&mut rpn, &mut buffer, &mut leading);
                    let ghost f = flush(st);
                    assert(f.rpn == rpn@.map_values(|t: Token| t@));
                    unwind_ops(&mut rpn, &mut ops, precedence_of(op));
                    ops.push(op);
                    assert(scan(st, ch) == Ok::<ParseState, EquationError>(
                        state_of(rpn@, buffer@, ops@, letters@, leading@),
                    ));
                },
                None => {
                    if ch == '=' || is_whitespace(ch) {
                        flush_word(&mut rpn, &mut buffer, &mut leading);
                        assert(scan(st, ch) == Ok::<ParseState, EquationError>(
                            state_of(rpn@, buffer@, ops@, letters@, leading@),
                        ));
                    } else {
                        proof {
                            lemma_scan_error_stays(text@, i + 1);
                        }
                        return Err(EquationError::InvalidToken(ch));
                    }
                },
            }
        }
        i = i + 1;
    }
    assert(text@.take(n as int) =~= text@);
    let ghost st = ParseState {
        rpn: rpn@.map_values(|t: Token| t@),
        buffer: buffer@,
        ops: ops@,
        letters: letters@,
        leading: leading@,
    };
    if buffer.len() > 0 {
        insert_letter(&mut leading, buffer[0]);
    }
    unwind_ops(&mut rpn, &mut ops, 0);
    let equation = Equation {
        rpn_token: rpn,
        result: buffer,
        mapping: Vec::new(),
        letters,
        leading,
    };
    assert(puzzle_of(equation) == finish(st));
    match apply_operation(&equation) {
        Ok(_) => Ok(equation),
        Err(e) => Err(e),
    }
}

} // verus!
