use vstd::prelude::*;

verus! {

/// One of the four arithmetic operators of a puzzle.
#[derive(Clone, Copy, Debug, PartialEq, Eq, Hash, Structural)]
pub enum Operator {
    Add,
    Sub,
    Mul,
    Div,
}

/// What can go wrong while reading or evaluating a puzzle.
#[derive(Clone, Copy, Debug, PartialEq, Eq, Structural)]
pub enum EquationError {
    /// A character that is no letter, operator, whitespace or `=`.
    InvalidToken(char),
    /// An operator met fewer than two operands.
    StackUnderflow,
    /// The left-hand side did not leave exactly one value, or there is no result word.
    MalformedExpression,
    /// A division by zero, or a value outside the range of `i64`.
    ArithmeticError,
}

/// One element of the postfix form of a left-hand side.
#[derive(Clone, Debug, PartialEq, Eq, Hash)]
pub enum Token {
    Word(Vec<char>),
    Operator(Operator),
}

/// The mathematical value of a [`Token`].
pub enum Symbol {
    Word(Seq<char>),
    Operator(Operator),
}

/// Whether `s` is in strictly ascending order.
pub open spec fn ascending(s: Seq<char>) -> bool {
    forall|i: int, j: int| 0 <= i < j < s.len() ==> s[i] < s[j]
}

/// Whether `d`, given to the first letters of `letters`, is a valid partial
/// assignment: digits below ten, no digit twice, and no leading letter on zero.
pub open spec fn admissible(letters: Seq<char>, leading: Seq<char>, d: Seq<u8>) -> bool {
    &&& d.len() <= letters.len()
    &&& forall|i: int| 0 <= i < d.len() ==> d[i] < 10
    &&& forall|i: int, j: int| 0 <= i < j < d.len() ==> d[i] != d[j]
    &&& forall|i: int| 0 <= i < d.len() && leading.contains(letters[i]) ==> d[i] != 0
}

impl View for Token {
    type V = Symbol;

    open spec fn view(&self) -> Symbol {
        match self {
            Token::Word(w) => Symbol::Word(w@),
            Token::Operator(op) => Symbol::Operator(*op),
        }
    }
}

/// A parsed puzzle, together with the digits given so far to its letters.
///
/// `mapping[i]` is the digit of `letters[i]`; the letters beyond
/// `mapping.len()` have no digit yet, and are given one in ascending order.
#[derive(Clone, Debug, PartialEq, Eq, Hash)]
pub struct Equation {
    pub(crate) rpn_token: Vec<Token>,
    pub(crate) result: Vec<char>,
    pub(crate) mapping: Vec<u8>,
    pub(crate) letters: Vec<char>,
    pub(crate) leading: Vec<char>,
}

impl Equation {
    /// The left-hand side, in postfix order.
    pub open(crate) spec fn rpn(&self) -> Seq<Symbol> {
        self.rpn_token@.map_values(|t: Token| t@)
    }

    /// The word on the right of `=`.
    pub open(crate) spec fn result_word(&self) -> Seq<char> {
        self.result@
    }

    /// Every letter of the puzzle, in ascending order.
    pub open(crate) spec fn letter_seq(&self) -> Seq<char> {
        self.letters@
    }

    /// The first letters of the words, in ascending order.
    pub open(crate) spec fn leading_seq(&self) -> Seq<char> {
        self.leading@
    }

    /// The digits given so far, one per letter from the smallest up.
    pub open(crate) spec fn digits(&self) -> Seq<u8> {
        self.mapping@
    }

    /// The digits given so far, each with its letter.
    pub fn mapping(&self) -> (r: Vec<(char, u8)>)
        requires
            self.wf(),
        ensures
            r@.len() == self.digits().len(),
            forall|i: int|
                0 <= i < r@.len() ==> #[trigger] r@[i] == (self.letter_seq()[i], self.digits()[i]),
    {
        let mut r: Vec<(char, u8)> = Vec::new();
        let mut i: usize = 0;
        while i < self.mapping.len()
            invariant
                i <= self.mapping@.len(),
                self.mapping@.len() <= self.letters@.len(),
                r@.len() == i,
                forall|j: int|
                    0 <= j < i ==> #[trigger] r@[j] == (self.letters@[j], self.mapping@[j]),
            decreases self.mapping@.len() - i,
        {
            r.push((self.letters[i], self.mapping[i]));
            i = i + 1;
        }
        r
    }

    /// Letters in ascending order without repetition, and the digits given
    /// so far admissible.
    pub open spec fn wf(&self) -> bool {
        &&& ascending(self.letter_seq())
        &&& ascending(self.leading_seq())
        &&& admissible(self.letter_seq(), self.leading_seq(), self.digits())
    }
}

} // verus!
