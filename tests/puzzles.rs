use cryptarithm::{apply_operation, backtrack, parse_input, Equation, EquationError};

const DOWN: [u8; 10] = [9, 8, 7, 6, 5, 4, 3, 2, 1, 0];
const UP: [u8; 10] = [0, 1, 2, 3, 4, 5, 6, 7, 8, 9];

fn digit(mapping: &[(char, u8)], c: char) -> i64 {
    mapping.iter().find(|(l, _)| *l == c).map(|(_, d)| *d as i64).unwrap()
}

fn number(mapping: &[(char, u8)], word: &str) -> i64 {
    word.chars().fold(0, |v, c| v * 10 + digit(mapping, c))
}

fn solve_with(text: &str, order: &[u8]) -> Option<Vec<(char, u8)>> {
    let mut equation: Equation = parse_input(text).unwrap();
    if backtrack(&mut equation, order) {
        Some(equation.mapping())
    } else {
        assert!(equation.mapping().is_empty());
        None
    }
}

fn assert_valid(mapping: &[(char, u8)], leading: &[char]) {
    assert!(mapping.len() <= 10);
    for (i, (_, d)) in mapping.iter().enumerate() {
        assert!(*d < 10);
        for (_, e) in mapping.iter().skip(i + 1) {
            assert_ne!(d, e);
        }
    }
    for c in leading {
        assert_ne!(digit(mapping, *c), 0);
    }
}

#[test]
fn send_more_money_is_solved() {
    let mapping = solve_with("SEND+MORE=MONEY", &DOWN).unwrap();
    assert_eq!(mapping.len(), 8);
    assert_eq!(
        number(&mapping, "SEND") + number(&mapping, "MORE"),
        number(&mapping, "MONEY")
    );
    assert_eq!(number(&mapping, "SEND"), 9567);
    assert_eq!(number(&mapping, "MORE"), 1085);
    assert_eq!(number(&mapping, "MONEY"), 10652);
    assert_valid(&mapping, &['S', 'M']);
}

#[test]
fn solution_letters_come_in_ascending_order() {
    let mapping = solve_with("SEND+MORE=MONEY", &DOWN).unwrap();
    let letters: Vec<char> = mapping.iter().map(|(c, _)| *c).collect();
    assert_eq!(letters, vec!['D', 'E', 'M', 'N', 'O', 'R', 'S', 'Y']);
}

#[test]
fn solved_puzzle_is_valid() {
    let mapping = solve_with("TO+GO=OUT", &UP).unwrap();
    assert_valid(&mapping, &['T', 'G', 'O']);
    assert_eq!(
        number(&mapping, "TO") + number(&mapping, "GO"),
        number(&mapping, "OUT")
    );
}

#[test]
fn leading_zero_puzzle_has_no_solution() {
    assert_eq!(solve_with("A+A=A", &UP), None);
    assert_eq!(solve_with("A+A=A", &DOWN), None);
}

#[test]
fn eleven_letters_have_no_solution() {
    assert_eq!(solve_with("ABCDEFGHIJK=A", &UP), None);
    assert_eq!(solve_with("ABCDEFGHIJK=A", &DOWN), None);
}

#[test]
fn adjacent_operators_fail_at_parse_time() {
    assert_eq!(
        parse_input("SEND+*MORE=MONEY").unwrap_err(),
        EquationError::StackUnderflow
    );
}

#[test]
fn division_is_found_once() {
    let mapping = solve_with("A/B=C", &UP).unwrap();
    assert_eq!(mapping.len(), 3);
    assert_eq!(digit(&mapping, 'A') / digit(&mapping, 'B'), digit(&mapping, 'C'));
    assert_valid(&mapping, &['A', 'B', 'C']);
    let again = solve_with("A/B=C", &UP).unwrap();
    assert_eq!(mapping, again);
}

#[test]
fn reparsing_gives_equal_equations() {
    let a = parse_input("SEND+MORE=MONEY").unwrap();
    let b = parse_input("SEND+MORE=MONEY").unwrap();
    assert_eq!(a, b);
}

#[test]
fn whitespace_does_not_change_the_equation() {
    let a = parse_input("SEND + MORE = MONEY").unwrap();
    let b = parse_input("SEND+MORE=MONEY").unwrap();
    assert_eq!(a, b);
    let c = parse_input("SEND\t+\tMORE\t=\tMONEY").unwrap();
    assert_eq!(a, c);
}

#[test]
fn invalid_character_is_rejected() {
    assert_eq!(
        parse_input("A+B=C!").unwrap_err(),
        EquationError::InvalidToken('!')
    );
    assert_eq!(
        parse_input("A+2=C").unwrap_err(),
        EquationError::InvalidToken('2')
    );
}

#[test]
fn two_operands_without_operator_are_malformed() {
    assert_eq!(
        parse_input("A B = C").unwrap_err(),
        EquationError::MalformedExpression
    );
}

#[test]
fn missing_result_word_is_malformed() {
    assert_eq!(
        parse_input("A+B=").unwrap_err(),
        EquationError::MalformedExpression
    );
}

#[test]
fn operator_without_operands_underflows() {
    assert_eq!(parse_input("+=A").unwrap_err(), EquationError::StackUnderflow);
}

#[test]
fn overlong_word_is_an_arithmetic_error() {
    assert_eq!(
        parse_input("AAAAAAAAAAAAAAAAAAAA=A").unwrap_err(),
        EquationError::ArithmeticError
    );
}

#[test]
fn overflowing_product_is_an_arithmetic_error() {
    assert_eq!(
        parse_input("AAAAAAAAAAA*AAAAAAAAAA=A").unwrap_err(),
        EquationError::ArithmeticError
    );
}

#[test]
fn unassigned_letters_count_as_one() {
    let product = parse_input("A*B=C").unwrap();
    assert_eq!(apply_operation(&product), Ok(true));
    let sum = parse_input("A+B=C").unwrap();
    assert_eq!(apply_operation(&sum), Ok(false));
    let word = parse_input("AB-A=AA").unwrap();
    assert_eq!(apply_operation(&word), Ok(false));
    let diff = parse_input("AB-A=A").unwrap();
    assert_eq!(apply_operation(&diff), Ok(false));
    let ten = parse_input("AB-A=AC").unwrap();
    assert_eq!(apply_operation(&ten), Ok(false));
}

#[test]
fn multiplication_binds_tighter_than_addition() {
    // With every letter at 1: 1 + 1 * 1 = 2, whereas (1 + 1) * 1 would also be 2;
    // 11 - 1 * 11 = 0 tells the two readings apart from (11 - 1) * 11 = 110.
    let e = parse_input("AB-A*AB=C").unwrap();
    assert_eq!(apply_operation(&e), Ok(false));
    let mapping = solve_with("A+B*C=DE", &UP).unwrap();
    assert_eq!(
        digit(&mapping, 'A') + digit(&mapping, 'B') * digit(&mapping, 'C'),
        number(&mapping, "DE")
    );
}

#[test]
fn subtraction_is_left_associative() {
    let mapping = solve_with("AB-C-D=E", &UP).unwrap();
    assert_eq!(
        number(&mapping, "AB") - digit(&mapping, 'C') - digit(&mapping, 'D'),
        digit(&mapping, 'E')
    );
}

#[test]
fn truncating_division_is_used() {
    let mapping = solve_with("AB/C=DE", &DOWN).unwrap();
    assert_eq!(
        number(&mapping, "AB") / digit(&mapping, 'C'),
        number(&mapping, "DE")
    );
}

#[test]
fn negative_left_side_can_match_nothing() {
    assert_eq!(solve_with("A-BC=D", &UP), None);
}

#[test]
fn lowercase_and_unicode_letters_are_letters() {
    let mapping = solve_with("send+more=money", &DOWN).unwrap();
    assert_eq!(number(&mapping, "money"), 10652);
    let accented = parse_input("É+É=B").unwrap();
    assert_eq!(apply_operation(&accented), Ok(false));
}

#[test]
fn search_restricted_to_few_digits_can_fail() {
    let mut equation = parse_input("A+B=C").unwrap();
    assert!(!backtrack(&mut equation, &[5, 6]));
    assert!(backtrack(&mut equation, &[1, 2, 3]));
    let mapping = equation.mapping();
    assert_eq!(digit(&mapping, 'A') + digit(&mapping, 'B'), digit(&mapping, 'C'));
}

#[test]
fn first_solution_in_digit_order_is_returned() {
    assert_eq!(
        solve_with("A+B=C", &UP),
        Some(vec![('A', 1), ('B', 2), ('C', 3)])
    );
    assert_eq!(
        solve_with("A+B=C", &DOWN),
        Some(vec![('A', 8), ('B', 1), ('C', 9)])
    );
}
