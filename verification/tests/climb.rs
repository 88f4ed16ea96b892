use prec_climber::climber::ClimbError;
use prec_climber::climber::PrecClimber;
use prec_climber::climber::Token;
use prec_climber::operators::Assoc;
use prec_climber::operators::Operator;

const PRIMARY: u64 = 100;
const UNKNOWN: u64 = 99;
const PLUS: u64 = 1;
const MINUS: u64 = 2;
const TIMES: u64 = 3;
const DIVIDE: u64 = 4;
const CARET: u64 = 5;

fn tok(rule: u64, text: &str) -> Token<String> {
    Token { rule, payload: text.to_string() }
}

fn render(climber: &PrecClimber, toks: &Vec<Token<String>>) -> Result<(String, usize), ClimbError> {
    let primary = |t: &Token<String>| t.payload.clone();
    let infix = |l: String, op: &Token<String>, r: String| format!("({}{}{})", l, op.payload, r);
    climber.climb(toks, &primary, &infix)
}

#[test]
fn left_associative_groups_leftmost_first() {
    let climber = PrecClimber::new(vec![Operator::new(PLUS, Assoc::Left)]);
    let toks = vec![tok(PRIMARY, "a"), tok(PLUS, "+"), tok(PRIMARY, "b"), tok(PLUS, "+"), tok(PRIMARY, "c")];
    assert_eq!(render(&climber, &toks), Ok(("((a+b)+c)".to_string(), 5)));
}

#[test]
fn right_associative_groups_rightmost_first() {
    let climber = PrecClimber::new(vec![Operator::new(CARET, Assoc::Right)]);
    let toks = vec![tok(PRIMARY, "a"), tok(CARET, "^"), tok(PRIMARY, "b"), tok(CARET, "^"), tok(PRIMARY, "c")];
    assert_eq!(render(&climber, &toks), Ok(("(a^(b^c))".to_string(), 5)));
}

#[test]
fn higher_precedence_binds_tighter() {
    let climber = PrecClimber::new(vec![
        Operator::new(PLUS, Assoc::Left).group_with(Operator::new(MINUS, Assoc::Left)),
        Operator::new(TIMES, Assoc::Left).group_with(Operator::new(DIVIDE, Assoc::Left)),
    ]);
    let toks = vec![tok(PRIMARY, "a"), tok(PLUS, "+"), tok(PRIMARY, "b"), tok(TIMES, "*"), tok(PRIMARY, "c")];
    assert_eq!(render(&climber, &toks), Ok(("(a+(b*c))".to_string(), 5)));
}

#[test]
fn single_token_returns_primary_without_infix() {
    let climber = PrecClimber::new(vec![Operator::new(PLUS, Assoc::Left)]);
    let toks = vec![tok(PRIMARY, "a")];
    let primary = |t: &Token<String>| t.payload.clone();
    let infix = |_l: String, _op: &Token<String>, _r: String| -> String {
        panic!("infix must not be invoked for a single token")
    };
    assert_eq!(climber.climb(&toks, &primary, &infix), Ok(("a".to_string(), 1)));
}

#[test]
fn stops_in_front_of_a_rule_the_table_does_not_know() {
    let climber = PrecClimber::new(vec![Operator::new(PLUS, Assoc::Left)]);
    let toks = vec![
        tok(PRIMARY, "a"),
        tok(PLUS, "+"),
        tok(PRIMARY, "b"),
        tok(UNKNOWN, "?"),
        tok(PRIMARY, "c"),
    ];
    let out = render(&climber, &toks);
    assert_eq!(out, Ok(("(a+b)".to_string(), 3)));
    let (_, consumed) = out.unwrap();
    assert_eq!(toks[consumed].rule, UNKNOWN);
    assert_eq!(toks.len() - consumed, 2);
}

#[test]
fn empty_input_is_fatal() {
    let climber = PrecClimber::new(vec![Operator::new(PLUS, Assoc::Left)]);
    let toks: Vec<Token<String>> = vec![];
    assert_eq!(render(&climber, &toks), Err(ClimbError::EmptyInput));
}

#[test]
fn trailing_operator_without_operand_is_fatal() {
    let climber = PrecClimber::new(vec![Operator::new(PLUS, Assoc::Left)]);
    let toks = vec![tok(PRIMARY, "a"), tok(PLUS, "+")];
    assert_eq!(render(&climber, &toks), Err(ClimbError::MissingRhs));
}

#[test]
fn chained_operators_share_one_precedence_level() {
    let climber = PrecClimber::new(vec![
        Operator::new(PLUS, Assoc::Left).group_with(Operator::new(MINUS, Assoc::Left)),
        Operator::new(TIMES, Assoc::Left),
    ]);
    let toks = vec![
        tok(PRIMARY, "a"),
        tok(MINUS, "-"),
        tok(PRIMARY, "b"),
        tok(PLUS, "+"),
        tok(PRIMARY, "c"),
        tok(TIMES, "*"),
        tok(PRIMARY, "d"),
    ];
    assert_eq!(render(&climber, &toks), Ok(("((a-b)+(c*d))".to_string(), 7)));
}

#[test]
fn duplicate_rule_keeps_the_later_group() {
    // CARET is declared at precedence 1 and declared again at precedence 2:
    // the later declaration wins, so it binds tighter than PLUS.
    let climber = PrecClimber::new(vec![
        Operator::new(PLUS, Assoc::Left).group_with(Operator::new(CARET, Assoc::Left)),
        Operator::new(CARET, Assoc::Left),
    ]);
    let toks = vec![tok(PRIMARY, "a"), tok(PLUS, "+"), tok(PRIMARY, "b"), tok(CARET, "^"), tok(PRIMARY, "c")];
    assert_eq!(render(&climber, &toks), Ok(("(a+(b^c))".to_string(), 5)));
}

#[test]
fn equal_precedence_tie_follows_current_operator() {
    // PLUS is left-associative, CARET right-associative, both at precedence 1.
    let climber = PrecClimber::new(vec![
        Operator::new(PLUS, Assoc::Left).group_with(Operator::new(CARET, Assoc::Right)),
    ]);
    let right_first = vec![
        tok(PRIMARY, "a"),
        tok(CARET, "^"),
        tok(PRIMARY, "b"),
        tok(PLUS, "+"),
        tok(PRIMARY, "c"),
    ];
    assert_eq!(render(&climber, &right_first), Ok(("(a^(b+c))".to_string(), 5)));
    let left_first = vec![
        tok(PRIMARY, "a"),
        tok(PLUS, "+"),
        tok(PRIMARY, "b"),
        tok(CARET, "^"),
        tok(PRIMARY, "c"),
    ];
    assert_eq!(render(&climber, &left_first), Ok(("((a+b)^c)".to_string(), 5)));
}

#[test]
fn lookup_reports_each_declared_operator() {
    let climber = PrecClimber::new(vec![
        Operator::new(PLUS, Assoc::Left).group_with(Operator::new(MINUS, Assoc::Left)),
        Operator::new(CARET, Assoc::Right),
    ]);
    assert_eq!(climber.lookup(PLUS), Some((1, Assoc::Left)));
    assert_eq!(climber.lookup(MINUS), Some((1, Assoc::Left)));
    assert_eq!(climber.lookup(CARET), Some((2, Assoc::Right)));
    assert_eq!(climber.lookup(UNKNOWN), None);
    assert_eq!(climber.lookup(PRIMARY), None);
}

#[test]
fn arithmetic_evaluates_with_precedence_and_associativity() {
    let climber = PrecClimber::new(vec![
        Operator::new(PLUS, Assoc::Left).group_with(Operator::new(MINUS, Assoc::Left)),
        Operator::new(TIMES, Assoc::Left).group_with(Operator::new(DIVIDE, Assoc::Left)),
        Operator::new(CARET, Assoc::Right),
    ]);
    let num = |n: i64| Token { rule: PRIMARY, payload: n };
    let op = |rule: u64| Token { rule, payload: 0i64 };
    let primary = |t: &Token<i64>| t.payload;
    let infix = |l: i64, o: &Token<i64>, r: i64| match o.rule {
        PLUS => l + r,
        MINUS => l - r,
        TIMES => l * r,
        DIVIDE => l / r,
        CARET => l.pow(r as u32),
        _ => unreachable!(),
    };
    // 2 + 3 * 4 ^ 2 = 2 + (3 * (4 ^ 2)) = 50
    let toks = vec![num(2), op(PLUS), num(3), op(TIMES), num(4), op(CARET), num(2)];
    assert_eq!(climber.climb(&toks, &primary, &infix), Ok((50, 7)));
    // 2 ^ 3 ^ 2 = 2 ^ (3 ^ 2) = 512
    let toks = vec![num(2), op(CARET), num(3), op(CARET), num(2)];
    assert_eq!(climber.climb(&toks, &primary, &infix), Ok((512, 5)));
    // 7 - 2 - 1 = (7 - 2) - 1 = 4
    let toks = vec![num(7), op(MINUS), num(2), op(MINUS), num(1)];
    assert_eq!(climber.climb(&toks, &primary, &infix), Ok((4, 5)));
}
