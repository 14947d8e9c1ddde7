use rpn_calc::arith::{checked_factorial, checked_pow, checked_product, checked_sum, save_div};
use rpn_calc::op::{parse_op, parse_push, parse_var_init, parse_var_ref, Op};
use rpn_calc::state::State;

fn top_after(line: &str) -> Option<isize> {
    let mut state = State::new();
    state.eval(line);
    state.peek().copied()
}

#[test]
fn exec() {
    let mut state = State::new();

    state.exec(Op::Push(3));
    state.exec(Op::Push(5));
    state.exec(Op::Add);
    assert_eq!(state.peek(), Some(&8));
}

#[test]
fn eval() {
    let mut state = State::new();

    state.eval("3 5 +");
    assert_eq!(state.peek(), Some(&8));
}

#[test]
fn variables() {
    let mut state = State::new();

    state.eval("3 =foo");
    assert_eq!(state.peek(), None);
    state.eval("$foo");
    assert_eq!(state.peek(), Some(&3));
}

#[test]
fn test_save_div() {
    assert_eq!(save_div(24, 2), Some(12));
    assert_eq!(save_div(24, 0), None);
}

#[test]
fn save_div_truncates_toward_zero() {
    assert_eq!(save_div(-7, 2), Some(-3));
    assert_eq!(save_div(7, -2), Some(-3));
    assert_eq!(save_div(-7, -2), Some(3));
    assert_eq!(save_div(isize::MIN, -1), None);
    assert_eq!(save_div(isize::MIN, 1), Some(isize::MIN));
}

#[test]
fn scenario_square() {
    assert_eq!(top_after("4 ^^"), Some(16));
}

#[test]
fn scenario_factorial() {
    assert_eq!(top_after("5 !"), Some(120));
}

#[test]
fn scenario_variable_twice() {
    assert_eq!(top_after("3 =x $x $x *"), Some(9));
}

#[test]
fn scenario_sum_all() {
    let mut state = State::new();
    state.eval("1 2 3 sum");
    assert_eq!(state.values(), vec![6]);
}

#[test]
fn scenario_clear() {
    let mut state = State::new();
    state.eval("1 2 3");
    state.eval("c");
    assert_eq!(state.peek(), None);
    assert_eq!(state.peek().copied().unwrap_or(0), 0);
}

#[test]
fn pushes_then_add() {
    let mut state = State::new();
    state.eval("7 -12 30 +");
    assert_eq!(state.values(), vec![7, 18]);
}

#[test]
fn divide_by_zero_gives_zero() {
    assert_eq!(top_after("5 0 /"), Some(0));
    assert_eq!(top_after("-7 2 /"), Some(-3));
}

#[test]
fn sum_and_product_of_nothing() {
    assert_eq!(top_after("sum"), Some(0));
    assert_eq!(top_after("prod"), Some(1));
    assert_eq!(top_after("2 3 4 prod"), Some(24));
}

#[test]
fn swap_twice_restores() {
    let mut state = State::new();
    state.eval("1 2 swap");
    assert_eq!(state.values(), vec![2, 1]);
    state.eval("swap");
    assert_eq!(state.values(), vec![1, 2]);
}

#[test]
fn add_underflow_is_absorbed() {
    let mut state = State::new();
    state.eval("+");
    assert_eq!(state.values(), Vec::<isize>::new());
    state.eval("4 +");
    assert_eq!(state.values(), vec![4]);
}

#[test]
fn other_operations() {
    assert_eq!(top_after("10 4 -"), Some(6));
    assert_eq!(top_after("2 10 ^"), Some(1024));
    assert_eq!(top_after("-3 3 ^"), Some(-27));
    assert_eq!(top_after("21 **"), Some(42));
    assert_eq!(top_after("5 inv"), Some(-5));
    assert_eq!(top_after("0 !"), Some(1));
}

#[test]
fn assignment_needs_a_value() {
    let mut state = State::new();
    state.eval("=x $x");
    assert_eq!(state.peek(), None);
    state.eval("1 =x 2 =x $x");
    assert_eq!(state.values(), vec![2]);
}

#[test]
fn overflow_leaves_stack_unchanged() {
    let mut state = State::new();
    state.eval("9223372036854775807 1 +");
    assert_eq!(state.values(), vec![isize::MAX, 1]);
    assert_eq!(top_after("21 !"), Some(21));
    assert_eq!(top_after("2 64 ^"), Some(64));
    assert_eq!(top_after("2 -1 ^"), Some(-1));
    assert_eq!(top_after("-3 !"), Some(-3));
}

#[test]
fn checked_helpers() {
    assert_eq!(checked_factorial(20), Some(2432902008176640000));
    assert_eq!(checked_factorial(21), None);
    assert_eq!(checked_pow(-2, 63), Some(isize::MIN));
    assert_eq!(checked_pow(2, 63), None);
    assert_eq!(checked_pow(-1, 7), Some(-1));
    assert_eq!(checked_pow(0, 0), Some(1));
    assert_eq!(checked_sum(&vec![isize::MAX, 1, -1]), Some(isize::MAX));
    assert_eq!(checked_sum(&vec![isize::MAX, 1]), None);
    assert_eq!(checked_product(&vec![isize::MAX, 4, 0]), Some(0));
    assert_eq!(checked_product(&vec![2, 1 << 62, -1]), Some(isize::MIN));
    assert_eq!(checked_product(&vec![1 << 40, 1 << 40]), None);
}

#[test]
fn token_classification() {
    assert!(matches!(Op::parse("swap"), Op::Swap));
    assert!(matches!(Op::parse("^^"), Op::Square));
    assert!(matches!(Op::parse("-"), Op::Sub));
    assert!(matches!(Op::parse("-42"), Op::Push(-42)));
    assert!(matches!(Op::parse("+5"), Op::Noop));
    assert!(matches!(Op::parse("99999999999999999999"), Op::Noop));
    assert!(matches!(Op::parse("-9223372036854775808"), Op::Push(isize::MIN)));
    assert!(matches!(Op::parse("x=foo"), Op::Noop));
    assert!(matches!(Op::parse("=1a"), Op::Noop));
    match Op::parse("=foo") {
        Op::VarInit(name) => assert_eq!(name, "foo"),
        _ => panic!("not an assignment"),
    }
    match Op::parse("$a1") {
        Op::VarRef(name) => assert_eq!(name, "a1"),
        _ => panic!("not a reference"),
    }
}

#[test]
fn parser_pieces() {
    assert!(matches!(parse_push("17"), Some(Op::Push(17))));
    assert!(parse_push("1x").is_none());
    assert!(matches!(parse_var_init("=ab"), Some(Op::VarInit(_))));
    assert!(parse_var_init("$ab").is_none());
    assert!(matches!(parse_var_ref("$ab"), Some(Op::VarRef(_))));
    assert!(matches!(parse_op("wat"), Op::Noop));
}

#[test]
fn whitespace_runs() {
    assert_eq!(top_after("  3\t\t5 \n +  "), Some(8));
    assert_eq!(top_after(""), None);
    assert_eq!(top_after("3\u{3000}4 *"), Some(12));
}

#[test]
fn preview_on_a_copy() {
    let mut state = State::new();
    state.eval("2 3");
    let mut preview = state.clone();
    preview.eval("+");
    assert_eq!(preview.values(), vec![5]);
    assert_eq!(state.values(), vec![2, 3]);
}
