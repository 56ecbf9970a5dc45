use minilang::interpreter::eval_expr;
use minilang::lexer::lex;
use minilang::nodes::func::FuncTable;
use minilang::nodes::value::Value;
use minilang::parsers::funcs::parse;
use minilang::span::Span;
use minilang::tokens::strip_comments;
use minilang::Error;

fn parse_src(src: &str) -> (Option<FuncTable>, Vec<Error>) {
    let (toks, lex_errs) = lex(src);
    assert!(lex_errs.is_empty(), "lex errors: {:?}", lex_errs);
    let toks = strip_comments(toks.unwrap());
    let len = src.chars().count();
    parse(&toks, Span::new(len, len + 1))
}

fn run(src: &str) -> Result<Value, Error> {
    run_with_fuel(src, 100)
}

fn run_with_fuel(src: &str, fuel: u64) -> Result<Value, Error> {
    let (table, parse_errs) = parse_src(src);
    assert!(parse_errs.is_empty(), "parse errors: {:?}", parse_errs);
    let table = table.expect("function table");
    let main = table.get("main").expect("main function");
    assert_eq!(main.args.len(), 0);
    let mut stack: Vec<(String, Value)> = Vec::new();
    eval_expr(&main.body, &table, &mut stack, fuel)
}

// Subtraction is left-associative: 10 - 3 - 2 is (10 - 3) - 2.
#[test]
fn left_associativity() {
    assert_eq!(run("fn main() { return 10 - 3 - 2; }"), Ok(Value::I32(5)));
}

// The inner binding shadows the outer one while it is in scope.
#[test]
fn shadowing_inner_wins() {
    assert_eq!(
        run("fn main() { var x = 1; var x = 2; return x; }"),
        Ok(Value::I32(2))
    );
}

// After the inner binding's scope ends, the outer binding is restored.
#[test]
fn shadowing_outer_restored() {
    assert_eq!(
        run("fn main() { var x = 1; (var x = 2; x); return x; }"),
        Ok(Value::I32(1))
    );
}

// Calling a zero-parameter function with one argument fails with an error
// citing the call's argument-list span.
#[test]
fn arity_mismatch() {
    let src = "fn f() { 1 } fn main() { return f(1); }";
    let (table, errs) = parse_src(src);
    assert!(errs.is_empty());
    let table = table.unwrap();
    let main = table.get("main").unwrap();
    let mut stack: Vec<(String, Value)> = Vec::new();
    let e = eval_expr(&main.body, &table, &mut stack, 100).unwrap_err();
    let p = src.find("(1)").unwrap();
    assert_eq!(e.span, Span::new(p, p + 3));
    assert!(e.msg.contains("wrong number of arguments"), "{}", e.msg);
}

// A program defining the same function name twice fails to parse, citing the
// span of the second name.
#[test]
fn duplicate_function_names() {
    let src = "fn f() { 1 } fn f() { 1 }";
    let (table, errs) = parse_src(src);
    assert!(table.is_none());
    let second = src.rfind("f()").unwrap();
    assert!(errs
        .iter()
        .any(|e| e.span == Span::new(second, second + 1) && e.msg.contains("already exists")));
}

#[test]
fn end_to_end_conditional() {
    assert_eq!(
        run("fn main() { var a = 3; var b = 4; if a < b { return a + b; } else { return 0; } }"),
        Ok(Value::I32(7))
    );
}

#[test]
fn end_to_end_division_by_zero() {
    let src = "fn main() { return 10 / 0; }";
    let e = run(src).unwrap_err();
    assert_eq!(e.msg, "division by zero");
    let z = src.find("0;").unwrap();
    assert_eq!(e.span, Span::new(z, z + 1));
}

// A malformed parenthesized expression in one function still leaves the other
// function usable: the parse reports errors for the first and the table holds
// a working entry for the second.
#[test]
fn recovery_keeps_later_functions() {
    let src = "fn bad() { (1 +) } fn good() { return 2; }";
    let (table, errs) = parse_src(src);
    assert!(!errs.is_empty());
    let table = table.expect("table despite recovered errors");
    assert_eq!(table.len(), 2);
    let good = table.get("good").expect("good function");
    let mut stack: Vec<(String, Value)> = Vec::new();
    assert_eq!(
        eval_expr(&good.body, &table, &mut stack, 100),
        Ok(Value::I32(2))
    );
    assert!(table.get("bad").is_some());
}

// `return` yields its value but does not unwind enclosing sequencing: the
// documented quirk means a later sequenced expression still evaluates.
#[test]
fn return_does_not_unwind() {
    assert_eq!(run("fn main() { return 1; return 2; }"), Ok(Value::I32(2)));
}

#[test]
fn user_functions_and_calls() {
    assert_eq!(
        run("fn add2(a, b) { return a + b; } fn main() { return add2(3, 4); }"),
        Ok(Value::I32(7))
    );
}

// Callee bodies cannot see caller locals: scoping is call-local, not
// closure-like.
#[test]
fn no_closures() {
    let e = run("fn g() { return x; } fn main() { var x = 1; return g(); }").unwrap_err();
    assert!(e.msg.contains("No such variable 'x' in scope"), "{}", e.msg);
}

#[test]
fn unbound_variable() {
    let e = run("fn main() { return y; }").unwrap_err();
    assert!(e.msg.contains("No such variable 'y' in scope"), "{}", e.msg);
}

#[test]
fn not_callable() {
    let src = "fn main() { return 1(2); }";
    let e = run(src).unwrap_err();
    assert_eq!(e.msg, "is not callable");
    let p = src.find("1(").unwrap();
    assert_eq!(e.span, Span::new(p, p + 1));
}

#[test]
fn condition_must_be_boolean() {
    let e = run("fn main() { if 1 { return 1; } else { return 2; } }").unwrap_err();
    assert_eq!(e.msg, "conditions must be booleans");
}

#[test]
fn arithmetic_needs_numbers() {
    let e = run("fn main() { return (1 == 1) + 2; }").unwrap_err();
    assert_eq!(e.msg, "is not a number");
}

#[test]
fn logic_needs_booleans() {
    let e = run("fn main() { return 1 && 2; }").unwrap_err();
    assert_eq!(e.msg, "is not a bool");
}

#[test]
fn comparisons_and_logic() {
    assert_eq!(
        run("fn main() { return (1 == 1) && (2 < 3); }"),
        Ok(Value::Bool(true))
    );
    assert_eq!(run("fn main() { return 1 != 2; }"), Ok(Value::Bool(true)));
    assert_eq!(run("fn main() { return 2 >= 3; }"), Ok(Value::Bool(false)));
}

// `&&` short-circuits: a false left operand means the right operand is never
// evaluated, so its division by zero cannot fail.
#[test]
fn and_short_circuits() {
    assert_eq!(
        run("fn main() { return (1 == 2) && (1 / 0 == 0); }"),
        Ok(Value::Bool(false))
    );
}

#[test]
fn modulo() {
    assert_eq!(run("fn main() { return 7 % 3; }"), Ok(Value::I32(1)));
    let e = run("fn main() { return 7 % 0; }").unwrap_err();
    assert_eq!(e.msg, "division by zero");
}

// Addition wraps around at the 32-bit boundary.
#[test]
fn addition_wraps() {
    assert_eq!(
        run("fn main() { return 2147483647 + 1; }"),
        Ok(Value::I32(i32::MIN))
    );
}

#[test]
fn print_builtin_yields_null() {
    assert_eq!(run("fn main() { return print(1, 2); }"), Ok(Value::Null));
    assert_eq!(
        run("fn main() { return print; }"),
        Ok(Value::Func("print".to_string()))
    );
}

#[test]
fn recursion_limit() {
    let e = run_with_fuel("fn main() { return main(); }", 5).unwrap_err();
    assert_eq!(e.msg, "recursion limit reached");
}

#[test]
fn comments_are_stripped_before_parsing() {
    assert_eq!(
        run("fn main() { // a comment\n return 1; }"),
        Ok(Value::I32(1))
    );
}

#[test]
fn number_literal_out_of_range() {
    let (table, errs) = parse_src("fn main() { return 99999999999; }");
    assert!(errs.iter().any(|e| e.msg == "invalid number literal"));
    // recovery still yields a table entry, with a placeholder body
    assert!(table.is_some());
}

#[test]
fn unclosed_delimiter() {
    let (table, errs) = parse_src("fn f() { (1 ");
    assert!(table.is_none());
    assert!(errs.iter().any(|e| e.msg == "unclosed delimiter"));
}

#[test]
fn empty_argument_list_and_trailing_comma() {
    assert_eq!(
        run("fn f(a,) { return a; } fn main() { return f(9,); }"),
        Ok(Value::I32(9))
    );
}

#[test]
fn chained_calls() {
    // a function reference returned by value is callable in turn
    assert_eq!(
        run("fn one() { return 1; } fn pick() { return one; } fn main() { return pick()(); }"),
        Ok(Value::I32(1))
    );
}

#[test]
fn if_without_else_yields_null() {
    assert_eq!(
        run("fn main() { return if 1 == 2 { 3 }; }"),
        Ok(Value::Null)
    );
}

#[test]
fn leftover_tokens_are_unexpected() {
    let (table, errs) = parse_src("fn f() { 1 } stray");
    assert!(table.is_none());
    assert!(errs.iter().any(|e| e.msg == "unexpected token"));
}

#[test]
fn truncated_header_reports_end_of_input() {
    let (table, errs) = parse_src("fn f(");
    assert!(table.is_none());
    assert!(errs.iter().any(|e| e.msg == "unexpected end of input"));
}
