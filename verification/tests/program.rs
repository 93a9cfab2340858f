use nim::host::{Reply, Request};
use nim::lexer::LexError;
use nim::parser::ParseError;
use nim::program::{execute, split_statements};
use nim::semantics::{EvalError, Failure};
use nim::value::{Environment, Value};
use std::cell::RefCell;

fn shown(value: &Value) -> String {
    match value {
        Value::Number(bits) => format!("{}", f64::from_bits(*bits)),
        Value::String(text) => text.clone(),
        Value::Array(items) => {
            let inner: Vec<String> = items.iter().map(shown).collect();
            format!("[{}]", inner.join(", "))
        }
    }
}

fn answer(output: &RefCell<String>, request: Request) -> Reply {
    match request {
        Request::Arithmetic { op, left, right } => {
            let a = f64::from_bits(left);
            let b = f64::from_bits(right);
            let result = match op {
                '+' => a + b,
                '-' => a - b,
                '*' => a * b,
                '/' => a / b,
                _ => a.powf(b),
            };
            Reply::Number(result.to_bits())
        }
        Request::ReadNumber(text) => match text.parse::<f64>() {
            Ok(x) => Reply::Number(x.to_bits()),
            Err(_) => Reply::Nothing,
        },
        Request::ReadLine => Reply::Text("line\n".to_string()),
        Request::PrintItem(value) => {
            let text = format!("{} ", shown(&value));
            output.borrow_mut().push_str(&text);
            Reply::Nothing
        }
        Request::PrintEnd => {
            output.borrow_mut().push('\n');
            Reply::Nothing
        }
        Request::Show(value) => {
            let text = format!("{}\n", shown(&value));
            output.borrow_mut().push_str(&text);
            Reply::Nothing
        }
    }
}

fn executed(program: &str) -> (Environment, String, Result<(), Failure>) {
    let output = RefCell::new(String::new());
    let host = |request: Request| answer(&output, request);
    let mut variables = Environment::new();
    let result = execute(program, &mut variables, &host);
    let written = output.borrow().clone();
    (variables, written, result)
}

fn output_of(program: &str) -> String {
    let (_, output, result) = executed(program);
    assert_eq!(result, Ok(()));
    output
}

fn num(x: f64) -> Value {
    Value::Number(x.to_bits())
}

#[test]
fn statements_are_cut_after_each_terminator() {
    assert_eq!(split_statements("a = 1; b = 2;"), vec!["a = 1;", "b = 2;"]);
    assert_eq!(split_statements("a = [1, 2, 3]; a[1]"), vec!["a = [1, 2, 3];", "a[1]"]);
    assert_eq!(split_statements("x"), vec!["x"]);
    assert_eq!(split_statements("x;"), vec!["x;"]);
}

#[test]
fn statements_lose_the_white_space_at_their_ends() {
    assert_eq!(split_statements("  a = 1 ;\n\n\tb ;\r\n c  \n"), vec!["a = 1 ;", "b ;", "c"]);
}

#[test]
fn empty_pieces_are_dropped() {
    assert_eq!(split_statements(""), Vec::<String>::new());
    assert_eq!(split_statements("  \n\t "), Vec::<String>::new());
    assert_eq!(split_statements("a;   "), vec!["a;"]);
    assert_eq!(split_statements("a;\n\n"), vec!["a;"]);
}

#[test]
fn a_terminator_alone_is_a_statement() {
    assert_eq!(split_statements(";"), vec![";"]);
    assert_eq!(split_statements("a;;b"), vec!["a;", ";", "b"]);
    assert_eq!(split_statements(" ; ; "), vec![";", ";"]);
}

#[test]
fn a_terminator_cuts_within_strings_and_comments() {
    assert_eq!(split_statements("s = \"a;b\";"), vec!["s = \"a;", "b\";"]);
    assert_eq!(split_statements("x // one; two\n"), vec!["x // one;", "two"]);
}

#[test]
fn sum_and_product() {
    assert_eq!(output_of("2 + 3 * 4"), "14\n");
}

#[test]
fn item_of_an_array() {
    assert_eq!(output_of("a = [1, 2, 3]; a[1]"), "2\n");
}

#[test]
fn item_beyond_an_array() {
    assert_eq!(output_of("a = [1, 2, 3]; a[9]"), "NaN\n");
}

#[test]
fn print_with_three_arguments() {
    assert!(output_of("print(\"hi\", 1, 2)").starts_with("hi 1 2 \n"));
    assert_eq!(output_of("print(\"hi\", 1, 2);"), "hi 1 2 \n");
}

#[test]
fn two_to_the_tenth() {
    assert_eq!(output_of("2 ^ 10"), "1024\n");
}

#[test]
fn one_over_zero() {
    assert_eq!(output_of("y = 1 / 0"), "inf\n");
}

#[test]
fn statements_share_one_environment() {
    let (variables, output, result) = executed("x = 2;\ny = x * 21;\nprint(\"y is\", y);\ny + 0.5");
    assert_eq!(result, Ok(()));
    assert_eq!(output, "y is 42 \n42.5\n");
    assert_eq!(variables.get("x"), Some(&num(2.0)));
    assert_eq!(variables.get("y"), Some(&num(42.0)));
    assert_eq!(variables.get("_tnum_"), Some(&num(0.0)));
}

#[test]
fn the_first_failure_ends_the_program() {
    let (variables, output, result) = executed("x = 1; print(x); y; x = 2; print(x);");
    assert_eq!(result, Err(Failure::Eval(EvalError::UndefinedVariable("y".to_string()))));
    assert_eq!(output, "1 \n");
    assert_eq!(variables.get("x"), Some(&num(1.0)));
}

#[test]
fn failures_of_every_stage() {
    assert_eq!(executed("1; 2 $ 3; 4").2, Err(Failure::Lex(LexError::UnexpectedCharacter('$'))));
    assert_eq!(executed("1;;").2, Err(Failure::Parse(ParseError::ExpectedOperand)));
    assert_eq!(executed("1 + \"a\"").2, Err(Failure::Eval(EvalError::NonNumericOperand)));
}

#[test]
fn the_empty_program_does_nothing() {
    let (variables, output, result) = executed(" \n ");
    assert_eq!(result, Ok(()));
    assert_eq!(output, "");
    assert_eq!(variables.get("_tnum_"), None);
}

#[test]
fn input_is_read_where_the_program_asks() {
    let (variables, output, result) = executed("x = write(); x");
    assert_eq!(result, Ok(()));
    assert_eq!(output, "line\n");
    assert_eq!(variables.get("x"), Some(&Value::String("line".to_string())));
}
