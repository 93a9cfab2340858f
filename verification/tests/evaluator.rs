use nim::host::{Reply, Request};
use nim::interpreter::{evaluate, interpret};
use nim::lexer::{tokenize, LexError};
use nim::parser::{parse, Expr, ParseError};
use nim::semantics::{EvalError, Failure};
use nim::value::{Environment, Value};
use std::cell::RefCell;

struct Console {
    lines: Vec<String>,
    output: String,
    events: Vec<String>,
}

fn console(lines: &[&str]) -> RefCell<Console> {
    let mut lines: Vec<String> = lines.iter().map(|l| l.to_string()).collect();
    lines.reverse();
    RefCell::new(Console { lines, output: String::new(), events: Vec::new() })
}

fn debug(value: &Value) -> String {
    match value {
        Value::Number(bits) => format!("Number({:?})", f64::from_bits(*bits)),
        Value::String(text) => format!("String({:?})", text),
        Value::Array(items) => {
            let inner: Vec<String> = items.iter().map(debug).collect();
            format!("Array([{}])", inner.join(", "))
        }
    }
}

fn display(value: &Value) -> String {
    match value {
        Value::Number(bits) => format!("{}", f64::from_bits(*bits)),
        Value::String(text) => text.clone(),
        Value::Array(items) => {
            let inner: Vec<String> = items.iter().map(debug).collect();
            format!("[{}]", inner.join(", "))
        }
    }
}

fn serve(console: &RefCell<Console>, request: Request) -> Reply {
    let mut console = console.borrow_mut();
    match request {
        Request::Arithmetic { op, left, right } => {
            console.events.push(format!("compute {}", op));
            let a = f64::from_bits(left);
            let b = f64::from_bits(right);
            let result = match op {
                '+' => a + b,
                '-' => a - b,
                '*' => a * b,
                '/' => a / b,
                _ => a.powf(b),
            };
            Reply::Number(result.to_bits())
        }
        Request::ReadNumber(text) => {
            console.events.push(format!("number {}", text));
            match text.parse::<f64>() {
                Ok(x) => Reply::Number(x.to_bits()),
                Err(_) => Reply::Nothing,
            }
        }
        Request::ReadLine => {
            console.events.push("line".to_string());
            Reply::Text(console.lines.pop().unwrap_or_default())
        }
        Request::PrintItem(value) => {
            console.events.push("item".to_string());
            let text = format!("{} ", display(&value));
            console.output.push_str(&text);
            Reply::Nothing
        }
        Request::PrintEnd => {
            console.events.push("end".to_string());
            console.output.push('\n');
            Reply::Nothing
        }
        Request::Show(value) => {
            console.events.push("show".to_string());
            let text = format!("{}\n", display(&value));
            console.output.push_str(&text);
            Reply::Nothing
        }
    }
}

fn run_with(statements: &[&str], lines: &[&str]) -> (Environment, String, Result<(), Failure>) {
    let console = console(lines);
    let host = |request: Request| serve(&console, request);
    let mut variables = Environment::new();
    let mut last = Ok(());
    for statement in statements {
        last = interpret(statement, &mut variables, &host);
        if last.is_err() {
            break;
        }
    }
    let output = console.borrow().output.clone();
    (variables, output, last)
}

fn run(statements: &[&str]) -> (Environment, String, Result<(), Failure>) {
    run_with(statements, &[])
}

fn printed(statements: &[&str]) -> String {
    let (_, output, result) = run(statements);
    assert_eq!(result, Ok(()));
    output
}

fn failure(statements: &[&str]) -> Failure {
    run(statements).2.unwrap_err()
}

fn value_of(text: &str, variables: &mut Environment) -> Result<Value, EvalError> {
    let console = console(&[]);
    let host = |request: Request| serve(&console, request);
    let expr = parse(&tokenize(text).unwrap()).unwrap();
    evaluate(&expr, variables, &host)
}

fn num(x: f64) -> Value {
    Value::Number(x.to_bits())
}

fn text(s: &str) -> Value {
    Value::String(s.to_string())
}

#[test]
fn product_before_sum() {
    assert_eq!(printed(&["2 + 3 * 4"]), "14\n");
}

#[test]
fn index_within_the_array() {
    assert_eq!(printed(&["a = [1, 2, 3];", "a[1]"]), "2\n");
}

#[test]
fn index_beyond_the_array() {
    assert_eq!(printed(&["a = [1, 2, 3];", "a[9]"]), "NaN\n");
}

#[test]
fn print_writes_each_argument_and_a_space() {
    let output = printed(&["print(\"hi\", 1, 2);"]);
    assert_eq!(output, "hi 1 2 \n");
    let output = printed(&["print(\"hi\", 1, 2)"]);
    assert_eq!(output, "hi 1 2 \n0\n");
}

#[test]
fn power() {
    assert_eq!(printed(&["2 ^ 10"]), "1024\n");
}

#[test]
fn division_by_zero_is_infinite() {
    let (variables, output, result) = run(&["y = 1 / 0"]);
    assert_eq!(result, Ok(()));
    assert_eq!(output, "inf\n");
    assert_eq!(variables.get("y"), Some(&num(f64::INFINITY)));
}

#[test]
fn arithmetic_is_that_of_doubles() {
    assert_eq!(printed(&["1 - 2 - 3"]), "-4\n");
    assert_eq!(printed(&["8 / 4 / 2"]), "1\n");
    assert_eq!(printed(&["2 * 3 ^ 2"]), "36\n");
    assert_eq!(printed(&["1 / 3"]), format!("{}\n", 1.0f64 / 3.0));
    assert_eq!(printed(&["0.1 + 0.2"]), format!("{}\n", 0.1f64 + 0.2));
    assert_eq!(printed(&["1.5 + 2"]), "3.5\n");
    assert_eq!(printed(&["2 ^ 0.5"]), format!("{}\n", 2.0f64.powf(0.5)));
    assert_eq!(printed(&["10 - 2 * 3 + 4 / 2"]), "6\n");
}

#[test]
fn an_integer_literal_is_the_number_it_writes() {
    let mut variables = Environment::new();
    assert_eq!(value_of("5", &mut variables), Ok(num(5.0)));
    assert_eq!(value_of("0", &mut variables), Ok(num(0.0)));
    assert_eq!(value_of("9007199254740992", &mut variables), Ok(num(9007199254740992.0)));
    assert_eq!(value_of("123456789", &mut variables), Ok(num(123456789.0)));
}

#[test]
fn assignment_binds_and_has_the_value() {
    let mut variables = Environment::new();
    assert_eq!(value_of("x = 5", &mut variables), Ok(num(5.0)));
    assert_eq!(variables.get("x"), Some(&num(5.0)));
    assert_eq!(value_of("x = \"now text\"", &mut variables), Ok(text("now text")));
    assert_eq!(variables.get("x"), Some(&text("now text")));
    assert_eq!(variables.get("y"), None);
    assert!(variables.contains_key("x"));
    assert!(!variables.contains_key("X"));
}

#[test]
fn a_terminator_keeps_the_value_and_shows_nothing() {
    let (variables, output, result) = run(&["x = 5;"]);
    assert_eq!(result, Ok(()));
    assert_eq!(output, "");
    assert_eq!(variables.get("x"), Some(&num(5.0)));
    assert_eq!(variables.get("_tnum_"), Some(&num(5.0)));
    assert_eq!(variables.get("_tstr_"), None);
    assert_eq!(variables.get("_tarr_"), None);
}

#[test]
fn without_a_terminator_the_value_is_shown_and_not_kept() {
    let (variables, output, result) = run(&["x = 5"]);
    assert_eq!(result, Ok(()));
    assert_eq!(output, "5\n");
    assert_eq!(variables.get("x"), Some(&num(5.0)));
    assert_eq!(variables.get("_tnum_"), None);
}

#[test]
fn the_last_value_is_kept_by_its_kind() {
    let (variables, output, _) = run(&["1;", "\"s\";", "[1, \"a\"];", "2;"]);
    assert_eq!(output, "");
    assert_eq!(variables.get("_tnum_"), Some(&num(2.0)));
    assert_eq!(variables.get("_tstr_"), Some(&text("s")));
    assert_eq!(variables.get("_tarr_"), Some(&Value::Array(vec![num(1.0), text("a")])));
}

#[test]
fn the_kept_value_can_be_read() {
    assert_eq!(printed(&["7 * 6;", "_tnum_ + 1"]), "43\n");
}

#[test]
fn values_are_shown_by_their_kind() {
    assert_eq!(printed(&["\"hi\""]), "hi\n");
    assert_eq!(printed(&["[1, \"a\", [2.5]]"]), "[Number(1.0), String(\"a\"), Array([Number(2.5)])]\n");
    assert_eq!(printed(&["[]"]), "[]\n");
}

#[test]
fn the_index_is_truncated_toward_zero() {
    let a = "a = [10, 20, 30];";
    assert_eq!(printed(&[a, "a[0]"]), "10\n");
    assert_eq!(printed(&[a, "a[2]"]), "30\n");
    assert_eq!(printed(&[a, "a[1.9]"]), "20\n");
    assert_eq!(printed(&[a, "a[0.5]"]), "10\n");
    assert_eq!(printed(&[a, "a[0 - 0.5]"]), "10\n");
    assert_eq!(printed(&[a, "a[3]"]), "NaN\n");
    assert_eq!(printed(&[a, "a[0 - 1]"]), "NaN\n");
    assert_eq!(printed(&[a, "a[0 / 0]"]), "NaN\n");
    assert_eq!(printed(&[a, "a[1 / 0]"]), "NaN\n");
    assert_eq!(printed(&[a, "a[2 ^ 70]"]), "NaN\n");
    assert_eq!(printed(&["e = [];", "e[0]"]), "NaN\n");
}

#[test]
fn arrays_nest_and_mix_kinds() {
    let mut variables = Environment::new();
    assert_eq!(
        value_of("a = [1, \"two\", [3, [4]]]", &mut variables),
        Ok(Value::Array(vec![
            num(1.0),
            text("two"),
            Value::Array(vec![num(3.0), Value::Array(vec![num(4.0)])]),
        ]))
    );
    assert_eq!(
        value_of("a[2]", &mut variables),
        Ok(Value::Array(vec![num(3.0), Value::Array(vec![num(4.0)])]))
    );
    assert_eq!(value_of("a[1]", &mut variables), Ok(text("two")));
}

#[test]
fn items_are_evaluated_from_left_to_right() {
    let console = console(&[]);
    let host = |request: Request| serve(&console, request);
    let mut variables = Environment::new();
    let first = Expr::Assignment { name: "x".to_string(), value: Box::new(Expr::Number(1.0f64.to_bits())) };
    let second = Expr::BinaryOp {
        left: Box::new(Expr::Variable("x".to_string())),
        op: '+',
        right: Box::new(Expr::Number(1.0f64.to_bits())),
    };
    let expr = Expr::Array(vec![first, second]);
    assert_eq!(evaluate(&expr, &mut variables, &host), Ok(Value::Array(vec![num(1.0), num(2.0)])));
}

#[test]
fn an_error_leaves_what_was_done_before_it() {
    let console = console(&[]);
    let host = |request: Request| serve(&console, request);
    let mut variables = Environment::new();
    let first = Expr::Assignment { name: "x".to_string(), value: Box::new(Expr::Number(1.0f64.to_bits())) };
    let expr = Expr::Array(vec![first, Expr::Variable("y".to_string())]);
    assert_eq!(
        evaluate(&expr, &mut variables, &host),
        Err(EvalError::UndefinedVariable("y".to_string()))
    );
    assert_eq!(variables.get("x"), Some(&num(1.0)));
}

#[test]
fn undefined_variable() {
    assert_eq!(failure(&["y"]), Failure::Eval(EvalError::UndefinedVariable("y".to_string())));
    assert_eq!(
        failure(&["x = 1;", "x + z"]),
        Failure::Eval(EvalError::UndefinedVariable("z".to_string()))
    );
}

#[test]
fn index_of_what_is_no_array() {
    assert_eq!(failure(&["x = 5;", "x[0]"]), Failure::Eval(EvalError::NotAnArray));
    assert_eq!(failure(&["s = \"abc\";", "s[0]"]), Failure::Eval(EvalError::NotAnArray));
}

#[test]
fn index_that_is_no_number() {
    assert_eq!(failure(&["a = [1];", "a[\"0\"]"]), Failure::Eval(EvalError::IndexNotANumber));
    assert_eq!(failure(&["a = [1];", "a[a]"]), Failure::Eval(EvalError::IndexNotANumber));
}

#[test]
fn operand_that_is_no_number() {
    assert_eq!(failure(&["\"a\" + 1"]), Failure::Eval(EvalError::NonNumericOperand));
    assert_eq!(failure(&["1 + \"a\""]), Failure::Eval(EvalError::NonNumericOperand));
    assert_eq!(failure(&["[1] * 2"]), Failure::Eval(EvalError::NonNumericOperand));
}

#[test]
fn operator_that_is_none() {
    let console = console(&[]);
    let host = |request: Request| serve(&console, request);
    let mut variables = Environment::new();
    let expr = Expr::BinaryOp {
        left: Box::new(Expr::Number(1.0f64.to_bits())),
        op: '%',
        right: Box::new(Expr::Number(2.0f64.to_bits())),
    };
    assert_eq!(evaluate(&expr, &mut variables, &host), Err(EvalError::UnsupportedOperator('%')));
    assert!(console.borrow().events.is_empty());
}

#[test]
fn operands_are_checked_before_the_operator() {
    let console = console(&[]);
    let host = |request: Request| serve(&console, request);
    let mut variables = Environment::new();
    let expr = Expr::BinaryOp {
        left: Box::new(Expr::String("a".to_string())),
        op: '%',
        right: Box::new(Expr::Number(2.0f64.to_bits())),
    };
    assert_eq!(evaluate(&expr, &mut variables, &host), Err(EvalError::NonNumericOperand));
}

#[test]
fn print_of_an_array() {
    let (_, output, result) = run(&["print(1, [2], 3)"]);
    assert_eq!(result, Err(Failure::Eval(EvalError::UnprintableArgument)));
    assert_eq!(output, "1 ");
}

#[test]
fn print_has_the_value_zero() {
    let (variables, output, result) = run(&["x = print(\"a\");"]);
    assert_eq!(result, Ok(()));
    assert_eq!(output, "a \n");
    assert_eq!(variables.get("x"), Some(&num(0.0)));
    assert_eq!(printed(&["print()"]), "\n0\n");
}

#[test]
fn write_takes_no_argument() {
    assert_eq!(failure(&["write(1)"]), Failure::Eval(EvalError::UnexpectedArguments));
}

#[test]
fn write_reads_a_number_or_a_text() {
    let (variables, output, result) = run_with(&["x = write();", "y = write();", "z = write()"], &[
        "  42.5 \n",
        "\thello world \r\n",
        "1e3\n",
    ]);
    assert_eq!(result, Ok(()));
    assert_eq!(variables.get("x"), Some(&num(42.5)));
    assert_eq!(variables.get("y"), Some(&text("hello world")));
    assert_eq!(variables.get("z"), Some(&num(1000.0)));
    assert_eq!(output, "1000\n");
}

#[test]
fn write_at_the_end_of_input_reads_an_empty_text() {
    let (variables, _, result) = run_with(&["x = write();"], &[]);
    assert_eq!(result, Ok(()));
    assert_eq!(variables.get("x"), Some(&text("")));
}

#[test]
fn print_writes_before_a_later_argument_reads() {
    let console = console(&["7\n"]);
    let host = |request: Request| serve(&console, request);
    let mut variables = Environment::new();
    assert_eq!(interpret("print(\"n?\", write());", &mut variables, &host), Ok(()));
    assert_eq!(console.borrow().output, "n? 7 \n");
    assert_eq!(console.borrow().events, vec!["item", "line", "number 7", "item", "end"]);
}

#[test]
fn the_host_is_asked_operands_first() {
    let console = console(&[]);
    let host = |request: Request| serve(&console, request);
    let mut variables = Environment::new();
    assert_eq!(interpret("1.5 + 2 * 3 - 4", &mut variables, &host), Ok(()));
    assert_eq!(
        console.borrow().events,
        vec!["number 1.5", "compute *", "compute +", "compute -", "show"]
    );
    assert_eq!(console.borrow().output, "3.5\n");
}

#[test]
fn unknown_function() {
    let console = console(&[]);
    let host = |request: Request| serve(&console, request);
    let mut variables = Environment::new();
    let expr = Expr::FunctionCall {
        name: "sqrt".to_string(),
        args: vec![Expr::Variable("nowhere".to_string())],
    };
    assert_eq!(
        evaluate(&expr, &mut variables, &host),
        Err(EvalError::UnknownFunction("sqrt".to_string()))
    );
}

#[test]
fn decimal_that_the_host_cannot_read() {
    let console = console(&[]);
    let host = |request: Request| serve(&console, request);
    let mut variables = Environment::new();
    let expr = Expr::Decimal("1.2.3".to_string());
    assert_eq!(evaluate(&expr, &mut variables, &host), Err(EvalError::InvalidNumber));
}

#[test]
fn reply_of_the_wrong_kind() {
    let silent = |_: Request| Reply::Nothing;
    let mut variables = Environment::new();
    let sum = parse(&tokenize("1 + 2").unwrap()).unwrap();
    assert_eq!(evaluate(&sum, &mut variables, &silent), Err(EvalError::UnexpectedReply));
    let read = parse(&tokenize("write()").unwrap()).unwrap();
    assert_eq!(evaluate(&read, &mut variables, &silent), Err(EvalError::UnexpectedReply));
    let talkative = |_: Request| Reply::Text("x".to_string());
    assert_eq!(evaluate(&sum, &mut variables, &talkative), Err(EvalError::UnexpectedReply));
    assert_eq!(evaluate(&read, &mut variables, &talkative), Ok(text("x")));
}

#[test]
fn a_text_without_tokens_fails() {
    assert_eq!(failure(&["x = 1.2.3"]), Failure::Lex(LexError::SecondDecimalPoint));
    assert_eq!(failure(&["x = #"]), Failure::Lex(LexError::UnexpectedCharacter('#')));
    assert_eq!(failure(&["99999999999999999999"]), Failure::Lex(LexError::IntegerTooLarge));
}

#[test]
fn tokens_that_are_no_expression_fail() {
    assert_eq!(failure(&["+ 1"]), Failure::Parse(ParseError::ExpectedOperand));
    assert_eq!(failure(&["print 1"]), Failure::Parse(ParseError::ExpectedLeftParen));
    assert_eq!(failure(&["a[1"]), Failure::Parse(ParseError::ExpectedRightBracket));
}

#[test]
fn a_failure_before_evaluation_changes_nothing() {
    let (variables, output, result) = run(&["x = 1;", "x = 2 @"]);
    assert_eq!(result, Err(Failure::Lex(LexError::UnexpectedCharacter('@'))));
    assert_eq!(output, "");
    assert_eq!(variables.get("x"), Some(&num(1.0)));
}

#[test]
fn a_comment_is_no_part_of_the_statement() {
    assert_eq!(printed(&["1 + 1 // + 40"]), "2\n");
    let (variables, output, _) = run(&["x = 3 // ; not a terminator"]);
    assert_eq!(output, "3\n");
    assert_eq!(variables.get("_tnum_"), None);
}

#[test]
fn a_terminator_anywhere_among_the_tokens_counts() {
    let (variables, output, _) = run(&["; 4"]);
    assert_eq!(output, "");
    assert_eq!(variables.get("_tnum_"), None);
    let (variables, output, result) = run(&["4 ; 5"]);
    assert_eq!(result, Ok(()));
    assert_eq!(output, "");
    assert_eq!(variables.get("_tnum_"), Some(&num(4.0)));
}

#[test]
fn variables_are_found_by_their_whole_name() {
    let mut variables = Environment::new();
    variables.insert("ab".to_string(), num(1.0));
    variables.insert("a".to_string(), num(2.0));
    variables.insert("abc".to_string(), num(3.0));
    variables.insert("a".to_string(), num(4.0));
    assert_eq!(variables.get("a"), Some(&num(4.0)));
    assert_eq!(variables.get("ab"), Some(&num(1.0)));
    assert_eq!(variables.get("abc"), Some(&num(3.0)));
    assert_eq!(variables.get(""), None);
    assert_eq!(variables.get("b"), None);
}

#[test]
fn a_value_read_from_a_variable_is_a_copy() {
    let mut variables = Environment::new();
    assert_eq!(value_of("a = [1, [2, \"x\"]]", &mut variables).map(|_| ()), Ok(()));
    let copy = value_of("a", &mut variables).unwrap();
    assert_eq!(value_of("a = 0", &mut variables), Ok(num(0.0)));
    assert_eq!(copy, Value::Array(vec![num(1.0), Value::Array(vec![num(2.0), text("x")])]));
    assert_eq!(copy.clone(), copy);
}
