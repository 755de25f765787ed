use graph_ers::error::ParseError;
use graph_ers::eval::Expr;
use graph_ers::function::{Function, FunctionInput};
use graph_ers::token::{QueueItem, Token, TokenQueue};

fn value(e: &Expr, vals: &[f64]) -> f64 {
    match e {
        Expr::Number(t) => t.parse().unwrap(),
        Expr::Variable(k) => vals[*k],
        Expr::Apply(op, l, r) => {
            let (a, b) = (value(l, vals), value(r, vals));
            match op {
                Token::Add => a + b,
                Token::Subtract => a - b,
                Token::Multiply => a * b,
                Token::Divide => a / b,
                Token::Pow => a.powf(b),
                Token::TestFunction { a: x, b: y } => {
                    x.parse::<f64>().unwrap() * y.parse::<f64>().unwrap() / 2.
                }
            }
        }
    }
}

fn vars(names: &[&str]) -> Vec<String> {
    names.iter().map(|n| n.to_string()).collect()
}

fn eval_text(expr: &str, names: &[&str], vals: &[f64]) -> Result<f64, ParseError> {
    let v = vars(names);
    let q = TokenQueue::new(expr, &v)?;
    q.calculate(&v).map(|e| value(&e, vals))
}

#[test]
fn two_variables_evaluate_to_seven() {
    let f = Function::parse("f(t,b)=2t+5b").unwrap();
    let e = f.expression().unwrap();
    assert_eq!(value(&e, &[1., 1.]), 7.0);
}

#[test]
fn sum_and_difference() {
    assert_eq!(eval_text("1+2-54", &[], &[]), Ok(-51.0));
}

#[test]
fn double_decimal_is_refused() {
    assert_eq!(
        TokenQueue::new("1..2", &[]),
        Err(ParseError::DoubleDecimal)
    );
    assert_eq!(
        TokenQueue::new("3+1..2", &[]),
        Err(ParseError::DoubleDecimal)
    );
}

#[test]
fn unclosed_parenthesis_is_refused() {
    assert_eq!(
        TokenQueue::new("(1+2", &[]),
        Err(ParseError::UnclosedParenthesis)
    );
}

#[test]
fn trailing_operator_is_misplaced() {
    assert_eq!(eval_text("2+", &[], &[]), Err(ParseError::InvalidTokenPosition));
}

#[test]
fn adjacent_operators_are_misplaced() {
    assert_eq!(eval_text("2*/3", &[], &[]), Err(ParseError::InvalidTokenPosition));
}

#[test]
fn leading_operator_is_misplaced() {
    assert_eq!(eval_text("*3", &[], &[]), Err(ParseError::InvalidTokenPosition));
}

#[test]
fn empty_expression_cannot_be_evaluated() {
    assert_eq!(eval_text("", &[], &[]), Err(ParseError::UnableToParse));
}

#[test]
fn juxtaposition_matches_explicit_product() {
    let implicit = Function::parse("f(t)=2t").unwrap().expression().unwrap();
    let explicit = Function::parse("f(t)=2*t").unwrap().expression().unwrap();
    assert_eq!(implicit, explicit);
    for t in [-3.5, 0.0, 1.0, 2.25, 1e9] {
        assert_eq!(value(&implicit, &[t]), value(&explicit, &[t]));
    }
}

#[test]
fn precedence_is_respected() {
    assert_eq!(eval_text("1+2*3", &[], &[]), Ok(7.0));
    assert_eq!(eval_text("2*3+1", &[], &[]), Ok(7.0));
    assert_eq!(eval_text("1-2t", &["t"], &[3.0]), Ok(-5.0));
    assert_eq!(eval_text("2+3^2", &[], &[]), Ok(11.0));
    assert_eq!(eval_text("(1+2)*3", &[], &[]), Ok(9.0));
    assert_eq!(eval_text("8/2/2+1", &[], &[]), Ok(3.0));
    assert_eq!(eval_text("1+2*3^2^2", &[], &[]), Ok(163.0));
    assert_eq!(eval_text("2t^3(1+1)", &["t"], &[2.0]), Ok(32.0));
}

#[test]
fn normalizer_steps() {
    assert_eq!(TokenQueue::add_parenthesis_exponent("t^2+1"), "(t^(2))+1");
    assert_eq!(TokenQueue::add_parenthesis_exponent("2.5^x-1"), "(2.5^(x))-1");
    assert_eq!(TokenQueue::add_parenthesis_exponent("1+2^3^4"), "1+((2^(3))^(4))");
    assert_eq!(TokenQueue::add_parenthesis_exponent("2^3"), "2^3");
    assert_eq!(TokenQueue::add_parenthesis_exponent("t^2"), "t^2");
    assert_eq!(TokenQueue::add_parenthesis_multiplication("2*t+1"), "(2*t)+1");
    assert_eq!(TokenQueue::add_most_basic_parenthesis("1+2t-3"), "1+(2t)-(3)");
    assert_eq!(TokenQueue::add_most_basic_parenthesis("1+(2t)"), "1+(2t)");
    assert_eq!(TokenQueue::add_most_basic_parenthesis("1+(2"), "1+(2");
    assert_eq!(TokenQueue::add_most_basic_parenthesis("1-(2)t"), "1-((2)t)");
    assert_eq!(TokenQueue::add_most_basic_parenthesis("1+2)3"), "1+2)3");
    assert_eq!(TokenQueue::remove_parenthesis("(12)+(t)"), "12+(t)");
    assert_eq!(TokenQueue::add_parenthesis("5t^3+5"), "5(t^3)+5");
    assert_eq!(TokenQueue::add_parenthesis("t^2"), "t^2");
    assert_eq!(TokenQueue::add_parenthesis("1+2"), "1+2");
    assert_eq!(TokenQueue::add_parenthesis("1+(2+3*4)"), "1+(2+(3*4))");
}

#[test]
fn input_is_stripped_and_lowercased() {
    let v = vars(&["t"]);
    let q = TokenQueue::new("  2T + 1 ", &v).unwrap();
    assert_eq!(q.input_representation, "2t+1");
    assert_eq!(q.calculate(&v).map(|e| value(&e, &[4.0])), Ok(9.0));
}

#[test]
fn unknown_letters_are_refused() {
    assert_eq!(
        TokenQueue::new("2x", &vars(&["t"])),
        Err(ParseError::UnknownVariable("x".to_string()))
    );
    assert_eq!(
        TokenQueue::new("é", &vars(&["t"])),
        Err(ParseError::UnknownVariable("é".to_string()))
    );
}

#[test]
fn unfinished_variable_is_not_found() {
    assert_eq!(
        TokenQueue::new("t", &vars(&["tt"])),
        Err(ParseError::UnableToFind("Variable t".to_string()))
    );
}

#[test]
fn unbound_variable_is_not_found() {
    let q = TokenQueue::new("2t", &vars(&["t"])).unwrap();
    assert_eq!(
        q.calculate(&vars(&["x"])),
        Err(ParseError::UnableToFind("variable: \"t\"".to_string()))
    );
}

#[test]
fn longer_variable_names_are_read_whole() {
    let f = Function::parse("f(test)=2test").unwrap();
    assert_eq!(value(&f.expression().unwrap(), &[3.0]), 6.0);
    let items = f.tokens.items();
    assert_eq!(items.len(), 2);
    assert_eq!(items[1], QueueItem::Variable("test".to_string()));
}

#[test]
fn builtin_call_is_read() {
    let q = TokenQueue::new("1test(2,3)", &vars(&["test(2,3)x"])).unwrap();
    let items = q.items();
    assert_eq!(items.len(), 2);
    assert_eq!(items[0], QueueItem::Number("1".to_string()));
    assert_eq!(
        items[1],
        QueueItem::Token(Token::TestFunction { a: "2".to_string(), b: "3".to_string() })
    );
}

#[test]
fn other_characters_are_skipped() {
    assert_eq!(eval_text("2#3", &[], &[]), Ok(6.0));
}

#[test]
fn definition_errors() {
    assert_eq!(Function::parse("hello"), Err(ParseError::NoFunctionDefined));
    assert_eq!(Function::parse(""), Err(ParseError::NoFunctionDefined));
    assert_eq!(Function::parse("f(1)=x"), Err(ParseError::UnableToParse));
    assert_eq!(Function::parse("f(t)=2x"), Err(ParseError::UnknownVariable("x".to_string())));
    assert_eq!(Function::parse("f(t,)=t"), Err(ParseError::VariableDefinitionAndUseMismatch));
}

#[test]
fn definition_parts() {
    let f = Function::parse("g_1(x,yy)=x+yy").unwrap();
    assert_eq!(f.name, "g_1");
    assert_eq!(f.variables, vars(&["x", "yy"]));
    assert_eq!(f.internal_representation(), "g_1(x,yy)=x+(yy)");
    assert_eq!(value(&f.expression().unwrap(), &[2.0, 5.0]), 7.0);
}

#[test]
fn representation_parses_to_the_same_tree() {
    for text in [
        "f(t,b)=2t+5b",
        "f(t)=5t^3+5",
        "f(t)=1-2t*3",
        "f(t)=1+2*t^2^3",
        "f(t)=(1+2.5)t-4/t",
    ] {
        let f = Function::parse(text).unwrap();
        let again = Function::parse(&f.internal_representation()).unwrap();
        assert_eq!(again, f);
    }
}

#[test]
fn signed_terms_step_is_idempotent() {
    for text in [
        "1+(2", "1+2t-3", "1-(2)t+(4", "-x+(y)", "2(3+4", "1+2*(3", "1+2)3", "1-(2))t", "1+)",
    ] {
        let once = TokenQueue::add_most_basic_parenthesis(text);
        assert_eq!(TokenQueue::add_most_basic_parenthesis(&once), once);
    }
}

#[test]
fn representation_of_a_wrapped_product_keeps_its_value() {
    // The product is wrapped once more on every compile, so the tree grows a
    // level, but what it computes stays the same.
    let f = Function::parse("f(x)=(x+1)*(x-1)/2").unwrap();
    assert_eq!(f.internal_representation(), "f(x)=((x+1)*(x-1)/2)");
    let again = Function::parse(&f.internal_representation()).unwrap();
    let (e1, e2) = (f.expression().unwrap(), again.expression().unwrap());
    for x in [-2.0, 0.5, 3.0] {
        assert_eq!(value(&e1, &[x]), value(&e2, &[x]));
    }
}

#[test]
fn definition_from_owned_text() {
    let f = Function::try_from("f(t)=2t".to_string()).unwrap();
    assert_eq!(f.name, "f");
    assert_eq!(Function::try_from("f(t)=2t").unwrap(), f);
}

#[test]
fn input_error_messages() {
    assert_eq!(FunctionInput("f(t)=2t".to_string()).err(), None);
    assert_eq!(
        FunctionInput("f(t,b,c)=2t+5b".to_string()).err(),
        Some("All variables defined in the function are not used.".to_string())
    );
    assert_eq!(
        FunctionInput("f(t)=t+".to_string()).err(),
        Some("Token in invalid position".to_string())
    );
    assert_eq!(
        FunctionInput("".to_string()).err(),
        Some("No function defined".to_string())
    );
}

#[test]
fn input_name() {
    assert_eq!(FunctionInput("speed(t)=2t".to_string()).name(), Ok("speed".to_string()));
    assert_eq!(
        FunctionInput("speed".to_string()).name(),
        Err(ParseError::NoFunctionDefined)
    );
}

#[test]
fn error_messages() {
    assert_eq!(
        ParseError::UnknownVariable("x".to_string()).message(),
        "Unknown variable in expression: \"x\""
    );
    assert_eq!(
        ParseError::UnableToFind("next item".to_string()).message(),
        "Unable to find required argument: next item in input"
    );
    assert_eq!(ParseError::UnableToParse.message(), "Unable to parse");
    assert_eq!(ParseError::DoubleDecimal.message(), "Two decimal points used in the same number!");
    assert_eq!(ParseError::UnclosedParenthesis.message(), "Unclosed parenthesis");
}
