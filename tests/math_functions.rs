use graph_ers::error::ParseError;
use graph_ers::function::Function;

#[test]
fn parse_function() {
    let test_fn = "f(t,b)=2t+5b";
    assert!(Function::try_from(test_fn).is_ok());
}

#[test]
fn math_function_calculate() {
    let input = "f(test)=2test";
    let f = Function::try_from(input);
    println!("{:?}", f);
}

#[test]
fn unused_variables() {
    let test_fn = "f(t,b,c)=2t+5b";
    assert_eq!(
        Function::try_from(test_fn),
        Err(ParseError::VariableDefinitionAndUseMismatch)
    );
}
