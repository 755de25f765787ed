use graph_ers::eval::Expr;
use graph_ers::token::{Token, TokenQueue};

fn value(e: &Expr, vals: &[f64]) -> f64 {
    match e {
        Expr::Number(t) => t.parse().unwrap(),
        Expr::Variable(k) => vals[*k],
        Expr::Apply(op, l, r) => {
            let (a, b) = (value(l, vals), value(r, vals));
            match op {
                Token::Add => a + b,
                Token::Subtract => a - b,
                Token::Multiply => a * b,
                Token::Divide => a / b,
                Token::Pow => a.powf(b),
                Token::TestFunction { a: x, b: y } => {
                    x.parse::<f64>().unwrap() * y.parse::<f64>().unwrap() / 2.
                }
            }
        }
    }
}

#[test]
fn test_add_parenthesis() {
    assert_eq!(TokenQueue::add_parenthesis_multiplication("1*1"), "1*1");
    assert_eq!(TokenQueue::add_parenthesis_multiplication("1/1"), "1/1");
    assert_eq!(TokenQueue::add_parenthesis_multiplication("1*1*1"), "1*1*1");
    assert_eq!(
        TokenQueue::add_parenthesis_multiplication("1*1/20+12-17*20"),
        "(1*1/20)+12-(17*20)"
    );
}

#[test]
fn test_queue() {
    let variables = vec!["t".to_string()];
    let q = TokenQueue::new("t^2", &variables).unwrap();
    println!("{:?}", q);
    let e = q.calculate(&variables);
    println!("{:?}", e.map(|e| value(&e, &[1.])));
}

#[test]
fn test_things() {
    let variables = vec!["t".to_string()];
    let func = TokenQueue::new("(5t^3+5)", &variables).unwrap();
    assert_eq!(func.calculate(&variables).map(|e| value(&e, &[1.])), Ok(10.));
}
