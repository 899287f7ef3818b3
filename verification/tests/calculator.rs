//! The calculator, with its programs run on numbers.
use agent_toolkit::calc::{calc_parse, compile, run_calculator, CalcError, CalcOp, Program};

fn run(program: &Program) -> Result<f64, CalcError> {
    let mut stack: Vec<f64> = Vec::new();
    for op in &program.ops {
        match op {
            CalcOp::Number(t) => stack.push(t.parse().unwrap()),
            CalcOp::Neg => {
                let a = stack.pop().unwrap();
                stack.push(-a);
            }
            _ => {
                let b = stack.pop().unwrap();
                let a = stack.pop().unwrap();
                stack.push(match op {
                    CalcOp::Add => a + b,
                    CalcOp::Sub => a - b,
                    CalcOp::Mul => a * b,
                    CalcOp::Div => {
                        if b == 0.0 {
                            return Err(CalcError::DivisionByZero);
                        }
                        a / b
                    }
                    CalcOp::Rem => a % b,
                    _ => a.powf(b),
                });
            }
        }
    }
    match program.error {
        Some(e) => Err(e),
        None => Ok(stack.pop().unwrap()),
    }
}

fn answer(expr: &str) -> String {
    run_calculator(expr, &run(&compile(expr)).map(|v| format!("{v}")))
}

fn steps(expr: &str) -> String {
    let p = calc_parse(expr);
    assert!(p.error.is_none());
    let words: Vec<String> = p.ops.iter().map(|o| format!("{o:?}")).collect();
    words.join(" ")
}

#[test]
fn arithmetic_follows_precedence() {
    assert_eq!(answer("90 * 12 * 0.85"), "918");
    assert_eq!(answer("1 + 2 * 3"), "7");
    assert_eq!(answer("(1 + 2) * 3"), "9");
    assert_eq!(answer("10 - 4 - 3"), "3");
    assert_eq!(answer("7 % 4"), "3");
    assert_eq!(answer("2 ** 3 ** 2"), "512");
    assert_eq!(answer("2 * 3 ** 2"), "18");
    assert_eq!(answer("-2 ** 2"), "4");
    assert_eq!(answer("+5"), "5");
    assert_eq!(answer("\t1.5+.5 "), "2");
    assert_eq!(answer("2 - -3"), "5");
    assert_eq!(answer("1. + 1"), "2");
}

#[test]
fn operations_follow_their_operands() {
    assert_eq!(steps("1+2*3"), "Number(\"1\") Number(\"2\") Number(\"3\") Mul Add");
    assert_eq!(steps("(-1-2)**.5"), "Number(\"1\") Neg Number(\"2\") Sub Number(\".5\") Pow");
    assert_eq!(steps("((1)/(2))"), "Number(\"1\") Number(\"2\") Div");
    assert_eq!(steps("8%3"), "Number(\"8\") Number(\"3\") Rem");
}

#[test]
fn failures_say_what_is_wrong() {
    assert_eq!(answer(""), "Could not evaluate '': expected number at position 0");
    assert_eq!(answer("1 +"), "Could not evaluate '1 +': expected number at position 3");
    assert_eq!(answer("(1 + 2"), "Could not evaluate '(1 + 2': missing closing )");
    assert_eq!(answer("1.2.3"), "Could not evaluate '1.2.3': invalid float literal");
    assert_eq!(answer("."), "Could not evaluate '.': invalid float literal");
    assert_eq!(answer("1 / 0"), "Could not evaluate '1 / 0': division by zero");
    assert_eq!(answer("2 x"), "Could not evaluate '2 x': unexpected character 'x' at position 2");
    assert_eq!(answer(" 2 x"), "Could not evaluate ' 2 x': unexpected character 'x' at position 2");
    assert_eq!(answer("--2"), "Could not evaluate '--2': expected number at position 1");
    assert_eq!(
        answer("1 é"),
        "Could not evaluate '1 é': unexpected character 'Ã' at position 2"
    );
}

#[test]
fn the_first_failure_counts() {
    // The division comes before the place where reading stops.
    assert_eq!(answer("1/0 + ("), "Could not evaluate '1/0 + (': division by zero");
    assert_eq!(
        answer("( + 1/0"),
        "Could not evaluate '( + 1/0': division by zero"
    );
    assert_eq!(answer(") 1/0"), "Could not evaluate ') 1/0': expected number at position 0");
}
