use ramify::{parse_expression, BinaryOp, Constructor, Expression, UnaryOp};

fn same_op(a: &BinaryOp, b: &BinaryOp) -> bool {
    matches!(
        (a, b),
        (BinaryOp::And, BinaryOp::And)
            | (BinaryOp::Or, BinaryOp::Or)
            | (BinaryOp::Equal, BinaryOp::Equal)
            | (BinaryOp::NotEqual, BinaryOp::NotEqual)
            | (BinaryOp::Greater, BinaryOp::Greater)
            | (BinaryOp::GreaterEqual, BinaryOp::GreaterEqual)
            | (BinaryOp::Less, BinaryOp::Less)
            | (BinaryOp::LessEqual, BinaryOp::LessEqual)
            | (BinaryOp::Add, BinaryOp::Add)
            | (BinaryOp::Subtract, BinaryOp::Subtract)
            | (BinaryOp::Multiply, BinaryOp::Multiply)
            | (BinaryOp::Divide, BinaryOp::Divide)
    )
}

fn same_cons(a: &Constructor, b: &Constructor) -> bool {
    a.name == b.name && a.members == b.members
}

fn same_all(a: &[Expression], b: &[Expression]) -> bool {
    a.len() == b.len() && a.iter().zip(b.iter()).all(|(x, y)| same(x, y))
}

fn same(a: &Expression, b: &Expression) -> bool {
    match (a, b) {
        (Expression::Binary(o1, a1, b1), Expression::Binary(o2, a2, b2)) => {
            same_op(o1, o2) && same(a1, a2) && same(b1, b2)
        }
        (Expression::Unary(o1, a1), Expression::Unary(o2, a2)) => {
            matches!((o1, o2), (UnaryOp::Not, UnaryOp::Not) | (UnaryOp::Negate, UnaryOp::Negate)) && same(a1, a2)
        }
        (
            Expression::IfThenElse { condition: c1, then_case: t1, else_case: e1 },
            Expression::IfThenElse { condition: c2, then_case: t2, else_case: e2 },
        ) => same(c1, c2) && same(t1, t2) && same(e1, e2),
        (
            Expression::CaseOf { data_type: None, value: v1, patterns: p1, bodies: b1 },
            Expression::CaseOf { data_type: None, value: v2, patterns: p2, bodies: b2 },
        ) => {
            same(v1, v2)
                && p1.len() == p2.len()
                && p1.iter().zip(p2.iter()).all(|(x, y)| same_cons(x, y))
                && same_all(b1, b2)
        }
        (
            Expression::Construct { data_type: None, cons_name: n1, members: m1 },
            Expression::Construct { data_type: None, cons_name: n2, members: m2 },
        ) => n1 == n2 && same_all(m1, m2),
        (
            Expression::Deconstruct { data_type: None, cons_name: n1, members: m1, value: v1, body: b1 },
            Expression::Deconstruct { data_type: None, cons_name: n2, members: m2, value: v2, body: b2 },
        ) => n1 == n2 && m1 == m2 && same(v1, v2) && same(b1, b2),
        (Expression::Identifier(x), Expression::Identifier(y)) => x == y,
        (Expression::Application(f1, a1), Expression::Application(f2, a2)) => same(f1, f2) && same(a1, a2),
        (Expression::Lambda(x1, b1), Expression::Lambda(x2, b2)) => x1 == x2 && same(b1, b2),
        (Expression::TailCall(i1), Expression::TailCall(i2)) => same_all(i1, i2),
        (Expression::Table(k1, v1), Expression::Table(k2, v2)) => k1 == k2 && same_all(v1, v2),
        (Expression::List(i1), Expression::List(i2)) => same_all(i1, i2),
        (Expression::Number(x), Expression::Number(y)) => x == y,
        (Expression::String(x), Expression::String(y)) => x == y,
        _ => false,
    }
}

fn round_trip(source: &str) {
    let (rest, e) = match parse_expression(source) {
        Ok(x) => x,
        Err(_) => panic!("first parse of {}", source),
    };
    assert_eq!(rest.trim(), "", "first parse of {} left {}", source, rest);
    let printed = e.to_text();
    let (rest2, e2) = match parse_expression(&printed) {
        Ok(x) => x,
        Err(_) => panic!("parse of printed {}", printed),
    };
    assert_eq!(rest2.trim(), "", "parse of printed {} left {}", printed, rest2);
    assert!(same(&e, &e2), "{} printed as {} reads back differently", source, printed);
}

#[test]
fn round_trip_strings() {
    round_trip("\"\"");
    round_trip("\"a\"");
    round_trip("\"say \\\"hi\\\"\"");
    round_trip("\"back\\\\slash\"");
}

#[test]
fn round_trip_operators() {
    round_trip("a - b - c - d");
    round_trip("a * b / c + d");
    round_trip("a < b && c >= d || e != f");
    round_trip("-x + !y");
    round_trip("-(a + b) * 2.5e3");
    round_trip("x == y == z");
}

#[test]
fn round_trip_applications_and_lambdas() {
    round_trip("f x y");
    round_trip("f (g x) (h.h y)");
    round_trip("x.y.x y");
    round_trip("(f x) - 1");
    round_trip("f -1");
}

#[test]
fn round_trip_control_forms() {
    round_trip("if a > 1 then f x else x.y.x");
    round_trip("if if a then b else c then d else e");
    round_trip("case f 3 of | Ok(x) => print x | Err(e) => print e");
    round_trip("case v of | A => case w of | B(y) => y | C => 0");
    round_trip("let Point(x, y) = Point(1, 2) in print x");
    round_trip("rec n (n - 1)");
}

#[test]
fn round_trip_data() {
    round_trip("[1, \"two\", [x], {\"k\": f}]");
    round_trip("{\"b\": 1, \"a\": x.x}");
    round_trip("P(f x, Q(1, 2), y.y)");
    round_trip("[]");
    round_trip("{}");
}
