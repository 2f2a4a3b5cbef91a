use ramify::{
    compile_ast, compile_source, compile_stripped, parse_ast, parse_expression, BinaryOp,
    CompileFailure, Combinator, CompilerError, Constructor, Data, Expression, Golang, Lambda,
    ParseErrorKind, ReductionError, Source, Target, AST,
};

fn s(text: &str) -> String {
    String::from(text)
}

fn text_of(c: &Combinator) -> String {
    match c.to_text() {
        Ok(t) => t,
        Err(_) => panic!("malformed"),
    }
}

fn program(source: &str) -> AST {
    match parse_ast(source) {
        Ok((rest, ast)) => {
            assert_eq!(rest, "");
            ast
        }
        Err(e) => panic!("syntax error at {}", e.position),
    }
}

#[test]
fn identifier_skips_spaces() {
    let src = Source::new("  foo bar");
    let r = ramify::parse::parse_identifier(&src, 0);
    assert!(matches!(r, Some((5, ref n)) if n == "foo"));
}

#[test]
fn reserved_word_is_no_identifier() {
    let src = Source::new("let x");
    assert!(ramify::parse::parse_identifier(&src, 0).is_none());
    let src = Source::new("letter");
    assert!(matches!(ramify::parse::parse_identifier(&src, 0), Some((6, ref n)) if n == "letter"));
}

#[test]
fn identifier_cannot_start_with_digit() {
    let src = Source::new("1x");
    assert!(ramify::parse::parse_identifier(&src, 0).is_none());
}

#[test]
fn string_with_escaped_quote() {
    let src = Source::new("\"a\\\"b\" rest");
    let r = ramify::parse::parse_string(&src, 0);
    assert!(matches!(r, Some((6, ref t)) if t == "a\"b"));
}

#[test]
fn unterminated_string_is_rejected() {
    let src = Source::new("\"abc");
    assert!(ramify::parse::parse_string(&src, 0).is_none());
}

#[test]
fn number_literal_forms() {
    let src = Source::new("2.5e3)");
    assert!(matches!(ramify::parse::parse_number(&src, 0), Some((5, ref t)) if t == "2.5e3"));
    let src = Source::new(".5");
    assert!(matches!(ramify::parse::parse_number(&src, 0), Some((2, ref t)) if t == ".5"));
    let src = Source::new("7e");
    assert!(matches!(ramify::parse::parse_number(&src, 0), Some((1, ref t)) if t == "7"));
    let src = Source::new("x");
    assert!(ramify::parse::parse_number(&src, 0).is_none());
}

#[test]
fn empty_expression_is_an_error() {
    let r = parse_expression("");
    assert!(matches!(r, Err(ref e) if matches!(e.kind, ParseErrorKind::EmptyExpression)));
}

#[test]
fn closing_bracket_without_opener_is_an_error() {
    let r = parse_expression(")");
    assert!(matches!(r, Err(ref e) if matches!(e.kind, ParseErrorKind::UnmatchedClosingBracket)));
}

#[test]
fn subtraction_groups_to_the_left() {
    let (rest, e) = match parse_expression("a - b - c") {
        Ok(x) => x,
        Err(_) => panic!("parse"),
    };
    assert_eq!(rest, "");
    match e {
        Expression::Binary(BinaryOp::Subtract, left, right) => {
            assert!(matches!(*right, Expression::Identifier(ref n) if n == "c"));
            assert!(matches!(*left, Expression::Binary(BinaryOp::Subtract, _, _)));
        }
        _ => panic!("not a subtraction"),
    }
}

#[test]
fn comparison_binds_tighter_than_and() {
    let (_, e) = match parse_expression("a < b && c") {
        Ok(x) => x,
        Err(_) => panic!("parse"),
    };
    assert!(matches!(e, Expression::Binary(BinaryOp::And, ref l, _) if matches!(**l, Expression::Binary(BinaryOp::Less, _, _))));
}

#[test]
fn identity_abstraction_is_i() {
    let t = Lambda::lambda(s("x"), Lambda::var(s("x")));
    let c = match t.to_combinator() {
        Ok(c) => c,
        Err(_) => panic!("compile"),
    };
    assert_eq!(text_of(&c), "I");
}

#[test]
fn constant_function_abstraction() {
    let t = Lambda::lambda(s("x"), Lambda::lambda(s("y"), Lambda::var(s("x"))));
    let c = match t.to_combinator() {
        Ok(c) => c,
        Err(_) => panic!("compile"),
    };
    assert_eq!(text_of(&c), "S(K(K))(I)");
}

#[test]
fn closed_term_has_no_variable_left() {
    let t = Lambda::lambda(
        s("f"),
        Lambda::lambda(s("x"), Lambda::var(s("f")).applied_to(Lambda::var(s("x")))),
    );
    let c = match t.to_combinator() {
        Ok(c) => c,
        Err(_) => panic!("compile"),
    };
    let out = text_of(&c);
    assert!(!out.contains('f') && !out.contains('x'));
}

#[test]
fn free_variable_is_reported() {
    let r = Lambda::var(s("z")).to_combinator();
    assert!(matches!(r, Err(ReductionError::FreeVariable(ref n)) if n == "z"));
}

#[test]
fn k_keeps_its_first_argument() {
    let k = Combinator::K { x: None };
    let k1 = match k.applied_to(Combinator::Number(s("1"))) {
        Ok(c) => c,
        Err(_) => panic!("apply"),
    };
    let r = match k1.applied_to(Combinator::Number(s("2"))) {
        Ok(c) => c,
        Err(_) => panic!("apply"),
    };
    assert_eq!(text_of(&r), "1");
}

#[test]
fn s_k_k_is_identity() {
    let skk = Combinator::S {
        x: Some(Box::new(Combinator::K { x: None })),
        y: Some(Box::new(Combinator::K { x: None })),
    };
    let r = match skk.applied_to(Combinator::String(s("v"))) {
        Ok(c) => c,
        Err(_) => panic!("apply"),
    };
    assert_eq!(text_of(&r), "v");
}

#[test]
fn b_composes() {
    let b = Combinator::B {
        x: Some(Box::new(ramify::foreign(s("f")))),
        y: Some(Box::new(ramify::foreign(s("g")))),
    };
    let r = match b.applied_to(Combinator::Number(s("3"))) {
        Ok(c) => c,
        Err(_) => panic!("apply"),
    };
    assert_eq!(text_of(&r), "f(g(3))");
}

#[test]
fn c_flips() {
    let c = Combinator::C {
        x: Some(Box::new(ramify::foreign(s("f")))),
        y: Some(Box::new(Combinator::Number(s("2")))),
    };
    let r = match c.applied_to(ramify::foreign(s("h"))) {
        Ok(c) => c,
        Err(_) => panic!("apply"),
    };
    assert_eq!(text_of(&r), "f(h(2))");
}

#[test]
fn literal_ignores_its_argument() {
    let r = match Combinator::Number(s("4")).applied_to(Combinator::I) {
        Ok(c) => c,
        Err(_) => panic!("apply"),
    };
    assert_eq!(text_of(&r), "4");
}

#[test]
fn malformed_combinator_is_an_error() {
    let bad = Combinator::S { x: None, y: Some(Box::new(Combinator::I)) };
    assert!(matches!(bad.applied_to(Combinator::I), Err(ReductionError::MalformedCombinator)));
    assert!(matches!(Golang.emit(&bad), Err(CompilerError::MalformedCombinator)));
}

#[test]
fn nil_has_no_host_form() {
    assert!(matches!(Golang.compile(Combinator::Nil), Err(CompilerError::Nil)));
}

#[test]
fn emitter_forms() {
    let c = Combinator::S {
        x: Some(Box::new(Combinator::K { x: Some(Box::new(Combinator::I)) })),
        y: Some(Box::new(Combinator::List(vec![Combinator::Number(s("1")), Combinator::String(s("a"))]))),
    };
    let out = match Golang.emit(&c) {
        Ok(o) => o,
        Err(_) => panic!("emit"),
    };
    assert_eq!(out, "S.apply(K.apply(I)).apply(make_list([]Combinator {make_f64(1), make_str(\"a\"), }))");
}

#[test]
fn table_keys_are_emitted_in_order() {
    let out = match compile_stripped("let main _ = print {\"b\": 1, \"a\": 2, \"b\": 3}") {
        Ok(o) => o,
        Err(_) => panic!("compile"),
    };
    assert_eq!(
        out,
        "K.apply(print.apply(make_table(map[string]Combinator {\"a\":make_f64(2), \"b\":make_f64(3), })))"
    );
}

#[test]
fn missing_main_is_an_error() {
    let r = compile_stripped("let f x = x");
    assert!(matches!(r, Err(CompileFailure::Reduction(ReductionError::NoEntryPoint))));
}

#[test]
fn unknown_constructor_is_unresolved() {
    let r = compile_stripped("let main _ = print Foo(1, 2)");
    assert!(matches!(r, Err(CompileFailure::Reduction(ReductionError::UnresolvedConstructor))));
}

#[test]
fn case_without_data_type_is_unresolved() {
    let r = compile_stripped("let main v = case v of | A(x) => x");
    assert!(matches!(r, Err(CompileFailure::Reduction(ReductionError::UnresolvedCase))));
}

#[test]
fn leftover_text_is_a_syntax_error() {
    let r = compile_stripped("let main _ = print 1 )");
    assert!(matches!(r, Err(CompileFailure::Syntax(_))));
}

#[test]
fn non_ascii_source_with_comment_is_refused() {
    let r = compile_source("let main _ = print \"\u{e9}\" # done");
    assert!(matches!(r, Err(CompileFailure::Comments)));
}

#[test]
fn non_ascii_source_without_comment_compiles() {
    let r = compile_source("let main _ = print \"\u{e9}\"");
    assert!(matches!(r, Ok(ref s) if s == "K.apply(print.apply(make_str(\"\u{e9}\")))"));
}

#[test]
fn case_arms_get_their_data_type() {
    let ast = program("data R = Ok(x) | Err(e)   let f v = case v of | Err(e) => e | Ok(x) => x");
    let f = &ast.get_functions()[0];
    match f.get_body() {
        Expression::Lambda(_, body) => match &**body {
            Expression::CaseOf { data_type, .. } => {
                assert!(matches!(data_type, Some(d) if d.get_name() == "R"));
            }
            _ => panic!("not a case"),
        },
        _ => panic!("not a lambda"),
    }
}

#[test]
fn one_argument_constructor_is_promoted() {
    let ast = program("data M = Just(x) | Nothing   let f v = Just v");
    match ast.get_functions()[0].get_body() {
        Expression::Lambda(_, body) => {
            assert!(matches!(&**body, Expression::Construct { data_type: Some(c), .. } if c.get_name() == "Just"));
        }
        _ => panic!("not a lambda"),
    }
}

#[test]
fn recursive_function_is_wrapped_in_fixed_point() {
    let ast = program("let count n = if n > 0 then rec n else 0");
    match ast.get_functions()[0].get_body() {
        Expression::Application(y, f) => {
            assert!(matches!(&**y, Expression::Identifier(n) if n == "Y"));
            assert!(matches!(&**f, Expression::Lambda(r, _) if r == "rec"));
        }
        _ => panic!("not wrapped"),
    }
}

#[test]
fn constants_and_functions_are_inlined() {
    let ast = program("const One = 1   let id x = x   let main _ = print (id One)");
    let main = &ast.get_functions()[1];
    assert!(!main.get_body().has_binding(&s("One")));
    assert!(!main.get_body().has_binding(&s("id")));
}

#[test]
fn recursive_constant_is_not_inlined() {
    let ast = program("const R = R   let main _ = print R");
    assert!(ast.get_functions()[0].get_body().has_binding(&s("R")));
}

#[test]
fn inlining_constants_twice_changes_nothing() {
    let mut once = program("const A = B   const B = 2   let main _ = print (A + B)");
    let first = match compile_ast(&once) {
        Ok(o) => o,
        Err(_) => panic!("compile"),
    };
    once.inline_constants();
    let second = match compile_ast(&once) {
        Ok(o) => o,
        Err(_) => panic!("compile"),
    };
    assert_eq!(first, second);
    assert_eq!(first, "K.apply(print.apply(add.apply(make_f64(2)).apply(make_f64(2))))");
}

#[test]
fn compiling_twice_gives_the_same_text() {
    let source = "data R = Ok(x) | Err(e)   let main _ = case Ok(1) of | Err(e) => print e | Ok(x) => print x";
    let a = compile_stripped(source);
    let b = compile_stripped(source);
    assert!(matches!((a, b), (Ok(x), Ok(y)) if x == y));
}

#[test]
fn conflicting_data_types_are_detected() {
    let ast = program("data T = A   data T = B   let main _ = print 1");
    assert!(ast.has_conflicting_datatypes());
    let ast = program("data T = A   data U = B   let main _ = print 1");
    assert!(!ast.has_conflicting_datatypes());
}

#[test]
fn constructors_come_sorted_by_name_then_arity() {
    let d = Data::new(
        s("D"),
        vec![
            Constructor::new(s("Ok"), vec![s("x")]),
            Constructor::new(s("Err"), vec![s("e")]),
            Constructor::new(s("Err"), vec![]),
        ],
    );
    let cons = d.get_constructors();
    assert_eq!(cons.len(), 3);
    assert_eq!(cons[0].get_name(), "Err");
    assert_eq!(cons[0].get_members().len(), 0);
    assert_eq!(cons[1].get_name(), "Err");
    assert_eq!(cons[1].get_members().len(), 1);
    assert_eq!(cons[2].get_name(), "Ok");
}

#[test]
fn subtraction_of_four_groups_to_the_left() {
    let (_, e) = match parse_expression("a - b - c - d") {
        Ok(x) => x,
        Err(_) => panic!("parse"),
    };
    assert_eq!(e.to_text(), "(((a - b) - c) - d)");
}

#[test]
fn two_argument_constructor_call_parses() {
    let (_, e) = match parse_expression("P(1, 2)") {
        Ok(x) => x,
        Err(_) => panic!("parse"),
    };
    assert!(matches!(e, Expression::Construct { ref cons_name, ref members, .. } if cons_name == "P" && members.len() == 2));
}

#[test]
fn strings_are_escaped_on_emission() {
    let out = match Golang.emit(&Combinator::String(s("a\"b\\c"))) {
        Ok(o) => o,
        Err(_) => panic!("emit"),
    };
    assert_eq!(out, "make_str(\"a\\\"b\\\\c\")");
}

#[test]
fn escaped_quote_in_source_is_read_as_quote() {
    let out = match compile_stripped("let main _ = print \"say \\\"hi\\\"\"") {
        Ok(o) => o,
        Err(_) => panic!("compile"),
    };
    assert_eq!(out, "K.apply(print.apply(make_str(\"say \\\"hi\\\"\")))");
}

#[test]
fn sum_type_handlers_follow_sorted_constructors() {
    let out = match compile_stripped("data R = Ok(x) | Err(e)   let main _ = print (Err 1)") {
        Ok(o) => o,
        Err(_) => panic!("compile"),
    };
    let other = match compile_stripped("data R = Err(e) | Ok(x)   let main _ = print (Err 1)") {
        Ok(o) => o,
        Err(_) => panic!("compile"),
    };
    assert_eq!(out, other);
}

#[test]
fn expression_text_is_parenthesised() {
    let (_, e) = match parse_expression("if a > 1 then f x else x.y.x") {
        Ok(x) => x,
        Err(_) => panic!("parse"),
    };
    assert_eq!(e.to_text(), "if (a > 1) then (f x) else (x.y.x)");
}

#[test]
fn case_text_lists_its_arms() {
    let (_, e) = match parse_expression("case v of | A(x) => x | B => 0") {
        Ok(x) => x,
        Err(_) => panic!("parse"),
    };
    assert_eq!(e.to_text(), "case v of | A(x) => x | B => 0");
}

#[test]
fn arguments_of_a_function_body() {
    let (_, e) = match parse_expression("a.b.c.a") {
        Ok(x) => x,
        Err(_) => panic!("parse"),
    };
    assert_eq!(e.number_of_arguments(), 3);
    let applied = Expression::Application(Box::new(e), Box::new(Expression::Number(s("1"))));
    assert_eq!(applied.number_of_arguments(), 2);
    assert_eq!(Expression::Number(s("1")).number_of_arguments(), 0);
}

#[test]
fn combinator_text_of_a_table() {
    let t = Combinator::Table(vec![s("k")], vec![Combinator::Number(s("1"))]);
    assert_eq!(text_of(&t), "{ \"k\":1 }");
    assert_eq!(text_of(&Combinator::Nil), "Nil");
}

#[test]
fn if_branches_of_different_arity_warn() {
    let warnings = ramify::source_warnings("let main _ = if 1 > 0 then x.x else 2");
    assert_eq!(warnings.len(), 1);
    assert!(warnings[0].starts_with("Warning: Different type signatures for branches of if expression"));
}

#[test]
fn case_arms_of_different_arity_warn() {
    let warnings = ramify::source_warnings(
        "data R = Ok(x) | Err(e)   let main _ = case Ok(1) of | Ok(x) => x | Err(e) => a.a",
    );
    assert_eq!(warnings.len(), 1);
    assert!(warnings[0].starts_with("Warning: Different type signatures for cases in expression"));
}

#[test]
fn matching_branches_do_not_warn() {
    assert_eq!(ramify::source_warnings("let main _ = if 1 > 0 then 1 else 2").len(), 0);
}

#[test]
fn applied_lambda_loses_an_argument() {
    let (_, a) = match parse_expression("(x.y.x) 1") {
        Ok(x) => x,
        Err(_) => panic!("parse"),
    };
    let (_, b) = match parse_expression("z.z") {
        Ok(x) => x,
        Err(_) => panic!("parse"),
    };
    assert!(ramify::show::same_arity(&a, &b));
    assert!(!ramify::show::same_arity(&a, &Expression::Number(s("1"))));
}

#[test]
fn lambda_text_shows_binders() {
    let t = Lambda::lambda(s("x"), Lambda::var(s("f")).applied_to(Lambda::var(s("x"))));
    assert!(matches!(t.to_text(), Ok(ref out) if out == "\u{3bb}x.(f)(x)"));
}

#[test]
fn table_entries_are_emitted_in_key_order_whatever_the_held_order() {
    let t = Combinator::Table(
        vec![s("b"), s("a"), s("b")],
        vec![Combinator::Number(s("1")), Combinator::Number(s("2")), Combinator::Number(s("3"))],
    );
    let out = match Golang.emit(&t) {
        Ok(o) => o,
        Err(_) => panic!("emit"),
    };
    assert_eq!(out, "make_table(map[string]Combinator {\"a\":make_f64(2), \"b\":make_f64(3), })");
}

#[test]
fn parse_ast_reports_leftover_text() {
    match parse_ast("let main _ = print 1 )") {
        Ok((rest, _)) => assert_eq!(rest, ")"),
        Err(_) => panic!("parse"),
    }
}
