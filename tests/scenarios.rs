use ramify::{compile_source, compile_stripped, CompileFailure};

fn compiled(source: &str) -> String {
    match compile_stripped(source) {
        Ok(out) => out,
        Err(CompileFailure::Syntax(e)) => panic!("syntax error at {}", e.position),
        Err(CompileFailure::Reduction(_)) => panic!("reduction error"),
        Err(CompileFailure::Emission(_)) => panic!("emission error"),
        Err(CompileFailure::Comments) => panic!("comment error"),
    }
}

#[test]
fn print_hi() {
    assert_eq!(compiled("let main _ = print \"hi\""), "K.apply(print.apply(make_str(\"hi\")))");
}

#[test]
fn add_two_numbers() {
    assert_eq!(
        compiled("let add a b = a + b   let main _ = print (add 2 3)"),
        "K.apply(print.apply(add.apply(make_f64(2)).apply(make_f64(3))))"
    );
}

#[test]
fn result_data_type() {
    let out = compiled(
        "data R = Ok(x) | Err(e)   let f n = if n>0 then Ok(n) else Err(\"neg\")   let main _ = case f 3 of | Ok(x) => print x | Err(e) => print e",
    );
    assert!(out.contains("gt"));
    assert!(out.contains("make_f64(3)"));
    assert!(out.contains("make_str(\"neg\")"));
}

#[test]
fn factorial_uses_fixed_point() {
    let out = compiled("let factorial n = if n>1 then n*(rec n-1) else 1   let main _ = print (factorial 5)");
    assert!(out.starts_with("K.apply(print.apply("));
    assert!(out.contains("Y"));
    assert!(out.contains("make_f64(5)"));
}

#[test]
fn point_destructuring() {
    let out = compiled("type Point(x, y)   let main _ = let Point(x, y) = Point(1, 2) in print x");
    assert!(out.contains("make_f64(1)"));
}

#[test]
fn church_booleans() {
    let out = compiled(
        "const True = a.b.a   const False = a.b.b   let not a = a False True   let main _ = not True (print \"yes\") (print \"no\")",
    );
    assert_eq!(out, "K.apply(print.apply(make_str(\"no\")))");
}

#[test]
fn comments_are_removed() {
    let out = compile_source("# a greeting\nlet main _ = print \"hi\" # done\n");
    assert!(matches!(out, Ok(ref s) if s == "K.apply(print.apply(make_str(\"hi\")))"));
}
