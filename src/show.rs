use vstd::prelude::*;

use crate::ast::{exprs_view, lemma_exprs_view, BinaryOp, ConstructorView, ExprView, Expression, UnaryOp};
use crate::reduce::arity;

verus! {

pub open spec fn op_symbol(op: BinaryOp) -> Seq<char> {
    match op {
        BinaryOp::And => " && "@,
        BinaryOp::Or => " || "@,
        BinaryOp::Equal => " == "@,
        BinaryOp::NotEqual => " != "@,
        BinaryOp::Greater => " > "@,
        BinaryOp::GreaterEqual => " >= "@,
        BinaryOp::Less => " < "@,
        BinaryOp::LessEqual => " <= "@,
        BinaryOp::Add => " + "@,
        BinaryOp::Subtract => " - "@,
        BinaryOp::Multiply => " * "@,
        BinaryOp::Divide => " / "@,
    }
}

/// Names separated by `, `.
pub open spec fn join_names(ns: Seq<Seq<char>>) -> Seq<char>
    decreases ns.len(),
{
    if ns.len() == 0 {
        Seq::empty()
    } else if ns.len() == 1 {
        ns[0]
    } else {
        join_names(ns.drop_last()) + ", "@ + ns.last()
    }
}

/// The characters of a string as they stand between the quotes of a string
/// literal that the parser reads back to them: `"` written `\"`, a backslash
/// kept with the character after it.
pub open spec fn escape_source(s: Seq<char>) -> Seq<char>
    decreases s.len(),
{
    if s.len() == 0 {
        Seq::empty()
    } else if s[0] == '"' {
        seq!['\\', '"'] + escape_source(s.drop_first())
    } else if s[0] == '\\' && s.len() > 1 && s[1] != '"' {
        seq!['\\', s[1]] + escape_source(s.subrange(2, s.len() as int))
    } else {
        seq![s[0]] + escape_source(s.drop_first())
    }
}

/// A string that the parser can make: each backslash is paired with a
/// character other than `"` after it.
pub open spec fn literal_ok(s: Seq<char>) -> bool
    decreases s.len(),
{
    if s.len() == 0 {
        true
    } else if s[0] == '\\' {
        s.len() > 1 && s[1] != '"' && literal_ok(s.subrange(2, s.len() as int))
    } else {
        literal_ok(s.drop_first())
    }
}

/// The round trip of string literals: a string the parser can make, printed
/// with `escape_source` and followed by a closing quote anywhere in a text, is
/// read by the lexer as one literal that ends at that quote and holds the same
/// string.
pub proof fn lemma_string_literal_round_trip(s: Seq<char>, t: Seq<char>, i: int)
    requires
        literal_ok(s),
        0 <= i,
        i + escape_source(s).len() < t.len(),
        t.subrange(i, i + escape_source(s).len()) == escape_source(s),
        t[i + escape_source(s).len()] == '"',
    ensures
        crate::parse::string_end(t, i) == Some(i + escape_source(s).len() + 1),
        crate::parse::unescape(t, i, i + escape_source(s).len()) == s,
    decreases s.len(),
{
    let e = escape_source(s);
    let end = i + e.len();
    if s.len() == 0 {
        assert(s =~= Seq::<char>::empty());
    } else if s[0] == '"' || (s[0] == '\\' && s.len() > 1 && s[1] != '"') {
        let rest = if s[0] == '"' {
            s.drop_first()
        } else {
            s.subrange(2, s.len() as int)
        };
        let er = escape_source(rest);
        assert(e.len() == 2 + er.len());
        assert(t[i] == e[0] && t[i + 1] == e[1]);
        assert forall|k: int| 0 <= k < er.len() implies t.subrange(i + 2, i + 2 + er.len())[k] == er[k] by {
            assert(t[i + 2 + k] == e[2 + k]);
        }
        assert(t.subrange(i + 2, i + 2 + er.len()) =~= er);
        lemma_string_literal_round_trip(rest, t, i + 2);
        if s[0] == '"' {
            assert(s =~= seq!['"'] + rest);
        } else {
            assert(s =~= seq![s[0], s[1]] + rest);
        }
    } else {
        let rest = s.drop_first();
        let er = escape_source(rest);
        assert(e.len() == 1 + er.len());
        assert(t[i] == e[0]);
        assert forall|k: int| 0 <= k < er.len() implies t.subrange(i + 1, i + 1 + er.len())[k] == er[k] by {
            assert(t[i + 1 + k] == e[1 + k]);
        }
        assert(t.subrange(i + 1, i + 1 + er.len()) =~= er);
        lemma_string_literal_round_trip(rest, t, i + 1);
        assert(s =~= seq![s[0]] + rest);
    }
}

/// Whether the text of `e` reads back as one atom without parentheses.
pub open spec fn is_atomic(e: ExprView) -> bool {
    match e {
        ExprView::Identifier(_) | ExprView::Number(_) | ExprView::Str(_) | ExprView::List(_)
        | ExprView::Table(_, _) | ExprView::Unary(_, _) | ExprView::Binary(_, _, _) => true,
        ExprView::Construct(_, _, ms) => ms.len() >= 2,
        _ => false,
    }
}

/// The text `t` of `e` where an atom is expected: in parentheses unless `e` is atomic.
pub open spec fn wrap(e: ExprView, t: Seq<char>) -> Seq<char> {
    if is_atomic(e) {
        t
    } else {
        "("@ + t + ")"@
    }
}

/// The pattern `C` or `C(x, y)`.
pub open spec fn pattern_text(name: Seq<char>, members: Seq<Seq<char>>) -> Seq<char> {
    if members.len() == 0 {
        name
    } else {
        name + "("@ + join_names(members) + ")"@
    }
}

/// An expression in the language's own syntax, parenthesised so that the
/// parser reads it back: operators as `(a + b)`, applications as `f a b`,
/// `x.body`, `if c then a else b`, `case v of | C(x) => e`, `let C(x) = v in e`,
/// `rec a b`, `C(a, b)`, `[a, b]`, `{"k": a}`, strings quoted.
pub open spec fn expr_text(e: ExprView) -> Seq<char>
    decreases e,
{
    match e {
        ExprView::Binary(op, a, b) => "("@ + wrap(*a, expr_text(*a)) + op_symbol(op) + wrap(*b, expr_text(*b)) + ")"@,
        ExprView::Unary(UnaryOp::Not, a) => "!"@ + wrap(*a, expr_text(*a)),
        ExprView::Unary(UnaryOp::Negate, a) => "-"@ + wrap(*a, expr_text(*a)),
        ExprView::IfThenElse(c, t, f) => "if "@ + wrap(*c, expr_text(*c)) + " then "@ + wrap(*t, expr_text(*t))
            + " else "@ + wrap(*f, expr_text(*f)),
        ExprView::CaseOf(_, v, pats, bodies) => "case "@ + wrap(*v, expr_text(*v)) + " of"@ + arms_text(
            pats,
            bodies,
        ),
        ExprView::Construct(_, name, ms) => name + "("@ + join_exprs(ms) + ")"@,
        ExprView::Deconstruct(_, name, ms, v, b) => "let "@ + pattern_text(name, ms) + " = "@ + wrap(
            *v,
            expr_text(*v),
        ) + " in "@ + wrap(*b, expr_text(*b)),
        ExprView::Identifier(x) => x,
        ExprView::Application(f, a) => (if *f is Application {
            expr_text(*f)
        } else {
            wrap(*f, expr_text(*f))
        }) + " "@ + wrap(*a, expr_text(*a)),
        ExprView::Lambda(x, b) => x + "."@ + expr_text(*b),
        ExprView::TailCall(items) => "rec"@ + spaced_exprs(items),
        ExprView::Table(keys, vals) => "{"@ + entries_text(keys, vals) + "}"@,
        ExprView::List(items) => "["@ + join_exprs(items) + "]"@,
        ExprView::Number(n) => n,
        ExprView::Str(s) => "\""@ + escape_source(s) + "\""@,
    }
}

/// The expressions, each as an atom, separated by `, `.
pub open spec fn join_exprs(s: Seq<ExprView>) -> Seq<char>
    decreases s,
{
    if s.len() == 0 {
        Seq::empty()
    } else {
        let prev = join_exprs(s.drop_last());
        (if s.len() > 1 {
            prev + ", "@
        } else {
            prev
        }) + wrap(s.last(), expr_text(s.last()))
    }
}

/// The expressions, each as an atom after a space.
pub open spec fn spaced_exprs(s: Seq<ExprView>) -> Seq<char>
    decreases s,
{
    if s.len() == 0 {
        Seq::empty()
    } else {
        spaced_exprs(s.drop_last()) + " "@ + wrap(s.last(), expr_text(s.last()))
    }
}

/// `"k": v` for each entry, separated by `, `.
pub open spec fn entries_text(keys: Seq<Seq<char>>, vals: Seq<ExprView>) -> Seq<char>
    decreases vals,
{
    if vals.len() == 0 {
        Seq::empty()
    } else {
        let prev = entries_text(keys, vals.drop_last());
        (if vals.len() > 1 {
            prev + ", "@
        } else {
            prev
        }) + "\""@ + escape_source(
            if vals.len() - 1 < keys.len() {
                keys[vals.len() - 1]
            } else {
                Seq::empty()
            },
        ) + "\": "@ + wrap(vals.last(), expr_text(vals.last()))
    }
}

/// ` | C(x, ..) => e` for each arm.
pub open spec fn arms_text(pats: Seq<ConstructorView>, bodies: Seq<ExprView>) -> Seq<char>
    decreases bodies,
{
    if bodies.len() == 0 {
        Seq::empty()
    } else {
        let i = bodies.len() - 1;
        let pat = if i < pats.len() {
            pats[i]
        } else {
            ConstructorView { name: Seq::empty(), members: Seq::empty() }
        };
        arms_text(pats, bodies.drop_last()) + " | "@ + pattern_text(pat.name, pat.members) + " => "@ + wrap(
            bodies.last(),
            expr_text(bodies.last()),
        )
    }
}

fn text(s: &str) -> (r: String)
    ensures
        r@ == s@,
{
    String::from_str(s)
}

fn cat(a: String, b: &String) -> (r: String)
    ensures
        r@ == a@ + b@,
{
    a.concat(b.as_str())
}

fn cat_lit(a: String, b: &str) -> (r: String)
    ensures
        r@ == a@ + b@,
{
    a.concat(b)
}

fn empty() -> (r: String)
    ensures
        r@ == Seq::<char>::empty(),
{
    let r = text("");
    proof {
        reveal_strlit("");
    }
    assert(r@ =~= Seq::<char>::empty());
    r
}

fn op_text(op: &BinaryOp) -> (r: String)
    ensures
        r@ == op_symbol(*op),
{
    match op {
        BinaryOp::And => text(" && "),
        BinaryOp::Or => text(" || "),
        BinaryOp::Equal => text(" == "),
        BinaryOp::NotEqual => text(" != "),
        BinaryOp::Greater => text(" > "),
        BinaryOp::GreaterEqual => text(" >= "),
        BinaryOp::Less => text(" < "),
        BinaryOp::LessEqual => text(" <= "),
        BinaryOp::Add => text(" + "),
        BinaryOp::Subtract => text(" - "),
        BinaryOp::Multiply => text(" * "),
        BinaryOp::Divide => text(" / "),
    }
}

fn join_names_exec(ns: &Vec<String>) -> (r: String)
    ensures
        r@ == join_names(ns.deep_view()),
{
    let ghost nv = ns.deep_view();
    let mut out = empty();
    let mut i: usize = 0;
    assert(nv.take(0) =~= Seq::<Seq<char>>::empty());
    while i < ns.len()
        invariant
            i <= ns.len(),
            nv == ns.deep_view(),
            nv.len() == ns.len(),
            out@ == join_names(nv.take(i as int)),
        decreases ns.len() - i,
    {
        assert(nv.take(i + 1).drop_last() =~= nv.take(i as int));
        assert(nv.take(i + 1).last() == ns@[i as int]@);
        if i > 0 {
            out = cat_lit(out, ", ");
        } else {
            assert(nv.take(1)[0] == ns@[0]@);
        }
        out = cat(out, &ns[i]);
        i += 1;
    }
    assert(nv.take(ns.len() as int) =~= nv);
    out
}

fn pattern_exec(name: &String, members: &Vec<String>) -> (r: String)
    ensures
        r@ == pattern_text(name@, members.deep_view()),
{
    if members.len() == 0 {
        name.clone()
    } else {
        cat_lit(cat(cat_lit(name.clone(), "("), &join_names_exec(members)), ")")
    }
}

/// The characters of `s` as they stand inside a string literal (see `escape_source`).
fn escape_source_exec(s: &String) -> (r: String)
    ensures
        r@ == escape_source(s@),
{
    let t = s.as_str();
    let n = t.unicode_len();
    let ghost sv = s@;
    let mut out = empty();
    let mut i: usize = 0;
    assert(sv.subrange(0, n as int) =~= sv);
    while i < n
        invariant
            n == sv.len(),
            t@ == sv,
            sv == s@,
            i <= n,
            out@ + escape_source(sv.subrange(i as int, n as int)) == escape_source(sv),
        decreases n - i,
    {
        let ghost rest = sv.subrange(i as int, n as int);
        let c = t.get_char(i);
        assert(rest[0] == c);
        proof {
            reveal_strlit("\\\"");
        }
        if c == '"' {
            assert(rest.drop_first() =~= sv.subrange(i + 1, n as int));
            assert("\\\""@ =~= seq!['\\', '"']);
            let ghost before = out@;
            out = cat_lit(out, "\\\"");
            assert(out@ + escape_source(sv.subrange(i + 1, n as int)) =~= before + escape_source(rest));
            i += 1;
        } else if c == '\\' && i + 1 < n && t.get_char(i + 1) != '"' {
            let pair = t.substring_char(i, i + 2);
            assert(pair@ =~= seq!['\\', rest[1]]);
            assert(rest.subrange(2, rest.len() as int) =~= sv.subrange(i + 2, n as int));
            let ghost before = out@;
            out = cat_lit(out, pair);
            assert(out@ + escape_source(sv.subrange(i + 2, n as int)) =~= before + escape_source(rest));
            i += 2;
        } else {
            let one = t.substring_char(i, i + 1);
            assert(one@ =~= seq![c]);
            assert(rest.drop_first() =~= sv.subrange(i + 1, n as int));
            let ghost before = out@;
            out = cat_lit(out, one);
            assert(out@ + escape_source(sv.subrange(i + 1, n as int)) =~= before + escape_source(rest));
            i += 1;
        }
    }
    assert(escape_source(sv.subrange(n as int, n as int)) =~= Seq::<char>::empty()) by {
        assert(sv.subrange(n as int, n as int).len() == 0);
    }
    assert(out@ =~= escape_source(sv));
    out
}

fn is_atomic_exec(e: &Expression) -> (r: bool)
    ensures
        r == is_atomic(e@),
{
    proof {
        crate::ast::lemma_exprs_view_len(*e);
    }
    match e {
        Expression::Identifier(_) | Expression::Number(_) | Expression::String(_) | Expression::List(_)
        | Expression::Table(_, _) | Expression::Unary(_, _) | Expression::Binary(_, _, _) => true,
        Expression::Construct { members, .. } => members.len() >= 2,
        _ => false,
    }
}

/// `e` where an atom is expected (see `wrap`).
fn atom_exec(e: &Expression) -> (r: String)
    ensures
        r@ == wrap(e@, expr_text(e@)),
    decreases e, 1nat,
{
    let t = e.to_text();
    if is_atomic_exec(e) {
        t
    } else {
        cat_lit(cat(text("("), &t), ")")
    }
}

impl Expression {
    /// This expression in the language's own syntax (see `expr_text`).
    pub fn to_text(&self) -> (r: String)
        ensures
            r@ == expr_text(self@),
        decreases self, 0nat,
    {
        match self {
            Expression::Binary(op, a, b) => {
                let ta = atom_exec(a);
                let tb = atom_exec(b);
                cat_lit(cat(cat(cat(text("("), &ta), &op_text(op)), &tb), ")")
            },
            Expression::Unary(op, a) => {
                let ta = atom_exec(a);
                match op {
                    UnaryOp::Not => cat(text("!"), &ta),
                    UnaryOp::Negate => cat(text("-"), &ta),
                }
            },
            Expression::IfThenElse { condition, then_case, else_case } => {
                let tc = atom_exec(condition);
                let tt = atom_exec(then_case);
                let tf = atom_exec(else_case);
                let head = cat_lit(cat(text("if "), &tc), " then ");
                cat(cat_lit(cat(head, &tt), " else "), &tf)
            },
            Expression::CaseOf { value, patterns, bodies, .. } => {
                let tv = atom_exec(value);
                let head = cat_lit(cat(text("case "), &tv), " of");
                cat(head, &arms_exec(patterns, bodies))
            },
            Expression::Construct { cons_name, members, .. } => {
                cat_lit(cat(cat_lit(cons_name.clone(), "("), &join_exec(members)), ")")
            },
            Expression::Deconstruct { cons_name, members, value, body, .. } => {
                let tv = atom_exec(value);
                let tb = atom_exec(body);
                let head = cat_lit(cat(text("let "), &pattern_exec(cons_name, members)), " = ");
                cat(cat_lit(cat(head, &tv), " in "), &tb)
            },
            Expression::Identifier(x) => x.clone(),
            Expression::Application(f, a) => {
                let head = match &**f {
                    Expression::Application(_, _) => f.to_text(),
                    _ => atom_exec(f),
                };
                cat(cat_lit(head, " "), &atom_exec(a))
            },
            Expression::Lambda(x, b) => {
                let tb = b.to_text();
                cat(cat_lit(x.clone(), "."), &tb)
            },
            Expression::TailCall(items) => cat(text("rec"), &spaced_exec(items)),
            Expression::Table(keys, values) => cat_lit(cat(text("{"), &entries_exec(keys, values)), "}"),
            Expression::List(items) => cat_lit(cat(text("["), &join_exec(items)), "]"),
            Expression::Number(n) => n.clone(),
            Expression::String(s) => cat_lit(cat(text("\""), &escape_source_exec(s)), "\""),
        }
    }
}

fn join_exec(items: &Vec<Expression>) -> (r: String)
    ensures
        r@ == join_exprs(exprs_view(items@)),
    decreases items,
{
    let ghost ev = exprs_view(items@);
    proof {
        lemma_exprs_view(items@);
    }
    let mut out = empty();
    let mut i: usize = 0;
    assert(ev.take(0) =~= Seq::<ExprView>::empty());
    while i < items.len()
        invariant
            i <= items.len(),
            ev == exprs_view(items@),
            ev.len() == items.len(),
            forall|j: int| 0 <= j < items.len() ==> ev[j] == items@[j]@,
            out@ == join_exprs(ev.take(i as int)),
        decreases items.len() - i,
    {
        assert(ev.take(i + 1).drop_last() =~= ev.take(i as int));
        assert(ev.take(i + 1).last() == items@[i as int]@);
        if i > 0 {
            out = cat_lit(out, ", ");
        }
        out = cat(out, &atom_exec(&items[i]));
        i += 1;
    }
    assert(ev.take(items.len() as int) =~= ev);
    out
}

fn spaced_exec(items: &Vec<Expression>) -> (r: String)
    ensures
        r@ == spaced_exprs(exprs_view(items@)),
    decreases items,
{
    let ghost ev = exprs_view(items@);
    proof {
        lemma_exprs_view(items@);
    }
    let mut out = empty();
    let mut i: usize = 0;
    assert(ev.take(0) =~= Seq::<ExprView>::empty());
    while i < items.len()
        invariant
            i <= items.len(),
            ev == exprs_view(items@),
            ev.len() == items.len(),
            forall|j: int| 0 <= j < items.len() ==> ev[j] == items@[j]@,
            out@ == spaced_exprs(ev.take(i as int)),
        decreases items.len() - i,
    {
        assert(ev.take(i + 1).drop_last() =~= ev.take(i as int));
        assert(ev.take(i + 1).last() == items@[i as int]@);
        out = cat(cat_lit(out, " "), &atom_exec(&items[i]));
        i += 1;
    }
    assert(ev.take(items.len() as int) =~= ev);
    out
}

fn entries_exec(keys: &Vec<String>, values: &Vec<Expression>) -> (r: String)
    ensures
        r@ == entries_text(keys.deep_view(), exprs_view(values@)),
    decreases values,
{
    let ghost ev = exprs_view(values@);
    let ghost kv = keys.deep_view();
    proof {
        lemma_exprs_view(values@);
    }
    let mut out = empty();
    let mut i: usize = 0;
    assert(ev.take(0) =~= Seq::<ExprView>::empty());
    while i < values.len()
        invariant
            i <= values.len(),
            ev == exprs_view(values@),
            kv == keys.deep_view(),
            ev.len() == values.len(),
            forall|j: int| 0 <= j < values.len() ==> ev[j] == values@[j]@,
            out@ == entries_text(kv, ev.take(i as int)),
        decreases values.len() - i,
    {
        assert(ev.take(i + 1).drop_last() =~= ev.take(i as int));
        assert(ev.take(i + 1).last() == values@[i as int]@);
        let key = if i < keys.len() {
            keys[i].clone()
        } else {
            empty()
        };
        assert(i < kv.len() ==> kv[i as int] == keys@[i as int]@);
        if i > 0 {
            out = cat_lit(out, ", ");
        }
        let t = atom_exec(&values[i]);
        out = cat(cat_lit(cat(cat_lit(out, "\""), &escape_source_exec(&key)), "\": "), &t);
        i += 1;
    }
    assert(ev.take(values.len() as int) =~= ev);
    out
}

fn arms_exec(patterns: &Vec<crate::ast::Constructor>, bodies: &Vec<Expression>) -> (r: String)
    ensures
        r@ == arms_text(crate::ast::cons_seq_view(patterns@), exprs_view(bodies@)),
    decreases bodies,
{
    let ghost ev = exprs_view(bodies@);
    let ghost pv = crate::ast::cons_seq_view(patterns@);
    proof {
        lemma_exprs_view(bodies@);
    }
    let mut out = empty();
    let mut i: usize = 0;
    assert(ev.take(0) =~= Seq::<ExprView>::empty());
    while i < bodies.len()
        invariant
            i <= bodies.len(),
            ev == exprs_view(bodies@),
            pv == crate::ast::cons_seq_view(patterns@),
            ev.len() == bodies.len(),
            forall|j: int| 0 <= j < bodies.len() ==> ev[j] == bodies@[j]@,
            out@ == arms_text(pv, ev.take(i as int)),
        decreases bodies.len() - i,
    {
        assert(ev.take(i + 1).drop_last() =~= ev.take(i as int));
        assert(ev.take(i + 1).last() == bodies@[i as int]@);
        let t = atom_exec(&bodies[i]);
        let pat = if i < patterns.len() {
            pattern_exec(&patterns[i].name, &patterns[i].members)
        } else {
            empty()
        };
        assert(i < pv.len() ==> pv[i as int] == patterns@[i as int]@);
        assert(pattern_text(Seq::<char>::empty(), Seq::<Seq<char>>::empty()) =~= Seq::<char>::empty());
        out = cat(cat_lit(cat(cat_lit(out, " | "), &pat), " => "), &t);
        i += 1;
    }
    assert(ev.take(bodies.len() as int) =~= ev);
    out
}

// ---------------------------------------------------------------------------
// Arity warnings
// ---------------------------------------------------------------------------

pub proof fn lemma_arity_nonnegative(e: ExprView)
    ensures
        arity(e) >= 0,
    decreases e,
{
    match e {
        ExprView::Lambda(_, b) => lemma_arity_nonnegative(*b),
        ExprView::Application(a, _) => {
            if let ExprView::Lambda(_, b) = *a {
                lemma_arity_nonnegative(*b);
                assert(arity(*a) == arity(*b) + 1);
            }
        },
        _ => {},
    }
}

/// Whether two expressions take the same number of arguments (see `arity`).
pub fn same_arity(a: &Expression, b: &Expression) -> (r: bool)
    ensures
        r == (arity(a@) == arity(b@)),
    decreases a, b,
{
    if let Expression::Application(f, _) = a {
        if let Expression::Lambda(_, body) = &**f {
            assert(arity(f@) == arity(body@) + 1);
            return same_arity(body, b);
        }
    }
    if let Expression::Application(f, _) = b {
        if let Expression::Lambda(_, body) = &**f {
            assert(arity(f@) == arity(body@) + 1);
            return same_arity(a, body);
        }
    }
    match (a, b) {
        (Expression::Lambda(_, x), Expression::Lambda(_, y)) => same_arity(x, y),
        (Expression::Lambda(_, x), _) => {
            proof {
                lemma_arity_nonnegative(x@);
            }
            false
        },
        (_, Expression::Lambda(_, y)) => {
            proof {
                lemma_arity_nonnegative(y@);
            }
            false
        },
        _ => true,
    }
}

pub open spec fn if_warning(e: ExprView) -> Seq<char> {
    "Warning: Different type signatures for branches of if expression \n\""@ + expr_text(e) + "\""@
}

pub open spec fn case_warning(e: ExprView) -> Seq<char> {
    "Warning: Different type signatures for cases in expression \n\""@ + expr_text(e) + "\""@
}

/// The warnings for branches that take different numbers of arguments, in
/// pre-order: an `if` whose two branches differ, and each arm of a `case` that
/// differs from its first arm.
pub open spec fn warnings(e: ExprView) -> Seq<Seq<char>>
    decreases e,
{
    match e {
        ExprView::Binary(_, a, b) => warnings(*a) + warnings(*b),
        ExprView::Unary(_, a) => warnings(*a),
        ExprView::IfThenElse(c, t, f) => (if arity(*t) != arity(*f) {
            seq![if_warning(e)]
        } else {
            Seq::empty()
        }) + warnings(*c) + warnings(*t) + warnings(*f),
        ExprView::CaseOf(_, v, _, bodies) => warnings(*v) + arm_warnings(bodies, e),
        ExprView::Construct(_, _, ms) => all_warnings(ms),
        ExprView::Deconstruct(_, _, _, v, b) => warnings(*v) + warnings(*b),
        ExprView::Application(a, b) => warnings(*a) + warnings(*b),
        ExprView::Lambda(_, b) => warnings(*b),
        ExprView::TailCall(items) => all_warnings(items),
        ExprView::Table(_, vals) => all_warnings(vals),
        ExprView::List(items) => all_warnings(items),
        _ => Seq::empty(),
    }
}

pub open spec fn all_warnings(s: Seq<ExprView>) -> Seq<Seq<char>>
    decreases s,
{
    if s.len() == 0 {
        Seq::empty()
    } else {
        all_warnings(s.drop_last()) + warnings(s.last())
    }
}

/// For each arm body: its own warnings, then one for `whole` when the body
/// takes another number of arguments than the first body.
pub open spec fn arm_warnings(bodies: Seq<ExprView>, whole: ExprView) -> Seq<Seq<char>>
    decreases bodies,
{
    if bodies.len() == 0 {
        Seq::empty()
    } else {
        arm_warnings(bodies.drop_last(), whole) + warnings(bodies.last()) + (if arity(bodies.last())
            != arity(bodies[0]) {
            seq![case_warning(whole)]
        } else {
            Seq::empty()
        })
    }
}

fn append_all(out: &mut Vec<String>, more: Vec<String>)
    ensures
        final(out).deep_view() == old(out).deep_view() + more.deep_view(),
{
    let ghost start = out.deep_view();
    let mut i: usize = 0;
    while i < more.len()
        invariant
            i <= more.len(),
            out.deep_view() == start + more.deep_view().take(i as int),
        decreases more.len() - i,
    {
        let ghost before = out.deep_view();
        out.push(more[i].clone());
        assert(out.deep_view() =~= before.push(more@[i as int]@));
        assert(more.deep_view().take(i + 1) =~= more.deep_view().take(i as int).push(more@[i as int]@));
        i += 1;
    }
    assert(more.deep_view().take(more.len() as int) =~= more.deep_view());
}

impl Expression {
    /// The arity warnings of this expression (see `warnings`).
    pub fn arity_warnings(&self) -> (r: Vec<String>)
        ensures
            r.deep_view() == warnings(self@),
        decreases self,
    {
        let mut out: Vec<String> = Vec::new();
        assert(out.deep_view() =~= Seq::<Seq<char>>::empty());
        match self {
            Expression::Binary(_, a, b) => {
                append_all(&mut out, a.arity_warnings());
                append_all(&mut out, b.arity_warnings());
            },
            Expression::Unary(_, a) => {
                append_all(&mut out, a.arity_warnings());
            },
            Expression::IfThenElse { condition, then_case, else_case } => {
                if !same_arity(then_case, else_case) {
                    let msg = cat_lit(
                        cat(
                            text("Warning: Different type signatures for branches of if expression \n\""),
                            &self.to_text(),
                        ),
                        "\"",
                    );
                    out.push(msg);
                }
                append_all(&mut out, condition.arity_warnings());
                append_all(&mut out, then_case.arity_warnings());
                append_all(&mut out, else_case.arity_warnings());
            },
            Expression::CaseOf { value, bodies, .. } => {
                append_all(&mut out, value.arity_warnings());
                let message = cat_lit(
                    cat(
                        text("Warning: Different type signatures for cases in expression \n\""),
                        &self.to_text(),
                    ),
                    "\"",
                );
                append_all(&mut out, case_warnings(bodies, &message, Ghost(self@)));
            },
            Expression::Construct { members, .. } => {
                append_all(&mut out, warnings_of_all(members));
            },
            Expression::Deconstruct { value, body, .. } => {
                append_all(&mut out, value.arity_warnings());
                append_all(&mut out, body.arity_warnings());
            },
            Expression::Application(a, b) => {
                append_all(&mut out, a.arity_warnings());
                append_all(&mut out, b.arity_warnings());
            },
            Expression::Lambda(_, b) => {
                append_all(&mut out, b.arity_warnings());
            },
            Expression::TailCall(items) => {
                append_all(&mut out, warnings_of_all(items));
            },
            Expression::Table(_, values) => {
                append_all(&mut out, warnings_of_all(values));
            },
            Expression::List(items) => {
                append_all(&mut out, warnings_of_all(items));
            },
            _ => {},
        }
        assert(out.deep_view() =~= warnings(self@));
        out
    }
}

fn warnings_of_all(items: &Vec<Expression>) -> (r: Vec<String>)
    ensures
        r.deep_view() == all_warnings(exprs_view(items@)),
    decreases items,
{
    let ghost ev = exprs_view(items@);
    proof {
        lemma_exprs_view(items@);
    }
    let mut out: Vec<String> = Vec::new();
    let mut i: usize = 0;
    assert(ev.take(0) =~= Seq::<ExprView>::empty());
    assert(out.deep_view() =~= Seq::<Seq<char>>::empty());
    while i < items.len()
        invariant
            i <= items.len(),
            ev == exprs_view(items@),
            ev.len() == items.len(),
            forall|j: int| 0 <= j < items.len() ==> ev[j] == items@[j]@,
            out.deep_view() == all_warnings(ev.take(i as int)),
        decreases items.len() - i,
    {
        assert(ev.take(i + 1).drop_last() =~= ev.take(i as int));
        assert(ev.take(i + 1).last() == items@[i as int]@);
        append_all(&mut out, items[i].arity_warnings());
        i += 1;
    }
    assert(ev.take(items.len() as int) =~= ev);
    out
}

fn case_warnings(bodies: &Vec<Expression>, message: &String, whole: Ghost<ExprView>) -> (r: Vec<String>)
    requires
        message@ == case_warning(whole@),
    ensures
        r.deep_view() == arm_warnings(exprs_view(bodies@), whole@),
    decreases bodies,
{
    let ghost ev = exprs_view(bodies@);
    proof {
        lemma_exprs_view(bodies@);
    }
    let mut out: Vec<String> = Vec::new();
    assert(ev.take(0) =~= Seq::<ExprView>::empty());
    assert(out.deep_view() =~= Seq::<Seq<char>>::empty());
    let mut i: usize = 0;
    while i < bodies.len()
        invariant
            i <= bodies.len(),
            ev == exprs_view(bodies@),
            ev.len() == bodies.len(),
            forall|j: int| 0 <= j < bodies.len() ==> ev[j] == bodies@[j]@,
            message@ == case_warning(whole@),
            out.deep_view() == arm_warnings(ev.take(i as int), whole@),
        decreases bodies.len() - i,
    {
        assert(ev.take(i + 1).drop_last() =~= ev.take(i as int));
        assert(ev.take(i + 1).last() == bodies@[i as int]@);
        assert(ev.take(i + 1)[0] == bodies@[0]@);
        let ghost before = out.deep_view();
        let inner = bodies[i].arity_warnings();
        append_all(&mut out, inner);
        let ghost mid = out.deep_view();
        if !same_arity(&bodies[i], &bodies[0]) {
            out.push(message.clone());
            assert(out.deep_view() =~= mid.push(message@));
        } else {
            assert(mid + Seq::<Seq<char>>::empty() =~= mid);
        }
        assert(out.deep_view() =~= arm_warnings(ev.take(i + 1), whole@));
        i += 1;
    }
    assert(ev.take(bodies.len() as int) =~= ev);
    out
}
} // verus!
