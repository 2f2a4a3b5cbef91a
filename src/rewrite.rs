use vstd::prelude::*;

use crate::ast::{
    cons_seq_view, copy_constructors, copy_names, copy_opt_cons, copy_opt_data, data_seq_view,
    exprs_view, lemma_exprs_view, opt_cons_view, opt_data_view, Constant, Constructor,
    ConstructorView, Data, DataView, ExprView, Expression,
};

verus! {

broadcast use lemma_exprs_view;

/// The binder that stands for a recursive function inside its own body.
pub open spec fn recursion_argument() -> Seq<char> {
    seq!['r', 'e', 'c']
}

/// The name of the fixed-point combinator.
pub open spec fn fixpoint_name() -> Seq<char> {
    seq!['Y']
}

pub fn recursion_argument_string() -> (r: String)
    ensures
        r@ == recursion_argument(),
{
    let s = String::from_str("rec");
    proof {
        reveal_strlit("rec");
    }
    assert(s@ =~= recursion_argument());
    s
}

impl Expression {
    /// The fixed-point combinator, which the runtime provides as `Y`.
    pub fn y_combinator() -> (r: Expression)
        ensures
            r@ == ExprView::Identifier(fixpoint_name()),
    {
        Expression::Identifier(fixpoint_string())
    }
}

pub fn fixpoint_string() -> (r: String)
    ensures
        r@ == fixpoint_name(),
{
    let s = String::from_str("Y");
    proof {
        reveal_strlit("Y");
    }
    assert(s@ =~= fixpoint_name());
    s
}

// ---------------------------------------------------------------------------
// Occurrences of a name
// ---------------------------------------------------------------------------

/// Whether the identifier `n` occurs anywhere in `e` (binders are not looked at).
pub open spec fn mentions(e: ExprView, n: Seq<char>) -> bool
    decreases e,
{
    match e {
        ExprView::Binary(_, a, b) => mentions(*a, n) || mentions(*b, n),
        ExprView::Unary(_, a) => mentions(*a, n),
        ExprView::IfThenElse(c, t, f) => mentions(*c, n) || mentions(*t, n) || mentions(*f, n),
        ExprView::CaseOf(_, v, _, bodies) => mentions(*v, n) || mentions_any(bodies, n),
        ExprView::Construct(_, _, ms) => mentions_any(ms, n),
        ExprView::Deconstruct(_, _, _, v, b) => mentions(*v, n) || mentions(*b, n),
        ExprView::Identifier(x) => x == n,
        ExprView::Application(a, b) => mentions(*a, n) || mentions(*b, n),
        ExprView::Lambda(_, b) => mentions(*b, n),
        ExprView::TailCall(items) => mentions_any(items, n),
        ExprView::Table(_, vals) => mentions_any(vals, n),
        ExprView::List(items) => mentions_any(items, n),
        ExprView::Number(_) => false,
        ExprView::Str(_) => false,
    }
}

pub open spec fn mentions_any(s: Seq<ExprView>, n: Seq<char>) -> bool
    decreases s,
{
    if s.len() == 0 {
        false
    } else {
        mentions_any(s.drop_last(), n) || mentions(s.last(), n)
    }
}

pub proof fn lemma_mentions_any(s: Seq<ExprView>, n: Seq<char>)
    ensures
        mentions_any(s, n) <==> exists|i: int| 0 <= i < s.len() && mentions(s[i], n),
    decreases s.len(),
{
    if s.len() > 0 {
        lemma_mentions_any(s.drop_last(), n);
        if mentions(s.last(), n) {
            assert(mentions(s[s.len() - 1], n));
        }
        if exists|i: int| 0 <= i < s.len() && mentions(s[i], n) {
            let i = choose|i: int| 0 <= i < s.len() && mentions(s[i], n);
            if i < s.len() - 1 {
                assert(mentions(s.drop_last()[i], n));
            }
        }
    }
}

/// Whether `e` holds a tail call (`rec ...`) anywhere.
pub open spec fn has_tailcall(e: ExprView) -> bool
    decreases e,
{
    match e {
        ExprView::Binary(_, a, b) => has_tailcall(*a) || has_tailcall(*b),
        ExprView::Unary(_, a) => has_tailcall(*a),
        ExprView::IfThenElse(c, t, f) => has_tailcall(*c) || has_tailcall(*t) || has_tailcall(*f),
        ExprView::CaseOf(_, v, _, bodies) => has_tailcall(*v) || any_tailcall(bodies),
        ExprView::Construct(_, _, ms) => any_tailcall(ms),
        ExprView::Deconstruct(_, _, _, v, b) => has_tailcall(*v) || has_tailcall(*b),
        ExprView::Identifier(_) => false,
        ExprView::Application(a, b) => has_tailcall(*a) || has_tailcall(*b),
        ExprView::Lambda(_, b) => has_tailcall(*b),
        ExprView::TailCall(_) => true,
        ExprView::Table(_, vals) => any_tailcall(vals),
        ExprView::List(items) => any_tailcall(items),
        ExprView::Number(_) => false,
        ExprView::Str(_) => false,
    }
}

pub open spec fn any_tailcall(s: Seq<ExprView>) -> bool
    decreases s,
{
    if s.len() == 0 {
        false
    } else {
        any_tailcall(s.drop_last()) || has_tailcall(s.last())
    }
}

pub proof fn lemma_any_tailcall(s: Seq<ExprView>)
    ensures
        any_tailcall(s) <==> exists|i: int| 0 <= i < s.len() && has_tailcall(s[i]),
    decreases s.len(),
{
    if s.len() > 0 {
        lemma_any_tailcall(s.drop_last());
        if has_tailcall(s.last()) {
            assert(has_tailcall(s[s.len() - 1]));
        }
        if exists|i: int| 0 <= i < s.len() && has_tailcall(s[i]) {
            let i = choose|i: int| 0 <= i < s.len() && has_tailcall(s[i]);
            if i < s.len() - 1 {
                assert(has_tailcall(s.drop_last()[i]));
            }
        }
    }
}

impl Expression {
    /// Whether the identifier `name` occurs in this expression.
    pub fn has_binding(&self, name: &String) -> (r: bool)
        ensures
            r == mentions(self@, name@),
        decreases self,
    {
        match self {
            Expression::Binary(_, a, b) => a.has_binding(name) || b.has_binding(name),
            Expression::Unary(_, a) => a.has_binding(name),
            Expression::IfThenElse { condition, then_case, else_case } => condition.has_binding(name)
                || then_case.has_binding(name) || else_case.has_binding(name),
            Expression::CaseOf { value, bodies, .. } => value.has_binding(name) || any_has_binding(
                bodies,
                name,
            ),
            Expression::Construct { members, .. } => any_has_binding(members, name),
            Expression::Deconstruct { value, body, .. } => value.has_binding(name)
                || body.has_binding(name),
            Expression::Identifier(n) => *n == *name,
            Expression::Application(a, b) => a.has_binding(name) || b.has_binding(name),
            Expression::Lambda(_, b) => b.has_binding(name),
            Expression::TailCall(items) => any_has_binding(items, name),
            Expression::Table(_, values) => any_has_binding(values, name),
            Expression::List(items) => any_has_binding(items, name),
            Expression::Number(_) => false,
            Expression::String(_) => false,
        }
    }

    /// Whether this expression holds a tail call anywhere.
    pub fn is_recursive(&self) -> (r: bool)
        ensures
            r == has_tailcall(self@),
        decreases self,
    {
        match self {
            Expression::Binary(_, a, b) => a.is_recursive() || b.is_recursive(),
            Expression::Unary(_, a) => a.is_recursive(),
            Expression::IfThenElse { condition, then_case, else_case } => condition.is_recursive()
                || then_case.is_recursive() || else_case.is_recursive(),
            Expression::CaseOf { value, bodies, .. } => value.is_recursive() || any_recursive(
                bodies,
            ),
            Expression::Construct { members, .. } => any_recursive(members),
            Expression::Deconstruct { value, body, .. } => value.is_recursive()
                || body.is_recursive(),
            Expression::Identifier(_) => false,
            Expression::Application(a, b) => a.is_recursive() || b.is_recursive(),
            Expression::Lambda(_, b) => b.is_recursive(),
            Expression::TailCall(_) => true,
            Expression::Table(_, values) => any_recursive(values),
            Expression::List(items) => any_recursive(items),
            Expression::Number(_) => false,
            Expression::String(_) => false,
        }
    }
}

fn any_has_binding(items: &Vec<Expression>, name: &String) -> (r: bool)
    ensures
        r == mentions_any(exprs_view(items@), name@),
    decreases items,
{
    proof {
        lemma_mentions_any(exprs_view(items@), name@);
        lemma_exprs_view(items@);
    }
    let mut i: usize = 0;
    while i < items.len()
        invariant
            i <= items.len(),
            forall|j: int| 0 <= j < i ==> !mentions(items@[j]@, name@),
        decreases items.len() - i,
    {
        if items[i].has_binding(name) {
            proof {
                lemma_mentions_any(exprs_view(items@), name@);
                lemma_exprs_view(items@);
            }
            assert(mentions(exprs_view(items@)[i as int], name@));
            return true;
        }
        i += 1;
    }
    false
}

fn any_recursive(items: &Vec<Expression>) -> (r: bool)
    ensures
        r == any_tailcall(exprs_view(items@)),
    decreases items,
{
    proof {
        lemma_any_tailcall(exprs_view(items@));
        lemma_exprs_view(items@);
    }
    let mut i: usize = 0;
    while i < items.len()
        invariant
            i <= items.len(),
            forall|j: int| 0 <= j < i ==> !has_tailcall(items@[j]@),
        decreases items.len() - i,
    {
        if items[i].is_recursive() {
            proof {
                lemma_any_tailcall(exprs_view(items@));
                lemma_exprs_view(items@);
            }
            assert(has_tailcall(exprs_view(items@)[i as int]));
            return true;
        }
        i += 1;
    }
    false
}


/// `f a1 .. an`, applied from the left.
pub open spec fn app_chain(f: ExprView, args: Seq<ExprView>) -> ExprView
    decreases args.len(),
{
    if args.len() == 0 {
        f
    } else {
        ExprView::Application(Box::new(app_chain(f, args.drop_last())), Box::new(args.last()))
    }
}

/// Two constructors agree on name and arity.
pub open spec fn same_shape(a: ConstructorView, b: ConstructorView) -> bool {
    a.name == b.name && a.members.len() == b.members.len()
}

/// Some constructor of `cs` has the name and arity of `p`.
pub open spec fn has_shape(cs: Seq<ConstructorView>, p: ConstructorView) -> bool {
    exists|j: int| 0 <= j < cs.len() && #[trigger] same_shape(cs[j], p)
}

/// Every arm pattern is a constructor of `d`, by name and arity, and there is an arm.
pub open spec fn covers(d: DataView, pats: Seq<ConstructorView>) -> bool {
    &&& pats.len() > 0
    &&& forall|i: int| 0 <= i < pats.len() ==> has_shape(d.cons, #[trigger] pats[i])
}

/// The first data type from index `i` on that covers the arm patterns.
pub open spec fn first_covering(ds: Seq<DataView>, pats: Seq<ConstructorView>, i: int) -> Option<DataView>
    decreases ds.len() - i,
{
    if i < 0 || i >= ds.len() {
        None
    } else if covers(ds[i], pats) {
        Some(ds[i])
    } else {
        first_covering(ds, pats, i + 1)
    }
}

/// The first constructor from index `i` on with the given name and arity.
pub open spec fn first_shaped(cs: Seq<ConstructorView>, name: Seq<char>, arity: nat, i: int) -> Option<ConstructorView>
    decreases cs.len() - i,
{
    if i < 0 || i >= cs.len() {
        None
    } else if cs[i].name == name && cs[i].members.len() == arity {
        Some(cs[i])
    } else {
        first_shaped(cs, name, arity, i + 1)
    }
}

/// The first constructor with the given name and arity among the data types from index `i` on.
pub open spec fn first_data_shaped(ds: Seq<DataView>, name: Seq<char>, arity: nat, i: int) -> Option<ConstructorView>
    decreases ds.len() - i,
{
    if i < 0 || i >= ds.len() {
        None
    } else {
        match first_shaped(ds[i].cons, name, arity, 0) {
            Some(c) => Some(c),
            None => first_data_shaped(ds, name, arity, i + 1),
        }
    }
}

/// A standalone (`type`) constructor first, else one of a data type.
pub open spec fn lookup_constructor(ds: Seq<DataView>, cs: Seq<ConstructorView>, name: Seq<char>, arity: nat) -> Option<ConstructorView> {
    match first_shaped(cs, name, arity, 0) {
        Some(c) => Some(c),
        None => first_data_shaped(ds, name, arity, 0),
    }
}

/// The tail-call pass on a function body: a body with a tail call becomes
/// `Y (λrec. body')`; any other body is left as it is.
pub open spec fn lift_head(e: ExprView) -> ExprView {
    if has_tailcall(e) {
        ExprView::Application(
            Box::new(ExprView::Identifier(fixpoint_name())),
            Box::new(ExprView::Lambda(recursion_argument(), Box::new(lift(e)))),
        )
    } else {
        e
    }
}
/// `e` with every identifier `n` replaced by `v`.
pub open spec fn subst(e: ExprView, target: Seq<char>, replacement: ExprView) -> ExprView
    decreases e,
{
    match e {
        ExprView::Binary(op, a, b) => ExprView::Binary(op, Box::new(subst(*a, target, replacement)), Box::new(subst(*b, target, replacement))),
        ExprView::Unary(op, a) => ExprView::Unary(op, Box::new(subst(*a, target, replacement))),
        ExprView::IfThenElse(c, t, f) => ExprView::IfThenElse(
            Box::new(subst(*c, target, replacement)),
            Box::new(subst(*t, target, replacement)),
            Box::new(subst(*f, target, replacement)),
        ),
        ExprView::CaseOf(d, sv, pats, bodies) => ExprView::CaseOf(d, Box::new(subst(*sv, target, replacement)), pats, subst_all(bodies, target, replacement)),
        ExprView::Construct(d, name, ms) => ExprView::Construct(d, name, subst_all(ms, target, replacement)),
        ExprView::Deconstruct(d, name, ms, sv, b) => ExprView::Deconstruct(d, name, ms, Box::new(subst(*sv, target, replacement)), Box::new(subst(*b, target, replacement))),
        ExprView::Identifier(x) => if x == target { replacement } else { e },
        ExprView::Application(a, b) => ExprView::Application(Box::new(subst(*a, target, replacement)), Box::new(subst(*b, target, replacement))),
        ExprView::Lambda(x, b) => ExprView::Lambda(x, Box::new(subst(*b, target, replacement))),
        ExprView::TailCall(items) => ExprView::TailCall(subst_all(items, target, replacement)),
        ExprView::Table(keys, vals) => ExprView::Table(keys, subst_all(vals, target, replacement)),
        ExprView::List(items) => ExprView::List(subst_all(items, target, replacement)),
        ExprView::Number(_) => e,
        ExprView::Str(_) => e,
    }
}

pub open spec fn subst_all(s: Seq<ExprView>, target: Seq<char>, replacement: ExprView) -> Seq<ExprView>
    decreases s,
{
    if s.len() == 0 {
        Seq::empty()
    } else {
        subst_all(s.drop_last(), target, replacement).push(subst(s.last(), target, replacement))
    }
}

pub proof fn lemma_subst_all(s: Seq<ExprView>, target: Seq<char>, replacement: ExprView)
    ensures
        subst_all(s, target, replacement).len() == s.len(),
        forall|i: int| 0 <= i < s.len() ==> subst_all(s, target, replacement)[i] == subst(s[i], target, replacement),
    decreases s.len(),
{
    if s.len() > 0 {
        lemma_subst_all(s.drop_last(), target, replacement);
    }
}

/// `e` with each use of constructor `c` made a `Construct`: a bare name when `c`
/// has no members, an application of the name to one argument when it has one.
pub open spec fn promote(e: ExprView, ctor: ConstructorView) -> ExprView
    decreases e,
{
    match e {
        ExprView::Binary(op, a, b) => ExprView::Binary(op, Box::new(promote(*a, ctor)), Box::new(promote(*b, ctor))),
        ExprView::Unary(op, a) => ExprView::Unary(op, Box::new(promote(*a, ctor))),
        ExprView::IfThenElse(ec, t, f) => ExprView::IfThenElse(
            Box::new(promote(*ec, ctor)),
            Box::new(promote(*t, ctor)),
            Box::new(promote(*f, ctor)),
        ),
        ExprView::CaseOf(d, v, pats, bodies) => ExprView::CaseOf(d, Box::new(promote(*v, ctor)), pats, promote_all(bodies, ctor)),
        ExprView::Construct(d, name, ms) => ExprView::Construct(d, name, promote_all(ms, ctor)),
        ExprView::Deconstruct(d, name, ms, v, b) => ExprView::Deconstruct(d, name, ms, Box::new(promote(*v, ctor)), Box::new(promote(*b, ctor))),
        ExprView::Identifier(x) => if x == ctor.name && ctor.members.len() == 0 { ExprView::Construct(Some(ctor), ctor.name, Seq::empty()) } else { e },
        ExprView::Application(a, b) => if *a is Identifier && a->Identifier_0 == ctor.name && ctor.members.len() == 1 {
            ExprView::Construct(Some(ctor), ctor.name, seq![promote(*b, ctor)])
        } else {
            ExprView::Application(Box::new(promote(*a, ctor)), Box::new(promote(*b, ctor)))
        },
        ExprView::Lambda(x, b) => ExprView::Lambda(x, Box::new(promote(*b, ctor))),
        ExprView::TailCall(items) => ExprView::TailCall(promote_all(items, ctor)),
        ExprView::Table(keys, vals) => ExprView::Table(keys, promote_all(vals, ctor)),
        ExprView::List(items) => ExprView::List(promote_all(items, ctor)),
        ExprView::Number(_) => e,
        ExprView::Str(_) => e,
    }
}

pub open spec fn promote_all(s: Seq<ExprView>, ctor: ConstructorView) -> Seq<ExprView>
    decreases s,
{
    if s.len() == 0 {
        Seq::empty()
    } else {
        promote_all(s.drop_last(), ctor).push(promote(s.last(), ctor))
    }
}

pub proof fn lemma_promote_all(s: Seq<ExprView>, ctor: ConstructorView)
    ensures
        promote_all(s, ctor).len() == s.len(),
        forall|i: int| 0 <= i < s.len() ==> promote_all(s, ctor)[i] == promote(s[i], ctor),
    decreases s.len(),
{
    if s.len() > 0 {
        lemma_promote_all(s.drop_last(), ctor);
    }
}

/// `e` with each unresolved `case` given the first declared data type that covers its
/// arms, and each unresolved construct or destructuring given its constructor.
pub open spec fn resolve(e: ExprView, ds: Seq<DataView>, cs: Seq<ConstructorView>) -> ExprView
    decreases e,
{
    match e {
        ExprView::Binary(op, a, b) => ExprView::Binary(op, Box::new(resolve(*a, ds, cs)), Box::new(resolve(*b, ds, cs))),
        ExprView::Unary(op, a) => ExprView::Unary(op, Box::new(resolve(*a, ds, cs))),
        ExprView::IfThenElse(c, t, f) => ExprView::IfThenElse(
            Box::new(resolve(*c, ds, cs)),
            Box::new(resolve(*t, ds, cs)),
            Box::new(resolve(*f, ds, cs)),
        ),
        ExprView::CaseOf(d, v, pats, bodies) => ExprView::CaseOf(if d is Some { d } else { first_covering(ds, pats, 0) }, Box::new(resolve(*v, ds, cs)), pats, resolve_all(bodies, ds, cs)),
        ExprView::Construct(d, name, ms) => ExprView::Construct(if d is Some { d } else { lookup_constructor(ds, cs, name, ms.len()) }, name, resolve_all(ms, ds, cs)),
        ExprView::Deconstruct(d, name, ms, v, b) => ExprView::Deconstruct(if d is Some { d } else { lookup_constructor(ds, cs, name, ms.len()) }, name, ms, Box::new(resolve(*v, ds, cs)), Box::new(resolve(*b, ds, cs))),
        ExprView::Identifier(x) => e,
        ExprView::Application(a, b) => ExprView::Application(Box::new(resolve(*a, ds, cs)), Box::new(resolve(*b, ds, cs))),
        ExprView::Lambda(x, b) => ExprView::Lambda(x, Box::new(resolve(*b, ds, cs))),
        ExprView::TailCall(items) => ExprView::TailCall(resolve_all(items, ds, cs)),
        ExprView::Table(keys, vals) => ExprView::Table(keys, resolve_all(vals, ds, cs)),
        ExprView::List(items) => ExprView::List(resolve_all(items, ds, cs)),
        ExprView::Number(_) => e,
        ExprView::Str(_) => e,
    }
}

pub open spec fn resolve_all(s: Seq<ExprView>, ds: Seq<DataView>, cs: Seq<ConstructorView>) -> Seq<ExprView>
    decreases s,
{
    if s.len() == 0 {
        Seq::empty()
    } else {
        resolve_all(s.drop_last(), ds, cs).push(resolve(s.last(), ds, cs))
    }
}

pub proof fn lemma_resolve_all(s: Seq<ExprView>, ds: Seq<DataView>, cs: Seq<ConstructorView>)
    ensures
        resolve_all(s, ds, cs).len() == s.len(),
        forall|i: int| 0 <= i < s.len() ==> resolve_all(s, ds, cs)[i] == resolve(s[i], ds, cs),
    decreases s.len(),
{
    if s.len() > 0 {
        lemma_resolve_all(s.drop_last(), ds, cs);
    }
}

/// `e` with each tail call `rec e1 .. en` written as the application `rec e1 .. en`.
pub open spec fn lift(e: ExprView) -> ExprView
    decreases e,
{
    match e {
        ExprView::Binary(op, a, b) => ExprView::Binary(op, Box::new(lift(*a)), Box::new(lift(*b))),
        ExprView::Unary(op, a) => ExprView::Unary(op, Box::new(lift(*a))),
        ExprView::IfThenElse(c, t, f) => ExprView::IfThenElse(
            Box::new(lift(*c)),
            Box::new(lift(*t)),
            Box::new(lift(*f)),
        ),
        ExprView::CaseOf(d, v, pats, bodies) => ExprView::CaseOf(d, Box::new(lift(*v)), pats, lift_all(bodies)),
        ExprView::Construct(d, name, ms) => ExprView::Construct(d, name, lift_all(ms)),
        ExprView::Deconstruct(d, name, ms, v, b) => ExprView::Deconstruct(d, name, ms, Box::new(lift(*v)), Box::new(lift(*b))),
        ExprView::Identifier(x) => e,
        ExprView::Application(a, b) => ExprView::Application(Box::new(lift(*a)), Box::new(lift(*b))),
        ExprView::Lambda(x, b) => ExprView::Lambda(x, Box::new(lift(*b))),
        ExprView::TailCall(items) => app_chain(ExprView::Identifier(recursion_argument()), lift_all(items)),
        ExprView::Table(keys, vals) => ExprView::Table(keys, lift_all(vals)),
        ExprView::List(items) => ExprView::List(lift_all(items)),
        ExprView::Number(_) => e,
        ExprView::Str(_) => e,
    }
}

pub open spec fn lift_all(s: Seq<ExprView>) -> Seq<ExprView>
    decreases s,
{
    if s.len() == 0 {
        Seq::empty()
    } else {
        lift_all(s.drop_last()).push(lift(s.last()))
    }
}

pub proof fn lemma_lift_all(s: Seq<ExprView>)
    ensures
        lift_all(s).len() == s.len(),
        forall|i: int| 0 <= i < s.len() ==> lift_all(s)[i] == lift(s[i]),
    decreases s.len(),
{
    if s.len() > 0 {
        lemma_lift_all(s.drop_last());
    }
}

impl Expression {
    pub fn replace_constant(&self, constant: &Constant) -> (r: Expression)
        ensures
            r@ == subst(self@, constant.name@, constant.value@),
        decreases self,
    {
        match self {
            Expression::Binary(op, a, b) => Expression::Binary(
                op.duplicate(),
                Box::new(a.replace_constant(constant)),
                Box::new(b.replace_constant(constant)),
            ),
            Expression::Unary(op, a) => Expression::Unary(op.duplicate(), Box::new(a.replace_constant(constant))),
            Expression::IfThenElse { condition, then_case, else_case } => Expression::IfThenElse {
                condition: Box::new(condition.replace_constant(constant)),
                then_case: Box::new(then_case.replace_constant(constant)),
                else_case: Box::new(else_case.replace_constant(constant)),
            },
            Expression::CaseOf { data_type, value, patterns, bodies } => Expression::CaseOf {
                data_type: copy_opt_data(data_type),
                value: Box::new(value.replace_constant(constant)),
                patterns: copy_constructors(patterns),
                bodies: replace_constant_all(bodies, constant),
            },
            Expression::Construct { data_type, cons_name, members } => Expression::Construct {
                data_type: copy_opt_cons(data_type),
                cons_name: cons_name.clone(),
                members: replace_constant_all(members, constant),
            },
            Expression::Deconstruct { data_type, cons_name, members, value, body } => Expression::Deconstruct {
                data_type: copy_opt_cons(data_type),
                cons_name: cons_name.clone(),
                members: copy_names(members),
                value: Box::new(value.replace_constant(constant)),
                body: Box::new(body.replace_constant(constant)),
            },
            Expression::Identifier(x) => if *x == constant.name {
                constant.value.duplicate()
            } else {
                Expression::Identifier(x.clone())
            },
            Expression::Application(a, b) => Expression::Application(Box::new(a.replace_constant(constant)), Box::new(b.replace_constant(constant))),
            Expression::Lambda(x, b) => Expression::Lambda(x.clone(), Box::new(b.replace_constant(constant))),
            Expression::TailCall(items) => Expression::TailCall(replace_constant_all(items, constant)),
            Expression::Table(keys, values) => Expression::Table(copy_names(keys), replace_constant_all(values, constant)),
            Expression::List(items) => Expression::List(replace_constant_all(items, constant)),
            Expression::Number(n) => Expression::Number(n.clone()),
            Expression::String(s) => Expression::String(s.clone()),
        }
    }

    pub fn replace_constructors(&self, cons: &Constructor) -> (r: Expression)
        ensures
            r@ == promote(self@, cons@),
        decreases self,
    {
        match self {
            Expression::Binary(op, a, b) => Expression::Binary(
                op.duplicate(),
                Box::new(a.replace_constructors(cons)),
                Box::new(b.replace_constructors(cons)),
            ),
            Expression::Unary(op, a) => Expression::Unary(op.duplicate(), Box::new(a.replace_constructors(cons))),
            Expression::IfThenElse { condition, then_case, else_case } => Expression::IfThenElse {
                condition: Box::new(condition.replace_constructors(cons)),
                then_case: Box::new(then_case.replace_constructors(cons)),
                else_case: Box::new(else_case.replace_constructors(cons)),
            },
            Expression::CaseOf { data_type, value, patterns, bodies } => Expression::CaseOf {
                data_type: copy_opt_data(data_type),
                value: Box::new(value.replace_constructors(cons)),
                patterns: copy_constructors(patterns),
                bodies: replace_constructors_all(bodies, cons),
            },
            Expression::Construct { data_type, cons_name, members } => Expression::Construct {
                data_type: copy_opt_cons(data_type),
                cons_name: cons_name.clone(),
                members: replace_constructors_all(members, cons),
            },
            Expression::Deconstruct { data_type, cons_name, members, value, body } => Expression::Deconstruct {
                data_type: copy_opt_cons(data_type),
                cons_name: cons_name.clone(),
                members: copy_names(members),
                value: Box::new(value.replace_constructors(cons)),
                body: Box::new(body.replace_constructors(cons)),
            },
            Expression::Identifier(x) => if cons.matches(x, 0) {
                let members: Vec<Expression> = Vec::new();
                assert(exprs_view(members@) =~= Seq::empty());
                Expression::Construct {
                    data_type: Some(cons.duplicate()),
                    cons_name: cons.name.clone(),
                    members,
                }
            } else {
                Expression::Identifier(x.clone())
            },
            Expression::Application(a, b) => {
                let promoted = match &**a {
                    Expression::Identifier(x) => cons.matches(x, 1),
                    _ => false,
                };
                assert(promoted == (a@ is Identifier && a@->Identifier_0 == cons@.name
                    && cons@.members.len() == 1));
                if promoted {
                    let mut members: Vec<Expression> = Vec::new();
                    members.push(b.replace_constructors(cons));
                    proof {
                        lemma_exprs_view(members@);
                    }
                    assert(exprs_view(members@) =~= seq![promote(b@, cons@)]);
                    Expression::Construct {
                        data_type: Some(cons.duplicate()),
                        cons_name: cons.name.clone(),
                        members,
                    }
                } else {
                    Expression::Application(
                        Box::new(a.replace_constructors(cons)),
                        Box::new(b.replace_constructors(cons)),
                    )
                }
            },
            Expression::Lambda(x, b) => Expression::Lambda(x.clone(), Box::new(b.replace_constructors(cons))),
            Expression::TailCall(items) => Expression::TailCall(replace_constructors_all(items, cons)),
            Expression::Table(keys, values) => Expression::Table(copy_names(keys), replace_constructors_all(values, cons)),
            Expression::List(items) => Expression::List(replace_constructors_all(items, cons)),
            Expression::Number(n) => Expression::Number(n.clone()),
            Expression::String(s) => Expression::String(s.clone()),
        }
    }

    pub fn resolve_types(&self, data: &Vec<Data>, cons: &Vec<Constructor>) -> (r: Expression)
        ensures
            r@ == resolve(self@, data_seq_view(data@), cons_seq_view(cons@)),
        decreases self,
    {
        match self {
            Expression::Binary(op, a, b) => Expression::Binary(
                op.duplicate(),
                Box::new(a.resolve_types(data, cons)),
                Box::new(b.resolve_types(data, cons)),
            ),
            Expression::Unary(op, a) => Expression::Unary(op.duplicate(), Box::new(a.resolve_types(data, cons))),
            Expression::IfThenElse { condition, then_case, else_case } => Expression::IfThenElse {
                condition: Box::new(condition.resolve_types(data, cons)),
                then_case: Box::new(then_case.resolve_types(data, cons)),
                else_case: Box::new(else_case.resolve_types(data, cons)),
            },
            Expression::CaseOf { data_type, value, patterns, bodies } => {
                let d = match data_type {
                    Some(d) => Some(d.duplicate()),
                    None => find_covering(data, patterns),
                };
                Expression::CaseOf {
                    data_type: d,
                    value: Box::new(value.resolve_types(data, cons)),
                    patterns: copy_constructors(patterns),
                    bodies: resolve_types_all(bodies, data, cons),
                }
            },
            Expression::Construct { data_type, cons_name, members } => {
                let d = match data_type {
                    Some(c) => Some(c.duplicate()),
                    None => find_constructor(data, cons, cons_name, members.len()),
                };
                Expression::Construct {
                    data_type: d,
                    cons_name: cons_name.clone(),
                    members: resolve_types_all(members, data, cons),
                }
            },
            Expression::Deconstruct { data_type, cons_name, members, value, body } => {
                let d = match data_type {
                    Some(c) => Some(c.duplicate()),
                    None => find_constructor(data, cons, cons_name, members.len()),
                };
                Expression::Deconstruct {
                    data_type: d,
                    cons_name: cons_name.clone(),
                    members: copy_names(members),
                    value: Box::new(value.resolve_types(data, cons)),
                    body: Box::new(body.resolve_types(data, cons)),
                }
            },
            Expression::Identifier(x) => Expression::Identifier(x.clone()),
            Expression::Application(a, b) => Expression::Application(Box::new(a.resolve_types(data, cons)), Box::new(b.resolve_types(data, cons))),
            Expression::Lambda(x, b) => Expression::Lambda(x.clone(), Box::new(b.resolve_types(data, cons))),
            Expression::TailCall(items) => Expression::TailCall(resolve_types_all(items, data, cons)),
            Expression::Table(keys, values) => Expression::Table(copy_names(keys), resolve_types_all(values, data, cons)),
            Expression::List(items) => Expression::List(resolve_types_all(items, data, cons)),
            Expression::Number(n) => Expression::Number(n.clone()),
            Expression::String(s) => Expression::String(s.clone()),
        }
    }

    pub fn lift_tailcalls(&self) -> (r: Expression)
        ensures
            r@ == lift(self@),
        decreases self,
    {
        match self {
            Expression::Binary(op, a, b) => Expression::Binary(
                op.duplicate(),
                Box::new(a.lift_tailcalls()),
                Box::new(b.lift_tailcalls()),
            ),
            Expression::Unary(op, a) => Expression::Unary(op.duplicate(), Box::new(a.lift_tailcalls())),
            Expression::IfThenElse { condition, then_case, else_case } => Expression::IfThenElse {
                condition: Box::new(condition.lift_tailcalls()),
                then_case: Box::new(then_case.lift_tailcalls()),
                else_case: Box::new(else_case.lift_tailcalls()),
            },
            Expression::CaseOf { data_type, value, patterns, bodies } => Expression::CaseOf {
                data_type: copy_opt_data(data_type),
                value: Box::new(value.lift_tailcalls()),
                patterns: copy_constructors(patterns),
                bodies: lift_tailcalls_all(bodies),
            },
            Expression::Construct { data_type, cons_name, members } => Expression::Construct {
                data_type: copy_opt_cons(data_type),
                cons_name: cons_name.clone(),
                members: lift_tailcalls_all(members),
            },
            Expression::Deconstruct { data_type, cons_name, members, value, body } => Expression::Deconstruct {
                data_type: copy_opt_cons(data_type),
                cons_name: cons_name.clone(),
                members: copy_names(members),
                value: Box::new(value.lift_tailcalls()),
                body: Box::new(body.lift_tailcalls()),
            },
            Expression::Identifier(x) => Expression::Identifier(x.clone()),
            Expression::Application(a, b) => Expression::Application(Box::new(a.lift_tailcalls()), Box::new(b.lift_tailcalls())),
            Expression::Lambda(x, b) => Expression::Lambda(x.clone(), Box::new(b.lift_tailcalls())),
            Expression::TailCall(items) => {
                let args = lift_tailcalls_all(items);
                let mut result = Expression::Identifier(recursion_argument_string());
                let ghost head = result@;
                let mut i: usize = 0;
                while i < args.len()
                    invariant
                        i <= args.len(),
                        head == ExprView::Identifier(recursion_argument()),
                        result@ == app_chain(head, exprs_view(args@).take(i as int)),
                    decreases args.len() - i,
                {
                    proof {
                        lemma_exprs_view(args@);
                        assert(exprs_view(args@).take(i + 1).drop_last() =~= exprs_view(args@).take(i as int));
                    }
                    result = Expression::Application(Box::new(result), Box::new(args[i].duplicate()));
                    i += 1;
                }
                proof {
                    lemma_exprs_view(args@);
                }
                assert(exprs_view(args@).take(args@.len() as int) =~= exprs_view(args@));
                result
            },
            Expression::Table(keys, values) => Expression::Table(copy_names(keys), lift_tailcalls_all(values)),
            Expression::List(items) => Expression::List(lift_tailcalls_all(items)),
            Expression::Number(n) => Expression::Number(n.clone()),
            Expression::String(s) => Expression::String(s.clone()),
        }
    }

    /// The tail-call pass. At the head of a function body (`is_head`), a body that holds
    /// a tail call is wrapped as `Y (λrec. body')`; elsewhere the tail calls are rewritten.
    pub fn resolve_tailcall(&self, is_head: bool) -> (r: Expression)
        ensures
            r@ == (if is_head { lift_head(self@) } else { lift(self@) }),
    {
        if !is_head {
            return self.lift_tailcalls();
        }
        if !self.is_recursive() {
            return self.duplicate();
        }
        let y = Expression::y_combinator();
        let body = self.lift_tailcalls();
        let lam = Expression::Lambda(recursion_argument_string(), Box::new(body));
        assert(lam@ == ExprView::Lambda(recursion_argument(), Box::new(lift(self@))));
        Expression::Application(Box::new(y), Box::new(lam))
    }
}

fn replace_constant_all(items: &Vec<Expression>, constant: &Constant) -> (r: Vec<Expression>)
    ensures
        exprs_view(r@) == subst_all(exprs_view(items@), constant.name@, constant.value@),
    decreases items,
{
    let mut out: Vec<Expression> = Vec::new();
    let mut i: usize = 0;
    while i < items.len()
        invariant
            i <= items.len(),
            out@.len() == i,
            forall|j: int| 0 <= j < i ==> out@[j]@ == subst(items@[j]@, constant.name@, constant.value@),
        decreases items.len() - i,
    {
        out.push(items[i].replace_constant(constant));
        i += 1;
    }
    proof {
        lemma_exprs_view(out@);
        lemma_exprs_view(items@);
        lemma_subst_all(exprs_view(items@), constant.name@, constant.value@);
    }
    assert(exprs_view(out@) =~= subst_all(exprs_view(items@), constant.name@, constant.value@));
    out
}

fn replace_constructors_all(items: &Vec<Expression>, cons: &Constructor) -> (r: Vec<Expression>)
    ensures
        exprs_view(r@) == promote_all(exprs_view(items@), cons@),
    decreases items,
{
    let mut out: Vec<Expression> = Vec::new();
    let mut i: usize = 0;
    while i < items.len()
        invariant
            i <= items.len(),
            out@.len() == i,
            forall|j: int| 0 <= j < i ==> out@[j]@ == promote(items@[j]@, cons@),
        decreases items.len() - i,
    {
        out.push(items[i].replace_constructors(cons));
        i += 1;
    }
    proof {
        lemma_exprs_view(out@);
        lemma_exprs_view(items@);
        lemma_promote_all(exprs_view(items@), cons@);
    }
    assert(exprs_view(out@) =~= promote_all(exprs_view(items@), cons@));
    out
}

fn resolve_types_all(items: &Vec<Expression>, data: &Vec<Data>, cons: &Vec<Constructor>) -> (r: Vec<Expression>)
    ensures
        exprs_view(r@) == resolve_all(exprs_view(items@), data_seq_view(data@), cons_seq_view(cons@)),
    decreases items,
{
    let mut out: Vec<Expression> = Vec::new();
    let mut i: usize = 0;
    while i < items.len()
        invariant
            i <= items.len(),
            out@.len() == i,
            forall|j: int| 0 <= j < i ==> out@[j]@ == resolve(items@[j]@, data_seq_view(data@), cons_seq_view(cons@)),
        decreases items.len() - i,
    {
        out.push(items[i].resolve_types(data, cons));
        i += 1;
    }
    proof {
        lemma_exprs_view(out@);
        lemma_exprs_view(items@);
        lemma_resolve_all(exprs_view(items@), data_seq_view(data@), cons_seq_view(cons@));
    }
    assert(exprs_view(out@) =~= resolve_all(exprs_view(items@), data_seq_view(data@), cons_seq_view(cons@)));
    out
}

fn lift_tailcalls_all(items: &Vec<Expression>) -> (r: Vec<Expression>)
    ensures
        exprs_view(r@) == lift_all(exprs_view(items@)),
    decreases items,
{
    let mut out: Vec<Expression> = Vec::new();
    let mut i: usize = 0;
    while i < items.len()
        invariant
            i <= items.len(),
            out@.len() == i,
            forall|j: int| 0 <= j < i ==> out@[j]@ == lift(items@[j]@),
        decreases items.len() - i,
    {
        out.push(items[i].lift_tailcalls());
        i += 1;
    }
    proof {
        lemma_exprs_view(out@);
        lemma_exprs_view(items@);
        lemma_lift_all(exprs_view(items@));
    }
    assert(exprs_view(out@) =~= lift_all(exprs_view(items@)));
    out
}

fn same_shape_exec(c: &Constructor, p: &Constructor) -> (r: bool)
    ensures
        r == same_shape(c@, p@),
{
    c.name == p.name && c.members.len() == p.members.len()
}

fn data_covers(d: &Data, patterns: &Vec<Constructor>) -> (r: bool)
    ensures
        r == covers(d@, cons_seq_view(patterns@)),
{
    if patterns.len() == 0 {
        return false;
    }
    let ghost pv = cons_seq_view(patterns@);
    let mut i: usize = 0;
    while i < patterns.len()
        invariant
            i <= patterns.len(),
            pv == cons_seq_view(patterns@),
            forall|k: int| 0 <= k < i ==> has_shape(d@.cons, #[trigger] pv[k]),
        decreases patterns.len() - i,
    {
        let mut j: usize = 0;
        let mut found = false;
        while j < d.cons.len()
            invariant
                j <= d.cons.len(),
                i < patterns.len(),
                pv == cons_seq_view(patterns@),
                found ==> has_shape(d@.cons, pv[i as int]),
                !found ==> forall|k: int| 0 <= k < j ==> !same_shape(d@.cons[k], pv[i as int]),
            decreases d.cons.len() - j,
        {
            if same_shape_exec(&d.cons[j], &patterns[i]) {
                assert(same_shape(d@.cons[j as int], pv[i as int]));
                found = true;
            }
            j += 1;
        }
        if !found {
            assert(!has_shape(d@.cons, pv[i as int]));
            assert(!covers(d@, pv));
            return false;
        }
        i += 1;
    }
    true
}

fn find_covering(data: &Vec<Data>, patterns: &Vec<Constructor>) -> (r: Option<Data>)
    ensures
        opt_data_view(r) == first_covering(data_seq_view(data@), cons_seq_view(patterns@), 0),
{
    let ghost ds = data_seq_view(data@);
    let ghost pv = cons_seq_view(patterns@);
    let mut i: usize = 0;
    while i < data.len()
        invariant
            i <= data.len(),
            ds == data_seq_view(data@),
            pv == cons_seq_view(patterns@),
            first_covering(ds, pv, 0) == first_covering(ds, pv, i as int),
        decreases data.len() - i,
    {
        if data_covers(&data[i], patterns) {
            return Some(data[i].duplicate());
        }
        i += 1;
    }
    None
}

fn find_shaped(cs: &Vec<Constructor>, name: &String, arity: usize) -> (r: Option<Constructor>)
    ensures
        opt_cons_view(r) == first_shaped(cons_seq_view(cs@), name@, arity as nat, 0),
{
    let ghost cv = cons_seq_view(cs@);
    let mut i: usize = 0;
    while i < cs.len()
        invariant
            i <= cs.len(),
            cv == cons_seq_view(cs@),
            first_shaped(cv, name@, arity as nat, 0) == first_shaped(cv, name@, arity as nat, i as int),
        decreases cs.len() - i,
    {
        if cs[i].matches(name, arity) {
            return Some(cs[i].duplicate());
        }
        i += 1;
    }
    None
}

fn find_constructor(data: &Vec<Data>, cons: &Vec<Constructor>, name: &String, arity: usize) -> (r: Option<Constructor>)
    ensures
        opt_cons_view(r) == lookup_constructor(data_seq_view(data@), cons_seq_view(cons@), name@, arity as nat),
{
    let standalone = find_shaped(cons, name, arity);
    if standalone.is_some() {
        return standalone;
    }
    let ghost ds = data_seq_view(data@);
    let mut i: usize = 0;
    while i < data.len()
        invariant
            i <= data.len(),
            ds == data_seq_view(data@),
            first_shaped(cons_seq_view(cons@), name@, arity as nat, 0) is None,
            first_data_shaped(ds, name@, arity as nat, 0) == first_data_shaped(ds, name@, arity as nat, i as int),
        decreases data.len() - i,
    {
        assert(cons_seq_view(data@[i as int].cons@) =~= ds[i as int].cons);
        let found = find_shaped(&data[i].cons, name, arity);
        assert(opt_cons_view(found) == first_shaped(ds[i as int].cons, name@, arity as nat, 0));
        if found.is_some() {
            assert(first_data_shaped(ds, name@, arity as nat, i as int) == opt_cons_view(found));
            return found;
        }
        i += 1;
    }
    None
}


// ---------------------------------------------------------------------------
// Laws of substitution
// ---------------------------------------------------------------------------

/// A name that occurs after substitution occurred before (and is not the
/// replaced one), or occurs in the replacement.
pub proof fn lemma_subst_mentions(e: ExprView, n: Seq<char>, v: ExprView, m: Seq<char>)
    ensures
        mentions(subst(e, n, v), m) ==> (mentions(e, m) && m != n) || mentions(v, m),
    decreases e,
{
    match e {
        ExprView::Binary(_, a, b) => {
            lemma_subst_mentions(*a, n, v, m);
            lemma_subst_mentions(*b, n, v, m);
        },
        ExprView::Unary(_, a) => {
            lemma_subst_mentions(*a, n, v, m);
        },
        ExprView::IfThenElse(c, t, f) => {
            lemma_subst_mentions(*c, n, v, m);
            lemma_subst_mentions(*t, n, v, m);
            lemma_subst_mentions(*f, n, v, m);
        },
        ExprView::CaseOf(_, x, _, bodies) => {
            lemma_subst_mentions(*x, n, v, m);
            lemma_subst_all_mentions(bodies, n, v, m);
        },
        ExprView::Construct(_, _, ms) => {
            lemma_subst_all_mentions(ms, n, v, m);
        },
        ExprView::Deconstruct(_, _, _, x, b) => {
            lemma_subst_mentions(*x, n, v, m);
            lemma_subst_mentions(*b, n, v, m);
        },
        ExprView::Application(a, b) => {
            lemma_subst_mentions(*a, n, v, m);
            lemma_subst_mentions(*b, n, v, m);
        },
        ExprView::Lambda(_, b) => {
            lemma_subst_mentions(*b, n, v, m);
        },
        ExprView::TailCall(items) => {
            lemma_subst_all_mentions(items, n, v, m);
        },
        ExprView::Table(_, vals) => {
            lemma_subst_all_mentions(vals, n, v, m);
        },
        ExprView::List(items) => {
            lemma_subst_all_mentions(items, n, v, m);
        },
        _ => {},
    }
}

pub proof fn lemma_subst_all_mentions(s: Seq<ExprView>, n: Seq<char>, v: ExprView, m: Seq<char>)
    ensures
        mentions_any(subst_all(s, n, v), m) ==> (mentions_any(s, m) && m != n) || mentions(v, m),
    decreases s,
{
    if s.len() > 0 {
        lemma_subst_all_mentions(s.drop_last(), n, v, m);
        lemma_subst_mentions(s.last(), n, v, m);
        assert(subst_all(s, n, v).drop_last() =~= subst_all(s.drop_last(), n, v));
    }
}

/// Substituting a name that does not occur changes nothing.
pub proof fn lemma_subst_absent(e: ExprView, n: Seq<char>, v: ExprView)
    requires
        !mentions(e, n),
    ensures
        subst(e, n, v) == e,
    decreases e,
{
    match e {
        ExprView::Binary(_, a, b) => {
            lemma_subst_absent(*a, n, v);
            lemma_subst_absent(*b, n, v);
        },
        ExprView::Unary(_, a) => {
            lemma_subst_absent(*a, n, v);
        },
        ExprView::IfThenElse(c, t, f) => {
            lemma_subst_absent(*c, n, v);
            lemma_subst_absent(*t, n, v);
            lemma_subst_absent(*f, n, v);
        },
        ExprView::CaseOf(_, x, _, bodies) => {
            lemma_subst_absent(*x, n, v);
            lemma_subst_all_absent(bodies, n, v);
        },
        ExprView::Construct(_, _, ms) => {
            lemma_subst_all_absent(ms, n, v);
        },
        ExprView::Deconstruct(_, _, _, x, b) => {
            lemma_subst_absent(*x, n, v);
            lemma_subst_absent(*b, n, v);
        },
        ExprView::Application(a, b) => {
            lemma_subst_absent(*a, n, v);
            lemma_subst_absent(*b, n, v);
        },
        ExprView::Lambda(_, b) => {
            lemma_subst_absent(*b, n, v);
        },
        ExprView::TailCall(items) => {
            lemma_subst_all_absent(items, n, v);
        },
        ExprView::Table(_, vals) => {
            lemma_subst_all_absent(vals, n, v);
        },
        ExprView::List(items) => {
            lemma_subst_all_absent(items, n, v);
        },
        _ => {},
    }
}

pub proof fn lemma_subst_all_absent(s: Seq<ExprView>, n: Seq<char>, v: ExprView)
    requires
        !mentions_any(s, n),
    ensures
        subst_all(s, n, v) == s,
    decreases s,
{
    if s.len() > 0 {
        lemma_subst_all_absent(s.drop_last(), n, v);
        lemma_subst_absent(s.last(), n, v);
        assert(subst_all(s, n, v) =~= s);
    }
}

// ---------------------------------------------------------------------------
// Completeness of type resolution
// ---------------------------------------------------------------------------

/// Some constructor, standalone or of a data type, has this name and arity.
pub open spec fn declared_constructor(ds: Seq<DataView>, cs: Seq<ConstructorView>, name: Seq<char>, arity: nat) -> bool {
    (exists|k: int| 0 <= k < cs.len() && #[trigger] cs[k].name == name && cs[k].members.len() == arity)
        || (exists|i: int, k: int|
        0 <= i < ds.len() && 0 <= k < ds[i].cons.len() && #[trigger] ds[i].cons[k].name == name
            && ds[i].cons[k].members.len() == arity)
}

/// Every `case` in `e` has arms that some declared data type covers, and every
/// construct and destructuring names a declared constructor of its arity,
/// unless it is resolved already.
pub open spec fn declared(e: ExprView, ds: Seq<DataView>, cs: Seq<ConstructorView>) -> bool
    decreases e,
{
    match e {
        ExprView::Binary(_, a, b) => declared(*a, ds, cs) && declared(*b, ds, cs),
        ExprView::Unary(_, a) => declared(*a, ds, cs),
        ExprView::IfThenElse(c, t, f) => declared(*c, ds, cs) && declared(*t, ds, cs) && declared(*f, ds, cs),
        ExprView::CaseOf(d, v, pats, bodies) => (d is Some || exists|i: int|
            0 <= i < ds.len() && #[trigger] covers(ds[i], pats)) && declared(*v, ds, cs) && all_declared(bodies, ds, cs),
        ExprView::Construct(d, name, ms) => (d is Some || declared_constructor(ds, cs, name, ms.len()))
            && all_declared(ms, ds, cs),
        ExprView::Deconstruct(d, name, ms, v, b) => (d is Some || declared_constructor(ds, cs, name, ms.len()))
            && declared(*v, ds, cs) && declared(*b, ds, cs),
        ExprView::Application(a, b) => declared(*a, ds, cs) && declared(*b, ds, cs),
        ExprView::Lambda(_, b) => declared(*b, ds, cs),
        ExprView::TailCall(items) => all_declared(items, ds, cs),
        ExprView::Table(_, vals) => all_declared(vals, ds, cs),
        ExprView::List(items) => all_declared(items, ds, cs),
        _ => true,
    }
}

pub open spec fn all_declared(s: Seq<ExprView>, ds: Seq<DataView>, cs: Seq<ConstructorView>) -> bool
    decreases s,
{
    if s.len() == 0 {
        true
    } else {
        all_declared(s.drop_last(), ds, cs) && declared(s.last(), ds, cs)
    }
}

/// Every `case`, construct and destructuring in `e` carries its resolved data type.
pub open spec fn resolved(e: ExprView) -> bool
    decreases e,
{
    match e {
        ExprView::Binary(_, a, b) => resolved(*a) && resolved(*b),
        ExprView::Unary(_, a) => resolved(*a),
        ExprView::IfThenElse(c, t, f) => resolved(*c) && resolved(*t) && resolved(*f),
        ExprView::CaseOf(d, v, _, bodies) => d is Some && resolved(*v) && all_resolved(bodies),
        ExprView::Construct(d, _, ms) => d is Some && all_resolved(ms),
        ExprView::Deconstruct(d, _, _, v, b) => d is Some && resolved(*v) && resolved(*b),
        ExprView::Application(a, b) => resolved(*a) && resolved(*b),
        ExprView::Lambda(_, b) => resolved(*b),
        ExprView::TailCall(items) => all_resolved(items),
        ExprView::Table(_, vals) => all_resolved(vals),
        ExprView::List(items) => all_resolved(items),
        _ => true,
    }
}

pub open spec fn all_resolved(s: Seq<ExprView>) -> bool
    decreases s,
{
    if s.len() == 0 {
        true
    } else {
        all_resolved(s.drop_last()) && resolved(s.last())
    }
}

pub proof fn lemma_first_covering_found(ds: Seq<DataView>, pats: Seq<ConstructorView>, i: int, w: int)
    requires
        0 <= i <= w < ds.len(),
        covers(ds[w], pats),
    ensures
        first_covering(ds, pats, i) is Some,
    decreases w - i,
{
    if i < w && !covers(ds[i], pats) {
        lemma_first_covering_found(ds, pats, i + 1, w);
    }
}

pub proof fn lemma_first_shaped_found(cs: Seq<ConstructorView>, name: Seq<char>, arity: nat, i: int, w: int)
    requires
        0 <= i <= w < cs.len(),
        cs[w].name == name && cs[w].members.len() == arity,
    ensures
        first_shaped(cs, name, arity, i) is Some,
    decreases w - i,
{
    if i < w && !(cs[i].name == name && cs[i].members.len() == arity) {
        lemma_first_shaped_found(cs, name, arity, i + 1, w);
    }
}

pub proof fn lemma_first_data_shaped_found(ds: Seq<DataView>, name: Seq<char>, arity: nat, i: int, w: int, k: int)
    requires
        0 <= i <= w < ds.len(),
        0 <= k < ds[w].cons.len(),
        ds[w].cons[k].name == name && ds[w].cons[k].members.len() == arity,
    ensures
        first_data_shaped(ds, name, arity, i) is Some,
    decreases w - i,
{
    if i == w {
        lemma_first_shaped_found(ds[w].cons, name, arity, 0, k);
    } else if first_shaped(ds[i].cons, name, arity, 0) is None {
        lemma_first_data_shaped_found(ds, name, arity, i + 1, w, k);
    }
}

pub proof fn lemma_lookup_found(ds: Seq<DataView>, cs: Seq<ConstructorView>, name: Seq<char>, arity: nat)
    requires
        declared_constructor(ds, cs, name, arity),
    ensures
        lookup_constructor(ds, cs, name, arity) is Some,
{
    if exists|k: int| 0 <= k < cs.len() && #[trigger] cs[k].name == name && cs[k].members.len() == arity {
        let k = choose|k: int| 0 <= k < cs.len() && #[trigger] cs[k].name == name && cs[k].members.len() == arity;
        lemma_first_shaped_found(cs, name, arity, 0, k);
    } else {
        let (i, k) = choose|i: int, k: int|
            0 <= i < ds.len() && 0 <= k < ds[i].cons.len() && #[trigger] ds[i].cons[k].name == name
                && ds[i].cons[k].members.len() == arity;
        lemma_first_data_shaped_found(ds, name, arity, 0, i, k);
    }
}

/// Type resolution is complete: where the declarations provide a data type for
/// every `case` and a constructor for every construct and destructuring, the
/// resolved expression carries all of them.
pub proof fn lemma_resolution_complete(e: ExprView, ds: Seq<DataView>, cs: Seq<ConstructorView>)
    requires
        declared(e, ds, cs),
    ensures
        resolved(resolve(e, ds, cs)),
    decreases e,
{
    match e {
        ExprView::Binary(_, a, b) => {
            lemma_resolution_complete(*a, ds, cs);
            lemma_resolution_complete(*b, ds, cs);
        },
        ExprView::Unary(_, a) => {
            lemma_resolution_complete(*a, ds, cs);
        },
        ExprView::IfThenElse(c, t, f) => {
            lemma_resolution_complete(*c, ds, cs);
            lemma_resolution_complete(*t, ds, cs);
            lemma_resolution_complete(*f, ds, cs);
        },
        ExprView::CaseOf(d, v, pats, bodies) => {
            if d is None {
                let w = choose|i: int| 0 <= i < ds.len() && #[trigger] covers(ds[i], pats);
                lemma_first_covering_found(ds, pats, 0, w);
            }
            lemma_resolution_complete(*v, ds, cs);
            lemma_all_resolution_complete(bodies, ds, cs);
        },
        ExprView::Construct(d, name, ms) => {
            if d is None {
                lemma_lookup_found(ds, cs, name, ms.len());
            }
            lemma_all_resolution_complete(ms, ds, cs);
        },
        ExprView::Deconstruct(d, name, ms, v, b) => {
            if d is None {
                lemma_lookup_found(ds, cs, name, ms.len());
            }
            lemma_resolution_complete(*v, ds, cs);
            lemma_resolution_complete(*b, ds, cs);
        },
        ExprView::Application(a, b) => {
            lemma_resolution_complete(*a, ds, cs);
            lemma_resolution_complete(*b, ds, cs);
        },
        ExprView::Lambda(_, b) => {
            lemma_resolution_complete(*b, ds, cs);
        },
        ExprView::TailCall(items) => {
            lemma_all_resolution_complete(items, ds, cs);
        },
        ExprView::Table(_, vals) => {
            lemma_all_resolution_complete(vals, ds, cs);
        },
        ExprView::List(items) => {
            lemma_all_resolution_complete(items, ds, cs);
        },
        _ => {},
    }
}

pub proof fn lemma_all_resolution_complete(s: Seq<ExprView>, ds: Seq<DataView>, cs: Seq<ConstructorView>)
    requires
        all_declared(s, ds, cs),
    ensures
        all_resolved(resolve_all(s, ds, cs)),
    decreases s,
{
    if s.len() > 0 {
        lemma_all_resolution_complete(s.drop_last(), ds, cs);
        lemma_resolution_complete(s.last(), ds, cs);
        assert(resolve_all(s, ds, cs).drop_last() =~= resolve_all(s.drop_last(), ds, cs));
    }
}

/// Substitution keeps an expression resolved when the replacement is resolved.
pub proof fn lemma_subst_resolved(e: ExprView, n: Seq<char>, v: ExprView)
    requires
        resolved(e),
        resolved(v),
    ensures
        resolved(subst(e, n, v)),
    decreases e,
{
    match e {
        ExprView::Binary(_, a, b) => {
            lemma_subst_resolved(*a, n, v);
            lemma_subst_resolved(*b, n, v);
        },
        ExprView::Unary(_, a) => {
            lemma_subst_resolved(*a, n, v);
        },
        ExprView::IfThenElse(c, t, f) => {
            lemma_subst_resolved(*c, n, v);
            lemma_subst_resolved(*t, n, v);
            lemma_subst_resolved(*f, n, v);
        },
        ExprView::CaseOf(_, x, _, bodies) => {
            lemma_subst_resolved(*x, n, v);
            lemma_subst_all_resolved(bodies, n, v);
        },
        ExprView::Construct(_, _, ms) => {
            lemma_subst_all_resolved(ms, n, v);
        },
        ExprView::Deconstruct(_, _, _, x, b) => {
            lemma_subst_resolved(*x, n, v);
            lemma_subst_resolved(*b, n, v);
        },
        ExprView::Application(a, b) => {
            lemma_subst_resolved(*a, n, v);
            lemma_subst_resolved(*b, n, v);
        },
        ExprView::Lambda(_, b) => {
            lemma_subst_resolved(*b, n, v);
        },
        ExprView::TailCall(items) => {
            lemma_subst_all_resolved(items, n, v);
        },
        ExprView::Table(_, vals) => {
            lemma_subst_all_resolved(vals, n, v);
        },
        ExprView::List(items) => {
            lemma_subst_all_resolved(items, n, v);
        },
        _ => {},
    }
}

pub proof fn lemma_subst_all_resolved(s: Seq<ExprView>, n: Seq<char>, v: ExprView)
    requires
        all_resolved(s),
        resolved(v),
    ensures
        all_resolved(subst_all(s, n, v)),
    decreases s,
{
    if s.len() > 0 {
        lemma_subst_all_resolved(s.drop_last(), n, v);
        lemma_subst_resolved(s.last(), n, v);
        assert(subst_all(s, n, v).drop_last() =~= subst_all(s.drop_last(), n, v));
    }
}
} // verus!
