use vstd::prelude::*;

use crate::ast::{
    lemma_sort_constructors, sort_constructors,
    cons_seq_view, data_seq_view, exprs_view, lemma_exprs_view, BinaryOp, Constructor,
    ConstructorView, Data,
    DataView, ExprView, Expression, UnaryOp,
};
use crate::combinator::{builtin, foreign, lemma_combs_view, combs_view, CombView, Combinator};
use crate::lambda::{app, compile_term, Lambda, LambdaView};
use crate::rewrite::{fixpoint_name, fixpoint_string, recursion_argument, recursion_argument_string};

verus! {

/// Why a program could not be lowered to a combinator term.
pub enum ReductionError {
    /// No function is named `main`.
    NoEntryPoint,
    /// A `case` whose arms belong to no declared data type.
    UnresolvedCase,
    /// A constructor that names no declared constructor.
    UnresolvedConstructor,
    /// A variable that no abstraction binds.
    FreeVariable(String),
    /// An abstraction left where only combinators may stand.
    UncompilableAbstraction,
    /// An `S`, `B` or `C` with its second argument but not its first.
    MalformedCombinator,
    /// Compile-time folding took more than its allowance of steps.
    StepLimit,
}

/// Mathematical model of a `ReductionError`.
pub enum Fault {
    NoEntryPoint,
    UnresolvedCase,
    UnresolvedConstructor,
    FreeVariable(Seq<char>),
    UncompilableAbstraction,
    MalformedCombinator,
    StepLimit,
}

impl View for ReductionError {
    type V = Fault;

    open spec fn view(&self) -> Fault {
        match self {
            ReductionError::NoEntryPoint => Fault::NoEntryPoint,
            ReductionError::UnresolvedCase => Fault::UnresolvedCase,
            ReductionError::UnresolvedConstructor => Fault::UnresolvedConstructor,
            ReductionError::FreeVariable(x) => Fault::FreeVariable(x@),
            ReductionError::UncompilableAbstraction => Fault::UncompilableAbstraction,
            ReductionError::MalformedCombinator => Fault::MalformedCombinator,
            ReductionError::StepLimit => Fault::StepLimit,
        }
    }
}


pub open spec fn same_result<T: View>(r: Result<T, ReductionError>, s: Result<T::V, Fault>) -> bool {
    match (r, s) {
        (Ok(t), Ok(v)) => t@ == v,
        (Err(e), Err(f)) => e@ == f,
        _ => false,
    }
}

/// The runtime builtin that a binary operator lowers to, if any.
pub open spec fn binary_builtin(op: BinaryOp) -> Seq<char> {
    match op {
        BinaryOp::Equal => seq!['e', 'q'],
        BinaryOp::NotEqual => seq!['n', 'e', 'q'],
        BinaryOp::Greater => seq!['g', 't'],
        BinaryOp::GreaterEqual => seq!['g', 'e'],
        BinaryOp::Less => seq!['l', 't'],
        BinaryOp::LessEqual => seq!['l', 'e'],
        BinaryOp::Add => seq!['a', 'd', 'd'],
        BinaryOp::Subtract => seq!['s', 'u', 'b'],
        BinaryOp::Multiply => seq!['m', 'u', 'l'],
        BinaryOp::Divide => seq!['d', 'i', 'v'],
        BinaryOp::And => seq!['a', 'n', 'd'],
        BinaryOp::Or => seq!['o', 'r'],
    }
}

pub open spec fn negate_builtin() -> Seq<char> {
    seq!['n', 'e', 'g']
}

pub open spec fn print_name() -> Seq<char> {
    seq!['p', 'r', 'i', 'n', 't']
}

pub open spec fn println_name() -> Seq<char> {
    seq!['p', 'r', 'i', 'n', 't', 'l', 'n']
}

pub open spec fn var(x: Seq<char>) -> LambdaView {
    LambdaView::Binding(x)
}

pub open spec fn abs(x: Seq<char>, b: LambdaView) -> LambdaView {
    LambdaView::Abstraction(x, Box::new(b))
}

/// Church true, `λa.λb.a`.
pub open spec fn church_true() -> LambdaView {
    abs(seq!['a'], abs(seq!['b'], var(seq!['a'])))
}

/// Church false, `λa.λb.b`.
pub open spec fn church_false() -> LambdaView {
    abs(seq!['a'], abs(seq!['b'], var(seq!['b'])))
}

/// `λn1. .. λnk. body`, the first name outermost.
pub open spec fn abstract_all(names: Seq<Seq<char>>, body: LambdaView) -> LambdaView
    decreases names.len(),
{
    if names.len() == 0 {
        body
    } else {
        abs(names[0], abstract_all(names.drop_first(), body))
    }
}

/// `f a1 .. an`, applied from the left.
pub open spec fn apply_all(f: LambdaView, args: Seq<LambdaView>) -> LambdaView
    decreases args.len(),
{
    if args.len() == 0 {
        f
    } else {
        app(apply_all(f, args.drop_last()), args.last())
    }
}

pub open spec fn vars(names: Seq<Seq<char>>) -> Seq<LambdaView> {
    names.map_values(|n: Seq<char>| var(n))
}

/// The encoding of constructor `c`: for a constructor of the data type `d`,
/// `λm1..mk. λC1..Cn. c m1..mk` with one handler per constructor of `d`, in the
/// order of `sort_constructors` (by name, then arity); for a standalone constructor, `λm1..mk. λf. f m1..mk`.
pub open spec fn constructor_term(c: ConstructorView, d: Option<DataView>) -> LambdaView {
    match d {
        Some(d) => abstract_all(
            c.members,
            abstract_all(
                sort_constructors(d.cons).map_values(|k: ConstructorView| k.name),
                apply_all(var(c.name), vars(c.members)),
            ),
        ),
        None => abstract_all(c.members, abs(seq!['f'], apply_all(var(seq!['f']), vars(c.members)))),
    }
}

/// The first declared data type that holds constructor `c`, from index `i` on.
pub open spec fn owner_from(ds: Seq<DataView>, c: ConstructorView, i: int) -> Option<DataView>
    decreases ds.len() - i,
{
    if i < 0 || i >= ds.len() {
        None
    } else if ds[i].cons.contains(c) {
        Some(ds[i])
    } else {
        owner_from(ds, c, i + 1)
    }
}

/// The first arm, from index `i` on among the first `n`, whose pattern has the shape of `c`.
pub open spec fn arm_for(pats: Seq<ConstructorView>, n: int, c: ConstructorView, i: int) -> Option<int>
    decreases n - i,
{
    if i < 0 || i >= n || i >= pats.len() {
        None
    } else if pats[i].name == c.name && pats[i].members.len() == c.members.len() {
        Some(i)
    } else {
        arm_for(pats, n, c, i + 1)
    }
}

/// The handlers of a `case`, one for each constructor that has an arm, in the
/// declared constructor order: the arm body abstracted over the arm's binders.
pub open spec fn case_handlers(cons: Seq<ConstructorView>, pats: Seq<ConstructorView>, bodies: Seq<LambdaView>) -> Seq<LambdaView>
    decreases cons.len(),
{
    if cons.len() == 0 {
        Seq::empty()
    } else {
        let prev = case_handlers(cons.drop_last(), pats, bodies);
        match arm_for(pats, bodies.len() as int, cons.last(), 0) {
            Some(i) => prev.push(abstract_all(pats[i].members, bodies[i])),
            None => prev,
        }
    }
}

/// Lowering of an expression to a lambda term (Church and Scott encodings).
pub open spec fn lower(e: ExprView, ds: Seq<DataView>) -> Result<LambdaView, Fault>
    decreases e,
{
    match e {
        ExprView::Binary(op, a, b) => match lower(*a, ds) {
            Err(f) => Err(f),
            Ok(la) => match lower(*b, ds) {
                Err(f) => Err(f),
                Ok(lb) => Ok(
                    match op {
                        BinaryOp::And => app(app(la, lb), la),
                        BinaryOp::Or => app(app(la, la), lb),
                        _ => app(app(LambdaView::Combinator(CombView::Builtin(binary_builtin(op), Seq::empty())), la), lb),
                    },
                ),
            },
        },
        ExprView::Unary(op, a) => match lower(*a, ds) {
            Err(f) => Err(f),
            Ok(la) => Ok(
                match op {
                    UnaryOp::Not => app(app(la, church_false()), church_true()),
                    UnaryOp::Negate => app(LambdaView::Combinator(CombView::Builtin(negate_builtin(), Seq::empty())), la),
                },
            ),
        },
        ExprView::IfThenElse(c, t, f) => match lower(*c, ds) {
            Err(x) => Err(x),
            Ok(lc) => match lower(*t, ds) {
                Err(x) => Err(x),
                Ok(lt) => match lower(*f, ds) {
                    Err(x) => Err(x),
                    Ok(lf) => Ok(app(app(lc, lt), lf)),
                },
            },
        },
        ExprView::CaseOf(d, v, pats, bodies) => match d {
            None => Err(Fault::UnresolvedCase),
            Some(data) => match lower(*v, ds) {
                Err(x) => Err(x),
                Ok(lv) => match lower_all(bodies, ds) {
                    Err(x) => Err(x),
                    Ok(lbs) => Ok(apply_all(lv, case_handlers(sort_constructors(data.cons), pats, lbs))),
                },
            },
        },
        ExprView::Construct(d, _, ms) => match d {
            None => Err(Fault::UnresolvedConstructor),
            Some(c) => match lower_all(ms, ds) {
                Err(x) => Err(x),
                Ok(lms) => Ok(apply_all(constructor_term(c, owner_from(ds, c, 0)), lms)),
            },
        },
        ExprView::Deconstruct(_, _, ms, v, b) => match lower(*v, ds) {
            Err(x) => Err(x),
            Ok(lv) => match lower(*b, ds) {
                Err(x) => Err(x),
                Ok(lb) => Ok(app(lv, abstract_all(ms, lb))),
            },
        },
        ExprView::Identifier(x) => Ok(
            if x == print_name() || x == println_name() {
                LambdaView::Combinator(CombView::Foreign(x, Seq::empty()))
            } else if x == fixpoint_name() {
                LambdaView::Combinator(CombView::Builtin(x, Seq::empty()))
            } else {
                var(x)
            },
        ),
        ExprView::Application(a, b) => match lower(*a, ds) {
            Err(x) => Err(x),
            Ok(la) => match lower(*b, ds) {
                Err(x) => Err(x),
                Ok(lb) => Ok(app(la, lb)),
            },
        },
        ExprView::Lambda(x, b) => match lower(*b, ds) {
            Err(f) => Err(f),
            Ok(lb) => Ok(abs(x, lb)),
        },
        ExprView::TailCall(items) => match lower_all(items, ds) {
            Err(f) => Err(f),
            Ok(ls) => Ok(apply_all(var(recursion_argument()), ls)),
        },
        ExprView::Table(keys, vals) => match lower_all(vals, ds) {
            Err(f) => Err(f),
            Ok(ls) => match compile_all(ls) {
                Err(f) => Err(f),
                Ok(cs) => Ok(LambdaView::Combinator(CombView::Table(keys, cs))),
            },
        },
        ExprView::List(items) => match lower_all(items, ds) {
            Err(f) => Err(f),
            Ok(ls) => match compile_all(ls) {
                Err(f) => Err(f),
                Ok(cs) => Ok(LambdaView::Combinator(CombView::List(cs))),
            },
        },
        ExprView::Number(n) => Ok(LambdaView::Combinator(CombView::Number(n))),
        ExprView::Str(s) => Ok(LambdaView::Combinator(CombView::Str(s))),
    }
}

/// Lowering of each expression, left to right; the first failure is reported.
pub open spec fn lower_all(s: Seq<ExprView>, ds: Seq<DataView>) -> Result<Seq<LambdaView>, Fault>
    decreases s,
{
    if s.len() == 0 {
        Ok(Seq::empty())
    } else {
        match lower_all(s.drop_last(), ds) {
            Err(f) => Err(f),
            Ok(prefix) => match lower(s.last(), ds) {
                Err(f) => Err(f),
                Ok(l) => Ok(prefix.push(l)),
            },
        }
    }
}

/// Compilation of each term, left to right; the first failure is reported.
pub open spec fn compile_all(s: Seq<LambdaView>) -> Result<Seq<CombView>, Fault>
    decreases s.len(),
{
    if s.len() == 0 {
        Ok(Seq::empty())
    } else {
        match compile_all(s.drop_last()) {
            Err(f) => Err(f),
            Ok(prefix) => match compile_term(s.last()) {
                Err(f) => Err(f),
                Ok(c) => Ok(prefix.push(c)),
            },
        }
    }
}


pub open spec fn lams_view(s: Seq<Lambda>) -> Seq<LambdaView> {
    s.map_values(|l: Lambda| l@)
}

fn text(s: &str) -> (r: String)
    ensures
        r@ == s@,
{
    String::from_str(s)
}

fn binary_builtin_string(op: &BinaryOp) -> (r: String)
    ensures
        r@ == binary_builtin(*op),
{
    let r = match op {
        BinaryOp::Equal => text("eq"),
        BinaryOp::NotEqual => text("neq"),
        BinaryOp::Greater => text("gt"),
        BinaryOp::GreaterEqual => text("ge"),
        BinaryOp::Less => text("lt"),
        BinaryOp::LessEqual => text("le"),
        BinaryOp::Add => text("add"),
        BinaryOp::Subtract => text("sub"),
        BinaryOp::Multiply => text("mul"),
        BinaryOp::Divide => text("div"),
        BinaryOp::And => text("and"),
        BinaryOp::Or => text("or"),
    };
    proof {
        reveal_strlit("eq");
        reveal_strlit("neq");
        reveal_strlit("gt");
        reveal_strlit("ge");
        reveal_strlit("lt");
        reveal_strlit("le");
        reveal_strlit("add");
        reveal_strlit("sub");
        reveal_strlit("mul");
        reveal_strlit("div");
        reveal_strlit("and");
        reveal_strlit("or");
    }
    assert(r@ =~= binary_builtin(*op));
    r
}

fn single(c: char) -> (r: String)
    requires
        c == 'a' || c == 'b' || c == 'f',
    ensures
        r@ == seq![c],
{
    let r = if c == 'a' {
        text("a")
    } else if c == 'b' {
        text("b")
    } else {
        text("f")
    };
    proof {
        reveal_strlit("a");
        reveal_strlit("b");
        reveal_strlit("f");
    }
    assert(r@ =~= seq![c]);
    r
}

/// `λa.λb.a` when `first`, else `λa.λb.b`.
fn church(first: bool) -> (r: Lambda)
    ensures
        r@ == (if first { church_true() } else { church_false() }),
{
    let chosen = if first {
        single('a')
    } else {
        single('b')
    };
    Lambda::lambda(single('a'), Lambda::lambda(single('b'), Lambda::var(chosen)))
}

/// `λn1. .. λnk. body`.
pub fn abstract_names(names: &Vec<String>, body: Lambda) -> (r: Lambda)
    ensures
        r@ == abstract_all(names.deep_view(), body@),
{
    let ghost nv = names.deep_view();
    let ghost b = body@;
    let mut result = body;
    let mut i: usize = names.len();
    assert(nv.subrange(i as int, nv.len() as int) =~= Seq::<Seq<char>>::empty());
    while i > 0
        invariant
            i <= names.len(),
            nv == names.deep_view(),
            nv.len() == names.len(),
            result@ == abstract_all(nv.subrange(i as int, nv.len() as int), b),
        decreases i,
    {
        i -= 1;
        assert(nv.subrange(i as int, nv.len() as int).drop_first() =~= nv.subrange(i + 1, nv.len() as int));
        result = Lambda::lambda(names[i].clone(), result);
    }
    assert(nv.subrange(0, nv.len() as int) =~= nv);
    result
}

/// `f a1 .. an`.
pub fn apply_each(f: Lambda, args: &Vec<Lambda>) -> (r: Lambda)
    ensures
        r@ == apply_all(f@, lams_view(args@)),
{
    let ghost av = lams_view(args@);
    let ghost fv = f@;
    let mut result = f;
    let mut i: usize = 0;
    while i < args.len()
        invariant
            i <= args.len(),
            av == lams_view(args@),
            result@ == apply_all(fv, av.take(i as int)),
        decreases args.len() - i,
    {
        assert(av.take(i + 1).drop_last() =~= av.take(i as int));
        result = result.applied_to(args[i].duplicate());
        i += 1;
    }
    assert(av.take(args.len() as int) =~= av);
    result
}

fn variables(names: &Vec<String>) -> (r: Vec<Lambda>)
    ensures
        lams_view(r@) == vars(names.deep_view()),
{
    let mut out: Vec<Lambda> = Vec::new();
    let mut i: usize = 0;
    while i < names.len()
        invariant
            i <= names.len(),
            out@.len() == i,
            forall|j: int| 0 <= j < i ==> out@[j]@ == var(names@[j]@),
        decreases names.len() - i,
    {
        out.push(Lambda::var(names[i].clone()));
        i += 1;
    }
    assert(lams_view(out@) =~= vars(names.deep_view()));
    out
}

fn constructor_names(d: &Data) -> (r: Vec<String>)
    ensures
        r.deep_view() == sort_constructors(d@.cons).map_values(|k: ConstructorView| k.name),
{
    let sorted = d.get_constructors();
    let ghost sv = cons_seq_view(sorted@);
    let mut out: Vec<String> = Vec::new();
    let mut i: usize = 0;
    while i < sorted.len()
        invariant
            i <= sorted.len(),
            sv == cons_seq_view(sorted@),
            out@.len() == i,
            forall|j: int| 0 <= j < i ==> out@[j]@ == sorted@[j].name@,
        decreases sorted.len() - i,
    {
        out.push(sorted[i].name.clone());
        i += 1;
    }
    assert(out.deep_view() =~= sv.map_values(|k: ConstructorView| k.name));
    out
}

fn holds_constructor(d: &Data, c: &Constructor) -> (r: bool)
    ensures
        r == d@.cons.contains(c@),
{
    let mut i: usize = 0;
    while i < d.cons.len()
        invariant
            i <= d.cons.len(),
            forall|j: int| 0 <= j < i ==> d@.cons[j] != c@,
        decreases d.cons.len() - i,
    {
        if d.cons[i].name == c.name && crate::ast::same_names(&d.cons[i].members, &c.members) {
            assert(d@.cons[i as int] == c@);
            return true;
        }
        i += 1;
    }
    false
}

fn find_owner(data: &Vec<Data>, c: &Constructor) -> (r: Option<usize>)
    ensures
        match (r, owner_from(data_seq_view(data@), c@, 0)) {
            (Some(i), Some(d)) => i < data@.len() && data@[i as int]@ == d,
            (None, None) => true,
            _ => false,
        },
{
    let ghost ds = data_seq_view(data@);
    let mut i: usize = 0;
    while i < data.len()
        invariant
            i <= data.len(),
            ds == data_seq_view(data@),
            owner_from(ds, c@, 0) == owner_from(ds, c@, i as int),
        decreases data.len() - i,
    {
        if holds_constructor(&data[i], c) {
            return Some(i);
        }
        i += 1;
    }
    None
}

fn constructor_lambda(c: &Constructor, data: &Vec<Data>) -> (r: Lambda)
    ensures
        r@ == constructor_term(c@, owner_from(data_seq_view(data@), c@, 0)),
{
    let members = variables(&c.members);
    match find_owner(data, c) {
        Some(i) => {
            let body = apply_each(Lambda::var(c.name.clone()), &members);
            let handlers = abstract_names(&constructor_names(&data[i]), body);
            abstract_names(&c.members, handlers)
        },
        None => {
            let body = apply_each(Lambda::var(single('f')), &members);
            abstract_names(&c.members, Lambda::lambda(single('f'), body))
        },
    }
}

fn find_arm(patterns: &Vec<Constructor>, n: usize, c: &Constructor) -> (r: Option<usize>)
    ensures
        match (r, arm_for(cons_seq_view(patterns@), n as int, c@, 0)) {
            (Some(i), Some(j)) => i as int == j && i < n && i < patterns@.len(),
            (None, None) => true,
            _ => false,
        },
{
    let ghost pv = cons_seq_view(patterns@);
    let mut i: usize = 0;
    while i < n && i < patterns.len()
        invariant
            pv == cons_seq_view(patterns@),
            arm_for(pv, n as int, c@, 0) == arm_for(pv, n as int, c@, i as int),
        decreases patterns.len() - i,
    {
        if patterns[i].name == c.name && patterns[i].members.len() == c.members.len() {
            return Some(i);
        }
        i += 1;
    }
    None
}

fn handlers(d: &Data, patterns: &Vec<Constructor>, bodies: &Vec<Lambda>) -> (r: Vec<Lambda>)
    ensures
        lams_view(r@) == case_handlers(sort_constructors(d@.cons), cons_seq_view(patterns@), lams_view(bodies@)),
{
    let sorted = d.get_constructors();
    let ghost cv = cons_seq_view(sorted@);
    let ghost pv = cons_seq_view(patterns@);
    let ghost bv = lams_view(bodies@);
    let mut out: Vec<Lambda> = Vec::new();
    let mut j: usize = 0;
    assert(lams_view(out@) =~= case_handlers(cv.take(0), pv, bv));
    while j < sorted.len()
        invariant
            j <= sorted.len(),
            cv == cons_seq_view(sorted@),
            pv == cons_seq_view(patterns@),
            bv == lams_view(bodies@),
            lams_view(out@) == case_handlers(cv.take(j as int), pv, bv),
        decreases sorted.len() - j,
    {
        assert(cv.take(j + 1).drop_last() =~= cv.take(j as int));
        assert(cv.take(j + 1).last() == sorted@[j as int]@);
        match find_arm(patterns, bodies.len(), &sorted[j]) {
            Some(i) => {
                let h = abstract_names(&patterns[i].members, bodies[i].duplicate());
                let ghost before = out@;
                out.push(h);
                assert(lams_view(out@) =~= lams_view(before).push(h@));
            },
            None => {},
        }
        j += 1;
    }
    assert(cv.take(sorted.len() as int) =~= cv);
    out
}

impl Expression {
    /// Lower this expression to a lambda term, given the declared data types.
    pub fn reduce(&self, data: &Vec<Data>) -> (r: Result<Lambda, ReductionError>)
        ensures
            same_result(r, lower(self@, data_seq_view(data@))),
        decreases self,
    {
        match self {
            Expression::Binary(op, a, b) => {
                let la = a.reduce(data)?;
                let lb = b.reduce(data)?;
                Ok(
                    match op {
                        BinaryOp::And => {
                            let again = la.duplicate();
                            la.applied_to(lb).applied_to(again)
                        },
                        BinaryOp::Or => {
                            let again = la.duplicate();
                            la.applied_to(again).applied_to(lb)
                        },
                        _ => Lambda::Combinator(builtin(binary_builtin_string(op))).applied_to(
                            la,
                        ).applied_to(lb),
                    },
                )
            },
            Expression::Unary(op, a) => {
                let la = a.reduce(data)?;
                Ok(
                    match op {
                        UnaryOp::Not => la.applied_to(church(false)).applied_to(church(true)),
                        UnaryOp::Negate => {
                            let name = text("neg");
                            proof {
                                reveal_strlit("neg");
                            }
                            assert(name@ =~= negate_builtin());
                            Lambda::Combinator(builtin(name)).applied_to(la)
                        },
                    },
                )
            },
            Expression::IfThenElse { condition, then_case, else_case } => {
                let lc = condition.reduce(data)?;
                let lt = then_case.reduce(data)?;
                let lf = else_case.reduce(data)?;
                Ok(lc.applied_to(lt).applied_to(lf))
            },
            Expression::CaseOf { data_type, value, patterns, bodies } => {
                match data_type {
                    None => Err(ReductionError::UnresolvedCase),
                    Some(d) => {
                        let lv = value.reduce(data)?;
                        let lbs = reduce_all(bodies, data)?;
                        let hs = handlers(d, patterns, &lbs);
                        Ok(apply_each(lv, &hs))
                    },
                }
            },
            Expression::Construct { data_type, members, .. } => {
                match data_type {
                    None => Err(ReductionError::UnresolvedConstructor),
                    Some(c) => {
                        let lms = reduce_all(members, data)?;
                        Ok(apply_each(constructor_lambda(c, data), &lms))
                    },
                }
            },
            Expression::Deconstruct { members, value, body, .. } => {
                let lv = value.reduce(data)?;
                let lb = body.reduce(data)?;
                Ok(lv.applied_to(abstract_names(members, lb)))
            },
            Expression::Identifier(x) => {
                let print = text("print");
                let println = text("println");
                let y = fixpoint_string();
                proof {
                    reveal_strlit("print");
                    reveal_strlit("println");
                }
                assert(print@ =~= print_name());
                assert(println@ =~= println_name());
                if *x == print || *x == println {
                    Ok(Lambda::Combinator(foreign(x.clone())))
                } else if *x == y {
                    Ok(Lambda::Combinator(builtin(x.clone())))
                } else {
                    Ok(Lambda::var(x.clone()))
                }
            },
            Expression::Application(a, b) => {
                let la = a.reduce(data)?;
                let lb = b.reduce(data)?;
                Ok(la.applied_to(lb))
            },
            Expression::Lambda(x, b) => {
                let lb = b.reduce(data)?;
                Ok(Lambda::lambda(x.clone(), lb))
            },
            Expression::TailCall(items) => {
                let ls = reduce_all(items, data)?;
                Ok(apply_each(Lambda::var(recursion_argument_string()), &ls))
            },
            Expression::Table(keys, values) => {
                let ls = reduce_all(values, data)?;
                let cs = compile_each(&ls)?;
                Ok(Lambda::Combinator(Combinator::Table(crate::ast::copy_names(keys), cs)))
            },
            Expression::List(items) => {
                let ls = reduce_all(items, data)?;
                let cs = compile_each(&ls)?;
                Ok(Lambda::Combinator(Combinator::List(cs)))
            },
            Expression::Number(n) => Ok(Lambda::Combinator(Combinator::Number(n.clone()))),
            Expression::String(s) => Ok(Lambda::Combinator(Combinator::String(s.clone()))),
        }
    }
}

fn reduce_all(items: &Vec<Expression>, data: &Vec<Data>) -> (r: Result<Vec<Lambda>, ReductionError>)
    ensures
        match (r, lower_all(exprs_view(items@), data_seq_view(data@))) {
            (Ok(v), Ok(s)) => lams_view(v@) == s,
            (Err(e), Err(f)) => e@ == f,
            _ => false,
        },
    decreases items,
{
    let ghost ev = exprs_view(items@);
    let ghost ds = data_seq_view(data@);
    let mut out: Vec<Lambda> = Vec::new();
    let mut i: usize = 0;
    proof {
        lemma_exprs_view(items@);
    }
    assert(ev.take(0) =~= Seq::<ExprView>::empty());
    assert(lams_view(out@) =~= Seq::<LambdaView>::empty());
    while i < items.len()
        invariant
            i <= items.len(),
            ev == exprs_view(items@),
            ev.len() == items.len(),
            forall|j: int| 0 <= j < items.len() ==> ev[j] == items@[j]@,
            ds == data_seq_view(data@),
            lower_all(ev.take(i as int), ds) == Ok::<Seq<LambdaView>, Fault>(lams_view(out@)),
        decreases items.len() - i,
    {
        assert(ev.take(i + 1).drop_last() =~= ev.take(i as int));
        assert(ev.take(i + 1).last() == items@[i as int]@);
        let l = match items[i].reduce(data) {
            Ok(l) => l,
            Err(e) => {
                proof {
                    lemma_lower_all_prefix_error(ev, ds, i as int + 1);
                }
                return Err(e);
            },
        };
        let ghost before = out@;
        out.push(l);
        assert(lams_view(out@) =~= lams_view(before).push(l@));
        i += 1;
    }
    assert(ev.take(items.len() as int) =~= ev);
    Ok(out)
}

/// A failure in a prefix is the failure of the whole sequence.
pub proof fn lemma_lower_all_prefix_error(s: Seq<ExprView>, ds: Seq<DataView>, n: int)
    requires
        0 <= n <= s.len(),
        lower_all(s.take(n), ds) is Err,
    ensures
        lower_all(s, ds) == lower_all(s.take(n), ds),
    decreases s.len() - n,
{
    if n < s.len() {
        assert(s.take(n + 1).drop_last() =~= s.take(n));
        lemma_lower_all_prefix_error(s, ds, n + 1);
    } else {
        assert(s.take(n) =~= s);
    }
}

/// A failure in a prefix is the failure of the whole sequence.
pub proof fn lemma_compile_all_prefix_error(s: Seq<LambdaView>, n: int)
    requires
        0 <= n <= s.len(),
        compile_all(s.take(n)) is Err,
    ensures
        compile_all(s) == compile_all(s.take(n)),
    decreases s.len() - n,
{
    if n < s.len() {
        assert(s.take(n + 1).drop_last() =~= s.take(n));
        lemma_compile_all_prefix_error(s, n + 1);
    } else {
        assert(s.take(n) =~= s);
    }
}

fn compile_each(ls: &Vec<Lambda>) -> (r: Result<Vec<Combinator>, ReductionError>)
    ensures
        match (r, compile_all(lams_view(ls@))) {
            (Ok(v), Ok(s)) => combs_view(v@) == s,
            (Err(e), Err(f)) => e@ == f,
            _ => false,
        },
{
    let ghost lv = lams_view(ls@);
    let mut out: Vec<Combinator> = Vec::new();
    let mut i: usize = 0;
    proof {
        lemma_combs_view(out@);
    }
    assert(lv.take(0) =~= Seq::<LambdaView>::empty());
    assert(combs_view(out@) =~= Seq::<CombView>::empty());
    while i < ls.len()
        invariant
            i <= ls.len(),
            lv == lams_view(ls@),
            compile_all(lv.take(i as int)) == Ok::<Seq<CombView>, Fault>(combs_view(out@)),
        decreases ls.len() - i,
    {
        assert(lv.take(i + 1).drop_last() =~= lv.take(i as int));
        assert(lv.take(i + 1).last() == ls@[i as int]@);
        let c = match ls[i].to_combinator() {
            Ok(c) => c,
            Err(e) => {
                proof {
                    lemma_compile_all_prefix_error(lv, i as int + 1);
                }
                return Err(e);
            },
        };
        let ghost before = out@;
        out.push(c);
        proof {
            lemma_combs_view(out@);
            lemma_combs_view(before);
        }
        assert(combs_view(out@) =~= combs_view(before).push(c@));
        i += 1;
    }
    assert(lv.take(ls.len() as int) =~= lv);
    Ok(out)
}

/// The number of arguments an expression takes, as far as its outer lambdas
/// show: one per lambda, one less for each lambda applied at once.
pub open spec fn arity(e: ExprView) -> int
    decreases e,
{
    match e {
        ExprView::Lambda(_, b) => arity(*b) + 1,
        ExprView::Application(a, _) => if *a is Lambda {
            arity(*a) - 1
        } else {
            0
        },
        _ => 0,
    }
}

/// How deep the lambdas that `arity` looks at are nested.
pub open spec fn lambda_depth(e: ExprView) -> nat
    decreases e,
{
    match e {
        ExprView::Lambda(_, b) => lambda_depth(*b) + 1,
        ExprView::Application(a, _) => if *a is Lambda {
            lambda_depth(*a)
        } else {
            0
        },
        _ => 0,
    }
}

pub proof fn lemma_arity_bounded(e: ExprView)
    ensures
        arity(e) + (lambda_depth(e) as int) >= 0,
        arity(e) <= lambda_depth(e) as int,
    decreases e,
{
    match e {
        ExprView::Lambda(_, b) => lemma_arity_bounded(*b),
        ExprView::Application(a, _) => {
            if let ExprView::Lambda(_, b) = *a {
                lemma_arity_bounded(*b);
                assert(arity(*a) == arity(*b) + 1);
                assert(lambda_depth(*a) == lambda_depth(*b) + 1);
            }
        },
        _ => {},
    }
}

impl Expression {
    /// The number of arguments this expression takes (see `arity`).
    pub fn number_of_arguments(&self) -> (r: i64)
        requires
            lambda_depth(self@) < i64::MAX,
        ensures
            r as int == arity(self@),
        decreases self,
    {
        proof {
            lemma_arity_bounded(self@);
        }
        match self {
            Expression::Lambda(_, b) => {
                proof {
                    lemma_arity_bounded(b@);
                }
                b.number_of_arguments() + 1
            },
            Expression::Application(a, _) => {
                match &**a {
                    Expression::Lambda(_, _) => {
                        proof {
                            lemma_arity_bounded(a@);
                        }
                        a.number_of_arguments() - 1
                    },
                    _ => 0,
                }
            },
            _ => 0,
        }
    }
}

// ---------------------------------------------------------------------------
// Free variables of a lowered expression
// ---------------------------------------------------------------------------

/// The identifiers that the runtime provides.
pub open spec fn is_host_name(x: Seq<char>) -> bool {
    x == print_name() || x == println_name() || x == fixpoint_name()
}

/// Whether `x` stands free in `e`: not bound by a lambda, an arm or a
/// destructuring around it, and not a name that the runtime provides. The
/// binder `rec` of a tail call counts as free.
pub open spec fn free_in(e: ExprView, x: Seq<char>) -> bool
    decreases e,
{
    match e {
        ExprView::Binary(_, a, b) => free_in(*a, x) || free_in(*b, x),
        ExprView::Unary(_, a) => free_in(*a, x),
        ExprView::IfThenElse(c, t, f) => free_in(*c, x) || free_in(*t, x) || free_in(*f, x),
        ExprView::CaseOf(_, v, pats, bodies) => free_in(*v, x) || free_in_arms(pats, bodies, x),
        ExprView::Construct(_, _, ms) => free_in_any(ms, x),
        ExprView::Deconstruct(_, _, ms, v, b) => free_in(*v, x) || (!ms.contains(x) && free_in(*b, x)),
        ExprView::Identifier(y) => y == x && !is_host_name(y),
        ExprView::Application(a, b) => free_in(*a, x) || free_in(*b, x),
        ExprView::Lambda(y, b) => y != x && free_in(*b, x),
        ExprView::TailCall(items) => x == recursion_argument() || free_in_any(items, x),
        _ => false,
    }
}

pub open spec fn free_in_any(s: Seq<ExprView>, x: Seq<char>) -> bool
    decreases s,
{
    if s.len() == 0 {
        false
    } else {
        free_in_any(s.drop_last(), x) || free_in(s.last(), x)
    }
}

pub open spec fn free_in_arms(pats: Seq<ConstructorView>, bodies: Seq<ExprView>, x: Seq<char>) -> bool
    decreases bodies,
{
    if bodies.len() == 0 {
        false
    } else {
        free_in_arms(pats, bodies.drop_last(), x) || (bodies.len() - 1 < pats.len() && !pats[bodies.len()
            - 1].members.contains(x) && free_in(bodies.last(), x))
    }
}

pub proof fn lemma_free_in_any(s: Seq<ExprView>, x: Seq<char>, i: int)
    requires
        0 <= i < s.len(),
        free_in(s[i], x),
    ensures
        free_in_any(s, x),
    decreases s.len(),
{
    if i < s.len() - 1 {
        assert(s.drop_last()[i] == s[i]);
        lemma_free_in_any(s.drop_last(), x, i);
    }
}

pub proof fn lemma_free_in_arms(pats: Seq<ConstructorView>, bodies: Seq<ExprView>, x: Seq<char>, i: int)
    requires
        0 <= i < bodies.len(),
        i < pats.len(),
        !pats[i].members.contains(x),
        free_in(bodies[i], x),
    ensures
        free_in_arms(pats, bodies, x),
    decreases bodies.len(),
{
    if i < bodies.len() - 1 {
        assert(bodies.drop_last()[i] == bodies[i]);
        lemma_free_in_arms(pats, bodies.drop_last(), x, i);
    }
}

pub proof fn lemma_abstract_all_free(names: Seq<Seq<char>>, body: LambdaView, x: Seq<char>)
    ensures
        crate::lambda::occurs_free(abstract_all(names, body), x) ==> !names.contains(x)
            && crate::lambda::occurs_free(body, x),
    decreases names.len(),
{
    if names.len() > 0 {
        lemma_abstract_all_free(names.drop_first(), body, x);
        if crate::lambda::occurs_free(abstract_all(names, body), x) {
            assert forall|k: int| 0 <= k < names.len() implies names[k] != x by {
                if k > 0 {
                    assert(names.drop_first()[k - 1] == names[k]);
                }
            }
        }
    }
}

pub proof fn lemma_apply_all_free(f: LambdaView, args: Seq<LambdaView>, x: Seq<char>)
    ensures
        crate::lambda::occurs_free(apply_all(f, args), x) ==> crate::lambda::occurs_free(f, x) || exists|i: int|
            0 <= i < args.len() && crate::lambda::occurs_free(#[trigger] args[i], x),
    decreases args.len(),
{
    if args.len() > 0 {
        lemma_apply_all_free(f, args.drop_last(), x);
        if crate::lambda::occurs_free(apply_all(f, args.drop_last()), x) && !crate::lambda::occurs_free(f, x) {
            let i = choose|i: int| 0 <= i < args.drop_last().len() && crate::lambda::occurs_free(#[trigger] args.drop_last()[i], x);
            assert(args[i] == args.drop_last()[i]);
        }
        if crate::lambda::occurs_free(args.last(), x) {
            assert(crate::lambda::occurs_free(args[args.len() - 1], x));
        }
    }
}

pub proof fn lemma_owner_holds(ds: Seq<DataView>, c: ConstructorView, i: int)
    ensures
        owner_from(ds, c, i) matches Some(d) ==> d.cons.contains(c),
    decreases ds.len() - i,
{
    if 0 <= i < ds.len() && !ds[i].cons.contains(c) {
        lemma_owner_holds(ds, c, i + 1);
    }
}

/// A constructor's encoding has no free variable.
pub proof fn lemma_constructor_term_closed(c: ConstructorView, d: Option<DataView>, x: Seq<char>)
    requires
        d matches Some(d) ==> d.cons.contains(c),
    ensures
        !crate::lambda::occurs_free(constructor_term(c, d), x),
{
    let body_head = match d {
        Some(_) => var(c.name),
        None => var(seq!['f']),
    };
    let inner = apply_all(body_head, vars(c.members));
    lemma_apply_all_free(body_head, vars(c.members), x);
    if crate::lambda::occurs_free(inner, x) && !crate::lambda::occurs_free(body_head, x) {
        let i = choose|i: int| 0 <= i < vars(c.members).len() && crate::lambda::occurs_free(#[trigger] vars(c.members)[i], x);
        assert(c.members[i] == x);
    }
    match d {
        Some(dd) => {
            let sorted = sort_constructors(dd.cons);
            let names = sorted.map_values(|k: ConstructorView| k.name);
            lemma_sort_constructors(dd.cons);
            dd.cons.to_multiset_ensures();
            sorted.to_multiset_ensures();
            assert(dd.cons.to_multiset().count(c) > 0);
            assert(sorted.to_multiset().count(c) > 0);
            assert(sorted.contains(c));
            lemma_abstract_all_free(names, inner, x);
            lemma_abstract_all_free(c.members, abstract_all(names, inner), x);
            if crate::lambda::occurs_free(inner, x) && x == c.name {
                let k = choose|k: int| 0 <= k < sorted.len() && sorted[k] == c;
                assert(names[k] == x);
            }
        },
        None => {
            lemma_abstract_all_free(c.members, abs(seq!['f'], inner), x);
        },
    }
}

pub proof fn lemma_case_handlers_shape(cons: Seq<ConstructorView>, pats: Seq<ConstructorView>, bodies: Seq<LambdaView>)
    ensures
        forall|k: int|
            0 <= k < case_handlers(cons, pats, bodies).len() ==> exists|i: int|
                0 <= i < pats.len() && i < bodies.len() && #[trigger] case_handlers(cons, pats, bodies)[k]
                    == abstract_all(pats[i].members, bodies[i]),
    decreases cons.len(),
{
    if cons.len() > 0 {
        let prev = case_handlers(cons.drop_last(), pats, bodies);
        let hs = case_handlers(cons, pats, bodies);
        lemma_case_handlers_shape(cons.drop_last(), pats, bodies);
        lemma_arm_for_range(pats, bodies.len() as int, cons.last(), 0);
        assert forall|k: int| 0 <= k < hs.len() implies exists|i: int|
            0 <= i < pats.len() && i < bodies.len() && #[trigger] hs[k] == abstract_all(pats[i].members, bodies[i]) by {
            if k < prev.len() {
                assert(hs[k] == prev[k]);
            } else {
                let i = arm_for(pats, bodies.len() as int, cons.last(), 0)->Some_0;
                assert(hs[k] == abstract_all(pats[i].members, bodies[i]));
            }
        }
    }
}

pub proof fn lemma_arm_for_range(pats: Seq<ConstructorView>, n: int, c: ConstructorView, i: int)
    ensures
        arm_for(pats, n, c, i) matches Some(j) ==> 0 <= j < n && j < pats.len(),
    decreases n - i,
{
    if !(i < 0 || i >= n || i >= pats.len()) && !(pats[i].name == c.name && pats[i].members.len() == c.members.len()) {
        lemma_arm_for_range(pats, n, c, i + 1);
    }
}

pub proof fn lemma_lower_all_items(s: Seq<ExprView>, ds: Seq<DataView>)
    ensures
        lower_all(s, ds) matches Ok(ls) ==> ls.len() == s.len() && forall|i: int|
            0 <= i < s.len() ==> lower(#[trigger] s[i], ds) == Ok::<LambdaView, Fault>(ls[i]),
    decreases s.len(),
{
    if s.len() > 0 {
        lemma_lower_all_items(s.drop_last(), ds);
        if let Ok(ls) = lower_all(s, ds) {
            assert forall|i: int| 0 <= i < s.len() implies lower(#[trigger] s[i], ds) == Ok::<LambdaView, Fault>(ls[i]) by {
                if i < s.len() - 1 {
                    assert(s.drop_last()[i] == s[i]);
                }
            }
        }
    }
}

pub open spec fn lowering_keeps_free(e: ExprView, ds: Seq<DataView>, x: Seq<char>) -> bool {
    lower(e, ds) matches Ok(t) ==> (crate::lambda::occurs_free(t, x) ==> free_in(e, x))
}

proof fn lemma_case_free_variables(
    data: DataView,
    v: ExprView,
    pats: Seq<ConstructorView>,
    bodies: Seq<ExprView>,
    ds: Seq<DataView>,
    x: Seq<char>,
)
    requires
        lowering_keeps_free(v, ds, x),
        forall|i: int| 0 <= i < bodies.len() ==> lowering_keeps_free(#[trigger] bodies[i], ds, x),
    ensures
        lowering_keeps_free(ExprView::CaseOf(Some(data), Box::new(v), pats, bodies), ds, x),
{
    let e = ExprView::CaseOf(Some(data), Box::new(v), pats, bodies);
    if let (Ok(lv), Ok(lbs)) = (lower(v, ds), lower_all(bodies, ds)) {
        let hs = case_handlers(sort_constructors(data.cons), pats, lbs);
        assert(lower(e, ds) == Ok::<LambdaView, Fault>(apply_all(lv, hs)));
        lemma_apply_all_free(lv, hs, x);
        lemma_case_handlers_shape(sort_constructors(data.cons), pats, lbs);
        lemma_lower_all_items(bodies, ds);
        if crate::lambda::occurs_free(apply_all(lv, hs), x) && !crate::lambda::occurs_free(lv, x) {
            let k = choose|k: int| 0 <= k < hs.len() && crate::lambda::occurs_free(#[trigger] hs[k], x);
            let i = choose|i: int|
                0 <= i < pats.len() && i < lbs.len() && #[trigger] hs[k] == abstract_all(pats[i].members, lbs[i]);
            lemma_abstract_all_free(pats[i].members, lbs[i], x);
            assert(lowering_keeps_free(bodies[i], ds, x));
            lemma_free_in_arms(pats, bodies, x, i);
        }
    }
}

proof fn lemma_construct_free_variables(c: ConstructorView, name: Seq<char>, ms: Seq<ExprView>, ds: Seq<DataView>, x: Seq<char>)
    requires
        forall|i: int| 0 <= i < ms.len() ==> lowering_keeps_free(#[trigger] ms[i], ds, x),
    ensures
        lowering_keeps_free(ExprView::Construct(Some(c), name, ms), ds, x),
{
    if let Ok(lms) = lower_all(ms, ds) {
        let owner = owner_from(ds, c, 0);
        lemma_owner_holds(ds, c, 0);
        lemma_constructor_term_closed(c, owner, x);
        lemma_apply_all_free(constructor_term(c, owner), lms, x);
        lemma_lower_all_items(ms, ds);
        if crate::lambda::occurs_free(apply_all(constructor_term(c, owner), lms), x) {
            let i = choose|i: int| 0 <= i < lms.len() && crate::lambda::occurs_free(#[trigger] lms[i], x);
            assert(lowering_keeps_free(ms[i], ds, x));
            lemma_free_in_any(ms, x, i);
        }
    }
}

proof fn lemma_tailcall_free_variables(items: Seq<ExprView>, ds: Seq<DataView>, x: Seq<char>)
    requires
        forall|i: int| 0 <= i < items.len() ==> lowering_keeps_free(#[trigger] items[i], ds, x),
    ensures
        lowering_keeps_free(ExprView::TailCall(items), ds, x),
{
    if let Ok(ls) = lower_all(items, ds) {
        lemma_apply_all_free(var(recursion_argument()), ls, x);
        lemma_lower_all_items(items, ds);
        if crate::lambda::occurs_free(apply_all(var(recursion_argument()), ls), x) && x != recursion_argument() {
            let i = choose|i: int| 0 <= i < ls.len() && crate::lambda::occurs_free(#[trigger] ls[i], x);
            assert(lowering_keeps_free(items[i], ds, x));
            lemma_free_in_any(items, x, i);
        }
    }
}

/// A variable free in a lowered expression is free in the expression: lowering
/// binds every arm binder, every destructured member and every constructor
/// handler it introduces.
pub proof fn lemma_lower_free_variables(e: ExprView, ds: Seq<DataView>, x: Seq<char>)
    ensures
        lowering_keeps_free(e, ds, x),
    decreases e,
{
    match e {
        ExprView::Binary(_, a, b) => {
            lemma_lower_free_variables(*a, ds, x);
            lemma_lower_free_variables(*b, ds, x);
            reveal_with_fuel(crate::lambda::occurs_free, 3);
        },
        ExprView::Unary(_, a) => {
            lemma_lower_free_variables(*a, ds, x);
            reveal_with_fuel(crate::lambda::occurs_free, 6);
            assert(!crate::lambda::occurs_free(church_true(), x));
            assert(!crate::lambda::occurs_free(church_false(), x));
        },
        ExprView::IfThenElse(c, t, f) => {
            lemma_lower_free_variables(*c, ds, x);
            lemma_lower_free_variables(*t, ds, x);
            lemma_lower_free_variables(*f, ds, x);
            reveal_with_fuel(crate::lambda::occurs_free, 3);
        },
        ExprView::CaseOf(d, v, pats, bodies) => {
            lemma_lower_free_variables(*v, ds, x);
            assert forall|i: int| 0 <= i < bodies.len() implies lowering_keeps_free(#[trigger] bodies[i], ds, x) by {
                lemma_lower_free_variables(bodies[i], ds, x);
            }
            if let Some(data) = d {
                lemma_case_free_variables(data, *v, pats, bodies, ds, x);
            }
        },
        ExprView::Construct(d, name, ms) => {
            assert forall|i: int| 0 <= i < ms.len() implies lowering_keeps_free(#[trigger] ms[i], ds, x) by {
                lemma_lower_free_variables(ms[i], ds, x);
            }
            if let Some(c) = d {
                lemma_construct_free_variables(c, name, ms, ds, x);
            }
        },
        ExprView::Deconstruct(_, _, ms, v, b) => {
            lemma_lower_free_variables(*v, ds, x);
            lemma_lower_free_variables(*b, ds, x);
            if let (Ok(lv), Ok(lb)) = (lower(*v, ds), lower(*b, ds)) {
                lemma_abstract_all_free(ms, lb, x);
            }
        },
        ExprView::Application(a, b) => {
            lemma_lower_free_variables(*a, ds, x);
            lemma_lower_free_variables(*b, ds, x);
        },
        ExprView::Lambda(_, b) => {
            lemma_lower_free_variables(*b, ds, x);
        },
        ExprView::TailCall(items) => {
            assert forall|i: int| 0 <= i < items.len() implies lowering_keeps_free(#[trigger] items[i], ds, x) by {
                lemma_lower_free_variables(items[i], ds, x);
            }
            lemma_tailcall_free_variables(items, ds, x);
        },
        _ => {},
    }
}

/// No free variables: when no identifier stands free in the body of `main`,
/// its lowered term is closed, and compiling it reports no free variable and
/// leaves no abstraction behind.
pub proof fn lemma_closed_main_compiles_without_variables(e: ExprView, ds: Seq<DataView>)
    requires
        forall|x: Seq<char>| !free_in(e, x),
        lower(e, ds) is Ok,
    ensures
        crate::lambda::closed(lower(e, ds)->Ok_0),
        !(compile_term(lower(e, ds)->Ok_0) matches Err(Fault::FreeVariable(_))),
        !(compile_term(lower(e, ds)->Ok_0) matches Err(Fault::UncompilableAbstraction)),
{
    let t = lower(e, ds)->Ok_0;
    assert forall|x: Seq<char>| !crate::lambda::occurs_free(t, x) by {
        lemma_lower_free_variables(e, ds, x);
    }
    crate::lambda::lemma_closed_term_compiles_without_variables(t);
}

/// Lowering to a lambda term, given what the lowering needs to know.
pub trait Reduce<T> {
    fn reduce(&self, t: &T) -> Result<Lambda, ReductionError>;
}

impl Reduce<Vec<Data>> for Expression {
    fn reduce(&self, t: &Vec<Data>) -> Result<Lambda, ReductionError> {
        Expression::reduce(self, t)
    }
}

impl Reduce<()> for crate::program::AST {
    fn reduce(&self, _t: &()) -> Result<Lambda, ReductionError> {
        crate::program::AST::reduce(self)
    }
}

impl Reduce<Vec<Data>> for crate::program::Function {
    fn reduce(&self, t: &Vec<Data>) -> Result<Lambda, ReductionError> {
        Expression::reduce(&self.body, t)
    }
}

// ---------------------------------------------------------------------------
// Order of case arms
// ---------------------------------------------------------------------------

pub open spec fn arm_matches(p: ConstructorView, c: ConstructorView) -> bool {
    p.name == c.name && p.members.len() == c.members.len()
}

pub proof fn lemma_arm_for_unique(pats: Seq<ConstructorView>, n: int, c: ConstructorView, i: int, w: int)
    requires
        0 <= i <= w < n,
        w < pats.len(),
        arm_matches(pats[w], c),
        forall|k: int| 0 <= k < pats.len() && k != w ==> !arm_matches(#[trigger] pats[k], c),
    ensures
        arm_for(pats, n, c, i) == Some(w),
    decreases w - i,
{
    if i < w {
        assert(!arm_matches(pats[i], c));
        lemma_arm_for_unique(pats, n, c, i + 1, w);
    }
}

pub proof fn lemma_arm_for_none(pats: Seq<ConstructorView>, n: int, c: ConstructorView, i: int)
    requires
        0 <= i,
        forall|k: int| 0 <= k < pats.len() ==> !arm_matches(#[trigger] pats[k], c),
    ensures
        arm_for(pats, n, c, i) is None,
    decreases n - i,
{
    if i < n && i < pats.len() {
        assert(!arm_matches(pats[i], c));
        lemma_arm_for_none(pats, n, c, i + 1);
    }
}

/// The order of the arms of a `case` does not matter: when no two arms have
/// the same constructor name and arity, arms given in another order (`perm`
/// sends each arm to its new place, `inv` back) select the same handlers.
pub proof fn lemma_case_arm_order_irrelevant(
    cons: Seq<ConstructorView>,
    pats: Seq<ConstructorView>,
    bodies: Seq<LambdaView>,
    pats2: Seq<ConstructorView>,
    bodies2: Seq<LambdaView>,
    perm: Seq<int>,
    inv: Seq<int>,
)
    requires
        bodies.len() == pats.len(),
        pats2.len() == pats.len(),
        bodies2.len() == pats.len(),
        perm.len() == pats.len(),
        inv.len() == pats.len(),
        forall|i: int| 0 <= i < pats.len() ==> 0 <= #[trigger] perm[i] < pats.len(),
        forall|k: int| 0 <= k < pats.len() ==> 0 <= #[trigger] inv[k] < pats.len() && perm[inv[k]] == k,
        forall|i: int| 0 <= i < pats.len() ==> pats2[#[trigger] perm[i]] == pats[i] && bodies2[perm[i]] == bodies[i],
        forall|k: int| 0 <= k < pats.len() ==> pats[#[trigger] inv[k]] == pats2[k],
        forall|i: int, j: int|
            0 <= i < pats.len() && 0 <= j < pats.len() && i != j ==> !(#[trigger] pats[i].name == #[trigger] pats[j].name
                && pats[i].members.len() == pats[j].members.len()),
    ensures
        case_handlers(cons, pats, bodies) == case_handlers(cons, pats2, bodies2),
    decreases cons.len(),
{
    if cons.len() > 0 {
        lemma_case_arm_order_irrelevant(cons.drop_last(), pats, bodies, pats2, bodies2, perm, inv);
        let c = cons.last();
        let n = pats.len() as int;
        if exists|i: int| 0 <= i < n && arm_matches(pats[i], c) {
            let w = choose|i: int| 0 <= i < n && arm_matches(pats[i], c);
            assert forall|k: int| 0 <= k < pats.len() && k != w implies !arm_matches(#[trigger] pats[k], c) by {
                if arm_matches(pats[k], c) {
                    assert(pats[k].name == pats[w].name);
                }
            }
            lemma_arm_for_unique(pats, n, c, 0, w);
            let w2 = perm[w];
            assert(pats2[w2] == pats[w]);
            assert forall|k: int| 0 <= k < pats2.len() && k != w2 implies !arm_matches(#[trigger] pats2[k], c) by {
                let i = inv[k];
                assert(pats[i] == pats2[k]);
                if arm_matches(pats2[k], c) {
                    if i == w {
                        assert(perm[inv[k]] == k);
                    }
                }
            }
            lemma_arm_for_unique(pats2, n, c, 0, w2);
        } else {
            lemma_arm_for_none(pats, n, c, 0);
            assert forall|k: int| 0 <= k < pats2.len() implies !arm_matches(#[trigger] pats2[k], c) by {
                let i = inv[k];
                assert(pats[i] == pats2[k]);
                assert(!arm_matches(pats[i], c));
            }
            lemma_arm_for_none(pats2, n, c, 0);
        }
    }
}
} // verus!
