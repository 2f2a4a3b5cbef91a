use vstd::prelude::*;

use crate::combinator::{apply, CombView, Combinator, FOLD_FUEL};
use crate::reduce::{Fault, ReductionError};

verus! {

/// A term of the lambda calculus whose leaves may be combinators.
pub enum Lambda {
    Application(Box<Lambda>, Box<Lambda>),
    Abstraction(String, Box<Lambda>),
    Binding(String),
    Combinator(Combinator),
}

/// Mathematical model of a lambda term.
pub enum LambdaView {
    Application(Box<LambdaView>, Box<LambdaView>),
    Abstraction(Seq<char>, Box<LambdaView>),
    Binding(Seq<char>),
    Combinator(CombView),
}

pub open spec fn lambda_view(t: Lambda) -> LambdaView
    decreases t,
{
    match t {
        Lambda::Application(a, b) => LambdaView::Application(
            Box::new(lambda_view(*a)),
            Box::new(lambda_view(*b)),
        ),
        Lambda::Abstraction(x, b) => LambdaView::Abstraction(x@, Box::new(lambda_view(*b))),
        Lambda::Binding(x) => LambdaView::Binding(x@),
        Lambda::Combinator(c) => LambdaView::Combinator(c@),
    }
}

impl View for Lambda {
    type V = LambdaView;

    open spec fn view(&self) -> LambdaView {
        lambda_view(*self)
    }
}

pub open spec fn app(a: LambdaView, b: LambdaView) -> LambdaView {
    LambdaView::Application(Box::new(a), Box::new(b))
}

pub open spec fn leaf_s() -> LambdaView {
    LambdaView::Combinator(CombView::S(None, None))
}

pub open spec fn leaf_k() -> LambdaView {
    LambdaView::Combinator(CombView::K(None))
}

pub open spec fn leaf_i() -> LambdaView {
    LambdaView::Combinator(CombView::I)
}

/// Whether `x` occurs free in `t`.
pub open spec fn occurs_free(t: LambdaView, x: Seq<char>) -> bool
    decreases t,
{
    match t {
        LambdaView::Application(a, b) => occurs_free(*a, x) || occurs_free(*b, x),
        LambdaView::Abstraction(y, b) => y != x && occurs_free(*b, x),
        LambdaView::Binding(y) => y == x,
        LambdaView::Combinator(_) => false,
    }
}

/// A term with no free variable.
pub open spec fn closed(t: LambdaView) -> bool {
    forall|x: Seq<char>| !occurs_free(t, x)
}

/// A term with no abstraction node.
pub open spec fn abstraction_free(t: LambdaView) -> bool
    decreases t,
{
    match t {
        LambdaView::Application(a, b) => abstraction_free(*a) && abstraction_free(*b),
        LambdaView::Abstraction(_, _) => false,
        LambdaView::Binding(_) => true,
        LambdaView::Combinator(_) => true,
    }
}

/// A term with no variable node.
pub open spec fn binding_free(t: LambdaView) -> bool
    decreases t,
{
    match t {
        LambdaView::Application(a, b) => binding_free(*a) && binding_free(*b),
        LambdaView::Abstraction(_, b) => binding_free(*b),
        LambdaView::Binding(_) => false,
        LambdaView::Combinator(_) => true,
    }
}

/// Bracket abstraction `[x] t` of a term without abstractions:
///
/// | `[x] x`       | `I`                     |
/// | `[x] t`       | `K t`, `x` not free in `t` |
/// | `[x] (A B)`   | `S (K A) ([x] B)`, `x` not free in `A` |
/// | `[x] (A B)`   | `S ([x] A) (K B)`, `x` not free in `B` |
/// | `[x] (A B)`   | `S ([x] A) ([x] B)`     |
pub open spec fn bracket(x: Seq<char>, t: LambdaView) -> LambdaView
    decreases t,
{
    if !occurs_free(t, x) {
        app(leaf_k(), t)
    } else {
        match t {
            LambdaView::Binding(_) => leaf_i(),
            LambdaView::Application(a, b) => if !occurs_free(*a, x) {
                app(app(leaf_s(), app(leaf_k(), *a)), bracket(x, *b))
            } else if !occurs_free(*b, x) {
                app(app(leaf_s(), bracket(x, *a)), app(leaf_k(), *b))
            } else {
                app(app(leaf_s(), bracket(x, *a)), bracket(x, *b))
            },
            _ => app(leaf_k(), t),
        }
    }
}

/// Every abstraction removed, innermost first: `λx. M` becomes `[x] M'` where
/// `M'` is `M` with its own abstractions removed.
pub open spec fn eliminate(t: LambdaView) -> LambdaView
    decreases t,
{
    match t {
        LambdaView::Application(a, b) => app(eliminate(*a), eliminate(*b)),
        LambdaView::Abstraction(x, b) => bracket(x, eliminate(*b)),
        LambdaView::Binding(_) => t,
        LambdaView::Combinator(_) => t,
    }
}

/// Folding an abstraction-free term into a combinator: each application is
/// performed with `apply`, left operand first.
pub open spec fn fold(t: LambdaView, fuel: nat) -> Result<(CombView, nat), Fault>
    decreases t,
{
    match t {
        LambdaView::Application(a, b) => match fold(*a, fuel) {
            Err(e) => Err(e),
            Ok((ca, f1)) => match fold(*b, f1) {
                Err(e) => Err(e),
                Ok((cb, f2)) => apply(ca, cb, f2),
            },
        },
        LambdaView::Abstraction(_, _) => Err(Fault::UncompilableAbstraction),
        LambdaView::Binding(x) => Err(Fault::FreeVariable(x)),
        LambdaView::Combinator(c) => Ok((c, fuel)),
    }
}

/// The combinator that a lambda term compiles to.
pub open spec fn compile_term(t: LambdaView) -> Result<CombView, Fault> {
    match fold(eliminate(t), FOLD_FUEL as nat) {
        Ok((c, _)) => Ok(c),
        Err(e) => Err(e),
    }
}

impl Lambda {
    /// A variable.
    pub fn var(name: String) -> (r: Self)
        ensures
            r@ == LambdaView::Binding(name@),
    {
        Lambda::Binding(name)
    }

    /// The abstraction `λvar. result`.
    pub fn lambda(var: String, result: Self) -> (r: Self)
        ensures
            r@ == LambdaView::Abstraction(var@, Box::new(result@)),
    {
        Lambda::Abstraction(var, Box::new(result))
    }

    /// The application of this term to `arg`.
    pub fn applied_to(self, arg: Self) -> (r: Self)
        ensures
            r@ == app(self@, arg@),
    {
        Lambda::Application(Box::new(self), Box::new(arg))
    }

    pub fn duplicate(&self) -> (r: Self)
        ensures
            r@ == self@,
        decreases self,
    {
        match self {
            Lambda::Application(a, b) => Lambda::Application(
                Box::new(a.duplicate()),
                Box::new(b.duplicate()),
            ),
            Lambda::Abstraction(x, b) => Lambda::Abstraction(x.clone(), Box::new(b.duplicate())),
            Lambda::Binding(x) => Lambda::Binding(x.clone()),
            Lambda::Combinator(c) => Lambda::Combinator(c.duplicate()),
        }
    }

    /// Whether `var` occurs free in this term.
    pub fn has_binding(&self, var: &String) -> (r: bool)
        ensures
            r == occurs_free(self@, var@),
        decreases self,
    {
        match self {
            Lambda::Application(a, b) => a.has_binding(var) || b.has_binding(var),
            Lambda::Abstraction(x, b) => *x != *var && b.has_binding(var),
            Lambda::Binding(x) => *x == *var,
            Lambda::Combinator(_) => false,
        }
    }

    /// The term with every abstraction removed by bracket abstraction.
    pub fn optimize(&self) -> (r: Self)
        ensures
            r@ == eliminate(self@),
        decreases self,
    {
        match self {
            Lambda::Application(a, b) => a.optimize().applied_to(b.optimize()),
            Lambda::Abstraction(x, b) => bracket_abstract(x, b.optimize()),
            Lambda::Binding(x) => Lambda::Binding(x.clone()),
            Lambda::Combinator(c) => Lambda::Combinator(c.duplicate()),
        }
    }

    /// Convert the term into a combinator term with no variable: abstractions
    /// are removed, then the applications are folded.
    pub fn to_combinator(&self) -> (r: Result<Combinator, ReductionError>)
        ensures
            match (r, compile_term(self@)) {
                (Ok(c), Ok(cv)) => c@ == cv,
                (Err(e), Err(ev)) => e@ == ev,
                _ => false,
            },
    {
        match self.optimize().fold_with_fuel(FOLD_FUEL) {
            Ok((c, _)) => Ok(c),
            Err(e) => Err(e),
        }
    }

    fn fold_with_fuel(&self, fuel: u64) -> (r: Result<(Combinator, u64), ReductionError>)
        ensures
            crate::combinator::same_outcome(r, fold(self@, fuel as nat)),
            r matches Ok((_, f)) ==> f <= fuel,
        decreases self,
    {
        match self {
            Lambda::Application(a, b) => {
                let (ca, f1) = match a.fold_with_fuel(fuel) {
                    Ok(p) => p,
                    Err(e) => return Err(e),
                };
                let (cb, f2) = match b.fold_with_fuel(f1) {
                    Ok(p) => p,
                    Err(e) => return Err(e),
                };
                let r = ca.apply_with_fuel(cb, f2);
                match r {
                    Ok((c, f3)) => Ok((c, f3)),
                    Err(e) => Err(e),
                }
            },
            Lambda::Abstraction(_, _) => Err(ReductionError::UncompilableAbstraction),
            Lambda::Binding(x) => Err(ReductionError::FreeVariable(x.clone())),
            Lambda::Combinator(c) => Ok((c.duplicate(), fuel)),
        }
    }
}

fn leaf(c: Combinator) -> (r: Lambda)
    ensures
        r@ == LambdaView::Combinator(c@),
{
    Lambda::Combinator(c)
}

fn leaf_s_exec() -> (r: Lambda)
    ensures
        r@ == leaf_s(),
{
    leaf(Combinator::S { x: None, y: None })
}

fn leaf_k_exec() -> (r: Lambda)
    ensures
        r@ == leaf_k(),
{
    leaf(Combinator::K { x: None })
}

/// `[x] t` (see `bracket`).
fn bracket_abstract(x: &String, t: Lambda) -> (r: Lambda)
    ensures
        r@ == bracket(x@, t@),
    decreases t,
{
    if !t.has_binding(x) {
        return leaf_k_exec().applied_to(t);
    }
    match t {
        Lambda::Binding(_) => leaf(Combinator::I),
        Lambda::Application(a, b) => {
            if !a.has_binding(x) {
                let k_a = leaf_k_exec().applied_to(*a);
                leaf_s_exec().applied_to(k_a).applied_to(bracket_abstract(x, *b))
            } else if !b.has_binding(x) {
                let k_b = leaf_k_exec().applied_to(*b);
                leaf_s_exec().applied_to(bracket_abstract(x, *a)).applied_to(k_b)
            } else {
                let left = bracket_abstract(x, *a);
                leaf_s_exec().applied_to(left).applied_to(bracket_abstract(x, *b))
            }
        },
        other => leaf_k_exec().applied_to(other),
    }
}

// ---------------------------------------------------------------------------
// Laws of bracket abstraction
// ---------------------------------------------------------------------------

pub proof fn lemma_bracket_abstraction_free(x: Seq<char>, t: LambdaView)
    requires
        abstraction_free(t),
    ensures
        abstraction_free(bracket(x, t)),
    decreases t,
{
    reveal_with_fuel(abstraction_free, 4);
    if occurs_free(t, x) {
        if let LambdaView::Application(a, b) = t {
            lemma_bracket_abstraction_free(x, *a);
            lemma_bracket_abstraction_free(x, *b);
        }
    }
}

/// Bracket abstraction terminates on every term and leaves no abstraction node.
pub proof fn lemma_eliminate_abstraction_free(t: LambdaView)
    ensures
        abstraction_free(eliminate(t)),
    decreases t,
{
    match t {
        LambdaView::Application(a, b) => {
            lemma_eliminate_abstraction_free(*a);
            lemma_eliminate_abstraction_free(*b);
        },
        LambdaView::Abstraction(x, b) => {
            lemma_eliminate_abstraction_free(*b);
            lemma_bracket_abstraction_free(x, eliminate(*b));
        },
        _ => {},
    }
}

pub proof fn lemma_bracket_free_variables(x: Seq<char>, t: LambdaView, y: Seq<char>)
    requires
        abstraction_free(t),
    ensures
        occurs_free(bracket(x, t), y) <==> (y != x && occurs_free(t, y)),
    decreases t,
{
    reveal_with_fuel(occurs_free, 4);
    if occurs_free(t, x) {
        match t {
            LambdaView::Application(a, b) => {
                lemma_bracket_free_variables(x, *a, y);
                lemma_bracket_free_variables(x, *b, y);
            },
            _ => {},
        }
    }
}

/// Removing abstractions keeps exactly the free variables of the term.
pub proof fn lemma_eliminate_free_variables(t: LambdaView, y: Seq<char>)
    ensures
        occurs_free(eliminate(t), y) <==> occurs_free(t, y),
    decreases t,
{
    match t {
        LambdaView::Application(a, b) => {
            lemma_eliminate_free_variables(*a, y);
            lemma_eliminate_free_variables(*b, y);
        },
        LambdaView::Abstraction(x, b) => {
            lemma_eliminate_free_variables(*b, y);
            lemma_eliminate_abstraction_free(*b);
            lemma_bracket_free_variables(x, eliminate(*b), y);
        },
        _ => {},
    }
}

pub proof fn lemma_no_free_no_binding(t: LambdaView)
    requires
        abstraction_free(t),
        forall|x: Seq<char>| !occurs_free(t, x),
    ensures
        binding_free(t),
    decreases t,
{
    match t {
        LambdaView::Application(a, b) => {
            assert forall|x: Seq<char>| !occurs_free(*a, x) by {
                assert(!occurs_free(t, x));
            }
            assert forall|x: Seq<char>| !occurs_free(*b, x) by {
                assert(!occurs_free(t, x));
            }
            lemma_no_free_no_binding(*a);
            lemma_no_free_no_binding(*b);
        },
        LambdaView::Binding(y) => {
            assert(occurs_free(t, y));
        },
        _ => {},
    }
}

pub proof fn lemma_fold_binding_free(t: LambdaView, fuel: nat)
    requires
        abstraction_free(t),
        binding_free(t),
    ensures
        !(fold(t, fuel) matches Err(Fault::FreeVariable(_))),
        !(fold(t, fuel) matches Err(Fault::UncompilableAbstraction)),
    decreases t,
{
    if let LambdaView::Application(a, b) = t {
        lemma_fold_binding_free(*a, fuel);
        if let Ok((ca, f1)) = fold(*a, fuel) {
            lemma_fold_binding_free(*b, f1);
            if let Ok((cb, f2)) = fold(*b, f1) {
                lemma_apply_faults(ca, cb, f2);
            }
        }
    }
}

/// Folding combinators only ever stops on a malformed combinator or on the step limit.
pub proof fn lemma_apply_faults(c: CombView, arg: CombView, fuel: nat)
    ensures
        apply(c, arg, fuel) matches Err(e) ==> (e is MalformedCombinator || e is StepLimit),
    decreases fuel,
{
    if fuel > 0 {
        let f = (fuel - 1) as nat;
        match c {
            CombView::S(Some(a), Some(b)) => {
                lemma_apply_faults(*a, arg, f);
                if let Ok((first, f1)) = apply(*a, arg, f) {
                    if f1 <= f {
                        lemma_apply_faults(*b, arg, f1);
                        if let Ok((second, f2)) = apply(*b, arg, f1) {
                            if f2 <= f {
                                lemma_apply_faults(first, second, f2);
                            }
                        }
                    }
                }
            },
            CombView::B(Some(a), Some(b)) => {
                lemma_apply_faults(*b, arg, f);
                if let Ok((inner, f1)) = apply(*b, arg, f) {
                    if f1 <= f {
                        lemma_apply_faults(*a, inner, f1);
                    }
                }
            },
            CombView::C(Some(a), Some(b)) => {
                lemma_apply_faults(arg, *b, f);
                if let Ok((inner, f1)) = apply(arg, *b, f) {
                    if f1 <= f {
                        lemma_apply_faults(*a, inner, f1);
                    }
                }
            },
            _ => {},
        }
    }
}

/// A closed lambda term compiles to a combinator term without any variable:
/// compilation never reports a free variable or a leftover abstraction.
pub proof fn lemma_closed_term_compiles_without_variables(t: LambdaView)
    requires
        closed(t),
    ensures
        abstraction_free(eliminate(t)),
        binding_free(eliminate(t)),
        !(compile_term(t) matches Err(Fault::FreeVariable(_))),
        !(compile_term(t) matches Err(Fault::UncompilableAbstraction)),
{
    lemma_eliminate_abstraction_free(t);
    assert forall|x: Seq<char>| !occurs_free(eliminate(t), x) by {
        lemma_eliminate_free_variables(t, x);
    }
    lemma_no_free_no_binding(eliminate(t));
    lemma_fold_binding_free(eliminate(t), FOLD_FUEL as nat);
}

} // verus!
