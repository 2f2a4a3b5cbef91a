use vstd::prelude::*;

use crate::reduce::{Fault, ReductionError};

verus! {

/// A term of combinatory logic. `S`, `B` and `C` hold up to two arguments,
/// `K` one; builtins and foreign functions hold the arguments given so far.
/// A table holds `values[i]` under `keys[i]`, in any order; the emitter writes
/// its entries in key order (see `table_of`).
pub enum Combinator {
    S { x: Option<Box<Combinator>>, y: Option<Box<Combinator>> },
    B { x: Option<Box<Combinator>>, y: Option<Box<Combinator>> },
    C { x: Option<Box<Combinator>>, y: Option<Box<Combinator>> },
    K { x: Option<Box<Combinator>> },
    I,
    Table(Vec<String>, Vec<Combinator>),
    List(Vec<Combinator>),
    Number(String),
    String(String),
    Builtin { name: String, arguments: Vec<Combinator> },
    Foreign { name: String, arguments: Vec<Combinator> },
    Nil,
}

/// Mathematical model of a combinator term.
pub enum CombView {
    S(Option<Box<CombView>>, Option<Box<CombView>>),
    B(Option<Box<CombView>>, Option<Box<CombView>>),
    C(Option<Box<CombView>>, Option<Box<CombView>>),
    K(Option<Box<CombView>>),
    I,
    Table(Seq<Seq<char>>, Seq<CombView>),
    List(Seq<CombView>),
    Number(Seq<char>),
    Str(Seq<char>),
    Builtin(Seq<char>, Seq<CombView>),
    Foreign(Seq<char>, Seq<CombView>),
    Nil,
}

pub open spec fn slot_view(s: Option<Box<Combinator>>) -> Option<Box<CombView>>
    decreases s,
{
    match s {
        Some(c) => Some(Box::new(comb_view(*c))),
        None => None,
    }
}

/// The model of a combinator.
pub open spec fn comb_view(c: Combinator) -> CombView
    decreases c,
{
    match c {
        Combinator::S { x, y } => CombView::S(slot_view(x), slot_view(y)),
        Combinator::B { x, y } => CombView::B(slot_view(x), slot_view(y)),
        Combinator::C { x, y } => CombView::C(slot_view(x), slot_view(y)),
        Combinator::K { x } => CombView::K(slot_view(x)),
        Combinator::I => CombView::I,
        Combinator::Table(keys, values) => CombView::Table(keys.deep_view(), combs_view(values@)),
        Combinator::List(items) => CombView::List(combs_view(items@)),
        Combinator::Number(n) => CombView::Number(n@),
        Combinator::String(s) => CombView::Str(s@),
        Combinator::Builtin { name, arguments } => CombView::Builtin(name@, combs_view(arguments@)),
        Combinator::Foreign { name, arguments } => CombView::Foreign(name@, combs_view(arguments@)),
        Combinator::Nil => CombView::Nil,
    }
}

/// The models of a sequence of combinators.
pub open spec fn combs_view(s: Seq<Combinator>) -> Seq<CombView>
    decreases s,
{
    if s.len() == 0 {
        Seq::empty()
    } else {
        combs_view(s.drop_last()).push(comb_view(s.last()))
    }
}

pub proof fn lemma_combs_view(s: Seq<Combinator>)
    ensures
        #![trigger combs_view(s)]
        combs_view(s).len() == s.len(),
        forall|i: int| 0 <= i < s.len() ==> combs_view(s)[i] == comb_view(s[i]),
    decreases s.len(),
{
    if s.len() > 0 {
        lemma_combs_view(s.drop_last());
    }
}

impl View for Combinator {
    type V = CombView;

    open spec fn view(&self) -> CombView {
        comb_view(*self)
    }
}

/// The identity combinator `I`: `I x = x`.
pub const I: Combinator = Combinator::I;

/// The value that stands for nothing.
#[allow(non_upper_case_globals)]
pub const Nil: Combinator = Combinator::Nil;

/// A builtin of the runtime, with no argument yet.
pub fn builtin(name: String) -> (r: Combinator)
    ensures
        r@ == CombView::Builtin(name@, Seq::empty()),
{
    let arguments: Vec<Combinator> = Vec::new();
    proof {
        lemma_combs_view(arguments@);
    }
    assert(combs_view(arguments@) =~= Seq::empty());
    Combinator::Builtin { name, arguments }
}

/// A foreign function of the host, with no argument yet.
pub fn foreign(name: String) -> (r: Combinator)
    ensures
        r@ == CombView::Foreign(name@, Seq::empty()),
{
    let arguments: Vec<Combinator> = Vec::new();
    proof {
        lemma_combs_view(arguments@);
    }
    assert(combs_view(arguments@) =~= Seq::empty());
    Combinator::Foreign { name, arguments }
}

/// The number of application steps that compile-time folding may take.
pub const FOLD_FUEL: u64 = 1000000;

/// `c` applied to `arg`, with `fuel` steps left: the folded term and the steps
/// still left, or why folding stopped. Each application takes one step.
pub open spec fn apply(c: CombView, arg: CombView, fuel: nat) -> Result<(CombView, nat), Fault>
    decreases fuel,
{
    if fuel == 0 {
        Err(Fault::StepLimit)
    } else {
        let f = (fuel - 1) as nat;
        match c {
            CombView::S(Some(a), Some(b)) => match apply(*a, arg, f) {
                Err(e) => Err(e),
                Ok((first, f1)) => if f1 > f {
                    Err(Fault::StepLimit)
                } else {
                    match apply(*b, arg, f1) {
                        Err(e) => Err(e),
                        Ok((second, f2)) => if f2 > f {
                            Err(Fault::StepLimit)
                        } else {
                            apply(first, second, f2)
                        },
                    }
                },
            },
            CombView::S(Some(a), None) => Ok((CombView::S(Some(a), Some(Box::new(arg))), f)),
            CombView::S(None, None) => Ok((CombView::S(Some(Box::new(arg)), None), f)),
            CombView::S(None, Some(_)) => Err(Fault::MalformedCombinator),
            CombView::B(Some(a), Some(b)) => match apply(*b, arg, f) {
                Err(e) => Err(e),
                Ok((inner, f1)) => if f1 > f {
                    Err(Fault::StepLimit)
                } else {
                    apply(*a, inner, f1)
                },
            },
            CombView::B(Some(a), None) => Ok((CombView::B(Some(a), Some(Box::new(arg))), f)),
            CombView::B(None, None) => Ok((CombView::B(Some(Box::new(arg)), None), f)),
            CombView::B(None, Some(_)) => Err(Fault::MalformedCombinator),
            CombView::C(Some(a), Some(b)) => match apply(arg, *b, f) {
                Err(e) => Err(e),
                Ok((inner, f1)) => if f1 > f {
                    Err(Fault::StepLimit)
                } else {
                    apply(*a, inner, f1)
                },
            },
            CombView::C(Some(a), None) => Ok((CombView::C(Some(a), Some(Box::new(arg))), f)),
            CombView::C(None, None) => Ok((CombView::C(Some(Box::new(arg)), None), f)),
            CombView::C(None, Some(_)) => Err(Fault::MalformedCombinator),
            CombView::K(Some(a)) => Ok((*a, f)),
            CombView::K(None) => Ok((CombView::K(Some(Box::new(arg))), f)),
            CombView::I => Ok((arg, f)),
            CombView::Builtin(name, args) => Ok((CombView::Builtin(name, args.push(arg)), f)),
            CombView::Foreign(name, args) => Ok((CombView::Foreign(name, args.push(arg)), f)),
            CombView::Nil => Ok((CombView::Nil, f)),
            _ => Ok((c, f)),
        }
    }
}

pub open spec fn same_outcome(
    r: Result<(Combinator, u64), ReductionError>,
    s: Result<(CombView, nat), Fault>,
) -> bool {
    match (r, s) {
        (Ok((c, f)), Ok((cv, fv))) => c@ == cv && f as nat == fv,
        (Err(e), Err(ev)) => e@ == ev,
        _ => false,
    }
}

impl Combinator {
    pub fn duplicate(&self) -> (r: Combinator)
        ensures
            r@ == self@,
        decreases self,
    {
        match self {
            Combinator::S { x, y } => Combinator::S { x: copy_slot(x), y: copy_slot(y) },
            Combinator::B { x, y } => Combinator::B { x: copy_slot(x), y: copy_slot(y) },
            Combinator::C { x, y } => Combinator::C { x: copy_slot(x), y: copy_slot(y) },
            Combinator::K { x } => Combinator::K { x: copy_slot(x) },
            Combinator::I => Combinator::I,
            Combinator::Table(keys, values) => Combinator::Table(
                crate::ast::copy_names(keys),
                copy_all(values),
            ),
            Combinator::List(items) => Combinator::List(copy_all(items)),
            Combinator::Number(n) => Combinator::Number(n.clone()),
            Combinator::String(s) => Combinator::String(s.clone()),
            Combinator::Builtin { name, arguments } => Combinator::Builtin {
                name: name.clone(),
                arguments: copy_all(arguments),
            },
            Combinator::Foreign { name, arguments } => Combinator::Foreign {
                name: name.clone(),
                arguments: copy_all(arguments),
            },
            Combinator::Nil => Combinator::Nil,
        }
    }

    /// This combinator applied to `arg`, folded at once as far as the held
    /// arguments allow (see `apply`).
    pub fn applied_to(&self, arg: Combinator) -> (r: Result<Combinator, ReductionError>)
        ensures
            match (r, apply(self@, arg@, FOLD_FUEL as nat)) {
                (Ok(c), Ok((cv, _))) => c@ == cv,
                (Err(e), Err(ev)) => e@ == ev,
                _ => false,
            },
    {
        match self.apply_with_fuel(arg, FOLD_FUEL) {
            Ok((c, _)) => Ok(c),
            Err(e) => Err(e),
        }
    }

    pub fn apply_with_fuel(&self, arg: Combinator, fuel: u64) -> (r: Result<(Combinator, u64), ReductionError>)
        ensures
            same_outcome(r, apply(self@, arg@, fuel as nat)),
            r matches Ok((_, f)) ==> f < fuel,
        decreases fuel,
    {
        if fuel == 0 {
            return Err(ReductionError::StepLimit);
        }
        let f = fuel - 1;
        match self {
            Combinator::S { x: Some(a), y: Some(b) } => {
                let copy = arg.duplicate();
                let (first, f1) = match a.apply_with_fuel(arg, f) {
                    Ok(p) => p,
                    Err(e) => return Err(e),
                };
                let (second, f2) = match b.apply_with_fuel(copy, f1) {
                    Ok(p) => p,
                    Err(e) => return Err(e),
                };
                first.apply_with_fuel(second, f2)
            },
            Combinator::S { x: Some(a), y: None } => Ok(
                (Combinator::S { x: Some(Box::new((**a).duplicate())), y: Some(Box::new(arg)) }, f),
            ),
            Combinator::S { x: None, y: None } => Ok(
                (Combinator::S { x: Some(Box::new(arg)), y: None }, f),
            ),
            Combinator::S { x: None, y: Some(_) } => Err(ReductionError::MalformedCombinator),
            Combinator::B { x: Some(a), y: Some(b) } => {
                let (inner, f1) = match b.apply_with_fuel(arg, f) {
                    Ok(p) => p,
                    Err(e) => return Err(e),
                };
                a.apply_with_fuel(inner, f1)
            },
            Combinator::B { x: Some(a), y: None } => Ok(
                (Combinator::B { x: Some(Box::new((**a).duplicate())), y: Some(Box::new(arg)) }, f),
            ),
            Combinator::B { x: None, y: None } => Ok(
                (Combinator::B { x: Some(Box::new(arg)), y: None }, f),
            ),
            Combinator::B { x: None, y: Some(_) } => Err(ReductionError::MalformedCombinator),
            Combinator::C { x: Some(a), y: Some(b) } => {
                let (inner, f1) = match arg.apply_with_fuel((**b).duplicate(), f) {
                    Ok(p) => p,
                    Err(e) => return Err(e),
                };
                a.apply_with_fuel(inner, f1)
            },
            Combinator::C { x: Some(a), y: None } => Ok(
                (Combinator::C { x: Some(Box::new((**a).duplicate())), y: Some(Box::new(arg)) }, f),
            ),
            Combinator::C { x: None, y: None } => Ok(
                (Combinator::C { x: Some(Box::new(arg)), y: None }, f),
            ),
            Combinator::C { x: None, y: Some(_) } => Err(ReductionError::MalformedCombinator),
            Combinator::K { x: Some(a) } => Ok(((**a).duplicate(), f)),
            Combinator::K { x: None } => Ok((Combinator::K { x: Some(Box::new(arg)) }, f)),
            Combinator::I => Ok((arg, f)),
            Combinator::Builtin { name, arguments } => {
                let mut held = copy_all(arguments);
                let ghost before = held@;
                held.push(arg);
                proof {
                    lemma_combs_view(held@);
                    lemma_combs_view(before);
                    lemma_combs_view(arguments@);
                }
                assert(combs_view(held@) =~= combs_view(arguments@).push(arg@));
                Ok((Combinator::Builtin { name: name.clone(), arguments: held }, f))
            },
            Combinator::Foreign { name, arguments } => {
                let mut held = copy_all(arguments);
                let ghost before = held@;
                held.push(arg);
                proof {
                    lemma_combs_view(held@);
                    lemma_combs_view(before);
                    lemma_combs_view(arguments@);
                }
                assert(combs_view(held@) =~= combs_view(arguments@).push(arg@));
                Ok((Combinator::Foreign { name: name.clone(), arguments: held }, f))
            },
            Combinator::Nil => Ok((Combinator::Nil, f)),
            _ => Ok((self.duplicate(), f)),
        }
    }
}

pub fn copy_slot(s: &Option<Box<Combinator>>) -> (r: Option<Box<Combinator>>)
    ensures
        slot_view(r) == slot_view(*s),
    decreases s,
{
    match s {
        Some(c) => Some(Box::new((**c).duplicate())),
        None => None,
    }
}

pub fn copy_all(items: &Vec<Combinator>) -> (r: Vec<Combinator>)
    ensures
        combs_view(r@) == combs_view(items@),
    decreases items,
{
    let mut out: Vec<Combinator> = Vec::new();
    let mut i: usize = 0;
    while i < items.len()
        invariant
            i <= items.len(),
            out@.len() == i,
            forall|j: int| 0 <= j < i ==> out@[j]@ == items@[j]@,
        decreases items.len() - i,
    {
        out.push(items[i].duplicate());
        i += 1;
    }
    proof {
        lemma_combs_view(out@);
        lemma_combs_view(items@);
    }
    assert(combs_view(out@) =~= combs_view(items@));
    out
}

} // verus!
