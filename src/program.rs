use vstd::prelude::*;

use crate::ast::{
    cons_seq_view, copy_constructors, data_seq_view, Constant, Constructor, ConstructorView, Data,
    DataView, ExprView, Expression, Import,
};
use crate::lambda::Lambda;
use crate::reduce::{lower, same_result, Fault, ReductionError};
use crate::rewrite::{
    declared, lemma_resolution_complete, lemma_subst_absent, lemma_subst_mentions,
    lemma_subst_resolved, lift_head, mentions, promote, resolve, resolved, subst,
};

verus! {

/// A named definition: a constant, or a function whose body is its chain of lambdas.
pub struct DefView {
    pub name: Seq<char>,
    pub body: ExprView,
}

/// `let mul a b = a * b`: held as `mul = λa.λb. a * b`.
pub struct Function {
    pub name: String,
    pub body: Expression,
}

pub open spec fn const_view(c: Constant) -> DefView {
    DefView { name: c.name@, body: c.value@ }
}

pub open spec fn fn_view(f: Function) -> DefView {
    DefView { name: f.name@, body: f.body@ }
}

pub open spec fn consts_view(s: Seq<Constant>) -> Seq<DefView> {
    s.map_values(|c: Constant| const_view(c))
}

pub open spec fn fns_view(s: Seq<Function>) -> Seq<DefView> {
    s.map_values(|f: Function| fn_view(f))
}

/// `λa1. .. λan. body`, the first argument outermost.
pub open spec fn wrap_lambdas(args: Seq<Seq<char>>, body: ExprView) -> ExprView
    decreases args.len(),
{
    if args.len() == 0 {
        body
    } else {
        ExprView::Lambda(args[0], Box::new(wrap_lambdas(args.drop_first(), body)))
    }
}

impl Function {
    pub fn new(name: String, args: Vec<String>, body: Expression) -> (r: Self)
        ensures
            r.name@ == name@,
            r.body@ == wrap_lambdas(args.deep_view(), body@),
    {
        let ghost av = args.deep_view();
        let ghost b = body@;
        let mut result = body;
        let mut i: usize = args.len();
        assert(av.subrange(i as int, av.len() as int) =~= Seq::<Seq<char>>::empty());
        while i > 0
            invariant
                i <= args.len(),
                av == args.deep_view(),
                av.len() == args.len(),
                result@ == wrap_lambdas(av.subrange(i as int, av.len() as int), b),
            decreases i,
        {
            i -= 1;
            assert(av.subrange(i as int, av.len() as int).drop_first() =~= av.subrange(
                i + 1,
                av.len() as int,
            ));
            result = Expression::Lambda(args[i].clone(), Box::new(result));
        }
        assert(av.subrange(0, av.len() as int) =~= av);
        Function { name, body: result }
    }

    pub fn get_name(&self) -> (r: &String)
        ensures
            r@ == self.name@,
    {
        &self.name
    }

    pub fn get_body(&self) -> (r: &Expression)
        ensures
            r@ == self.body@,
    {
        &self.body
    }

    pub fn duplicate(&self) -> (r: Self)
        ensures
            fn_view(r) == fn_view(*self),
    {
        Function { name: self.name.clone(), body: self.body.duplicate() }
    }

    /// Substitute the body of `f` for each use of its name.
    pub fn inline_function(&mut self, f: &Function)
        ensures
            final(self).name@ == old(self).name@,
            final(self).body@ == subst(old(self).body@, f.name@, f.body@),
    {
        let c = Constant::new(f.name.clone(), f.body.duplicate());
        self.replace_constant(&c);
    }

    /// The tail-call pass on the body.
    pub fn resolve_tailcall(&mut self)
        ensures
            final(self).name@ == old(self).name@,
            final(self).body@ == lift_head(old(self).body@),
    {
        self.body = self.body.resolve_tailcall(true);
    }

    pub fn resolve_types(&mut self, data: &Vec<Data>, cons: &Vec<Constructor>)
        ensures
            final(self).name@ == old(self).name@,
            final(self).body@ == resolve(old(self).body@, data_seq_view(data@), cons_seq_view(cons@)),
    {
        self.body = self.body.resolve_types(data, cons);
    }

    pub fn replace_constant(&mut self, constant: &Constant)
        ensures
            final(self).name@ == old(self).name@,
            final(self).body@ == subst(old(self).body@, constant.name@, constant.value@),
    {
        self.body = self.body.replace_constant(constant);
    }

    pub fn replace_constructors(&mut self, cons: &Constructor)
        ensures
            final(self).name@ == old(self).name@,
            final(self).body@ == promote(old(self).body@, cons@),
    {
        self.body = self.body.replace_constructors(cons);
    }
}

impl Constant {
    /// Whether the constant's body mentions its own name.
    pub fn is_recursive(&self) -> (r: bool)
        ensures
            r == mentions(self.value@, self.name@),
    {
        self.value.has_binding(&self.name)
    }

    pub fn resolve_types(&mut self, data: &Vec<Data>, cons: &Vec<Constructor>)
        ensures
            final(self).name@ == old(self).name@,
            final(self).value@ == resolve(old(self).value@, data_seq_view(data@), cons_seq_view(cons@)),
    {
        self.value = self.value.resolve_types(data, cons);
    }

    /// Substitute `constant` into this constant, unless this one is recursive.
    pub fn replace_constant(&mut self, constant: &Constant)
        ensures
            final(self).name@ == old(self).name@,
            final(self).value@ == substitute_def(const_view(*old(self)), const_view(*constant)).body,
    {
        if !self.is_recursive() {
            self.value = self.value.replace_constant(constant);
        }
    }

    pub fn replace_constructors(&mut self, cons: &Constructor)
        ensures
            final(self).name@ == old(self).name@,
            final(self).value@ == promote(old(self).value@, cons@),
    {
        self.value = self.value.replace_constructors(cons);
    }
}

/// A definition whose body mentions its own name.
pub open spec fn self_referent(d: DefView) -> bool {
    mentions(d.body, d.name)
}

/// `c` substituted into `d`, unless `d` refers to itself.
pub open spec fn substitute_def(d: DefView, c: DefView) -> DefView {
    if self_referent(d) {
        d
    } else {
        DefView { name: d.name, body: subst(d.body, c.name, c.body) }
    }
}

/// Each definition of `cs` that does not refer to itself substituted into `e`, in order.
pub open spec fn inline_into(e: ExprView, cs: Seq<DefView>) -> ExprView
    decreases cs.len(),
{
    if cs.len() == 0 {
        e
    } else {
        let prev = inline_into(e, cs.drop_last());
        let c = cs.last();
        if self_referent(c) {
            prev
        } else {
            subst(prev, c.name, c.body)
        }
    }
}

/// The constants after the first `i` of them have been substituted, in order,
/// into every constant that does not refer to itself.
pub open spec fn const_pass(cs: Seq<DefView>, i: nat) -> Seq<DefView>
    decreases i,
{
    if i == 0 {
        cs
    } else {
        let prev = const_pass(cs, (i - 1) as nat);
        if i - 1 < prev.len() && !self_referent(prev[i - 1]) {
            prev.map_values(|d: DefView| substitute_def(d, prev[i - 1]))
        } else {
            prev
        }
    }
}

/// Each body of `fs` with the constants `cs` inlined.
pub open spec fn inline_bodies(fs: Seq<DefView>, cs: Seq<DefView>) -> Seq<DefView> {
    fs.map_values(|f: DefView| DefView { name: f.name, body: inline_into(f.body, cs) })
}

/// Mathematical model of a compilation unit.
pub struct AstView {
    pub constants: Seq<DefView>,
    pub cons: Seq<ConstructorView>,
    pub data: Seq<DataView>,
    pub functions: Seq<DefView>,
}

/// A compilation unit: imports, constants, standalone (`type`) constructors,
/// data declarations and functions, each in source order.
pub struct AST {
    pub imports: Vec<Import>,
    pub constants: Vec<Constant>,
    pub cons: Vec<Constructor>,
    pub data: Vec<Data>,
    pub functions: Vec<Function>,
}

impl View for AST {
    type V = AstView;

    open spec fn view(&self) -> AstView {
        AstView {
            constants: consts_view(self.constants@),
            cons: cons_seq_view(self.cons@),
            data: data_seq_view(self.data@),
            functions: fns_view(self.functions@),
        }
    }
}

/// Constant inlining: the constants among themselves, then into the functions.
pub open spec fn inline_constants_spec(a: AstView) -> AstView {
    let cs = const_pass(a.constants, a.constants.len());
    AstView { constants: cs, functions: inline_bodies(a.functions, cs), ..a }
}

/// `n` rounds of substituting every function into every function.
pub open spec fn function_rounds(fs: Seq<DefView>, n: nat) -> Seq<DefView>
    decreases n,
{
    if n == 0 {
        fs
    } else {
        let prev = function_rounds(fs, (n - 1) as nat);
        inline_bodies(prev, prev)
    }
}

/// Constant inlining, then as many rounds of function inlining as there are
/// functions, then constant inlining again.
pub open spec fn inline_functions_spec(a: AstView) -> AstView {
    let first = inline_constants_spec(a);
    let rounds = AstView {
        functions: function_rounds(first.functions, first.functions.len()),
        ..first
    };
    inline_constants_spec(rounds)
}

/// Every constructor that the program declares: those of the data types in
/// order, then the standalone ones.
pub open spec fn data_constructors(ds: Seq<DataView>) -> Seq<ConstructorView>
    decreases ds.len(),
{
    if ds.len() == 0 {
        Seq::empty()
    } else {
        data_constructors(ds.drop_last()) + ds.last().cons
    }
}

pub open spec fn all_constructors(a: AstView) -> Seq<ConstructorView> {
    data_constructors(a.data) + a.cons
}

/// `e` with each constructor of `cs` promoted, in order.
pub open spec fn promote_each(e: ExprView, cs: Seq<ConstructorView>) -> ExprView
    decreases cs.len(),
{
    if cs.len() == 0 {
        e
    } else {
        promote(promote_each(e, cs.drop_last()), cs.last())
    }
}

pub open spec fn map_bodies_promote(fs: Seq<DefView>, cs: Seq<ConstructorView>) -> Seq<DefView> {
    fs.map_values(|f: DefView| DefView { name: f.name, body: promote_each(f.body, cs) })
}

pub open spec fn map_bodies_resolve(fs: Seq<DefView>, ds: Seq<DataView>, cs: Seq<ConstructorView>) -> Seq<DefView> {
    fs.map_values(|f: DefView| DefView { name: f.name, body: resolve(f.body, ds, cs) })
}

pub open spec fn map_bodies_lift(fs: Seq<DefView>) -> Seq<DefView> {
    fs.map_values(|f: DefView| DefView { name: f.name, body: lift_head(f.body) })
}

pub open spec fn main_name() -> Seq<char> {
    seq!['m', 'a', 'i', 'n']
}

/// The first function from index `i` on that is named `main`.
pub open spec fn entry_from(fs: Seq<DefView>, i: int) -> Option<DefView>
    decreases fs.len() - i,
{
    if i < 0 || i >= fs.len() {
        None
    } else if fs[i].name == main_name() {
        Some(fs[i])
    } else {
        entry_from(fs, i + 1)
    }
}

/// Lowering of a program: the body of its `main` function.
pub open spec fn lower_program(a: AstView) -> Result<crate::lambda::LambdaView, Fault> {
    match entry_from(a.functions, 0) {
        Some(f) => lower(f.body, a.data),
        None => Err(Fault::NoEntryPoint),
    }
}

/// The program after tail-call lifting and constructor promotion, the state in
/// which types are resolved.
pub open spec fn promoted_state(raw: AstView) -> AstView {
    let lifted = AstView { functions: map_bodies_lift(raw.functions), ..raw };
    let cs = all_constructors(lifted);
    AstView {
        functions: map_bodies_promote(lifted.functions, cs),
        constants: map_bodies_promote(lifted.constants, cs),
        ..lifted
    }
}

/// The rewrites in their fixed order: tail-call lifting, constructor promotion,
/// type resolution, then constant and function inlining.
pub open spec fn rewritten(raw: AstView) -> AstView {
    let promoted = promoted_state(raw);
    let resolved = AstView {
        functions: map_bodies_resolve(promoted.functions, promoted.data, promoted.cons),
        constants: map_bodies_resolve(promoted.constants, promoted.data, promoted.cons),
        ..promoted
    };
    inline_functions_spec(resolved)
}

impl AST {
    pub fn new(
        imports: Vec<Import>,
        constants: Vec<Constant>,
        cons: Vec<Constructor>,
        data: Vec<Data>,
        functions: Vec<Function>,
    ) -> (r: Self)
        ensures
            r.imports@ == imports@,
            r.constants@ == constants@,
            r.cons@ == cons@,
            r.data@ == data@,
            r.functions@ == functions@,
    {
        AST { imports, constants, cons, data, functions }
    }

    pub fn get_data(&self) -> (r: &Vec<Data>)
        ensures
            r@ == self.data@,
    {
        &self.data
    }

    pub fn get_constants(&self) -> (r: &Vec<Constant>)
        ensures
            r@ == self.constants@,
    {
        &self.constants
    }

    pub fn get_functions(&self) -> (r: &Vec<Function>)
        ensures
            r@ == self.functions@,
    {
        &self.functions
    }

    /// Whether two data declarations share a name.
    pub fn has_conflicting_datatypes(&self) -> (r: bool)
        ensures
            r == exists|i: int, j: int|
                0 <= i < self.data@.len() && 0 <= j < self.data@.len() && i != j
                    && #[trigger] self.data@[i].name@ == #[trigger] self.data@[j].name@,
    {
        let mut i: usize = 0;
        while i < self.data.len()
            invariant
                i <= self.data.len(),
                forall|a: int, b: int|
                    0 <= a < i && 0 <= b < self.data@.len() && a != b ==> #[trigger] self.data@[a].name@
                        != #[trigger] self.data@[b].name@,
            decreases self.data.len() - i,
        {
            let mut j: usize = 0;
            while j < self.data.len()
                invariant
                    i < self.data.len(),
                    j <= self.data.len(),
                    forall|a: int, b: int|
                        0 <= a < i && 0 <= b < self.data@.len() && a != b ==> #[trigger] self.data@[a].name@
                            != #[trigger] self.data@[b].name@,
                    forall|b: int|
                        0 <= b < j && b != i ==> self.data@[i as int].name@ != #[trigger] self.data@[b].name@,
                decreases self.data.len() - j,
            {
                if i != j && self.data[i].name == self.data[j].name {
                    return true;
                }
                j += 1;
            }
            i += 1;
        }
        false
    }

    /// The tail-call pass on every function.
    pub fn resolve_tailcalls(&mut self)
        ensures
            final(self)@ == (AstView { functions: map_bodies_lift(old(self)@.functions), ..old(self)@ }),
            final(self).imports@ == old(self).imports@,
    {
        let ghost start = self@;
        let n = self.functions.len();
        let mut i: usize = 0;
        while i < n
            invariant
                n == self.functions.len(),
                n == start.functions.len(),
                i <= n,
                self@.constants == start.constants,
                self@.cons == start.cons,
                self@.data == start.data,
                self.imports@ == old(self).imports@,
                forall|j: int| 0 <= j < i ==> fn_view(#[trigger] self.functions@[j]) == (DefView {
                    name: start.functions[j].name,
                    body: lift_head(start.functions[j].body),
                }),
                forall|j: int| i <= j < n ==> fn_view(#[trigger] self.functions@[j]) == start.functions[j],
            decreases n - i,
        {
            let mut f = self.functions[i].duplicate();
            f.resolve_tailcall();
            self.functions.set(i, f);
            i += 1;
        }
        assert(self@.functions =~= map_bodies_lift(start.functions));
    }

    /// Type resolution of every function and constant body.
    pub fn resolve_types(&mut self)
        ensures
            final(self)@ == (AstView {
                functions: map_bodies_resolve(old(self)@.functions, old(self)@.data, old(self)@.cons),
                constants: map_bodies_resolve(old(self)@.constants, old(self)@.data, old(self)@.cons),
                ..old(self)@
            }),
            final(self).imports@ == old(self).imports@,
    {
        let ghost start = self@;
        let n = self.functions.len();
        let mut i: usize = 0;
        while i < n
            invariant
                n == self.functions.len(),
                n == start.functions.len(),
                i <= n,
                self@.constants == start.constants,
                self@.cons == start.cons,
                self@.data == start.data,
                self.imports@ == old(self).imports@,
                forall|j: int| 0 <= j < i ==> fn_view(#[trigger] self.functions@[j]) == (DefView {
                    name: start.functions[j].name,
                    body: resolve(start.functions[j].body, start.data, start.cons),
                }),
                forall|j: int| i <= j < n ==> fn_view(#[trigger] self.functions@[j]) == start.functions[j],
            decreases n - i,
        {
            let mut f = self.functions[i].duplicate();
            f.resolve_types(&self.data, &self.cons);
            self.functions.set(i, f);
            i += 1;
        }
        let m = self.constants.len();
        let mut k: usize = 0;
        while k < m
            invariant
                m == self.constants.len(),
                m == start.constants.len(),
                k <= m,
                self@.functions =~= map_bodies_resolve(start.functions, start.data, start.cons),
                self@.cons == start.cons,
                self@.data == start.data,
                self.imports@ == old(self).imports@,
                forall|j: int| 0 <= j < k ==> const_view(#[trigger] self.constants@[j]) == (DefView {
                    name: start.constants[j].name,
                    body: resolve(start.constants[j].body, start.data, start.cons),
                }),
                forall|j: int| k <= j < m ==> const_view(#[trigger] self.constants@[j]) == start.constants[j],
            decreases m - k,
        {
            let mut c = self.constants[k].duplicate();
            c.resolve_types(&self.data, &self.cons);
            self.constants.set(k, c);
            k += 1;
        }
        assert(self@.constants =~= map_bodies_resolve(start.constants, start.data, start.cons));
    }

    /// Every constructor of the program, data types first.
    fn collect_constructors(&self) -> (r: Vec<Constructor>)
        ensures
            cons_seq_view(r@) == all_constructors(self@),
    {
        let ghost ds = self@.data;
        let mut out: Vec<Constructor> = Vec::new();
        let mut i: usize = 0;
        while i < self.data.len()
            invariant
                i <= self.data.len(),
                ds == self@.data,
                cons_seq_view(out@) == data_constructors(ds.take(i as int)),
            decreases self.data.len() - i,
        {
            assert(ds.take(i + 1).drop_last() =~= ds.take(i as int));
            let ghost before = cons_seq_view(out@);
            let more = copy_constructors(&self.data[i].cons);
            let mut j: usize = 0;
            while j < more.len()
                invariant
                    j <= more.len(),
                    cons_seq_view(out@) == before + cons_seq_view(more@).take(j as int),
                decreases more.len() - j,
            {
                let ghost b2 = out@;
                out.push(more[j].duplicate());
                assert(cons_seq_view(out@) =~= cons_seq_view(b2).push(more@[j as int]@));
                assert(cons_seq_view(more@).take(j + 1) =~= cons_seq_view(more@).take(j as int).push(more@[j as int]@));
                j += 1;
            }
            assert(cons_seq_view(more@).take(more.len() as int) =~= ds[i as int].cons);
            assert(ds.take(i + 1).last() == ds[i as int]);
            i += 1;
        }
        assert(ds.take(self.data.len() as int) =~= ds);
        let ghost mid = cons_seq_view(out@);
        let mut k: usize = 0;
        while k < self.cons.len()
            invariant
                k <= self.cons.len(),
                cons_seq_view(out@) == mid + cons_seq_view(self.cons@).take(k as int),
            decreases self.cons.len() - k,
        {
            let ghost b3 = out@;
            out.push(self.cons[k].duplicate());
            assert(cons_seq_view(out@) =~= cons_seq_view(b3).push(self.cons@[k as int]@));
            assert(cons_seq_view(self.cons@).take(k + 1) =~= cons_seq_view(self.cons@).take(k as int).push(self.cons@[k as int]@));
            k += 1;
        }
        assert(cons_seq_view(self.cons@).take(self.cons.len() as int) =~= cons_seq_view(self.cons@));
        out
    }

    /// Constructor promotion of every function and constant body, by every
    /// declared constructor in turn.
    pub fn replace_constructors(&mut self)
        ensures
            final(self)@ == (AstView {
                functions: map_bodies_promote(old(self)@.functions, all_constructors(old(self)@)),
                constants: map_bodies_promote(old(self)@.constants, all_constructors(old(self)@)),
                ..old(self)@
            }),
            final(self).imports@ == old(self).imports@,
    {
        let ghost start = self@;
        let all = self.collect_constructors();
        let ghost av = cons_seq_view(all@);
        let n = self.functions.len();
        let mut i: usize = 0;
        while i < n
            invariant
                n == self.functions.len(),
                n == start.functions.len(),
                i <= n,
                av == cons_seq_view(all@),
                av == all_constructors(start),
                self@.constants == start.constants,
                self@.cons == start.cons,
                self@.data == start.data,
                self.imports@ == old(self).imports@,
                forall|j: int| 0 <= j < i ==> fn_view(#[trigger] self.functions@[j]) == (DefView {
                    name: start.functions[j].name,
                    body: promote_each(start.functions[j].body, av),
                }),
                forall|j: int| i <= j < n ==> fn_view(#[trigger] self.functions@[j]) == start.functions[j],
            decreases n - i,
        {
            let mut f = self.functions[i].duplicate();
            promote_function(&mut f, &all);
            self.functions.set(i, f);
            i += 1;
        }
        let m = self.constants.len();
        let mut c: usize = 0;
        while c < m
            invariant
                m == self.constants.len(),
                m == start.constants.len(),
                c <= m,
                av == cons_seq_view(all@),
                av == all_constructors(start),
                self@.functions =~= map_bodies_promote(start.functions, av),
                self@.cons == start.cons,
                self@.data == start.data,
                self.imports@ == old(self).imports@,
                forall|j: int| 0 <= j < c ==> const_view(#[trigger] self.constants@[j]) == (DefView {
                    name: start.constants[j].name,
                    body: promote_each(start.constants[j].body, av),
                }),
                forall|j: int| c <= j < m ==> const_view(#[trigger] self.constants@[j]) == start.constants[j],
            decreases m - c,
        {
            let mut con = self.constants[c].duplicate();
            promote_constant(&mut con, &all);
            self.constants.set(c, con);
            c += 1;
        }
        assert(self@.constants =~= map_bodies_promote(start.constants, av));
    }

    /// Constant inlining. Each constant in turn, when it does not refer to itself,
    /// is substituted into every constant that does not refer to itself; then each
    /// such constant is substituted, in order, into every function.
    pub fn inline_constants(&mut self)
        ensures
            final(self)@ == inline_constants_spec(old(self)@),
            final(self).imports@ == old(self).imports@,
    {
        let ghost start = self@;
        let k = self.constants.len();
        let mut i: usize = 0;
        while i < k
            invariant
                k == self.constants.len(),
                k == start.constants.len(),
                i <= k,
                consts_view(self.constants@) == const_pass(start.constants, i as nat),
                self@.functions == start.functions,
                self@.cons == start.cons,
                self@.data == start.data,
                self.imports@ == old(self).imports@,
            decreases k - i,
        {
            let ghost prev = consts_view(self.constants@);
            proof {
                lemma_const_pass_len(start.constants, i as nat);
            }
            assert(prev[i as int] == const_view(self.constants@[i as int]));
            if !self.constants[i].is_recursive() {
                let c = self.constants[i].duplicate();
                let mut j: usize = 0;
                while j < k
                    invariant
                        k == self.constants.len(),
                        k == prev.len(),
                        j <= k,
                        const_view(c) == prev[i as int],
                        forall|jj: int| 0 <= jj < j ==> const_view(#[trigger] self.constants@[jj]) == substitute_def(prev[jj], prev[i as int]),
                        forall|jj: int| j <= jj < k ==> const_view(#[trigger] self.constants@[jj]) == prev[jj],
                        self@.functions == start.functions,
                        self@.cons == start.cons,
                        self@.data == start.data,
                        self.imports@ == old(self).imports@,
                    decreases k - j,
                {
                    let mut d = self.constants[j].duplicate();
                    d.replace_constant(&c);
                    self.constants.set(j, d);
                    j += 1;
                }
                assert(consts_view(self.constants@) =~= prev.map_values(|d: DefView| substitute_def(d, prev[i as int])));
            }
            i += 1;
        }
        let ghost cs = consts_view(self.constants@);
        let n = self.functions.len();
        let mut a: usize = 0;
        while a < n
            invariant
                n == self.functions.len(),
                n == start.functions.len(),
                a <= n,
                cs == consts_view(self.constants@),
                cs == const_pass(start.constants, start.constants.len()),
                forall|j: int| 0 <= j < a ==> fn_view(#[trigger] self.functions@[j]) == (DefView {
                    name: start.functions[j].name,
                    body: inline_into(start.functions[j].body, cs),
                }),
                forall|j: int| a <= j < n ==> fn_view(#[trigger] self.functions@[j]) == start.functions[j],
                self@.cons == start.cons,
                self@.data == start.data,
                self.imports@ == old(self).imports@,
            decreases n - a,
        {
            let mut f = self.functions[a].duplicate();
            inline_constants_into(&mut f, &self.constants);
            self.functions.set(a, f);
            a += 1;
        }
        assert(self@.functions =~= inline_bodies(start.functions, cs));
    }

    /// Constant inlining; then, as many times as there are functions, every
    /// function that does not refer to itself substituted into every function;
    /// then constant inlining again.
    pub fn inline_functions(&mut self)
        ensures
            final(self)@ == inline_functions_spec(old(self)@),
            final(self).imports@ == old(self).imports@,
    {
        self.inline_constants();
        let ghost first = self@;
        let n = self.functions.len();
        let mut round: usize = 0;
        while round < n
            invariant
                n == self.functions.len(),
                n == first.functions.len(),
                round <= n,
                self@.functions == function_rounds(first.functions, round as nat),
                self@.constants == first.constants,
                self@.cons == first.cons,
                self@.data == first.data,
                self.imports@ == old(self).imports@,
            decreases n - round,
        {
            let ghost prev = self@.functions;
            let snapshot = copy_functions(&self.functions);
            let mut a: usize = 0;
            while a < n
                invariant
                    n == self.functions.len(),
                    n == prev.len(),
                    a <= n,
                    fns_view(snapshot@) == prev,
                    forall|j: int| 0 <= j < a ==> fn_view(#[trigger] self.functions@[j]) == (DefView {
                        name: prev[j].name,
                        body: inline_into(prev[j].body, prev),
                    }),
                    forall|j: int| a <= j < n ==> fn_view(#[trigger] self.functions@[j]) == prev[j],
                    self@.constants == first.constants,
                    self@.cons == first.cons,
                    self@.data == first.data,
                    self.imports@ == old(self).imports@,
                decreases n - a,
            {
                let mut f = self.functions[a].duplicate();
                inline_functions_into(&mut f, &snapshot);
                self.functions.set(a, f);
                a += 1;
            }
            assert(self@.functions =~= inline_bodies(prev, prev));
            round += 1;
        }
        self.inline_constants();
    }

    /// All the rewrites, in their fixed order.
    pub fn rewrite(&mut self)
        ensures
            final(self)@ == rewritten(old(self)@),
            final(self).imports@ == old(self).imports@,
    {
        self.resolve_tailcalls();
        self.replace_constructors();
        self.resolve_types();
        self.inline_functions();
    }

    /// Lower the program to a lambda term: the body of its function `main`.
    pub fn reduce(&self) -> (r: Result<Lambda, ReductionError>)
        ensures
            same_result(r, lower_program(self@)),
    {
        let main = String::from_str("main");
        proof {
            reveal_strlit("main");
        }
        assert(main@ =~= main_name());
        let ghost fs = self@.functions;
        let mut i: usize = 0;
        while i < self.functions.len()
            invariant
                i <= self.functions.len(),
                fs == self@.functions,
                main@ == main_name(),
                entry_from(fs, 0) == entry_from(fs, i as int),
            decreases self.functions.len() - i,
        {
            assert(fs[i as int] == fn_view(self.functions@[i as int]));
            if self.functions[i].name == main {
                return self.functions[i].body.reduce(&self.data);
            }
            i += 1;
        }
        Err(ReductionError::NoEntryPoint)
    }
}

fn promote_function(f: &mut Function, all: &Vec<Constructor>)
    ensures
        final(f).name@ == old(f).name@,
        final(f).body@ == promote_each(old(f).body@, cons_seq_view(all@)),
{
    let ghost av = cons_seq_view(all@);
    let ghost body0 = f.body@;
    let mut k: usize = 0;
    while k < all.len()
        invariant
            k <= all.len(),
            av == cons_seq_view(all@),
            f.name@ == old(f).name@,
            body0 == old(f).body@,
            f.body@ == promote_each(body0, av.take(k as int)),
        decreases all.len() - k,
    {
        assert(av.take(k + 1).drop_last() =~= av.take(k as int));
        f.replace_constructors(&all[k]);
        k += 1;
    }
    assert(av.take(all.len() as int) =~= av);
}

fn promote_constant(c: &mut Constant, all: &Vec<Constructor>)
    ensures
        final(c).name@ == old(c).name@,
        final(c).value@ == promote_each(old(c).value@, cons_seq_view(all@)),
{
    let ghost av = cons_seq_view(all@);
    let ghost body0 = c.value@;
    let mut k: usize = 0;
    while k < all.len()
        invariant
            k <= all.len(),
            av == cons_seq_view(all@),
            c.name@ == old(c).name@,
            body0 == old(c).value@,
            c.value@ == promote_each(body0, av.take(k as int)),
        decreases all.len() - k,
    {
        assert(av.take(k + 1).drop_last() =~= av.take(k as int));
        c.replace_constructors(&all[k]);
        k += 1;
    }
    assert(av.take(all.len() as int) =~= av);
}

pub proof fn lemma_const_pass_len(cs: Seq<DefView>, i: nat)
    ensures
        const_pass(cs, i).len() == cs.len(),
    decreases i,
{
    if i > 0 {
        lemma_const_pass_len(cs, (i - 1) as nat);
    }
}

fn copy_functions(fs: &Vec<Function>) -> (r: Vec<Function>)
    ensures
        fns_view(r@) == fns_view(fs@),
{
    let mut out: Vec<Function> = Vec::new();
    let mut i: usize = 0;
    while i < fs.len()
        invariant
            i <= fs.len(),
            out@.len() == i,
            forall|j: int| 0 <= j < i ==> fn_view(#[trigger] out@[j]) == fn_view(fs@[j]),
        decreases fs.len() - i,
    {
        out.push(fs[i].duplicate());
        i += 1;
    }
    assert(fns_view(out@) =~= fns_view(fs@));
    out
}

fn inline_constants_into(f: &mut Function, cs: &Vec<Constant>)
    ensures
        final(f).name@ == old(f).name@,
        final(f).body@ == inline_into(old(f).body@, consts_view(cs@)),
{
    let ghost cv = consts_view(cs@);
    let ghost body0 = f.body@;
    let mut k: usize = 0;
    while k < cs.len()
        invariant
            k <= cs.len(),
            cv == consts_view(cs@),
            f.name@ == old(f).name@,
            body0 == old(f).body@,
            f.body@ == inline_into(body0, cv.take(k as int)),
        decreases cs.len() - k,
    {
        assert(cv.take(k + 1).drop_last() =~= cv.take(k as int));
        assert(cv.take(k + 1).last() == const_view(cs@[k as int]));
        if !cs[k].is_recursive() {
            f.replace_constant(&cs[k]);
        }
        k += 1;
    }
    assert(cv.take(cs.len() as int) =~= cv);
}

fn inline_functions_into(f: &mut Function, fs: &Vec<Function>)
    ensures
        final(f).name@ == old(f).name@,
        final(f).body@ == inline_into(old(f).body@, fns_view(fs@)),
{
    let ghost fv = fns_view(fs@);
    let ghost body0 = f.body@;
    let mut k: usize = 0;
    while k < fs.len()
        invariant
            k <= fs.len(),
            fv == fns_view(fs@),
            f.name@ == old(f).name@,
            body0 == old(f).body@,
            f.body@ == inline_into(body0, fv.take(k as int)),
        decreases fs.len() - k,
    {
        assert(fv.take(k + 1).drop_last() =~= fv.take(k as int));
        assert(fv.take(k + 1).last() == fn_view(fs@[k as int]));
        if !fs[k].body.has_binding(&fs[k].name) {
            f.inline_function(&fs[k]);
        }
        k += 1;
    }
    assert(fv.take(fs.len() as int) =~= fv);
}


// ---------------------------------------------------------------------------
// Idempotence of constant inlining
// ---------------------------------------------------------------------------

pub proof fn lemma_const_pass_names(cs: Seq<DefView>, i: nat)
    ensures
        forall|j: int| 0 <= j < cs.len() ==> #[trigger] const_pass(cs, i)[j].name == cs[j].name,
    decreases i,
{
    lemma_const_pass_len(cs, i);
    if i > 0 {
        lemma_const_pass_names(cs, (i - 1) as nat);
        lemma_const_pass_len(cs, (i - 1) as nat);
    }
}

/// A constant that refers to itself is left alone by every later step.
pub proof fn lemma_const_pass_self_referent_fixed(cs: Seq<DefView>, i: nat, i2: nat, j: int)
    requires
        i <= i2,
        0 <= j < cs.len(),
        self_referent(const_pass(cs, i)[j]),
    ensures
        const_pass(cs, i2)[j] == const_pass(cs, i)[j],
    decreases i2,
{
    lemma_const_pass_len(cs, i);
    if i2 > i {
        lemma_const_pass_self_referent_fixed(cs, i, (i2 - 1) as nat, j);
        lemma_const_pass_len(cs, (i2 - 1) as nat);
    }
}

/// After `i` steps, no constant that does not refer to itself mentions the name
/// of a constant that was substituted at one of those steps.
pub open spec fn clean_after(cs: Seq<DefView>, i: nat) -> bool {
    forall|p: int, j: int|
        0 <= p < i && p < cs.len() && 0 <= j < cs.len() && !self_referent(#[trigger] const_pass(cs, p as nat)[p])
            && !self_referent(#[trigger] const_pass(cs, i)[j]) ==> !mentions(const_pass(cs, i)[j].body, cs[p].name)
}

pub proof fn lemma_const_pass_clean(cs: Seq<DefView>, i: nat)
    ensures
        clean_after(cs, i),
    decreases i,
{
    if i > 0 {
        let i0 = (i - 1) as nat;
        lemma_const_pass_clean(cs, i0);
        lemma_const_pass_len(cs, i0);
        lemma_const_pass_len(cs, i);
        lemma_const_pass_names(cs, i0);
        let prev = const_pass(cs, i0);
        if i0 < prev.len() && !self_referent(prev[i0 as int]) {
            let c = prev[i0 as int];
            let next = const_pass(cs, i);
            assert forall|p: int, j: int|
                0 <= p < i && p < cs.len() && 0 <= j < cs.len() && !self_referent(
                    #[trigger] const_pass(cs, p as nat)[p],
                ) && !self_referent(#[trigger] const_pass(cs, i)[j]) implies !mentions(
                const_pass(cs, i)[j].body,
                cs[p].name,
            ) by {
                assert(next[j] == substitute_def(prev[j], c));
                if !self_referent(prev[j]) {
                    lemma_subst_mentions(prev[j].body, c.name, c.body, cs[p].name);
                    if p < i0 {
                        assert(!mentions(prev[j].body, cs[p].name));
                        assert(!mentions(prev[i0 as int].body, cs[p].name));
                    } else {
                        assert(c.name == cs[p].name);
                    }
                }
            }
        } else {
            assert(const_pass(cs, i) == prev);
        }
    }
}

/// Constants whose substitutions have all been done.
pub open spec fn settled(cs: Seq<DefView>) -> bool {
    forall|p: int, j: int|
        0 <= p < cs.len() && 0 <= j < cs.len() && !self_referent(#[trigger] cs[p]) && !self_referent(
            #[trigger] cs[j],
        ) ==> !mentions(cs[j].body, cs[p].name)
}

pub proof fn lemma_const_pass_settled(cs: Seq<DefView>)
    ensures
        settled(const_pass(cs, cs.len())),
{
    let k = cs.len();
    let cs1 = const_pass(cs, k);
    lemma_const_pass_clean(cs, k);
    lemma_const_pass_len(cs, k);
    lemma_const_pass_names(cs, k);
    assert forall|p: int, j: int|
        0 <= p < cs1.len() && 0 <= j < cs1.len() && !self_referent(#[trigger] cs1[p]) && !self_referent(
            #[trigger] cs1[j],
        ) implies !mentions(cs1[j].body, cs1[p].name) by {
        lemma_const_pass_len(cs, p as nat);
        if self_referent(const_pass(cs, p as nat)[p]) {
            lemma_const_pass_self_referent_fixed(cs, p as nat, k, p);
        }
        assert(!self_referent(const_pass(cs, p as nat)[p]));
    }
}

/// Settled constants are left unchanged by further steps.
pub proof fn lemma_const_pass_stable(cs: Seq<DefView>, i: nat)
    requires
        settled(cs),
    ensures
        const_pass(cs, i) == cs,
    decreases i,
{
    if i > 0 {
        let i0 = (i - 1) as nat;
        lemma_const_pass_stable(cs, i0);
        if i0 < cs.len() && !self_referent(cs[i0 as int]) {
            let c = cs[i0 as int];
            assert forall|j: int| 0 <= j < cs.len() implies #[trigger] substitute_def(cs[j], c) == cs[j] by {
                if !self_referent(cs[j]) {
                    lemma_subst_absent(cs[j].body, c.name, c.body);
                }
            }
            assert(cs.map_values(|d: DefView| substitute_def(d, c)) =~= cs);
        }
    }
}

/// Inlining settled constants leaves no name of theirs behind.
pub proof fn lemma_inline_into_clean(e: ExprView, cs: Seq<DefView>, j: int)
    requires
        settled(cs),
        0 <= j <= cs.len(),
    ensures
        forall|p: int|
            0 <= p < j && !self_referent(#[trigger] cs[p]) ==> !mentions(inline_into(e, cs.take(j)), cs[p].name),
    decreases j,
{
    if j > 0 {
        lemma_inline_into_clean(e, cs, j - 1);
        assert(cs.take(j).drop_last() =~= cs.take(j - 1));
        let prev = inline_into(e, cs.take(j - 1));
        let c = cs[j - 1];
        assert forall|p: int| 0 <= p < j && !self_referent(#[trigger] cs[p]) implies !mentions(
            inline_into(e, cs.take(j)),
            cs[p].name,
        ) by {
            if !self_referent(c) {
                lemma_subst_mentions(prev, c.name, c.body, cs[p].name);
            }
        }
    }
}

/// Inlining settled constants into a body free of their names changes nothing.
pub proof fn lemma_inline_into_absent(e: ExprView, cs: Seq<DefView>, j: int)
    requires
        0 <= j <= cs.len(),
        forall|p: int| 0 <= p < cs.len() && !self_referent(#[trigger] cs[p]) ==> !mentions(e, cs[p].name),
    ensures
        inline_into(e, cs.take(j)) == e,
    decreases j,
{
    if j > 0 {
        lemma_inline_into_absent(e, cs, j - 1);
        assert(cs.take(j).drop_last() =~= cs.take(j - 1));
        let c = cs[j - 1];
        if !self_referent(c) {
            lemma_subst_absent(e, c.name, c.body);
        }
    }
}

/// Inlining constants twice gives the program that inlining them once gives.
pub proof fn lemma_inline_constants_idempotent(a: AstView)
    ensures
        inline_constants_spec(inline_constants_spec(a)) == inline_constants_spec(a),
{
    let k = a.constants.len();
    let cs1 = const_pass(a.constants, k);
    lemma_const_pass_len(a.constants, k);
    lemma_const_pass_settled(a.constants);
    lemma_const_pass_stable(cs1, cs1.len());
    let once = inline_constants_spec(a);
    let twice = inline_constants_spec(once);
    assert(cs1.take(cs1.len() as int) =~= cs1);
    assert forall|i: int| 0 <= i < a.functions.len() implies #[trigger] inline_bodies(once.functions, cs1)[i]
        == once.functions[i] by {
        let b = a.functions[i].body;
        lemma_inline_into_clean(b, cs1, cs1.len() as int);
        lemma_inline_into_absent(inline_into(b, cs1), cs1, cs1.len() as int);
    }
    assert(twice.functions =~= once.functions);
    assert(twice.constants =~= once.constants);
}

// ---------------------------------------------------------------------------
// Completeness of resolution over the whole rewrite
// ---------------------------------------------------------------------------

pub open spec fn bodies_resolved(ds: Seq<DefView>) -> bool {
    forall|i: int| 0 <= i < ds.len() ==> resolved(#[trigger] ds[i].body)
}

pub proof fn lemma_inline_into_resolved(e: ExprView, cs: Seq<DefView>)
    requires
        resolved(e),
        bodies_resolved(cs),
    ensures
        resolved(inline_into(e, cs)),
    decreases cs.len(),
{
    if cs.len() > 0 {
        lemma_inline_into_resolved(e, cs.drop_last());
        let c = cs.last();
        assert(resolved(cs[cs.len() - 1].body));
        if !self_referent(c) {
            lemma_subst_resolved(inline_into(e, cs.drop_last()), c.name, c.body);
        }
    }
}

pub proof fn lemma_const_pass_resolved(cs: Seq<DefView>, i: nat)
    requires
        bodies_resolved(cs),
    ensures
        bodies_resolved(const_pass(cs, i)),
    decreases i,
{
    if i > 0 {
        let i0 = (i - 1) as nat;
        lemma_const_pass_resolved(cs, i0);
        let prev = const_pass(cs, i0);
        if i0 < prev.len() && !self_referent(prev[i0 as int]) {
            let c = prev[i0 as int];
            assert forall|j: int| 0 <= j < prev.len() implies resolved(#[trigger] substitute_def(prev[j], c).body) by {
                if !self_referent(prev[j]) {
                    lemma_subst_resolved(prev[j].body, c.name, c.body);
                }
            }
            let next = const_pass(cs, i);
            assert forall|j: int| 0 <= j < next.len() implies resolved(#[trigger] next[j].body) by {
                assert(next[j] == substitute_def(prev[j], c));
            }
        }
    }
}

pub proof fn lemma_inline_bodies_resolved(fs: Seq<DefView>, cs: Seq<DefView>)
    requires
        bodies_resolved(fs),
        bodies_resolved(cs),
    ensures
        bodies_resolved(inline_bodies(fs, cs)),
{
    assert forall|i: int| 0 <= i < fs.len() implies resolved(#[trigger] inline_bodies(fs, cs)[i].body) by {
        lemma_inline_into_resolved(fs[i].body, cs);
    }
}

pub proof fn lemma_function_rounds_resolved(fs: Seq<DefView>, n: nat)
    requires
        bodies_resolved(fs),
    ensures
        bodies_resolved(function_rounds(fs, n)),
    decreases n,
{
    if n > 0 {
        lemma_function_rounds_resolved(fs, (n - 1) as nat);
        let prev = function_rounds(fs, (n - 1) as nat);
        lemma_inline_bodies_resolved(prev, prev);
    }
}

pub proof fn lemma_inline_constants_resolved(a: AstView)
    requires
        bodies_resolved(a.functions),
        bodies_resolved(a.constants),
    ensures
        bodies_resolved(inline_constants_spec(a).functions),
        bodies_resolved(inline_constants_spec(a).constants),
{
    lemma_const_pass_resolved(a.constants, a.constants.len());
    lemma_inline_bodies_resolved(a.functions, const_pass(a.constants, a.constants.len()));
}

/// Constructor resolution is complete: when, at the moment of type resolution,
/// the declarations provide a data type for every `case` and a constructor for
/// every construct and destructuring of every body, then after all the rewrites
/// every `case`, construct and destructuring carries its data type.
pub proof fn lemma_rewrites_resolve_everything(raw: AstView)
    requires
        forall|i: int|
            0 <= i < promoted_state(raw).functions.len() ==> declared(
                #[trigger] promoted_state(raw).functions[i].body,
                raw.data,
                raw.cons,
            ),
        forall|i: int|
            0 <= i < promoted_state(raw).constants.len() ==> declared(
                #[trigger] promoted_state(raw).constants[i].body,
                raw.data,
                raw.cons,
            ),
    ensures
        bodies_resolved(rewritten(raw).functions),
        bodies_resolved(rewritten(raw).constants),
{
    let p = promoted_state(raw);
    let r = AstView {
        functions: map_bodies_resolve(p.functions, p.data, p.cons),
        constants: map_bodies_resolve(p.constants, p.data, p.cons),
        ..p
    };
    assert forall|i: int| 0 <= i < r.functions.len() implies resolved(#[trigger] r.functions[i].body) by {
        lemma_resolution_complete(p.functions[i].body, p.data, p.cons);
    }
    assert forall|i: int| 0 <= i < r.constants.len() implies resolved(#[trigger] r.constants[i].body) by {
        lemma_resolution_complete(p.constants[i].body, p.data, p.cons);
    }
    lemma_inline_constants_resolved(r);
    let first = inline_constants_spec(r);
    lemma_function_rounds_resolved(first.functions, first.functions.len());
    let rounds = AstView { functions: function_rounds(first.functions, first.functions.len()), ..first };
    lemma_inline_constants_resolved(rounds);
}
} // verus!
