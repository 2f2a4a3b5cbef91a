use vstd::prelude::*;

use crate::parse::{
    lemma_text_less_irreflexive, lemma_text_less_transitive, text_less, text_less_exec,
};

verus! {

/// `from std import True, False`
pub struct Import {
    pub file: String,
    pub items: Vec<String>,
}

impl Import {
    pub fn new(file: String, items: Vec<String>) -> (r: Self)
        ensures
            r.file@ == file@,
            r.items.deep_view() == items.deep_view(),
    {
        Import { file, items }
    }
}

/// Mathematical model of a constructor: its name and the names of its members.
pub struct ConstructorView {
    pub name: Seq<char>,
    pub members: Seq<Seq<char>>,
}

/// `Err(e)`: a named, fixed-arity tag.
pub struct Constructor {
    pub name: String,
    pub members: Vec<String>,
}

impl View for Constructor {
    type V = ConstructorView;

    open spec fn view(&self) -> ConstructorView {
        ConstructorView { name: self.name@, members: self.members.deep_view() }
    }
}

pub fn copy_names(v: &Vec<String>) -> (r: Vec<String>)
    ensures
        r.deep_view() == v.deep_view(),
{
    let mut out: Vec<String> = Vec::new();
    let mut i: usize = 0;
    while i < v.len()
        invariant
            i <= v.len(),
            out@.len() == i,
            forall|j: int| 0 <= j < i ==> out@[j]@ == v@[j]@,
        decreases v.len() - i,
    {
        out.push(v[i].clone());
        i += 1;
    }
    assert(out.deep_view() =~= v.deep_view());
    out
}

pub fn same_names(a: &Vec<String>, b: &Vec<String>) -> (r: bool)
    ensures
        r == (a.deep_view() == b.deep_view()),
{
    if a.len() != b.len() {
        assert(a.deep_view().len() != b.deep_view().len());
        return false;
    }
    let mut i: usize = 0;
    while i < a.len()
        invariant
            i <= a.len(),
            a.len() == b.len(),
            forall|j: int| 0 <= j < i ==> a@[j]@ == b@[j]@,
        decreases a.len() - i,
    {
        if a[i] != b[i] {
            assert(a.deep_view()[i as int] != b.deep_view()[i as int]);
            return false;
        }
        i += 1;
    }
    assert(a.deep_view() =~= b.deep_view());
    true
}

impl Constructor {
    pub fn new(name: String, members: Vec<String>) -> (r: Self)
        ensures
            r@ == (ConstructorView { name: name@, members: members.deep_view() }),
    {
        Constructor { name, members }
    }

    pub fn get_name(&self) -> (r: &str)
        ensures
            r@ == self@.name,
    {
        self.name.as_str()
    }

    pub fn get_members(&self) -> (r: &Vec<String>)
        ensures
            r.deep_view() == self@.members,
    {
        &self.members
    }

    pub fn duplicate(&self) -> (r: Self)
        ensures
            r@ == self@,
    {
        Constructor { name: self.name.clone(), members: copy_names(&self.members) }
    }

    /// Whether this constructor has the given name and number of members.
    pub fn matches(&self, name: &String, arity: usize) -> (r: bool)
        ensures
            r == (self@.name == name@ && self@.members.len() == arity),
    {
        self.name == *name && self.members.len() == arity
    }
}

/// Mathematical model of a sum type declaration.
pub struct DataView {
    pub name: Seq<char>,
    pub cons: Seq<ConstructorView>,
}

/// `data Result = Ok(x) | Err(e)`
pub struct Data {
    pub name: String,
    pub cons: Vec<Constructor>,
}

impl View for Data {
    type V = DataView;

    open spec fn view(&self) -> DataView {
        DataView {
            name: self.name@,
            cons: Seq::new(self.cons@.len(), |i: int| self.cons@[i]@),
        }
    }
}

pub fn copy_constructors(v: &Vec<Constructor>) -> (r: Vec<Constructor>)
    ensures
        r@.len() == v@.len(),
        forall|j: int| 0 <= j < v@.len() ==> r@[j]@ == v@[j]@,
        cons_seq_view(r@) == cons_seq_view(v@),
{
    let mut out: Vec<Constructor> = Vec::new();
    let mut i: usize = 0;
    while i < v.len()
        invariant
            i <= v.len(),
            out@.len() == i,
            forall|j: int| 0 <= j < i ==> out@[j]@ == v@[j]@,
        decreases v.len() - i,
    {
        out.push(v[i].duplicate());
        i += 1;
    }
    assert(cons_seq_view(out@) =~= cons_seq_view(v@));
    out
}

pub fn copy_opt_data(d: &Option<Data>) -> (r: Option<Data>)
    ensures
        opt_data_view(r) == opt_data_view(*d),
{
    match d {
        Some(d) => Some(d.duplicate()),
        None => None,
    }
}

pub fn copy_opt_cons(c: &Option<Constructor>) -> (r: Option<Constructor>)
    ensures
        opt_cons_view(r) == opt_cons_view(*c),
{
    match c {
        Some(c) => Some(c.duplicate()),
        None => None,
    }
}

pub open spec fn data_seq_view(v: Seq<Data>) -> Seq<DataView> {
    Seq::new(v.len(), |i: int| v[i]@)
}

impl Data {
    pub fn new(name: String, cons: Vec<Constructor>) -> (r: Self)
        ensures
            r.name@ == name@,
            r.cons@ == cons@,
    {
        Data { name, cons }
    }

    pub fn get_name(&self) -> (r: &String)
        ensures
            r@ == self@.name,
    {
        &self.name
    }

    /// The constructors sorted by name, then by arity, equal ones in declared
    /// order: this order fixes the handler order of the sum-type encoding.
    pub fn get_constructors(&self) -> (r: Vec<Constructor>)
        ensures
            cons_seq_view(r@) == sort_constructors(self@.cons),
            cons_sorted(cons_seq_view(r@)),
            cons_seq_view(r@).to_multiset() == self@.cons.to_multiset(),
    {
        let mut out: Vec<Constructor> = Vec::new();
        let ghost cv = self@.cons;
        let mut i: usize = 0;
        assert(cv.take(0) =~= Seq::<ConstructorView>::empty());
        assert(cons_seq_view(out@) =~= Seq::<ConstructorView>::empty());
        while i < self.cons.len()
            invariant
                i <= self.cons.len(),
                cv == self@.cons,
                cv.len() == self.cons.len(),
                cons_seq_view(out@) == sort_constructors(cv.take(i as int)),
            decreases self.cons.len() - i,
        {
            assert(cv.take(i + 1).drop_last() =~= cv.take(i as int));
            assert(cv.take(i + 1).last() == self.cons@[i as int]@);
            let c = self.cons[i].duplicate();
            let ghost before = cons_seq_view(out@);
            let mut j: usize = 0;
            while j < out.len() && !cons_less_exec(&c, &out[j])
                invariant
                    j <= out.len(),
                    before == cons_seq_view(out@),
                    first_greater(c@, before, 0) == first_greater(c@, before, j as int),
                decreases out.len() - j,
            {
                j += 1;
            }
            proof {
                lemma_first_greater_range(c@, before, j as int);
            }
            out.insert(j, c);
            assert(cons_seq_view(out@) =~= before.insert(j as int, c@));
            i += 1;
        }
        assert(cv.take(self.cons.len() as int) =~= cv);
        proof {
            lemma_sort_constructors(cv);
        }
        out
    }

    pub fn duplicate(&self) -> (r: Self)
        ensures
            r@ == self@,
    {
        let r = Data { name: self.name.clone(), cons: copy_constructors(&self.cons) };
        assert(r@.cons =~= self@.cons);
        r
    }
}

pub enum BinaryOp {
    And,
    Or,
    Equal,
    NotEqual,
    Greater,
    GreaterEqual,
    Less,
    LessEqual,
    Add,
    Subtract,
    Multiply,
    Divide,
}

pub enum UnaryOp {
    Not,
    Negate,
}

impl BinaryOp {
    pub fn duplicate(&self) -> (r: Self)
        ensures
            r == *self,
    {
        match self {
            BinaryOp::And => BinaryOp::And,
            BinaryOp::Or => BinaryOp::Or,
            BinaryOp::Equal => BinaryOp::Equal,
            BinaryOp::NotEqual => BinaryOp::NotEqual,
            BinaryOp::Greater => BinaryOp::Greater,
            BinaryOp::GreaterEqual => BinaryOp::GreaterEqual,
            BinaryOp::Less => BinaryOp::Less,
            BinaryOp::LessEqual => BinaryOp::LessEqual,
            BinaryOp::Add => BinaryOp::Add,
            BinaryOp::Subtract => BinaryOp::Subtract,
            BinaryOp::Multiply => BinaryOp::Multiply,
            BinaryOp::Divide => BinaryOp::Divide,
        }
    }
}

impl UnaryOp {
    pub fn duplicate(&self) -> (r: Self)
        ensures
            r == *self,
    {
        match self {
            UnaryOp::Not => UnaryOp::Not,
            UnaryOp::Negate => UnaryOp::Negate,
        }
    }
}

/// Mathematical model of an expression: names are character sequences and
/// children are sequences of models.
pub enum ExprView {
    Binary(BinaryOp, Box<ExprView>, Box<ExprView>),
    Unary(UnaryOp, Box<ExprView>),
    IfThenElse(Box<ExprView>, Box<ExprView>, Box<ExprView>),
    CaseOf(Option<DataView>, Box<ExprView>, Seq<ConstructorView>, Seq<ExprView>),
    Construct(Option<ConstructorView>, Seq<char>, Seq<ExprView>),
    Deconstruct(Option<ConstructorView>, Seq<char>, Seq<Seq<char>>, Box<ExprView>, Box<ExprView>),
    Identifier(Seq<char>),
    Application(Box<ExprView>, Box<ExprView>),
    Lambda(Seq<char>, Box<ExprView>),
    TailCall(Seq<ExprView>),
    Table(Seq<Seq<char>>, Seq<ExprView>),
    List(Seq<ExprView>),
    Number(Seq<char>),
    Str(Seq<char>),
}

/// An expression of the language.
///
/// A `case` holds its arms as two parallel vectors: `patterns[i] => bodies[i]`.
/// A table holds `values[i]` under `keys[i]`; the tables that the parser makes
/// meet `table_wf` (keys strictly ascending, one value per key).
/// A number holds the text of its literal; its value is a host double.
pub enum Expression {
    Binary(BinaryOp, Box<Expression>, Box<Expression>),
    Unary(UnaryOp, Box<Expression>),
    IfThenElse { condition: Box<Expression>, then_case: Box<Expression>, else_case: Box<Expression> },
    CaseOf {
        data_type: Option<Data>,
        value: Box<Expression>,
        patterns: Vec<Constructor>,
        bodies: Vec<Expression>,
    },
    Construct { data_type: Option<Constructor>, cons_name: String, members: Vec<Expression> },
    Deconstruct {
        data_type: Option<Constructor>,
        cons_name: String,
        members: Vec<String>,
        value: Box<Expression>,
        body: Box<Expression>,
    },
    Identifier(String),
    Application(Box<Expression>, Box<Expression>),
    Lambda(String, Box<Expression>),
    TailCall(Vec<Expression>),
    Table(Vec<String>, Vec<Expression>),
    List(Vec<Expression>),
    Number(String),
    String(String),
}

pub open spec fn opt_data_view(d: Option<Data>) -> Option<DataView> {
    match d {
        Some(d) => Some(d@),
        None => None,
    }
}

pub open spec fn opt_cons_view(c: Option<Constructor>) -> Option<ConstructorView> {
    match c {
        Some(c) => Some(c@),
        None => None,
    }
}

pub open spec fn cons_seq_view(v: Seq<Constructor>) -> Seq<ConstructorView> {
    Seq::new(v.len(), |i: int| v[i]@)
}

impl View for Expression {
    type V = ExprView;

    open spec fn view(&self) -> ExprView {
        expr_view(*self)
    }
}

/// The model of an expression.
pub open spec fn expr_view(e: Expression) -> ExprView
    decreases e,
{
    match e {
        Expression::Binary(op, a, b) => ExprView::Binary(op, Box::new(expr_view(*a)), Box::new(expr_view(*b))),
        Expression::Unary(op, a) => ExprView::Unary(op, Box::new(expr_view(*a))),
        Expression::IfThenElse { condition, then_case, else_case } => ExprView::IfThenElse(
            Box::new(expr_view(*condition)),
            Box::new(expr_view(*then_case)),
            Box::new(expr_view(*else_case)),
        ),
        Expression::CaseOf { data_type, value, patterns, bodies } => ExprView::CaseOf(
            opt_data_view(data_type),
            Box::new(expr_view(*value)),
            cons_seq_view(patterns@),
            exprs_view(bodies@),
        ),
        Expression::Construct { data_type, cons_name, members } => ExprView::Construct(
            opt_cons_view(data_type),
            cons_name@,
            exprs_view(members@),
        ),
        Expression::Deconstruct { data_type, cons_name, members, value, body } => ExprView::Deconstruct(
            opt_cons_view(data_type),
            cons_name@,
            members.deep_view(),
            Box::new(expr_view(*value)),
            Box::new(expr_view(*body)),
        ),
        Expression::Identifier(s) => ExprView::Identifier(s@),
        Expression::Application(a, b) => ExprView::Application(Box::new(expr_view(*a)), Box::new(expr_view(*b))),
        Expression::Lambda(x, b) => ExprView::Lambda(x@, Box::new(expr_view(*b))),
        Expression::TailCall(items) => ExprView::TailCall(exprs_view(items@)),
        Expression::Table(keys, values) => ExprView::Table(keys.deep_view(), exprs_view(values@)),
        Expression::List(items) => ExprView::List(exprs_view(items@)),
        Expression::Number(n) => ExprView::Number(n@),
        Expression::String(s) => ExprView::Str(s@),
    }
}

/// The models of a sequence of expressions.
pub open spec fn exprs_view(s: Seq<Expression>) -> Seq<ExprView>
    decreases s,
{
    if s.len() == 0 {
        Seq::empty()
    } else {
        exprs_view(s.drop_last()).push(expr_view(s.last()))
    }
}

pub broadcast proof fn lemma_exprs_view(s: Seq<Expression>)
    ensures
        #![trigger exprs_view(s)]
        exprs_view(s).len() == s.len(),
        forall|i: int| 0 <= i < s.len() ==> exprs_view(s)[i] == expr_view(s[i]),
    decreases s.len(),
{
    if s.len() > 0 {
        lemma_exprs_view(s.drop_last());
    }
}

impl Expression {
    pub fn duplicate(&self) -> (r: Expression)
        ensures
            r@ == self@,
        decreases self,
    {
        match self {
            Expression::Binary(op, a, b) => Expression::Binary(
                op.duplicate(),
                Box::new(a.duplicate()),
                Box::new(b.duplicate()),
            ),
            Expression::Unary(op, a) => Expression::Unary(op.duplicate(), Box::new(a.duplicate())),
            Expression::IfThenElse { condition, then_case, else_case } => Expression::IfThenElse {
                condition: Box::new(condition.duplicate()),
                then_case: Box::new(then_case.duplicate()),
                else_case: Box::new(else_case.duplicate()),
            },
            Expression::CaseOf { data_type, value, patterns, bodies } => {
                let d = match data_type {
                    Some(d) => Some(d.duplicate()),
                    None => None,
                };
                let pats = copy_constructors(patterns);
                assert(cons_seq_view(pats@) =~= cons_seq_view(patterns@));
                Expression::CaseOf {
                    data_type: d,
                    value: Box::new(value.duplicate()),
                    patterns: pats,
                    bodies: duplicate_all(bodies),
                }
            },
            Expression::Construct { data_type, cons_name, members } => {
                let d = match data_type {
                    Some(c) => Some(c.duplicate()),
                    None => None,
                };
                Expression::Construct {
                    data_type: d,
                    cons_name: cons_name.clone(),
                    members: duplicate_all(members),
                }
            },
            Expression::Deconstruct { data_type, cons_name, members, value, body } => {
                let d = match data_type {
                    Some(c) => Some(c.duplicate()),
                    None => None,
                };
                Expression::Deconstruct {
                    data_type: d,
                    cons_name: cons_name.clone(),
                    members: copy_names(members),
                    value: Box::new(value.duplicate()),
                    body: Box::new(body.duplicate()),
                }
            },
            Expression::Identifier(s) => Expression::Identifier(s.clone()),
            Expression::Application(a, b) => Expression::Application(
                Box::new(a.duplicate()),
                Box::new(b.duplicate()),
            ),
            Expression::Lambda(x, b) => Expression::Lambda(x.clone(), Box::new(b.duplicate())),
            Expression::TailCall(items) => Expression::TailCall(duplicate_all(items)),
            Expression::Table(keys, values) => Expression::Table(
                copy_names(keys),
                duplicate_all(values),
            ),
            Expression::List(items) => Expression::List(duplicate_all(items)),
            Expression::Number(n) => Expression::Number(n.clone()),
            Expression::String(s) => Expression::String(s.clone()),
        }
    }
}

pub fn duplicate_all(items: &Vec<Expression>) -> (r: Vec<Expression>)
    ensures
        exprs_view(r@) == exprs_view(items@),
    decreases items,
{
    let mut out: Vec<Expression> = Vec::new();
    let mut i: usize = 0;
    while i < items.len()
        invariant
            i <= items.len(),
            out@.len() == i,
            forall|j: int| 0 <= j < i ==> out@[j]@ == items@[j]@,
        decreases items.len() - i,
    {
        out.push(items[i].duplicate());
        i += 1;
    }
    proof {
        lemma_exprs_view(out@);
        lemma_exprs_view(items@);
    }
    assert(exprs_view(out@) =~= exprs_view(items@));
    out
}

/// `const True = a.b.a`
pub struct Constant {
    pub name: String,
    pub value: Expression,
}

impl Constant {
    pub fn new(name: String, value: Expression) -> (r: Self)
        ensures
            r.name@ == name@,
            r.value@ == value@,
    {
        Constant { name, value }
    }

    pub fn get_name(&self) -> (r: &String)
        ensures
            r@ == self.name@,
    {
        &self.name
    }

    pub fn get_body(&self) -> (r: &Expression)
        ensures
            r@ == self.value@,
    {
        &self.value
    }

    pub fn duplicate(&self) -> (r: Self)
        ensures
            r.name@ == self.name@,
            r.value@ == self.value@,
    {
        Constant { name: self.name.clone(), value: self.value.duplicate() }
    }
}


/// The order of constructors: by name, then by arity.
pub open spec fn cons_less(a: ConstructorView, b: ConstructorView) -> bool {
    text_less(a.name, b.name) || (a.name == b.name && a.members.len() < b.members.len())
}

/// Constructors in non-decreasing order.
pub open spec fn cons_sorted(s: Seq<ConstructorView>) -> bool {
    forall|i: int, j: int| 0 <= i < j < s.len() ==> !cons_less(#[trigger] s[j], #[trigger] s[i])
}

/// The first position from `j` on whose constructor comes after `x`.
pub open spec fn first_greater(x: ConstructorView, s: Seq<ConstructorView>, j: int) -> int
    decreases s.len() - j,
{
    if j < 0 || j >= s.len() {
        s.len() as int
    } else if cons_less(x, s[j]) {
        j
    } else {
        first_greater(x, s, j + 1)
    }
}

/// Stable insertion sort of constructors.
pub open spec fn sort_constructors(s: Seq<ConstructorView>) -> Seq<ConstructorView>
    decreases s.len(),
{
    if s.len() == 0 {
        s
    } else {
        let prev = sort_constructors(s.drop_last());
        prev.insert(first_greater(s.last(), prev, 0), s.last())
    }
}

fn cons_less_exec(a: &Constructor, b: &Constructor) -> (r: bool)
    ensures
        r == cons_less(a@, b@),
{
    text_less_exec(&a.name, &b.name) || (a.name == b.name && a.members.len() < b.members.len())
}

pub proof fn lemma_first_greater_range(x: ConstructorView, s: Seq<ConstructorView>, j: int)
    requires
        0 <= j <= s.len(),
    ensures
        j <= first_greater(x, s, j) <= s.len(),
        forall|k: int| j <= k < first_greater(x, s, j) ==> !cons_less(x, #[trigger] s[k]),
        first_greater(x, s, j) < s.len() ==> cons_less(x, s[first_greater(x, s, j)]),
    decreases s.len() - j,
{
    if j < s.len() && !cons_less(x, s[j]) {
        lemma_first_greater_range(x, s, j + 1);
    }
}

pub proof fn lemma_cons_less_transitive(a: ConstructorView, b: ConstructorView, c: ConstructorView)
    requires
        cons_less(a, b),
        cons_less(b, c),
    ensures
        cons_less(a, c),
{
    if text_less(a.name, b.name) && text_less(b.name, c.name) {
        lemma_text_less_transitive(a.name, b.name, c.name);
    }
}

pub proof fn lemma_cons_less_irreflexive(a: ConstructorView)
    ensures
        !cons_less(a, a),
{
    lemma_text_less_irreflexive(a.name);
}

/// Sorting keeps the constructors, each as often, and puts them in order.
pub proof fn lemma_sort_constructors(s: Seq<ConstructorView>)
    ensures
        cons_sorted(sort_constructors(s)),
        sort_constructors(s).to_multiset() == s.to_multiset(),
        sort_constructors(s).len() == s.len(),
    decreases s.len(),
{
    broadcast use vstd::seq_lib::to_multiset_insert, vstd::seq_lib::to_multiset_build;

    if s.len() > 0 {
        let prev = sort_constructors(s.drop_last());
        let x = s.last();
        lemma_sort_constructors(s.drop_last());
        lemma_first_greater_range(x, prev, 0);
        let k = first_greater(x, prev, 0);
        let r = prev.insert(k, x);
        assert(s.drop_last().push(x) =~= s);
        assert forall|i: int, j: int| 0 <= i < j < r.len() implies !cons_less(#[trigger] r[j], #[trigger] r[i]) by {
            if j < k {
                assert(r[i] == prev[i] && r[j] == prev[j]);
            } else if j == k {
                assert(r[j] == x && r[i] == prev[i]);
            } else if i < k {
                assert(r[j] == prev[j - 1] && r[i] == prev[i]);
                if cons_less(prev[j - 1], prev[i]) {
                } else if cons_less(r[j], r[i]) {
                }
                if k < prev.len() {
                    if j - 1 > k {
                        assert(!cons_less(prev[j - 1], prev[k]));
                    }
                    if cons_less(prev[j - 1], prev[i]) {
                        assert(i < j - 1);
                    }
                }
            } else if i == k {
                assert(r[i] == x && r[j] == prev[j - 1]);
                assert(cons_less(x, prev[k]));
                if cons_less(prev[j - 1], x) {
                    lemma_cons_less_transitive(prev[j - 1], x, prev[k]);
                    if j - 1 == k {
                        lemma_cons_less_irreflexive(prev[k]);
                    } else {
                        assert(!cons_less(prev[j - 1], prev[k]));
                    }
                }
            } else {
                assert(r[i] == prev[i - 1] && r[j] == prev[j - 1]);
            }
        }
    }
}

/// The lengths of the sequences an expression holds match their models.
pub proof fn lemma_exprs_view_len(e: Expression)
    ensures
        match e {
            Expression::Construct { members, .. } => e@ matches ExprView::Construct(_, _, ms) && ms.len()
                == members@.len(),
            _ => true,
        },
{
    if let Expression::Construct { members, .. } = e {
        lemma_exprs_view(members@);
    }
}
} // verus!
