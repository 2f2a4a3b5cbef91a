use vstd::prelude::*;

use crate::combinator::{combs_view, lemma_combs_view, slot_view, CombView, Combinator};
use crate::parse::{
    ascending, key_slot, lemma_table_put_ascending, lemma_text_less_irreflexive,
    lemma_text_less_transitive, table_put, text_less, text_less_exec,
};

verus! {

/// A host language that a combinator term can be emitted in.
pub trait Target<E> {
    /// The host text of a combinator term, or `None` where the term has none.
    spec fn host_text(&self, input: CombView) -> Option<Seq<char>>;

    fn compile(&self, input: Combinator) -> (r: Result<String, E>)
        ensures
            match (r, self.host_text(input@)) {
                (Ok(s), Some(t)) => s@ == t,
                (Err(_), None) => true,
                _ => false,
            },
    ;
}

/// Why a combinator term could not be emitted.
pub enum CompilerError {
    /// An `S`, `B` or `C` with its second argument but not its first.
    MalformedCombinator,
    /// The value that stands for nothing has no host form.
    Nil,
}

/// The Go host: the runtime prelude defines `S`, `K`, `I`, `B`, `C`, `Y`, the
/// builtins and `make_f64`, `make_str`, `make_list`, `make_table`.
pub struct Golang;

/// The text of a held argument; an empty slot has the empty text.
pub open spec fn slot_text(s: Option<Box<CombView>>) -> Option<Seq<char>>
    decreases s,
{
    match s {
        Some(a) => emit(*a),
        None => Some(Seq::empty()),
    }
}

/// `sym`, `sym.apply(x)` or `sym.apply(x).apply(y)` from the texts of the held arguments.
pub open spec fn pair_text(
    sym: Seq<char>,
    x: Option<Box<CombView>>,
    y: Option<Box<CombView>>,
    ex: Option<Seq<char>>,
    ey: Option<Seq<char>>,
) -> Option<Seq<char>> {
    match (x, y, ex, ey) {
        (None, None, _, _) => Some(sym),
        (Some(_), None, Some(a), _) => Some(sym + ".apply("@ + a + ")"@),
        (Some(_), Some(_), Some(a), Some(b)) => Some(sym + ".apply("@ + a + ").apply("@ + b + ")"@),
        _ => None,
    }
}

/// The Go form of one character inside a string literal.
pub open spec fn escape_char(c: char) -> Seq<char> {
    if c == '"' {
        seq!['\\', '"']
    } else if c == '\\' {
        seq!['\\', '\\']
    } else {
        seq![c]
    }
}

/// The Go form of a string's characters inside a string literal: quotes and
/// backslashes escaped.
pub open spec fn escape(s: Seq<char>) -> Seq<char>
    decreases s.len(),
{
    if s.len() == 0 {
        Seq::empty()
    } else {
        escape(s.drop_last()) + escape_char(s.last())
    }
}

/// The key of the `i`th entry of a table; an entry without a key has the empty one.
pub open spec fn key_of(keys: Seq<Seq<char>>, i: int) -> Seq<char> {
    if 0 <= i < keys.len() {
        keys[i]
    } else {
        Seq::empty()
    }
}

/// The first `n` entries of a table put one after the other into an empty
/// one: its keys in ascending order, each with the last value given for it.
pub open spec fn table_of<V>(keys: Seq<Seq<char>>, vals: Seq<V>, n: nat) -> (Seq<Seq<char>>, Seq<V>)
    decreases n,
{
    if n == 0 || n > vals.len() {
        (Seq::empty(), Seq::empty())
    } else {
        let prev = table_of(keys, vals, (n - 1) as nat);
        table_put(prev.0, prev.1, key_of(keys, n - 1), vals[n - 1])
    }
}

/// Tables are emitted with their keys in strictly ascending order, whatever
/// order the term holds them in.
pub proof fn lemma_emitted_keys_ascending<V>(keys: Seq<Seq<char>>, vals: Seq<V>, n: nat)
    ensures
        ascending(table_of(keys, vals, n).0),
        table_of(keys, vals, n).0.len() == table_of(keys, vals, n).1.len(),
    decreases n,
{
    if n > 0 && n <= vals.len() {
        lemma_emitted_keys_ascending(keys, vals, (n - 1) as nat);
        let prev = table_of(keys, vals, (n - 1) as nat);
        lemma_table_put_ascending(prev.0, prev.1, key_of(keys, n - 1), vals[n - 1]);
    } else {
        assert(Seq::<Seq<char>>::empty().len() == 0);
    }
}

/// The entry `k` of a table holds `v`.
pub open spec fn maps_to<V>(ks: Seq<Seq<char>>, vs: Seq<V>, k: Seq<char>, v: V) -> bool {
    exists|j: int| 0 <= j < ks.len() && j < vs.len() && ks[j] == k && vs[j] == v
}

pub proof fn lemma_ascending_drop_first(a: Seq<Seq<char>>)
    requires
        ascending(a),
        a.len() > 0,
    ensures
        ascending(a.drop_first()),
        !a.drop_first().contains(a[0]),
{
    let t = a.drop_first();
    assert forall|x: int, y: int| 0 <= x < y < t.len() implies text_less(#[trigger] t[x], #[trigger] t[y]) by {
        assert(t[x] == a[x + 1] && t[y] == a[y + 1]);
    }
    if t.contains(a[0]) {
        let i = choose|i: int| 0 <= i < t.len() && t[i] == a[0];
        assert(text_less(a[0], a[i + 1]));
        lemma_text_less_irreflexive(a[0]);
    }
}

/// Two ascending key sequences with the same keys are equal.
pub proof fn lemma_ascending_unique(a: Seq<Seq<char>>, b: Seq<Seq<char>>)
    requires
        ascending(a),
        ascending(b),
        forall|x: Seq<char>| a.contains(x) <==> b.contains(x),
    ensures
        a == b,
    decreases a.len() + b.len(),
{
    if a.len() == 0 {
        if b.len() > 0 {
            assert(b.contains(b[0]));
        }
        assert(a =~= b);
    } else if b.len() == 0 {
        assert(a.contains(a[0]));
    } else {
        assert(a.contains(a[0]));
        assert(b.contains(b[0]));
        let i = choose|i: int| 0 <= i < a.len() && a[i] == b[0];
        let k = choose|k: int| 0 <= k < b.len() && b[k] == a[0];
        if a[0] != b[0] {
            assert(i > 0 && k > 0);
            assert(text_less(a[0], a[i]));
            assert(text_less(b[0], b[k]));
            lemma_text_less_transitive(a[0], b[0], a[0]);
            lemma_text_less_irreflexive(a[0]);
        }
        lemma_ascending_drop_first(a);
        lemma_ascending_drop_first(b);
        let ta = a.drop_first();
        let tb = b.drop_first();
        assert forall|x: Seq<char>| ta.contains(x) <==> tb.contains(x) by {
            if ta.contains(x) {
                let p = choose|p: int| 0 <= p < ta.len() && ta[p] == x;
                assert(a[p + 1] == x);
                assert(a.contains(x));
                let q = choose|q: int| 0 <= q < b.len() && b[q] == x;
                if q == 0 {
                    assert(x == a[0]);
                } else {
                    assert(tb[q - 1] == x);
                }
            }
            if tb.contains(x) {
                let p = choose|p: int| 0 <= p < tb.len() && tb[p] == x;
                assert(b[p + 1] == x);
                assert(b.contains(x));
                let q = choose|q: int| 0 <= q < a.len() && a[q] == x;
                if q == 0 {
                    assert(x == b[0]);
                } else {
                    assert(ta[q - 1] == x);
                }
            }
        }
        lemma_ascending_unique(ta, tb);
        assert(a =~= seq![a[0]] + ta);
        assert(b =~= seq![b[0]] + tb);
    }
}

/// With distinct keys, the table of the first `n` entries holds each of their
/// keys, and only those, each with its own value.
pub proof fn lemma_table_of_holds<V>(keys: Seq<Seq<char>>, vals: Seq<V>, n: nat)
    requires
        n <= vals.len(),
        keys.len() == vals.len(),
        forall|i: int, j: int| 0 <= i < vals.len() && 0 <= j < vals.len() && i != j ==> #[trigger] keys[i] != #[trigger] keys[j],
    ensures
        ascending(table_of(keys, vals, n).0),
        table_of(keys, vals, n).0.len() == table_of(keys, vals, n).1.len(),
        forall|x: Seq<char>| #[trigger] table_of(keys, vals, n).0.contains(x) <==> exists|i: int| 0 <= i < n && keys[i] == x,
        forall|i: int| 0 <= i < n ==> maps_to(table_of(keys, vals, n).0, table_of(keys, vals, n).1, #[trigger] keys[i], vals[i]),
    decreases n,
{
    lemma_emitted_keys_ascending(keys, vals, n);
    if n > 0 {
        let m = (n - 1) as nat;
        lemma_table_of_holds(keys, vals, m);
        let prev = table_of(keys, vals, m);
        let k = keys[m as int];
        let v = vals[m as int];
        assert(key_of(keys, m as int) == k);
        crate::parse::lemma_key_slot(prev.0, k, 0);
        let j = key_slot(prev.0, k, 0);
        if j < prev.0.len() && prev.0[j] == k {
            assert(prev.0.contains(k));
            let i = choose|i: int| 0 <= i < m && keys[i] == k;
            assert(false);
        }
        let r = table_of(keys, vals, n);
        assert(r.0 == prev.0.insert(j, k) && r.1 == prev.1.insert(j, v));
        assert forall|x: Seq<char>| #[trigger] r.0.contains(x) <==> exists|i: int| 0 <= i < n && keys[i] == x by {
            if r.0.contains(x) {
                let p = choose|p: int| 0 <= p < r.0.len() && r.0[p] == x;
                if p < j {
                    assert(prev.0[p] == x && prev.0.contains(x));
                } else if p == j {
                    assert(keys[m as int] == x);
                } else {
                    assert(prev.0[p - 1] == x && prev.0.contains(x));
                }
            }
            if exists|i: int| 0 <= i < n && keys[i] == x {
                let i = choose|i: int| 0 <= i < n && keys[i] == x;
                if i == m {
                    assert(r.0[j] == x);
                } else {
                    assert(prev.0.contains(x));
                    let p = choose|p: int| 0 <= p < prev.0.len() && prev.0[p] == x;
                    if p < j {
                        assert(r.0[p] == x);
                    } else {
                        assert(r.0[p + 1] == x);
                    }
                }
            }
        }
        assert forall|i: int| 0 <= i < n implies maps_to(r.0, r.1, #[trigger] keys[i], vals[i]) by {
            if i == m {
                assert(r.0[j] == k && r.1[j] == v);
            } else {
                assert(maps_to(prev.0, prev.1, keys[i], vals[i]));
                let p = choose|p: int| 0 <= p < prev.0.len() && p < prev.1.len() && prev.0[p] == keys[i] && prev.1[p] == vals[i];
                if p < j {
                    assert(r.0[p] == keys[i] && r.1[p] == vals[i]);
                } else {
                    assert(r.0[p + 1] == keys[i] && r.1[p + 1] == vals[i]);
                }
            }
        }
    }
}

/// The order of a table's entries does not matter: with distinct keys,
/// entries given in another order (`perm` sends each entry to its new place,
/// `inv` back) make the same table.
pub proof fn lemma_table_order_irrelevant<V>(
    keys: Seq<Seq<char>>,
    vals: Seq<V>,
    keys2: Seq<Seq<char>>,
    vals2: Seq<V>,
    perm: Seq<int>,
    inv: Seq<int>,
)
    requires
        keys.len() == vals.len(),
        keys2.len() == keys.len(),
        vals2.len() == keys.len(),
        perm.len() == keys.len(),
        inv.len() == keys.len(),
        forall|i: int| 0 <= i < keys.len() ==> 0 <= #[trigger] perm[i] < keys.len(),
        forall|k: int| 0 <= k < keys.len() ==> 0 <= #[trigger] inv[k] < keys.len() && perm[inv[k]] == k,
        forall|i: int| 0 <= i < keys.len() ==> keys2[#[trigger] perm[i]] == keys[i] && vals2[perm[i]] == vals[i],
        forall|k: int| 0 <= k < keys.len() ==> keys[#[trigger] inv[k]] == keys2[k] && vals[inv[k]] == vals2[k],
        forall|i: int, j: int| 0 <= i < keys.len() && 0 <= j < keys.len() && i != j ==> #[trigger] keys[i] != #[trigger] keys[j],
    ensures
        table_of(keys, vals, vals.len()) == table_of(keys2, vals2, vals2.len()),
{
    let n = vals.len();
    assert forall|i: int, j: int| 0 <= i < n && 0 <= j < n && i != j implies #[trigger] keys2[i] != #[trigger] keys2[j] by {
        assert(keys2[i] == keys[inv[i]] && keys2[j] == keys[inv[j]]);
        if inv[i] == inv[j] {
            assert(perm[inv[i]] == i && perm[inv[j]] == j);
        }
    }
    lemma_table_of_holds(keys, vals, n);
    lemma_table_of_holds(keys2, vals2, n);
    let a = table_of(keys, vals, n);
    let b = table_of(keys2, vals2, n);
    assert forall|x: Seq<char>| a.0.contains(x) <==> b.0.contains(x) by {
        if a.0.contains(x) {
            let i = choose|i: int| 0 <= i < n && keys[i] == x;
            assert(keys2[perm[i]] == x);
        }
        if b.0.contains(x) {
            let k = choose|k: int| 0 <= k < n && keys2[k] == x;
            assert(keys[inv[k]] == x);
        }
    }
    lemma_ascending_unique(a.0, b.0);
    assert forall|p: int| 0 <= p < a.1.len() implies a.1[p] == b.1[p] by {
        let x = a.0[p];
        assert(a.0.contains(x));
        let i = choose|i: int| 0 <= i < n && keys[i] == x;
        assert(maps_to(a.0, a.1, keys[i], vals[i]));
        let q = choose|q: int| 0 <= q < a.0.len() && q < a.1.len() && a.0[q] == keys[i] && a.1[q] == vals[i];
        if q != p {
            if q < p {
                assert(text_less(a.0[q], a.0[p]));
            } else {
                assert(text_less(a.0[p], a.0[q]));
            }
            lemma_text_less_irreflexive(x);
        }
        let i2 = perm[i];
        assert(keys2[i2] == x && vals2[i2] == vals[i]);
        assert(maps_to(b.0, b.1, keys2[i2], vals2[i2]));
        let q2 = choose|q2: int| 0 <= q2 < b.0.len() && q2 < b.1.len() && b.0[q2] == keys2[i2] && b.1[q2] == vals2[i2];
        if q2 != p {
            if q2 < p {
                assert(text_less(b.0[q2], b.0[p]));
            } else {
                assert(text_less(b.0[p], b.0[q2]));
            }
            lemma_text_less_irreflexive(x);
        }
    }
    assert(a.1 =~= b.1);
}

/// The Go text of a combinator term; `None` for a malformed term or `Nil`.
pub open spec fn emit(c: CombView) -> Option<Seq<char>>
    decreases c,
{
    match c {
        CombView::S(x, y) => pair_text("S"@, x, y, slot_text(x), slot_text(y)),
        CombView::B(x, y) => pair_text("B"@, x, y, slot_text(x), slot_text(y)),
        CombView::C(x, y) => pair_text("C"@, x, y, slot_text(x), slot_text(y)),
        CombView::K(None) => Some("K"@),
        CombView::K(Some(a)) => match emit(*a) {
            Some(ea) => Some("K.apply("@ + ea + ")"@),
            None => None,
        },
        CombView::I => Some("I"@),
        CombView::Table(keys, vals) => match emit_all(vals) {
            Some(ts) => Some(
                "make_table(map[string]Combinator {"@ + join_entries(
                    table_of(keys, ts, ts.len()).0,
                    table_of(keys, ts, ts.len()).1,
                ) + "})"@,
            ),
            None => None,
        },
        CombView::List(items) => match emit_items(items) {
            Some(body) => Some("make_list([]Combinator {"@ + body + "})"@),
            None => None,
        },
        CombView::Number(n) => Some("make_f64("@ + n + ")"@),
        CombView::Str(s) => Some("make_str(\""@ + escape(s) + "\")"@),
        CombView::Builtin(name, args) => match emit_args(args) {
            Some(body) => Some(name + body),
            None => None,
        },
        CombView::Foreign(name, args) => match emit_args(args) {
            Some(body) => Some(name + body),
            None => None,
        },
        CombView::Nil => None,
    }
}

/// `.apply(a1).apply(a2)..`
pub open spec fn emit_args(args: Seq<CombView>) -> Option<Seq<char>>
    decreases args,
{
    if args.len() == 0 {
        Some(Seq::empty())
    } else {
        match (emit_args(args.drop_last()), emit(args.last())) {
            (Some(prefix), Some(e)) => Some(prefix + ".apply("@ + e + ")"@),
            _ => None,
        }
    }
}

/// `e1, e2, .. `
pub open spec fn emit_items(items: Seq<CombView>) -> Option<Seq<char>>
    decreases items,
{
    if items.len() == 0 {
        Some(Seq::empty())
    } else {
        match (emit_items(items.drop_last()), emit(items.last())) {
            (Some(prefix), Some(e)) => Some(prefix + e + ", "@),
            _ => None,
        }
    }
}

/// The text of each term, or `None` when one has none.
pub open spec fn emit_all(vals: Seq<CombView>) -> Option<Seq<Seq<char>>>
    decreases vals,
{
    if vals.len() == 0 {
        Some(Seq::empty())
    } else {
        match (emit_all(vals.drop_last()), emit(vals.last())) {
            (Some(prefix), Some(e)) => Some(prefix.push(e)),
            _ => None,
        }
    }
}

/// `"k1":v1, "k2":v2, .. ` with the keys escaped, in the order given.
pub open spec fn join_entries(keys: Seq<Seq<char>>, texts: Seq<Seq<char>>) -> Seq<char>
    decreases texts.len(),
{
    if texts.len() == 0 {
        Seq::empty()
    } else {
        join_entries(keys, texts.drop_last()) + "\""@ + escape(key_of(keys, texts.len() - 1)) + "\":"@
            + texts.last() + ", "@
    }
}

pub open spec fn emitted(r: Result<String, CompilerError>, c: CombView) -> bool {
    match (r, emit(c)) {
        (Ok(s), Some(t)) => s@ == t,
        (Err(_), None) => true,
        _ => false,
    }
}

fn text(s: &str) -> (r: String)
    ensures
        r@ == s@,
{
    String::from_str(s)
}

fn joined(a: String, b: &String) -> (r: String)
    ensures
        r@ == a@ + b@,
{
    a.concat(b.as_str())
}

fn joined_lit(a: String, b: &str) -> (r: String)
    ensures
        r@ == a@ + b@,
{
    a.concat(b)
}

/// The characters of `s` escaped for a Go string literal (see `escape`).
fn escaped(s: &String) -> (r: String)
    ensures
        r@ == escape(s@),
{
    let t = s.as_str();
    let n = t.unicode_len();
    let mut out = empty_text();
    let mut i: usize = 0;
    proof {
        reveal_strlit("\\\"");
        reveal_strlit("\\\\");
    }
    assert(s@.take(0) =~= Seq::<char>::empty());
    while i < n
        invariant
            n == s@.len(),
            t@ == s@,
            i <= n,
            out@ == escape(s@.take(i as int)),
        decreases n - i,
    {
        assert(s@.take(i + 1).drop_last() =~= s@.take(i as int));
        let c = t.get_char(i);
        assert(s@.take(i + 1).last() == c);
        proof {
            reveal_strlit("\\\"");
            reveal_strlit("\\\\");
        }
        assert("\\\""@ =~= seq!['\\', '"']);
        assert("\\\\"@ =~= seq!['\\', '\\']);
        if c == '"' {
            out = joined_lit(out, "\\\"");
        } else if c == '\\' {
            out = joined_lit(out, "\\\\");
        } else {
            let one = t.substring_char(i, i + 1);
            assert(one@ =~= seq![c]);
            out = joined_lit(out, one);
        }
        assert(out@ =~= escape(s@.take(i + 1)));
        i += 1;
    }
    assert(s@.take(n as int) =~= s@);
    out
}

/// Put `value` under `key` (see `table_put`).
fn put_entry(keys: &mut Vec<String>, values: &mut Vec<String>, key: String, value: String)
    requires
        old(keys)@.len() == old(values)@.len(),
    ensures
        final(keys)@.len() == final(values)@.len(),
        final(keys).deep_view() == table_put(old(keys).deep_view(), old(values).deep_view(), key@, value@).0,
        final(values).deep_view() == table_put(old(keys).deep_view(), old(values).deep_view(), key@, value@).1,
{
    let ghost old_keys = keys.deep_view();
    let ghost old_values = values.deep_view();
    let ghost kv = key@;
    let ghost vv = value@;
    let mut i: usize = 0;
    while i < keys.len() && text_less_exec(&keys[i], &key)
        invariant
            i <= keys@.len(),
            keys@.len() == values@.len(),
            old_keys == keys.deep_view(),
            kv == key@,
            key_slot(old_keys, kv, 0) == key_slot(old_keys, kv, i as int),
        decreases keys.len() - i,
    {
        assert(old_keys[i as int] == keys@[i as int]@);
        i += 1;
    }
    assert(i < keys.len() ==> old_keys[i as int] == keys@[i as int]@);
    assert(key_slot(old_keys, kv, 0) == i);
    let ghost before_values = values@;
    if i < keys.len() && keys[i] == key {
        keys.set(i, key);
        values.set(i, value);
        assert(keys.deep_view() =~= old_keys);
        assert(values.deep_view() =~= old_values.update(i as int, vv));
    } else {
        keys.insert(i, key);
        values.insert(i, value);
        assert(values.deep_view() =~= old_values.insert(i as int, vv));
        assert(keys.deep_view() =~= old_keys.insert(i as int, kv));
    }
}

/// The entries of a table in key order (see `table_of`).
fn ordered_table(keys: &Vec<String>, texts: &Vec<String>) -> (r: (Vec<String>, Vec<String>))
    ensures
        r.0.deep_view() == table_of(keys.deep_view(), texts.deep_view(), texts@.len()).0,
        r.1.deep_view() == table_of(keys.deep_view(), texts.deep_view(), texts@.len()).1,
{
    let ghost kd = keys.deep_view();
    let ghost td = texts.deep_view();
    let mut ks: Vec<String> = Vec::new();
    let mut ts: Vec<String> = Vec::new();
    assert(ks.deep_view() =~= Seq::<Seq<char>>::empty());
    assert(ts.deep_view() =~= Seq::<Seq<char>>::empty());
    let mut i: usize = 0;
    while i < texts.len()
        invariant
            i <= texts.len(),
            kd == keys.deep_view(),
            td == texts.deep_view(),
            td.len() == texts.len(),
            ks@.len() == ts@.len(),
            ks.deep_view() == table_of(kd, td, i as nat).0,
            ts.deep_view() == table_of(kd, td, i as nat).1,
        decreases texts.len() - i,
    {
        let key = if i < keys.len() {
            keys[i].clone()
        } else {
            empty_text()
        };
        assert(key@ == key_of(kd, i as int));
        assert(td[i as int] == texts@[i as int]@);
        put_entry(&mut ks, &mut ts, key, texts[i].clone());
        i += 1;
    }
    (ks, ts)
}

/// `"k1":v1, "k2":v2, .. ` (see `join_entries`).
fn join_entries_exec(keys: &Vec<String>, texts: &Vec<String>) -> (r: String)
    ensures
        r@ == join_entries(keys.deep_view(), texts.deep_view()),
{
    let ghost kd = keys.deep_view();
    let ghost td = texts.deep_view();
    let mut out = empty_text();
    let mut i: usize = 0;
    assert(td.take(0) =~= Seq::<Seq<char>>::empty());
    while i < texts.len()
        invariant
            i <= texts.len(),
            kd == keys.deep_view(),
            td == texts.deep_view(),
            td.len() == texts.len(),
            out@ == join_entries(kd, td.take(i as int)),
        decreases texts.len() - i,
    {
        assert(td.take(i + 1).drop_last() =~= td.take(i as int));
        assert(td.take(i + 1).last() == texts@[i as int]@);
        let key = if i < keys.len() {
            keys[i].clone()
        } else {
            empty_text()
        };
        assert(key@ == key_of(kd, i as int));
        out = joined_lit(joined(joined_lit(joined(joined_lit(out, "\""), &escaped(&key)), "\":"), &texts[i]), ", ");
        i += 1;
    }
    assert(td.take(texts.len() as int) =~= td);
    out
}

fn empty_text() -> (r: String)
    ensures
        r@ == Seq::<char>::empty(),
{
    let r = text("");
    proof {
        reveal_strlit("");
    }
    assert(r@ =~= Seq::<char>::empty());
    r
}

pub open spec fn text_matches(r: Result<String, CompilerError>, t: Option<Seq<char>>) -> bool {
    match (r, t) {
        (Ok(a), Some(b)) => a@ == b,
        (Err(_), None) => true,
        _ => false,
    }
}

fn pair_exec(
    sym: &str,
    x: &Option<Box<Combinator>>,
    y: &Option<Box<Combinator>>,
    ex: Result<String, CompilerError>,
    ey: Result<String, CompilerError>,
) -> (r: Result<String, CompilerError>)
    requires
        text_matches(ex, slot_text(slot_view(*x))),
        text_matches(ey, slot_text(slot_view(*y))),
    ensures
        text_matches(
            r,
            pair_text(sym@, slot_view(*x), slot_view(*y), slot_text(slot_view(*x)), slot_text(slot_view(*y))),
        ),
{
    let has_x = x.is_some();
    let has_y = y.is_some();
    if !has_x && !has_y {
        return Ok(text(sym));
    }
    if !has_x {
        return Err(CompilerError::MalformedCombinator);
    }
    let a = ex?;
    if !has_y {
        return Ok(joined_lit(joined(joined_lit(text(sym), ".apply("), &a), ")"));
    }
    let b = ey?;
    let head = joined(joined_lit(text(sym), ".apply("), &a);
    Ok(joined_lit(joined(joined_lit(head, ").apply("), &b), ")"))
}

impl Golang {
    /// The Go text of `input`: `S`, `K`, `I`, `B`, `C` as the identifiers, held
    /// arguments as `.apply(..)` calls, literals through the `make_*` helpers.
    pub fn emit(&self, input: &Combinator) -> (r: Result<String, CompilerError>)
        ensures
            emitted(r, input@),
        decreases input,
    {
        match input {
            Combinator::S { x, y } => {
                let ex = self.emit_slot(x);
                let ey = self.emit_slot(y);
                pair_exec("S", x, y, ex, ey)
            },
            Combinator::B { x, y } => {
                let ex = self.emit_slot(x);
                let ey = self.emit_slot(y);
                pair_exec("B", x, y, ex, ey)
            },
            Combinator::C { x, y } => {
                let ex = self.emit_slot(x);
                let ey = self.emit_slot(y);
                pair_exec("C", x, y, ex, ey)
            },
            Combinator::K { x: None } => Ok(text("K")),
            Combinator::K { x: Some(a) } => {
                let ea = self.emit(a)?;
                Ok(joined_lit(joined(text("K.apply("), &ea), ")"))
            },
            Combinator::I => Ok(text("I")),
            Combinator::Table(keys, values) => {
                let texts = self.emit_all_exec(values)?;
                let (ks, ts) = ordered_table(keys, &texts);
                let body = join_entries_exec(&ks, &ts);
                Ok(joined_lit(joined(text("make_table(map[string]Combinator {"), &body), "})"))
            },
            Combinator::List(items) => {
                let body = self.emit_items(items)?;
                Ok(joined_lit(joined(text("make_list([]Combinator {"), &body), "})"))
            },
            Combinator::Number(n) => Ok(joined_lit(joined(text("make_f64("), n), ")")),
            Combinator::String(s) => Ok(joined_lit(joined(text("make_str(\""), &escaped(s)), "\")")),
            Combinator::Builtin { name, arguments } => {
                let body = self.emit_args(arguments)?;
                Ok(joined(name.clone(), &body))
            },
            Combinator::Foreign { name, arguments } => {
                let body = self.emit_args(arguments)?;
                Ok(joined(name.clone(), &body))
            },
            Combinator::Nil => Err(CompilerError::Nil),
        }
    }

    fn emit_slot(&self, s: &Option<Box<Combinator>>) -> (r: Result<String, CompilerError>)
        ensures
            match (r, slot_text(crate::combinator::slot_view(*s))) {
                (Ok(t), Some(u)) => t@ == u,
                (Err(_), None) => true,
                _ => false,
            },
        decreases s,
    {
        match s {
            Some(a) => self.emit(a),
            None => Ok(empty_text()),
        }
    }

    fn emit_args(&self, args: &Vec<Combinator>) -> (r: Result<String, CompilerError>)
        ensures
            match (r, emit_args(combs_view(args@))) {
                (Ok(s), Some(t)) => s@ == t,
                (Err(_), None) => true,
                _ => false,
            },
        decreases args,
    {
        let ghost av = combs_view(args@);
        proof {
            lemma_combs_view(args@);
        }
        let mut out = empty_text();
        let mut i: usize = 0;
        assert(av.take(0) =~= Seq::<CombView>::empty());
        while i < args.len()
            invariant
                i <= args.len(),
                av == combs_view(args@),
                av.len() == args.len(),
                forall|j: int| 0 <= j < args.len() ==> av[j] == args@[j]@,
                emit_args(av.take(i as int)) == Some(out@),
            decreases args.len() - i,
        {
            assert(av.take(i + 1).drop_last() =~= av.take(i as int));
            assert(av.take(i + 1).last() == args@[i as int]@);
            let e = match self.emit(&args[i]) {
                Ok(e) => e,
                Err(err) => {
                    proof {
                        lemma_emit_args_prefix_none(av, i as int + 1);
                    }
                    return Err(err);
                },
            };
            out = joined_lit(joined(joined_lit(out, ".apply("), &e), ")");
            i += 1;
        }
        assert(av.take(args.len() as int) =~= av);
        Ok(out)
    }

    fn emit_items(&self, items: &Vec<Combinator>) -> (r: Result<String, CompilerError>)
        ensures
            match (r, emit_items(combs_view(items@))) {
                (Ok(s), Some(t)) => s@ == t,
                (Err(_), None) => true,
                _ => false,
            },
        decreases items,
    {
        let ghost av = combs_view(items@);
        proof {
            lemma_combs_view(items@);
        }
        let mut out = empty_text();
        let mut i: usize = 0;
        assert(av.take(0) =~= Seq::<CombView>::empty());
        while i < items.len()
            invariant
                i <= items.len(),
                av == combs_view(items@),
                av.len() == items.len(),
                forall|j: int| 0 <= j < items.len() ==> av[j] == items@[j]@,
                emit_items(av.take(i as int)) == Some(out@),
            decreases items.len() - i,
        {
            assert(av.take(i + 1).drop_last() =~= av.take(i as int));
            assert(av.take(i + 1).last() == items@[i as int]@);
            let e = match self.emit(&items[i]) {
                Ok(e) => e,
                Err(err) => {
                    proof {
                        lemma_emit_items_prefix_none(av, i as int + 1);
                    }
                    return Err(err);
                },
            };
            out = joined_lit(joined(out, &e), ", ");
            i += 1;
        }
        assert(av.take(items.len() as int) =~= av);
        Ok(out)
    }

    fn emit_all_exec(&self, values: &Vec<Combinator>) -> (r: Result<Vec<String>, CompilerError>)
        ensures
            match (r, emit_all(combs_view(values@))) {
                (Ok(ts), Some(tv)) => ts.deep_view() == tv,
                (Err(_), None) => true,
                _ => false,
            },
        decreases values,
    {
        let ghost av = combs_view(values@);
        proof {
            lemma_combs_view(values@);
        }
        let mut out: Vec<String> = Vec::new();
        let mut i: usize = 0;
        assert(av.take(0) =~= Seq::<CombView>::empty());
        assert(out.deep_view() =~= Seq::<Seq<char>>::empty());
        while i < values.len()
            invariant
                i <= values.len(),
                av == combs_view(values@),
                av.len() == values.len(),
                forall|j: int| 0 <= j < values.len() ==> av[j] == values@[j]@,
                emit_all(av.take(i as int)) == Some(out.deep_view()),
                out@.len() == i,
            decreases values.len() - i,
        {
            assert(av.take(i + 1).drop_last() =~= av.take(i as int));
            assert(av.take(i + 1).last() == values@[i as int]@);
            let e = match self.emit(&values[i]) {
                Ok(e) => e,
                Err(err) => {
                    proof {
                        lemma_emit_all_prefix_none(av, i as int + 1);
                    }
                    return Err(err);
                },
            };
            let ghost before = out.deep_view();
            let ghost ev = e@;
            out.push(e);
            assert(out.deep_view() =~= before.push(ev));
            i += 1;
        }
        assert(av.take(values.len() as int) =~= av);
        Ok(out)
    }
}

pub proof fn lemma_emit_args_prefix_none(s: Seq<CombView>, n: int)
    requires
        0 <= n <= s.len(),
        emit_args(s.take(n)) is None,
    ensures
        emit_args(s) is None,
    decreases s.len() - n,
{
    if n < s.len() {
        assert(s.take(n + 1).drop_last() =~= s.take(n));
        lemma_emit_args_prefix_none(s, n + 1);
    } else {
        assert(s.take(n) =~= s);
    }
}

pub proof fn lemma_emit_items_prefix_none(s: Seq<CombView>, n: int)
    requires
        0 <= n <= s.len(),
        emit_items(s.take(n)) is None,
    ensures
        emit_items(s) is None,
    decreases s.len() - n,
{
    if n < s.len() {
        assert(s.take(n + 1).drop_last() =~= s.take(n));
        lemma_emit_items_prefix_none(s, n + 1);
    } else {
        assert(s.take(n) =~= s);
    }
}

pub proof fn lemma_emit_all_prefix_none(s: Seq<CombView>, n: int)
    requires
        0 <= n <= s.len(),
        emit_all(s.take(n)) is None,
    ensures
        emit_all(s) is None,
    decreases s.len() - n,
{
    if n < s.len() {
        assert(s.take(n + 1).drop_last() =~= s.take(n));
        lemma_emit_all_prefix_none(s, n + 1);
    } else {
        assert(s.take(n) =~= s);
    }
}

/// The readable text of a combinator term, as in `S(K(x))(I)`; `None` for a
/// malformed term.
pub open spec fn show(c: CombView) -> Option<Seq<char>>
    decreases c,
{
    match c {
        CombView::S(x, y) => show_pair("S"@, x, y, show_slot(x), show_slot(y)),
        CombView::B(x, y) => show_pair("B"@, x, y, show_slot(x), show_slot(y)),
        CombView::C(x, y) => show_pair("C"@, x, y, show_slot(x), show_slot(y)),
        CombView::K(None) => Some("K"@),
        CombView::K(Some(a)) => match show(*a) {
            Some(t) => Some("K("@ + t + ")"@),
            None => None,
        },
        CombView::I => Some("I"@),
        CombView::Table(keys, vals) => match show_entries(keys, vals) {
            Some(body) => Some("{ "@ + body + "}"@),
            None => None,
        },
        CombView::List(items) => match show_items(items) {
            Some(body) => Some("[ "@ + body + "]"@),
            None => None,
        },
        CombView::Number(n) => Some(n),
        CombView::Str(s) => Some(s),
        CombView::Builtin(name, args) => match show_args(args) {
            Some(body) => Some(name + body),
            None => None,
        },
        CombView::Foreign(name, args) => match show_args(args) {
            Some(body) => Some(name + body),
            None => None,
        },
        CombView::Nil => Some("Nil"@),
    }
}

pub open spec fn show_slot(s: Option<Box<CombView>>) -> Option<Seq<char>>
    decreases s,
{
    match s {
        Some(a) => show(*a),
        None => Some(Seq::empty()),
    }
}

pub open spec fn show_pair(
    sym: Seq<char>,
    x: Option<Box<CombView>>,
    y: Option<Box<CombView>>,
    tx: Option<Seq<char>>,
    ty: Option<Seq<char>>,
) -> Option<Seq<char>> {
    match (x, y, tx, ty) {
        (None, None, _, _) => Some(sym),
        (Some(_), None, Some(a), _) => Some(sym + "("@ + a + ")"@),
        (Some(_), Some(_), Some(a), Some(b)) => Some(sym + "("@ + a + ")("@ + b + ")"@),
        _ => None,
    }
}

/// `(a1)(a2)..`
pub open spec fn show_args(args: Seq<CombView>) -> Option<Seq<char>>
    decreases args,
{
    if args.len() == 0 {
        Some(Seq::empty())
    } else {
        match (show_args(args.drop_last()), show(args.last())) {
            (Some(prefix), Some(t)) => Some(prefix + "("@ + t + ")"@),
            _ => None,
        }
    }
}

/// `a1 a2 .. `
pub open spec fn show_items(items: Seq<CombView>) -> Option<Seq<char>>
    decreases items,
{
    if items.len() == 0 {
        Some(Seq::empty())
    } else {
        match (show_items(items.drop_last()), show(items.last())) {
            (Some(prefix), Some(t)) => Some(prefix + t + " "@),
            _ => None,
        }
    }
}

/// `"k1":v1 "k2":v2 .. `
pub open spec fn show_entries(keys: Seq<Seq<char>>, vals: Seq<CombView>) -> Option<Seq<char>>
    decreases vals,
{
    if vals.len() == 0 {
        Some(Seq::empty())
    } else {
        match (show_entries(keys, vals.drop_last()), show(vals.last())) {
            (Some(prefix), Some(t)) => Some(
                prefix + "\""@ + (if vals.len() - 1 < keys.len() {
                    keys[vals.len() - 1]
                } else {
                    Seq::empty()
                }) + "\":"@ + t + " "@,
            ),
            _ => None,
        }
    }
}

fn show_pair_exec(
    sym: &str,
    x: &Option<Box<Combinator>>,
    y: &Option<Box<Combinator>>,
    tx: Result<String, CompilerError>,
    ty: Result<String, CompilerError>,
) -> (r: Result<String, CompilerError>)
    requires
        text_matches(tx, show_slot(slot_view(*x))),
        text_matches(ty, show_slot(slot_view(*y))),
    ensures
        text_matches(
            r,
            show_pair(sym@, slot_view(*x), slot_view(*y), show_slot(slot_view(*x)), show_slot(slot_view(*y))),
        ),
{
    let has_x = x.is_some();
    let has_y = y.is_some();
    if !has_x && !has_y {
        return Ok(text(sym));
    }
    if !has_x {
        return Err(CompilerError::MalformedCombinator);
    }
    let a = tx?;
    if !has_y {
        return Ok(joined_lit(joined(joined_lit(text(sym), "("), &a), ")"));
    }
    let b = ty?;
    let head = joined(joined_lit(text(sym), "("), &a);
    Ok(joined_lit(joined(joined_lit(head, ")("), &b), ")"))
}

impl Combinator {
    /// The readable text of this term: `S(x)(y)`, `K(x)`, `I`, literals as
    /// written, a foreign or builtin name followed by its arguments in parentheses.
    pub fn to_text(&self) -> (r: Result<String, CompilerError>)
        ensures
            text_matches(r, show(self@)),
        decreases self,
    {
        match self {
            Combinator::S { x, y } => {
                let tx = show_slot_exec(x);
                let ty = show_slot_exec(y);
                show_pair_exec("S", x, y, tx, ty)
            },
            Combinator::B { x, y } => {
                let tx = show_slot_exec(x);
                let ty = show_slot_exec(y);
                show_pair_exec("B", x, y, tx, ty)
            },
            Combinator::C { x, y } => {
                let tx = show_slot_exec(x);
                let ty = show_slot_exec(y);
                show_pair_exec("C", x, y, tx, ty)
            },
            Combinator::K { x: None } => Ok(text("K")),
            Combinator::K { x: Some(a) } => {
                let t = a.to_text()?;
                Ok(joined_lit(joined(text("K("), &t), ")"))
            },
            Combinator::I => Ok(text("I")),
            Combinator::Table(keys, values) => {
                let body = show_entries_exec(keys, values)?;
                Ok(joined_lit(joined(text("{ "), &body), "}"))
            },
            Combinator::List(items) => {
                let body = show_items_exec(items)?;
                Ok(joined_lit(joined(text("[ "), &body), "]"))
            },
            Combinator::Number(n) => Ok(n.clone()),
            Combinator::String(s) => Ok(s.clone()),
            Combinator::Builtin { name, arguments } => {
                let body = show_args_exec(arguments)?;
                Ok(joined(name.clone(), &body))
            },
            Combinator::Foreign { name, arguments } => {
                let body = show_args_exec(arguments)?;
                Ok(joined(name.clone(), &body))
            },
            Combinator::Nil => Ok(text("Nil")),
        }
    }
}

fn show_slot_exec(s: &Option<Box<Combinator>>) -> (r: Result<String, CompilerError>)
    ensures
        text_matches(r, show_slot(slot_view(*s))),
    decreases s,
{
    match s {
        Some(a) => a.to_text(),
        None => Ok(empty_text()),
    }
}

fn show_args_exec(args: &Vec<Combinator>) -> (r: Result<String, CompilerError>)
    ensures
        text_matches(r, show_args(combs_view(args@))),
    decreases args,
{
    let ghost av = combs_view(args@);
    proof {
        lemma_combs_view(args@);
    }
    let mut out = empty_text();
    let mut i: usize = 0;
    assert(av.take(0) =~= Seq::<CombView>::empty());
    while i < args.len()
        invariant
            i <= args.len(),
            av == combs_view(args@),
            av.len() == args.len(),
            forall|j: int| 0 <= j < args.len() ==> av[j] == args@[j]@,
            show_args(av.take(i as int)) == Some(out@),
        decreases args.len() - i,
    {
        assert(av.take(i + 1).drop_last() =~= av.take(i as int));
        assert(av.take(i + 1).last() == args@[i as int]@);
        let t = match args[i].to_text() {
            Ok(t) => t,
            Err(err) => {
                proof {
                    lemma_show_args_prefix_none(av, i as int + 1);
                }
                return Err(err);
            },
        };
        out = joined_lit(joined(joined_lit(out, "("), &t), ")");
        i += 1;
    }
    assert(av.take(args.len() as int) =~= av);
    Ok(out)
}

fn show_items_exec(items: &Vec<Combinator>) -> (r: Result<String, CompilerError>)
    ensures
        text_matches(r, show_items(combs_view(items@))),
    decreases items,
{
    let ghost av = combs_view(items@);
    proof {
        lemma_combs_view(items@);
    }
    let mut out = empty_text();
    let mut i: usize = 0;
    assert(av.take(0) =~= Seq::<CombView>::empty());
    while i < items.len()
        invariant
            i <= items.len(),
            av == combs_view(items@),
            av.len() == items.len(),
            forall|j: int| 0 <= j < items.len() ==> av[j] == items@[j]@,
            show_items(av.take(i as int)) == Some(out@),
        decreases items.len() - i,
    {
        assert(av.take(i + 1).drop_last() =~= av.take(i as int));
        assert(av.take(i + 1).last() == items@[i as int]@);
        let t = match items[i].to_text() {
            Ok(t) => t,
            Err(err) => {
                proof {
                    lemma_show_items_prefix_none(av, i as int + 1);
                }
                return Err(err);
            },
        };
        out = joined_lit(joined(out, &t), " ");
        i += 1;
    }
    assert(av.take(items.len() as int) =~= av);
    Ok(out)
}

fn show_entries_exec(keys: &Vec<String>, values: &Vec<Combinator>) -> (r: Result<String, CompilerError>)
    ensures
        text_matches(r, show_entries(keys.deep_view(), combs_view(values@))),
    decreases values,
{
    let ghost av = combs_view(values@);
    let ghost kv = keys.deep_view();
    proof {
        lemma_combs_view(values@);
    }
    let mut out = empty_text();
    let mut i: usize = 0;
    assert(av.take(0) =~= Seq::<CombView>::empty());
    while i < values.len()
        invariant
            i <= values.len(),
            av == combs_view(values@),
            kv == keys.deep_view(),
            av.len() == values.len(),
            forall|j: int| 0 <= j < values.len() ==> av[j] == values@[j]@,
            show_entries(kv, av.take(i as int)) == Some(out@),
        decreases values.len() - i,
    {
        assert(av.take(i + 1).drop_last() =~= av.take(i as int));
        assert(av.take(i + 1).last() == values@[i as int]@);
        let t = match values[i].to_text() {
            Ok(t) => t,
            Err(err) => {
                proof {
                    lemma_show_entries_prefix_none(kv, av, i as int + 1);
                }
                return Err(err);
            },
        };
        let key = if i < keys.len() {
            keys[i].clone()
        } else {
            empty_text()
        };
        assert(i < kv.len() ==> kv[i as int] == keys@[i as int]@);
        out = joined_lit(joined(joined_lit(joined(joined_lit(out, "\""), &key), "\":"), &t), " ");
        i += 1;
    }
    assert(av.take(values.len() as int) =~= av);
    Ok(out)
}

pub proof fn lemma_show_args_prefix_none(s: Seq<CombView>, n: int)
    requires
        0 <= n <= s.len(),
        show_args(s.take(n)) is None,
    ensures
        show_args(s) is None,
    decreases s.len() - n,
{
    if n < s.len() {
        assert(s.take(n + 1).drop_last() =~= s.take(n));
        lemma_show_args_prefix_none(s, n + 1);
    } else {
        assert(s.take(n) =~= s);
    }
}

pub proof fn lemma_show_items_prefix_none(s: Seq<CombView>, n: int)
    requires
        0 <= n <= s.len(),
        show_items(s.take(n)) is None,
    ensures
        show_items(s) is None,
    decreases s.len() - n,
{
    if n < s.len() {
        assert(s.take(n + 1).drop_last() =~= s.take(n));
        lemma_show_items_prefix_none(s, n + 1);
    } else {
        assert(s.take(n) =~= s);
    }
}

pub proof fn lemma_show_entries_prefix_none(k: Seq<Seq<char>>, s: Seq<CombView>, n: int)
    requires
        0 <= n <= s.len(),
        show_entries(k, s.take(n)) is None,
    ensures
        show_entries(k, s) is None,
    decreases s.len() - n,
{
    if n < s.len() {
        assert(s.take(n + 1).drop_last() =~= s.take(n));
        lemma_show_entries_prefix_none(k, s, n + 1);
    } else {
        assert(s.take(n) =~= s);
    }
}

/// The readable text of a lambda term: `λx.body`, `(f)(a)`, variables by
/// name, combinator leaves by their text.
pub open spec fn lambda_text(t: crate::lambda::LambdaView) -> Option<Seq<char>>
    decreases t,
{
    match t {
        crate::lambda::LambdaView::Abstraction(x, b) => match lambda_text(*b) {
            Some(tb) => Some("λ"@ + x + "."@ + tb),
            None => None,
        },
        crate::lambda::LambdaView::Application(a, b) => match (lambda_text(*a), lambda_text(*b)) {
            (Some(ta), Some(tb)) => Some("("@ + ta + ")("@ + tb + ")"@),
            _ => None,
        },
        crate::lambda::LambdaView::Binding(x) => Some(x),
        crate::lambda::LambdaView::Combinator(c) => show(c),
    }
}

impl crate::lambda::Lambda {
    /// The readable text of this term (see `lambda_text`).
    pub fn to_text(&self) -> (r: Result<String, CompilerError>)
        ensures
            text_matches(r, lambda_text(self@)),
        decreases self,
    {
        match self {
            crate::lambda::Lambda::Abstraction(x, b) => {
                let tb = b.to_text()?;
                Ok(joined(joined_lit(joined(text("λ"), x), "."), &tb))
            },
            crate::lambda::Lambda::Application(a, b) => {
                let ta = a.to_text()?;
                let tb = b.to_text()?;
                Ok(joined_lit(joined(joined_lit(joined(text("("), &ta), ")("), &tb), ")"))
            },
            crate::lambda::Lambda::Binding(x) => Ok(x.clone()),
            crate::lambda::Lambda::Combinator(c) => c.to_text(),
        }
    }
}

pub proof fn lemma_emit_all(vals: Seq<CombView>)
    ensures
        emit_all(vals) is Some <==> forall|i: int| 0 <= i < vals.len() ==> #[trigger] emit(vals[i]) is Some,
        emit_all(vals) matches Some(ts) ==> ts.len() == vals.len() && forall|i: int|
            0 <= i < vals.len() ==> emit(vals[i]) == Some(#[trigger] ts[i]),
    decreases vals.len(),
{
    if vals.len() > 0 {
        let d = vals.drop_last();
        lemma_emit_all(d);
        assert forall|i: int| 0 <= i < d.len() implies d[i] == vals[i] by {}
        if forall|i: int| 0 <= i < vals.len() ==> #[trigger] emit(vals[i]) is Some {
            assert forall|i: int| 0 <= i < d.len() implies #[trigger] emit(d[i]) is Some by {
                assert(emit(vals[i]) is Some);
            }
            assert(emit(vals[vals.len() - 1]) is Some);
        }
        if emit_all(d) is Some && emit(vals.last()) is Some {
            assert forall|i: int| 0 <= i < vals.len() implies #[trigger] emit(vals[i]) is Some by {
                if i < d.len() {
                    assert(emit(d[i]) is Some);
                }
            }
        }
        if emit_all(d) is None {
            let i = choose|i: int| 0 <= i < d.len() && !(#[trigger] emit(d[i]) is Some);
            assert(emit(vals[i]) is None);
        }
    }
}

/// Equal tables give equal text: a table whose entries (with distinct keys)
/// are given in another order (`perm` sends each entry to its new place, `inv`
/// back) is emitted as the same Go text.
pub proof fn lemma_table_emission_order_irrelevant(
    keys: Seq<Seq<char>>,
    vals: Seq<CombView>,
    keys2: Seq<Seq<char>>,
    vals2: Seq<CombView>,
    perm: Seq<int>,
    inv: Seq<int>,
)
    requires
        keys.len() == vals.len(),
        keys2.len() == keys.len(),
        vals2.len() == keys.len(),
        perm.len() == keys.len(),
        inv.len() == keys.len(),
        forall|i: int| 0 <= i < keys.len() ==> 0 <= #[trigger] perm[i] < keys.len(),
        forall|k: int| 0 <= k < keys.len() ==> 0 <= #[trigger] inv[k] < keys.len() && perm[inv[k]] == k,
        forall|i: int| 0 <= i < keys.len() ==> keys2[#[trigger] perm[i]] == keys[i] && vals2[perm[i]] == vals[i],
        forall|k: int| 0 <= k < keys.len() ==> keys[#[trigger] inv[k]] == keys2[k] && vals[inv[k]] == vals2[k],
        forall|i: int, j: int| 0 <= i < keys.len() && 0 <= j < keys.len() && i != j ==> #[trigger] keys[i] != #[trigger] keys[j],
    ensures
        emit(CombView::Table(keys, vals)) == emit(CombView::Table(keys2, vals2)),
{
    lemma_emit_all(vals);
    lemma_emit_all(vals2);
    let n = keys.len();
    if emit_all(vals) is Some {
        assert forall|k: int| 0 <= k < n implies #[trigger] emit(vals2[k]) is Some by {
            assert(vals2[k] == vals[inv[k]]);
            assert(emit(vals[inv[k]]) is Some);
        }
        let ts = emit_all(vals)->Some_0;
        let ts2 = emit_all(vals2)->Some_0;
        assert forall|i: int| 0 <= i < n implies ts2[#[trigger] perm[i]] == ts[i] by {
            assert(emit(vals2[perm[i]]) == Some(ts2[perm[i]]));
            assert(emit(vals[i]) == Some(ts[i]));
        }
        assert forall|k: int| 0 <= k < n implies ts[#[trigger] inv[k]] == ts2[k] by {
            assert(emit(vals[inv[k]]) == Some(ts[inv[k]]));
            assert(emit(vals2[k]) == Some(ts2[k]));
        }
        lemma_table_order_irrelevant(keys, ts, keys2, ts2, perm, inv);
    } else {
        let i = choose|i: int| 0 <= i < n && !(#[trigger] emit(vals[i]) is Some);
        assert(vals2[perm[i]] == vals[i]);
        assert(!(emit(vals2[perm[i]]) is Some));
    }
}

impl Target<CompilerError> for Golang {
    open spec fn host_text(&self, input: CombView) -> Option<Seq<char>> {
        emit(input)
    }

    fn compile(&self, input: Combinator) -> (r: Result<String, CompilerError>) {
        self.emit(&input)
    }
}

} // verus!
