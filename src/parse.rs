use vstd::prelude::*;

use crate::ast::{
    exprs_view, lemma_exprs_view, BinaryOp, Constant, Constructor, ConstructorView, Data, DataView,
    ExprView, Expression, Import, UnaryOp,
};
use crate::program::{rewritten, AstView, DefView, Function, AST};

verus! {

/// Why the source text could not be parsed.
pub enum ParseErrorKind {
    /// An expression was expected where the input ends.
    EmptyExpression,
    /// An expression was expected where a closing parenthesis stands.
    UnmatchedClosingBracket,
    /// Input is left that is no declaration.
    UnexpectedInput,
    /// A construct that the grammar does not accept at this point.
    NoMatch,
}

/// A parse error and the character position where it was found.
pub struct ParseError {
    pub position: usize,
    pub kind: ParseErrorKind,
}

/// The text being parsed, with its characters.
pub struct Source<'a> {
    pub text: &'a str,
    pub chars: Vec<char>,
}

impl<'a> Source<'a> {
    pub open spec fn wf(&self) -> bool {
        self.chars@ == self.text@
    }

    pub open spec fn len(&self) -> int {
        self.chars@.len() as int
    }

    pub fn new(text: &'a str) -> (r: Source<'a>)
        ensures
            r.wf(),
            r.text == text,
    {
        let n = text.unicode_len();
        let mut chars: Vec<char> = Vec::new();
        let mut i: usize = 0;
        while i < n
            invariant
                n == text@.len(),
                i <= n,
                chars@ == text@.take(i as int),
            decreases n - i,
        {
            chars.push(text.get_char(i));
            i += 1;
            assert(chars@ =~= text@.take(i as int));
        }
        assert(text@.take(n as int) =~= text@);
        Source { text, chars }
    }

    /// The characters from `start` to `end` as a string.
    pub fn slice(&self, start: usize, end: usize) -> (r: String)
        requires
            self.wf(),
            start <= end <= self.len(),
        ensures
            r@ == self.chars@.subrange(start as int, end as int),
    {
        self.text.substring_char(start, end).to_owned()
    }
}

/// The outcome of a parser at a position: a hard error, no match, or the
/// position after what was read together with its value.
pub open spec fn advanced<T>(r: Result<Option<(usize, T)>, ParseError>, pos: int, len: int) -> bool {
    r matches Ok(Some((p, _))) ==> pos < p <= len
}

pub open spec fn is_space(c: char) -> bool {
    c == ' ' || c == '\t' || c == '\r' || c == '\n'
}

pub open spec fn is_digit(c: char) -> bool {
    '0' <= c <= '9'
}

/// A character that may stand in an identifier.
pub open spec fn is_ident_char(c: char) -> bool {
    ('a' <= c <= 'z') || ('A' <= c <= 'Z') || is_digit(c) || c == '_'
}

/// The first position from `i` on that does not hold a space.
pub open spec fn space_end(s: Seq<char>, i: int) -> int
    decreases s.len() - i,
{
    if i < 0 || i >= s.len() || !is_space(s[i]) {
        i
    } else {
        space_end(s, i + 1)
    }
}

/// The first position from `i` on that does not hold an identifier character.
pub open spec fn ident_end(s: Seq<char>, i: int) -> int
    decreases s.len() - i,
{
    if i < 0 || i >= s.len() || !is_ident_char(s[i]) {
        i
    } else {
        ident_end(s, i + 1)
    }
}

/// The first position from `i` on that does not hold a digit.
pub open spec fn digits_end(s: Seq<char>, i: int) -> int
    decreases s.len() - i,
{
    if i < 0 || i >= s.len() || !is_digit(s[i]) {
        i
    } else {
        digits_end(s, i + 1)
    }
}

/// The reserved words, which are never identifiers.
pub open spec fn is_keyword(w: Seq<char>) -> bool {
    w == "const"@ || w == "from"@ || w == "import"@ || w == "data"@ || w == "type"@ || w == "let"@
        || w == "in"@ || w == "case"@ || w == "of"@ || w == "rec"@ || w == "if"@ || w == "then"@
        || w == "else"@
}

/// The identifier that starts, after spaces, at `pos`: its end, or none when
/// the run of identifier characters is empty, starts with a digit or is reserved.
pub open spec fn identifier_at(s: Seq<char>, pos: int) -> Option<int> {
    let start = space_end(s, pos);
    let end = ident_end(s, start);
    if end > start && !is_digit(s[start]) && !is_keyword(s.subrange(start, end)) {
        Some(end)
    } else {
        None
    }
}

/// The end of the string literal that starts at `i`, which holds a quote: the
/// position after the closing quote; a backslash makes the next character literal.
pub open spec fn string_end(s: Seq<char>, i: int) -> Option<int>
    decreases s.len() + 1 - i,
{
    if i < 0 || i >= s.len() {
        None
    } else if s[i] == '"' {
        Some(i + 1)
    } else if s[i] == '\\' {
        string_end(s, i + 2)
    } else {
        string_end(s, i + 1)
    }
}

/// The end of the number literal at `i`: optional sign, digits with an optional
/// fraction (or a fraction alone), then an optional exponent with digits.
pub open spec fn number_end(s: Seq<char>, i: int) -> Option<int> {
    let a = if i < s.len() && (s[i] == '+' || s[i] == '-') {
        i + 1
    } else {
        i
    };
    let whole = digits_end(s, a);
    let frac = if whole < s.len() && s[whole] == '.' {
        digits_end(s, whole + 1)
    } else {
        whole
    };
    let has_digits = whole > a || frac > whole + 1;
    if !has_digits {
        None
    } else if frac < s.len() && (s[frac] == 'e' || s[frac] == 'E') {
        let b = if frac + 1 < s.len() && (s[frac + 1] == '+' || s[frac + 1] == '-') {
            frac + 2
        } else {
            frac + 1
        };
        let e = digits_end(s, b);
        if e > b {
            Some(e)
        } else {
            Some(frac)
        }
    } else {
        Some(frac)
    }
}

/// The position after `w` when the text at `pos` starts with it.
pub open spec fn tag_at(s: Seq<char>, pos: int, w: Seq<char>) -> Option<int> {
    if w.len() > 0 && 0 <= pos && pos + w.len() <= s.len() && s.subrange(pos, pos + w.len()) == w {
        Some(pos + w.len())
    } else {
        None
    }
}

/// `w` after optional spaces, then spaces: the position after them.
pub open spec fn token_at(s: Seq<char>, pos: int, w: Seq<char>) -> Option<int> {
    match tag_at(s, space_end(s, pos), w) {
        Some(q) => Some(space_end(s, q)),
        None => None,
    }
}

/// The reserved word `w` after optional spaces, not followed by an identifier
/// character, then spaces: the position after them.
pub open spec fn keyword_at(s: Seq<char>, pos: int, w: Seq<char>) -> Option<int> {
    match tag_at(s, space_end(s, pos), w) {
        Some(q) => if q < s.len() && is_ident_char(s[q]) {
            None
        } else {
            Some(space_end(s, q))
        },
        None => None,
    }
}

/// The name of the identifier read by `identifier_at` from `pos`.
pub open spec fn identifier_name(s: Seq<char>, pos: int, end: int) -> Seq<char> {
    s.subrange(space_end(s, pos), end)
}

/// `, x` repeated from `p` on: the position after the last and the names.
pub open spec fn names_rest(s: Seq<char>, p: int) -> (int, Seq<Seq<char>>)
    decreases s.len() - p,
{
    if p < 0 || p >= s.len() {
        (p, Seq::empty())
    } else {
        match token_at(s, p, ","@) {
            None => (p, Seq::empty()),
            Some(q1) => match identifier_at(s, q1) {
                None => (p, Seq::empty()),
                Some(e) => if p < e <= s.len() {
                    let rest = names_rest(s, e);
                    (rest.0, seq![identifier_name(s, q1, e)] + rest.1)
                } else {
                    (p, Seq::empty())
                },
            },
        }
    }
}

/// `( x, y, .. )` from `pos`, possibly with no name.
pub open spec fn names_at(s: Seq<char>, pos: int) -> Option<(int, Seq<Seq<char>>)> {
    match token_at(s, pos, "("@) {
        None => None,
        Some(p) => {
            let (q, ns) = match identifier_at(s, p) {
                Some(e) => if p < e <= s.len() {
                    let rest = names_rest(s, e);
                    (rest.0, seq![identifier_name(s, p, e)] + rest.1)
                } else {
                    (p, Seq::empty())
                },
                None => (p, Seq::empty()),
            };
            match token_at(s, q, ")"@) {
                Some(r) => Some((r, ns)),
                None => None,
            }
        },
    }
}

/// A constructor declaration `C` or `C(x, y, ..)` from `pos`, with the spaces
/// around it.
pub open spec fn constructor_declaration_at(s: Seq<char>, pos: int) -> Option<(int, ConstructorView)> {
    match identifier_at(s, pos) {
        None => None,
        Some(e) => {
            let name = identifier_name(s, pos, e);
            let p1 = space_end(s, e);
            match names_at(s, p1) {
                Some((q, ns)) => Some((space_end(s, q), ConstructorView { name, members: ns })),
                None => Some((space_end(s, p1), ConstructorView { name, members: Seq::empty() })),
            }
        },
    }
}

pub open spec fn same_pos(r: Option<usize>, g: Option<int>) -> bool {
    match (r, g) {
        (Some(p), Some(q)) => p as int == q,
        (None, None) => true,
        _ => false,
    }
}

pub proof fn lemma_space_end_bounds(s: Seq<char>, i: int)
    requires
        0 <= i <= s.len(),
    ensures
        i <= space_end(s, i) <= s.len(),
    decreases s.len() - i,
{
    if i < s.len() && is_space(s[i]) {
        lemma_space_end_bounds(s, i + 1);
    }
}

pub proof fn lemma_ident_end_bounds(s: Seq<char>, i: int)
    requires
        0 <= i <= s.len(),
    ensures
        i <= ident_end(s, i) <= s.len(),
    decreases s.len() - i,
{
    if i < s.len() && is_ident_char(s[i]) {
        lemma_ident_end_bounds(s, i + 1);
    }
}

pub proof fn lemma_digits_end_bounds(s: Seq<char>, i: int)
    requires
        0 <= i <= s.len(),
    ensures
        i <= digits_end(s, i) <= s.len(),
    decreases s.len() - i,
{
    if i < s.len() && is_digit(s[i]) {
        lemma_digits_end_bounds(s, i + 1);
    }
}

pub proof fn lemma_string_end_bounds(s: Seq<char>, i: int)
    requires
        0 <= i,
    ensures
        string_end(s, i) matches Some(e) ==> i < e <= s.len(),
    decreases s.len() + 1 - i,
{
    if i < s.len() && s[i] != '"' {
        if s[i] == '\\' {
            lemma_string_end_bounds(s, i + 2);
        } else {
            lemma_string_end_bounds(s, i + 1);
        }
    }
}

/// The lexer is total: at every position of every text each token kind is
/// either read, ending after the position and within the text, or rejected.
pub proof fn lemma_lexer_total(s: Seq<char>, pos: int)
    requires
        0 <= pos <= s.len(),
    ensures
        pos <= space_end(s, pos) <= s.len(),
        identifier_at(s, pos) matches Some(e) ==> pos < e <= s.len(),
        string_end(s, pos + 1) matches Some(e) ==> pos + 1 < e <= s.len(),
        number_end(s, pos) matches Some(e) ==> pos < e <= s.len(),
{
    lemma_space_end_bounds(s, pos);
    let start = space_end(s, pos);
    lemma_ident_end_bounds(s, start);
    lemma_string_end_bounds(s, pos + 1);
    let a = if pos < s.len() && (s[pos] == '+' || s[pos] == '-') {
        pos + 1
    } else {
        pos
    };
    lemma_digits_end_bounds(s, a);
    let whole = digits_end(s, a);
    if whole < s.len() && s[whole] == '.' {
        lemma_digits_end_bounds(s, whole + 1);
    }
    let frac = if whole < s.len() && s[whole] == '.' {
        digits_end(s, whole + 1)
    } else {
        whole
    };
    if frac < s.len() && (s[frac] == 'e' || s[frac] == 'E') {
        let b = if frac + 1 < s.len() && (s[frac + 1] == '+' || s[frac + 1] == '-') {
            frac + 2
        } else {
            frac + 1
        };
        lemma_digits_end_bounds(s, b);
    }
}

/// Skip spaces, tabs and line breaks.
pub fn sp(src: &Source, pos: usize) -> (r: usize)
    requires
        src.wf(),
        pos <= src.len(),
    ensures
        r == space_end(src.chars@, pos as int),
        pos <= r <= src.len(),
    decreases src.len() - pos,
{
    if pos < src.chars.len() && (src.chars[pos] == ' ' || src.chars[pos] == '\t' || src.chars[pos]
        == '\r' || src.chars[pos] == '\n') {
        sp(src, pos + 1)
    } else {
        pos
    }
}

fn ident_end_exec(src: &Source, pos: usize) -> (r: usize)
    requires
        src.wf(),
        pos <= src.len(),
    ensures
        r == ident_end(src.chars@, pos as int),
        pos <= r <= src.len(),
    decreases src.len() - pos,
{
    if pos < src.chars.len() && is_ident_char_exec(src.chars[pos]) {
        ident_end_exec(src, pos + 1)
    } else {
        pos
    }
}

fn digits_end_exec(src: &Source, pos: usize) -> (r: usize)
    requires
        src.wf(),
        pos <= src.len(),
    ensures
        r == digits_end(src.chars@, pos as int),
        pos <= r <= src.len(),
    decreases src.len() - pos,
{
    if pos < src.chars.len() && '0' <= src.chars[pos] && src.chars[pos] <= '9' {
        digits_end_exec(src, pos + 1)
    } else {
        pos
    }
}

fn is_ident_char_exec(c: char) -> (r: bool)
    ensures
        r == is_ident_char(c),
{
    ('a' <= c && c <= 'z') || ('A' <= c && c <= 'Z') || ('0' <= c && c <= '9') || c == '_'
}

/// Whether the text at `pos` starts with `word`.
pub fn tag(src: &Source, pos: usize, word: &str) -> (r: bool)
    requires
        src.wf(),
        pos <= src.len(),
    ensures
        r == (pos + word@.len() <= src.len() && src.chars@.subrange(pos as int, pos + word@.len())
            == word@),
{
    let n = word.unicode_len();
    let len = src.chars.len();
    if n > len - pos {
        return false;
    }
    let mut i: usize = 0;
    while i < n
        invariant
            n == word@.len(),
            len == src.len(),
            pos + n <= len,
            src.wf(),
            i <= n,
            forall|j: int| 0 <= j < i ==> src.chars@[pos + j] == word@[j],
        decreases n - i,
    {
        if src.chars[pos + i] != word.get_char(i) {
            assert(src.chars@.subrange(pos as int, pos + n)[i as int] != word@[i as int]);
            return false;
        }
        i += 1;
    }
    assert(src.chars@.subrange(pos as int, pos + n) =~= word@);
    true
}

/// The position after `word` when the text at `pos` starts with it.
fn tag_end(src: &Source, pos: usize, word: &str) -> (r: Option<usize>)
    requires
        src.wf(),
        pos <= src.len(),
    ensures
        r matches Some(p) ==> pos < p <= src.len(),
        same_pos(r, tag_at(src.chars@, pos as int, word@)),
{
    let n = word.unicode_len();
    let len = src.chars.len();
    assert(len == src.len());
    if n == 0 || !tag(src, pos, word) {
        None
    } else {
        Some(pos + n)
    }
}

/// `word` after optional spaces, then spaces: the position after them.
fn token(src: &Source, pos: usize, word: &str) -> (r: Option<usize>)
    requires
        src.wf(),
        pos <= src.len(),
    ensures
        r matches Some(p) ==> pos < p <= src.len(),
        same_pos(r, token_at(src.chars@, pos as int, word@)),
{
    let start = sp(src, pos);
    let n = word.unicode_len();
    if n == 0 {
        return None;
    }
    let len = src.chars.len();
    assert(len == src.len());
    if tag(src, start, word) {
        Some(sp(src, start + n))
    } else {
        None
    }
}

fn same_text(w: &String, lit: &str) -> (r: bool)
    ensures
        r == (w@ == lit@),
{
    *w == String::from_str(lit)
}

fn is_keyword_exec(w: &String) -> (r: bool)
    ensures
        r == is_keyword(w@),
{
    same_text(w, "const") || same_text(w, "from") || same_text(w, "import") || same_text(w, "data")
        || same_text(w, "type") || same_text(w, "let") || same_text(w, "in") || same_text(w, "case")
        || same_text(w, "of") || same_text(w, "rec") || same_text(w, "if") || same_text(w, "then")
        || same_text(w, "else")
}

/// An identifier after optional spaces: the position after it and its name.
pub fn parse_identifier(src: &Source, pos: usize) -> (r: Option<(usize, String)>)
    requires
        src.wf(),
        pos <= src.len(),
    ensures
        match (r, identifier_at(src.chars@, pos as int)) {
            (Some((p, name)), Some(e)) => p as int == e && name@ == src.chars@.subrange(
                space_end(src.chars@, pos as int),
                e,
            ),
            (None, None) => true,
            _ => false,
        },
        r matches Some((p, _)) ==> pos < p <= src.len(),
{
    let start = sp(src, pos);
    let end = ident_end_exec(src, start);
    if end == start {
        return None;
    }
    let c = src.chars[start];
    if '0' <= c && c <= '9' {
        return None;
    }
    let name = src.slice(start, end);
    if is_keyword_exec(&name) {
        return None;
    }
    Some((end, name))
}

fn string_end_exec(src: &Source, i: usize) -> (r: Option<usize>)
    requires
        src.wf(),
        i <= src.len() + 1,
    ensures
        match (r, string_end(src.chars@, i as int)) {
            (Some(p), Some(q)) => p as int == q && i < q <= src.len(),
            (None, None) => true,
            _ => false,
        },
    decreases src.len() + 2 - i,
{
    if i >= src.chars.len() {
        None
    } else if src.chars[i] == '"' {
        Some(i + 1)
    } else if src.chars[i] == '\\' {
        if i + 1 >= src.chars.len() {
            assert(string_end(src.chars@, i + 2) is None);
            return None;
        }
        string_end_exec(src, i + 2)
    } else {
        string_end_exec(src, i + 1)
    }
}

/// A string literal at `pos` (no spaces skipped): the position after the
/// closing quote and the characters between the quotes, each `\"` read as `"`.
pub fn parse_string(src: &Source, pos: usize) -> (r: Option<(usize, String)>)
    requires
        src.wf(),
        pos <= src.len(),
    ensures
        match r {
            Some((p, s)) => pos < src.len() && src.chars@[pos as int] == '"' && string_end(
                src.chars@,
                pos + 1,
            ) == Some(p as int) && s@ == unescape(src.chars@, pos + 1, p - 1),
            None => !(pos < src.len() && src.chars@[pos as int] == '"' && string_end(
                src.chars@,
                pos + 1,
            ) is Some),
        },
        r matches Some((p, _)) ==> pos < p <= src.len(),
{
    if pos >= src.chars.len() || src.chars[pos] != '"' {
        return None;
    }
    match string_end_exec(src, pos + 1) {
        Some(p) => Some((p, unescape_exec(src, pos + 1, p - 1))),
        None => None,
    }
}

/// The characters from `i` to `end` with each `\"` read as `"`; a backslash
/// before any other character is kept with it.
pub open spec fn unescape(s: Seq<char>, i: int, end: int) -> Seq<char>
    decreases end - i,
{
    if i >= end || i < 0 || end > s.len() {
        Seq::empty()
    } else if s[i] == '\\' && i + 1 < end {
        (if s[i + 1] == '"' {
            seq!['"']
        } else {
            seq![s[i], s[i + 1]]
        }) + unescape(s, i + 2, end)
    } else {
        seq![s[i]] + unescape(s, i + 1, end)
    }
}

fn unescape_exec(src: &Source, start: usize, end: usize) -> (r: String)
    requires
        src.wf(),
        start <= end <= src.len(),
    ensures
        r@ == unescape(src.chars@, start as int, end as int),
{
    let ghost s = src.chars@;
    let mut out = String::from_str("");
    proof {
        reveal_strlit("");
        reveal_strlit("\"");
    }
    assert(out@ =~= Seq::<char>::empty());
    let mut seg: usize = start;
    let mut i: usize = start;
    assert(s.subrange(seg as int, i as int) =~= Seq::<char>::empty());
    while i < end
        invariant
            src.wf(),
            s == src.chars@,
            start <= seg <= i <= end,
            end <= src.len(),
            out@ + unescape(s, seg as int, end as int) == unescape(s, start as int, end as int),
            unescape(s, seg as int, end as int) == s.subrange(seg as int, i as int) + unescape(s, i as int, end as int),
        decreases end - i,
    {
        if src.chars[i] == '\\' && i + 1 < end {
            if src.chars[i + 1] == '"' {
                let piece = src.slice(seg, i);
                let ghost before = out@;
                out = out.concat(piece.as_str()).concat("\"");
                proof {
                    reveal_strlit("\"");
                }
                assert("\""@ =~= seq!['"']);
                assert(out@ =~= before + s.subrange(seg as int, i as int) + seq!['"']);
                assert(unescape(s, seg as int, end as int) =~= s.subrange(seg as int, i as int) + seq!['"'] + unescape(s, i + 2, end as int));
                i = i + 2;
                seg = i;
                assert(s.subrange(seg as int, i as int) =~= Seq::<char>::empty());
                assert(out@ + unescape(s, seg as int, end as int) =~= unescape(s, start as int, end as int));
            } else {
                assert(s.subrange(seg as int, i + 2) =~= s.subrange(seg as int, i as int) + seq![s[i as int], s[i + 1]]);
                i = i + 2;
            }
        } else {
            assert(s.subrange(seg as int, i + 1) =~= s.subrange(seg as int, i as int) + seq![s[i as int]]);
            i = i + 1;
        }
    }
    let last = src.slice(seg, end);
    assert(unescape(s, end as int, end as int) =~= Seq::<char>::empty());
    out.concat(last.as_str())
}

/// A number literal at `pos` (no spaces skipped), kept as its text.
pub fn parse_number(src: &Source, pos: usize) -> (r: Option<(usize, String)>)
    requires
        src.wf(),
        pos <= src.len(),
    ensures
        match (r, number_end(src.chars@, pos as int)) {
            (Some((p, s)), Some(e)) => p as int == e && s@ == src.chars@.subrange(pos as int, e),
            (None, None) => true,
            _ => false,
        },
        r matches Some((p, _)) ==> pos < p <= src.len(),
{
    let n = src.chars.len();
    let a = if pos < n && (src.chars[pos] == '+' || src.chars[pos] == '-') {
        pos + 1
    } else {
        pos
    };
    let whole = digits_end_exec(src, a);
    let frac = if whole < n && src.chars[whole] == '.' {
        digits_end_exec(src, whole + 1)
    } else {
        whole
    };
    if !(whole > a || frac - whole > 1) {
        return None;
    }
    let end = if frac < n && (src.chars[frac] == 'e' || src.chars[frac] == 'E') {
        let b = if frac + 1 < n && (src.chars[frac + 1] == '+' || src.chars[frac + 1] == '-') {
            frac + 2
        } else {
            frac + 1
        };
        let e = digits_end_exec(src, b);
        if e > b {
            e
        } else {
            frac
        }
    } else {
        frac
    };
    Some((end, src.slice(pos, end)))
}


/// A reserved word after optional spaces, not followed by an identifier
/// character, then spaces: the position after them.
fn keyword(src: &Source, pos: usize, word: &str) -> (r: Option<usize>)
    requires
        src.wf(),
        pos <= src.len(),
    ensures
        r matches Some(p) ==> pos < p <= src.len(),
        same_pos(r, keyword_at(src.chars@, pos as int, word@)),
{
    let start = sp(src, pos);
    let n = word.unicode_len();
    if n == 0 {
        return None;
    }
    let len = src.chars.len();
    if !tag(src, start, word) {
        return None;
    }
    let end = start + n;
    if end < len && is_ident_char_exec(src.chars[end]) {
        return None;
    }
    Some(sp(src, end))
}


// ---------------------------------------------------------------------------
// The expression grammar
// ---------------------------------------------------------------------------

/// What a production makes of the text from a position: a hard error with its
/// position and kind, no match, or the position after what it read and its value.
pub open spec fn first_of<T>(
    a: Result<Option<(int, T)>, (int, ParseErrorKind)>,
    b: Result<Option<(int, T)>, (int, ParseErrorKind)>,
) -> Result<Option<(int, T)>, (int, ParseErrorKind)> {
    match a {
        Ok(None) => b,
        _ => a,
    }
}

/// A result that does not read past `pos` counts as no match.
pub open spec fn fwd<T>(r: Result<Option<(int, T)>, (int, ParseErrorKind)>, pos: int, len: int) -> Result<
    Option<(int, T)>,
    (int, ParseErrorKind),
> {
    match r {
        Ok(Some((q, v))) => if pos < q <= len {
            r
        } else {
            Ok(None)
        },
        _ => r,
    }
}

/// The result with the spaces after what was read skipped.
pub open spec fn trail(s: Seq<char>, r: Result<Option<(int, ExprView)>, (int, ParseErrorKind)>) -> Result<
    Option<(int, ExprView)>,
    (int, ParseErrorKind),
> {
    match r {
        Ok(Some((q, v))) => Ok(Some((space_end(s, q), v))),
        _ => r,
    }
}

pub open spec fn parsed_as(
    r: Result<Option<(usize, Expression)>, ParseError>,
    g: Result<Option<(int, ExprView)>, (int, ParseErrorKind)>,
) -> bool {
    match (r, g) {
        (Err(e), Err((p, k))) => e.position as int == p && e.kind == k,
        (Ok(None), Ok(None)) => true,
        (Ok(Some((p, e))), Ok(Some((q, v)))) => p as int == q && e@ == v,
        _ => false,
    }
}

/// An expression: `if`, `case`, a destructuring `let`, a lambda, a tail call,
/// an application, an operator expression or an atom, the first that matches.
pub open spec fn expression_at(s: Seq<char>, pos: int) -> Result<Option<(int, ExprView)>, (int, ParseErrorKind)>
    decreases s.len() - pos, 9nat,
{
    if pos < 0 || pos >= s.len() {
        Err((pos, ParseErrorKind::EmptyExpression))
    } else if s[pos] == ')' {
        Err((pos, ParseErrorKind::UnmatchedClosingBracket))
    } else {
        let p = space_end(s, pos);
        if !(pos <= p <= s.len()) {
            Ok(None)
        } else {
            first_of(
                if_at(s, p),
                first_of(
                    case_at(s, p),
                    first_of(
                        deconstruct_at(s, p),
                        first_of(
                            abstraction_at(s, p),
                            first_of(
                                tailcall_at(s, p),
                                first_of(application_at(s, p), first_of(bottom_at(s, p), atom_at(s, p))),
                            ),
                        ),
                    ),
                ),
            )
        }
    }
}

/// `if c then a else b`
pub open spec fn if_at(s: Seq<char>, pos: int) -> Result<Option<(int, ExprView)>, (int, ParseErrorKind)>
    decreases s.len() - pos, 8nat,
{
    match keyword_at(s, pos, "if"@) {
        None => Ok(None),
        Some(p1) => if !(pos < p1 <= s.len()) {
            Ok(None)
        } else {
            match fwd(expression_at(s, p1), p1, s.len() as int) {
                Err(e) => Err(e),
                Ok(None) => Ok(None),
                Ok(Some((p2, c))) => match keyword_at(s, p2, "then"@) {
                    None => Ok(None),
                    Some(p3) => if !(p2 < p3 <= s.len()) {
                        Ok(None)
                    } else {
                        match fwd(expression_at(s, p3), p3, s.len() as int) {
                            Err(e) => Err(e),
                            Ok(None) => Ok(None),
                            Ok(Some((p4, a))) => match keyword_at(s, p4, "else"@) {
                                None => Ok(None),
                                Some(p5) => if !(p4 < p5 <= s.len()) {
                                    Ok(None)
                                } else {
                                    match fwd(expression_at(s, p5), p5, s.len() as int) {
                                        Err(e) => Err(e),
                                        Ok(None) => Ok(None),
                                        Ok(Some((p6, b))) => Ok(
                                            Some((p6, ExprView::IfThenElse(Box::new(c), Box::new(a), Box::new(b)))),
                                        ),
                                    }
                                },
                            },
                        }
                    },
                },
            }
        },
    }
}

/// The arms `| C(x, ..) => e` from `p` on.
pub open spec fn arms_at(s: Seq<char>, p: int) -> Result<(int, Seq<ConstructorView>, Seq<ExprView>), (int, ParseErrorKind)>
    decreases s.len() - p, 0nat,
{
    let none = Ok((p, Seq::empty(), Seq::empty()));
    if p < 0 || p >= s.len() {
        none
    } else {
        match token_at(s, p, "|"@) {
            None => none,
            Some(q) => if !(p < q <= s.len()) {
                none
            } else {
                match constructor_declaration_at(s, q) {
                    None => none,
                    Some((q2, pat)) => if !(q < q2 <= s.len()) {
                        none
                    } else {
                        match tag_at(s, q2, "=>"@) {
                            None => none,
                            Some(q2b) => if !(q2 < q2b <= s.len()) {
                                none
                            } else {
                                match fwd(expression_at(s, q2b), q2b, s.len() as int) {
                                    Err(e) => Err(e),
                                    Ok(None) => none,
                                    Ok(Some((q3, body))) => match arms_at(s, q3) {
                                        Err(e) => Err(e),
                                        Ok((r, ps, bs)) => Ok((r, seq![pat] + ps, seq![body] + bs)),
                                    },
                                }
                            },
                        }
                    },
                }
            },
        }
    }
}

/// `case v of | C(x, ..) => e ..`, with at least one arm.
pub open spec fn case_at(s: Seq<char>, pos: int) -> Result<Option<(int, ExprView)>, (int, ParseErrorKind)>
    decreases s.len() - pos, 8nat,
{
    match keyword_at(s, pos, "case"@) {
        None => Ok(None),
        Some(p1) => if !(pos < p1 <= s.len()) {
            Ok(None)
        } else {
            match fwd(expression_at(s, p1), p1, s.len() as int) {
                Err(e) => Err(e),
                Ok(None) => Ok(None),
                Ok(Some((p2, v))) => match keyword_at(s, p2, "of"@) {
                    None => Ok(None),
                    Some(p3) => if !(p2 < p3 <= s.len()) {
                        Ok(None)
                    } else {
                        match arms_at(s, p3) {
                            Err(e) => Err(e),
                            Ok((r, ps, bs)) => if ps.len() == 0 {
                                Ok(None)
                            } else {
                                Ok(Some((r, ExprView::CaseOf(None, Box::new(v), ps, bs))))
                            },
                        }
                    },
                },
            }
        },
    }
}

/// `let C(x, ..) = v in body`
pub open spec fn deconstruct_at(s: Seq<char>, pos: int) -> Result<Option<(int, ExprView)>, (int, ParseErrorKind)>
    decreases s.len() - pos, 8nat,
{
    match keyword_at(s, pos, "let"@) {
        None => Ok(None),
        Some(p1) => match constructor_declaration_at(s, p1) {
            None => Ok(None),
            Some((p2, c)) => match token_at(s, p2, "="@) {
                None => Ok(None),
                Some(p3) => if !(pos < p3 <= s.len()) {
                    Ok(None)
                } else {
                    match fwd(expression_at(s, p3), p3, s.len() as int) {
                        Err(e) => Err(e),
                        Ok(None) => Ok(None),
                        Ok(Some((p4, v))) => match keyword_at(s, p4, "in"@) {
                            None => Ok(None),
                            Some(p5) => if !(p4 < p5 <= s.len()) {
                                Ok(None)
                            } else {
                                match fwd(expression_at(s, p5), p5, s.len() as int) {
                                    Err(e) => Err(e),
                                    Ok(None) => Ok(None),
                                    Ok(Some((p6, b))) => Ok(
                                        Some(
                                            (
                                                p6,
                                                ExprView::Deconstruct(None, c.name, c.members, Box::new(v), Box::new(b)),
                                            ),
                                        ),
                                    ),
                                }
                            },
                        },
                    }
                },
            },
        },
    }
}

/// `x.body`
pub open spec fn abstraction_at(s: Seq<char>, pos: int) -> Result<Option<(int, ExprView)>, (int, ParseErrorKind)>
    decreases s.len() - pos, 0nat,
{
    match identifier_at(s, pos) {
        None => Ok(None),
        Some(e) => match tag_at(s, e, "."@) {
            None => Ok(None),
            Some(q) => if !(pos < q <= s.len()) {
                Ok(None)
            } else {
                match fwd(expression_at(s, q), q, s.len() as int) {
                    Err(x) => Err(x),
                    Ok(None) => Ok(None),
                    Ok(Some((p2, b))) => Ok(Some((p2, ExprView::Lambda(identifier_name(s, pos, e), Box::new(b))))),
                }
            },
        },
    }
}

/// Atoms from `p` on, as many as follow.
pub open spec fn atoms_at(s: Seq<char>, p: int) -> Result<(int, Seq<ExprView>), (int, ParseErrorKind)>
    decreases s.len() - p, 3nat,
{
    if p < 0 || p >= s.len() {
        Ok((p, Seq::empty()))
    } else {
        match fwd(atom_at(s, p), p, s.len() as int) {
            Err(e) => Err(e),
            Ok(None) => Ok((p, Seq::empty())),
            Ok(Some((q, a))) => match atoms_at(s, q) {
                Err(e) => Err(e),
                Ok((r, rest)) => Ok((r, seq![a] + rest)),
            },
        }
    }
}

/// `rec a1 .. an`, with at least one argument.
pub open spec fn tailcall_at(s: Seq<char>, pos: int) -> Result<Option<(int, ExprView)>, (int, ParseErrorKind)>
    decreases s.len() - pos, 8nat,
{
    match keyword_at(s, pos, "rec"@) {
        None => Ok(None),
        Some(p1) => if !(pos < p1 <= s.len()) {
            Ok(None)
        } else {
            match atoms_at(s, p1) {
                Err(e) => Err(e),
                Ok((p2, args)) => if args.len() == 0 {
                    Ok(None)
                } else {
                    Ok(Some((p2, ExprView::TailCall(args))))
                },
            }
        },
    }
}

/// `f a1 .. an`, with at least one argument, applied from the left.
pub open spec fn application_at(s: Seq<char>, pos: int) -> Result<Option<(int, ExprView)>, (int, ParseErrorKind)>
    decreases s.len() - pos, 8nat,
{
    match fwd(atom_at(s, pos), pos, s.len() as int) {
        Err(e) => Err(e),
        Ok(None) => Ok(None),
        Ok(Some((p1, f))) => match atoms_at(s, p1) {
            Err(e) => Err(e),
            Ok((p2, args)) => if args.len() == 0 {
                Ok(None)
            } else {
                Ok(Some((p2, crate::rewrite::app_chain(f, args))))
            },
        },
    }
}

/// `a || b`, grouped to the right.
pub open spec fn bottom_at(s: Seq<char>, pos: int) -> Result<Option<(int, ExprView)>, (int, ParseErrorKind)>
    decreases s.len() - pos, 7nat,
{
    match fwd(low_at(s, pos), pos, s.len() as int) {
        Err(e) => Err(e),
        Ok(None) => Ok(None),
        Ok(Some((p1, l))) => match tag_at(s, p1, "||"@) {
            None => Ok(Some((p1, l))),
            Some(q) => if !(p1 < q <= s.len()) {
                Ok(Some((p1, l)))
            } else {
                match fwd(bottom_at(s, q), q, s.len() as int) {
                    Err(e) => Err(e),
                    Ok(None) => Ok(Some((p1, l))),
                    Ok(Some((p2, r))) => Ok(Some((p2, ExprView::Binary(BinaryOp::Or, Box::new(l), Box::new(r))))),
                }
            },
        },
    }
}

/// `a && b`, grouped to the right.
pub open spec fn low_at(s: Seq<char>, pos: int) -> Result<Option<(int, ExprView)>, (int, ParseErrorKind)>
    decreases s.len() - pos, 6nat,
{
    match fwd(mid_at(s, pos), pos, s.len() as int) {
        Err(e) => Err(e),
        Ok(None) => Ok(None),
        Ok(Some((p1, l))) => match tag_at(s, p1, "&&"@) {
            None => Ok(Some((p1, l))),
            Some(q) => if !(p1 < q <= s.len()) {
                Ok(Some((p1, l)))
            } else {
                match fwd(low_at(s, q), q, s.len() as int) {
                    Err(e) => Err(e),
                    Ok(None) => Ok(Some((p1, l))),
                    Ok(Some((p2, r))) => Ok(Some((p2, ExprView::Binary(BinaryOp::And, Box::new(l), Box::new(r))))),
                }
            },
        },
    }
}

/// The comparison operator at `pos`, if any, and the position after it.
pub open spec fn comparison_at(s: Seq<char>, pos: int) -> Option<(int, BinaryOp)> {
    if let Some(q) = tag_at(s, pos, "=="@) {
        Some((q, BinaryOp::Equal))
    } else if let Some(q) = tag_at(s, pos, "!="@) {
        Some((q, BinaryOp::NotEqual))
    } else if let Some(q) = tag_at(s, pos, ">="@) {
        Some((q, BinaryOp::GreaterEqual))
    } else if let Some(q) = tag_at(s, pos, ">"@) {
        Some((q, BinaryOp::Greater))
    } else if let Some(q) = tag_at(s, pos, "<="@) {
        Some((q, BinaryOp::LessEqual))
    } else if let Some(q) = tag_at(s, pos, "<"@) {
        Some((q, BinaryOp::Less))
    } else {
        None
    }
}

/// A comparison, grouped to the right.
pub open spec fn mid_at(s: Seq<char>, pos: int) -> Result<Option<(int, ExprView)>, (int, ParseErrorKind)>
    decreases s.len() - pos, 5nat,
{
    match fwd(high_at(s, pos), pos, s.len() as int) {
        Err(e) => Err(e),
        Ok(None) => Ok(None),
        Ok(Some((p1, l))) => match comparison_at(s, p1) {
            None => Ok(Some((p1, l))),
            Some((q, op)) => if !(p1 < q <= s.len()) {
                Ok(Some((p1, l)))
            } else {
                match fwd(mid_at(s, q), q, s.len() as int) {
                    Err(e) => Err(e),
                    Ok(None) => Ok(Some((p1, l))),
                    Ok(Some((p2, r))) => Ok(Some((p2, ExprView::Binary(op, Box::new(l), Box::new(r))))),
                }
            },
        },
    }
}

/// `acc + b - c ..` from `p` on, grouped to the left.
pub open spec fn high_rest(s: Seq<char>, p: int, acc: ExprView) -> Result<(int, ExprView), (int, ParseErrorKind)>
    decreases s.len() - p, 0nat,
{
    if p < 0 || p >= s.len() || !(s[p] == '+' || s[p] == '-') {
        Ok((p, acc))
    } else {
        let op = if s[p] == '+' {
            BinaryOp::Add
        } else {
            BinaryOp::Subtract
        };
        match fwd(top_at(s, p + 1), p + 1, s.len() as int) {
            Err(e) => Err(e),
            Ok(None) => Ok((p, acc)),
            Ok(Some((q, r))) => high_rest(s, q, ExprView::Binary(op, Box::new(acc), Box::new(r))),
        }
    }
}

/// `a + b - c`, grouped to the left.
pub open spec fn high_at(s: Seq<char>, pos: int) -> Result<Option<(int, ExprView)>, (int, ParseErrorKind)>
    decreases s.len() - pos, 4nat,
{
    match fwd(top_at(s, pos), pos, s.len() as int) {
        Err(e) => Err(e),
        Ok(None) => Ok(None),
        Ok(Some((p1, l))) => match high_rest(s, p1, l) {
            Err(e) => Err(e),
            Ok((p2, v)) => Ok(Some((p2, v))),
        },
    }
}

/// `acc * b / c ..` from `p` on, grouped to the left.
pub open spec fn top_rest(s: Seq<char>, p: int, acc: ExprView) -> Result<(int, ExprView), (int, ParseErrorKind)>
    decreases s.len() - p, 0nat,
{
    if p < 0 || p >= s.len() || !(s[p] == '*' || s[p] == '/') {
        Ok((p, acc))
    } else {
        let op = if s[p] == '*' {
            BinaryOp::Multiply
        } else {
            BinaryOp::Divide
        };
        match fwd(atom_at(s, p + 1), p + 1, s.len() as int) {
            Err(e) => Err(e),
            Ok(None) => Ok((p, acc)),
            Ok(Some((q, r))) => top_rest(s, q, ExprView::Binary(op, Box::new(acc), Box::new(r))),
        }
    }
}

/// `a * b / c`, grouped to the left.
pub open spec fn top_at(s: Seq<char>, pos: int) -> Result<Option<(int, ExprView)>, (int, ParseErrorKind)>
    decreases s.len() - pos, 3nat,
{
    match fwd(atom_at(s, pos), pos, s.len() as int) {
        Err(e) => Err(e),
        Ok(None) => Ok(None),
        Ok(Some((p1, l))) => match top_rest(s, p1, l) {
            Err(e) => Err(e),
            Ok((p2, v)) => Ok(Some((p2, v))),
        },
    }
}

/// A `-` that negates: one with no space after it.
pub open spec fn negation_at(s: Seq<char>, p: int) -> bool {
    0 <= p && p + 1 < s.len() && s[p] == '-' && !is_space(s[p + 1])
}

/// An atom, with the spaces around it: `-a`, `!a`, a list, a table, a number,
/// a string, a lambda, a constructor call, an identifier or `(e)`, the first
/// that matches.
pub open spec fn atom_at(s: Seq<char>, pos: int) -> Result<Option<(int, ExprView)>, (int, ParseErrorKind)>
    decreases s.len() - pos, 2nat,
{
    let p = space_end(s, pos);
    if !(pos <= p <= s.len()) {
        Ok(None)
    } else {
        let prefix = if p < s.len() && (s[p] == '!' || negation_at(s, p)) {
            match fwd(atom_at(s, p + 1), p + 1, s.len() as int) {
                Err(e) => Err(e),
                Ok(None) => Ok(None),
                Ok(Some((q, inner))) => Ok(
                    Some(
                        (
                            space_end(s, q),
                            ExprView::Unary(
                                if s[p] == '!' {
                                    UnaryOp::Not
                                } else {
                                    UnaryOp::Negate
                                },
                                Box::new(inner),
                            ),
                        ),
                    ),
                ),
            }
        } else {
            Ok(None)
        };
        let number = match number_end(s, p) {
            Some(e) => Ok(Some((space_end(s, e), ExprView::Number(s.subrange(p, e))))),
            None => Ok(None),
        };
        let string = if p < s.len() && s[p] == '"' {
            match string_end(s, p + 1) {
                Some(e) => Ok(Some((space_end(s, e), ExprView::Str(unescape(s, p + 1, e - 1))))),
                None => Ok(None),
            }
        } else {
            Ok(None)
        };
        let ident = match identifier_at(s, p) {
            Some(e) => Ok(Some((space_end(s, e), ExprView::Identifier(identifier_name(s, p, e))))),
            None => Ok(None),
        };
        let paren = match token_at(s, p, "("@) {
            None => Ok(None),
            Some(q) => if !(p < q <= s.len()) {
                Ok(None)
            } else {
                match fwd(expression_at(s, q), q, s.len() as int) {
                    Err(e) => Err(e),
                    Ok(None) => Ok(None),
                    Ok(Some((q2, e))) => match token_at(s, q2, ")"@) {
                        Some(q3) => Ok(Some((q3, e))),
                        None => Ok(None),
                    },
                }
            },
        };
        first_of(
            prefix,
            first_of(
                trail(s, list_at(s, p)),
                first_of(
                    trail(s, table_at(s, p)),
                    first_of(
                        number,
                        first_of(
                            string,
                            first_of(
                                trail(s, abstraction_at(s, p)),
                                first_of(trail(s, constructor_instance_at(s, p)), first_of(ident, paren)),
                            ),
                        ),
                    ),
                ),
            ),
        )
    }
}

/// `, a` repeated from `p` on.
pub open spec fn list_rest(s: Seq<char>, p: int) -> Result<(int, Seq<ExprView>), (int, ParseErrorKind)>
    decreases s.len() - p, 0nat,
{
    if p < 0 || p >= s.len() {
        Ok((p, Seq::empty()))
    } else {
        match token_at(s, p, ","@) {
            None => Ok((p, Seq::empty())),
            Some(q1) => if !(p < q1 <= s.len()) {
                Ok((p, Seq::empty()))
            } else {
                match fwd(atom_at(s, q1), q1, s.len() as int) {
                    Err(e) => Err(e),
                    Ok(None) => Ok((p, Seq::empty())),
                    Ok(Some((q2, it))) => match list_rest(s, q2) {
                        Err(e) => Err(e),
                        Ok((r, rest)) => Ok((r, seq![it] + rest)),
                    },
                }
            },
        }
    }
}

/// `[a1, a2, ..]`
pub open spec fn list_at(s: Seq<char>, pos: int) -> Result<Option<(int, ExprView)>, (int, ParseErrorKind)>
    decreases s.len() - pos, 1nat,
{
    match token_at(s, pos, "["@) {
        None => Ok(None),
        Some(p) => if !(pos < p <= s.len()) {
            Ok(None)
        } else {
            let items = match fwd(atom_at(s, p), p, s.len() as int) {
                Err(e) => Err(e),
                Ok(None) => Ok((p, Seq::empty())),
                Ok(Some((q, a))) => match list_rest(s, q) {
                    Err(e) => Err(e),
                    Ok((r, rest)) => Ok((r, seq![a] + rest)),
                },
            };
            match items {
                Err(e) => Err(e),
                Ok((r, its)) => match token_at(s, r, "]"@) {
                    Some(q) => Ok(Some((q, ExprView::List(its)))),
                    None => Ok(None),
                },
            }
        },
    }
}

/// The first position from `j` on whose key does not come before `k`.
pub open spec fn key_slot(ks: Seq<Seq<char>>, k: Seq<char>, j: int) -> int
    decreases ks.len() - j,
{
    if j < 0 || j >= ks.len() {
        ks.len() as int
    } else if text_less(ks[j], k) {
        key_slot(ks, k, j + 1)
    } else {
        j
    }
}

/// The table with `v` under `k`: a new key goes in its place in the order, a
/// key already there gets the new value.
pub open spec fn table_put<V>(ks: Seq<Seq<char>>, vs: Seq<V>, k: Seq<char>, v: V) -> (Seq<Seq<char>>, Seq<V>) {
    let j = key_slot(ks, k, 0);
    if j < ks.len() && ks[j] == k {
        (ks, vs.update(j, v))
    } else {
        (ks.insert(j, k), vs.insert(j, v))
    }
}

pub proof fn lemma_key_slot(ks: Seq<Seq<char>>, k: Seq<char>, j: int)
    requires
        0 <= j <= ks.len(),
        forall|i: int| 0 <= i < j ==> text_less(#[trigger] ks[i], k),
    ensures
        j <= key_slot(ks, k, j) <= ks.len(),
        forall|i: int| 0 <= i < key_slot(ks, k, j) ==> text_less(#[trigger] ks[i], k),
        key_slot(ks, k, j) < ks.len() ==> !text_less(ks[key_slot(ks, k, j)], k),
    decreases ks.len() - j,
{
    if j < ks.len() && text_less(ks[j], k) {
        lemma_key_slot(ks, k, j + 1);
    }
}

/// Putting an entry keeps the keys ascending and as many as the values.
pub proof fn lemma_table_put_ascending<V>(ks: Seq<Seq<char>>, vs: Seq<V>, k: Seq<char>, v: V)
    requires
        ascending(ks),
    ensures
        ascending(table_put(ks, vs, k, v).0),
        ks.len() == vs.len() ==> table_put(ks, vs, k, v).0.len() == table_put(ks, vs, k, v).1.len(),
{
    lemma_key_slot(ks, k, 0);
    let j = key_slot(ks, k, 0);
    if !(j < ks.len() && ks[j] == k) {
        if j < ks.len() {
            lemma_text_less_total(ks[j], k);
        }
        let nk = ks.insert(j, k);
        assert forall|a: int, b: int| 0 <= a < b < nk.len() implies text_less(#[trigger] nk[a], #[trigger] nk[b]) by {
            if b < j {
            } else if b == j {
                assert(nk[a] == ks[a]);
            } else if a < j {
                assert(nk[b] == ks[b - 1]);
                if b - 1 > j {
                    assert(text_less(ks[j], ks[b - 1]));
                    lemma_text_less_transitive(k, ks[j], ks[b - 1]);
                }
                lemma_text_less_transitive(ks[a], k, ks[b - 1]);
            } else if a == j {
                assert(nk[b] == ks[b - 1]);
                if b - 1 > j {
                    assert(text_less(ks[j], ks[b - 1]));
                    lemma_text_less_transitive(k, ks[j], ks[b - 1]);
                }
            } else {
                assert(nk[a] == ks[a - 1] && nk[b] == ks[b - 1]);
            }
        }
    }
}

/// The entries `"k": a` from `p` on, separated by commas (none before the first).
pub open spec fn entries_at(s: Seq<char>, p: int, first: bool, ks: Seq<Seq<char>>, vs: Seq<ExprView>) -> Result<
    (int, Seq<Seq<char>>, Seq<ExprView>),
    (int, ParseErrorKind),
>
    decreases s.len() - p, 0nat,
{
    let stop = Ok((p, ks, vs));
    if p < 0 || p >= s.len() {
        stop
    } else {
        let q0 = if first {
            Some(p)
        } else {
            token_at(s, p, ","@)
        };
        match q0 {
            None => stop,
            Some(q0) => if !(p <= q0 < s.len() && s[q0] == '"') {
                stop
            } else {
                match string_end(s, q0 + 1) {
                    None => stop,
                    Some(q1) => match token_at(s, q1, ":"@) {
                        None => stop,
                        Some(q2) => if !(p < q2 <= s.len()) {
                            stop
                        } else {
                            match fwd(atom_at(s, q2), q2, s.len() as int) {
                                Err(e) => Err(e),
                                Ok(None) => stop,
                                Ok(Some((q3, v))) => {
                                    let t = table_put(ks, vs, unescape(s, q0 + 1, q1 - 1), v);
                                    entries_at(s, q3, false, t.0, t.1)
                                },
                            }
                        },
                    },
                }
            },
        }
    }
}

/// `{"k1": a1, "k2": a2, ..}`
pub open spec fn table_at(s: Seq<char>, pos: int) -> Result<Option<(int, ExprView)>, (int, ParseErrorKind)>
    decreases s.len() - pos, 1nat,
{
    match token_at(s, pos, "{"@) {
        None => Ok(None),
        Some(p) => if !(pos < p <= s.len()) {
            Ok(None)
        } else {
            match entries_at(s, p, true, Seq::empty(), Seq::empty()) {
                Err(e) => Err(e),
                Ok((r, ks, vs)) => match token_at(s, r, "}"@) {
                    Some(q) => Ok(Some((q, ExprView::Table(ks, vs)))),
                    None => Ok(None),
                },
            }
        },
    }
}

/// `, e` repeated from `p` on.
pub open spec fn args_rest(s: Seq<char>, p: int) -> Result<(int, Seq<ExprView>), (int, ParseErrorKind)>
    decreases s.len() - p, 0nat,
{
    if p < 0 || p >= s.len() {
        Ok((p, Seq::empty()))
    } else {
        match token_at(s, p, ","@) {
            None => Ok((p, Seq::empty())),
            Some(q1) => if !(p < q1 <= s.len()) {
                Ok((p, Seq::empty()))
            } else {
                match fwd(expression_at(s, q1), q1, s.len() as int) {
                    Err(e) => Err(e),
                    Ok(None) => Ok((p, Seq::empty())),
                    Ok(Some((q2, it))) => match args_rest(s, q2) {
                        Err(e) => Err(e),
                        Ok((r, rest)) => Ok((r, seq![it] + rest)),
                    },
                }
            },
        }
    }
}

/// `C(e1, e2, ..)` with at least two arguments.
pub open spec fn constructor_instance_at(s: Seq<char>, pos: int) -> Result<Option<(int, ExprView)>, (int, ParseErrorKind)>
    decreases s.len() - pos, 1nat,
{
    match identifier_at(s, pos) {
        None => Ok(None),
        Some(e) => match token_at(s, e, "("@) {
            None => Ok(None),
            Some(p) => if !(pos < p <= s.len()) {
                Ok(None)
            } else {
                let args = match fwd(expression_at(s, p), p, s.len() as int) {
                    Err(x) => Err(x),
                    Ok(None) => Ok((p, Seq::empty())),
                    Ok(Some((q, a))) => match args_rest(s, q) {
                        Err(x) => Err(x),
                        Ok((r, rest)) => Ok((r, seq![a] + rest)),
                    },
                };
                match args {
                    Err(x) => Err(x),
                    Ok((r, xs)) => match token_at(s, r, ")"@) {
                        None => Ok(None),
                        Some(q) => if xs.len() <= 1 {
                            Ok(None)
                        } else {
                            Ok(Some((q, ExprView::Construct(None, identifier_name(s, pos, e), xs))))
                        },
                    },
                }
            },
        },
    }
}

pub open spec fn seq_parsed(
    r: Result<(usize, Vec<Expression>), ParseError>,
    g: Result<(int, Seq<ExprView>), (int, ParseErrorKind)>,
) -> bool {
    match (r, g) {
        (Err(e), Err((p, k))) => e.position as int == p && e.kind == k,
        (Ok((p, v)), Ok((q, w))) => p as int == q && exprs_view(v@) == w,
        _ => false,
    }
}

pub open spec fn one_parsed(
    r: Result<(usize, Expression), ParseError>,
    g: Result<(int, ExprView), (int, ParseErrorKind)>,
) -> bool {
    match (r, g) {
        (Err(e), Err((p, k))) => e.position as int == p && e.kind == k,
        (Ok((p, v)), Ok((q, w))) => p as int == q && v@ == w,
        _ => false,
    }
}

fn no_match<T>() -> (r: Result<Option<(usize, T)>, ParseError>)
    ensures
        r == Ok::<Option<(usize, T)>, ParseError>(None),
{
    Ok(None)
}

/// `e1 op e2`: the binary expression node.
fn binary(op: BinaryOp, a: Expression, b: Expression) -> (r: Expression)
    ensures
        r@ == ExprView::Binary(op, Box::new(a@), Box::new(b@)),
{
    Expression::Binary(op, Box::new(a), Box::new(b))
}

fn prepend(a: Expression, mut rest: Vec<Expression>) -> (r: Vec<Expression>)
    ensures
        exprs_view(r@) == seq![a@] + exprs_view(rest@),
{
    let ghost before = rest@;
    rest.insert(0, a);
    proof {
        lemma_exprs_view(rest@);
        lemma_exprs_view(before);
    }
    assert(exprs_view(rest@) =~= seq![rest@[0]@] + exprs_view(before));
    rest
}

fn empty_exprs() -> (r: Vec<Expression>)
    ensures
        exprs_view(r@) == Seq::<ExprView>::empty(),
        r@.len() == 0,
{
    let v: Vec<Expression> = Vec::new();
    proof {
        lemma_exprs_view(v@);
    }
    assert(exprs_view(v@) =~= Seq::<ExprView>::empty());
    v
}

/// An expression (see `expression_at`).
pub fn parse_expression_at(src: &Source, pos: usize) -> (r: Result<Option<(usize, Expression)>, ParseError>)
    requires
        src.wf(),
        pos <= src.len(),
    ensures
        advanced(r, pos as int, src.len()),
        parsed_as(r, expression_at(src.chars@, pos as int)),
        pos == src.len() ==> r is Err,
    decreases src.len() - pos, 9nat,
{
    if pos >= src.chars.len() {
        return Err(ParseError { position: pos, kind: ParseErrorKind::EmptyExpression });
    }
    if src.chars[pos] == ')' {
        return Err(ParseError { position: pos, kind: ParseErrorKind::UnmatchedClosingBracket });
    }
    let p = sp(src, pos);
    if let Some(x) = parse_if_then_else(src, p)? {
        return Ok(Some(x));
    }
    if let Some(x) = parse_case_of(src, p)? {
        return Ok(Some(x));
    }
    if let Some(x) = parse_deconstruct(src, p)? {
        return Ok(Some(x));
    }
    if let Some(x) = parse_abstraction(src, p)? {
        return Ok(Some(x));
    }
    if let Some(x) = parse_tailcall(src, p)? {
        return Ok(Some(x));
    }
    if let Some(x) = parse_application(src, p)? {
        return Ok(Some(x));
    }
    if let Some(x) = parse_bottom_precedence(src, p)? {
        return Ok(Some(x));
    }
    parse_atom(src, p)
}

/// `if c then a else b`
pub fn parse_if_then_else(src: &Source, pos: usize) -> (r: Result<Option<(usize, Expression)>, ParseError>)
    requires
        src.wf(),
        pos <= src.len(),
    ensures
        advanced(r, pos as int, src.len()),
        parsed_as(r, if_at(src.chars@, pos as int)),
        r matches Ok(Some((_, e))) ==> e is IfThenElse,
    decreases src.len() - pos, 8nat,
{
    let p1 = match keyword(src, pos, "if") {
        Some(p) => p,
        None => return no_match(),
    };
    let (p2, c) = match parse_expression_at(src, p1)? {
        Some(x) => x,
        None => return no_match(),
    };
    let p3 = match keyword(src, p2, "then") {
        Some(p) => p,
        None => return no_match(),
    };
    let (p4, a) = match parse_expression_at(src, p3)? {
        Some(x) => x,
        None => return no_match(),
    };
    let p5 = match keyword(src, p4, "else") {
        Some(p) => p,
        None => return no_match(),
    };
    let (p6, b) = match parse_expression_at(src, p5)? {
        Some(x) => x,
        None => return no_match(),
    };
    Ok(
        Some(
            (
                p6,
                Expression::IfThenElse {
                    condition: Box::new(c),
                    then_case: Box::new(a),
                    else_case: Box::new(b),
                },
            ),
        ),
    )
}

/// The arms `| C(x, ..) => e` from `p` on.
fn parse_arms(src: &Source, p: usize) -> (r: Result<(usize, Vec<Constructor>, Vec<Expression>), ParseError>)
    requires
        src.wf(),
        p <= src.len(),
    ensures
        match (r, arms_at(src.chars@, p as int)) {
            (Err(e), Err((q, k))) => e.position as int == q && e.kind == k,
            (Ok((q, ps, bs)), Ok((q2, pv, bv))) => q as int == q2 && crate::ast::cons_seq_view(ps@) == pv
                && exprs_view(bs@) == bv && p <= q <= src.len(),
            _ => false,
        },
    decreases src.len() - p, 0nat,
{
    let none_p: Vec<Constructor> = Vec::new();
    assert(crate::ast::cons_seq_view(none_p@) =~= Seq::<ConstructorView>::empty());
    if p >= src.chars.len() {
        return Ok((p, none_p, empty_exprs()));
    }
    let q = match token(src, p, "|") {
        Some(q) => q,
        None => return Ok((p, none_p, empty_exprs())),
    };
    let (q2, pattern) = match parse_constructor_declaration(src, q) {
        Some(x) => x,
        None => return Ok((p, none_p, empty_exprs())),
    };
    let q2b = match tag_end(src, q2, "=>") {
        Some(x) => x,
        None => return Ok((p, none_p, empty_exprs())),
    };
    let (q3, body) = match parse_expression_at(src, q2b)? {
        Some(x) => x,
        None => return Ok((p, none_p, empty_exprs())),
    };
    let (r, mut ps, bs) = parse_arms(src, q3)?;
    let ghost pv = crate::ast::cons_seq_view(ps@);
    let ghost pat = pattern@;
    ps.insert(0, pattern);
    assert(crate::ast::cons_seq_view(ps@) =~= seq![pat] + pv);
    Ok((r, ps, prepend(body, bs)))
}

/// `case v of | C(x, ..) => e ..`, with at least one arm.
pub fn parse_case_of(src: &Source, pos: usize) -> (r: Result<Option<(usize, Expression)>, ParseError>)
    requires
        src.wf(),
        pos <= src.len(),
    ensures
        advanced(r, pos as int, src.len()),
        parsed_as(r, case_at(src.chars@, pos as int)),
    decreases src.len() - pos, 8nat,
{
    let p1 = match keyword(src, pos, "case") {
        Some(p) => p,
        None => return no_match(),
    };
    let (p2, value) = match parse_expression_at(src, p1)? {
        Some(x) => x,
        None => return no_match(),
    };
    let p3 = match keyword(src, p2, "of") {
        Some(p) => p,
        None => return no_match(),
    };
    let (r, patterns, bodies) = parse_arms(src, p3)?;
    if patterns.len() == 0 {
        return no_match();
    }
    Ok(Some((r, Expression::CaseOf { data_type: None, value: Box::new(value), patterns, bodies })))
}

/// `let C(x, ..) = v in body`
pub fn parse_deconstruct(src: &Source, pos: usize) -> (r: Result<Option<(usize, Expression)>, ParseError>)
    requires
        src.wf(),
        pos <= src.len(),
    ensures
        advanced(r, pos as int, src.len()),
        parsed_as(r, deconstruct_at(src.chars@, pos as int)),
    decreases src.len() - pos, 8nat,
{
    let p1 = match keyword(src, pos, "let") {
        Some(p) => p,
        None => return no_match(),
    };
    let (p2, cons) = match parse_constructor_declaration(src, p1) {
        Some(x) => x,
        None => return no_match(),
    };
    let p3 = match token(src, p2, "=") {
        Some(p) => p,
        None => return no_match(),
    };
    let (p4, value) = match parse_expression_at(src, p3)? {
        Some(x) => x,
        None => return no_match(),
    };
    let p5 = match keyword(src, p4, "in") {
        Some(p) => p,
        None => return no_match(),
    };
    let (p6, body) = match parse_expression_at(src, p5)? {
        Some(x) => x,
        None => return no_match(),
    };
    Ok(
        Some(
            (
                p6,
                Expression::Deconstruct {
                    data_type: None,
                    cons_name: cons.name,
                    members: cons.members,
                    value: Box::new(value),
                    body: Box::new(body),
                },
            ),
        ),
    )
}

/// `x.body`
pub fn parse_abstraction(src: &Source, pos: usize) -> (r: Result<Option<(usize, Expression)>, ParseError>)
    requires
        src.wf(),
        pos <= src.len(),
    ensures
        advanced(r, pos as int, src.len()),
        parsed_as(r, abstraction_at(src.chars@, pos as int)),
    decreases src.len() - pos, 0nat,
{
    let (p1, var) = match parse_identifier(src, pos) {
        Some(x) => x,
        None => return no_match(),
    };
    let p1 = match tag_end(src, p1, ".") {
        Some(q) => q,
        None => return no_match(),
    };
    let (p2, body) = match parse_expression_at(src, p1)? {
        Some(x) => x,
        None => return no_match(),
    };
    Ok(Some((p2, Expression::Lambda(var, Box::new(body)))))
}

/// Atoms from `pos` on, as many as follow.
fn parse_atoms(src: &Source, pos: usize) -> (r: Result<(usize, Vec<Expression>), ParseError>)
    requires
        src.wf(),
        pos <= src.len(),
    ensures
        seq_parsed(r, atoms_at(src.chars@, pos as int)),
        r matches Ok((p, v)) ==> pos <= p <= src.len() && (v@.len() > 0 ==> pos < p),
    decreases src.len() - pos, 3nat,
{
    if pos >= src.chars.len() {
        return Ok((pos, empty_exprs()));
    }
    match parse_atom(src, pos)? {
        Some((q, a)) => {
            let (r, rest) = parse_atoms(src, q)?;
            Ok((r, prepend(a, rest)))
        },
        None => Ok((pos, empty_exprs())),
    }
}

/// `rec a1 .. an`, with at least one argument.
pub fn parse_tailcall(src: &Source, pos: usize) -> (r: Result<Option<(usize, Expression)>, ParseError>)
    requires
        src.wf(),
        pos <= src.len(),
    ensures
        advanced(r, pos as int, src.len()),
        parsed_as(r, tailcall_at(src.chars@, pos as int)),
    decreases src.len() - pos, 8nat,
{
    let p1 = match keyword(src, pos, "rec") {
        Some(p) => p,
        None => return no_match(),
    };
    let (p2, args) = parse_atoms(src, p1)?;
    if args.len() == 0 {
        return no_match();
    }
    Ok(Some((p2, Expression::TailCall(args))))
}

/// `f a1 .. an`, with at least one argument, applied from the left.
pub fn parse_application(src: &Source, pos: usize) -> (r: Result<Option<(usize, Expression)>, ParseError>)
    requires
        src.wf(),
        pos <= src.len(),
    ensures
        advanced(r, pos as int, src.len()),
        parsed_as(r, application_at(src.chars@, pos as int)),
    decreases src.len() - pos, 8nat,
{
    let (p1, f) = match parse_atom(src, pos)? {
        Some(x) => x,
        None => return no_match(),
    };
    let (p2, args) = parse_atoms(src, p1)?;
    if args.len() == 0 {
        return no_match();
    }
    let ghost av = exprs_view(args@);
    let ghost fv = f@;
    proof {
        lemma_exprs_view(args@);
    }
    let mut result = f;
    let mut i: usize = 0;
    while i < args.len()
        invariant
            i <= args.len(),
            av == exprs_view(args@),
            av.len() == args.len(),
            forall|j: int| 0 <= j < args.len() ==> av[j] == args@[j]@,
            result@ == crate::rewrite::app_chain(fv, av.take(i as int)),
        decreases args.len() - i,
    {
        assert(av.take(i + 1).drop_last() =~= av.take(i as int));
        result = Expression::Application(Box::new(result), Box::new(args[i].duplicate()));
        i += 1;
    }
    assert(av.take(args.len() as int) =~= av);
    Ok(Some((p2, result)))
}

/// An operator expression: `||` binds loosest, then `&&`, the comparisons,
/// `+ -`, and `* /`.
pub fn parse_arithmetic(src: &Source, pos: usize) -> (r: Result<Option<(usize, Expression)>, ParseError>)
    requires
        src.wf(),
        pos <= src.len(),
    ensures
        advanced(r, pos as int, src.len()),
        parsed_as(r, bottom_at(src.chars@, pos as int)),
    decreases src.len() - pos, 8nat,
{
    parse_bottom_precedence(src, pos)
}

/// `a || b`, grouped to the right.
pub fn parse_bottom_precedence(src: &Source, pos: usize) -> (r: Result<Option<(usize, Expression)>, ParseError>)
    requires
        src.wf(),
        pos <= src.len(),
    ensures
        advanced(r, pos as int, src.len()),
        parsed_as(r, bottom_at(src.chars@, pos as int)),
    decreases src.len() - pos, 7nat,
{
    let (p1, left) = match parse_low_precedence(src, pos)? {
        Some(x) => x,
        None => return no_match(),
    };
    if let Some(q) = tag_end(src, p1, "||") {
        if let Some((p2, right)) = parse_bottom_precedence(src, q)? {
            return Ok(Some((p2, binary(BinaryOp::Or, left, right))));
        }
    }
    Ok(Some((p1, left)))
}

/// `a && b`, grouped to the right.
pub fn parse_low_precedence(src: &Source, pos: usize) -> (r: Result<Option<(usize, Expression)>, ParseError>)
    requires
        src.wf(),
        pos <= src.len(),
    ensures
        advanced(r, pos as int, src.len()),
        parsed_as(r, low_at(src.chars@, pos as int)),
    decreases src.len() - pos, 6nat,
{
    let (p1, left) = match parse_mid_precedence(src, pos)? {
        Some(x) => x,
        None => return no_match(),
    };
    if let Some(q) = tag_end(src, p1, "&&") {
        if let Some((p2, right)) = parse_low_precedence(src, q)? {
            return Ok(Some((p2, binary(BinaryOp::And, left, right))));
        }
    }
    Ok(Some((p1, left)))
}

/// The comparison operator at `pos`, if any, and the position after it.
fn comparison(src: &Source, pos: usize) -> (r: Option<(usize, BinaryOp)>)
    requires
        src.wf(),
        pos <= src.len(),
    ensures
        r matches Some((q, _)) ==> pos < q <= src.len(),
        match (r, comparison_at(src.chars@, pos as int)) {
            (Some((q, op)), Some((q2, op2))) => q as int == q2 && op == op2,
            (None, None) => true,
            _ => false,
        },
{
    if let Some(q) = tag_end(src, pos, "==") {
        Some((q, BinaryOp::Equal))
    } else if let Some(q) = tag_end(src, pos, "!=") {
        Some((q, BinaryOp::NotEqual))
    } else if let Some(q) = tag_end(src, pos, ">=") {
        Some((q, BinaryOp::GreaterEqual))
    } else if let Some(q) = tag_end(src, pos, ">") {
        Some((q, BinaryOp::Greater))
    } else if let Some(q) = tag_end(src, pos, "<=") {
        Some((q, BinaryOp::LessEqual))
    } else if let Some(q) = tag_end(src, pos, "<") {
        Some((q, BinaryOp::Less))
    } else {
        None
    }
}

/// A comparison, grouped to the right.
pub fn parse_mid_precedence(src: &Source, pos: usize) -> (r: Result<Option<(usize, Expression)>, ParseError>)
    requires
        src.wf(),
        pos <= src.len(),
    ensures
        advanced(r, pos as int, src.len()),
        parsed_as(r, mid_at(src.chars@, pos as int)),
    decreases src.len() - pos, 5nat,
{
    let (p1, left) = match parse_high_precedence(src, pos)? {
        Some(x) => x,
        None => return no_match(),
    };
    if let Some((q, op)) = comparison(src, p1) {
        if let Some((p2, right)) = parse_mid_precedence(src, q)? {
            return Ok(Some((p2, binary(op, left, right))));
        }
    }
    Ok(Some((p1, left)))
}

fn parse_high_rest(src: &Source, p: usize, acc: Expression) -> (r: Result<(usize, Expression), ParseError>)
    requires
        src.wf(),
        p <= src.len(),
    ensures
        one_parsed(r, high_rest(src.chars@, p as int, acc@)),
        r matches Ok((q, _)) ==> p <= q <= src.len(),
    decreases src.len() - p, 0nat,
{
    if p >= src.chars.len() || !(src.chars[p] == '+' || src.chars[p] == '-') {
        return Ok((p, acc));
    }
    let op = if src.chars[p] == '+' {
        BinaryOp::Add
    } else {
        BinaryOp::Subtract
    };
    match parse_top_precedence(src, p + 1)? {
        Some((q, right)) => parse_high_rest(src, q, binary(op, acc, right)),
        None => Ok((p, acc)),
    }
}

/// `a + b - c`, grouped to the left.
pub fn parse_high_precedence(src: &Source, pos: usize) -> (r: Result<Option<(usize, Expression)>, ParseError>)
    requires
        src.wf(),
        pos <= src.len(),
    ensures
        advanced(r, pos as int, src.len()),
        parsed_as(r, high_at(src.chars@, pos as int)),
    decreases src.len() - pos, 4nat,
{
    let (p1, left) = match parse_top_precedence(src, pos)? {
        Some(x) => x,
        None => return no_match(),
    };
    let (p2, v) = parse_high_rest(src, p1, left)?;
    Ok(Some((p2, v)))
}

fn parse_top_rest(src: &Source, p: usize, acc: Expression) -> (r: Result<(usize, Expression), ParseError>)
    requires
        src.wf(),
        p <= src.len(),
    ensures
        one_parsed(r, top_rest(src.chars@, p as int, acc@)),
        r matches Ok((q, _)) ==> p <= q <= src.len(),
    decreases src.len() - p, 0nat,
{
    if p >= src.chars.len() || !(src.chars[p] == '*' || src.chars[p] == '/') {
        return Ok((p, acc));
    }
    let op = if src.chars[p] == '*' {
        BinaryOp::Multiply
    } else {
        BinaryOp::Divide
    };
    match parse_atom(src, p + 1)? {
        Some((q, right)) => parse_top_rest(src, q, binary(op, acc, right)),
        None => Ok((p, acc)),
    }
}

/// `a * b / c`, grouped to the left.
pub fn parse_top_precedence(src: &Source, pos: usize) -> (r: Result<Option<(usize, Expression)>, ParseError>)
    requires
        src.wf(),
        pos <= src.len(),
    ensures
        advanced(r, pos as int, src.len()),
        parsed_as(r, top_at(src.chars@, pos as int)),
    decreases src.len() - pos, 3nat,
{
    let (p1, left) = match parse_atom(src, pos)? {
        Some(x) => x,
        None => return no_match(),
    };
    let (p2, v) = parse_top_rest(src, p1, left)?;
    Ok(Some((p2, v)))
}

/// An atom (see `atom_at`).
pub fn parse_atom(src: &Source, pos: usize) -> (r: Result<Option<(usize, Expression)>, ParseError>)
    requires
        src.wf(),
        pos <= src.len(),
    ensures
        advanced(r, pos as int, src.len()),
        parsed_as(r, atom_at(src.chars@, pos as int)),
    decreases src.len() - pos, 2nat,
{
    let p = sp(src, pos);
    let len = src.chars.len();
    let negation = p < len && src.chars[p] == '-' && p + 1 < len && !(src.chars[p + 1] == ' '
        || src.chars[p + 1] == '\t' || src.chars[p + 1] == '\r' || src.chars[p + 1] == '\n');
    if p < len && (src.chars[p] == '!' || negation) {
        let is_not = src.chars[p] == '!';
        if let Some((q, inner)) = parse_atom(src, p + 1)? {
            let op = if is_not {
                UnaryOp::Not
            } else {
                UnaryOp::Negate
            };
            return Ok(Some((sp(src, q), Expression::Unary(op, Box::new(inner)))));
        }
    }
    if let Some((q, e)) = parse_list(src, p)? {
        return Ok(Some((sp(src, q), e)));
    }
    if let Some((q, e)) = parse_table(src, p)? {
        return Ok(Some((sp(src, q), e)));
    }
    if let Some((q, n)) = parse_number(src, p) {
        return Ok(Some((sp(src, q), Expression::Number(n))));
    }
    if let Some((q, s)) = parse_string(src, p) {
        return Ok(Some((sp(src, q), Expression::String(s))));
    }
    if let Some((q, e)) = parse_abstraction(src, p)? {
        return Ok(Some((sp(src, q), e)));
    }
    if let Some((q, e)) = parse_constructor_instance(src, p)? {
        return Ok(Some((sp(src, q), e)));
    }
    if let Some((q, name)) = parse_identifier(src, p) {
        return Ok(Some((sp(src, q), Expression::Identifier(name))));
    }
    if let Some(q) = token(src, p, "(") {
        if let Some((q2, e)) = parse_expression_at(src, q)? {
            if let Some(q3) = token(src, q2, ")") {
                return Ok(Some((q3, e)));
            }
        }
    }
    no_match()
}

fn parse_list_rest(src: &Source, p: usize) -> (r: Result<(usize, Vec<Expression>), ParseError>)
    requires
        src.wf(),
        p <= src.len(),
    ensures
        seq_parsed(r, list_rest(src.chars@, p as int)),
        r matches Ok((q, _)) ==> p <= q <= src.len(),
    decreases src.len() - p, 0nat,
{
    if p >= src.chars.len() {
        return Ok((p, empty_exprs()));
    }
    let q1 = match token(src, p, ",") {
        Some(q) => q,
        None => return Ok((p, empty_exprs())),
    };
    match parse_atom(src, q1)? {
        Some((q2, item)) => {
            let (r, rest) = parse_list_rest(src, q2)?;
            Ok((r, prepend(item, rest)))
        },
        None => Ok((p, empty_exprs())),
    }
}

/// `[a1, a2, ..]`
pub fn parse_list(src: &Source, pos: usize) -> (r: Result<Option<(usize, Expression)>, ParseError>)
    requires
        src.wf(),
        pos <= src.len(),
    ensures
        advanced(r, pos as int, src.len()),
        parsed_as(r, list_at(src.chars@, pos as int)),
    decreases src.len() - pos, 1nat,
{
    let p = match token(src, pos, "[") {
        Some(p) => p,
        None => return no_match(),
    };
    let (r, items) = match parse_atom(src, p)? {
        Some((q, first)) => {
            let (r, rest) = parse_list_rest(src, q)?;
            (r, prepend(first, rest))
        },
        None => (p, empty_exprs()),
    };
    match token(src, r, "]") {
        Some(q) => Ok(Some((q, Expression::List(items)))),
        None => no_match(),
    }
}

fn parse_entries(
    src: &Source,
    p: usize,
    first: bool,
    keys: Vec<String>,
    values: Vec<Expression>,
) -> (r: Result<(usize, Vec<String>, Vec<Expression>), ParseError>)
    requires
        src.wf(),
        p <= src.len(),
        keys@.len() == values@.len(),
        ascending(keys.deep_view()),
    ensures
        match (r, entries_at(src.chars@, p as int, first, keys.deep_view(), exprs_view(values@))) {
            (Err(e), Err((q, k))) => e.position as int == q && e.kind == k,
            (Ok((q, ks, vs)), Ok((q2, kv, vv))) => q as int == q2 && ks.deep_view() == kv && exprs_view(vs@)
                == vv && p <= q <= src.len() && ks@.len() == vs@.len() && ascending(ks.deep_view()),
            _ => false,
        },
    decreases src.len() - p, 0nat,
{
    if p >= src.chars.len() {
        return Ok((p, keys, values));
    }
    let q0 = if first {
        p
    } else {
        match token(src, p, ",") {
            Some(q) => q,
            None => return Ok((p, keys, values)),
        }
    };
    let (q1, key) = match parse_string(src, q0) {
        Some(x) => x,
        None => return Ok((p, keys, values)),
    };
    let q2 = match token(src, q1, ":") {
        Some(q) => q,
        None => return Ok((p, keys, values)),
    };
    match parse_atom(src, q2)? {
        Some((q3, value)) => {
            let mut keys = keys;
            let mut values = values;
            insert_entry(&mut keys, &mut values, key, value);
            parse_entries(src, q3, false, keys, values)
        },
        None => Ok((p, keys, values)),
    }
}

/// `{"k1": a1, "k2": a2, ..}`: the keys in ascending order, a repeated key
/// holding its last value.
pub fn parse_table(src: &Source, pos: usize) -> (r: Result<Option<(usize, Expression)>, ParseError>)
    requires
        src.wf(),
        pos <= src.len(),
    ensures
        advanced(r, pos as int, src.len()),
        parsed_as(r, table_at(src.chars@, pos as int)),
        r matches Ok(Some((_, Expression::Table(keys, values)))) ==> table_wf(keys.deep_view(), values@.len()),
    decreases src.len() - pos, 1nat,
{
    let p = match token(src, pos, "{") {
        Some(p) => p,
        None => return no_match(),
    };
    let keys: Vec<String> = Vec::new();
    assert(keys.deep_view() =~= Seq::<Seq<char>>::empty());
    let values = empty_exprs();
    let (r, keys, values) = parse_entries(src, p, true, keys, values)?;
    match token(src, r, "}") {
        Some(q) => Ok(Some((q, Expression::Table(keys, values)))),
        None => no_match(),
    }
}

fn parse_args_rest(src: &Source, p: usize) -> (r: Result<(usize, Vec<Expression>), ParseError>)
    requires
        src.wf(),
        p <= src.len(),
    ensures
        seq_parsed(r, args_rest(src.chars@, p as int)),
        r matches Ok((q, _)) ==> p <= q <= src.len(),
    decreases src.len() - p, 0nat,
{
    if p >= src.chars.len() {
        return Ok((p, empty_exprs()));
    }
    let q1 = match token(src, p, ",") {
        Some(q) => q,
        None => return Ok((p, empty_exprs())),
    };
    match parse_expression_at(src, q1)? {
        Some((q2, item)) => {
            let (r, rest) = parse_args_rest(src, q2)?;
            Ok((r, prepend(item, rest)))
        },
        None => Ok((p, empty_exprs())),
    }
}

/// `C(e1, e2, ..)` with at least two arguments; one argument is an application.
pub fn parse_constructor_instance(src: &Source, pos: usize) -> (r: Result<Option<(usize, Expression)>, ParseError>)
    requires
        src.wf(),
        pos <= src.len(),
    ensures
        advanced(r, pos as int, src.len()),
        parsed_as(r, constructor_instance_at(src.chars@, pos as int)),
    decreases src.len() - pos, 1nat,
{
    let (p1, name) = match parse_identifier(src, pos) {
        Some(x) => x,
        None => return no_match(),
    };
    let p = match token(src, p1, "(") {
        Some(p) => p,
        None => return no_match(),
    };
    let (r, args) = match parse_expression_at(src, p)? {
        Some((q, first)) => {
            let (r, rest) = parse_args_rest(src, q)?;
            (r, prepend(first, rest))
        },
        None => (p, empty_exprs()),
    };
    let end = match token(src, r, ")") {
        Some(q) => q,
        None => return no_match(),
    };
    proof {
        lemma_exprs_view(args@);
    }
    if args.len() <= 1 {
        return no_match();
    }
    Ok(Some((end, Expression::Construct { data_type: None, cons_name: name, members: args })))
}

/// `C` or `C(x, y, ..)`, the spaces around it included.
pub fn parse_constructor_declaration(src: &Source, pos: usize) -> (r: Option<(usize, Constructor)>)
    requires
        src.wf(),
        pos <= src.len(),
    ensures
        r matches Some((p, _)) ==> pos < p <= src.len(),
        match (r, constructor_declaration_at(src.chars@, pos as int)) {
            (Some((p, c)), Some((q, cv))) => p as int == q && c@ == cv,
            (None, None) => true,
            _ => false,
        },
{
    let (p1, name) = match parse_identifier(src, pos) {
        Some(x) => x,
        None => return None,
    };
    let p1 = sp(src, p1);
    let (members, after) = match parse_names(src, p1) {
        Some((q, names)) => (names, q),
        None => {
            let none: Vec<String> = Vec::new();
            assert(none.deep_view() =~= Seq::<Seq<char>>::empty());
            (none, p1)
        },
    };
    Some((sp(src, after), Constructor { name, members }))
}

/// `, x` repeated from `p` on.
fn parse_names_rest(src: &Source, p: usize) -> (r: (usize, Vec<String>))
    requires
        src.wf(),
        p <= src.len(),
    ensures
        r.0 as int == names_rest(src.chars@, p as int).0,
        r.1.deep_view() == names_rest(src.chars@, p as int).1,
        p <= r.0 <= src.len(),
    decreases src.len() - p,
{
    let none: Vec<String> = Vec::new();
    assert(none.deep_view() =~= Seq::<Seq<char>>::empty());
    if p >= src.chars.len() {
        return (p, none);
    }
    let q1 = match token(src, p, ",") {
        Some(q) => q,
        None => return (p, none),
    };
    match parse_identifier(src, q1) {
        Some((e, name)) => {
            let (r, mut rest) = parse_names_rest(src, e);
            let ghost tail = rest.deep_view();
            rest.insert(0, name);
            assert(rest.deep_view() =~= seq![identifier_name(src.chars@, q1 as int, e as int)] + tail);
            (r, rest)
        },
        None => (p, none),
    }
}

/// `( x, y, .. )`, possibly with no name.
fn parse_names(src: &Source, pos: usize) -> (r: Option<(usize, Vec<String>)>)
    requires
        src.wf(),
        pos <= src.len(),
    ensures
        r matches Some((p, _)) ==> pos < p <= src.len(),
        match (r, names_at(src.chars@, pos as int)) {
            (Some((p, ns)), Some((q, nv))) => p as int == q && ns.deep_view() == nv,
            (None, None) => true,
            _ => false,
        },
{
    let p = match token(src, pos, "(") {
        Some(p) => p,
        None => return None,
    };
    proof {
        reveal_strlit("(");
        reveal_strlit(")");
        reveal_strlit(",");
    }
    let (q, names) = match parse_identifier(src, p) {
        Some((e, first)) => {
            let (r, mut rest) = parse_names_rest(src, e);
            let ghost tail = rest.deep_view();
            rest.insert(0, first);
            assert(rest.deep_view() =~= seq![identifier_name(src.chars@, p as int, e as int)] + tail);
            (r, rest)
        },
        None => {
            let none: Vec<String> = Vec::new();
            assert(none.deep_view() =~= Seq::<Seq<char>>::empty());
            (p, none)
        },
    };
    match token(src, q, ")") {
        Some(r) => Some((r, names)),
        None => None,
    }
}

/// Whether `a` comes before `b` in the order of their characters.
pub open spec fn text_less(a: Seq<char>, b: Seq<char>) -> bool
    decreases a.len(),
{
    if b.len() == 0 {
        false
    } else if a.len() == 0 {
        true
    } else if a[0] != b[0] {
        a[0] < b[0]
    } else {
        text_less(a.drop_first(), b.drop_first())
    }
}

pub fn text_less_exec(a: &String, b: &String) -> (r: bool)
    ensures
        r == text_less(a@, b@),
{
    let sa = a.as_str();
    let sb = b.as_str();
    let na = sa.unicode_len();
    let nb = sb.unicode_len();
    let mut i: usize = 0;
    assert(a@.skip(0) =~= a@);
    assert(b@.skip(0) =~= b@);
    while i < na && i < nb
        invariant
            sa@ == a@,
            sb@ == b@,
            na == a@.len(),
            nb == b@.len(),
            i <= na,
            i <= nb,
            forall|j: int| 0 <= j < i ==> a@[j] == b@[j],
            text_less(a@, b@) == text_less(a@.skip(i as int), b@.skip(i as int)),
        decreases na - i,
    {
        let ca = sa.get_char(i);
        let cb = sb.get_char(i);
        if ca != cb {
            assert(a@.skip(i as int)[0] == ca && b@.skip(i as int)[0] == cb);
            return ca < cb;
        }
        assert(a@.skip(i as int).drop_first() =~= a@.skip(i + 1));
        assert(b@.skip(i as int).drop_first() =~= b@.skip(i + 1));
        i += 1;
    }
    i < nb
}

/// Keys in strictly ascending order.
/// The invariant of a table: its keys strictly ascending, so each key once,
/// and one value for each key.
pub open spec fn table_wf(keys: Seq<Seq<char>>, n_values: nat) -> bool {
    ascending(keys) && keys.len() == n_values
}

pub open spec fn ascending(keys: Seq<Seq<char>>) -> bool {
    forall|a: int, b: int| 0 <= a < b < keys.len() ==> text_less(#[trigger] keys[a], #[trigger] keys[b])
}

pub proof fn lemma_text_less_irreflexive(a: Seq<char>)
    ensures
        !text_less(a, a),
    decreases a.len(),
{
    if a.len() > 0 {
        lemma_text_less_irreflexive(a.drop_first());
    }
}

pub proof fn lemma_text_less_transitive(a: Seq<char>, b: Seq<char>, c: Seq<char>)
    requires
        text_less(a, b),
        text_less(b, c),
    ensures
        text_less(a, c),
    decreases a.len(),
{
    if a.len() > 0 && a[0] == b[0] && b[0] == c[0] {
        lemma_text_less_transitive(a.drop_first(), b.drop_first(), c.drop_first());
    }
}

pub proof fn lemma_text_less_total(a: Seq<char>, b: Seq<char>)
    ensures
        a == b || text_less(a, b) || text_less(b, a),
    decreases a.len(),
{
    if a.len() == 0 && b.len() == 0 {
        assert(a =~= b);
    } else if a.len() > 0 && b.len() > 0 && a[0] == b[0] {
        lemma_text_less_total(a.drop_first(), b.drop_first());
        assert(a.drop_first().len() == a.len() - 1);
        assert(b.drop_first().len() == b.len() - 1);
        if a.drop_first() == b.drop_first() {
            assert(a.len() == b.len());
            assert forall|i: int| 0 <= i < a.len() implies a[i] == b[i] by {
                if i > 0 {
                    assert(a[i] == a.drop_first()[i - 1]);
                    assert(b[i] == b.drop_first()[i - 1]);
                }
            }
            assert(a =~= b);
        }
    }
}

/// Put `value` under `key`, keeping the keys in ascending order; a key that is
/// already there gets the new value.
fn insert_entry(keys: &mut Vec<String>, values: &mut Vec<Expression>, key: String, value: Expression)
    requires
        old(keys)@.len() == old(values)@.len(),
        ascending(old(keys).deep_view()),
    ensures
        final(keys)@.len() == final(values)@.len(),
        final(keys).deep_view() == table_put(old(keys).deep_view(), exprs_view(old(values)@), key@, value@).0,
        exprs_view(final(values)@) == table_put(old(keys).deep_view(), exprs_view(old(values)@), key@, value@).1,
        ascending(final(keys).deep_view()),
        exists|i: int| 0 <= i < final(keys)@.len() && final(keys)@[i]@ == key@ && final(values)@[i]@ == value@,
{
    let ghost old_keys = keys.deep_view();
    let ghost old_values = exprs_view(values@);
    let ghost kv = key@;
    let ghost vv = value@;
    proof {
        lemma_exprs_view(values@);
    }
    let mut i: usize = 0;
    while i < keys.len() && text_less_exec(&keys[i], &key)
        invariant
            i <= keys@.len(),
            keys@.len() == values@.len(),
            old_keys == keys.deep_view(),
            kv == key@,
            key_slot(old_keys, kv, 0) == key_slot(old_keys, kv, i as int),
            forall|j: int| 0 <= j < i ==> text_less(#[trigger] keys@[j]@, key@),
        decreases keys.len() - i,
    {
        assert(old_keys[i as int] == keys@[i as int]@);
        i += 1;
    }
    assert(i < keys.len() ==> old_keys[i as int] == keys@[i as int]@);
    assert(key_slot(old_keys, kv, 0) == i);
    if i < keys.len() && keys[i] == key {
        let ghost before_values = values@;
        keys.set(i, key);
        values.set(i, value);
        assert(keys.deep_view() =~= old_keys);
        proof {
            lemma_exprs_view(values@);
            lemma_exprs_view(before_values);
        }
        assert(exprs_view(values@) =~= old_values.update(i as int, vv));
        assert(keys@[i as int]@ == key@ && values@[i as int]@ == value@);
    } else {
        let ghost k = key@;
        proof {
            if i < old_keys.len() {
                lemma_text_less_total(old_keys[i as int], k);
            }
        }
        let ghost before_values = values@;
        keys.insert(i, key);
        values.insert(i, value);
        proof {
            lemma_exprs_view(values@);
            lemma_exprs_view(before_values);
        }
        assert(exprs_view(values@) =~= old_values.insert(i as int, vv));
        let ghost nk = keys.deep_view();
        assert(nk =~= old_keys.insert(i as int, k));
        assert forall|a: int, b: int| 0 <= a < b < nk.len() implies text_less(#[trigger] nk[a], #[trigger] nk[b]) by {
            if b < i {
            } else if b == i {
                assert(nk[a] == old_keys[a]);
                assert(text_less(keys@[a]@, k));
            } else if a < i {
                assert(nk[b] == old_keys[b - 1]);
                assert(text_less(old_keys[a], k));
                if b - 1 > i {
                    assert(text_less(old_keys[i as int], old_keys[b - 1]));
                    lemma_text_less_transitive(k, old_keys[i as int], old_keys[b - 1]);
                }
                lemma_text_less_transitive(old_keys[a], k, old_keys[b - 1]);
            } else if a == i {
                assert(nk[b] == old_keys[b - 1]);
                if b - 1 > i {
                    assert(text_less(old_keys[i as int], old_keys[b - 1]));
                    lemma_text_less_transitive(k, old_keys[i as int], old_keys[b - 1]);
                }
            } else {
                assert(nk[a] == old_keys[a - 1] && nk[b] == old_keys[b - 1]);
            }
        }
        assert(keys@[i as int]@ == key@ && values@[i as int]@ == value@);
    }
}

// ---------------------------------------------------------------------------
// The declaration grammar
// ---------------------------------------------------------------------------

/// One or more names `x, y, ..` from `p`: the position after them and the names.
pub open spec fn name_list_at(s: Seq<char>, p: int) -> (int, Seq<Seq<char>>) {
    match identifier_at(s, p) {
        Some(e) => if p < e <= s.len() {
            let rest = names_rest(s, e);
            (rest.0, seq![identifier_name(s, p, e)] + rest.1)
        } else {
            (p, Seq::empty())
        },
        None => (p, Seq::empty()),
    }
}

/// `from file import a, b, ..`: the position after it, the file and the items.
pub open spec fn import_at(s: Seq<char>, pos: int) -> Option<(int, Seq<char>, Seq<Seq<char>>)> {
    match keyword_at(s, pos, "from"@) {
        None => None,
        Some(p1) => match identifier_at(s, p1) {
            None => None,
            Some(e1) => match keyword_at(s, e1, "import"@) {
                None => None,
                Some(p) => {
                    let (q, items) = name_list_at(s, p);
                    Some((space_end(s, q), identifier_name(s, p1, e1), items))
                },
            },
        },
    }
}

/// `| C(..)` repeated from `p` on.
pub open spec fn ctors_rest(s: Seq<char>, p: int) -> (int, Seq<ConstructorView>)
    decreases s.len() - p,
{
    if p < 0 || p >= s.len() {
        (p, Seq::empty())
    } else {
        match token_at(s, p, "|"@) {
            None => (p, Seq::empty()),
            Some(q1) => match constructor_declaration_at(s, q1) {
                None => (p, Seq::empty()),
                Some((q2, c)) => if p < q2 <= s.len() {
                    let rest = ctors_rest(s, q2);
                    (rest.0, seq![c] + rest.1)
                } else {
                    (p, Seq::empty())
                },
            },
        }
    }
}

/// `data D = C1(..) | C2(..) | ..`
pub open spec fn data_at(s: Seq<char>, pos: int) -> Option<(int, DataView)> {
    match keyword_at(s, pos, "data"@) {
        None => None,
        Some(p1) => match identifier_at(s, p1) {
            None => None,
            Some(e) => match token_at(s, e, "="@) {
                None => None,
                Some(p) => {
                    let (q, cons) = match constructor_declaration_at(s, p) {
                        Some((q, c)) => if p < q <= s.len() {
                            let rest = ctors_rest(s, q);
                            (rest.0, seq![c] + rest.1)
                        } else {
                            (p, Seq::empty())
                        },
                        None => (p, Seq::empty()),
                    };
                    Some((space_end(s, q), DataView { name: identifier_name(s, p1, e), cons }))
                },
            },
        },
    }
}

/// `type C(x, y, ..)`
pub open spec fn type_at(s: Seq<char>, pos: int) -> Option<(int, ConstructorView)> {
    match keyword_at(s, pos, "type"@) {
        None => None,
        Some(p1) => match constructor_declaration_at(s, p1) {
            None => None,
            Some((p2, c)) => Some((space_end(s, p2), c)),
        },
    }
}

/// `const name = expression`
pub open spec fn const_at(s: Seq<char>, pos: int) -> Result<Option<(int, DefView)>, (int, ParseErrorKind)> {
    match keyword_at(s, pos, "const"@) {
        None => Ok(None),
        Some(p1) => match identifier_at(s, p1) {
            None => Ok(None),
            Some(e) => match token_at(s, e, "="@) {
                None => Ok(None),
                Some(p3) => if !(pos < p3 <= s.len()) {
                    Ok(None)
                } else {
                    match fwd(expression_at(s, p3), p3, s.len() as int) {
                        Err(x) => Err(x),
                        Ok(None) => Ok(None),
                        Ok(Some((p4, b))) => Ok(
                            Some((space_end(s, p4), DefView { name: identifier_name(s, p1, e), body: b })),
                        ),
                    }
                },
            },
        },
    }
}

/// Identifiers from `p` on, as many as follow.
pub open spec fn idents_rest(s: Seq<char>, p: int) -> (int, Seq<Seq<char>>)
    decreases s.len() - p,
{
    if p < 0 || p >= s.len() {
        (p, Seq::empty())
    } else {
        match identifier_at(s, p) {
            None => (p, Seq::empty()),
            Some(e) => if p < e <= s.len() {
                let rest = idents_rest(s, e);
                (rest.0, seq![identifier_name(s, p, e)] + rest.1)
            } else {
                (p, Seq::empty())
            },
        }
    }
}

/// `let name a1 .. an = expression`, with at least one argument: the function
/// `name = λa1 .. λan. expression`.
pub open spec fn function_at(s: Seq<char>, pos: int) -> Result<Option<(int, DefView)>, (int, ParseErrorKind)> {
    match keyword_at(s, pos, "let"@) {
        None => Ok(None),
        Some(p1) => match identifier_at(s, p1) {
            None => Ok(None),
            Some(e) => {
                let (q, args) = idents_rest(s, e);
                if args.len() == 0 {
                    Ok(None)
                } else {
                    match token_at(s, q, "="@) {
                        None => Ok(None),
                        Some(p3) => if !(pos < p3 <= s.len()) {
                            Ok(None)
                        } else {
                            match fwd(expression_at(s, p3), p3, s.len() as int) {
                                Err(x) => Err(x),
                                Ok(None) => Ok(None),
                                Ok(Some((p4, b))) => Ok(
                                    Some(
                                        (
                                            space_end(s, p4),
                                            DefView {
                                                name: identifier_name(s, p1, e),
                                                body: crate::program::wrap_lambdas(args, b),
                                            },
                                        ),
                                    ),
                                ),
                            }
                        },
                    }
                }
            },
        },
    }
}

/// The declarations from `p` on, added to `a` in source order.
pub open spec fn unit_rest(s: Seq<char>, p: int, a: AstView) -> Result<(int, AstView), (int, ParseErrorKind)>
    decreases s.len() - p,
{
    if p < 0 || p >= s.len() {
        Ok((p, a))
    } else if let Some((q, _, _)) = import_at(s, p) {
        if p < q <= s.len() {
            unit_rest(s, q, a)
        } else {
            Ok((p, a))
        }
    } else if let Some((q, d)) = data_at(s, p) {
        if p < q <= s.len() {
            unit_rest(s, q, AstView { data: a.data.push(d), ..a })
        } else {
            Ok((p, a))
        }
    } else if let Some((q, c)) = type_at(s, p) {
        if p < q <= s.len() {
            unit_rest(s, q, AstView { cons: a.cons.push(c), ..a })
        } else {
            Ok((p, a))
        }
    } else {
        match fwd(const_at(s, p), p, s.len() as int) {
            Err(x) => Err(x),
            Ok(Some((q, c))) => unit_rest(s, q, AstView { constants: a.constants.push(c), ..a }),
            Ok(None) => match fwd(function_at(s, p), p, s.len() as int) {
                Err(x) => Err(x),
                Ok(Some((q, f))) => unit_rest(s, q, AstView { functions: a.functions.push(f), ..a }),
                Ok(None) => Ok((p, a)),
            },
        }
    }
}

pub open spec fn empty_unit() -> AstView {
    AstView { constants: Seq::empty(), cons: Seq::empty(), data: Seq::empty(), functions: Seq::empty() }
}

/// The declarations of a compilation unit, before the rewrites, and the
/// position after the last one and the spaces after it.
pub open spec fn unit_at(s: Seq<char>) -> Result<(int, AstView), (int, ParseErrorKind)> {
    let p = space_end(s, 0);
    match unit_rest(s, p, empty_unit()) {
        Err(x) => Err(x),
        Ok((q, a)) => Ok((space_end(s, q), a)),
    }
}

fn parse_name_list(src: &Source, p: usize) -> (r: (usize, Vec<String>))
    requires
        src.wf(),
        p <= src.len(),
    ensures
        r.0 as int == name_list_at(src.chars@, p as int).0,
        r.1.deep_view() == name_list_at(src.chars@, p as int).1,
        p <= r.0 <= src.len(),
{
    match parse_identifier(src, p) {
        Some((e, first)) => {
            let (r, mut rest) = parse_names_rest(src, e);
            let ghost tail = rest.deep_view();
            rest.insert(0, first);
            assert(rest.deep_view() =~= seq![identifier_name(src.chars@, p as int, e as int)] + tail);
            (r, rest)
        },
        None => {
            let none: Vec<String> = Vec::new();
            assert(none.deep_view() =~= Seq::<Seq<char>>::empty());
            (p, none)
        },
    }
}

/// `from file import a, b, ..`
pub fn parse_import(src: &Source, pos: usize) -> (r: Option<(usize, Import)>)
    requires
        src.wf(),
        pos <= src.len(),
    ensures
        r matches Some((p, _)) ==> pos < p <= src.len(),
        match (r, import_at(src.chars@, pos as int)) {
            (Some((p, i)), Some((q, f, items))) => p as int == q && i.file@ == f && i.items.deep_view() == items,
            (None, None) => true,
            _ => false,
        },
{
    let p1 = keyword(src, pos, "from")?;
    let (p2, file) = parse_identifier(src, p1)?;
    let p = keyword(src, p2, "import")?;
    let (q, items) = parse_name_list(src, p);
    Some((sp(src, q), Import::new(file, items)))
}

fn parse_ctors_rest(src: &Source, p: usize) -> (r: (usize, Vec<Constructor>))
    requires
        src.wf(),
        p <= src.len(),
    ensures
        r.0 as int == ctors_rest(src.chars@, p as int).0,
        crate::ast::cons_seq_view(r.1@) == ctors_rest(src.chars@, p as int).1,
        p <= r.0 <= src.len(),
    decreases src.len() - p,
{
    let none: Vec<Constructor> = Vec::new();
    assert(crate::ast::cons_seq_view(none@) =~= Seq::<ConstructorView>::empty());
    if p >= src.chars.len() {
        return (p, none);
    }
    let q1 = match token(src, p, "|") {
        Some(q) => q,
        None => return (p, none),
    };
    match parse_constructor_declaration(src, q1) {
        Some((q2, c)) => {
            let (r, mut rest) = parse_ctors_rest(src, q2);
            let ghost tail = crate::ast::cons_seq_view(rest@);
            let ghost cv = c@;
            rest.insert(0, c);
            assert(crate::ast::cons_seq_view(rest@) =~= seq![cv] + tail);
            (r, rest)
        },
        None => (p, none),
    }
}

/// `data D = C1(..) | C2(..) | ..`
pub fn parse_data_declaration(src: &Source, pos: usize) -> (r: Option<(usize, Data)>)
    requires
        src.wf(),
        pos <= src.len(),
    ensures
        r matches Some((p, _)) ==> pos < p <= src.len(),
        match (r, data_at(src.chars@, pos as int)) {
            (Some((p, d)), Some((q, dv))) => p as int == q && d@ == dv,
            (None, None) => true,
            _ => false,
        },
{
    let p1 = keyword(src, pos, "data")?;
    let (e, name) = parse_identifier(src, p1)?;
    let p = token(src, e, "=")?;
    let (q, cons) = match parse_constructor_declaration(src, p) {
        Some((q, first)) => {
            let (r, mut rest) = parse_ctors_rest(src, q);
            let ghost tail = crate::ast::cons_seq_view(rest@);
            let ghost fv = first@;
            rest.insert(0, first);
            assert(crate::ast::cons_seq_view(rest@) =~= seq![fv] + tail);
            (r, rest)
        },
        None => {
            let none: Vec<Constructor> = Vec::new();
            assert(crate::ast::cons_seq_view(none@) =~= Seq::<ConstructorView>::empty());
            (p, none)
        },
    };
    let d = Data::new(name, cons);
    assert(d@.cons =~= crate::ast::cons_seq_view(d.cons@));
    Some((sp(src, q), d))
}

/// `type C(x, y, ..)`
pub fn parse_type_declaration(src: &Source, pos: usize) -> (r: Option<(usize, Constructor)>)
    requires
        src.wf(),
        pos <= src.len(),
    ensures
        r matches Some((p, _)) ==> pos < p <= src.len(),
        match (r, type_at(src.chars@, pos as int)) {
            (Some((p, c)), Some((q, cv))) => p as int == q && c@ == cv,
            (None, None) => true,
            _ => false,
        },
{
    let p1 = keyword(src, pos, "type")?;
    let (p2, c) = parse_constructor_declaration(src, p1)?;
    Some((sp(src, p2), c))
}

/// `const name = expression`
pub fn parse_constant_declaration(src: &Source, pos: usize) -> (r: Result<Option<(usize, Constant)>, ParseError>)
    requires
        src.wf(),
        pos <= src.len(),
    ensures
        advanced(r, pos as int, src.len()),
        match (r, const_at(src.chars@, pos as int)) {
            (Err(e), Err((p, k))) => e.position as int == p && e.kind == k,
            (Ok(None), Ok(None)) => true,
            (Ok(Some((p, c))), Ok(Some((q, d)))) => p as int == q && crate::program::const_view(c) == d,
            _ => false,
        },
{
    let p1 = match keyword(src, pos, "const") {
        Some(p) => p,
        None => return no_match(),
    };
    let (p2, name) = match parse_identifier(src, p1) {
        Some(x) => x,
        None => return no_match(),
    };
    let p3 = match token(src, p2, "=") {
        Some(p) => p,
        None => return no_match(),
    };
    let (p4, body) = match parse_expression_at(src, p3)? {
        Some(x) => x,
        None => return no_match(),
    };
    Ok(Some((sp(src, p4), Constant::new(name, body))))
}

fn parse_idents_rest(src: &Source, p: usize) -> (r: (usize, Vec<String>))
    requires
        src.wf(),
        p <= src.len(),
    ensures
        r.0 as int == idents_rest(src.chars@, p as int).0,
        r.1.deep_view() == idents_rest(src.chars@, p as int).1,
        p <= r.0 <= src.len(),
    decreases src.len() - p,
{
    let none: Vec<String> = Vec::new();
    assert(none.deep_view() =~= Seq::<Seq<char>>::empty());
    if p >= src.chars.len() {
        return (p, none);
    }
    match parse_identifier(src, p) {
        Some((e, name)) => {
            let (r, mut rest) = parse_idents_rest(src, e);
            let ghost tail = rest.deep_view();
            rest.insert(0, name);
            assert(rest.deep_view() =~= seq![identifier_name(src.chars@, p as int, e as int)] + tail);
            (r, rest)
        },
        None => (p, none),
    }
}

/// `let name a1 .. an = expression`, with at least one argument.
pub fn parse_function_declaration(src: &Source, pos: usize) -> (r: Result<Option<(usize, Function)>, ParseError>)
    requires
        src.wf(),
        pos <= src.len(),
    ensures
        advanced(r, pos as int, src.len()),
        match (r, function_at(src.chars@, pos as int)) {
            (Err(e), Err((p, k))) => e.position as int == p && e.kind == k,
            (Ok(None), Ok(None)) => true,
            (Ok(Some((p, f))), Ok(Some((q, d)))) => p as int == q && crate::program::fn_view(f) == d,
            _ => false,
        },
{
    let p1 = match keyword(src, pos, "let") {
        Some(p) => p,
        None => return no_match(),
    };
    let (p2, name) = match parse_identifier(src, p1) {
        Some(x) => x,
        None => return no_match(),
    };
    let (p, args) = parse_idents_rest(src, p2);
    if args.len() == 0 {
        return no_match();
    }
    let p3 = match token(src, p, "=") {
        Some(q) => q,
        None => return no_match(),
    };
    let (p4, body) = match parse_expression_at(src, p3)? {
        Some(x) => x,
        None => return no_match(),
    };
    Ok(Some((sp(src, p4), Function::new(name, args, body))))
}

fn parse_unit_rest(src: &Source, p: usize, mut acc: AST) -> (r: Result<(usize, AST), ParseError>)
    requires
        src.wf(),
        p <= src.len(),
    ensures
        match (r, unit_rest(src.chars@, p as int, acc@)) {
            (Err(e), Err((q, k))) => e.position as int == q && e.kind == k,
            (Ok((q, a)), Ok((q2, av))) => q as int == q2 && a@ == av && p <= q <= src.len(),
            _ => false,
        },
    decreases src.len() - p,
{
    if p >= src.chars.len() {
        return Ok((p, acc));
    }
    if let Some((q, _)) = parse_import(src, p) {
        return parse_unit_rest(src, q, acc);
    }
    if let Some((q, d)) = parse_data_declaration(src, p) {
        let ghost before = acc@;
        let ghost dv = d@;
        acc.data.push(d);
        assert(acc@.data =~= before.data.push(dv));
        assert(acc@ == (AstView { data: before.data.push(dv), ..before }));
        return parse_unit_rest(src, q, acc);
    }
    if let Some((q, c)) = parse_type_declaration(src, p) {
        let ghost before = acc@;
        let ghost cv = c@;
        acc.cons.push(c);
        assert(acc@.cons =~= before.cons.push(cv));
        assert(acc@ == (AstView { cons: before.cons.push(cv), ..before }));
        return parse_unit_rest(src, q, acc);
    }
    if let Some((q, c)) = parse_constant_declaration(src, p)? {
        let ghost before = acc@;
        let ghost cv = crate::program::const_view(c);
        acc.constants.push(c);
        assert(acc@.constants =~= before.constants.push(cv));
        assert(acc@ == (AstView { constants: before.constants.push(cv), ..before }));
        return parse_unit_rest(src, q, acc);
    }
    if let Some((q, f)) = parse_function_declaration(src, p)? {
        let ghost before = acc@;
        let ghost fv = crate::program::fn_view(f);
        acc.functions.push(f);
        assert(acc@.functions =~= before.functions.push(fv));
        assert(acc@ == (AstView { functions: before.functions.push(fv), ..before }));
        return parse_unit_rest(src, q, acc);
    }
    Ok((p, acc))
}

/// A compilation unit: its declarations in source order, before the rewrites,
/// and the position after them and the spaces after them.
pub fn parse_unit(src: &Source) -> (r: Result<(usize, AST), ParseError>)
    requires
        src.wf(),
    ensures
        match (r, unit_at(src.chars@)) {
            (Err(e), Err((q, k))) => e.position as int == q && e.kind == k,
            (Ok((q, a)), Ok((q2, av))) => q as int == q2 && a@ == av && q <= src.len(),
            _ => false,
        },
{
    let empty = AST::new(Vec::new(), Vec::new(), Vec::new(), Vec::new(), Vec::new());
    assert(empty@.constants =~= Seq::<DefView>::empty());
    assert(empty@.functions =~= Seq::<DefView>::empty());
    assert(empty@.cons =~= Seq::<ConstructorView>::empty());
    assert(empty@.data =~= Seq::<DataView>::empty());
    let p = sp(src, 0);
    let (q, ast) = parse_unit_rest(src, p, empty)?;
    Ok((sp(src, q), ast))
}

/// Parse a compilation unit: the text left after the last declaration, and the
/// program with its rewrites done.
pub fn parse_ast(input: &str) -> (r: Result<(String, AST), ParseError>)
    ensures
        match (r, unit_at(input@)) {
            (Err(e), Err((q, k))) => e.position as int == q && e.kind == k,
            (Ok((rest, a)), Ok((q, raw))) => 0 <= q <= input@.len() && rest@ == input@.subrange(q, input@.len() as int)
                && a@ == rewritten(raw),
            _ => false,
        },
{
    let src = Source::new(input);
    let (p, mut ast) = parse_unit(&src)?;
    ast.rewrite();
    let rest = src.slice(p, src.chars.len());
    Ok((rest, ast))
}

/// Parse one expression: the text left after it, and the expression. Empty
/// input is an error; input that no expression starts is `NoMatch` at 0.
pub fn parse_expression(input: &str) -> (r: Result<(String, Expression), ParseError>)
    ensures
        match (r, expression_at(input@, 0)) {
            (Err(e), Err((q, k))) => e.position as int == q && e.kind == k,
            (Err(e), Ok(None)) => e.position == 0 && e.kind is NoMatch,
            (Ok((rest, x)), Ok(Some((q, v)))) => 0 < q <= input@.len() && rest@ == input@.subrange(q, input@.len() as int)
                && x@ == v,
            _ => false,
        },
{
    let src = Source::new(input);
    match parse_expression_at(&src, 0)? {
        Some((p, e)) => {
            let rest = src.slice(p, src.chars.len());
            Ok((rest, e))
        },
        None => Err(ParseError { position: 0, kind: ParseErrorKind::NoMatch }),
    }
}
} // verus!
