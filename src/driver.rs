use vstd::prelude::*;

use crate::combinator::{CombView, Combinator};
use crate::compile::{emit, CompilerError, Golang};
use crate::lambda::compile_term;
use crate::parse::{parse_ast, unit_at, ParseError, ParseErrorKind};
use crate::program::{entry_from, fn_view, lower_program, main_name, rewritten, AstView, AST};
use crate::show::warnings;
use crate::reduce::{free_in, ReductionError};

verus! {

/// Why a source text could not be compiled.
pub enum CompileFailure {
    /// The comments could not be removed from the text.
    Comments,
    /// The text is no program of the language.
    Syntax(ParseError),
    /// The program could not be lowered to a combinator term.
    Reduction(ReductionError),
    /// The combinator term has no host form.
    Emission(CompilerError),
}

/// The host text of a program: its `main` lowered, compiled to combinators,
/// and emitted; `None` where a stage fails.
pub open spec fn compiled(a: AstView) -> Option<Seq<char>> {
    match lower_program(a) {
        Ok(l) => match compile_term(l) {
            Ok(c) => emit(c),
            Err(_) => None,
        },
        Err(_) => None,
    }
}

/// The text that shell-style comment stripping makes of `s`.
pub uninterp spec fn shell_stripped(s: Seq<char>) -> Seq<char>;

/// Relies on `comment::shell::strip`: removes each `#` comment up to the end of
/// its line, outside quotes; on ASCII text it never reports an error. It indexes
/// the text by character count, so only ASCII text is handed to it.
#[verifier::external_body]
fn strip_shell_comments(s: &str) -> (r: Option<String>)
    requires
        s.is_ascii(),
    ensures
        r is Some,
        r matches Some(t) ==> t@ == shell_stripped(s@),
{
    comment::shell::strip(s).ok()
}

/// The text that is compiled for a source: the source with its comments
/// removed; a source without `#` has none.
pub open spec fn source_text(source: Seq<char>) -> Seq<char> {
    if source.contains('#') {
        shell_stripped(source)
    } else {
        source
    }
}

/// The program that a text holds: its declarations, rewritten, when they make
/// up the whole text.
pub open spec fn program_of(text: Seq<char>) -> Option<AstView> {
    match unit_at(text) {
        Ok((q, raw)) => if q == text.len() {
            Some(rewritten(raw))
        } else {
            None
        },
        Err(_) => None,
    }
}

/// The outcome of compiling the program `p` of a text: a syntax error when the
/// text holds no program, else the host text, or the stage that failed.
pub open spec fn compile_outcome(r: Result<String, CompileFailure>, p: Option<AstView>) -> bool {
    match p {
        None => r matches Err(CompileFailure::Syntax(_)),
        Some(a) => match (r, compiled(a)) {
            (Ok(o), Some(t)) => o@ == t,
            (Err(e), None) => e is Reduction || e is Emission,
            _ => false,
        },
    }
}

/// Whether comments must be removed from a source that cannot be handed to
/// the comment stripper.
pub open spec fn refused(source: &str) -> bool {
    source@.contains('#') && !source.is_ascii()
}

/// Compile a program: lower its `main`, bracket-abstract it and emit Go.
pub fn compile_ast(ast: &AST) -> (r: Result<String, CompileFailure>)
    ensures
        r is Ok <==> compiled(ast@) is Some,
        r matches Ok(out) ==> compiled(ast@) == Some(out@),
        r matches Err(e) ==> (e is Reduction || e is Emission),
{
    let lambda = match ast.reduce() {
        Ok(l) => l,
        Err(e) => return Err(CompileFailure::Reduction(e)),
    };
    let comb = match lambda.to_combinator() {
        Ok(c) => c,
        Err(e) => return Err(CompileFailure::Reduction(e)),
    };
    match Golang.emit(&comb) {
        Ok(out) => Ok(out),
        Err(e) => Err(CompileFailure::Emission(e)),
    }
}

/// The program of a text; text left after the last declaration is a syntax
/// error at its position.
pub fn program_from_text(text: &str) -> (r: Result<AST, CompileFailure>)
    ensures
        match program_of(text@) {
            Some(a) => r matches Ok(x) && x@ == a,
            None => r matches Err(CompileFailure::Syntax(_)),
        },
{
    let (rest, ast) = match parse_ast(text) {
        Ok(x) => x,
        Err(e) => return Err(CompileFailure::Syntax(e)),
    };
    let n = text.unicode_len();
    let m = rest.as_str().unicode_len();
    if m != 0 {
        return Err(
            CompileFailure::Syntax(ParseError { position: n - m, kind: ParseErrorKind::UnexpectedInput }),
        );
    }
    Ok(ast)
}

/// Compile a source text whose comments are already removed.
pub fn compile_stripped(text: &str) -> (r: Result<String, CompileFailure>)
    ensures
        compile_outcome(r, program_of(text@)),
{
    let ast = program_from_text(text)?;
    compile_ast(&ast)
}

/// Whether the text holds a `#`, which starts every comment.
fn has_hash(s: &str) -> (r: bool)
    ensures
        r == s@.contains('#'),
{
    let n = s.unicode_len();
    let mut i: usize = 0;
    while i < n
        invariant
            n == s@.len(),
            i <= n,
            forall|j: int| 0 <= j < i ==> s@[j] != '#',
        decreases n - i,
    {
        if s.get_char(i) == '#' {
            return true;
        }
        i += 1;
    }
    false
}

/// The text to compile for a source (see `source_text`); none when the source
/// has comments but is not ASCII.
fn prepared_text(source: &str) -> (r: Option<String>)
    ensures
        match r {
            Some(t) => !refused(source) && t@ == source_text(source@),
            None => refused(source),
        },
{
    if !has_hash(source) {
        return Some(source.to_owned());
    }
    if !source.is_ascii() {
        return None;
    }
    strip_shell_comments(source)
}

/// Compile a source text: remove its `#` comments, then compile what is left.
/// Comments are removed from ASCII text only.
pub fn compile_source(source: &str) -> (r: Result<String, CompileFailure>)
    ensures
        refused(source) ==> r matches Err(CompileFailure::Comments),
        !refused(source) ==> compile_outcome(r, program_of(source_text(source@))),
{
    match prepared_text(source) {
        Some(text) => compile_stripped(text.as_str()),
        None => Err(CompileFailure::Comments),
    }
}

/// The combinator term of a program: its `main` lowered and compiled.
pub open spec fn term_of(a: AstView) -> Option<CombView> {
    match lower_program(a) {
        Ok(l) => match compile_term(l) {
            Ok(c) => Some(c),
            Err(_) => None,
        },
        Err(_) => None,
    }
}

/// The combinator term of a source text: comments removed, parsed, rewritten,
/// lowered and compiled, without emission.
pub fn term_of_source(source: &str) -> (r: Result<Combinator, CompileFailure>)
    ensures
        refused(source) ==> r matches Err(CompileFailure::Comments),
        !refused(source) ==> match program_of(source_text(source@)) {
            None => r matches Err(CompileFailure::Syntax(_)),
            Some(a) => match (r, term_of(a)) {
                (Ok(c), Some(t)) => c@ == t,
                (Err(e), None) => e is Reduction,
                _ => false,
            },
        },
{
    let text = match prepared_text(source) {
        Some(t) => t,
        None => return Err(CompileFailure::Comments),
    };
    let ast = program_from_text(text.as_str())?;
    let lambda = match ast.reduce() {
        Ok(l) => l,
        Err(e) => return Err(CompileFailure::Reduction(e)),
    };
    match lambda.to_combinator() {
        Ok(c) => Ok(c),
        Err(e) => Err(CompileFailure::Reduction(e)),
    }
}

/// The arity warnings of a program: those of the body of its `main`.
pub open spec fn program_warnings(a: AstView) -> Seq<Seq<char>> {
    match entry_from(a.functions, 0) {
        Some(f) => warnings(f.body),
        None => Seq::empty(),
    }
}

/// The arity warnings of the program's `main` (see `warnings`).
pub fn main_warnings(ast: &AST) -> (r: Vec<String>)
    ensures
        r.deep_view() == program_warnings(ast@),
{
    let main = String::from_str("main");
    proof {
        reveal_strlit("main");
    }
    assert(main@ =~= main_name());
    let ghost fs = ast@.functions;
    let mut i: usize = 0;
    while i < ast.functions.len()
        invariant
            i <= ast.functions.len(),
            fs == ast@.functions,
            main@ == main_name(),
            entry_from(fs, 0) == entry_from(fs, i as int),
        decreases ast.functions.len() - i,
    {
        assert(fs[i as int] == fn_view(ast.functions@[i as int]));
        if ast.functions[i].name == main {
            return ast.functions[i].body.arity_warnings();
        }
        i += 1;
    }
    let none: Vec<String> = Vec::new();
    assert(none.deep_view() =~= Seq::<Seq<char>>::empty());
    none
}

/// The arity warnings of a source text's `main`; none when the text holds no
/// program or cannot have its comments removed.
pub fn source_warnings(source: &str) -> (r: Vec<String>)
    ensures
        r.deep_view() == (if refused(source) {
            Seq::empty()
        } else {
            match program_of(source_text(source@)) {
                Some(a) => program_warnings(a),
                None => Seq::empty(),
            }
        }),
{
    let none: Vec<String> = Vec::new();
    assert(none.deep_view() =~= Seq::<Seq<char>>::empty());
    let text = match prepared_text(source) {
        Some(t) => t,
        None => return none,
    };
    match program_from_text(text.as_str()) {
        Ok(ast) => main_warnings(&ast),
        Err(_) => none,
    }
}

/// Compilation is deterministic: what a source text compiles to is a function
/// of the text alone, so equal texts give equal outcomes.
pub proof fn lemma_compilation_deterministic(a: Seq<char>, b: Seq<char>)
    requires
        a == b,
    ensures
        program_of(source_text(a)) == program_of(source_text(b)),
        program_of(source_text(a)) matches Some(p) ==> compiled(p) == compiled(
            program_of(source_text(b))->Some_0,
        ),
{
}


/// No free variables, from the source text: when the program of a text has a
/// `main` in whose body no identifier stands free, and that body lowers, its
/// compilation reports no free variable and leaves no abstraction behind.
pub proof fn lemma_source_compiles_without_variables(text: Seq<char>)
    requires
        program_of(text) is Some,
        entry_from(program_of(text)->Some_0.functions, 0) is Some,
        forall|x: Seq<char>| !free_in(entry_from(program_of(text)->Some_0.functions, 0)->Some_0.body, x),
        lower_program(program_of(text)->Some_0) is Ok,
    ensures
        !(compile_term(lower_program(program_of(text)->Some_0)->Ok_0) matches Err(
            crate::reduce::Fault::FreeVariable(_),
        )),
        !(compile_term(lower_program(program_of(text)->Some_0)->Ok_0) matches Err(
            crate::reduce::Fault::UncompilableAbstraction,
        )),
{
    let a = program_of(text)->Some_0;
    let f = entry_from(a.functions, 0)->Some_0;
    crate::reduce::lemma_closed_main_compiles_without_variables(f.body, a.data);
}
} // verus!
