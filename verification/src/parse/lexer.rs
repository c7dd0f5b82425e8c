//! A context sensitive lexer for `.ninja` files.
//!
//! Ninja lexing depends on what came before: after `build` paths are read, after `=` values are
//! read, and everywhere else identifiers and keywords. The lexer keeps track of this in a
//! [`LexerMode`]. Its behaviour is specified by [`lex_next`], a function from the input, the
//! current offset and the current mode to the next item, the next offset and the next mode.
use crate::parse::stream::{lemma_item_facts, lemma_lex_next_progress, lex_measure};
use vstd::prelude::*;

verus! {

/// Reflects a position (a byte offset) in the stream. This can be translated to a line+column
/// Position using Lexer::to_position.
#[derive(Copy, Clone, Debug, PartialEq, Eq, Structural)]
pub struct Pos(pub usize);

/// A line and column (both starting at 1) in a named source.
#[derive(Debug, PartialEq, Eq)]
pub struct Position {
    pub source_name: Option<Vec<u8>>,
    pub line: usize,
    pub column: usize,
}

impl Position {
    fn new(source_name: Option<Vec<u8>>, line: usize, column: usize) -> (r: Position)
        ensures
            r.source_name == source_name,
            r.line == line,
            r.column == column,
    {
        Position { source_name, line, column }
    }

    /// A position in a source without a name.
    pub fn untitled(line: usize, column: usize) -> (r: Position)
        ensures
            r.source_name is None,
            r.line == line,
            r.column == column,
    {
        Position { source_name: None, line, column }
    }
}

#[derive(Copy, Clone, Debug, PartialEq, Eq, Structural)]
pub enum VarRefType {
    WithoutParens,
    WithParens,
}

#[derive(Debug, PartialEq, Eq)]
pub enum Lexeme<'a> {
    Build,
    Colon,
    Default,
    Equals,
    Expr(Vec<Lexeme<'a>>),
    // Keep as a separate token type for now, since we may need it when pretty-printing a
    // description.
    Escape(&'a [u8]),
    Identifier(&'a [u8]),
    Comment(&'a [u8]),
    Include,
    Indent,
    Literal(&'a [u8]),
    Newline,
    Pipe,
    Pipe2,
    Pool,
    Rule,
    Subninja,
    VarRef(VarRefType, &'a [u8]),
}

/// The mathematical value of a [`Lexeme`]: the same shape, with byte sequences in place of
/// slices.
pub enum LexemeView {
    Build,
    Colon,
    Default,
    Equals,
    Expr(Seq<LexemeView>),
    Escape(Seq<u8>),
    Identifier(Seq<u8>),
    Comment(Seq<u8>),
    Include,
    Indent,
    Literal(Seq<u8>),
    Newline,
    Pipe,
    Pipe2,
    Pool,
    Rule,
    Subninja,
    VarRef(VarRefType, Seq<u8>),
}

/// View of a lexeme that may stand inside an `Expr` (literals, escapes and references).
pub open spec fn piece_view(l: Lexeme) -> LexemeView {
    match l {
        Lexeme::Escape(v) => LexemeView::Escape(v@),
        Lexeme::Literal(v) => LexemeView::Literal(v@),
        Lexeme::VarRef(t, v) => LexemeView::VarRef(t, v@),
        Lexeme::Identifier(v) => LexemeView::Identifier(v@),
        Lexeme::Comment(v) => LexemeView::Comment(v@),
        Lexeme::Build => LexemeView::Build,
        Lexeme::Colon => LexemeView::Colon,
        Lexeme::Default => LexemeView::Default,
        Lexeme::Equals => LexemeView::Equals,
        Lexeme::Include => LexemeView::Include,
        Lexeme::Indent => LexemeView::Indent,
        Lexeme::Newline => LexemeView::Newline,
        Lexeme::Pipe => LexemeView::Pipe,
        Lexeme::Pipe2 => LexemeView::Pipe2,
        Lexeme::Pool => LexemeView::Pool,
        Lexeme::Rule => LexemeView::Rule,
        Lexeme::Subninja => LexemeView::Subninja,
        // Expressions never nest.
        Lexeme::Expr(_) => LexemeView::Expr(Seq::empty()),
    }
}

pub open spec fn pieces_view(v: Seq<Lexeme>) -> Seq<LexemeView> {
    Seq::new(v.len(), |k: int| piece_view(v[k]))
}

pub open spec fn lexeme_view(l: Lexeme) -> LexemeView {
    match l {
        Lexeme::Expr(items) => LexemeView::Expr(pieces_view(items@)),
        _ => piece_view(l),
    }
}

impl<'a> Lexeme<'a> {
    /// The bytes of a comment, identifier or literal.
    pub fn value(&self) -> (r: &'a [u8])
        requires
            self is Comment || self is Identifier || self is Literal,
        ensures
            self is Comment ==> r == self->Comment_0,
            self is Identifier ==> r == self->Identifier_0,
            self is Literal ==> r == self->Literal_0,
    {
        match *self {
            Lexeme::Comment(v) | Lexeme::Identifier(v) | Lexeme::Literal(v) => v,
            _ => unreached(),
        }
    }

    /// Whether an `Expr` lexeme only holds literals, escapes and variable references.
    pub fn check(&self) -> (r: bool)
        ensures
            r == expr_items_ok(*self),
    {
        match self {
            Lexeme::Expr(items) => {
                let mut k: usize = 0;
                while k < items.len()
                    invariant
                        *self == Lexeme::Expr(*items),
                        k <= items.len(),
                        forall|j: int| 0 <= j < k ==> is_piece(#[trigger] items@[j]),
                    decreases items.len() - k,
                {
                    if !is_piece_exec(&items[k]) {
                        assert(!pieces_ok(items@)) by {
                            assert(!is_piece(items@[k as int]));
                        }
                        return false;
                    }
                    k = k + 1;
                }
                true
            },
            _ => true,
        }
    }
}

/// Whether a lexeme may stand inside an `Expr`.
pub open spec fn is_piece(l: Lexeme) -> bool {
    l is Literal || l is Escape || l is VarRef
}

pub open spec fn pieces_ok(s: Seq<Lexeme>) -> bool {
    forall|k: int| 0 <= k < s.len() ==> is_piece(#[trigger] s[k])
}

pub open spec fn expr_items_ok(l: Lexeme) -> bool {
    match l {
        Lexeme::Expr(items) => pieces_ok(items@),
        _ => true,
    }
}

fn is_piece_exec(l: &Lexeme) -> (r: bool)
    ensures
        r == is_piece(*l),
{
    match l {
        Lexeme::Literal(_) | Lexeme::Escape(_) | Lexeme::VarRef(_, _) => true,
        _ => false,
    }
}

/// What the lexer expects to read next.
#[derive(Copy, Clone, Debug, PartialEq, Eq, Structural)]
pub enum LexerMode {
    /// Keywords, identifiers and punctuation.
    Default,
    /// Space separated paths (after `build`, `default`, `include`, `subninja`).
    PathMode,
    /// The right hand side of a binding.
    ValueMode,
    /// The rule name after the `:` of a build edge; paths follow it.
    BuildRuleMode,
}

#[derive(Copy, Clone, Debug, PartialEq, Eq, Structural)]
pub enum LexerError {
    /// Different from the lexer returning None. This means an EOF was encountered while looking
    /// for a valid lexeme. The lexer returns None when a valid lexeme was found and then an EOF
    /// was encountered.
    UnexpectedEof(Pos),
    IllegalCharacter(Pos, u8),
    NotAnIdentifier(Pos, u8),
    MissingBrace(Pos),
}

pub type LexerResult<'a> = Result<Lexeme<'a>, LexerError>;

pub type TokenPos<'a> = (Lexeme<'a>, Pos);

pub type LexerItem<'a> = Result<TokenPos<'a>, LexerError>;

/// The value of an item yielded by the lexer.
pub type ItemView = Result<(LexemeView, usize), LexerError>;

pub open spec fn item_view(item: LexerItem) -> ItemView {
    match item {
        Ok((l, p)) => Ok((lexeme_view(l), p.0)),
        Err(e) => Err(e),
    }
}

pub open spec fn opt_item_view(item: Option<LexerItem>) -> Option<ItemView> {
    match item {
        Some(i) => Some(item_view(i)),
        None => None,
    }
}

// ---------------------------------------------------------------------------------------------
// The specification of the lexer.
// ---------------------------------------------------------------------------------------------
pub const LF: u8 = 10;
pub const TAB: u8 = 9;
pub const CR: u8 = 13;
pub const SPACE: u8 = 32;
pub const HASH: u8 = 35;
pub const DOLLAR: u8 = 36;
pub const COLON: u8 = 58;
pub const EQUALS: u8 = 61;
pub const LBRACE: u8 = 123;
pub const PIPE: u8 = 124;
pub const RBRACE: u8 = 125;

pub open spec fn is_ident_byte(c: u8) -> bool {
    (97 <= c <= 122) || (65 <= c <= 90) || (48 <= c <= 57) || c == 95 || c == 45
}

pub open spec fn is_hws(c: u8) -> bool {
    c == 32 || c == 9
}

/// End of the run of identifier bytes that starts at `i`.
pub open spec fn ident_end(d: Seq<u8>, i: int) -> int
    decreases d.len() - i,
{
    if 0 <= i < d.len() && is_ident_byte(d[i]) {
        ident_end(d, i + 1)
    } else {
        i
    }
}

/// End of the run of spaces and tabs that starts at `i`.
pub open spec fn hws_end(d: Seq<u8>, i: int) -> int
    decreases d.len() - i,
{
    if 0 <= i < d.len() && is_hws(d[i]) {
        hws_end(d, i + 1)
    } else {
        i
    }
}

/// The first newline at or after `i`, or the end of the input.
pub open spec fn newline_from(d: Seq<u8>, i: int) -> int
    decreases d.len() - i,
{
    if 0 <= i < d.len() && d[i] != 10 {
        newline_from(d, i + 1)
    } else {
        i
    }
}

/// Whether a literal stops at byte `c`. In paths, spaces, pipes and colons end a literal too.
pub open spec fn ends_literal(c: u8, in_path: bool) -> bool {
    c == 36 || c == 35 || c == 10 || (in_path && (c == 32 || c == 124 || c == 58))
}

/// End of the literal that starts at `i`.
pub open spec fn literal_end(d: Seq<u8>, i: int, in_path: bool) -> int
    decreases d.len() - i,
{
    if 0 <= i < d.len() && !ends_literal(d[i], in_path) {
        literal_end(d, i + 1, in_path)
    } else {
        i
    }
}

/// The offsets at which the lines that begin before offset `i` start: 0, and one past each
/// newline before `i`.
pub open spec fn line_starts(d: Seq<u8>, i: nat) -> Seq<usize>
    decreases i,
{
    if i == 0 {
        seq![0usize]
    } else {
        let p = line_starts(d, (i - 1) as nat);
        if (i - 1) < d.len() && d[i - 1] == 10 {
            p.push(i as usize)
        } else {
            p
        }
    }
}

/// Whether `i` is the first offset of a line.
pub open spec fn at_line_start(d: Seq<u8>, i: int) -> bool {
    i == 0 || d[i - 1] == 10
}

/// The outcome of reading one lexeme: the lexeme or an error, with the offset and mode after.
pub enum Step {
    Tok(LexemeView, int, LexerMode),
    Fail(LexerError, int, LexerMode),
}

/// Reads the escape sequence that starts with the `$` at `i`; the mode is left as it is.
pub open spec fn spec_escape(d: Seq<u8>, i: int, m: LexerMode) -> Step {
    let j = i + 1;
    if j >= d.len() {
        Step::Fail(LexerError::UnexpectedEof(Pos(i as usize)), d.len() as int, m)
    } else {
        let c = d[j];
        if c == 10 {
            Step::Tok(LexemeView::Escape(Seq::empty()), hws_end(d, j + 1), m)
        } else if c == 32 || c == 13 || c == 36 || c == 58 {
            Step::Tok(LexemeView::Escape(d.subrange(j, j + 1)), j + 1, m)
        } else if c == 123 {
            let k = j + 1;
            if k >= d.len() {
                Step::Fail(LexerError::UnexpectedEof(Pos(j as usize)), d.len() as int, m)
            } else if is_ident_byte(d[k]) {
                let e = ident_end(d, k);
                if e >= d.len() {
                    Step::Fail(LexerError::UnexpectedEof(Pos((e - 1) as usize)), e, m)
                } else if d[e] != 125 {
                    Step::Fail(LexerError::MissingBrace(Pos(e as usize)), e, m)
                } else {
                    Step::Tok(
                        LexemeView::VarRef(VarRefType::WithParens, d.subrange(k, e)),
                        e + 1,
                        m,
                    )
                }
            } else {
                Step::Fail(LexerError::NotAnIdentifier(Pos(k as usize), d[k]), k, m)
            }
        } else if is_ident_byte(c) {
            let e = ident_end(d, j);
            Step::Tok(LexemeView::VarRef(VarRefType::WithoutParens, d.subrange(j, e)), e, m)
        } else {
            Step::Fail(LexerError::IllegalCharacter(Pos(j as usize), c), j + 1, m)
        }
    }
}

/// Reads a literal at `i` in path or value mode. Ending at a newline switches to the default
/// mode.
pub open spec fn spec_literal(d: Seq<u8>, i: int, m: LexerMode) -> Step {
    let e = literal_end(d, i, m == LexerMode::PathMode);
    let m2 = if e < d.len() && d[e] == 10 {
        LexerMode::Default
    } else {
        m
    };
    Step::Tok(LexemeView::Literal(d.subrange(i, e)), e, m2)
}

/// Reads one piece (an escape or a literal) of a path or a value at `i`.
pub open spec fn spec_piece(d: Seq<u8>, i: int, m: LexerMode) -> Step {
    if d[i] == 36 {
        spec_escape(d, i, m)
    } else {
        spec_literal(d, i, m)
    }
}

/// Reads the rest of a path (`target` is the path mode) or value (`target` is the value mode)
/// whose pieces so far are `acc`, at offset `j` in mode `m`.
pub open spec fn expr_rest(
    d: Seq<u8>,
    j: int,
    m: LexerMode,
    target: LexerMode,
    acc: Seq<LexemeView>,
) -> Step
    decreases d.len() - j,
{
    if m != target || j >= d.len() || j < 0 {
        Step::Tok(LexemeView::Expr(acc), j, m)
    } else {
        let c = d[j];
        if c == 10 || c == 35 {
            Step::Tok(LexemeView::Expr(acc), j, LexerMode::Default)
        } else if target == LexerMode::PathMode && (c == 32 || c == 124) {
            Step::Tok(LexemeView::Expr(acc), j, m)
        } else if target == LexerMode::PathMode && c == 58 {
            Step::Tok(LexemeView::Expr(acc), j, LexerMode::BuildRuleMode)
        } else {
            match spec_piece(d, j, m) {
                Step::Tok(p, j2, m2) => if j < j2 <= d.len() {
                    expr_rest(d, j2, m2, target, acc.push(p))
                } else {
                    Step::Tok(LexemeView::Expr(acc.push(p)), j2, m2)
                },
                Step::Fail(e, j2, m2) => Step::Fail(e, j2, m2),
            }
        }
    }
}

/// Reads a whole path or value that starts at `i`, in mode `target`.
pub open spec fn spec_expr(d: Seq<u8>, i: int, target: LexerMode) -> Step {
    match spec_piece(d, i, target) {
        Step::Tok(p, j, m) => expr_rest(d, j, m, target, seq![p]),
        Step::Fail(e, j, m) => Step::Fail(e, j, m),
    }
}

/// The keyword that an identifier spells, if any, and the mode that follows it.
pub open spec fn spec_keyword(word: Seq<u8>, m: LexerMode) -> (LexemeView, LexerMode) {
    if word == seq![98u8, 117, 105, 108, 100] {
        (LexemeView::Build, LexerMode::PathMode)
    } else if word == seq![100u8, 101, 102, 97, 117, 108, 116] {
        (LexemeView::Default, LexerMode::PathMode)
    } else if word == seq![105u8, 110, 99, 108, 117, 100, 101] {
        (LexemeView::Include, LexerMode::PathMode)
    } else if word == seq![112u8, 111, 111, 108] {
        (LexemeView::Pool, m)
    } else if word == seq![114u8, 117, 108, 101] {
        (LexemeView::Rule, m)
    } else if word == seq![115u8, 117, 98, 110, 105, 110, 106, 97] {
        (LexemeView::Subninja, LexerMode::PathMode)
    } else {
        (LexemeView::Identifier(word), m)
    }
}

pub type Next = (Option<ItemView>, int, LexerMode);

pub open spec fn step_item(s: Step, pos: int) -> Next {
    match s {
        Step::Tok(l, j, m) => (Some(Ok((l, pos as usize))), j, m),
        Step::Fail(e, j, m) => (Some(Err(e)), j, m),
    }
}

/// The lexeme that starts with the (non blank) byte at `i`.
pub open spec fn lex_token(d: Seq<u8>, i: int, m: LexerMode) -> Next {
    let c = d[i];
    let pos = i as usize;
    if c == 10 {
        (Some(Ok((LexemeView::Newline, pos))), i + 1, LexerMode::Default)
    } else if c == 61 {
        (Some(Ok((LexemeView::Equals, pos))), hws_end(d, i + 1), LexerMode::ValueMode)
    } else if m == LexerMode::ValueMode {
        step_item(spec_expr(d, i, LexerMode::ValueMode), i)
    } else if c == 58 {
        (Some(Ok((LexemeView::Colon, pos))), i + 1, m)
    } else if c == 124 {
        if i + 1 < d.len() && d[i + 1] == 124 {
            (Some(Ok((LexemeView::Pipe2, pos))), i + 2, m)
        } else {
            (Some(Ok((LexemeView::Pipe, pos))), i + 1, m)
        }
    } else if c == 35 {
        // A comment runs to the end of the line and takes the newline with it.
        let e = newline_from(d, i + 1);
        if e < d.len() {
            (Some(Ok((LexemeView::Comment(d.subrange(i, e + 1)), pos))), e + 1, LexerMode::Default)
        } else {
            (Some(Ok((LexemeView::Comment(d.subrange(i, e)), pos))), e, LexerMode::Default)
        }
    } else if m == LexerMode::PathMode {
        step_item(spec_expr(d, i, LexerMode::PathMode), i)
    } else if is_ident_byte(c) {
        let e = ident_end(d, i);
        let m1 = if m == LexerMode::BuildRuleMode {
            LexerMode::PathMode
        } else {
            m
        };
        let (l, m2) = spec_keyword(d.subrange(i, e), m1);
        (Some(Ok((l, pos))), e, m2)
    } else {
        (Some(Err(LexerError::NotAnIdentifier(Pos(pos), c))), i + 1, m)
    }
}

/// The next item of the lexer at offset `i` in mode `m`, with the offset and mode after it.
///
/// Spaces and tabs at the start of a line yield an `Indent` (outside of values); elsewhere they
/// are skipped, except inside a value, where they belong to it.
pub open spec fn lex_next(d: Seq<u8>, i: int, m: LexerMode) -> Next
    decreases d.len() - i,
{
    if i < 0 || i >= d.len() {
        (None, i, m)
    } else if is_hws(d[i]) && (m != LexerMode::ValueMode || at_line_start(d, i)) {
        let e = hws_end(d, i);
        if m != LexerMode::ValueMode && at_line_start(d, i) {
            (Some(Ok((LexemeView::Indent, i as usize))), e, m)
        } else if i < e <= d.len() {
            lex_next(d, e, m)
        } else {
            (None, e, m)
        }
    } else {
        lex_token(d, i, m)
    }
}

// ---------------------------------------------------------------------------------------------
// Lemmas about the specification.
// ---------------------------------------------------------------------------------------------
proof fn lemma_ident_end(d: Seq<u8>, i: int)
    requires
        0 <= i <= d.len(),
    ensures
        i <= ident_end(d, i) <= d.len(),
        forall|k: int| i <= k < ident_end(d, i) ==> is_ident_byte(#[trigger] d[k]),
        ident_end(d, i) < d.len() ==> !is_ident_byte(d[ident_end(d, i)]),
    decreases d.len() - i,
{
    if i < d.len() && is_ident_byte(d[i]) {
        lemma_ident_end(d, i + 1);
    }
}

proof fn lemma_hws_end(d: Seq<u8>, i: int)
    requires
        0 <= i <= d.len(),
    ensures
        i <= hws_end(d, i) <= d.len(),
        forall|k: int| i <= k < hws_end(d, i) ==> is_hws(#[trigger] d[k]),
        hws_end(d, i) < d.len() ==> !is_hws(d[hws_end(d, i)]),
    decreases d.len() - i,
{
    if i < d.len() && is_hws(d[i]) {
        lemma_hws_end(d, i + 1);
    }
}

proof fn lemma_newline_from(d: Seq<u8>, i: int)
    requires
        0 <= i <= d.len(),
    ensures
        i <= newline_from(d, i) <= d.len(),
        forall|k: int| i <= k < newline_from(d, i) ==> #[trigger] d[k] != 10,
        newline_from(d, i) < d.len() ==> d[newline_from(d, i)] == 10,
    decreases d.len() - i,
{
    if i < d.len() && d[i] != 10 {
        lemma_newline_from(d, i + 1);
    }
}

proof fn lemma_literal_end(d: Seq<u8>, i: int, in_path: bool)
    requires
        0 <= i <= d.len(),
    ensures
        i <= literal_end(d, i, in_path) <= d.len(),
        forall|k: int| i <= k < literal_end(d, i, in_path) ==> !ends_literal(#[trigger] d[k], in_path),
        literal_end(d, i, in_path) < d.len() ==> ends_literal(d[literal_end(d, i, in_path)], in_path),
    decreases d.len() - i,
{
    if i < d.len() && !ends_literal(d[i], in_path) {
        lemma_literal_end(d, i + 1, in_path);
    }
}

/// Moving over bytes that are not newlines leaves the line starts as they are.
proof fn lemma_line_starts_no_newline(d: Seq<u8>, i: nat, j: nat)
    requires
        i <= j <= d.len(),
        forall|k: int| i <= k < j ==> #[trigger] d[k] != 10,
    ensures
        line_starts(d, j) == line_starts(d, i),
    decreases j - i,
{
    if j > i {
        lemma_line_starts_no_newline(d, i, (j - 1) as nat);
    }
}

/// The line starts are strictly increasing, start with 0 and do not pass `i`.
proof fn lemma_line_starts_shape(d: Seq<u8>, i: nat)
    requires
        i <= d.len(),
        d.len() < usize::MAX,
    ensures
        line_starts(d, i).len() >= 1,
        line_starts(d, i)[0] == 0,
        forall|a: int, b: int|
            0 <= a < b < line_starts(d, i).len() ==> line_starts(d, i)[a] < line_starts(d, i)[b],
        forall|a: int| 0 <= a < line_starts(d, i).len() ==> line_starts(d, i)[a] <= i,
        at_line_start(d, i as int) <==> line_starts(d, i).last() == i,
    decreases i,
{
    if i > 0 {
        lemma_line_starts_shape(d, (i - 1) as nat);
        let p = line_starts(d, (i - 1) as nat);
        let s = line_starts(d, i);
        assert(p.last() <= i - 1);
        if d[i - 1] == LF {
            assert(s == p.push(i as usize));
            assert forall|a: int, b: int| 0 <= a < b < s.len() implies s[a] < s[b] by {
                if b < p.len() {
                    assert(s[a] == p[a] && s[b] == p[b]);
                } else {
                    assert(s[a] == p[a]);
                }
            }
        } else {
            assert(s == p);
        }
    }
}

// ---------------------------------------------------------------------------------------------
// The lexer.
// ---------------------------------------------------------------------------------------------
#[derive(Debug)]
pub struct Lexer<'a> {
    data: &'a [u8],
    source_name: Option<Vec<u8>>,
    offset: usize,
    // consider using `smallvec` later.
    line_offsets: Vec<usize>,
    lexer_mode: LexerMode,
}

impl<'a> Lexer<'a> {
    pub closed spec fn spec_data(&self) -> Seq<u8> {
        self.data@
    }

    pub closed spec fn spec_offset(&self) -> int {
        self.offset as int
    }

    pub closed spec fn spec_mode(&self) -> LexerMode {
        self.lexer_mode
    }

    pub closed spec fn spec_source_name(&self) -> Option<Vec<u8>> {
        self.source_name
    }

    pub closed spec fn spec_line_offsets(&self) -> Seq<usize> {
        self.line_offsets@
    }

    /// The lexer's offset lies in the data, and the recorded line offsets are those of the lines
    /// that start at or before it.
    pub closed spec fn wf(&self) -> bool {
        &&& self.data@.len() < usize::MAX
        &&& self.offset <= self.data@.len()
        &&& self.line_offsets@ == line_starts(self.data@, self.offset as nat)
    }

    /// The offset of a well formed lexer lies in its data.
    pub proof fn lemma_wf(&self)
        requires
            self.wf(),
        ensures
            self.spec_offset() <= self.spec_data().len(),
            self.spec_data().len() < usize::MAX,
    {
    }

    pub fn new(data: &'a [u8], source_name: Option<Vec<u8>>) -> (r: Lexer<'a>)
        requires
            data@.len() < usize::MAX,
        ensures
            r.wf(),
            r.spec_data() == data@,
            r.spec_offset() == 0,
            r.spec_mode() == LexerMode::Default,
            r.spec_source_name() == source_name,
            lex_measure(r.spec_offset(), r.spec_mode()) == 1,
    {
        let mut line_offsets: Vec<usize> = Vec::new();
        line_offsets.push(0);
        let r = Lexer { data, source_name, offset: 0, line_offsets, lexer_mode: LexerMode::Default };
        assert(r.line_offsets@ =~= line_starts(data@, 0));
        r
    }

    fn skip_horizontal_whitespace(&mut self)
        requires
            old(self).wf(),
        ensures
            final(self).wf(),
            final(self).data == old(self).data,
            final(self).source_name == old(self).source_name,
            final(self).lexer_mode == old(self).lexer_mode,
            final(self).offset == hws_end(old(self).data@, old(self).offset as int),
    {
        proof {
            lemma_hws_end(self.data@, self.offset as int);
        }
        let ghost start = self.offset;
        while self.offset < self.data.len() && (self.data[self.offset] == SPACE || self.data[
            self.offset
        ] == TAB)
            invariant
                start <= self.offset <= self.data@.len(),
                self.data == old(self).data,
                self.source_name == old(self).source_name,
                self.lexer_mode == old(self).lexer_mode,
                self.line_offsets == old(self).line_offsets,
                hws_end(self.data@, start as int) == hws_end(self.data@, self.offset as int),
                forall|k: int| start <= k < self.offset ==> #[trigger] self.data@[k] != 10,
            decreases self.data@.len() - self.offset,
        {
            self.offset = self.offset + 1;
        }
        proof {
            lemma_line_starts_no_newline(self.data@, start as nat, self.offset as nat);
        }
    }

    fn is_permitted_identifier_char(ch: u8) -> (r: bool)
        ensures
            r == is_ident_byte(ch),
    {
        (97 <= ch && ch <= 122) || (65 <= ch && ch <= 90) || (48 <= ch && ch <= 57)
            || ch == 95 || ch == 45
    }

    /// Reads the identifier at the current offset.
    fn read_identifier(&mut self) -> (r: &'a [u8])
        requires
            old(self).wf(),
        ensures
            final(self).wf(),
            final(self).data == old(self).data,
            final(self).source_name == old(self).source_name,
            final(self).lexer_mode == old(self).lexer_mode,
            final(self).offset == ident_end(old(self).data@, old(self).offset as int),
            r@ == final(self).data@.subrange(old(self).offset as int, final(self).offset as int),
    {
        proof {
            lemma_ident_end(self.data@, self.offset as int);
        }
        let span_start = self.offset;
        while self.offset < self.data.len() && Lexer::is_permitted_identifier_char(
            self.data[self.offset],
        )
            invariant
                span_start <= self.offset <= self.data@.len(),
                self.data == old(self).data,
                self.source_name == old(self).source_name,
                self.lexer_mode == old(self).lexer_mode,
                self.line_offsets == old(self).line_offsets,
                ident_end(self.data@, span_start as int) == ident_end(
                    self.data@,
                    self.offset as int,
                ),
                forall|k: int| span_start <= k < self.offset ==> is_ident_byte(#[trigger] self.data@[k]),
            decreases self.data@.len() - self.offset,
        {
            self.offset = self.offset + 1;
        }
        proof {
            lemma_line_starts_no_newline(self.data@, span_start as nat, self.offset as nat);
        }
        &self.data[span_start..self.offset]
    }

    fn lookup_keyword(&mut self, ident: &'a [u8]) -> (r: Lexeme<'a>)
        ensures
            (lexeme_view(r), final(self).lexer_mode) == spec_keyword(ident@, old(self).lexer_mode),
            final(self).data == old(self).data,
            final(self).source_name == old(self).source_name,
            final(self).offset == old(self).offset,
            final(self).line_offsets == old(self).line_offsets,
    {
        if bytes_eq(ident, &[98u8, 117, 105, 108, 100]) {
            self.lexer_mode = LexerMode::PathMode;
            Lexeme::Build
        } else if bytes_eq(ident, &[100u8, 101, 102, 97, 117, 108, 116]) {
            self.lexer_mode = LexerMode::PathMode;
            Lexeme::Default
        } else if bytes_eq(ident, &[105u8, 110, 99, 108, 117, 100, 101]) {
            self.lexer_mode = LexerMode::PathMode;
            Lexeme::Include
        } else if bytes_eq(ident, &[112u8, 111, 111, 108]) {
            Lexeme::Pool
        } else if bytes_eq(ident, &[114u8, 117, 108, 101]) {
            Lexeme::Rule
        } else if bytes_eq(ident, &[115u8, 117, 98, 110, 105, 110, 106, 97]) {
            self.lexer_mode = LexerMode::PathMode;
            Lexeme::Subninja
        } else {
            Lexeme::Identifier(ident)
        }
    }

    /// Moves past the newline at the current offset and records the line that begins after it.
    fn consume_newline(&mut self)
        requires
            old(self).wf(),
            old(self).offset < old(self).data@.len(),
            old(self).data@[old(self).offset as int] == 10,
        ensures
            final(self).wf(),
            final(self).data == old(self).data,
            final(self).source_name == old(self).source_name,
            final(self).lexer_mode == old(self).lexer_mode,
            final(self).offset == old(self).offset + 1,
    {
        self.offset = self.offset + 1;
        self.line_offsets.push(self.offset);
    }

    fn done(&self) -> (r: bool)
        ensures
            r == (self.offset >= self.data@.len()),
    {
        self.offset >= self.data.len()
    }

    /// May only be called once the stream is consumed, to ensure we got line numbers right when a
    /// conversion to Position is requested.
    pub fn last_pos(&self) -> (r: Pos)
        requires
            self.wf(),
            self.spec_offset() >= self.spec_data().len(),
        ensures
            r.0 == self.spec_data().len(),
    {
        Pos(self.data.len())
    }

    pub fn current_pos(&self) -> (r: Pos)
        ensures
            r.0 == self.spec_offset(),
    {
        Pos(self.offset)
    }

    /// The line (counting the recorded line starts at or before `pos`) and the column (one more
    /// than the distance from the start of that line) of `pos`. For an offset the lexer has
    /// reached, these are the line and column of that offset in the data.
    pub fn to_position(&self, pos: Pos) -> (r: Position)
        requires
            self.wf(),
            pos.0 <= self.spec_data().len(),
        ensures
            1 <= r.line <= self.spec_line_offsets().len(),
            r.line == count_le(self.spec_line_offsets(), pos.0 as int),
            r.column == pos.0 - self.spec_line_offsets()[r.line - 1] + 1,
            opt_bytes(r.source_name) == opt_bytes(self.spec_source_name()),
            pos.0 <= self.spec_offset() ==> r.line == line_of(self.spec_data(), pos.0 as int)
                && r.column == pos.0 - line_start_of(self.spec_data(), pos.0 as int) + 1,
    {
        proof {
            lemma_line_starts_shape(self.data@, self.offset as nat);
            if pos.0 <= self.offset {
                lemma_line_starts_prefix(self.data@, pos.0 as nat, self.offset as nat);
            }
        }
        let n = self.line_offsets.len();
        let mut idx: usize = 1;
        while idx < n && self.line_offsets[idx] <= pos.0
            invariant
                1 <= idx <= n,
                n == self.line_offsets@.len(),
                forall|k: int| 0 <= k < idx ==> self.line_offsets@[k] <= pos.0,
            decreases n - idx,
        {
            idx = idx + 1;
        }
        proof {
            lemma_count_le_sorted(self.line_offsets@, pos.0 as int, idx as int);
        }
        let start = self.line_offsets[idx - 1];
        Position::new(clone_name(&self.source_name), idx, pos.0 - start + 1)
    }

    /// The bytes of the given line, without its newline.
    pub fn retrieve_line(&self, position: &Position) -> (r: &'a [u8])
        requires
            self.wf(),
            1 <= position.line <= self.spec_line_offsets().len(),
        ensures
            r@ == self.spec_data().subrange(
                self.spec_line_offsets()[position.line - 1] as int,
                newline_from(self.spec_data(), self.spec_line_offsets()[position.line - 1] as int),
            ),
    {
        proof {
            lemma_line_starts_shape(self.data@, self.offset as nat);
        }
        let idx = position.line - 1;
        let start = self.line_offsets[idx];
        // The line runs up to the next newline, or to the end of the data.
        let mut end = start;
        proof {
            lemma_newline_from(self.data@, start as int);
        }
        while end < self.data.len() && self.data[end] != LF
            invariant
                start <= end <= self.data@.len(),
                newline_from(self.data@, start as int) == newline_from(self.data@, end as int),
            decreases self.data@.len() - end,
        {
            end = end + 1;
        }
        &self.data[start..end]
    }

    fn read_comment(&mut self) -> (r: Lexeme<'a>)
        requires
            old(self).wf(),
            old(self).offset < old(self).data@.len(),
            old(self).data@[old(self).offset as int] == 35,
        ensures
            final(self).wf(),
            final(self).data == old(self).data,
            final(self).source_name == old(self).source_name,
            ({
                let (item, j, m) = lex_token(old(self).data@, old(self).offset as int, LexerMode::Default);
                item == Some(Ok::<_, LexerError>((lexeme_view(r), old(self).offset)))
                    && j == final(self).offset && m == final(self).lexer_mode
            }),
    {
        let start = self.offset;  // Includes the '#' in the comment.
        self.offset = self.offset + 1;
        proof {
            lemma_newline_from(self.data@, self.offset as int);
        }
        while self.offset < self.data.len() && self.data[self.offset] != LF
            invariant
                start < self.offset <= self.data@.len(),
                self.data == old(self).data,
                self.source_name == old(self).source_name,
                self.line_offsets == old(self).line_offsets,
                newline_from(self.data@, start + 1) == newline_from(self.data@, self.offset as int),
                forall|k: int| start <= k < self.offset ==> #[trigger] self.data@[k] != 10,
            decreases self.data@.len() - self.offset,
        {
            self.offset = self.offset + 1;
        }
        proof {
            lemma_line_starts_no_newline(self.data@, start as nat, self.offset as nat);
        }
        // If ended because of newline, make the newline a part of the comment and record a line.
        // This simplifies the parser because it doesn't have to remember to discard newlines every
        // time it sees a comment.
        if self.offset < self.data.len() {
            self.consume_newline();
        }
        self.lexer_mode = LexerMode::Default;
        Lexeme::Comment(&self.data[start..self.offset])
    }
}

impl<'a> Lexer<'a> {
    /// Moves past the byte at the current offset, which is not a newline.
    fn advance(&mut self)
        requires
            old(self).wf(),
            old(self).offset < old(self).data@.len(),
            old(self).data@[old(self).offset as int] != LF,
        ensures
            final(self).wf(),
            final(self).data == old(self).data,
            final(self).source_name == old(self).source_name,
            final(self).lexer_mode == old(self).lexer_mode,
            final(self).offset == old(self).offset + 1,
    {
        proof {
            lemma_line_starts_no_newline(self.data@, self.offset as nat, (self.offset + 1) as nat);
        }
        self.offset = self.offset + 1;
    }

    fn read_escape(&mut self) -> (r: LexerResult<'a>)
        requires
            old(self).wf(),
            old(self).offset < old(self).data@.len(),
            old(self).data@[old(self).offset as int] == DOLLAR,
        ensures
            final(self).wf(),
            final(self).data == old(self).data,
            final(self).source_name == old(self).source_name,
            final(self).lexer_mode == old(self).lexer_mode,
            matches_step(
                r,
                final(self).offset,
                final(self).lexer_mode,
                spec_escape(old(self).data@, old(self).offset as int, old(self).lexer_mode),
            ),
            r is Ok ==> is_piece(r->Ok_0),
            r is Ok ==> final(self).offset >= old(self).offset + 2,
    {
        let i = self.offset;
        self.advance();
        if self.done() {
            return Err(LexerError::UnexpectedEof(Pos(i)));
        }
        let ch = self.data[self.offset];
        if ch == LF {
            let ret = Lexeme::Escape(&self.data[self.offset..self.offset]);
            // Unlike other escapes, this does not yield the newline. It throws it away without
            // breaking whatever mode we are currently in, and also skips the indentation of the
            // next line.
            self.consume_newline();
            proof {
                lemma_hws_end(self.data@, self.offset as int);
            }
            self.skip_horizontal_whitespace();
            proof {
                assert(ret->Escape_0@ =~= Seq::<u8>::empty());
            }
            Ok(ret)
        } else if ch == SPACE || ch == CR || ch == DOLLAR || ch == COLON {
            self.advance();
            Ok(Lexeme::Escape(&self.data[self.offset - 1..self.offset]))
        } else if ch == LBRACE {
            let pos = self.offset;
            self.advance();
            if self.done() {
                return Err(LexerError::UnexpectedEof(Pos(pos)));
            }
            let c2 = self.data[self.offset];
            if Lexer::is_permitted_identifier_char(c2) {
                proof {
                    lemma_ident_end(self.data@, self.offset as int);
                }
                let ident = self.read_identifier();
                if self.done() {
                    Err(LexerError::UnexpectedEof(Pos(self.offset - 1)))
                } else if self.data[self.offset] != RBRACE {
                    Err(LexerError::MissingBrace(Pos(self.offset)))
                } else {
                    // Move past closing brace.
                    self.advance();
                    Ok(Lexeme::VarRef(VarRefType::WithParens, ident))
                }
            } else {
                Err(LexerError::NotAnIdentifier(Pos(self.offset), c2))
            }
        } else if Lexer::is_permitted_identifier_char(ch) {
            proof {
                lemma_ident_end(self.data@, self.offset as int);
            }
            let ident = self.read_identifier();
            Ok(Lexeme::VarRef(VarRefType::WithoutParens, ident))
        } else {
            // Skip over the illegal character.
            self.advance();
            Err(LexerError::IllegalCharacter(Pos(self.offset - 1), ch))
        }
    }

    /// Reads a literal in path or value mode.
    fn read_literal_common(&mut self) -> (r: Lexeme<'a>)
        requires
            old(self).wf(),
            old(self).lexer_mode == LexerMode::PathMode || old(self).lexer_mode
                == LexerMode::ValueMode,
        ensures
            final(self).wf(),
            final(self).data == old(self).data,
            final(self).source_name == old(self).source_name,
            matches_step(
                Ok(r),
                final(self).offset,
                final(self).lexer_mode,
                spec_literal(old(self).data@, old(self).offset as int, old(self).lexer_mode),
            ),
            r is Literal,
    {
        let start = self.offset;
        let in_path = self.lexer_mode == LexerMode::PathMode;
        proof {
            lemma_literal_end(self.data@, start as int, in_path);
        }
        while self.offset < self.data.len() && !ends_literal_exec(self.data[self.offset], in_path)
            invariant
                start <= self.offset <= self.data@.len(),
                self.data@.len() < usize::MAX,
                self.data == old(self).data,
                self.source_name == old(self).source_name,
                self.lexer_mode == old(self).lexer_mode,
                self.line_offsets == old(self).line_offsets,
                in_path == (self.lexer_mode == LexerMode::PathMode),
                literal_end(self.data@, start as int, in_path) == literal_end(
                    self.data@,
                    self.offset as int,
                    in_path,
                ),
                forall|k: int| start <= k < self.offset ==> #[trigger] self.data@[k] != LF,
            decreases self.data@.len() - self.offset,
        {
            self.offset = self.offset + 1;
        }
        proof {
            lemma_line_starts_no_newline(self.data@, start as nat, self.offset as nat);
        }
        if self.offset < self.data.len() && self.data[self.offset] == LF {
            // Done with this literal. also switch modes.
            self.lexer_mode = LexerMode::Default;
        }
        Lexeme::Literal(&self.data[start..self.offset])
    }

    /// Reads a space separated path, which may hold escapes and variable references, in
    /// `target` (path) mode, or a value in `target` (value) mode.
    fn read_expr(&mut self, target: LexerMode) -> (r: LexerResult<'a>)
        requires
            old(self).wf(),
            old(self).offset < old(self).data@.len(),
            old(self).lexer_mode == target,
            target == LexerMode::PathMode || target == LexerMode::ValueMode,
        ensures
            final(self).wf(),
            final(self).data == old(self).data,
            final(self).source_name == old(self).source_name,
            matches_step(
                r,
                final(self).offset,
                final(self).lexer_mode,
                spec_expr(old(self).data@, old(self).offset as int, target),
            ),
    {
        let ghost d = self.data@;
        let ghost i0 = self.offset as int;
        let mut lexemes: Vec<Lexeme<'a>> = Vec::new();
        let first = if self.data[self.offset] == DOLLAR {
            self.read_escape()?
        } else {
            self.read_literal_common()
        };
        lexemes.push(first);
        proof {
            assert(pieces_view(lexemes@) =~= seq![piece_view(first)]);
        }
        loop
            invariant
                self.wf(),
                self.data@ == d,
                self.data == old(self).data,
                d == old(self).data@,
                i0 == old(self).offset,
                self.source_name == old(self).source_name,
                target == LexerMode::PathMode || target == LexerMode::ValueMode,
                spec_expr(d, i0, target) == expr_rest(
                    d,
                    self.offset as int,
                    self.lexer_mode,
                    target,
                    pieces_view(lexemes@),
                ),
            ensures
                self.wf(),
                self.data == old(self).data,
                self.source_name == old(self).source_name,
                spec_expr(d, i0, target) == Step::Tok(
                    LexemeView::Expr(pieces_view(lexemes@)),
                    self.offset as int,
                    self.lexer_mode,
                ),
            decreases self.data@.len() - self.offset,
        {
            if self.lexer_mode != target || self.done() {
                break;
            }
            let ch = self.data[self.offset];
            if ch == LF || ch == HASH {
                // Done with this path or value. also switch modes.
                self.lexer_mode = LexerMode::Default;
                break;
            } else if target == LexerMode::PathMode && (ch == SPACE || ch == PIPE) {
                // Done with this path.
                break;
            } else if target == LexerMode::PathMode && ch == COLON {
                // Separate from default because after reading the rule, we need to go back
                // to PathMode.
                self.lexer_mode = LexerMode::BuildRuleMode;
                break;
            } else if ch == DOLLAR {
                let ghost acc = pieces_view(lexemes@);
                let p = self.read_escape()?;
                lexemes.push(p);
                proof {
                    assert(pieces_view(lexemes@) =~= acc.push(piece_view(p)));
                }
            } else {
                let ghost acc = pieces_view(lexemes@);
                let ghost j = self.offset as int;
                proof {
                    lemma_literal_end(d, j, target == LexerMode::PathMode);
                }
                let p = self.read_literal_common();
                lexemes.push(p);
                proof {
                    assert(pieces_view(lexemes@) =~= acc.push(piece_view(p)));
                }
            }
        }
        Ok(Lexeme::Expr(lexemes))
    }

    // Reading a path... probably requires a path to be more of a parser Expr than yielding
    // multiple literal/escape lexemes, since it is hard for the parser to distinguish multiple
    // paths in that case.
    fn read_path(&mut self) -> (r: LexerResult<'a>)
        requires
            old(self).wf(),
            old(self).offset < old(self).data@.len(),
            old(self).lexer_mode == LexerMode::PathMode,
        ensures
            final(self).wf(),
            final(self).data == old(self).data,
            final(self).source_name == old(self).source_name,
            matches_step(
                r,
                final(self).offset,
                final(self).lexer_mode,
                spec_expr(old(self).data@, old(self).offset as int, LexerMode::PathMode),
            ),
    {
        self.read_expr(LexerMode::PathMode)
    }

    fn read_literal(&mut self) -> (r: LexerResult<'a>)
        requires
            old(self).wf(),
            old(self).offset < old(self).data@.len(),
            old(self).lexer_mode == LexerMode::ValueMode,
        ensures
            final(self).wf(),
            final(self).data == old(self).data,
            final(self).source_name == old(self).source_name,
            matches_step(
                r,
                final(self).offset,
                final(self).lexer_mode,
                spec_expr(old(self).data@, old(self).offset as int, LexerMode::ValueMode),
            ),
    {
        self.read_expr(LexerMode::ValueMode)
    }

    /*
     * Ninja lexing is context-sensitive. Sometimes we are reading keywords, sometimes identifiers,
     * sometimes paths and sometimes strings that can have escape sequences and '$'.
     */
    fn read_literal_or_ident(&mut self) -> (r: LexerResult<'a>)
        requires
            old(self).wf(),
            old(self).offset < old(self).data@.len(),
        ensures
            final(self).wf(),
            final(self).data == old(self).data,
            final(self).source_name == old(self).source_name,
            old(self).lexer_mode == LexerMode::PathMode ==> matches_step(
                r,
                final(self).offset,
                final(self).lexer_mode,
                spec_expr(old(self).data@, old(self).offset as int, LexerMode::PathMode),
            ),
            old(self).lexer_mode == LexerMode::ValueMode ==> matches_step(
                r,
                final(self).offset,
                final(self).lexer_mode,
                spec_expr(old(self).data@, old(self).offset as int, LexerMode::ValueMode),
            ),
            (old(self).lexer_mode == LexerMode::Default || old(self).lexer_mode
                == LexerMode::BuildRuleMode) ==> ({
                let c = old(self).data@[old(self).offset as int];
                let i = old(self).offset as int;
                let d = old(self).data@;
                if is_ident_byte(c) {
                    let e = ident_end(d, i);
                    let m1 = if old(self).lexer_mode == LexerMode::BuildRuleMode {
                        LexerMode::PathMode
                    } else {
                        old(self).lexer_mode
                    };
                    r is Ok && (lexeme_view(r->Ok_0), final(self).lexer_mode) == spec_keyword(
                        d.subrange(i, e),
                        m1,
                    ) && final(self).offset == e
                } else {
                    r == Err::<Lexeme, LexerError>(
                        LexerError::NotAnIdentifier(Pos(i as usize), c),
                    ) && final(self).offset == i + 1 && final(self).lexer_mode
                        == old(self).lexer_mode
                }
            }),
    {
        let ch = self.data[self.offset];
        match self.lexer_mode {
            LexerMode::Default | LexerMode::BuildRuleMode => {
                if Lexer::is_permitted_identifier_char(ch) {
                    let ident = self.read_identifier();
                    if self.lexer_mode == LexerMode::BuildRuleMode {
                        self.lexer_mode = LexerMode::PathMode;
                    }
                    Ok(self.lookup_keyword(ident))
                } else {
                    // Need to consume so the lexer can make progress.
                    if ch == LF {
                        self.consume_newline();
                    } else {
                        self.advance();
                    }
                    Err(LexerError::NotAnIdentifier(Pos(self.offset - 1), ch))
                }
            },
            LexerMode::PathMode => {
                // parse the next "space separated" source_name, which can include escaped colons.
                self.read_path()
            },
            LexerMode::ValueMode => self.read_literal(),
        }
    }

    /// The next lexeme with its position, an error, or `None` at the end of the input. Each item
    /// raises `lex_measure`, which starts at 1 and never passes `2 * len + 1`: a lexer yields at
    /// most `2 * len` items.
    pub fn next(&mut self) -> (r: Option<LexerItem<'a>>)
        requires
            old(self).wf(),
        ensures
            final(self).wf(),
            final(self).spec_data() == old(self).spec_data(),
            final(self).spec_source_name() == old(self).spec_source_name(),
            (opt_item_view(r), final(self).spec_offset(), final(self).spec_mode()) == lex_next(
                old(self).spec_data(),
                old(self).spec_offset(),
                old(self).spec_mode(),
            ),
            old(self).spec_offset() <= final(self).spec_offset() <= old(self).spec_data().len(),
            r matches Some(Ok((_, p))) ==> p.0 <= final(self).spec_offset(),
            r is None ==> final(self).spec_offset() == old(self).spec_data().len(),
            old(self).spec_offset() == old(self).spec_data().len() ==> r is None,
            r is Some ==> lex_measure(final(self).spec_offset(), final(self).spec_mode()) > lex_measure(
                old(self).spec_offset(),
                old(self).spec_mode(),
            ),
            lex_measure(final(self).spec_offset(), final(self).spec_mode()) <= 2 * old(
                self,
            ).spec_data().len() + 1,
    {
        let ghost d = self.data@;
        let ghost i0 = self.offset as int;
        let ghost m0 = self.lexer_mode;
        proof {
            self.lemma_wf();
            lemma_lex_next_progress(d, i0, m0);
            lemma_item_facts(d, i0, m0);
        }
        // There is only one reason this loop exists, which is to handle skipping non-indent
        // whitespace. everything else should never come back here.
        loop
            invariant
                self.wf(),
                self.data@ == d,
                self.data == old(self).data,
                self.source_name == old(self).source_name,
                d == old(self).data@,
                i0 == old(self).offset,
                m0 == old(self).lexer_mode,
                lex_next(d, self.offset as int, self.lexer_mode) == lex_next(d, i0, m0),
                i0 <= lex_next(d, i0, m0).1 <= d.len(),
                lex_next(d, i0, m0).0 matches Some(Ok((_, p))) ==> p <= lex_next(d, i0, m0).1,
                lex_next(d, i0, m0).0 is None ==> lex_next(d, i0, m0).1 == d.len(),
                i0 == d.len() ==> lex_next(d, i0, m0).0 is None,
                lex_next(d, i0, m0).0 is Some ==> lex_measure(lex_next(d, i0, m0).1, lex_next(d, i0, m0).2)
                    > lex_measure(i0, m0),
            decreases self.data@.len() - self.offset,
        {
            if self.done() {
                return None;
            }
            let pos = Pos(self.offset);
            let ch = self.data[self.offset];
            // If we are not reading a value, then encountered whitespace should be eaten. If it is
            // at the beginning of a line, it should yield an indent token. After that we should
            // retry the loop since eating whitespace will advance the iterator.
            // If we _are_ reading a value and we are at the beginning of a line, then the
            // whitespace should be eaten. No indent should be yielded. Then we should continue in
            // value mode.
            // if we are reading a value, but not at the beginning of a line, then whitespace
            // should NOT be eaten.
            if ch == SPACE || ch == TAB {
                proof {
                    lemma_line_starts_shape(d, self.offset as nat);
                    lemma_hws_end(d, self.offset as int);
                }
                let is_indent = self.line_offsets[self.line_offsets.len() - 1] == pos.0;
                if self.lexer_mode == LexerMode::ValueMode {
                    if is_indent {
                        self.skip_horizontal_whitespace();
                        continue;
                    }
                } else {
                    self.skip_horizontal_whitespace();
                    if is_indent {
                        return Some(Ok((Lexeme::Indent, pos)));
                    } else {
                        continue;
                    }
                }
            }
            if ch == LF {
                self.consume_newline();
                self.lexer_mode = LexerMode::Default;
                return Some(Ok((Lexeme::Newline, pos)));
            } else if ch == EQUALS {
                self.advance();
                self.skip_horizontal_whitespace();
                self.lexer_mode = LexerMode::ValueMode;
                return Some(Ok((Lexeme::Equals, pos)));
            } else if self.lexer_mode == LexerMode::ValueMode {
                return Some(map_pos(self.read_literal_or_ident(), pos));
            } else if ch == COLON {
                self.advance();
                return Some(Ok((Lexeme::Colon, pos)));
            } else if ch == PIPE {
                self.advance();
                if !self.done() && self.data[self.offset] == PIPE {
                    self.advance();
                    return Some(Ok((Lexeme::Pipe2, pos)));
                } else {
                    return Some(Ok((Lexeme::Pipe, pos)));
                }
            } else if ch == HASH {
                return Some(Ok((self.read_comment(), pos)));
            } else {
                return Some(map_pos(self.read_literal_or_ident(), pos));
            }
        }
    }
}

/// Pairs a lexeme with its position.
fn map_pos<'a>(r: LexerResult<'a>, pos: Pos) -> (o: LexerItem<'a>)
    ensures
        match r {
            Ok(l) => o == Ok::<_, LexerError>((l, pos)),
            Err(e) => o == Err::<TokenPos<'a>, LexerError>(e),
        },
{
    match r {
        Ok(l) => Ok((l, pos)),
        Err(e) => Err(e),
    }
}

fn ends_literal_exec(c: u8, in_path: bool) -> (r: bool)
    ensures
        r == ends_literal(c, in_path),
{
    c == DOLLAR || c == HASH || c == LF || (in_path && (c == SPACE || c == PIPE || c == COLON))
}

/// Whether a lexer result agrees with a step of the specification, given the offset and mode
/// after it.
pub open spec fn matches_step(r: LexerResult, off: usize, m: LexerMode, s: Step) -> bool {
    match s {
        Step::Tok(l, j, m2) => r is Ok && lexeme_view(r->Ok_0) == l && off == j && m == m2,
        Step::Fail(e, j, m2) => r == Err::<Lexeme, LexerError>(e) && off == j && m == m2,
    }
}

/// The number of elements of `s` that are at most `p`.
pub open spec fn count_le(s: Seq<usize>, p: int) -> int
    decreases s.len(),
{
    if s.len() == 0 {
        0
    } else {
        count_le(s.drop_last(), p) + if s.last() <= p {
            1int
        } else {
            0int
        }
    }
}

/// The line (counting from 1) on which offset `p` of `d` lies.
pub open spec fn line_of(d: Seq<u8>, p: int) -> int {
    line_starts(d, p as nat).len() as int
}

/// The offset at which the line of offset `p` starts.
pub open spec fn line_start_of(d: Seq<u8>, p: int) -> int {
    line_starts(d, p as nat).last() as int
}

/// The line starts recorded up to `off` begin with those recorded up to `p`, and no other of them
/// is at most `p`.
proof fn lemma_line_starts_prefix(d: Seq<u8>, p: nat, off: nat)
    requires
        p <= off <= d.len(),
        d.len() < usize::MAX,
    ensures
        count_le(line_starts(d, off), p as int) == line_starts(d, p).len(),
        line_starts(d, p).len() <= line_starts(d, off).len(),
        forall|k: int|
            0 <= k < line_starts(d, p).len() ==> line_starts(d, off)[k] == line_starts(d, p)[k],
    decreases off - p,
{
    lemma_line_starts_shape(d, p);
    if off == p {
        lemma_count_le_prefix(line_starts(d, p), p as int);
    } else {
        lemma_line_starts_prefix(d, p, (off - 1) as nat);
        let q = line_starts(d, (off - 1) as nat);
        let s = line_starts(d, off);
        if d[off - 1] == LF {
            assert(s.drop_last() =~= q);
        } else {
            assert(s == q);
        }
    }
}

proof fn lemma_count_le_sorted(s: Seq<usize>, p: int, idx: int)
    requires
        1 <= idx <= s.len(),
        forall|a: int, b: int| 0 <= a < b < s.len() ==> s[a] < s[b],
        forall|k: int| 0 <= k < idx ==> s[k] <= p,
        idx < s.len() ==> s[idx] > p,
    ensures
        count_le(s, p) == idx,
    decreases s.len(),
{
    if s.len() > idx {
        lemma_count_le_sorted(s.drop_last(), p, idx);
        assert(s.last() > p) by {
            assert(s[idx] < s[s.len() - 1] || idx == s.len() - 1);
        }
    } else {
        lemma_count_le_prefix(s, p);
    }
}

proof fn lemma_count_le_prefix(s: Seq<usize>, p: int)
    requires
        forall|k: int| 0 <= k < s.len() ==> s[k] <= p,
    ensures
        count_le(s, p) == s.len(),
    decreases s.len(),
{
    if s.len() > 0 {
        lemma_count_le_prefix(s.drop_last(), p);
    }
}

/// The bytes of an optional name.
pub open spec fn opt_bytes(o: Option<Vec<u8>>) -> Option<Seq<u8>> {
    match o {
        Some(v) => Some(v@),
        None => None,
    }
}

pub fn clone_name(o: &Option<Vec<u8>>) -> (r: Option<Vec<u8>>)
    ensures
        opt_bytes(r) == opt_bytes(*o),
{
    match o {
        Some(v) => Some(v.clone()),
        None => None,
    }
}

/// Byte-wise equality of two slices.
pub fn bytes_eq(a: &[u8], b: &[u8]) -> (r: bool)
    ensures
        r == (a@ == b@),
{
    if a.len() != b.len() {
        return false;
    }
    let mut i: usize = 0;
    while i < a.len()
        invariant
            i <= a@.len(),
            a@.len() == b@.len(),
            forall|k: int| 0 <= k < i ==> a@[k] == b@[k],
        decreases a@.len() - i,
    {
        if a[i] != b[i] {
            return false;
        }
        i = i + 1;
    }
    assert(a@ =~= b@);
    true
}

} // verus!
