//! The parser: reads the lexer's items and feeds rules, build edges and bindings to a
//! [`ParseState`].
//!
//! Its behaviour is specified over the stream of items ([`tok`]) by the spec functions of this
//! file, [`parse_top`] at their head: each takes the index of the next item to read and gives
//! back what was read with the index after it, or the position and message of a parse error.
use crate::parse::ast::{eval_terms, Build, Expr, Rule, Term, TermView};
use crate::parse::env::Env;
use crate::parse::lexer::{
    bytes_eq, clone_name, expr_items_ok, is_piece, item_view, lexeme_view, line_of, line_start_of,
    newline_from, opt_bytes, opt_item_view, piece_view, pieces_ok, pieces_view, ItemView, Lexeme,
    LexemeView, Lexer, LexerError, LexerItem, Pos, Position, VarRefType,
};
use crate::parse::stream::{
    error_pos, is_piece_view, lemma_stream, lemma_tok_facts, lex_after, stream_bound, tok,
    view_pieces_ok,
};
use crate::parse::{
    failed_edge_state, parse_nested, too_large_error, LoadLog, LoadRecord, Loader, MAX_INCLUDE_DEPTH, add_build_edge_spec, add_rule_spec, error_matches, str_from_utf8, BuildAstView, ErrorView,
    ParseState, ProcessingError, RuleView, StateView,
};
use crate::line_lexer::push_char;
use vstd::prelude::*;
use vstd::slice::slice_to_vec;
use vstd::utf8::{decode_utf8, valid_utf8};

verus! {

// ---------------------------------------------------------------------------------------------
// Messages.
// ---------------------------------------------------------------------------------------------
/// A parse error as the specification gives it: the offset it points at and its message.
pub type ErrAt = (int, Seq<char>);

/// What the parser expects to read next.
#[derive(Copy, Clone, PartialEq, Eq, Structural)]
pub enum Want {
    Identifier,
    Value,
    Indent,
    Newline,
    Assignment,
}

pub open spec fn want_name(w: Want) -> Seq<char> {
    match w {
        Want::Identifier => "identifier"@,
        Want::Value => "value"@,
        Want::Indent => "indent"@,
        Want::Newline => "newline"@,
        Want::Assignment => "="@,
    }
}

/// Whether a lexeme is what `w` asks for.
pub open spec fn wants(w: Want, l: LexemeView) -> bool {
    match w {
        Want::Identifier => l is Identifier,
        Want::Value => l is Expr,
        Want::Indent => l is Indent,
        Want::Newline => l is Newline,
        Want::Assignment => l is Equals,
    }
}

/// How a lexeme is named in messages.
pub open spec fn lexeme_name(l: LexemeView) -> Seq<char> {
    match l {
        LexemeView::Build => "build"@,
        LexemeView::Colon => ":"@,
        LexemeView::Default => "default"@,
        LexemeView::Expr(_) => "expression"@,
        LexemeView::Escape(_) => "escape"@,
        LexemeView::Equals => "="@,
        LexemeView::Identifier(_) => "identifier"@,
        LexemeView::Comment(_) => "comment"@,
        LexemeView::Include => "include"@,
        LexemeView::Indent => "indent"@,
        LexemeView::Literal(_) => "literal"@,
        LexemeView::Newline => "newline"@,
        LexemeView::Pipe => "|"@,
        LexemeView::Pipe2 => "||"@,
        LexemeView::Pool => "pool"@,
        LexemeView::Rule => "rule"@,
        LexemeView::Subninja => "subninja"@,
        LexemeView::VarRef(_, _) => "varref"@,
    }
}

pub open spec fn expected_msg(what: Seq<char>, got: Seq<char>) -> Seq<char> {
    "Expected "@ + what + ", got "@ + got
}

pub open spec fn lexer_error_msg(e: LexerError) -> Seq<char> {
    match e {
        LexerError::UnexpectedEof(_) => "Unexpected EOF"@,
        LexerError::IllegalCharacter(_, _) => "Illegal character"@,
        LexerError::NotAnIdentifier(_, _) => "Expected identifier"@,
        LexerError::MissingBrace(_) => "Expected closing parentheses '}'"@,
    }
}

pub open spec fn lexer_error_at(e: LexerError) -> ErrAt {
    (error_pos(e), lexer_error_msg(e))
}

/// A name as text: its decoding where it is UTF-8.
pub open spec fn name_text(v: Seq<u8>) -> Seq<char> {
    if valid_utf8(v) {
        decode_utf8(v)
    } else {
        "invalid utf-8"@
    }
}

/// The decimal digit `d`.
pub open spec fn digit_char(d: int) -> char {
    if d == 0 {
        '0'
    } else if d == 1 {
        '1'
    } else if d == 2 {
        '2'
    } else if d == 3 {
        '3'
    } else if d == 4 {
        '4'
    } else if d == 5 {
        '5'
    } else if d == 6 {
        '6'
    } else if d == 7 {
        '7'
    } else if d == 8 {
        '8'
    } else {
        '9'
    }
}

/// A byte in decimal.
pub open spec fn byte_text(v: u8) -> Seq<char> {
    if v >= 100 {
        seq![digit_char((v / 100) as int), digit_char(((v / 10) % 10) as int), digit_char((v % 10) as int)]
    } else if v >= 10 {
        seq![digit_char((v / 10) as int), digit_char((v % 10) as int)]
    } else {
        seq![digit_char(v as int)]
    }
}

/// The bytes in decimal, separated by `", "`.
pub open spec fn bytes_items(b: Seq<u8>) -> Seq<char>
    decreases b.len(),
{
    if b.len() == 0 {
        Seq::empty()
    } else if b.len() == 1 {
        byte_text(b[0])
    } else {
        bytes_items(b.drop_last()) + ", "@ + byte_text(b.last())
    }
}

/// The `Debug` text of a byte slice: `[1, 2, 3]`.
pub open spec fn bytes_debug(b: Seq<u8>) -> Seq<char> {
    "["@ + bytes_items(b) + "]"@
}

/// The `Debug` text of a lexeme, as `derive(Debug)` writes it: the variant's name, then its
/// fields in brackets.
pub open spec fn lexeme_debug(l: LexemeView) -> Seq<char>
    decreases l,
{
    match l {
        LexemeView::Build => "Build"@,
        LexemeView::Colon => "Colon"@,
        LexemeView::Default => "Default"@,
        LexemeView::Equals => "Equals"@,
        LexemeView::Expr(items) => "Expr(["@ + lexemes_debug(items) + "])"@,
        LexemeView::Escape(b) => "Escape("@ + bytes_debug(b) + ")"@,
        LexemeView::Identifier(b) => "Identifier("@ + bytes_debug(b) + ")"@,
        LexemeView::Comment(b) => "Comment("@ + bytes_debug(b) + ")"@,
        LexemeView::Include => "Include"@,
        LexemeView::Indent => "Indent"@,
        LexemeView::Literal(b) => "Literal("@ + bytes_debug(b) + ")"@,
        LexemeView::Newline => "Newline"@,
        LexemeView::Pipe => "Pipe"@,
        LexemeView::Pipe2 => "Pipe2"@,
        LexemeView::Pool => "Pool"@,
        LexemeView::Rule => "Rule"@,
        LexemeView::Subninja => "Subninja"@,
        LexemeView::VarRef(t, b) => "VarRef("@ + var_ref_type_debug(t) + ", "@ + bytes_debug(b) + ")"@,
    }
}

/// The `Debug` text of lexemes, separated by `", "`.
pub open spec fn lexemes_debug(items: Seq<LexemeView>) -> Seq<char>
    decreases items,
{
    if items.len() == 0 {
        Seq::empty()
    } else if items.len() == 1 {
        lexeme_debug(items[0])
    } else {
        lexemes_debug(items.drop_last()) + ", "@ + lexeme_debug(items.last())
    }
}

/// The `Debug` text of a reference's kind.
pub open spec fn var_ref_type_debug(t: VarRefType) -> Seq<char> {
    match t {
        VarRefType::WithoutParens => "WithoutParens"@,
        VarRefType::WithParens => "WithParens"@,
    }
}

// ---------------------------------------------------------------------------------------------
// The specification of the parser.
// ---------------------------------------------------------------------------------------------
/// The index of the first item at or after `n` that is not a comment.
pub open spec fn skip_comments(d: Seq<u8>, n: nat) -> nat
    decreases stream_bound(d) + 1 - n,
{
    if n < stream_bound(d) && tok(d, n) matches Some(Ok((LexemeView::Comment(_), _))) {
        skip_comments(d, n + 1)
    } else {
        n
    }
}

/// Reads the next item that is not a comment, which must be what `w` asks for.
pub open spec fn expect_spec(d: Seq<u8>, n: nat, w: Want) -> Result<(LexemeView, nat), ErrAt> {
    let k = skip_comments(d, n);
    match tok(d, k) {
        None => Err((d.len() as int, expected_msg(want_name(w), "EOF"@))),
        Some(Err(e)) => Err(lexer_error_at(e)),
        Some(Ok((l, p))) => if wants(w, l) {
            Ok((l, k + 1))
        } else {
            Err((p as int, expected_msg(want_name(w), lexeme_name(l))))
        },
    }
}

/// Reads an identifier, passing over indents and comments before it.
pub open spec fn ident_eating_indent(d: Seq<u8>, n: nat) -> Result<(LexemeView, nat), ErrAt>
    decreases stream_bound(d) + 1 - n,
{
    let k = skip_comments(d, n);
    if n <= k < stream_bound(d) && tok(d, k) matches Some(Ok((LexemeView::Indent, _))) {
        ident_eating_indent(d, k + 1)
    } else {
        expect_spec(d, n, Want::Identifier)
    }
}

/// The terms of a path or a value: literals and escapes are literal bytes.
pub open spec fn piece_term(l: LexemeView) -> TermView {
    match l {
        LexemeView::VarRef(_, v) => TermView::Reference(v),
        LexemeView::Literal(v) => TermView::Literal(v),
        LexemeView::Escape(v) => TermView::Literal(v),
        _ => TermView::Literal(Seq::empty()),
    }
}

pub open spec fn expr_terms(l: LexemeView) -> Seq<TermView> {
    match l {
        LexemeView::Expr(items) => Seq::new(items.len(), |k: int| piece_term(items[k])),
        _ => Seq::empty(),
    }
}

pub open spec fn ident_bytes(l: LexemeView) -> Seq<u8> {
    match l {
        LexemeView::Identifier(v) => v,
        _ => Seq::empty(),
    }
}

/// Reads `name = value`.
pub open spec fn read_assignment_spec(d: Seq<u8>, n: nat) -> Result<
    ((Seq<u8>, Seq<TermView>), nat),
    ErrAt,
> {
    match ident_eating_indent(d, n) {
        Err(e) => Err(e),
        Ok((var, n1)) => match expect_spec(d, n1, Want::Assignment) {
            Err(e) => Err(e),
            Ok((_, n2)) => match expect_spec(d, n2, Want::Value) {
                Err(e) => Err(e),
                Ok((value, n3)) => Ok(((ident_bytes(var), expr_terms(value)), n3)),
            },
        },
    }
}

pub open spec fn description_name() -> Seq<u8> {
    seq![100u8, 101, 115, 99, 114, 105, 112, 116, 105, 111, 110]
}

/// The variables a rule may bind.
pub open spec fn allowed_rule_var(v: Seq<u8>) -> bool {
    v == crate::parse::command_name() || v == description_name()
}

pub open spec fn unexpected_variable_msg(v: Seq<u8>) -> Seq<char> {
    "unexpected variable '"@ + name_text(v) + "'"@
}

/// Reads the indented bindings of a rule, which are added to `acc`. Blank lines and comments
/// between them are passed over; the first other item ends them. A rule needs at least one
/// binding before the end of the input.
pub open spec fn rule_bindings_spec(
    d: Seq<u8>,
    n: nat,
    acc: Seq<(Seq<u8>, Seq<TermView>)>,
    at_least_one: bool,
) -> Result<(Seq<(Seq<u8>, Seq<TermView>)>, nat), ErrAt>
    decreases stream_bound(d) + 1 - n,
{
    if n >= stream_bound(d) || tok(d, n) is None {
        if at_least_one {
            Ok((acc, n))
        } else {
            Err((d.len() as int, expected_msg("indent"@, "EOF"@)))
        }
    } else {
        match tok(d, n) {
            None => Ok((acc, n)),
            Some(Err(_)) => Ok((acc, n)),
            Some(Ok((l, _))) => match l {
                LexemeView::Newline => rule_bindings_spec(d, n + 1, acc, at_least_one),
                LexemeView::Comment(_) => rule_bindings_spec(d, n + 1, acc, at_least_one),
                LexemeView::Indent => match read_assignment_spec(d, n + 1) {
                    Err(e) => Err(e),
                    Ok(((var, value), n3)) => if !allowed_rule_var(var) {
                        Err((lex_after(d, n3).0, unexpected_variable_msg(var)))
                    } else if n < n3 <= stream_bound(d) + 1 {
                        rule_bindings_spec(d, n3, acc.push((var, value)), true)
                    } else {
                        Ok((acc, n))
                    },
                },
                _ => Ok((acc, n)),
            },
        }
    }
}

/// Reads a rule after the `rule` keyword: its name, a newline and its bindings.
pub open spec fn parse_rule_spec(d: Seq<u8>, n: nat) -> Result<(RuleView, nat), ErrAt> {
    match expect_spec(d, n, Want::Identifier) {
        Err(e) => Err(e),
        Ok((id, n1)) => match expect_spec(d, n1, Want::Newline) {
            Err(e) => Err(e),
            Ok((_, n2)) => match rule_bindings_spec(d, n2, Seq::empty(), false) {
                Err(e) => Err(e),
                Ok((b, n3)) => Ok(((ident_bytes(id), b), n3)),
            },
        },
    }
}

/// Where the first line of a build edge is: in its outputs, at its rule, or in its explicit,
/// implicit (after `|`) or order-only (after `||`) inputs.
#[derive(Copy, Clone, PartialEq, Eq, Structural)]
pub enum HeaderState {
    Outputs,
    RuleName,
    Inputs,
    ImplicitInputs,
    OrderInputs,
}

/// The state is among the inputs: the line may end there.
pub open spec fn among_inputs(s: HeaderState) -> bool {
    s == HeaderState::Inputs || s == HeaderState::ImplicitInputs || s == HeaderState::OrderInputs
}

/// The first line of a build edge: its rule, outputs, inputs, implicit inputs and order-only
/// inputs.
pub type HeaderView = (Seq<u8>, Seq<Seq<TermView>>, Seq<Seq<TermView>>, Seq<Seq<TermView>>, Seq<Seq<TermView>>);

/// Reads the rest of the first line of a build edge, in state `s`, with what was read so far
/// (`h`).
pub open spec fn build_header_spec(d: Seq<u8>, n: nat, s: HeaderState, h: HeaderView) -> Result<
    (HeaderView, nat),
    ErrAt,
>
    decreases stream_bound(d) + 1 - n,
{
    let (rule, outs, ins, imps, ords) = h;
    if n >= stream_bound(d) || tok(d, n) is None {
        if among_inputs(s) {
            Ok((h, n + 1))
        } else {
            Err((d.len() as int, "unexpected EOF in the middle of a build edge"@))
        }
    } else {
        match tok(d, n).unwrap() {
            Err(e) => Err(lexer_error_at(e)),
            Ok((l, p)) => match s {
                HeaderState::Outputs => match l {
                    LexemeView::Expr(_) => build_header_spec(
                        d,
                        n + 1,
                        s,
                        (rule, outs.push(expr_terms(l)), ins, imps, ords),
                    ),
                    LexemeView::Colon => if outs.len() == 0 {
                        Err((p as int, "Expected at least one output for build"@))
                    } else {
                        build_header_spec(d, n + 1, HeaderState::RuleName, h)
                    },
                    _ => Err((p as int, "Expected another output or :, got "@ + lexeme_name(l))),
                },
                HeaderState::RuleName => match l {
                    LexemeView::Identifier(v) => build_header_spec(
                        d,
                        n + 1,
                        HeaderState::Inputs,
                        (v, outs, ins, imps, ords),
                    ),
                    _ => Err((p as int, "Expected rule name, got "@ + lexeme_name(l))),
                },
                _ => match l {
                    LexemeView::Expr(_) => build_header_spec(
                        d,
                        n + 1,
                        s,
                        if s == HeaderState::Inputs {
                            (rule, outs, ins.push(expr_terms(l)), imps, ords)
                        } else if s == HeaderState::ImplicitInputs {
                            (rule, outs, ins, imps.push(expr_terms(l)), ords)
                        } else {
                            (rule, outs, ins, imps, ords.push(expr_terms(l)))
                        },
                    ),
                    LexemeView::Pipe => if s == HeaderState::Inputs {
                        build_header_spec(d, n + 1, HeaderState::ImplicitInputs, h)
                    } else {
                        Err((p as int, "Expected input or newline, got "@ + lexeme_name(l)))
                    },
                    LexemeView::Pipe2 => if s != HeaderState::OrderInputs {
                        build_header_spec(d, n + 1, HeaderState::OrderInputs, h)
                    } else {
                        Err((p as int, "Expected input or newline, got "@ + lexeme_name(l)))
                    },
                    LexemeView::Newline => Ok((h, n + 1)),
                    _ => Err((p as int, "Expected input or newline, got "@ + lexeme_name(l))),
                },
            },
        }
    }
}

/// The first line of a build edge before anything is read.
pub open spec fn empty_header() -> HeaderView {
    (Seq::empty(), Seq::empty(), Seq::empty(), Seq::empty(), Seq::empty())
}

/// Reads the indented bindings of a build edge; each value is evaluated in the bindings so far.
pub open spec fn build_bindings_spec(d: Seq<u8>, n: nat, env: Map<Seq<u8>, Seq<u8>>) -> Result<
    (Map<Seq<u8>, Seq<u8>>, nat),
    ErrAt,
>
    decreases stream_bound(d) + 1 - n,
{
    if n >= stream_bound(d) {
        Ok((env, n))
    } else {
        match tok(d, n) {
            Some(Ok((l, _))) => match l {
                LexemeView::Newline => build_bindings_spec(d, n + 1, env),
                LexemeView::Comment(_) => build_bindings_spec(d, n + 1, env),
                LexemeView::Indent => match read_assignment_spec(d, n + 1) {
                    Err(e) => Err(e),
                    Ok(((var, value), n3)) => if n < n3 <= stream_bound(d) + 1 {
                        build_bindings_spec(d, n3, env.insert(var, eval_terms(value, env)))
                    } else {
                        Ok((env, n))
                    },
                },
                _ => Ok((env, n)),
            },
            _ => Ok((env, n)),
        }
    }
}

/// Reads a build edge after the `build` keyword, in the top-level bindings `top`.
pub open spec fn parse_build_spec(d: Seq<u8>, n: nat, top: Map<Seq<u8>, Seq<u8>>) -> Result<
    (BuildAstView, nat),
    ErrAt,
> {
    match build_header_spec(d, n, HeaderState::Outputs, empty_header()) {
        Err(e) => Err(e),
        Ok(((rule, outs, ins, imps, ords), n1)) => match build_bindings_spec(d, n1, top) {
            Err(e) => Err(e),
            Ok((env, n2)) => Ok(
                (
                    BuildAstView {
                        rule,
                        inputs: ins,
                        implicit_inputs: imps,
                        order_inputs: ords,
                        outputs: outs,
                        env,
                    },
                    n2,
                ),
            ),
        },
    }
}

/// How reading a file ends: at its end or at an error, with the state then; or at an `include`,
/// with the evaluated path, the index after the statement and the state then.
pub enum ParseOutcome {
    Finished(StateView, Option<ErrorView>),
    Included(Seq<u8>, nat, StateView),
}

/// What the loader gave for one `include`: the contents it returned (`None` for a failed load),
/// and what it gave, in turn, for each `include` of those contents.
pub struct IncludeLoad {
    pub contents: Option<Seq<u8>>,
    pub nested: Seq<IncludeLoad>,
}

/// How a read of a file and of the files it includes ends: whether it succeeded, the state then,
/// and the loads it asked for, in order.
pub struct RunView {
    pub ok: bool,
    pub state: StateView,
    pub loads: Seq<LoadRecord>,
}

/// Reading, in state `st`, the file `path` that an `include` of the file `from` names, at include
/// depth `depth`, when the loader answers as `l` says: past the depth limit nothing is loaded
/// and the read fails; otherwise `path` is asked for on behalf of `from`; a failed or too large
/// load fails with the state unchanged; else the loaded contents, named `path`, are read from
/// their start one level deeper. `None` where `l` holds too few answers.
#[verifier::opaque]
pub open spec fn load_step(
    st: StateView,
    l: IncludeLoad,
    from: Option<Seq<u8>>,
    path: Seq<u8>,
    depth: nat,
) -> Option<RunView>
    decreases l, 0nat,
{
    if depth >= MAX_INCLUDE_DEPTH {
        Some(RunView { ok: false, state: st, loads: Seq::empty() })
    } else {
        let rec = LoadRecord { from, request: path, contents: l.contents };
        match l.contents {
            None => Some(RunView { ok: false, state: st, loads: seq![rec] }),
            Some(c) => if c.len() >= usize::MAX {
                Some(RunView { ok: false, state: st, loads: seq![rec] })
            } else {
                match parse_with(c, Some(path), 0, st, l.nested, depth + 1) {
                    None => None,
                    Some(inner) => Some(
                        RunView { ok: inner.ok, state: inner.state, loads: seq![rec] + inner.loads },
                    ),
                }
            },
        }
    }
}

/// Reading the data `d` of the file `name` from index `n` in state `st`, at include depth
/// `depth`, when the loader answers the `include` statements met in turn as `loads` says: an
/// `include` reads the file it names into the state where it stands, and the reading of `d` then
/// resumes after the statement from the state that gave. `None` where `loads` holds too few
/// answers.
#[verifier::opaque]
pub open spec fn parse_with(
    d: Seq<u8>,
    name: Option<Seq<u8>>,
    n: nat,
    st: StateView,
    loads: Seq<IncludeLoad>,
    depth: nat,
) -> Option<RunView>
    decreases loads, 1nat,
{
    match parse_top(d, n, st) {
        ParseOutcome::Finished(st2, e) => Some(RunView { ok: e is None, state: st2, loads: Seq::empty() }),
        ParseOutcome::Included(path, n2, st2) => if loads.len() == 0 {
            None
        } else {
            match load_step(st2, loads[0], name, path, depth) {
                None => None,
                Some(r1) => if !r1.ok {
                    Some(r1)
                } else {
                    match parse_with(d, name, n2, r1.state, loads.drop_first(), depth) {
                        None => None,
                        Some(r2) => Some(
                            RunView { ok: r2.ok, state: r2.state, loads: r1.loads + r2.loads },
                        ),
                    }
                },
            }
        },
    }
}

/// Where the read of `d` ends before any `include`, it ends as [`parse_top`] says, asking for
/// nothing, whatever the loader would answer.
pub proof fn lemma_parse_with_finished(
    d: Seq<u8>,
    name: Option<Seq<u8>>,
    n: nat,
    st: StateView,
    loads: Seq<IncludeLoad>,
    depth: nat,
)
    requires
        parse_top(d, n, st) is Finished,
    ensures
        parse_with(d, name, n, st, loads, depth) == Some(
            RunView {
                ok: parse_top(d, n, st)->Finished_1 is None,
                state: parse_top(d, n, st)->Finished_0,
                loads: Seq::empty(),
            },
        ),
{
    reveal_with_fuel(parse_with, 1);
}

#[verifier::rlimit(40)]
#[verifier::spinoff_prover]
/// At an `include`, the first answer of the loader is read, for the path the statement names,
/// and reading resumes after the statement with the other answers where that read succeeded.
pub proof fn lemma_parse_with_include(
    d: Seq<u8>,
    name: Option<Seq<u8>>,
    n: nat,
    st: StateView,
    l: IncludeLoad,
    rest: Seq<IncludeLoad>,
    depth: nat,
)
    requires
        parse_top(d, n, st) is Included,
    ensures
        parse_with(d, name, n, st, seq![l] + rest, depth) == match load_step(
            parse_top(d, n, st)->Included_2,
            l,
            name,
            parse_top(d, n, st)->Included_0,
            depth,
        ) {
            None => None,
            Some(r1) => if !r1.ok {
                Some(r1)
            } else {
                match parse_with(d, name, parse_top(d, n, st)->Included_1, r1.state, rest, depth) {
                    None => None,
                    Some(r2) => Some(RunView { ok: r2.ok, state: r2.state, loads: r1.loads + r2.loads }),
                }
            },
        },
{
    reveal_with_fuel(parse_with, 1);
    let loads = seq![l] + rest;
    assert(loads[0] == l);
    assert(loads.drop_first() =~= rest);
}

/// The file named by an `include` is asked for on behalf of the including file; loaded contents
/// are read, under the name asked for, from their start one level deeper.
pub proof fn lemma_load_step_reads(
    st: StateView,
    c: Seq<u8>,
    nested: Seq<IncludeLoad>,
    from: Option<Seq<u8>>,
    path: Seq<u8>,
    depth: nat,
)
    requires
        depth < MAX_INCLUDE_DEPTH,
        c.len() < usize::MAX,
    ensures
        load_step(st, IncludeLoad { contents: Some(c), nested }, from, path, depth) == match parse_with(
            c,
            Some(path),
            0,
            st,
            nested,
            depth + 1,
        ) {
            None => None,
            Some(inner) => Some(
                RunView {
                    ok: inner.ok,
                    state: inner.state,
                    loads: seq![LoadRecord { from, request: path, contents: Some(c) }] + inner.loads,
                },
            ),
        },
{
    reveal_with_fuel(load_step, 1);
    reveal_with_fuel(parse_with, 1);
}

/// Past the depth limit nothing is asked for; a failed or too large load is asked for and
/// fails; either way the state stays.
pub proof fn lemma_load_step_fails(
    st: StateView,
    l: IncludeLoad,
    from: Option<Seq<u8>>,
    path: Seq<u8>,
    depth: nat,
)
    requires
        depth >= MAX_INCLUDE_DEPTH || l.contents is None || (l.contents matches Some(c) && c.len()
            >= usize::MAX),
    ensures
        load_step(st, l, from, path, depth) == Some(
            RunView {
                ok: false,
                state: st,
                loads: if depth >= MAX_INCLUDE_DEPTH {
                    Seq::empty()
                } else {
                    seq![LoadRecord { from, request: path, contents: l.contents }]
                },
            },
        ),
{
    reveal_with_fuel(load_step, 1);
    reveal_with_fuel(parse_with, 1);
}

/// An `include` statement asks the loader for the file it names, on behalf of the including
/// file, reads the contents that came back into the state where the statement stands, and
/// reading then resumes after the statement from the state that the included file gave; the
/// loads asked for are that request, those of the included file, then those of the rest.
pub proof fn lemma_include_resumes(
    d: Seq<u8>,
    name: Option<Seq<u8>>,
    n: nat,
    st: StateView,
    c: Seq<u8>,
    nested: Seq<IncludeLoad>,
    rest: Seq<IncludeLoad>,
    depth: nat,
    inner: RunView,
    after: RunView,
)
    requires
        parse_top(d, n, st) is Included,
        depth < MAX_INCLUDE_DEPTH,
        c.len() < usize::MAX,
        parse_with(c, Some(parse_top(d, n, st)->Included_0), 0, parse_top(d, n, st)->Included_2, nested, depth + 1)
            == Some(inner),
        inner.ok,
        parse_with(d, name, parse_top(d, n, st)->Included_1, inner.state, rest, depth) == Some(after),
    ensures
        parse_with(d, name, n, st, seq![IncludeLoad { contents: Some(c), nested }] + rest, depth) == Some(
            RunView {
                ok: after.ok,
                state: after.state,
                loads: seq![
                    LoadRecord {
                        from: name,
                        request: parse_top(d, n, st)->Included_0,
                        contents: Some(c),
                    },
                ] + inner.loads + after.loads,
            },
        ),
{
    let l = IncludeLoad { contents: Some(c), nested };
    let path = parse_top(d, n, st)->Included_0;
    lemma_load_step_reads(parse_top(d, n, st)->Included_2, c, nested, name, path, depth);
    lemma_parse_with_include(d, name, n, st, l, rest, depth);
    let rec = LoadRecord { from: name, request: path, contents: Some(c) };
    assert(seq![rec] + inner.loads + after.loads =~= (seq![rec] + inner.loads) + after.loads);
}

pub open spec fn parse_failed(e: ErrAt) -> Option<ErrorView> {
    Some(ErrorView::ParseFailed(e.0, e.1))
}

/// Reads top-level statements from index `n` in the state `st`.
pub open spec fn parse_top(d: Seq<u8>, n: nat, st: StateView) -> ParseOutcome
    decreases stream_bound(d) + 1 - n,
{
    if n >= stream_bound(d) {
        ParseOutcome::Finished(st, None)
    } else {
        match tok(d, n) {
            None => ParseOutcome::Finished(st, None),
            Some(Err(e)) => ParseOutcome::Finished(st, parse_failed(lexer_error_at(e))),
            Some(Ok((l, p))) => match l {
                LexemeView::Identifier(name) => match expect_spec(d, n + 1, Want::Assignment) {
                    Err(e) => ParseOutcome::Finished(st, parse_failed(e)),
                    Ok((_, n2)) => match expect_spec(d, n2, Want::Value) {
                        Err(e) => ParseOutcome::Finished(st, parse_failed(e)),
                        Ok((v, n3)) => {
                            let st2 = StateView {
                                env: st.env.insert(name, eval_terms(expr_terms(v), st.env)),
                                ..st
                            };
                            if n < n3 <= stream_bound(d) + 1 {
                                parse_top(d, n3, st2)
                            } else {
                                ParseOutcome::Finished(st2, None)
                            }
                        },
                    },
                },
                LexemeView::Rule => match parse_rule_spec(d, n + 1) {
                    Err(e) => ParseOutcome::Finished(st, parse_failed(e)),
                    Ok((r, n2)) => match add_rule_spec(st, r) {
                        Err(e) => ParseOutcome::Finished(st, Some(e)),
                        Ok(st2) => if n < n2 <= stream_bound(d) + 1 {
                            parse_top(d, n2, st2)
                        } else {
                            ParseOutcome::Finished(st2, None)
                        },
                    },
                },
                LexemeView::Build => match parse_build_spec(d, n + 1, st.env) {
                    Err(e) => ParseOutcome::Finished(st, parse_failed(e)),
                    Ok((b, n2)) => match add_build_edge_spec(st, b) {
                        Err(e) => ParseOutcome::Finished(failed_edge_state(st, b), Some(e)),
                        Ok(st2) => if n < n2 <= stream_bound(d) + 1 {
                            parse_top(d, n2, st2)
                        } else {
                            ParseOutcome::Finished(st2, None)
                        },
                    },
                },
                LexemeView::Include => match expect_spec(d, n + 1, Want::Value) {
                    Err(e) => ParseOutcome::Finished(st, parse_failed(e)),
                    Ok((v, n2)) => match expect_spec(d, n2, Want::Newline) {
                        Err(e) => ParseOutcome::Finished(st, parse_failed(e)),
                        Ok((_, n3)) => ParseOutcome::Included(
                            eval_terms(expr_terms(v), st.env),
                            n3,
                            st,
                        ),
                    },
                },
                LexemeView::Newline => parse_top(d, n + 1, st),
                LexemeView::Comment(_) => parse_top(d, n + 1, st),
                _ => ParseOutcome::Finished(
                    st,
                    parse_failed((p as int, "Unhandled token "@ + lexeme_debug(l))),
                ),
            },
        }
    }
}

proof fn lemma_skip_comments(d: Seq<u8>, n: nat)
    ensures
        skip_comments(d, n) >= n,
        skip_comments(d, n) <= stream_bound(d) || skip_comments(d, n) == n,
        skip_comments(d, n) < stream_bound(d) ==> !(tok(d, skip_comments(d, n)) matches Some(
            Ok((LexemeView::Comment(_), _)),
        )),
    decreases stream_bound(d) + 1 - n,
{
    if n < stream_bound(d) && tok(d, n) matches Some(Ok((LexemeView::Comment(_), _))) {
        lemma_skip_comments(d, n + 1);
    }
}

// ---------------------------------------------------------------------------------------------
// Parse errors.
// ---------------------------------------------------------------------------------------------
#[derive(Debug)]
pub struct ParseError {
    position: Position,
    /// The bytes of the line the error is on.
    line: Vec<u8>,
    message: String,
}

/// Whether `pe` reports the error `(pos, msg)` in the data `d` of the source named `src`: with
/// the line and column of `pos`, the text of its line and the message.
pub open spec fn parse_error_at(
    pe: ParseError,
    d: Seq<u8>,
    src: Option<Seq<u8>>,
    pos: int,
    msg: Seq<char>,
) -> bool {
    &&& pe.spec_position().line == line_of(d, pos)
    &&& pe.spec_position().column == pos - line_start_of(d, pos) + 1
    &&& opt_bytes(pe.spec_position().source_name) == src
    &&& pe.spec_line() == d.subrange(line_start_of(d, pos), newline_from(d, line_start_of(d, pos)))
    &&& pe.spec_message() == msg
}

/// Whether `e` is the error `v` of a parse of `d` from the source named `src`.
pub open spec fn outcome_error_matches(
    e: ProcessingError,
    v: ErrorView,
    d: Seq<u8>,
    src: Option<Seq<u8>>,
) -> bool {
    match v {
        ErrorView::ParseFailed(pos, msg) => e matches ProcessingError::ParseFailed(pe)
            && parse_error_at(pe, d, src, pos, msg),
        _ => error_matches(e, v),
    }
}

/// `String::push_str`: appends `s` to `buf`.
#[verifier::external_body]
pub(crate) fn push_str(buf: &mut String, s: &str)
    ensures
        final(buf)@ == old(buf)@ + s@,
{
    buf.push_str(s)
}

/// The decimal digit `d`.
fn digit(d: u8) -> (c: char)
    requires
        d < 10,
    ensures
        c == digit_char(d as int),
{
    if d == 0 {
        '0'
    } else if d == 1 {
        '1'
    } else if d == 2 {
        '2'
    } else if d == 3 {
        '3'
    } else if d == 4 {
        '4'
    } else if d == 5 {
        '5'
    } else if d == 6 {
        '6'
    } else if d == 7 {
        '7'
    } else if d == 8 {
        '8'
    } else {
        '9'
    }
}

/// Appends `v` in decimal.
fn push_byte_text(buf: &mut String, v: u8)
    ensures
        final(buf)@ == old(buf)@ + byte_text(v),
{
    let ghost start = buf@;
    if v >= 100 {
        push_char(buf, digit(v / 100));
        push_char(buf, digit((v / 10) % 10));
        push_char(buf, digit(v % 10));
        assert(buf@ =~= start + byte_text(v));
    } else if v >= 10 {
        push_char(buf, digit(v / 10));
        push_char(buf, digit(v % 10));
        assert(buf@ =~= start + byte_text(v));
    } else {
        push_char(buf, digit(v));
        assert(buf@ =~= start + byte_text(v));
    }
}

/// Appends the `Debug` text of the bytes `b`.
fn push_bytes_debug(buf: &mut String, b: &[u8])
    ensures
        final(buf)@ == old(buf)@ + bytes_debug(b@),
{
    let ghost start = buf@;
    push_str(buf, "[");
    let mut i: usize = 0;
    while i < b.len()
        invariant
            i <= b@.len(),
            buf@ == start + "["@ + bytes_items(b@.take(i as int)),
        decreases b@.len() - i,
    {
        let ghost before = buf@;
        assert(b@.take(i + 1).drop_last() =~= b@.take(i as int));
        assert(b@.take(i + 1).last() == b@[i as int]);
        if i > 0 {
            push_str(buf, ", ");
        }
        push_byte_text(buf, b[i]);
        proof {
            if i == 0 {
                assert(b@.take(1) =~= seq![b@[0]]);
                assert(bytes_items(b@.take(0)) =~= Seq::<char>::empty());
            }
            assert(buf@ =~= start + "["@ + bytes_items(b@.take(i + 1)));
        }
        i = i + 1;
    }
    assert(b@.take(b@.len() as int) =~= b@);
    push_str(buf, "]");
    assert(buf@ =~= start + bytes_debug(b@));
}

/// Appends the `Debug` text of `l`, a lexeme other than an `Expr`.
fn push_flat_debug(buf: &mut String, l: &Lexeme)
    requires
        !(*l is Expr),
    ensures
        final(buf)@ == old(buf)@ + lexeme_debug(piece_view(*l)),
{
    let ghost start = buf@;
    match l {
        Lexeme::Build => push_str(buf, "Build"),
        Lexeme::Colon => push_str(buf, "Colon"),
        Lexeme::Default => push_str(buf, "Default"),
        Lexeme::Equals => push_str(buf, "Equals"),
        Lexeme::Expr(_) => {},
        Lexeme::Escape(b) => {
            push_str(buf, "Escape(");
            push_bytes_debug(buf, b);
            push_str(buf, ")");
        },
        Lexeme::Identifier(b) => {
            push_str(buf, "Identifier(");
            push_bytes_debug(buf, b);
            push_str(buf, ")");
        },
        Lexeme::Comment(b) => {
            push_str(buf, "Comment(");
            push_bytes_debug(buf, b);
            push_str(buf, ")");
        },
        Lexeme::Include => push_str(buf, "Include"),
        Lexeme::Indent => push_str(buf, "Indent"),
        Lexeme::Literal(b) => {
            push_str(buf, "Literal(");
            push_bytes_debug(buf, b);
            push_str(buf, ")");
        },
        Lexeme::Newline => push_str(buf, "Newline"),
        Lexeme::Pipe => push_str(buf, "Pipe"),
        Lexeme::Pipe2 => push_str(buf, "Pipe2"),
        Lexeme::Pool => push_str(buf, "Pool"),
        Lexeme::Rule => push_str(buf, "Rule"),
        Lexeme::Subninja => push_str(buf, "Subninja"),
        Lexeme::VarRef(t, b) => {
            push_str(buf, "VarRef(");
            match t {
                VarRefType::WithoutParens => push_str(buf, "WithoutParens"),
                VarRefType::WithParens => push_str(buf, "WithParens"),
            }
            push_str(buf, ", ");
            push_bytes_debug(buf, b);
            push_str(buf, ")");
        },
    }
    assert(buf@ =~= start + lexeme_debug(piece_view(*l)));
}

/// The `Debug` text of a lexeme, as `format!("{:?}", ..)` gives it.
fn debug_lexeme(l: &Lexeme) -> (r: String)
    requires
        expr_items_ok(*l),
    ensures
        r@ == lexeme_debug(lexeme_view(*l)),
{
    let mut buf = String::new();
    match l {
        Lexeme::Expr(items) => {
            let ghost v = pieces_view(items@);
            push_str(&mut buf, "Expr([");
            let mut i: usize = 0;
            while i < items.len()
                invariant
                    i <= items@.len(),
                    v == pieces_view(items@),
                    pieces_ok(items@),
                    buf@ == "Expr(["@ + lexemes_debug(v.take(i as int)),
                decreases items@.len() - i,
            {
                assert(v.take(i + 1).drop_last() =~= v.take(i as int));
                assert(v.take(i + 1).last() == piece_view(items@[i as int]));
                assert(is_piece(items@[i as int]));
                if i > 0 {
                    push_str(&mut buf, ", ");
                }
                push_flat_debug(&mut buf, &items[i]);
                proof {
                    if i == 0 {
                        assert(v.take(1) =~= seq![v[0]]);
                        assert(lexemes_debug(v.take(0)) =~= Seq::<char>::empty());
                    }
                    assert(buf@ =~= "Expr(["@ + lexemes_debug(v.take(i + 1)));
                }
                i = i + 1;
            }
            assert(v.take(items@.len() as int) =~= v);
            push_str(&mut buf, "])");
            assert(buf@ =~= lexeme_debug(lexeme_view(*l)));
        },
        _ => {
            push_flat_debug(&mut buf, l);
            assert(buf@ =~= lexeme_debug(lexeme_view(*l)));
        },
    }
    buf
}

/// `"Expected {what}, got {got}"`.
fn expected_got(what: &str, got: &str) -> (r: String)
    ensures
        r@ == expected_msg(what@, got@),
{
    let mut s = String::new();
    push_str(&mut s, "Expected ");
    push_str(&mut s, what);
    push_str(&mut s, ", got ");
    push_str(&mut s, got);
    s
}

/// Two pieces of text, one after the other.
fn concat(a: &str, b: &str) -> (r: String)
    ensures
        r@ == a@ + b@,
{
    let mut s = String::new();
    push_str(&mut s, a);
    push_str(&mut s, b);
    s
}

fn lexeme_name_exec(l: &Lexeme) -> (r: &'static str)
    ensures
        r@ == lexeme_name(lexeme_view(*l)),
{
    match l {
        Lexeme::Build => "build",
        Lexeme::Colon => ":",
        Lexeme::Default => "default",
        Lexeme::Expr(_) => "expression",
        Lexeme::Escape(_) => "escape",
        Lexeme::Equals => "=",
        Lexeme::Identifier(_) => "identifier",
        Lexeme::Comment(_) => "comment",
        Lexeme::Include => "include",
        Lexeme::Indent => "indent",
        Lexeme::Literal(_) => "literal",
        Lexeme::Newline => "newline",
        Lexeme::Pipe => "|",
        Lexeme::Pipe2 => "||",
        Lexeme::Pool => "pool",
        Lexeme::Rule => "rule",
        Lexeme::Subninja => "subninja",
        Lexeme::VarRef(_, _) => "varref",
    }
}

fn want_str(w: Want) -> (r: &'static str)
    ensures
        r@ == want_name(w),
{
    match w {
        Want::Identifier => "identifier",
        Want::Value => "value",
        Want::Indent => "indent",
        Want::Newline => "newline",
        Want::Assignment => "=",
    }
}

fn wants_exec(w: Want, l: &Lexeme) -> (r: bool)
    ensures
        r == wants(w, lexeme_view(*l)),
{
    match (w, l) {
        (Want::Identifier, Lexeme::Identifier(_)) => true,
        (Want::Value, Lexeme::Expr(_)) => true,
        (Want::Indent, Lexeme::Indent) => true,
        (Want::Newline, Lexeme::Newline) => true,
        (Want::Assignment, Lexeme::Equals) => true,
        _ => false,
    }
}

fn lexer_error_str(e: LexerError) -> (r: &'static str)
    ensures
        r@ == lexer_error_msg(e),
{
    match e {
        LexerError::UnexpectedEof(_) => "Unexpected EOF",
        LexerError::IllegalCharacter(_, _) => "Illegal character",
        LexerError::NotAnIdentifier(_, _) => "Expected identifier",
        LexerError::MissingBrace(_) => "Expected closing parentheses '}'",
    }
}

impl ParseError {
    pub closed spec fn spec_position(&self) -> Position {
        self.position
    }

    pub closed spec fn spec_line(&self) -> Seq<u8> {
        self.line@
    }

    pub closed spec fn spec_message(&self) -> Seq<char> {
        self.message@
    }

    /// Where the error is.
    pub fn position(&self) -> (r: &Position)
        ensures
            *r == self.spec_position(),
    {
        &self.position
    }

    /// The bytes of the line the error is on.
    pub fn line(&self) -> (r: &[u8])
        ensures
            r@ == self.spec_line(),
    {
        self.line.as_slice()
    }

    /// What went wrong.
    pub fn message(&self) -> (r: &str)
        ensures
            r@ == self.spec_message(),
    {
        self.message.as_str()
    }

    fn new(msg: String, pos: Pos, lexer: &Lexer) -> (r: ParseError)
        requires
            lexer.wf(),
            pos.0 <= lexer.spec_offset(),
        ensures
            parse_error_at(
                r,
                lexer.spec_data(),
                opt_bytes(lexer.spec_source_name()),
                pos.0 as int,
                msg@,
            ),
    {
        proof {
            lexer.lemma_wf();
        }
        let position = lexer.to_position(pos);
        let line = lexer.retrieve_line(&position);
        ParseError { position, line: slice_to_vec(line), message: msg }
    }

    fn eof(msg: String, lexer: &Lexer) -> (r: ParseError)
        requires
            lexer.wf(),
            lexer.spec_offset() >= lexer.spec_data().len(),
        ensures
            parse_error_at(
                r,
                lexer.spec_data(),
                opt_bytes(lexer.spec_source_name()),
                lexer.spec_data().len() as int,
                msg@,
            ),
    {
        let pos = lexer.last_pos();
        ParseError::new(msg, pos, lexer)
    }

    fn from_lexer_error(err: LexerError, lexer: &Lexer) -> (r: ParseError)
        requires
            lexer.wf(),
            error_pos(err) <= lexer.spec_offset(),
        ensures
            parse_error_at(
                r,
                lexer.spec_data(),
                opt_bytes(lexer.spec_source_name()),
                lexer_error_at(err).0,
                lexer_error_at(err).1,
            ),
    {
        let pos = match err {
            LexerError::UnexpectedEof(pos) => pos,
            LexerError::IllegalCharacter(pos, _) => pos,
            LexerError::NotAnIdentifier(pos, _) => pos,
            LexerError::MissingBrace(pos) => pos,
        };
        let mut msg = String::new();
        push_str(&mut msg, lexer_error_str(err));
        ParseError::new(msg, pos, lexer)
    }
}

// ---------------------------------------------------------------------------------------------
// The parser.
// ---------------------------------------------------------------------------------------------
/// What the next item of the stream is, as far as the loops over indented bindings care.
enum Upcoming {
    /// The end of the input.
    End,
    /// A lexer error.
    Failed,
    /// A newline or a comment.
    Blank,
    Indent,
    Other,
}

spec fn upcoming_of(t: Option<ItemView>) -> Upcoming {
    match t {
        None => Upcoming::End,
        Some(Err(_)) => Upcoming::Failed,
        Some(Ok((LexemeView::Newline, _))) => Upcoming::Blank,
        Some(Ok((LexemeView::Comment(_), _))) => Upcoming::Blank,
        Some(Ok((LexemeView::Indent, _))) => Upcoming::Indent,
        Some(Ok(_)) => Upcoming::Other,
    }
}

pub struct Parser<'a> {
    lexer: Lexer<'a>,
    /// An item read from the lexer ahead of the parser: `Some(None)` is the end of the input.
    peeked: Option<Option<LexerItem<'a>>>,
    source_name: Option<Vec<u8>>,
    /// How many items the parser has taken from the stream.
    consumed: Ghost<nat>,
}

impl<'a> Parser<'a> {
    pub closed spec fn spec_data(&self) -> Seq<u8> {
        self.lexer.spec_data()
    }

    /// The index in the stream of the next item the parser reads.
    pub closed spec fn spec_index(&self) -> nat {
        self.consumed@
    }

    pub closed spec fn spec_source(&self) -> Option<Seq<u8>> {
        opt_bytes(self.source_name)
    }

    /// The lexer is where the stream is after the items taken, or one item further when that
    /// item waits in `peeked`.
    pub closed spec fn wf(&self) -> bool {
        let d = self.lexer.spec_data();
        &&& self.lexer.wf()
        &&& opt_bytes(self.lexer.spec_source_name()) == opt_bytes(self.source_name)
        &&& match self.peeked {
            None => (self.lexer.spec_offset(), self.lexer.spec_mode()) == lex_after(
                d,
                self.consumed@,
            ),
            Some(x) => (self.lexer.spec_offset(), self.lexer.spec_mode()) == lex_after(
                d,
                self.consumed@ + 1,
            ) && opt_item_view(x) == tok(d, self.consumed@),
        }
    }

    /// Nothing waits in `peeked`: the lexer is where the stream is after the items taken.
    closed spec fn at_index(&self) -> bool {
        self.peeked is None
    }

    pub fn new(input: &'a [u8], source_name: Option<Vec<u8>>) -> (r: Parser<'a>)
        requires
            input@.len() < usize::MAX,
        ensures
            r.wf(),
            r.spec_data() == input@,
            r.spec_index() == 0,
            r.spec_source() == opt_bytes(source_name),
    {
        Parser {
            lexer: Lexer::new(input, clone_name(&source_name)),
            peeked: None,
            source_name,
            consumed: Ghost(0),
        }
    }

    /// Takes the next item of the stream.
    fn next_item(&mut self) -> (r: Option<LexerItem<'a>>)
        requires
            old(self).wf(),
        ensures
            final(self).wf(),
            final(self).at_index(),
            final(self).spec_data() == old(self).spec_data(),
            final(self).spec_source() == old(self).spec_source(),
            final(self).spec_index() == old(self).spec_index() + 1,
            opt_item_view(r) == tok(old(self).spec_data(), old(self).spec_index()),
    {
        let r = match self.peeked.take() {
            Some(x) => x,
            None => self.lexer.next(),
        };
        self.consumed = Ghost(self.consumed@ + 1);
        r
    }

    /// Looks at the next item of the stream without taking it.
    fn peek_upcoming(&mut self) -> (r: Upcoming)
        requires
            old(self).wf(),
        ensures
            final(self).wf(),
            final(self).spec_data() == old(self).spec_data(),
            final(self).spec_source() == old(self).spec_source(),
            final(self).spec_index() == old(self).spec_index(),
            final(self).peeked is Some,
            r == upcoming_of(tok(old(self).spec_data(), old(self).spec_index())),
    {
        if self.peeked.is_none() {
            let x = self.lexer.next();
            self.peeked = Some(x);
        }
        match &self.peeked {
            Some(Some(Ok((l, _)))) => match l {
                Lexeme::Newline => Upcoming::Blank,
                Lexeme::Comment(_) => Upcoming::Blank,
                Lexeme::Indent => Upcoming::Indent,
                _ => Upcoming::Other,
            },
            Some(Some(Err(_))) => Upcoming::Failed,
            _ => Upcoming::End,
        }
    }

    /// Once the stream has ended, the lexer is at the end of the data.
    proof fn lemma_ended(&self)
        requires
            self.wf(),
            self.peeked matches Some(x) ==> x is None,
            self.peeked is None ==> self.consumed@ > 0 && tok(self.spec_data(), (self.consumed@ - 1) as nat) is None,
        ensures
            self.lexer.spec_offset() >= self.spec_data().len(),
    {
        let d = self.spec_data();
        if self.peeked is None {
            lemma_stream(d, (self.consumed@ - 1) as nat);
        } else {
            lemma_stream(d, self.consumed@);
        }
    }

    /// Takes items up to and including the first that is not a comment.
    fn handle_eof_and_comments(&mut self, msg_type: &str) -> (r: Result<LexerItem<'a>, ParseError>)
        requires
            old(self).wf(),
        ensures
            final(self).wf(),
            final(self).at_index(),
            final(self).spec_data() == old(self).spec_data(),
            final(self).spec_source() == old(self).spec_source(),
            final(self).spec_index() == skip_comments(old(self).spec_data(), old(self).spec_index())
                + 1,
            match tok(
                old(self).spec_data(),
                skip_comments(old(self).spec_data(), old(self).spec_index()),
            ) {
                None => r matches Err(pe) && parse_error_at(
                    pe,
                    old(self).spec_data(),
                    old(self).spec_source(),
                    old(self).spec_data().len() as int,
                    expected_msg(msg_type@, "EOF"@),
                ),
                Some(item) => r matches Ok(it) && item_view(it) == item,
            },
    {
        let ghost d = self.spec_data();
        let ghost n0 = self.spec_index();
        loop
            invariant
                self.wf(),
                self.spec_data() == d,
                d == old(self).spec_data(),
                n0 == old(self).spec_index(),
                self.spec_source() == old(self).spec_source(),
                skip_comments(d, self.spec_index()) == skip_comments(d, n0),
            decreases stream_bound(d) + 1 - self.spec_index(),
        {
            let ghost idx = self.spec_index();
            proof {
                lemma_skip_comments(d, idx);
            }
            let item = self.next_item();
            match item {
                None => {
                    proof {
                        self.lemma_ended();
                        self.lexer.lemma_wf();
                    }
                    return Err(ParseError::eof(expected_got(msg_type, "EOF"), &self.lexer));
                },
                Some(it) => {
                    proof {
                        lemma_stream(d, idx);
                    }
                    let is_comment = match &it {
                        Ok((Lexeme::Comment(_), _)) => true,
                        _ => false,
                    };
                    if !is_comment {
                        return Ok(it);
                    }
                },
            }
        }
    }

    /// Takes the next item that is not a comment, which must be what `w` asks for.
    fn expect(&mut self, w: Want) -> (r: Result<Lexeme<'a>, ParseError>)
        requires
            old(self).wf(),
        ensures
            final(self).wf(),
            final(self).at_index(),
            final(self).spec_data() == old(self).spec_data(),
            final(self).spec_source() == old(self).spec_source(),
            final(self).spec_index() > old(self).spec_index(),
            match expect_spec(old(self).spec_data(), old(self).spec_index(), w) {
                Ok((l, n)) => r matches Ok(t) && lexeme_view(t) == l && expr_items_ok(t)
                    && final(self).spec_index() == n && n <= stream_bound(old(self).spec_data()),
                Err((pos, msg)) => r matches Err(pe) && parse_error_at(
                    pe,
                    old(self).spec_data(),
                    old(self).spec_source(),
                    pos,
                    msg,
                ),
            },
    {
        let ghost d = self.spec_data();
        let ghost k = skip_comments(d, self.spec_index());
        proof {
            lemma_skip_comments(d, self.spec_index());
        }
        let item = self.handle_eof_and_comments(want_str(w))?;
        proof {
            self.lexer.lemma_wf();
            lemma_stream(d, k);
            lemma_tok_facts(d, k);
        }
        match item {
            Err(e) => Err(ParseError::from_lexer_error(e, &self.lexer)),
            Ok((token, pos)) => {
                if wants_exec(w, &token) {
                    proof {
                        lemma_items_ok(token);
                    }
                    Ok(token)
                } else {
                    Err(
                        ParseError::new(
                            expected_got(want_str(w), lexeme_name_exec(&token)),
                            pos,
                            &self.lexer,
                        ),
                    )
                }
            },
        }
    }
}

impl<'a> Parser<'a> {
    /// The parser still reads the same data from the same source, and has not gone back.
    pub closed spec fn follows(&self, before: Parser<'a>) -> bool {
        &&& self.wf()
        &&& self.spec_data() == before.spec_data()
        &&& self.spec_source() == before.spec_source()
        &&& self.spec_index() >= before.spec_index()
    }

    /// Turns a path or a value into an expression.
    fn expr_to_expr(lexeme: Lexeme<'a>) -> (r: Expr)
        requires
            lexeme is Expr,
            expr_items_ok(lexeme),
        ensures
            r.view_terms() == expr_terms(lexeme_view(lexeme)),
    {
        let ghost lv = lexeme_view(lexeme);
        match lexeme {
            Lexeme::Expr(items) => {
                let mut terms: Vec<Term> = Vec::new();
                let mut k: usize = 0;
                while k < items.len()
                    invariant
                        k <= items@.len(),
                        crate::parse::lexer::pieces_ok(items@),
                        terms@.len() == k,
                        lv == LexemeView::Expr(crate::parse::lexer::pieces_view(items@)),
                        forall|j: int|
                            0 <= j < k ==> crate::parse::ast::term_view(#[trigger] terms@[j])
                                == piece_term(crate::parse::lexer::piece_view(items@[j])),
                    decreases items@.len() - k,
                {
                    assert(is_piece(items@[k as int]));
                    let t = match &items[k] {
                        Lexeme::Literal(v) => Term::Literal(slice_to_vec(v)),
                        Lexeme::Escape(v) => Term::Literal(slice_to_vec(v)),
                        Lexeme::VarRef(_, v) => Term::Reference(slice_to_vec(v)),
                        _ => unreached(),
                    };
                    terms.push(t);
                    k = k + 1;
                }
                let r = Expr(terms);
                assert(r.view_terms() =~= expr_terms(lv));
                r
            },
            _ => unreached(),
        }
    }

    fn expect_identifier(&mut self) -> (r: Result<Lexeme<'a>, ParseError>)
        requires
            old(self).wf(),
        ensures
            final(self).follows(*old(self)),
            final(self).at_index(),
            match expect_spec(old(self).spec_data(), old(self).spec_index(), Want::Identifier) {
                Ok((l, n)) => r matches Ok(t) && lexeme_view(t) == l && final(self).spec_index()
                    == n && n <= stream_bound(old(self).spec_data()),
                Err((pos, msg)) => r matches Err(pe) && parse_error_at(
                    pe,
                    old(self).spec_data(),
                    old(self).spec_source(),
                    pos,
                    msg,
                ),
            },
    {
        self.expect(Want::Identifier)
    }

    /// Takes what `w` asks for, for its position in the stream alone.
    fn discard(&mut self, w: Want) -> (r: Result<(), ParseError>)
        requires
            old(self).wf(),
        ensures
            final(self).follows(*old(self)),
            final(self).at_index(),
            final(self).spec_index() > old(self).spec_index(),
            match expect_spec(old(self).spec_data(), old(self).spec_index(), w) {
                Ok((_, n)) => r is Ok && final(self).spec_index() == n && n <= stream_bound(
                    old(self).spec_data(),
                ),
                Err((pos, msg)) => r matches Err(pe) && parse_error_at(
                    pe,
                    old(self).spec_data(),
                    old(self).spec_source(),
                    pos,
                    msg,
                ),
            },
    {
        self.expect(w)?;
        Ok(())
    }

    fn discard_indent(&mut self) -> (r: Result<(), ParseError>)
        requires
            old(self).wf(),
        ensures
            final(self).follows(*old(self)),
            final(self).at_index(),
            match expect_spec(old(self).spec_data(), old(self).spec_index(), Want::Indent) {
                Ok((_, n)) => r is Ok && final(self).spec_index() == n && n <= stream_bound(
                    old(self).spec_data(),
                ),
                Err((pos, msg)) => r matches Err(pe) && parse_error_at(
                    pe,
                    old(self).spec_data(),
                    old(self).spec_source(),
                    pos,
                    msg,
                ),
            },
    {
        self.discard(Want::Indent)
    }

    fn discard_newline(&mut self) -> (r: Result<(), ParseError>)
        requires
            old(self).wf(),
        ensures
            final(self).follows(*old(self)),
            final(self).at_index(),
            final(self).spec_index() > old(self).spec_index(),
            match expect_spec(old(self).spec_data(), old(self).spec_index(), Want::Newline) {
                Ok((_, n)) => r is Ok && final(self).spec_index() == n && n <= stream_bound(
                    old(self).spec_data(),
                ),
                Err((pos, msg)) => r matches Err(pe) && parse_error_at(
                    pe,
                    old(self).spec_data(),
                    old(self).spec_source(),
                    pos,
                    msg,
                ),
            },
    {
        self.discard(Want::Newline)
    }

    fn discard_assignment(&mut self) -> (r: Result<(), ParseError>)
        requires
            old(self).wf(),
        ensures
            final(self).follows(*old(self)),
            final(self).at_index(),
            match expect_spec(old(self).spec_data(), old(self).spec_index(), Want::Assignment) {
                Ok((_, n)) => r is Ok && final(self).spec_index() == n && n <= stream_bound(
                    old(self).spec_data(),
                ),
                Err((pos, msg)) => r matches Err(pe) && parse_error_at(
                    pe,
                    old(self).spec_data(),
                    old(self).spec_source(),
                    pos,
                    msg,
                ),
            },
    {
        self.discard(Want::Assignment)
    }

    fn expect_value(&mut self) -> (r: Result<Expr, ParseError>)
        requires
            old(self).wf(),
        ensures
            final(self).follows(*old(self)),
            final(self).at_index(),
            final(self).spec_index() > old(self).spec_index(),
            match expect_spec(old(self).spec_data(), old(self).spec_index(), Want::Value) {
                Ok((l, n)) => r matches Ok(e) && e.view_terms() == expr_terms(l)
                    && final(self).spec_index() == n && n <= stream_bound(old(self).spec_data()),
                Err((pos, msg)) => r matches Err(pe) && parse_error_at(
                    pe,
                    old(self).spec_data(),
                    old(self).spec_source(),
                    pos,
                    msg,
                ),
            },
    {
        let token = self.expect(Want::Value)?;
        Ok(Parser::expr_to_expr(token))
    }

    /// Takes an identifier, passing over indents and comments before it.
    fn expect_identifier_eating_indent(&mut self) -> (r: Result<Lexeme<'a>, ParseError>)
        requires
            old(self).wf(),
        ensures
            final(self).follows(*old(self)),
            final(self).at_index(),
            match ident_eating_indent(old(self).spec_data(), old(self).spec_index()) {
                Ok((l, n)) => r matches Ok(t) && lexeme_view(t) == l && final(self).spec_index()
                    == n && n <= stream_bound(old(self).spec_data()),
                Err((pos, msg)) => r matches Err(pe) && parse_error_at(
                    pe,
                    old(self).spec_data(),
                    old(self).spec_source(),
                    pos,
                    msg,
                ),
            },
    {
        let ghost d = self.spec_data();
        let ghost n0 = self.spec_index();
        loop
            invariant
                self.follows(*old(self)),
                d == old(self).spec_data(),
                n0 == old(self).spec_index(),
                ident_eating_indent(d, self.spec_index()) == ident_eating_indent(d, n0),
            decreases stream_bound(d) + 1 - self.spec_index(),
        {
            let ghost idx = self.spec_index();
            let ghost k = skip_comments(d, idx);
            proof {
                lemma_skip_comments(d, idx);
                self.lexer.lemma_wf();
            }
            let item = self.handle_eof_and_comments("identifier")?;
            proof {
                lemma_stream(d, k);
                lemma_tok_facts(d, k);
            }
            match item {
                Err(e) => {
                    return Err(ParseError::from_lexer_error(e, &self.lexer));
                },
                Ok((token, pos)) => match token {
                    Lexeme::Indent => {},
                    Lexeme::Identifier(_) => {
                        return Ok(token);
                    },
                    _ => {
                        return Err(
                            ParseError::new(
                                expected_got("identifier", lexeme_name_exec(&token)),
                                pos,
                                &self.lexer,
                            ),
                        );
                    },
                },
            }
        }
    }

    /// Reads `name = value`.
    fn read_assignment(&mut self) -> (r: Result<(&'a [u8], Expr), ParseError>)
        requires
            old(self).wf(),
        ensures
            final(self).follows(*old(self)),
            final(self).at_index(),
            match read_assignment_spec(old(self).spec_data(), old(self).spec_index()) {
                Ok(((var, value), n)) => r matches Ok((v, e)) && v@ == var && e.view_terms()
                    == value && final(self).spec_index() == n && n <= stream_bound(
                    old(self).spec_data(),
                ),
                Err((pos, msg)) => r matches Err(pe) && parse_error_at(
                    pe,
                    old(self).spec_data(),
                    old(self).spec_source(),
                    pos,
                    msg,
                ),
            },
    {
        proof {
            lemma_ident_eating_indent(self.spec_data(), self.spec_index());
        }
        let var = self.expect_identifier_eating_indent()?;
        self.discard_assignment()?;
        let value = self.expect_value()?;
        Ok((var.value(), value))
    }
}

/// The bindings of a rule as the specification sees them.
pub open spec fn bindings_seq(v: Seq<(Vec<u8>, Expr)>) -> Seq<(Seq<u8>, Seq<TermView>)> {
    Seq::new(v.len(), |k: int| (v[k].0@, v[k].1.view_terms()))
}

/// The rule name read so far, if any.
pub open spec fn rule_seq(r: Option<&[u8]>) -> Seq<u8> {
    match r {
        Some(v) => v@,
        None => Seq::empty(),
    }
}

/// Whether a rule may bind `name`.
fn allowed_rule_variable(name: &[u8]) -> (r: bool)
    ensures
        r == allowed_rule_var(name@),
{
    let command: [u8; 7] = [99u8, 111, 109, 109, 97, 110, 100];
    let description: [u8; 11] = [100u8, 101, 115, 99, 114, 105, 112, 116, 105, 111, 110];
    proof {
        assert(command@ =~= crate::parse::command_name());
        assert(description@ =~= description_name());
    }
    bytes_eq(name, command.as_slice()) || bytes_eq(name, description.as_slice())
}

impl<'a> Parser<'a> {
    /// Reads the indented bindings of a rule.
    fn read_rule_bindings(&mut self) -> (r: Result<Vec<(Vec<u8>, Expr)>, ParseError>)
        requires
            old(self).wf(),
            old(self).spec_index() <= stream_bound(old(self).spec_data()),
        ensures
            final(self).follows(*old(self)),
            match rule_bindings_spec(
                old(self).spec_data(),
                old(self).spec_index(),
                Seq::empty(),
                false,
            ) {
                Ok((b, n)) => r matches Ok(v) && bindings_seq(v@) == b && final(self).spec_index()
                    == n && n <= stream_bound(old(self).spec_data()),
                Err((pos, msg)) => r matches Err(pe) && parse_error_at(
                    pe,
                    old(self).spec_data(),
                    old(self).spec_source(),
                    pos,
                    msg,
                ),
            },
    {
        let ghost d = self.spec_data();
        let ghost n0 = self.spec_index();
        let mut bindings: Vec<(Vec<u8>, Expr)> = Vec::new();
        let mut at_least_one = false;
        proof {
            assert(bindings_seq(bindings@) =~= Seq::<(Seq<u8>, Seq<TermView>)>::empty());
        }
        loop
            invariant
                self.follows(*old(self)),
                d == old(self).spec_data(),
                n0 == old(self).spec_index(),
                self.spec_index() <= stream_bound(d),
                rule_bindings_spec(d, self.spec_index(), bindings_seq(bindings@), at_least_one)
                    == rule_bindings_spec(d, n0, Seq::empty(), false),
            decreases stream_bound(d) + 1 - self.spec_index(),
        {
            let ghost idx = self.spec_index();
            let ghost acc = bindings_seq(bindings@);
            proof {
                lemma_stream(d, idx);
            }
            match self.peek_upcoming() {
                Upcoming::End => {
                    if at_least_one {
                        return Ok(bindings);
                    } else {
                        proof {
                            self.lemma_ended();
                        }
                        return Err(ParseError::eof(expected_got("indent", "EOF"), &self.lexer));
                    }
                },
                Upcoming::Failed => {
                    return Ok(bindings);
                },
                Upcoming::Other => {
                    return Ok(bindings);
                },
                Upcoming::Blank => {
                    self.next_item();
                },
                Upcoming::Indent => {
                    proof {
                        lemma_skip_comments(d, idx);
                    }
                    self.discard_indent()?;
                    let (var, value) = self.read_assignment()?;
                    if !allowed_rule_variable(var) {
                        let mut msg = String::new();
                        push_str(&mut msg, "unexpected variable '");
                        let text: &str = match str_from_utf8(var) {
                            Ok(t) => t,
                            Err(_) => "invalid utf-8",
                        };
                        push_str(&mut msg, text);
                        push_str(&mut msg, "'");
                        proof {
                            self.lexer.lemma_wf();
                        }
                        return Err(ParseError::new(msg, self.lexer.current_pos(), &self.lexer));
                    }
                    at_least_one = true;
                    let ghost pair = (var@, value.view_terms());
                    bindings.push((slice_to_vec(var), value));
                    proof {
                        assert(bindings_seq(bindings@) =~= acc.push(pair));
                    }
                },
            }
        }
    }

    /// Reads a rule after the `rule` keyword.
    fn parse_rule(&mut self) -> (r: Result<Rule, ParseError>)
        requires
            old(self).wf(),
        ensures
            final(self).follows(*old(self)),
            match parse_rule_spec(old(self).spec_data(), old(self).spec_index()) {
                Ok((rv, n)) => r matches Ok(rule) && crate::parse::rule_view(rule) == rv
                    && final(self).spec_index() == n && n <= stream_bound(old(self).spec_data()),
                Err((pos, msg)) => r matches Err(pe) && parse_error_at(
                    pe,
                    old(self).spec_data(),
                    old(self).spec_source(),
                    pos,
                    msg,
                ),
            },
    {
        let identifier = self.expect_identifier()?;
        self.discard_newline()?;
        let bindings = self.read_rule_bindings()?;
        let r = Rule { name: slice_to_vec(identifier.value()), bindings };
        assert(r.bindings_view() =~= bindings_seq(bindings@));
        Ok(r)
    }

    /// Reads the first line of a build edge, after the `build` keyword: its outputs, its rule and
    /// its inputs.
    fn read_build_header(&mut self) -> (r: Result<
        (&'a [u8], Vec<Expr>, Vec<Expr>, Vec<Expr>, Vec<Expr>),
        ParseError,
    >)
        requires
            old(self).wf(),
            old(self).spec_index() <= stream_bound(old(self).spec_data()),
        ensures
            final(self).follows(*old(self)),
            match build_header_spec(
                old(self).spec_data(),
                old(self).spec_index(),
                HeaderState::Outputs,
                empty_header(),
            ) {
                Ok(((rule, outs, ins, imps, ords), n)) => r matches Ok((rl, o, i, im, od)) && rl@ == rule
                    && crate::parse::exprs_view(o@) == outs && crate::parse::exprs_view(i@) == ins
                    && crate::parse::exprs_view(im@) == imps && crate::parse::exprs_view(od@) == ords
                    && final(self).spec_index() == n && n <= stream_bound(old(self).spec_data())
                    + 1,
                Err((pos, msg)) => r matches Err(pe) && parse_error_at(
                    pe,
                    old(self).spec_data(),
                    old(self).spec_source(),
                    pos,
                    msg,
                ),
            },
    {
        let ghost d = self.spec_data();
        let ghost n0 = self.spec_index();
        let mut outputs: Vec<Expr> = Vec::new();
        let mut inputs: Vec<Expr> = Vec::new();
        let mut implicit: Vec<Expr> = Vec::new();
        let mut order: Vec<Expr> = Vec::new();
        let mut rule: Option<&'a [u8]> = None;
        let mut state = HeaderState::Outputs;
        proof {
            assert(crate::parse::exprs_view(outputs@) =~= Seq::<Seq<TermView>>::empty());
            assert(crate::parse::exprs_view(inputs@) =~= Seq::<Seq<TermView>>::empty());
            assert(crate::parse::exprs_view(implicit@) =~= Seq::<Seq<TermView>>::empty());
            assert(crate::parse::exprs_view(order@) =~= Seq::<Seq<TermView>>::empty());
        }
        loop
            invariant
                self.follows(*old(self)),
                d == old(self).spec_data(),
                n0 == old(self).spec_index(),
                self.spec_index() <= stream_bound(d),
                among_inputs(state) ==> rule is Some,
                build_header_spec(
                    d,
                    self.spec_index(),
                    state,
                    (
                        rule_seq(rule),
                        crate::parse::exprs_view(outputs@),
                        crate::parse::exprs_view(inputs@),
                        crate::parse::exprs_view(implicit@),
                        crate::parse::exprs_view(order@),
                    ),
                ) == build_header_spec(d, n0, HeaderState::Outputs, empty_header()),
            decreases stream_bound(d) + 1 - self.spec_index(),
        {
            let ghost idx = self.spec_index();
            let ghost outs = crate::parse::exprs_view(outputs@);
            let ghost ins = crate::parse::exprs_view(inputs@);
            let ghost imps = crate::parse::exprs_view(implicit@);
            let ghost ords = crate::parse::exprs_view(order@);
            proof {
                lemma_stream(d, idx);
                self.lexer.lemma_wf();
                lemma_tok_facts(d, idx);
            }
            let item = self.next_item();
            proof {
                self.lexer.lemma_wf();
            }
            match item {
                None => {
                    // The end of the input is fine once the rule is read.
                    match rule {
                        Some(rl) => {
                            if state == HeaderState::Inputs || state == HeaderState::ImplicitInputs
                                || state == HeaderState::OrderInputs {
                                return Ok((rl, outputs, inputs, implicit, order));
                            }
                        },
                        None => {},
                    }
                    proof {
                        self.lemma_ended();
                    }
                    let mut msg = String::new();
                    push_str(&mut msg, "unexpected EOF in the middle of a build edge");
                    return Err(ParseError::eof(msg, &self.lexer));
                },
                Some(Err(e)) => {
                    return Err(ParseError::from_lexer_error(e, &self.lexer));
                },
                Some(Ok((token, pos))) => {
                    proof {
                        lemma_items_ok(token);
                    }
                    match state {
                        HeaderState::Outputs => match token {
                            Lexeme::Expr(_) => {
                                let e = Parser::expr_to_expr(token);
                                outputs.push(e);
                                proof {
                                    assert(crate::parse::exprs_view(outputs@) =~= outs.push(
                                        e.view_terms(),
                                    ));
                                }
                            },
                            Lexeme::Colon => {
                                if outputs.len() == 0 {
                                    let mut msg = String::new();
                                    push_str(&mut msg, "Expected at least one output for build");
                                    return Err(ParseError::new(msg, pos, &self.lexer));
                                }
                                state = HeaderState::RuleName;
                            },
                            _ => {
                                return Err(
                                    ParseError::new(
                                        concat(
                                            "Expected another output or :, got ",
                                            lexeme_name_exec(&token),
                                        ),
                                        pos,
                                        &self.lexer,
                                    ),
                                );
                            },
                        },
                        HeaderState::RuleName => match token {
                            Lexeme::Identifier(v) => {
                                rule = Some(v);
                                state = HeaderState::Inputs;
                            },
                            _ => {
                                return Err(
                                    ParseError::new(
                                        concat("Expected rule name, got ", lexeme_name_exec(&token)),
                                        pos,
                                        &self.lexer,
                                    ),
                                );
                            },
                        },
                        _ => {
                            match token {
                                Lexeme::Expr(_) => {
                                    let e = Parser::expr_to_expr(token);
                                    if state == HeaderState::Inputs {
                                        inputs.push(e);
                                        proof {
                                            assert(crate::parse::exprs_view(inputs@) =~= ins.push(
                                                e.view_terms(),
                                            ));
                                        }
                                    } else if state == HeaderState::ImplicitInputs {
                                        implicit.push(e);
                                        proof {
                                            assert(crate::parse::exprs_view(implicit@) =~= imps.push(
                                                e.view_terms(),
                                            ));
                                        }
                                    } else {
                                        order.push(e);
                                        proof {
                                            assert(crate::parse::exprs_view(order@) =~= ords.push(
                                                e.view_terms(),
                                            ));
                                        }
                                    }
                                },
                                Lexeme::Pipe => {
                                    if state == HeaderState::Inputs {
                                        state = HeaderState::ImplicitInputs;
                                    } else {
                                        return Err(
                                        ParseError::new(
                                            concat(
                                                "Expected input or newline, got ",
                                                lexeme_name_exec(&token),
                                            ),
                                            pos,
                                            &self.lexer,
                                        ),
                                    );
                                    }
                                },
                                Lexeme::Pipe2 => {
                                    if state != HeaderState::OrderInputs {
                                        state = HeaderState::OrderInputs;
                                    } else {
                                        return Err(
                                        ParseError::new(
                                            concat(
                                                "Expected input or newline, got ",
                                                lexeme_name_exec(&token),
                                            ),
                                            pos,
                                            &self.lexer,
                                        ),
                                    );
                                    }
                                },
                                Lexeme::Newline => {
                                    match rule {
                                        Some(rl) => {
                                            return Ok((rl, outputs, inputs, implicit, order));
                                        },
                                        None => {
                                            return Ok((&[], outputs, inputs, implicit, order));
                                        },
                                    }
                                },
                                _ => {
                                    return Err(
                                        ParseError::new(
                                            concat(
                                                "Expected input or newline, got ",
                                                lexeme_name_exec(&token),
                                            ),
                                            pos,
                                            &self.lexer,
                                        ),
                                    );
                                },
                            }
                        },
                    }
                },
            }
        }
    }

    /// Reads the indented bindings of a build edge into `env`; each value is evaluated in the
    /// bindings so far.
    fn read_edge_bindings(&mut self, env: &mut Env) -> (r: Result<(), ParseError>)
        requires
            old(self).wf(),
            old(self).spec_index() <= stream_bound(old(self).spec_data()) + 1,
        ensures
            final(self).follows(*old(self)),
            match build_bindings_spec(
                old(self).spec_data(),
                old(self).spec_index(),
                old(env).env_view(),
            ) {
                Ok((m, n)) => r is Ok && final(env).env_view() == m && final(self).spec_index()
                    == n && n <= stream_bound(old(self).spec_data()) + 1,
                Err((pos, msg)) => r matches Err(pe) && parse_error_at(
                    pe,
                    old(self).spec_data(),
                    old(self).spec_source(),
                    pos,
                    msg,
                ),
            },
    {
        let ghost d = self.spec_data();
        let ghost n0 = self.spec_index();
        loop
            invariant
                self.follows(*old(self)),
                d == old(self).spec_data(),
                n0 == old(self).spec_index(),
                self.spec_index() <= stream_bound(d) + 1,
                build_bindings_spec(d, self.spec_index(), env.env_view()) == build_bindings_spec(
                    d,
                    n0,
                    old(env).env_view(),
                ),
            decreases stream_bound(d) + 1 - self.spec_index(),
        {
            let ghost idx = self.spec_index();
            proof {
                lemma_stream(d, idx);
            }
            match self.peek_upcoming() {
                Upcoming::Blank => {
                    self.next_item();
                },
                Upcoming::Indent => {
                    proof {
                        lemma_skip_comments(d, idx);
                    }
                    self.discard_indent()?;
                    let (var, value) = self.read_assignment()?;
                    let v = value.eval(env);
                    env.add_binding(slice_to_vec(var), v);
                },
                _ => {
                    return Ok(());
                },
            }
        }
    }

    /// Reads a build edge after the `build` keyword; its bindings see `top_env`.
    fn parse_build(&mut self, top_env: Env) -> (r: Result<Build, ParseError>)
        requires
            old(self).wf(),
            old(self).spec_index() <= stream_bound(old(self).spec_data()),
        ensures
            final(self).follows(*old(self)),
            match parse_build_spec(old(self).spec_data(), old(self).spec_index(), top_env.env_view()) {
                Ok((bv, n)) => r matches Ok(b) && crate::parse::build_ast_view(b) == bv
                    && final(self).spec_index() == n && n <= stream_bound(old(self).spec_data())
                    + 1,
                Err((pos, msg)) => r matches Err(pe) && parse_error_at(
                    pe,
                    old(self).spec_data(),
                    old(self).spec_source(),
                    pos,
                    msg,
                ),
            },
    {
        let (rule, outputs, inputs, implicit_inputs, order_inputs) = self.read_build_header()?;
        let mut env = Env::with_parent(top_env);
        self.read_edge_bindings(&mut env)?;
        let b = Build { rule: slice_to_vec(rule), inputs, implicit_inputs, order_inputs, outputs, bindings: env };
        Ok(b)
    }
}

impl<'a> Parser<'a> {
    /// Reads top-level statements into `state` until the end of the input, an error, or an
    /// `include` statement, whose evaluated path it returns.
    #[verifier::rlimit(40)]
    #[verifier::spinoff_prover]
    pub fn parse_until_include(&mut self, state: &mut ParseState) -> (r: Result<
        Option<Vec<u8>>,
        ProcessingError,
    >)
        requires
            old(self).wf(),
            old(state).wf(),
            old(self).spec_index() <= stream_bound(old(self).spec_data()) + 1,
        ensures
            final(self).follows(*old(self)),
            final(self).spec_index() > old(self).spec_index(),
            final(state).wf(),
            match parse_top(old(self).spec_data(), old(self).spec_index(), old(state).view()) {
                ParseOutcome::Finished(st, None) => r matches Ok(None) && final(state).view() == st,
                ParseOutcome::Finished(st, Some(e)) => r matches Err(x) && outcome_error_matches(
                    x,
                    e,
                    old(self).spec_data(),
                    old(self).spec_source(),
                ) && final(state).view() == st,
                ParseOutcome::Included(path, n, st) => r matches Ok(Some(p)) && p@ == path
                    && final(self).spec_index() == n && n <= stream_bound(old(self).spec_data())
                    && final(state).view() == st,
            },
    {
        let ghost d = self.spec_data();
        let ghost n0 = self.spec_index();
        let ghost st0 = state.view();
        loop
            invariant
                self.follows(*old(self)),
                state.wf(),
                d == old(self).spec_data(),
                n0 == old(self).spec_index(),
                st0 == old(state).view(),
                n0 <= self.spec_index() <= stream_bound(d) + 1,
                self.spec_index() == n0 ==> state.view() == st0,
                parse_top(d, self.spec_index(), state.view()) == parse_top(d, n0, st0),
            decreases stream_bound(d) + 1 - self.spec_index(),
        {
            let ghost idx = self.spec_index();
            proof {
                lemma_stream(d, idx);
                self.lexer.lemma_wf();
                lemma_tok_facts(d, idx);
            }
            let item = self.next_item();
            proof {
                self.lexer.lemma_wf();
            }
            match item {
                None => {
                    return Ok(None);
                },
                Some(Err(e)) => {
                    return Err(ProcessingError::ParseFailed(ParseError::from_lexer_error(e, &self.lexer)));
                },
                Some(Ok((token, pos))) => {
                    proof {
                        lemma_items_ok(token);
                    }
                    match token {
                        Lexeme::Identifier(ident) => {
                            match self.discard_assignment() {
                                Err(e) => {
                                    return Err(ProcessingError::ParseFailed(e));
                                },
                                Ok(()) => {},
                            }
                            let value = match self.expect_value() {
                                Err(e) => {
                                    return Err(ProcessingError::ParseFailed(e));
                                },
                                Ok(v) => v,
                            };
                            // Top-level bindings are evaluated immediately.
                            let v = value.eval(state.bindings());
                            state.add_top_binding(slice_to_vec(ident), v);
                        },
                        Lexeme::Rule => {
                            let rule = match self.parse_rule() {
                                Err(e) => {
                                    return Err(ProcessingError::ParseFailed(e));
                                },
                                Ok(r) => r,
                            };
                            state.add_rule(rule)?;
                        },
                        Lexeme::Build => {
                            let top = state.top_env();
                            let build = match self.parse_build(top) {
                                Err(e) => {
                                    return Err(ProcessingError::ParseFailed(e));
                                },
                                Ok(b) => b,
                            };
                            state.add_build_edge(build)?;
                        },
                        Lexeme::Include => {
                            let path = match self.expect_value() {
                                Err(e) => {
                                    return Err(ProcessingError::ParseFailed(e));
                                },
                                Ok(v) => v,
                            };
                            match self.discard_newline() {
                                Err(e) => {
                                    return Err(ProcessingError::ParseFailed(e));
                                },
                                Ok(()) => {},
                            }
                            return Ok(Some(path.eval(state.bindings())));
                        },
                        Lexeme::Newline => {},
                        Lexeme::Comment(_) => {},
                        _ => {
                            let text = debug_lexeme(&token);
                            let msg = concat("Unhandled token ", text.as_str());
                            return Err(ProcessingError::ParseFailed(ParseError::new(msg, pos, &self.lexer)));
                        },
                    }
                },
            }
        }
    }
}

impl<'a> Parser<'a> {
    /// Reads the whole input into `state`; an `include` statement asks `loader` for the file it
    /// names, on behalf of this input, and reads it there and then. `depth` is how deeply this
    /// input is included.
    pub fn parse<L: Loader>(self, state: &mut ParseState, loader: &mut LoadLog<L>, depth: usize) -> (r:
        Result<(), ProcessingError>)
        requires
            self.wf(),
            old(state).wf(),
            self.spec_index() <= stream_bound(self.spec_data()) + 1,
            depth <= MAX_INCLUDE_DEPTH,
        ensures
            final(state).wf(),
            match parse_top(self.spec_data(), self.spec_index(), old(state).view()) {
                ParseOutcome::Finished(st, None) => r is Ok && final(state).view() == st,
                ParseOutcome::Finished(st, Some(e)) => r matches Err(x) && outcome_error_matches(
                    x,
                    e,
                    self.spec_data(),
                    self.spec_source(),
                ) && final(state).view() == st,
                ParseOutcome::Included(_, _, st) => depth >= MAX_INCLUDE_DEPTH ==> (r matches Err(
                    ProcessingError::IncludeTooDeep,
                ) && final(state).view() == st),
            },
            exists|loads: Seq<IncludeLoad>|
                #[trigger] parse_with(
                    self.spec_data(),
                    self.spec_source(),
                    self.spec_index(),
                    old(state).view(),
                    loads,
                    depth as nat,
                ) matches Some(run) && run.ok == (r is Ok) && run.state == final(state).view()
                    && final(loader).loads_made() == old(loader).loads_made() + run.loads,
        decreases MAX_INCLUDE_DEPTH - depth, 1nat, stream_bound(self.spec_data()) + 1 - self.spec_index(),
    {
        let ghost d = self.spec_data();
        let ghost name = self.spec_source();
        let ghost n0 = self.spec_index();
        let ghost st0 = state.view();
        let ghost m0 = loader.loads_made();
        let mut parser = self;
        let found = parser.parse_until_include(state);
        match found {
            Err(e) => {
                proof {
                    lemma_parse_with_finished(d, name, n0, st0, Seq::<IncludeLoad>::empty(), depth as nat);
                    assert(m0 + Seq::<LoadRecord>::empty() =~= m0);
                }
                Err(e)
            },
            Ok(None) => {
                proof {
                    lemma_parse_with_finished(d, name, n0, st0, Seq::<IncludeLoad>::empty(), depth as nat);
                    assert(m0 + Seq::<LoadRecord>::empty() =~= m0);
                }
                Ok(())
            },
            Ok(Some(path)) => {
                let ghost n2 = parser.spec_index();
                let ghost st2 = state.view();
                let ghost p = path@;
                let included = parser.read_included(path, state, loader, depth);
                let ghost m1 = loader.loads_made();
                let ghost l = choose|l: IncludeLoad|
                    #[trigger] load_step(st2, l, name, p, depth as nat) matches Some(run) && run.ok == (
                    included is Ok) && run.state == state.view() && m1 == m0 + run.loads;
                let ghost r1 = load_step(st2, l, name, p, depth as nat)->0;
                match included {
                    Err(e) => {
                        proof {
                            lemma_parse_with_include(d, name, n0, st0, l, Seq::empty(), depth as nat);
                            assert(seq![l] + Seq::<IncludeLoad>::empty() =~= seq![l]);
                        }
                        Err(e)
                    },
                    Ok(()) => {
                        let ghost st3 = state.view();
                        let r = parser.parse(state, loader, depth);
                        proof {
                            let rest = choose|rest: Seq<IncludeLoad>|
                                #[trigger] parse_with(d, name, n2, st3, rest, depth as nat) matches Some(run)
                                    && run.ok == (r is Ok) && run.state == state.view()
                                    && loader.loads_made() == m1 + run.loads;
                            let r2 = parse_with(d, name, n2, st3, rest, depth as nat)->0;
                            lemma_parse_with_include(d, name, n0, st0, l, rest, depth as nat);
                            assert(m0 + (r1.loads + r2.loads) =~= m0 + r1.loads + r2.loads);
                        }
                        r
                    },
                }
            },
        }
    }

    /// Asks `loader` for the file at `path`, on behalf of this input, and reads it into `state`.
    fn read_included<L: Loader>(&self, path: Vec<u8>, state: &mut ParseState, loader: &mut LoadLog<L>, depth: usize) -> (r:
        Result<(), ProcessingError>)
        requires
            old(state).wf(),
            depth <= MAX_INCLUDE_DEPTH,
        ensures
            final(state).wf(),
            depth >= MAX_INCLUDE_DEPTH ==> (r matches Err(ProcessingError::IncludeTooDeep)
                && final(state).view() == old(state).view()),
            exists|l: IncludeLoad|
                #[trigger] load_step(old(state).view(), l, self.spec_source(), path@, depth as nat) matches Some(
                    run,
                ) && run.ok == (r is Ok) && run.state == final(state).view()
                    && final(loader).loads_made() == old(loader).loads_made() + run.loads,
        decreases MAX_INCLUDE_DEPTH - depth, 0nat, 0int,
    {
        let ghost name = self.spec_source();
        let ghost p = path@;
        let ghost m0 = loader.loads_made();
        let ghost st0 = state.view();
        if depth >= MAX_INCLUDE_DEPTH {
            proof {
                let failed = IncludeLoad { contents: None, nested: Seq::empty() };
                lemma_load_step_fails(st0, failed, name, p, depth as nat);
                assert(m0 + Seq::<LoadRecord>::empty() =~= m0);
            }
            return Err(ProcessingError::IncludeTooDeep);
        }
        let from: Option<&[u8]> = match &self.source_name {
            Some(v) => Some(v.as_slice()),
            None => None,
        };
        assert(match from { Some(f) => Some(f@), None => None::<Seq<u8>> } == name);
        let loaded = loader.load(from, path.as_slice());
        let contents = match loaded {
            Ok(c) => c,
            Err(e) => {
                proof {
                    let failed = IncludeLoad { contents: None, nested: Seq::empty() };
                    lemma_load_step_fails(st0, failed, name, p, depth as nat);
                    assert(m0.push(LoadRecord { from: name, request: p, contents: None }) =~= m0 + seq![
                        LoadRecord { from: name, request: p, contents: None },
                    ]);
                }
                return Err(ProcessingError::IoError(e));
            },
        };
        let ghost rec = LoadRecord { from: name, request: p, contents: Some(contents@) };
        assert(loader.loads_made() == m0.push(rec));
        if contents.len() == usize::MAX {
            proof {
                let big = IncludeLoad { contents: Some(contents@), nested: Seq::empty() };
                lemma_load_step_fails(st0, big, name, p, depth as nat);
                assert(m0.push(rec) =~= m0 + seq![rec]);
            }
            return Err(ProcessingError::IoError(too_large_error()));
        }
        let ghost m1 = loader.loads_made();
        let r = parse_nested(contents.as_slice(), Some(path), state, loader, depth + 1);
        proof {
            let dn: nat = (depth + 1) as nat;
            let nested = choose|loads: Seq<IncludeLoad>|
                #[trigger] parse_with(contents@, Some(p), 0, st0, loads, dn) matches Some(run) && run.ok
                    == (r is Ok) && run.state == state.view() && loader.loads_made() == m1 + run.loads;
            let inner = parse_with(contents@, Some(p), 0, st0, nested, dn)->0;
            lemma_load_step_reads(st0, contents@, nested, name, p, depth as nat);
            assert(m1 + inner.loads =~= m0 + (seq![rec] + inner.loads));
        }
        r
    }
}

/// What an identifier read past indents is, is an identifier.
proof fn lemma_ident_eating_indent(d: Seq<u8>, n: nat)
    ensures
        ident_eating_indent(d, n) matches Ok((l, _)) ==> l is Identifier,
    decreases stream_bound(d) + 1 - n,
{
    let k = skip_comments(d, n);
    if n <= k < stream_bound(d) && tok(d, k) matches Some(Ok((LexemeView::Indent, _))) {
        lemma_ident_eating_indent(d, k + 1);
    }
}

/// A lexeme whose view holds only literals, escapes and references holds only those.
proof fn lemma_items_ok(l: Lexeme)
    requires
        view_pieces_ok(lexeme_view(l)),
    ensures
        expr_items_ok(l),
{
    if let Lexeme::Expr(items) = l {
        assert forall|k: int| 0 <= k < items@.len() implies is_piece(#[trigger] items@[k]) by {
            let v = crate::parse::lexer::pieces_view(items@);
            assert(lexeme_view(l) == LexemeView::Expr(v));
            assert(v[k] == crate::parse::lexer::piece_view(items@[k]));
            assert(is_piece_view(v[k]));
        }
    }
}

} // verus!
