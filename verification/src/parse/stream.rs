//! The stream of items that the lexer yields for an input, and the fact that it ends.
use crate::parse::lexer::{
    at_line_start, ends_literal, expr_rest, hws_end, ident_end, is_hws, is_ident_byte, lex_next,
    literal_end, newline_from, spec_escape, spec_expr, spec_piece, ItemView, LexemeView, LexerError,
    LexerMode, Step, COLON, DOLLAR, EQUALS, HASH, LBRACE, LF, PIPE, SPACE,
};
use vstd::prelude::*;

verus! {

/// The lexer's offset and mode after `n` calls of `next` on `d`.
pub open spec fn lex_after(d: Seq<u8>, n: nat) -> (int, LexerMode)
    decreases n,
{
    if n == 0 {
        (0, LexerMode::Default)
    } else {
        let (o, m) = lex_after(d, (n - 1) as nat);
        let (_, o2, m2) = lex_next(d, o, m);
        (o2, m2)
    }
}

/// What the `n`th call of `next` (counting from 0) yields on `d`.
pub open spec fn tok(d: Seq<u8>, n: nat) -> Option<ItemView> {
    let (o, m) = lex_after(d, n);
    lex_next(d, o, m).0
}

/// No more than this many items can be yielded for `d`.
pub open spec fn stream_bound(d: Seq<u8>) -> nat {
    2 * d.len() + 2
}

/// A measure of the lexer's progress: each item it yields increases it.
pub open spec fn lex_measure(i: int, m: LexerMode) -> int {
    2 * i + if m == LexerMode::Default {
        1int
    } else {
        0int
    }
}

proof fn lemma_escape_progress(d: Seq<u8>, i: int, m: LexerMode)
    requires
        0 <= i < d.len(),
        d[i] == DOLLAR,
    ensures
        match spec_escape(d, i, m) {
            Step::Tok(_, j, m2) => i + 2 <= j <= d.len() && m2 == m,
            Step::Fail(_, j, m2) => i + 1 <= j <= d.len() && m2 == m,
        },
{
    let j = i + 1;
    if j < d.len() {
        if d[j] == LF {
            lemma_hws_end_bounds(d, j + 1);
        } else if d[j] == LBRACE {
            if j + 1 < d.len() && is_ident_byte(d[j + 1]) {
                lemma_ident_end_bounds(d, j + 1);
            }
        } else if is_ident_byte(d[j]) {
            lemma_ident_end_bounds(d, j);
        }
    }
}

proof fn lemma_ident_end_bounds(d: Seq<u8>, i: int)
    requires
        0 <= i <= d.len(),
    ensures
        i <= ident_end(d, i) <= d.len(),
        i < d.len() && is_ident_byte(d[i]) ==> ident_end(d, i) > i,
    decreases d.len() - i,
{
    if i < d.len() && is_ident_byte(d[i]) {
        lemma_ident_end_bounds(d, i + 1);
    }
}

proof fn lemma_hws_end_bounds(d: Seq<u8>, i: int)
    requires
        0 <= i <= d.len(),
    ensures
        i <= hws_end(d, i) <= d.len(),
        i < d.len() && is_hws(d[i]) ==> hws_end(d, i) > i,
    decreases d.len() - i,
{
    if i < d.len() && is_hws(d[i]) {
        lemma_hws_end_bounds(d, i + 1);
    }
}

proof fn lemma_newline_from_bounds(d: Seq<u8>, i: int)
    requires
        0 <= i <= d.len(),
    ensures
        i <= newline_from(d, i) <= d.len(),
    decreases d.len() - i,
{
    if i < d.len() && d[i] != LF {
        lemma_newline_from_bounds(d, i + 1);
    }
}

proof fn lemma_literal_end_bounds(d: Seq<u8>, i: int, in_path: bool)
    requires
        0 <= i <= d.len(),
    ensures
        i <= literal_end(d, i, in_path) <= d.len(),
        i < d.len() && !ends_literal(d[i], in_path) ==> literal_end(d, i, in_path) > i,
    decreases d.len() - i,
{
    if i < d.len() && !ends_literal(d[i], in_path) {
        lemma_literal_end_bounds(d, i + 1, in_path);
    }
}

proof fn lemma_piece_bounds(d: Seq<u8>, i: int, m: LexerMode)
    requires
        0 <= i < d.len(),
    ensures
        match spec_piece(d, i, m) {
            Step::Tok(_, j, _) => i <= j <= d.len(),
            Step::Fail(_, j, _) => i <= j <= d.len(),
        },
{
    if d[i] == DOLLAR {
        lemma_escape_progress(d, i, m);
    } else {
        lemma_literal_end_bounds(d, i, m == LexerMode::PathMode);
    }
}

proof fn lemma_expr_rest_bounds(
    d: Seq<u8>,
    j: int,
    m: LexerMode,
    target: LexerMode,
    acc: Seq<LexemeView>,
)
    requires
        0 <= j <= d.len(),
    ensures
        match expr_rest(d, j, m, target, acc) {
            Step::Tok(_, j2, m2) => j <= j2 <= d.len() && (j2 == j ==> (m2 == m
                || m2 == LexerMode::Default || m2 == LexerMode::BuildRuleMode)),
            Step::Fail(_, j2, _) => j <= j2 <= d.len(),
        },
    decreases d.len() - j,
{
    if m != target || j >= d.len() {
    } else {
        let c = d[j];
        if c == LF || c == HASH {
        } else if target == LexerMode::PathMode && (c == SPACE || c == PIPE) {
        } else if target == LexerMode::PathMode && c == COLON {
        } else {
            lemma_piece_bounds(d, j, m);
            match spec_piece(d, j, m) {
                Step::Tok(p, j2, m2) => if j < j2 <= d.len() {
                    lemma_expr_rest_bounds(d, j2, m2, target, acc.push(p));
                },
                Step::Fail(e, j2, m2) => {},
            }
        }
    }
}

proof fn lemma_expr_progress(d: Seq<u8>, i: int, target: LexerMode)
    requires
        0 <= i < d.len(),
        target == LexerMode::PathMode || target == LexerMode::ValueMode,
        target == LexerMode::PathMode ==> !(d[i] == SPACE || d[i] == PIPE || d[i] == COLON),
    ensures
        match spec_expr(d, i, target) {
            Step::Tok(_, j, m) => i <= j <= d.len() && (j > i || m == LexerMode::Default),
            Step::Fail(_, j, _) => i < j <= d.len(),
        },
{
    lemma_piece_bounds(d, i, target);
    if d[i] == DOLLAR {
        lemma_escape_progress(d, i, target);
    } else {
        lemma_literal_end_bounds(d, i, target == LexerMode::PathMode);
    }
    match spec_piece(d, i, target) {
        Step::Tok(p, j, m) => {
            lemma_expr_rest_bounds(d, j, m, target, seq![p]);
        },
        Step::Fail(_, _, _) => {},
    }
}

/// Each item that the lexer yields moves it forward; it yields nothing only at the end.
pub proof fn lemma_lex_next_progress(d: Seq<u8>, i: int, m: LexerMode)
    requires
        0 <= i <= d.len(),
    ensures
        ({
            let (r, j, m2) = lex_next(d, i, m);
            &&& i <= j <= d.len()
            &&& r is Some ==> lex_measure(j, m2) > lex_measure(i, m)
            &&& r is None ==> j == d.len()
        }),
    decreases d.len() - i,
{
    if i >= d.len() {
    } else if is_hws(d[i]) && (m != LexerMode::ValueMode || at_line_start(d, i)) {
        lemma_hws_end_bounds(d, i);
        let e = hws_end(d, i);
        if m != LexerMode::ValueMode && at_line_start(d, i) {
        } else {
            lemma_lex_next_progress(d, e, m);
        }
    } else {
        let c = d[i];
        if c == LF {
        } else if c == EQUALS {
            lemma_hws_end_bounds(d, i + 1);
        } else if m == LexerMode::ValueMode {
            lemma_expr_progress(d, i, LexerMode::ValueMode);
        } else if c == COLON || c == PIPE {
        } else if c == HASH {
            lemma_newline_from_bounds(d, i + 1);
        } else if m == LexerMode::PathMode {
            lemma_expr_progress(d, i, LexerMode::PathMode);
        } else if is_ident_byte(c) {
            lemma_ident_end_bounds(d, i);
        }
    }
}

/// The lexer state after `n` items lies within the input; once the stream has yielded nothing
/// it yields nothing more; and the stream yields at most `2 * d.len()` items, so that the call
/// of `next` numbered `2 * d.len()` (counting from 0) and every later one yield nothing.
pub proof fn lemma_stream(d: Seq<u8>, n: nat)
    ensures
        0 <= lex_after(d, n).0 <= d.len(),
        tok(d, n) is None ==> tok(d, n + 1) is None,
        tok(d, n) is None ==> lex_after(d, n + 1).0 == d.len(),
        tok(d, n) is Some ==> lex_measure(lex_after(d, n).0, lex_after(d, n).1) >= n + 1,
        tok(d, n) is Some ==> n < 2 * d.len(),
        tok(d, n) is Some ==> n < stream_bound(d),
    decreases n,
{
    if n > 0 {
        lemma_stream(d, (n - 1) as nat);
        let (op, mp) = lex_after(d, (n - 1) as nat);
        lemma_lex_next_progress(d, op, mp);
    }
    let (o, m) = lex_after(d, n);
    lemma_lex_next_progress(d, o, m);
    let (o2, m2) = lex_after(d, n + 1);
    lemma_lex_next_progress(d, o2, m2);
}


/// Over any run of calls of `next` on a lexer fresh on `d` (`states[i]` the offset and mode
/// before call `i`, `items[i]` what it yielded), the lexer stays within the input, and every
/// call from the one numbered `2 * d.len()` on yields nothing: at most `2 * d.len()` items.
pub proof fn law_lexer_run_ends(d: Seq<u8>, states: Seq<(int, LexerMode)>, items: Seq<Option<ItemView>>)
    requires
        states.len() == items.len() + 1,
        states[0] == (0int, LexerMode::Default),
        forall|i: int|
            0 <= i < items.len() ==> (#[trigger] items[i], states[i + 1].0, states[i + 1].1) == lex_next(
                d,
                states[i].0,
                states[i].1,
            ),
    ensures
        forall|i: int| 0 <= i < states.len() ==> 0 <= #[trigger] states[i].0 <= d.len(),
        forall|i: int| 2 * d.len() <= i < items.len() ==> #[trigger] items[i] is None,
{
    assert forall|i: int| 0 <= i < states.len() implies #[trigger] states[i] == lex_after(d, i as nat) by {
        lemma_run_follows(d, states, items, i);
    }
    assert forall|i: int| 0 <= i < states.len() implies 0 <= #[trigger] states[i].0 <= d.len() by {
        assert(states[i] == lex_after(d, i as nat));
        lemma_stream(d, i as nat);
    }
    assert forall|i: int| 2 * d.len() <= i < items.len() implies #[trigger] items[i] is None by {
        assert(states[i] == lex_after(d, i as nat));
        lemma_stream(d, i as nat);
        assert(items[i] == tok(d, i as nat));
    }
}

proof fn lemma_run_follows(d: Seq<u8>, states: Seq<(int, LexerMode)>, items: Seq<Option<ItemView>>, i: int)
    requires
        states.len() == items.len() + 1,
        states[0] == (0int, LexerMode::Default),
        forall|j: int|
            0 <= j < items.len() ==> (#[trigger] items[j], states[j + 1].0, states[j + 1].1) == lex_next(
                d,
                states[j].0,
                states[j].1,
            ),
        0 <= i < states.len(),
    ensures
        states[i] == lex_after(d, i as nat),
    decreases i,
{
    if i > 0 {
        lemma_run_follows(d, states, items, i - 1);
        assert((items[i - 1], states[(i - 1) + 1].0, states[(i - 1) + 1].1) == lex_next(
            d,
            states[i - 1].0,
            states[i - 1].1,
        ));
    }
}

/// The offset that a lexer error points at.
pub open spec fn error_pos(e: LexerError) -> int {
    match e {
        LexerError::UnexpectedEof(p) => p.0 as int,
        LexerError::IllegalCharacter(p, _) => p.0 as int,
        LexerError::NotAnIdentifier(p, _) => p.0 as int,
        LexerError::MissingBrace(p) => p.0 as int,
    }
}

/// Whether a lexeme may stand inside a path or a value.
pub open spec fn is_piece_view(l: LexemeView) -> bool {
    l is Literal || l is Escape || l is VarRef
}

/// Whether a lexeme that is a path or a value holds only literals, escapes and references.
pub open spec fn view_pieces_ok(l: LexemeView) -> bool {
    l is Expr ==> all_pieces(l->Expr_0)
}

pub open spec fn all_pieces(items: Seq<LexemeView>) -> bool {
    forall|k: int| 0 <= k < items.len() ==> is_piece_view(#[trigger] items[k])
}

proof fn lemma_escape_facts(d: Seq<u8>, i: int, m: LexerMode)
    requires
        0 <= i < d.len(),
        d.len() < usize::MAX,
        d[i] == DOLLAR,
    ensures
        match spec_escape(d, i, m) {
            Step::Tok(l, _, _) => is_piece_view(l),
            Step::Fail(e, j, _) => error_pos(e) <= j,
        },
{
    let j = i + 1;
    if j < d.len() && d[j] == LBRACE && j + 1 < d.len() && is_ident_byte(d[j + 1]) {
        lemma_ident_end_bounds(d, j + 1);
    }
}

proof fn lemma_piece_facts(d: Seq<u8>, i: int, m: LexerMode)
    requires
        0 <= i < d.len(),
        d.len() < usize::MAX,
    ensures
        match spec_piece(d, i, m) {
            Step::Tok(l, _, _) => is_piece_view(l),
            Step::Fail(e, j, _) => error_pos(e) <= j,
        },
{
    if d[i] == DOLLAR {
        lemma_escape_facts(d, i, m);
    }
}

proof fn lemma_expr_rest_facts(
    d: Seq<u8>,
    j: int,
    m: LexerMode,
    target: LexerMode,
    acc: Seq<LexemeView>,
)
    requires
        0 <= j <= d.len(),
        d.len() < usize::MAX,
        forall|k: int| 0 <= k < acc.len() ==> is_piece_view(#[trigger] acc[k]),
    ensures
        match expr_rest(d, j, m, target, acc) {
            Step::Tok(l, _, _) => view_pieces_ok(l) && l is Expr,
            Step::Fail(e, j2, _) => error_pos(e) <= j2,
        },
    decreases d.len() - j,
{
    if m != target || j >= d.len() {
    } else {
        let c = d[j];
        if c == LF || c == HASH {
        } else if target == LexerMode::PathMode && (c == SPACE || c == PIPE) {
        } else if target == LexerMode::PathMode && c == COLON {
        } else {
            lemma_piece_facts(d, j, m);
            lemma_piece_bounds(d, j, m);
            match spec_piece(d, j, m) {
                Step::Tok(p, j2, m2) => {
                    assert forall|k: int| 0 <= k < acc.push(p).len() implies is_piece_view(
                        #[trigger] acc.push(p)[k],
                    ) by {
                        if k < acc.len() {
                            assert(acc.push(p)[k] == acc[k]);
                        }
                    }
                    if j < j2 <= d.len() {
                        lemma_expr_rest_facts(d, j2, m2, target, acc.push(p));
                    }
                },
                Step::Fail(e, j2, m2) => {},
            }
        }
    }
}

proof fn lemma_expr_facts(d: Seq<u8>, i: int, target: LexerMode)
    requires
        0 <= i < d.len(),
        d.len() < usize::MAX,
    ensures
        match spec_expr(d, i, target) {
            Step::Tok(l, _, _) => view_pieces_ok(l),
            Step::Fail(e, j, _) => error_pos(e) <= j,
        },
{
    lemma_piece_facts(d, i, target);
    lemma_piece_bounds(d, i, target);
    match spec_piece(d, i, target) {
        Step::Tok(p, j, m) => {
            lemma_expr_rest_facts(d, j, m, target, seq![p]);
        },
        Step::Fail(_, _, _) => {},
    }
}

/// An item that the lexer yields lies at or after where it started and not past where it
/// stopped; errors point no further than where the lexer stopped; and paths and values hold only
/// literals, escapes and references.
pub proof fn lemma_item_facts(d: Seq<u8>, i: int, m: LexerMode)
    requires
        0 <= i <= d.len(),
        d.len() < usize::MAX,
    ensures
        ({
            let (r, j, _) = lex_next(d, i, m);
            &&& r matches Some(Ok((l, p))) ==> i <= p < d.len() && p <= j && view_pieces_ok(l)
            &&& r matches Some(Err(e)) ==> error_pos(e) <= j
        }),
    decreases d.len() - i,
{
    lemma_lex_next_progress(d, i, m);
    if i >= d.len() {
    } else if is_hws(d[i]) && (m != LexerMode::ValueMode || at_line_start(d, i)) {
        lemma_hws_end_bounds(d, i);
        let e = hws_end(d, i);
        if m != LexerMode::ValueMode && at_line_start(d, i) {
        } else {
            lemma_item_facts(d, e, m);
        }
    } else {
        let c = d[i];
        if c == LF || c == EQUALS {
        } else if m == LexerMode::ValueMode {
            lemma_expr_facts(d, i, LexerMode::ValueMode);
        } else if c == COLON || c == PIPE || c == HASH {
        } else if m == LexerMode::PathMode {
            lemma_expr_facts(d, i, LexerMode::PathMode);
        }
    }
}

/// The facts of [`lemma_item_facts`] for the `n`th item of the stream.
pub proof fn lemma_tok_facts(d: Seq<u8>, n: nat)
    requires
        d.len() < usize::MAX,
    ensures
        tok(d, n) matches Some(Ok((l, p))) ==> p < d.len() && p <= lex_after(d, n + 1).0
            && view_pieces_ok(l),
        tok(d, n) matches Some(Err(e)) ==> error_pos(e) <= lex_after(d, n + 1).0,
{
    lemma_stream(d, n);
    let (o, m) = lex_after(d, n);
    lemma_item_facts(d, o, m);
}

} // verus!
