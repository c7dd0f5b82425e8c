//! A small lexer over text: it passes over leading white space and reads the tokens of the first
//! line that is not blank, separated by spaces, up to the end of that line.
use vstd::prelude::*;
use vstd::string::StrSliceExecFns;

verus! {

pub struct Lexer {
    input: Vec<char>,
}

#[derive(Debug, PartialEq, Eq)]
pub enum Token {
    Build,
    Colon,
    Default,
    Equals,
    Identifier(String),
    Illegal(char),
    Include,
    Indent,
    Newline,
    Pipe,
    Pipe2,
    Pool,
    Rule,
    Subninja,
}

pub enum TokenView {
    Build,
    Colon,
    Default,
    Equals,
    Identifier(Seq<char>),
    Illegal(char),
    Include,
    Indent,
    Newline,
    Pipe,
    Pipe2,
    Pool,
    Rule,
    Subninja,
}

impl View for Token {
    type V = TokenView;

    open spec fn view(&self) -> TokenView {
        match self {
            Token::Build => TokenView::Build,
            Token::Colon => TokenView::Colon,
            Token::Default => TokenView::Default,
            Token::Equals => TokenView::Equals,
            Token::Identifier(s) => TokenView::Identifier(s@),
            Token::Illegal(c) => TokenView::Illegal(*c),
            Token::Include => TokenView::Include,
            Token::Indent => TokenView::Indent,
            Token::Newline => TokenView::Newline,
            Token::Pipe => TokenView::Pipe,
            Token::Pipe2 => TokenView::Pipe2,
            Token::Pool => TokenView::Pool,
            Token::Rule => TokenView::Rule,
            Token::Subninja => TokenView::Subninja,
        }
    }
}

/// Whether `c` has the Unicode `White_Space` property, which `char::is_whitespace` tests: the
/// controls tab to carriage return, space, next line, no-break space, ogham space mark, the
/// spaces from en quad to hair space, the line and paragraph separators, narrow no-break space,
/// medium mathematical space and ideographic space.
pub open spec fn is_white_space(c: char) -> bool {
    let u = c as u32;
    ||| 0x09 <= u <= 0x0d
    ||| u == 0x20
    ||| u == 0x85
    ||| u == 0xa0
    ||| u == 0x1680
    ||| 0x2000 <= u <= 0x200a
    ||| u == 0x2028
    ||| u == 0x2029
    ||| u == 0x202f
    ||| u == 0x205f
    ||| u == 0x3000
}

/// Whether `char::is_alphanumeric` holds of `c` (a Unicode letter or number).
pub uninterp spec fn is_alphanumeric(c: char) -> bool;

/// Whether `c` has the `White_Space` property, as `char::is_whitespace` tells.
fn char_is_whitespace(c: char) -> (r: bool)
    ensures
        r == is_white_space(c),
{
    let u = c as u32;
    (0x09 <= u && u <= 0x0d) || u == 0x20 || u == 0x85 || u == 0xa0 || u == 0x1680 || (0x2000 <= u
        && u <= 0x200a) || u == 0x2028 || u == 0x2029 || u == 0x202f || u == 0x205f || u == 0x3000
}

/// `char::is_alphanumeric`: alphabetic or numeric. Of an ASCII character it holds exactly for
/// the letters and the digits.
#[verifier::external_body]
fn char_is_alphanumeric(c: char) -> (r: bool)
    ensures
        r == is_alphanumeric(c),
        (c as u32) < 0x80 ==> (r <==> (is_ascii_letter(c) || ('0' <= c && c <= '9'))),
{
    c.is_alphanumeric()
}

/// Whether `c` is a letter or a digit, as `char::is_alphanumeric` tells: of an ASCII character,
/// exactly the ASCII letters and digits; of any other, the Unicode `Alphabetic` or `Numeric`
/// property.
pub open spec fn is_word_char(c: char) -> bool {
    if (c as u32) < 0x80 {
        is_ascii_letter(c) || ('0' <= c && c <= '9')
    } else {
        is_alphanumeric(c)
    }
}

/// Whether `c` continues a word: ASCII is decided here, anything else by `char::is_alphanumeric`.
fn char_is_word(c: char) -> (r: bool)
    ensures
        r == is_word_char(c),
{
    if (c as u32) < 0x80 {
        ('a' <= c && c <= 'z') || ('A' <= c && c <= 'Z') || ('0' <= c && c <= '9')
    } else {
        char_is_alphanumeric(c)
    }
}

/// `String::push`: appends `c`.
#[verifier::external_body]
pub(crate) fn push_char(s: &mut String, c: char)
    ensures
        final(s)@ == old(s)@.push(c),
{
    s.push(c)
}

pub open spec fn is_ascii_letter(c: char) -> bool {
    ('a' <= c && c <= 'z') || ('A' <= c && c <= 'Z')
}

/// The first offset at or after `i` that is not white space.
pub open spec fn skip_white_space(cs: Seq<char>, i: int) -> int
    decreases cs.len() - i,
{
    if 0 <= i < cs.len() && is_white_space(cs[i]) {
        skip_white_space(cs, i + 1)
    } else {
        i
    }
}

/// The first offset at or after `i` that is not a space.
pub open spec fn skip_spaces(cs: Seq<char>, i: int) -> int
    decreases cs.len() - i,
{
    if 0 <= i < cs.len() && cs[i] == ' ' {
        skip_spaces(cs, i + 1)
    } else {
        i
    }
}

/// The end of the run of letters and digits that starts at `i`.
pub open spec fn word_end(cs: Seq<char>, i: int) -> int
    decreases cs.len() - i,
{
    if 0 <= i < cs.len() && is_word_char(cs[i]) {
        word_end(cs, i + 1)
    } else {
        i
    }
}

/// The token a word spells: a keyword, or else an identifier.
pub open spec fn keyword(w: Seq<char>) -> TokenView {
    if w == seq!['b', 'u', 'i', 'l', 'd'] {
        TokenView::Build
    } else if w == seq!['d', 'e', 'f', 'a', 'u', 'l', 't'] {
        TokenView::Default
    } else if w == seq!['i', 'n', 'c', 'l', 'u', 'd', 'e'] {
        TokenView::Include
    } else if w == seq!['p', 'o', 'o', 'l'] {
        TokenView::Pool
    } else if w == seq!['r', 'u', 'l', 'e'] {
        TokenView::Rule
    } else if w == seq!['s', 'u', 'b', 'n', 'i', 'n', 'j', 'a'] {
        TokenView::Subninja
    } else {
        TokenView::Identifier(w)
    }
}

/// The next token from offset `i` with the offset after it, or none at the end of the line.
pub open spec fn next_token(cs: Seq<char>, i: int) -> Option<(TokenView, int)> {
    let j = skip_spaces(cs, i);
    if j < 0 || j >= cs.len() || cs[j] == '\n' {
        None
    } else {
        let c = cs[j];
        if c == '\t' {
            Some((TokenView::Illegal(c), j + 1))
        } else if c == '=' {
            Some((TokenView::Equals, j + 1))
        } else if c == ':' {
            Some((TokenView::Colon, j + 1))
        } else if c == '|' {
            if j + 1 < cs.len() && cs[j + 1] == '|' {
                Some((TokenView::Pipe2, j + 2))
            } else {
                Some((TokenView::Pipe, j + 1))
            }
        } else if c == '$' {
            Some((TokenView::Illegal(c), j + 1))
        } else if is_ascii_letter(c) {
            let e = word_end(cs, j + 1);
            Some((keyword(cs.subrange(j, e)), e))
        } else {
            Some((TokenView::Illegal(c), j + 1))
        }
    }
}

/// All the tokens from offset `i` on.
pub open spec fn tokens_from(cs: Seq<char>, i: int) -> Seq<TokenView>
    decreases cs.len() - i,
{
    match next_token(cs, i) {
        None => Seq::empty(),
        Some((t, j)) => if i < j <= cs.len() {
            seq![t] + tokens_from(cs, j)
        } else {
            seq![t]
        },
    }
}

proof fn lemma_skip_spaces(cs: Seq<char>, i: int)
    requires
        0 <= i <= cs.len(),
    ensures
        i <= skip_spaces(cs, i) <= cs.len(),
    decreases cs.len() - i,
{
    if i < cs.len() && cs[i] == ' ' {
        lemma_skip_spaces(cs, i + 1);
    }
}

proof fn lemma_word_end(cs: Seq<char>, i: int)
    requires
        0 <= i <= cs.len(),
    ensures
        i <= word_end(cs, i) <= cs.len(),
    decreases cs.len() - i,
{
    if i < cs.len() && is_word_char(cs[i]) {
        lemma_word_end(cs, i + 1);
    }
}

proof fn lemma_skip_white_space(cs: Seq<char>, i: int)
    requires
        0 <= i <= cs.len(),
    ensures
        i <= skip_white_space(cs, i) <= cs.len(),
    decreases cs.len() - i,
{
    if i < cs.len() && is_white_space(cs[i]) {
        lemma_skip_white_space(cs, i + 1);
    }
}

/// A token moves past at least one character.
proof fn lemma_next_token(cs: Seq<char>, i: int)
    requires
        0 <= i <= cs.len(),
    ensures
        next_token(cs, i) matches Some((_, j)) ==> i < j <= cs.len(),
{
    lemma_skip_spaces(cs, i);
    let j = skip_spaces(cs, i);
    if j < cs.len() {
        lemma_word_end(cs, j + 1);
    }
}

/// `skip_spaces` read `k` characters into the input is `skip_spaces` on what follows them.
proof fn lemma_skip_spaces_shift(cs: Seq<char>, k: int, i: int)
    requires
        0 <= k,
        0 <= i,
        k + i <= cs.len(),
    ensures
        skip_spaces(cs, k + i) == k + skip_spaces(cs.skip(k), i),
    decreases cs.len() - (k + i),
{
    if k + i < cs.len() && cs[k + i] == ' ' {
        lemma_skip_spaces_shift(cs, k, i + 1);
    }
}

proof fn lemma_word_end_shift(cs: Seq<char>, k: int, i: int)
    requires
        0 <= k,
        0 <= i,
        k + i <= cs.len(),
    ensures
        word_end(cs, k + i) == k + word_end(cs.skip(k), i),
    decreases cs.len() - (k + i),
{
    if k + i < cs.len() && is_word_char(cs[k + i]) {
        lemma_word_end_shift(cs, k, i + 1);
    }
}

proof fn lemma_next_token_shift(cs: Seq<char>, k: int, i: int)
    requires
        0 <= k,
        0 <= i,
        k + i <= cs.len(),
    ensures
        match next_token(cs.skip(k), i) {
            None => next_token(cs, k + i) is None,
            Some((t, j)) => next_token(cs, k + i) == Some((t, j + k)),
        },
{
    let t = cs.skip(k);
    lemma_skip_spaces_shift(cs, k, i);
    lemma_skip_spaces(t, i);
    let j = skip_spaces(t, i);
    if j < t.len() {
        lemma_word_end_shift(cs, k, j + 1);
        lemma_word_end(t, j + 1);
        let e = word_end(t, j + 1);
        assert(cs.subrange(k + j, k + e) =~= t.subrange(j, e));
    }
}

proof fn lemma_tokens_from_shift(cs: Seq<char>, k: int, i: int)
    requires
        0 <= k,
        0 <= i,
        k + i <= cs.len(),
    ensures
        tokens_from(cs, k + i) == tokens_from(cs.skip(k), i),
    decreases cs.len() - (k + i),
{
    let t = cs.skip(k);
    lemma_next_token_shift(cs, k, i);
    lemma_next_token(t, i);
    if let Some((_, j)) = next_token(t, i) {
        lemma_tokens_from_shift(cs, k, j);
    }
}

proof fn lemma_skip_white_space_stops(cs: Seq<char>, i: int)
    requires
        0 <= i <= cs.len(),
    ensures
        skip_white_space(cs, i) < cs.len() ==> !is_white_space(cs[skip_white_space(cs, i)]),
    decreases cs.len() - i,
{
    if i < cs.len() && is_white_space(cs[i]) {
        lemma_skip_white_space_stops(cs, i + 1);
    }
}

/// Lexing a line gives exactly the tokens that lexing it without its leading white space gives:
/// white space before the first token yields nothing.
pub proof fn lemma_lexing_ignores_leading_white_space(cs: Seq<char>)
    ensures
        ({
            let trimmed = cs.skip(skip_white_space(cs, 0));
            tokens_from(cs, skip_white_space(cs, 0)) == tokens_from(
                trimmed,
                skip_white_space(trimmed, 0),
            )
        }),
{
    lemma_skip_white_space(cs, 0);
    lemma_skip_white_space_stops(cs, 0);
    let k = skip_white_space(cs, 0);
    let trimmed = cs.skip(k);
    if trimmed.len() > 0 {
        assert(trimmed[0] == cs[k]);
    }
    assert(skip_white_space(trimmed, 0) == 0);
    lemma_tokens_from_shift(cs, k, 0);
}

impl Lexer {
    pub closed spec fn spec_input(&self) -> Seq<char> {
        self.input@
    }

    pub fn new(data: &str) -> (r: Lexer)
        ensures
            r.spec_input() == data@,
    {
        let n = data.unicode_len();
        let mut input: Vec<char> = Vec::new();
        let mut i: usize = 0;
        while i < n
            invariant
                n == data@.len(),
                i <= n,
                input@ == data@.take(i as int),
            decreases n - i,
        {
            input.push(data.get_char(i));
            assert(input@ =~= data@.take(i + 1));
            i = i + 1;
        }
        assert(data@.take(n as int) =~= data@);
        Lexer { input }
    }

    pub fn lex(self) -> (r: LexIterator)
        ensures
            r.spec_input() == self.spec_input(),
            r.spec_offset() == skip_white_space(self.spec_input(), 0),
    {
        LexIterator::new(self)
    }
}

pub struct LexIterator {
    input: Vec<char>,
    offset: usize,
}

impl LexIterator {
    pub closed spec fn spec_input(&self) -> Seq<char> {
        self.input@
    }

    pub closed spec fn spec_offset(&self) -> int {
        self.offset as int
    }

    pub fn new(lexer: Lexer) -> (r: LexIterator)
        ensures
            r.spec_input() == lexer.spec_input(),
            r.spec_offset() == skip_white_space(lexer.spec_input(), 0),
    {
        let mut it = LexIterator { input: lexer.input, offset: 0 };
        it.skip_whitespace();
        it
    }

    fn skip_whitespace(&mut self)
        requires
            old(self).offset <= old(self).input@.len(),
        ensures
            final(self).input == old(self).input,
            final(self).offset == skip_white_space(old(self).input@, old(self).offset as int),
    {
        let ghost start = self.offset as int;
        proof {
            lemma_skip_white_space(self.input@, start);
        }
        while self.offset < self.input.len() && char_is_whitespace(self.input[self.offset])
            invariant
                self.input == old(self).input,
                start <= self.offset <= self.input@.len(),
                skip_white_space(self.input@, start) == skip_white_space(
                    self.input@,
                    self.offset as int,
                ),
            decreases self.input@.len() - self.offset,
        {
            self.offset = self.offset + 1;
        }
    }

    /// The next token of the line, or none at its end.
    pub fn next(&mut self) -> (r: Option<Token>)
        requires
            old(self).spec_offset() <= old(self).spec_input().len(),
        ensures
            final(self).spec_input() == old(self).spec_input(),
            final(self).spec_offset() <= final(self).spec_input().len(),
            match next_token(old(self).spec_input(), old(self).spec_offset()) {
                None => r is None && final(self).spec_offset() == old(self).spec_offset(),
                Some((t, j)) => r matches Some(tok) && tok@ == t && final(self).spec_offset()
                    == j,
            },
    {
        let ghost cs = self.input@;
        proof {
            lemma_skip_spaces(cs, self.offset as int);
            lemma_next_token(cs, self.offset as int);
        }
        let mut j = self.offset;
        while j < self.input.len() && self.input[j] == ' '
            invariant
                self.input@ == cs,
                self.offset <= j <= cs.len(),
                skip_spaces(cs, self.offset as int) == skip_spaces(cs, j as int),
            decreases cs.len() - j,
        {
            j = j + 1;
        }
        if j >= self.input.len() || self.input[j] == '\n' {
            return None;
        }
        let c = self.input[j];
        if c == '\t' || c == '$' {
            self.offset = j + 1;
            Some(Token::Illegal(c))
        } else if c == '=' {
            self.offset = j + 1;
            Some(Token::Equals)
        } else if c == ':' {
            self.offset = j + 1;
            Some(Token::Colon)
        } else if c == '|' {
            if j + 1 < self.input.len() && self.input[j + 1] == '|' {
                self.offset = j + 2;
                Some(Token::Pipe2)
            } else {
                self.offset = j + 1;
                Some(Token::Pipe)
            }
        } else if ('a' <= c && c <= 'z') || ('A' <= c && c <= 'Z') {
            let mut e = j + 1;
            proof {
                lemma_word_end(cs, e as int);
            }
            while e < self.input.len() && char_is_word(self.input[e])
                invariant
                    self.input@ == cs,
                    j < e <= cs.len(),
                    word_end(cs, j + 1) == word_end(cs, e as int),
                decreases cs.len() - e,
            {
                e = e + 1;
            }
            self.offset = e;
            Some(self.read_word(j, e))
        } else {
            self.offset = j + 1;
            Some(Token::Illegal(c))
        }
    }

    /// The token that the characters from `start` to `end` spell.
    fn read_word(&self, start: usize, end: usize) -> (r: Token)
        requires
            start <= end <= self.input@.len(),
        ensures
            r@ == keyword(self.input@.subrange(start as int, end as int)),
    {
        let ghost w = self.input@.subrange(start as int, end as int);
        if self.word_is(start, end, &['b', 'u', 'i', 'l', 'd']) {
            assert(w == seq!['b', 'u', 'i', 'l', 'd']);
            return Token::Build;
        }
        if self.word_is(start, end, &['d', 'e', 'f', 'a', 'u', 'l', 't']) {
            assert(w == seq!['d', 'e', 'f', 'a', 'u', 'l', 't']);
            return Token::Default;
        }
        if self.word_is(start, end, &['i', 'n', 'c', 'l', 'u', 'd', 'e']) {
            assert(w == seq!['i', 'n', 'c', 'l', 'u', 'd', 'e']);
            return Token::Include;
        }
        if self.word_is(start, end, &['p', 'o', 'o', 'l']) {
            assert(w == seq!['p', 'o', 'o', 'l']);
            return Token::Pool;
        }
        if self.word_is(start, end, &['r', 'u', 'l', 'e']) {
            assert(w == seq!['r', 'u', 'l', 'e']);
            return Token::Rule;
        }
        if self.word_is(start, end, &['s', 'u', 'b', 'n', 'i', 'n', 'j', 'a']) {
            assert(w == seq!['s', 'u', 'b', 'n', 'i', 'n', 'j', 'a']);
            return Token::Subninja;
        }
        assert(w != seq!['b', 'u', 'i', 'l', 'd']);
        let mut identifier = String::new();
        let mut k = start;
        while k < end
            invariant
                start <= k <= end <= self.input@.len(),
                identifier@ == self.input@.subrange(start as int, k as int),
            decreases end - k,
        {
            push_char(&mut identifier, self.input[k]);
            assert(identifier@ =~= self.input@.subrange(start as int, k + 1));
            k = k + 1;
        }
        Token::Identifier(identifier)
    }

    /// Whether the characters from `start` to `end` are `word`.
    fn word_is(&self, start: usize, end: usize, word: &[char]) -> (r: bool)
        requires
            start <= end <= self.input@.len(),
        ensures
            r == (self.input@.subrange(start as int, end as int) == word@),
    {
        if end - start != word.len() {
            return false;
        }
        let mut k: usize = 0;
        while k < word.len()
            invariant
                k <= word@.len(),
                end - start == word@.len(),
                start <= end <= self.input@.len(),
                forall|m: int| 0 <= m < k ==> self.input@[start + m] == word@[m],
            decreases word@.len() - k,
        {
            if self.input[start + k] != word[k] {
                assert(self.input@.subrange(start as int, end as int)[k as int] != word@[k as int]);
                return false;
            }
            k = k + 1;
        }
        assert(self.input@.subrange(start as int, end as int) =~= word@);
        true
    }

    /// All the remaining tokens of the line.
    pub fn tokens(self) -> (r: Vec<Token>)
        requires
            self.spec_offset() <= self.spec_input().len(),
        ensures
            Seq::new(r@.len(), |k: int| r@[k]@) == tokens_from(self.spec_input(), self.spec_offset()),
    {
        let mut it = self;
        let ghost cs = it.input@;
        let ghost start = it.offset as int;
        let mut out: Vec<Token> = Vec::new();
        loop
            invariant
                it.input@ == cs,
                cs == self.spec_input(),
                start == self.spec_offset(),
                it.offset <= cs.len(),
                Seq::new(out@.len(), |k: int| out@[k]@) + tokens_from(cs, it.offset as int)
                    == tokens_from(cs, start),
            decreases cs.len() - it.offset,
        {
            let ghost before = it.offset as int;
            let ghost prefix = Seq::new(out@.len(), |k: int| out@[k]@);
            proof {
                lemma_next_token(cs, before);
            }
            match it.next() {
                None => {
                    assert(tokens_from(cs, before) =~= Seq::<TokenView>::empty());
                    assert(prefix + tokens_from(cs, before) =~= prefix);
                    return out;
                },
                Some(t) => {
                    let ghost tv = t@;
                    out.push(t);
                    proof {
                        assert(Seq::new(out@.len(), |k: int| out@[k]@) =~= prefix.push(tv));
                        assert(tokens_from(cs, before) == seq![tv] + tokens_from(cs, it.offset as int));
                        assert(prefix.push(tv) + tokens_from(cs, it.offset as int) =~= prefix + (
                        seq![tv] + tokens_from(cs, it.offset as int)));
                    }
                },
            }
        }
    }
}

} // verus!
