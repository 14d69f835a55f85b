//! Tokenizer: one left-to-right pass that turns text into identifiers,
//! numerals and punctuation runs. Identifier and punctuation texts are
//! interned; a numeral keeps its own characters.

use crate::string_pool::{Handle, StringPool, find_text, intern};
use vstd::prelude::*;
use vstd::slice::slice_subrange;

verus! {

/// Whether `c` has Unicode's White_Space property: the characters that
/// `char::is_whitespace` accepts.
pub open spec fn is_space(c: char) -> bool {
    ('\u{9}' <= c && c <= '\u{d}') || c == ' ' || c == '\u{85}' || c == '\u{a0}' || c == '\u{1680}'
        || ('\u{2000}' <= c && c <= '\u{200a}') || c == '\u{2028}' || c == '\u{2029}' || c
        == '\u{202f}' || c == '\u{205f}' || c == '\u{3000}'
}

/// Whether `c` is alphanumeric, as `char::is_alphanumeric` decides it.
pub uninterp spec fn is_alnum(c: char) -> bool;

fn is_space_char(c: char) -> (r: bool)
    ensures
        r == is_space(c),
{
    ('\u{9}' <= c && c <= '\u{d}') || c == ' ' || c == '\u{85}' || c == '\u{a0}' || c == '\u{1680}'
        || ('\u{2000}' <= c && c <= '\u{200a}') || c == '\u{2028}' || c == '\u{2029}' || c
        == '\u{202f}' || c == '\u{205f}' || c == '\u{3000}'
}

/// Relies on `char::is_alphanumeric`: whether `c` is alphabetic or numeric.
/// Among ASCII characters these are exactly the letters and the digits.
#[verifier::external_body]
fn is_alnum_char(c: char) -> (r: bool)
    ensures
        r == is_alnum(c),
        c <= '\u{7f}' ==> (r <==> (is_ascii_letter(c) || is_ascii_digit(c))),
{
    c.is_alphanumeric()
}

/// Relies on `String`'s `FromIterator<&char>`: a string of exactly these characters.
#[verifier::external_body]
fn string_of(v: &[char]) -> (r: String)
    ensures
        r@ == v@,
{
    String::from_iter(v)
}

pub open spec fn is_ascii_letter(c: char) -> bool {
    ('a' <= c && c <= 'z') || ('A' <= c && c <= 'Z')
}

pub open spec fn is_ascii_digit(c: char) -> bool {
    '0' <= c && c <= '9'
}

/// The first index at or after `i` whose character is not white space.
pub open spec fn skip_space(s: Seq<char>, i: int) -> int
    decreases s.len() - i,
{
    if 0 <= i < s.len() && is_space(s[i]) {
        skip_space(s, i + 1)
    } else {
        i
    }
}

/// Whether `c` may go on an identifier: an alphanumeric character or `_`.
pub open spec fn word_char(c: char) -> bool {
    if c <= '\u{7f}' {
        is_ascii_letter(c) || is_ascii_digit(c) || c == '_'
    } else {
        is_alnum(c)
    }
}

/// The end of the run of letters, digits and underscores that goes on at `i`.
pub open spec fn ident_end(s: Seq<char>, i: int) -> int
    decreases s.len() - i,
{
    if 0 <= i < s.len() && word_char(s[i]) {
        ident_end(s, i + 1)
    } else {
        i
    }
}

/// The end of the run of digits that goes on at `i`, with one decimal point
/// at most (`dot`: one was met already).
pub open spec fn number_end(s: Seq<char>, i: int, dot: bool) -> int
    decreases s.len() - i,
{
    if 0 <= i < s.len() && (is_ascii_digit(s[i]) || (s[i] == '.' && !dot)) {
        number_end(s, i + 1, dot || s[i] == '.')
    } else {
        i
    }
}

/// The end of the run of characters other than white space that goes on at `i`.
pub open spec fn punct_end(s: Seq<char>, i: int) -> int
    decreases s.len() - i,
{
    if 0 <= i < s.len() && !is_space(s[i]) {
        punct_end(s, i + 1)
    } else {
        i
    }
}

/// The kind and end of the token whose first character is `s[j]`.
pub open spec fn token_at(s: Seq<char>, j: int) -> (TokenKind, int) {
    if is_ascii_letter(s[j]) {
        (TokenKind::Ident, ident_end(s, j + 1))
    } else if is_ascii_digit(s[j]) {
        (TokenKind::Number, number_end(s, j + 1, false))
    } else {
        (TokenKind::Punct, punct_end(s, j + 1))
    }
}

/// The tokens of `s` from index `i` on, each as its kind and its text.
pub open spec fn lex_from(s: Seq<char>, i: int) -> Seq<(TokenKind, Seq<char>)>
    decreases s.len() - i,
    when 0 <= i <= s.len()
{
    let j = skip_space(s, i);
    if j >= s.len() {
        Seq::empty()
    } else {
        proof {
            lemma_skip_space_bounds(s, i);
            lemma_token_at_bounds(s, j);
        }
        seq![(token_at(s, j).0, s.subrange(j, token_at(s, j).1))] + lex_from(s, token_at(s, j).1)
    }
}

/// The tokens of `s`, each as its kind and its text.
pub open spec fn lex(s: Seq<char>) -> Seq<(TokenKind, Seq<char>)> {
    lex_from(s, 0)
}

pub proof fn lemma_skip_space_bounds(s: Seq<char>, i: int)
    requires
        0 <= i <= s.len(),
    ensures
        i <= skip_space(s, i) <= s.len(),
        skip_space(s, i) < s.len() ==> !is_space(s[skip_space(s, i)]),
    decreases s.len() - i,
{
    if i < s.len() && is_space(s[i]) {
        lemma_skip_space_bounds(s, i + 1);
    }
}

proof fn lemma_ident_end_bounds(s: Seq<char>, i: int)
    requires
        0 <= i <= s.len(),
    ensures
        i <= ident_end(s, i) <= s.len(),
    decreases s.len() - i,
{
    if i < s.len() && word_char(s[i]) {
        lemma_ident_end_bounds(s, i + 1);
    }
}

proof fn lemma_number_end_bounds(s: Seq<char>, i: int, dot: bool)
    requires
        0 <= i <= s.len(),
    ensures
        i <= number_end(s, i, dot) <= s.len(),
    decreases s.len() - i,
{
    if i < s.len() && (is_ascii_digit(s[i]) || (s[i] == '.' && !dot)) {
        lemma_number_end_bounds(s, i + 1, dot || s[i] == '.');
    }
}

proof fn lemma_punct_end_bounds(s: Seq<char>, i: int)
    requires
        0 <= i <= s.len(),
    ensures
        i <= punct_end(s, i) <= s.len(),
    decreases s.len() - i,
{
    if i < s.len() && !is_space(s[i]) {
        lemma_punct_end_bounds(s, i + 1);
    }
}

pub proof fn lemma_token_at_bounds(s: Seq<char>, j: int)
    requires
        0 <= j < s.len(),
    ensures
        j < token_at(s, j).1 <= s.len(),
{
    lemma_ident_end_bounds(s, j + 1);
    lemma_number_end_bounds(s, j + 1, false);
    lemma_punct_end_bounds(s, j + 1);
}

#[derive(Debug, Clone, Copy, PartialEq, Eq, Structural)]
pub enum TokenKind {
    Ident,
    Number,
    Punct,
}

/// A token. An identifier or a punctuation run carries the handle of its
/// text; a numeral carries its characters, its value being that text read as
/// a decimal number.
#[derive(Debug, Clone, PartialEq, Eq)]
pub enum Token {
    Ident(Handle),
    Number(Vec<char>),
    Punct(Handle),
}

/// The text of `t`, names being read through the pool `p`.
pub open spec fn token_text(p: Seq<Seq<char>>, t: Token) -> Seq<char> {
    match t {
        Token::Ident(h) => p[h.id as int],
        Token::Punct(h) => p[h.id as int],
        Token::Number(v) => v@,
    }
}

/// An identifier or a punctuation run of `t` names a text of the pool `p`.
pub open spec fn named_in(p: Seq<Seq<char>>, t: Token) -> bool {
    match t {
        Token::Ident(h) => h.id < p.len(),
        Token::Punct(h) => h.id < p.len(),
        Token::Number(_) => true,
    }
}

/// The tokens `ts` seen through the pool `p`: each as its kind and its text.
pub open spec fn lexemes(p: Seq<Seq<char>>, ts: Seq<Token>) -> Seq<(TokenKind, Seq<char>)> {
    ts.map_values(|t: Token| (t.spec_kind(), token_text(p, t)))
}

/// Every identifier and punctuation run of `ts` names a text of the pool `p`.
pub open spec fn handles_in(p: Seq<Seq<char>>, ts: Seq<Token>) -> bool {
    forall|i: int| 0 <= i < ts.len() ==> named_in(p, #[trigger] ts[i])
}

/// Each text of `q` past the first `n` is the text of an identifier or a
/// punctuation run of `ts`.
pub open spec fn only_names_added(q: Seq<Seq<char>>, n: int, ts: Seq<Token>) -> bool {
    forall|i: int| n <= i < q.len() ==> #[trigger] names_index(ts, i)
}

/// Some identifier or punctuation run of `ts` has the handle with id `i`.
pub open spec fn names_index(ts: Seq<Token>, i: int) -> bool {
    exists|k: int| 0 <= k < ts.len() && !(ts[k] is Number) && (#[trigger] ts[k]).spec_handle().id == i
}

proof fn lemma_lexemes_grow(p: Seq<Seq<char>>, q: Seq<Seq<char>>, ts: Seq<Token>)
    requires
        p.is_prefix_of(q),
        handles_in(p, ts),
    ensures
        handles_in(q, ts),
        lexemes(q, ts) == lexemes(p, ts),
{
    assert forall|i: int| 0 <= i < ts.len() implies named_in(q, #[trigger] ts[i]) && token_text(q, ts[i])
        == token_text(p, ts[i]) by {
        match ts[i] {
            Token::Ident(h) => {
                assert(q[h.id as int] == q.subrange(0, p.len() as int)[h.id as int]);
            },
            Token::Punct(h) => {
                assert(q[h.id as int] == q.subrange(0, p.len() as int)[h.id as int]);
            },
            Token::Number(_) => {},
        }
    }
    assert(lexemes(q, ts) =~= lexemes(p, ts));
}

/// Tokenizing is a function of the text alone: two tokenizations of one text,
/// into any pools, give tokens of the same kinds and the same texts.
pub proof fn lemma_tokenize_deterministic(
    s: Seq<char>,
    pool_a: Seq<Seq<char>>,
    ts_a: Seq<Token>,
    pool_b: Seq<Seq<char>>,
    ts_b: Seq<Token>,
)
    requires
        lexemes(pool_a, ts_a) == lex(s),
        lexemes(pool_b, ts_b) == lex(s),
    ensures
        ts_a.len() == ts_b.len(),
        forall|i: int|
            0 <= i < ts_a.len() ==> (#[trigger] ts_a[i]).spec_kind() == ts_b[i].spec_kind()
                && token_text(pool_a, ts_a[i]) == token_text(pool_b, ts_b[i]),
{
    assert(lexemes(pool_a, ts_a).len() == ts_a.len());
    assert(lexemes(pool_b, ts_b).len() == ts_b.len());
    assert forall|i: int| 0 <= i < ts_a.len() implies (#[trigger] ts_a[i]).spec_kind()
        == ts_b[i].spec_kind() && token_text(pool_a, ts_a[i]) == token_text(pool_b, ts_b[i]) by {
        assert(lexemes(pool_a, ts_a)[i] == lexemes(pool_b, ts_b)[i]);
        assert(lexemes(pool_a, ts_a)[i] == (ts_a[i].spec_kind(), token_text(pool_a, ts_a[i])));
        assert(lexemes(pool_b, ts_b)[i] == (ts_b[i].spec_kind(), token_text(pool_b, ts_b[i])));
    }
}

impl Token {
    pub open spec fn spec_kind(self) -> TokenKind {
        match self {
            Token::Ident(_) => TokenKind::Ident,
            Token::Number(_) => TokenKind::Number,
            Token::Punct(_) => TokenKind::Punct,
        }
    }

    /// The handle of an identifier or a punctuation run.
    pub open spec fn spec_handle(self) -> Handle
        recommends
            !(self is Number),
    {
        match self {
            Token::Ident(h) => h,
            Token::Punct(h) => h,
            Token::Number(_) => Handle { id: 0 },
        }
    }

    pub fn kind(&self) -> (r: TokenKind)
        ensures
            r == self.spec_kind(),
    {
        match self {
            Token::Ident(_) => TokenKind::Ident,
            Token::Number(_) => TokenKind::Number,
            Token::Punct(_) => TokenKind::Punct,
        }
    }

    /// The handle of an identifier's or a punctuation run's text; `None` for
    /// a numeral.
    pub fn handle(&self) -> (r: Option<Handle>)
        ensures
            match self {
                Token::Number(_) => r is None,
                _ => r == Some(self.spec_handle()),
            },
    {
        match self {
            Token::Ident(h) => Some(*h),
            Token::Punct(h) => Some(*h),
            Token::Number(_) => None,
        }
    }

    /// The token's text, names being read through `pool`.
    pub fn text(&self, pool: &StringPool) -> (r: String)
        requires
            named_in(pool@, *self),
        ensures
            r@ == token_text(pool@, *self),
    {
        match self {
            Token::Ident(h) => pool.resolve(*h).clone(),
            Token::Punct(h) => pool.resolve(*h).clone(),
            Token::Number(v) => string_of(v.as_slice()),
        }
    }

    /// Splits `input` into tokens, interning the texts of identifiers and
    /// punctuation runs in `string_pool`. The pool gains no other text.
    pub fn tokenlize(input: &str, string_pool: &mut StringPool) -> (r: Vec<Token>)
        requires
            old(string_pool).wf(),
        ensures
            final(string_pool).wf(),
            old(string_pool)@.is_prefix_of(final(string_pool)@),
            handles_in(final(string_pool)@, r@),
            lexemes(final(string_pool)@, r@) == lex(input@),
            only_names_added(final(string_pool)@, old(string_pool)@.len() as int, r@),
    {
        let mut lexer = Lexer::new(input);
        let mut tokens: Vec<Token> = Vec::new();
        assert(lexemes(string_pool@, tokens@) =~= Seq::empty());
        loop
            invariant_except_break
                lexemes(string_pool@, tokens@) + lex_from(input@, lexer.pos as int) == lex(input@),
            invariant
                lexer.input@ == input@,
                lexer.pos <= lexer.input.len(),
                string_pool.wf(),
                old(string_pool)@.is_prefix_of(string_pool@),
                handles_in(string_pool@, tokens@),
                only_names_added(string_pool@, old(string_pool)@.len() as int, tokens@),
            ensures
                lexemes(string_pool@, tokens@) == lex(input@),
            decreases lexer.input.len() - lexer.pos,
        {
            let ghost pool_before = string_pool@;
            let ghost pos0 = lexer.pos as int;
            let ghost ts0 = tokens@;
            match lexer.next_token(string_pool) {
                Some(t) => {
                    tokens.push(t);
                    proof {
                        let s = input@;
                        let j = skip_space(s, pos0);
                        lemma_skip_space_bounds(s, pos0);
                        lemma_token_at_bounds(s, j);
                        lemma_lexemes_grow(pool_before, string_pool@, ts0);
                        assert(handles_in(string_pool@, tokens@)) by {
                            assert forall|i: int| 0 <= i < tokens@.len() implies named_in(
                                string_pool@,
                                #[trigger] tokens@[i],
                            ) by {
                                if i < ts0.len() {
                                    assert(tokens@[i] == ts0[i]);
                                }
                            }
                        }
                        assert(lexemes(string_pool@, tokens@) =~= lexemes(string_pool@, ts0).push(
                            (t.spec_kind(), token_text(string_pool@, t)),
                        ));
                        assert(lex_from(s, pos0) == seq![(token_at(s, j).0, s.subrange(j, token_at(s, j).1))]
                            + lex_from(s, token_at(s, j).1));
                        assert(lexemes(string_pool@, tokens@) + lex_from(s, lexer.pos as int)
                            =~= lexemes(pool_before, ts0) + lex_from(s, pos0));
                        let n = old(string_pool)@.len() as int;
                        assert forall|i: int| n <= i < string_pool@.len() implies #[trigger] names_index(tokens@, i) by {
                            if i < pool_before.len() {
                                assert(names_index(ts0, i));
                                let k = choose|k: int|
                                    0 <= k < ts0.len() && !(ts0[k] is Number)
                                        && (#[trigger] ts0[k]).spec_handle().id == i;
                                assert(tokens@[k] == ts0[k]);
                            } else {
                                assert(!(t is Number));
                                assert(find_text(pool_before, token_text(string_pool@, t)) is None);
                                assert(t.spec_handle().id == i);
                                assert(tokens@[ts0.len() as int] == t);
                            }
                        }
                    }
                },
                None => {
                    assert(lex_from(input@, pos0) =~= Seq::empty());
                    assert(lexemes(string_pool@, tokens@) =~= lex(input@));
                    break;
                },
            }
        }
        tokens
    }
}

/// A cursor over the characters of a text.
pub struct Lexer {
    pub input: Vec<char>,
    pub pos: usize,
}

impl Lexer {
    pub fn new(input: &str) -> (r: Lexer)
        ensures
            r.input@ == input@,
            r.pos == 0,
    {
        let mut chars: Vec<char> = Vec::new();
        for c in it: input.chars()
            invariant
                chars@ == it.seq().take(it.index() as int),
        {
            chars.push(c);
        }
        assert(chars@ =~= input@);
        Lexer { input: chars, pos: 0 }
    }

    /// Moves past the white space at the cursor.
    pub fn skip_whitespaces(&mut self)
        requires
            old(self).pos <= old(self).input.len(),
        ensures
            final(self).input == old(self).input,
            final(self).pos == skip_space(old(self).input@, old(self).pos as int),
    {
        while self.pos < self.input.len() && is_space_char(self.input[self.pos])
            invariant
                self.input == old(self).input,
                self.pos <= self.input.len(),
                skip_space(self.input@, self.pos as int) == skip_space(
                    old(self).input@,
                    old(self).pos as int,
                ),
            decreases self.input.len() - self.pos,
        {
            self.pos = self.pos + 1;
        }
    }

    /// The token after the white space at the cursor, if any; the cursor then
    /// stands after it. An identifier's or a punctuation run's text is
    /// interned in `pool`; a numeral leaves the pool as it is.
    pub fn next_token(&mut self, pool: &mut StringPool) -> (r: Option<Token>)
        requires
            old(self).pos <= old(self).input.len(),
            old(pool).wf(),
        ensures
            final(self).input == old(self).input,
            final(self).pos <= final(self).input.len(),
            final(pool).wf(),
            old(pool)@.is_prefix_of(final(pool)@),
            ({
                let s = old(self).input@;
                let j = skip_space(s, old(self).pos as int);
                if j >= s.len() {
                    &&& r is None
                    &&& final(self).pos == j
                    &&& final(pool)@ == old(pool)@
                } else {
                    let text = s.subrange(j, token_at(s, j).1);
                    &&& r is Some
                    &&& final(self).pos == token_at(s, j).1
                    &&& final(self).pos > old(self).pos
                    &&& r->0.spec_kind() == token_at(s, j).0
                    &&& named_in(final(pool)@, r->0)
                    &&& token_text(final(pool)@, r->0) == text
                    &&& if r->0 is Number {
                        final(pool)@ == old(pool)@
                    } else {
                        (final(pool)@, r->0.spec_handle().id as int) == intern(old(pool)@, text)
                    }
                }
            }),
    {
        self.skip_whitespaces();
        let ghost s = self.input@;
        proof {
            lemma_skip_space_bounds(s, old(self).pos as int);
        }
        if self.pos >= self.input.len() {
            return None;
        }
        let start = self.pos;
        let c = self.input[start];
        proof {
            lemma_token_at_bounds(s, start as int);
        }
        self.pos = start + 1;
        let kind;
        if ('a' <= c && c <= 'z') || ('A' <= c && c <= 'Z') {
            while self.pos < self.input.len() && (is_alnum_char(self.input[self.pos])
                || self.input[self.pos] == '_')
                invariant
                    self.input == old(self).input,
                    self.input@ == s,
                    start < self.pos <= self.input.len(),
                    ident_end(s, self.pos as int) == ident_end(s, start + 1),
                decreases self.input.len() - self.pos,
            {
                self.pos = self.pos + 1;
            }
            kind = TokenKind::Ident;
        } else if '0' <= c && c <= '9' {
            let mut dot = false;
            while self.pos < self.input.len() && (('0' <= self.input[self.pos]
                && self.input[self.pos] <= '9') || (self.input[self.pos] == '.' && !dot))
                invariant
                    self.input == old(self).input,
                    self.input@ == s,
                    start < self.pos <= self.input.len(),
                    number_end(s, self.pos as int, dot) == number_end(s, start + 1, false),
                decreases self.input.len() - self.pos,
            {
                if self.input[self.pos] == '.' {
                    dot = true;
                }
                self.pos = self.pos + 1;
            }
            kind = TokenKind::Number;
        } else {
            while self.pos < self.input.len() && !is_space_char(self.input[self.pos])
                invariant
                    self.input == old(self).input,
                    self.input@ == s,
                    start < self.pos <= self.input.len(),
                    punct_end(s, self.pos as int) == punct_end(s, start + 1),
                decreases self.input.len() - self.pos,
            {
                self.pos = self.pos + 1;
            }
            kind = TokenKind::Punct;
        }
        let end = self.pos;
        match kind {
            TokenKind::Number => {
                let mut digits: Vec<char> = Vec::new();
                let mut i: usize = start;
                while i < end
                    invariant
                        self.input@ == s,
                        start <= i <= end <= s.len(),
                        digits@ == s.subrange(start as int, i as int),
                    decreases end - i,
                {
                    digits.push(self.input[i]);
                    i = i + 1;
                    assert(digits@ =~= s.subrange(start as int, i as int));
                }
                Some(Token::Number(digits))
            },
            TokenKind::Ident => {
                let text = string_of(slice_subrange(self.input.as_slice(), start, end));
                Some(Token::Ident(pool.get(text.as_str())))
            },
            TokenKind::Punct => {
                let text = string_of(slice_subrange(self.input.as_slice(), start, end));
                Some(Token::Punct(pool.get(text.as_str())))
            },
        }
    }
}

} // verus!
