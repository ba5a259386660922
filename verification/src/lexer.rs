//! Lexical analysis: source text to a token sequence ending in exactly one
//! end-of-input marker. The executable lexer is proved equal to a
//! sequence-level description of the token stream.

use vstd::prelude::*;

verus! {

use crate::text::push_char;
use vstd::string::StrSliceExecFns;
use vstd::string::StringExecFns;

/// One lexical unit of the source language.
#[derive(Debug)]
pub enum Tokens {
    Ident(String),
    Number(i64),
    Return,
    Var,
    Plus,
    Minus,
    Star,
    Slash,
    LParen,
    RParen,
    SemiColon,
    Assign,
    EOF,
}

/// The mathematical value of a token: an identifier is its character sequence.
pub enum TokenView {
    Ident(Seq<char>),
    Number(i64),
    Return,
    Var,
    Plus,
    Minus,
    Star,
    Slash,
    LParen,
    RParen,
    SemiColon,
    Assign,
    EOF,
}

impl View for Tokens {
    type V = TokenView;

    open spec fn view(&self) -> TokenView {
        match self {
            Tokens::Ident(s) => TokenView::Ident(s@),
            Tokens::Number(n) => TokenView::Number(*n),
            Tokens::Return => TokenView::Return,
            Tokens::Var => TokenView::Var,
            Tokens::Plus => TokenView::Plus,
            Tokens::Minus => TokenView::Minus,
            Tokens::Star => TokenView::Star,
            Tokens::Slash => TokenView::Slash,
            Tokens::LParen => TokenView::LParen,
            Tokens::RParen => TokenView::RParen,
            Tokens::SemiColon => TokenView::SemiColon,
            Tokens::Assign => TokenView::Assign,
            Tokens::EOF => TokenView::EOF,
        }
    }
}

impl Clone for Tokens {
    /// A clone carries the same token value.
    fn clone(&self) -> (r: Tokens)
        ensures
            r == *self,
    {
        match self {
            Tokens::Ident(s) => Tokens::Ident(s.clone()),
            Tokens::Number(n) => Tokens::Number(*n),
            Tokens::Return => Tokens::Return,
            Tokens::Var => Tokens::Var,
            Tokens::Plus => Tokens::Plus,
            Tokens::Minus => Tokens::Minus,
            Tokens::Star => Tokens::Star,
            Tokens::Slash => Tokens::Slash,
            Tokens::LParen => Tokens::LParen,
            Tokens::RParen => Tokens::RParen,
            Tokens::SemiColon => Tokens::SemiColon,
            Tokens::Assign => Tokens::Assign,
            Tokens::EOF => Tokens::EOF,
        }
    }
}

impl PartialEq for Tokens {
    /// Two tokens are equal exactly when their values are.
    fn eq(&self, other: &Tokens) -> (r: bool) {
        match (self, other) {
            (Tokens::Ident(a), Tokens::Ident(b)) => *a == *b,
            (Tokens::Number(a), Tokens::Number(b)) => *a == *b,
            (Tokens::Return, Tokens::Return) => true,
            (Tokens::Var, Tokens::Var) => true,
            (Tokens::Plus, Tokens::Plus) => true,
            (Tokens::Minus, Tokens::Minus) => true,
            (Tokens::Star, Tokens::Star) => true,
            (Tokens::Slash, Tokens::Slash) => true,
            (Tokens::LParen, Tokens::LParen) => true,
            (Tokens::RParen, Tokens::RParen) => true,
            (Tokens::SemiColon, Tokens::SemiColon) => true,
            (Tokens::Assign, Tokens::Assign) => true,
            (Tokens::EOF, Tokens::EOF) => true,
            _ => false,
        }
    }
}

impl Eq for Tokens {

}

impl vstd::std_specs::cmp::PartialEqSpecImpl for Tokens {
    open spec fn obeys_eq_spec() -> bool {
        true
    }

    open spec fn eq_spec(&self, other: &Tokens) -> bool {
        self@ == other@
    }
}

/// A fatal lexical fault: either a character outside the language, or a
/// numeric literal that does not fit the 64-bit signed domain.
#[derive(Debug, Clone, PartialEq, Eq)]
pub enum LexError {
    UnrecognizedChar(char),
    NumberOverflow,
}

/// The whitespace characters skipped between tokens.
pub open spec fn is_space_char(c: char) -> bool {
    c == ' ' || c == '\t' || c == '\n' || c == '\r' || c == '\u{b}' || c == '\u{c}'
}

/// An ASCII decimal digit.
pub open spec fn is_digit_char(c: char) -> bool {
    '0' as u32 <= c as u32 && c as u32 <= '9' as u32
}

/// An ASCII letter; identifiers are made of these alone.
pub open spec fn is_alpha_char(c: char) -> bool {
    ('a' as u32 <= c as u32 && c as u32 <= 'z' as u32) || ('A' as u32 <= c as u32 && c as u32
        <= 'Z' as u32)
}

/// The numeric value of one digit character.
pub open spec fn digit_val(c: char) -> int {
    c as u32 - '0' as u32
}

/// The value of a digit run, most significant digit first.
pub open spec fn digits_val(s: Seq<char>) -> int
    decreases s.len(),
{
    if s.len() == 0 {
        0
    } else {
        digits_val(s.drop_last()) * 10 + digit_val(s.last())
    }
}

/// The first position at or after `i` that does not hold whitespace.
/// The inner bound only makes the forward motion of the scan plain to the
/// termination proof; it never alters the result.
pub open spec fn skip_ws_end(s: Seq<char>, i: int) -> int
    decreases s.len() - i,
{
    if i < 0 || i >= s.len() {
        i
    } else if is_space_char(s[i]) {
        let k = skip_ws_end(s, i + 1);
        if k >= i + 1 {
            k
        } else {
            i + 1
        }
    } else {
        i
    }
}

/// The end of the digit run that starts at or after `i`.
pub open spec fn digit_end(s: Seq<char>, i: int) -> int
    decreases s.len() - i,
{
    if i < 0 || i >= s.len() {
        i
    } else if is_digit_char(s[i]) {
        digit_end(s, i + 1)
    } else {
        i
    }
}

/// The end of the letter run that starts at or after `i`.
pub open spec fn alpha_end(s: Seq<char>, i: int) -> int
    decreases s.len() - i,
{
    if i < 0 || i >= s.len() {
        i
    } else if is_alpha_char(s[i]) {
        alpha_end(s, i + 1)
    } else {
        i
    }
}

/// A letter run is a keyword token when it spells a reserved word, and an
/// identifier token otherwise.
pub open spec fn kw_or_ident(w: Seq<char>) -> TokenView {
    if w == "return"@ {
        TokenView::Return
    } else if w == "var"@ {
        TokenView::Var
    } else {
        TokenView::Ident(w)
    }
}

/// The next token of `s` from position `start`, with the position that
/// follows it: whitespace is skipped, a digit run is a number literal (too
/// large a value is a fault), a letter run is a keyword or identifier, the
/// eight punctuation characters map one-to-one, the end of input yields the
/// end-of-input marker, and anything else is a fault.
pub open spec fn spec_next_token(s: Seq<char>, start: int) -> Result<(TokenView, int), LexError> {
    let i = skip_ws_end(s, start);
    if !(0 <= i < s.len()) {
        Ok((TokenView::EOF, i))
    } else {
        let c = s[i];
        if is_digit_char(c) {
            let j = digit_end(s, i);
            let v = digits_val(s.subrange(i, j));
            if v <= i64::MAX {
                Ok((TokenView::Number(v as i64), j))
            } else {
                Err(LexError::NumberOverflow)
            }
        } else if is_alpha_char(c) {
            Ok((kw_or_ident(s.subrange(i, alpha_end(s, i))), alpha_end(s, i)))
        } else if c == ';' {
            Ok((TokenView::SemiColon, i + 1))
        } else if c == '+' {
            Ok((TokenView::Plus, i + 1))
        } else if c == '-' {
            Ok((TokenView::Minus, i + 1))
        } else if c == '*' {
            Ok((TokenView::Star, i + 1))
        } else if c == '/' {
            Ok((TokenView::Slash, i + 1))
        } else if c == '(' {
            Ok((TokenView::LParen, i + 1))
        } else if c == ')' {
            Ok((TokenView::RParen, i + 1))
        } else if c == '=' {
            Ok((TokenView::Assign, i + 1))
        } else {
            Err(LexError::UnrecognizedChar(c))
        }
    }
}

/// The whole token stream of `s` from position `start`: the tokens in source
/// order, ending in exactly one end-of-input marker, or the first fault.
/// The bound on the recursion position only restates that a token ends past
/// its starting point; it never alters the result.
pub open spec fn spec_tokenize_from(s: Seq<char>, start: int) -> Result<Seq<TokenView>, LexError>
    decreases s.len() - start,
{
    if start < 0 || start > s.len() {
        Ok(seq![TokenView::EOF])
    } else {
        match spec_next_token(s, start) {
            Err(e) => Err(e),
            Ok((tv, j)) => if tv is EOF {
                Ok(seq![TokenView::EOF])
            } else {
                let j2 = if start + 1 <= j && j <= s.len() {
                    j
                } else {
                    start + 1
                };
                match spec_tokenize_from(s, j2) {
                    Err(e) => Err(e),
                    Ok(rest) => Ok(seq![tv] + rest),
                }
            },
        }
    }
}

/// The views of a sequence of tokens.
pub open spec fn toks_view(ts: Seq<Tokens>) -> Seq<TokenView> {
    ts.map_values(|t: Tokens| t@)
}

pub proof fn lemma_skip_ws_end_bounds(s: Seq<char>, i: int)
    requires
        0 <= i <= s.len(),
    ensures
        i <= skip_ws_end(s, i) <= s.len(),
    decreases s.len() - i,
{
    if i < s.len() && is_space_char(s[i]) {
        lemma_skip_ws_end_bounds(s, i + 1);
    }
}

pub proof fn lemma_digit_end_bounds(s: Seq<char>, i: int)
    requires
        0 <= i <= s.len(),
    ensures
        i <= digit_end(s, i) <= s.len(),
    decreases s.len() - i,
{
    if i < s.len() && is_digit_char(s[i]) {
        lemma_digit_end_bounds(s, i + 1);
    }
}

pub proof fn lemma_alpha_end_bounds(s: Seq<char>, i: int)
    requires
        0 <= i <= s.len(),
    ensures
        i <= alpha_end(s, i) <= s.len(),
    decreases s.len() - i,
{
    if i < s.len() && is_alpha_char(s[i]) {
        lemma_alpha_end_bounds(s, i + 1);
    }
}

pub proof fn lemma_digit_end_all(s: Seq<char>, i: int)
    requires
        0 <= i <= s.len(),
        forall|k: int| i <= k < s.len() ==> is_digit_char(#[trigger] s[k]),
    ensures
        digit_end(s, i) == s.len(),
    decreases s.len() - i,
{
    if i < s.len() {
        lemma_digit_end_all(s, i + 1);
    }
}

pub proof fn lemma_alpha_end_all(s: Seq<char>, i: int)
    requires
        0 <= i <= s.len(),
        forall|k: int| i <= k < s.len() ==> is_alpha_char(#[trigger] s[k]),
    ensures
        alpha_end(s, i) == s.len(),
    decreases s.len() - i,
{
    if i < s.len() {
        lemma_alpha_end_all(s, i + 1);
    }
}

/// Every successful token stream ends in the end-of-input marker, appended
/// exactly once: it stands at the end and nowhere else.
pub proof fn lemma_token_stream_ends_in_eof(s: Seq<char>, start: int)
    ensures
        (match spec_tokenize_from(s, start) {
            Ok(ts) => ts.len() >= 1 && ts.last() == TokenView::EOF && (forall|k: int|
                0 <= k < ts.len() - 1 ==> !(#[trigger] ts[k] is EOF)),
            Err(_) => true,
        }),
    decreases s.len() - start,
{
    if 0 <= start <= s.len() {
        match spec_next_token(s, start) {
            Err(_) => {},
            Ok((tv, j)) => {
                if !(tv is EOF) {
                    let j2 = if start + 1 <= j && j <= s.len() {
                        j
                    } else {
                        start + 1
                    };
                    lemma_token_stream_ends_in_eof(s, j2);
                    match spec_tokenize_from(s, j2) {
                        Ok(rest) => {
                            let ts = seq![tv] + rest;
                            assert(ts.last() == rest.last());
                            assert forall|k: int| 0 <= k < ts.len() - 1 implies !(#[trigger] ts[k]
                                is EOF) by {
                                if k > 0 {
                                    assert(ts[k] == rest[k - 1]);
                                }
                            }
                        },
                        Err(_) => {},
                    }
                }
            },
        }
    }
}

/// A source that is one valid number literal tokenizes to exactly that
/// number token followed by the end-of-input marker.
pub proof fn lemma_tokenize_single_number(s: Seq<char>)
    requires
        s.len() > 0,
        forall|k: int| 0 <= k < s.len() ==> is_digit_char(#[trigger] s[k]),
        digits_val(s) <= i64::MAX,
    ensures
        spec_tokenize_from(s, 0) == Ok::<Seq<TokenView>, LexError>(
            seq![TokenView::Number(digits_val(s) as i64), TokenView::EOF],
        ),
{
    let n = s.len() as int;
    assert(!is_space_char(s[0]));
    assert(skip_ws_end(s, 0) == 0);
    lemma_digit_end_all(s, 0);
    assert(s.subrange(0, n) =~= s);
    assert(spec_next_token(s, 0) == Ok::<(TokenView, int), LexError>(
        (TokenView::Number(digits_val(s) as i64), n),
    ));
    assert(skip_ws_end(s, n) == n);
    assert(spec_next_token(s, n) == Ok::<(TokenView, int), LexError>((TokenView::EOF, n)));
    assert(spec_tokenize_from(s, n) == Ok::<Seq<TokenView>, LexError>(seq![TokenView::EOF]));
    assert(seq![TokenView::Number(digits_val(s) as i64)] + seq![TokenView::EOF] =~= seq![
        TokenView::Number(digits_val(s) as i64),
        TokenView::EOF,
    ]);
}

/// A source that is one run of letters tokenizes to exactly one token and
/// the end-of-input marker: the keyword token when the run spells a
/// reserved word, and the identifier token otherwise.
pub proof fn lemma_tokenize_single_ident(s: Seq<char>)
    requires
        s.len() > 0,
        forall|k: int| 0 <= k < s.len() ==> is_alpha_char(#[trigger] s[k]),
    ensures
        spec_tokenize_from(s, 0) == Ok::<Seq<TokenView>, LexError>(
            seq![kw_or_ident(s), TokenView::EOF],
        ),
{
    let n = s.len() as int;
    assert(!is_space_char(s[0]));
    assert(!is_digit_char(s[0]));
    assert(skip_ws_end(s, 0) == 0);
    lemma_alpha_end_all(s, 0);
    assert(s.subrange(0, n) =~= s);
    assert(spec_next_token(s, 0) == Ok::<(TokenView, int), LexError>((kw_or_ident(s), n)));
    assert(skip_ws_end(s, n) == n);
    assert(spec_next_token(s, n) == Ok::<(TokenView, int), LexError>((TokenView::EOF, n)));
    assert(spec_tokenize_from(s, n) == Ok::<Seq<TokenView>, LexError>(seq![TokenView::EOF]));
    assert(!(kw_or_ident(s) is EOF));
    assert(seq![kw_or_ident(s)] + seq![TokenView::EOF] =~= seq![kw_or_ident(s), TokenView::EOF]);
}

/// A character that is no digit, no letter, no whitespace and none of the
/// recognized punctuation marks is a lexical fault, not silently skipped.
pub proof fn lemma_tokenize_unrecognized(c: char)
    requires
        !is_space_char(c),
        !is_digit_char(c),
        !is_alpha_char(c),
        c != ';' && c != '+' && c != '-' && c != '*' && c != '/' && c != '(' && c != ')' && c
            != '=',
    ensures
        spec_tokenize_from(seq![c], 0) == Err::<Seq<TokenView>, LexError>(
            LexError::UnrecognizedChar(c),
        ),
{
    let s = seq![c];
    assert(skip_ws_end(s, 0) == 0);
    assert(spec_next_token(s, 0) == Err::<(TokenView, int), LexError>(
        LexError::UnrecognizedChar(c),
    ));
}

fn is_space(c: char) -> (b: bool)
    ensures
        b == is_space_char(c),
{
    c == ' ' || c == '\t' || c == '\n' || c == '\r' || c == '\u{b}' || c == '\u{c}'
}

fn is_digit(c: char) -> (b: bool)
    ensures
        b == is_digit_char(c),
{
    let u = c as u32;
    '0' as u32 <= u && u <= '9' as u32
}

fn is_alpha(c: char) -> (b: bool)
    ensures
        b == is_alpha_char(c),
{
    let u = c as u32;
    ('a' as u32 <= u && u <= 'z' as u32) || ('A' as u32 <= u && u <= 'Z' as u32)
}

/// A cursor over the characters of one source text.
pub struct Lexer {
    pub input: Vec<char>,
    pub position: usize,
}

impl Lexer {
    /// The character under the cursor, if any.
    pub open spec fn spec_peek(self) -> Option<char> {
        if self.position < self.input@.len() {
            Some(self.input@[self.position as int])
        } else {
            None
        }
    }

    /// Start a lexer at the beginning of the given source text.
    pub fn new(input: String) -> (l: Lexer)
        ensures
            l.input@ == input@,
            l.position == 0,
    {
        let n = input.as_str().unicode_len();
        let mut v: Vec<char> = Vec::new();
        let mut i: usize = 0;
        while i < n
            invariant
                n == input@.len(),
                i <= n,
                v@ == input@.take(i as int),
            decreases n - i,
        {
            let c = input.as_str().get_char(i);
            v.push(c);
            proof {
                assert(input@.take(i + 1) =~= input@.take(i as int).push(input@[i as int]));
            }
            i = i + 1;
        }
        proof {
            assert(input@.take(n as int) =~= input@);
        }
        Lexer { input: v, position: 0 }
    }

    /// Look at the character under the cursor without consuming it.
    pub fn peek(&self) -> (c: Option<char>)
        ensures
            c == self.spec_peek(),
    {
        if self.position < self.input.len() {
            Some(self.input[self.position])
        } else {
            None
        }
    }

    /// Consume and return the character under the cursor; at the end of the
    /// input the cursor stays where it is and nothing is returned.
    pub fn advance(&mut self) -> (c: Option<char>)
        ensures
            c == old(self).spec_peek(),
            final(self).input == old(self).input,
            final(self).position == if old(self).position < old(self).input@.len() {
                old(self).position + 1
            } else {
                old(self).position as int
            },
    {
        let ch = self.peek();
        if self.position < self.input.len() {
            self.position = self.position + 1;
        }
        ch
    }

    /// Move the cursor past any run of whitespace.
    pub fn skip_white_space(&mut self)
        ensures
            final(self).input == old(self).input,
            final(self).position == skip_ws_end(old(self).input@, old(self).position as int),
    {
        loop
            invariant
                self.input == old(self).input,
                skip_ws_end(self.input@, self.position as int) == skip_ws_end(
                    old(self).input@,
                    old(self).position as int,
                ),
            ensures
                self.input == old(self).input,
                skip_ws_end(self.input@, self.position as int) == skip_ws_end(
                    old(self).input@,
                    old(self).position as int,
                ),
                (match self.spec_peek() {
                    Some(c) => !is_space_char(c),
                    None => true,
                }),
            decreases self.input@.len() - self.position,
        {
            match self.peek() {
                Some(ch) => {
                    if is_space(ch) {
                        proof {
                            lemma_skip_ws_end_bounds(self.input@, self.position + 1);
                        }
                        self.advance();
                    } else {
                        break ;
                    }
                },
                None => {
                    break ;
                },
            }
        }
    }

    /// Consume the digit run whose first digit was already consumed, and
    /// yield its number token; a value past the 64-bit signed range is a
    /// fault.
    pub fn lex_number(&mut self, first: char) -> (r: Result<Tokens, LexError>)
        requires
            is_digit_char(first),
            old(self).position <= old(self).input@.len(),
        ensures
            ({
                let s = old(self).input@;
                let p = old(self).position as int;
                let j = digit_end(s, p);
                let run = seq![first] + s.subrange(p, j);
                &&& final(self).input == old(self).input
                &&& final(self).position == j
                &&& match r {
                    Ok(t) => digits_val(run) <= i64::MAX && t@ == TokenView::Number(
                        digits_val(run) as i64,
                    ),
                    Err(e) => digits_val(run) > i64::MAX && e == LexError::NumberOverflow,
                }
            }),
    {
        let d0 = (first as u32 - '0' as u32) as u64;
        let mut num: i64 = d0 as i64;
        let mut overflow: bool = false;
        proof {
            let s = old(self).input@;
            let p = old(self).position as int;
            assert(seq![first] + s.subrange(p, p) =~= seq![first]);
            assert(seq![first].drop_last() =~= Seq::<char>::empty());
            assert(digits_val(Seq::<char>::empty()) == 0);
            assert(digits_val(seq![first] + s.subrange(p, p)) == digit_val(first));
        }
        loop
            invariant
                self.input == old(self).input,
                old(self).position <= self.position <= self.input@.len(),
                digit_end(self.input@, self.position as int) == digit_end(
                    old(self).input@,
                    old(self).position as int,
                ),
                ({
                    let run = seq![first] + old(self).input@.subrange(
                        old(self).position as int,
                        self.position as int,
                    );
                    &&& digits_val(run) >= 0
                    &&& (!overflow ==> num == digits_val(run) && num <= i64::MAX)
                    &&& (overflow ==> digits_val(run) > i64::MAX)
                }),
            ensures
                self.input == old(self).input,
                old(self).position <= self.position <= self.input@.len(),
                digit_end(self.input@, self.position as int) == digit_end(
                    old(self).input@,
                    old(self).position as int,
                ),
                ({
                    let run = seq![first] + old(self).input@.subrange(
                        old(self).position as int,
                        self.position as int,
                    );
                    &&& (!overflow ==> num == digits_val(run) && num <= i64::MAX)
                    &&& (overflow ==> digits_val(run) > i64::MAX)
                }),
                (match self.spec_peek() {
                    Some(c) => !is_digit_char(c),
                    None => true,
                }),
            decreases self.input@.len() - self.position,
        {
            match self.peek() {
                Some(c) => {
                    if is_digit(c) {
                        let d: i64 = ((c as u32 - '0' as u32) as u64) as i64;
                        proof {
                            let s = old(self).input@;
                            let p0 = old(self).position as int;
                            let q = self.position as int;
                            let run_old = seq![first] + s.subrange(p0, q);
                            assert(s.subrange(p0, q + 1) =~= s.subrange(p0, q).push(s[q]));
                            assert(seq![first] + s.subrange(p0, q + 1) =~= run_old.push(s[q]));
                            assert(run_old.push(s[q]).drop_last() =~= run_old);
                            assert(digits_val(run_old.push(s[q])) == digits_val(run_old) * 10
                                + digit_val(s[q]));
                        }
                        if !overflow {
                            if num > (i64::MAX - d) / 10 {
                                overflow = true;
                                proof {
                                    assert(num * 10 + d > i64::MAX) by {
                                        let m = i64::MAX - d;
                                        assert(10 * (m / 10) + m % 10 == m);
                                    };
                                }
                            } else {
                                proof {
                                    assert(num * 10 + d <= i64::MAX) by {
                                        let m = i64::MAX - d;
                                        assert(10 * (m / 10) + m % 10 == m);
                                    };
                                }
                                num = num * 10 + d;
                            }
                        }
                        self.advance();
                    } else {
                        break ;
                    }
                },
                None => {
                    break ;
                },
            }
        }
        if overflow {
            Err(LexError::NumberOverflow)
        } else {
            Ok(Tokens::Number(num))
        }
    }

    /// Consume the letter run whose first letter was already consumed, and
    /// yield the keyword token it spells, or else its identifier token.
    pub fn lex_ident(&mut self, first: char) -> (t: Tokens)
        requires
            old(self).position <= old(self).input@.len(),
        ensures
            ({
                let s = old(self).input@;
                let p = old(self).position as int;
                let j = alpha_end(s, p);
                &&& final(self).input == old(self).input
                &&& final(self).position == j
                &&& t@ == kw_or_ident(seq![first] + s.subrange(p, j))
            }),
    {
        let mut word = String::new();
        push_char(&mut word, first);
        proof {
            let s = old(self).input@;
            let p = old(self).position as int;
            assert(Seq::<char>::empty() + seq![first] =~= seq![first]);
            assert(seq![first] + s.subrange(p, p) =~= seq![first]);
        }
        loop
            invariant
                self.input == old(self).input,
                old(self).position <= self.position <= self.input@.len(),
                alpha_end(self.input@, self.position as int) == alpha_end(
                    old(self).input@,
                    old(self).position as int,
                ),
                word@ == seq![first] + old(self).input@.subrange(
                    old(self).position as int,
                    self.position as int,
                ),
            ensures
                self.input == old(self).input,
                old(self).position <= self.position <= self.input@.len(),
                alpha_end(self.input@, self.position as int) == alpha_end(
                    old(self).input@,
                    old(self).position as int,
                ),
                word@ == seq![first] + old(self).input@.subrange(
                    old(self).position as int,
                    self.position as int,
                ),
                (match self.spec_peek() {
                    Some(c) => !is_alpha_char(c),
                    None => true,
                }),
            decreases self.input@.len() - self.position,
        {
            match self.peek() {
                Some(c) => {
                    if is_alpha(c) {
                        push_char(&mut word, c);
                        proof {
                            let s = old(self).input@;
                            let p0 = old(self).position as int;
                            let q = self.position as int;
                            assert(s.subrange(p0, q + 1) =~= s.subrange(p0, q).push(s[q]));
                            assert(seq![first] + s.subrange(p0, q + 1) =~= (seq![first]
                                + s.subrange(p0, q)).push(s[q]));
                        }
                        self.advance();
                    } else {
                        break ;
                    }
                },
                None => {
                    break ;
                },
            }
        }
        let ret_kw = String::from_str("return");
        let var_kw = String::from_str("var");
        if word == ret_kw {
            Tokens::Return
        } else if word == var_kw {
            Tokens::Var
        } else {
            Tokens::Ident(word)
        }
    }

    /// Skip whitespace and consume one token: the next token of the
    /// remaining input, or the end-of-input marker at its end.
    pub fn next_token(&mut self) -> (r: Result<Tokens, LexError>)
        requires
            old(self).position <= old(self).input@.len(),
        ensures
            ({
                let s = old(self).input@;
                let p = old(self).position as int;
                &&& final(self).input == old(self).input
                &&& old(self).position <= final(self).position <= s.len()
                &&& match spec_next_token(s, p) {
                    Ok((tv, j)) => match r {
                        Ok(t) => t@ == tv && final(self).position == j && (!(tv is EOF)
                            ==> final(self).position > old(self).position),
                        Err(_) => false,
                    },
                    Err(e) => match r {
                        Ok(_) => false,
                        Err(e2) => e2 == e,
                    },
                }
            }),
    {
        proof {
            lemma_skip_ws_end_bounds(old(self).input@, old(self).position as int);
        }
        self.skip_white_space();
        let ghost s = self.input@;
        let ghost i = self.position as int;
        match self.advance() {
            Some(ch) => {
                if is_digit(ch) {
                    proof {
                        lemma_digit_end_bounds(s, i + 1);
                        assert(s.subrange(i, digit_end(s, i)) =~= seq![s[i]] + s.subrange(
                            i + 1,
                            digit_end(s, i + 1),
                        ));
                    }
                    self.lex_number(ch)
                } else if is_alpha(ch) {
                    proof {
                        lemma_alpha_end_bounds(s, i + 1);
                        assert(s.subrange(i, alpha_end(s, i)) =~= seq![s[i]] + s.subrange(
                            i + 1,
                            alpha_end(s, i + 1),
                        ));
                    }
                    Ok(self.lex_ident(ch))
                } else if ch == ';' {
                    Ok(Tokens::SemiColon)
                } else if ch == '+' {
                    Ok(Tokens::Plus)
                } else if ch == '-' {
                    Ok(Tokens::Minus)
                } else if ch == '*' {
                    Ok(Tokens::Star)
                } else if ch == '/' {
                    Ok(Tokens::Slash)
                } else if ch == '(' {
                    Ok(Tokens::LParen)
                } else if ch == ')' {
                    Ok(Tokens::RParen)
                } else if ch == '=' {
                    Ok(Tokens::Assign)
                } else {
                    Err(LexError::UnrecognizedChar(ch))
                }
            },
            None => Ok(Tokens::EOF),
        }
    }
}

/// Turn a whole source text into its token sequence, ending in exactly one
/// end-of-input marker, or report the first lexical fault.
#[verifier::loop_isolation(false)]
pub fn tokenize(file_contents: String) -> (r: Result<Vec<Tokens>, LexError>)
    ensures
        ({
            let s = file_contents@;
            match r {
                Ok(toks) => spec_tokenize_from(s, 0) == Ok::<Seq<TokenView>, LexError>(
                    toks_view(toks@),
                ),
                Err(e) => spec_tokenize_from(s, 0) == Err::<Seq<TokenView>, LexError>(e),
            }
        }),
{
    let ghost s = file_contents@;
    let mut tokens: Vec<Tokens> = Vec::new();
    let mut lexer = Lexer::new(file_contents);
    proof {
        assert(toks_view(tokens@) =~= Seq::<TokenView>::empty());
        if spec_tokenize_from(s, 0) is Ok {
            assert(toks_view(tokens@) + spec_tokenize_from(s, 0)->Ok_0 =~= spec_tokenize_from(
                s,
                0,
            )->Ok_0);
        }
    }
    loop
        invariant
            lexer.input@ == s,
            lexer.position <= s.len(),
            (match spec_tokenize_from(s, lexer.position as int) {
                Ok(rest) => spec_tokenize_from(s, 0) == Ok::<Seq<TokenView>, LexError>(
                    toks_view(tokens@) + rest,
                ),
                Err(e) => spec_tokenize_from(s, 0) == Err::<Seq<TokenView>, LexError>(e),
            }),
        decreases s.len() - lexer.position,
    {
        let ghost p = lexer.position as int;
        let token = lexer.next_token();
        match token {
            Ok(t) => {
                let is_eof = matches!(t, Tokens::EOF);
                proof {
                    let (tv, j) = spec_next_token(s, p)->Ok_0;
                    assert(t@ == tv);
                    assert(is_eof == (tv is EOF));
                    if !is_eof {
                        let j2 = if p + 1 <= j && j <= s.len() {
                            j
                        } else {
                            p + 1
                        };
                        assert(j2 == j);
                        assert(toks_view(tokens@.push(t)) =~= toks_view(tokens@).push(tv));
                        if spec_tokenize_from(s, j) is Ok {
                            let rest2 = spec_tokenize_from(s, j)->Ok_0;
                            assert(toks_view(tokens@) + (seq![tv] + rest2) =~= toks_view(
                                tokens@.push(t),
                            ) + rest2);
                        }
                    } else {
                        assert(toks_view(tokens@.push(t)) =~= toks_view(tokens@) + seq![
                            TokenView::EOF,
                        ]);
                        assert(spec_tokenize_from(s, p) == Ok::<Seq<TokenView>, LexError>(
                            seq![TokenView::EOF],
                        ));
                        assert(spec_tokenize_from(s, 0) == Ok::<Seq<TokenView>, LexError>(
                            toks_view(tokens@.push(t)),
                        ));
                    }
                }
                tokens.push(t);
                if is_eof {
                    return Ok(tokens);
                }
            },
            Err(e) => {
                proof {
                    assert(spec_tokenize_from(s, p) == Err::<Seq<TokenView>, LexError>(e));
                }
                return Err(e);
            },
        }
    }
}

} // verus!
