//! The lexer: source bytes to a stream of tokens.
use vstd::prelude::*;
use vstd::utf8::*;
use vstd::string::*;
use crate::token::{Token, TokenType, lookup_ident, spec_lookup_ident};
use crate::text::push_char;

verus! {

broadcast use vstd::seq::group_seq_axioms;

/// The byte at `i`, or 0 past either end of `s`.
pub open spec fn byte_at(s: Seq<u8>, i: int) -> u8 {
    if 0 <= i < s.len() {
        s[i]
    } else {
        0
    }
}

/// The position after `p`; the end of the input stays where it is.
pub open spec fn advance(s: Seq<u8>, p: int) -> int {
    if p < s.len() {
        p + 1
    } else {
        s.len() as int
    }
}

/// ASCII letters and `_`.
pub open spec fn is_letter(c: u8) -> bool {
    (97 <= c <= 122) || (65 <= c <= 90) || c == 95
}

/// ASCII decimal digits.
pub open spec fn is_digit(c: u8) -> bool {
    48 <= c <= 57
}

/// Space, tab, newline and carriage return.
pub open spec fn is_whitespace(c: u8) -> bool {
    c == 32 || c == 9 || c == 10 || c == 13
}

/// The first position at or after `p` that holds no whitespace.
pub open spec fn skip_whitespace(s: Seq<u8>, p: int) -> int
    decreases s.len() - p,
{
    if 0 <= p < s.len() && is_whitespace(s[p]) {
        skip_whitespace(s, p + 1)
    } else {
        p
    }
}

/// The end of the run of letters that starts at `p`.
pub open spec fn letters_end(s: Seq<u8>, p: int) -> int
    decreases s.len() - p,
{
    if 0 <= p < s.len() && is_letter(s[p]) {
        letters_end(s, p + 1)
    } else {
        p
    }
}

/// The end of the run of digits that starts at `p`.
pub open spec fn digits_end(s: Seq<u8>, p: int) -> int
    decreases s.len() - p,
{
    if 0 <= p < s.len() && is_digit(s[p]) {
        digits_end(s, p + 1)
    } else {
        p
    }
}

/// The first position at or after `p` that holds a `"`, a zero byte, or is the end.
pub open spec fn string_end(s: Seq<u8>, p: int) -> int
    decreases s.len() - p,
{
    if 0 <= p < s.len() && s[p] != 34 && s[p] != 0 {
        string_end(s, p + 1)
    } else {
        p
    }
}

/// The characters of ASCII bytes.
pub open spec fn ascii_text(b: Seq<u8>) -> Seq<char> {
    Seq::new(b.len(), |i: int| b[i] as char)
}

/// The kind of the one-byte token `c`; `Illegal` for a byte that starts no token.
pub open spec fn single_byte_kind(c: u8) -> TokenType {
    if c == 43 {
        TokenType::Plus
    } else if c == 45 {
        TokenType::Minus
    } else if c == 47 {
        TokenType::Slash
    } else if c == 42 {
        TokenType::Asterisk
    } else if c == 60 {
        TokenType::Lt
    } else if c == 62 {
        TokenType::Gt
    } else if c == 59 {
        TokenType::Semicolon
    } else if c == 44 {
        TokenType::Comma
    } else if c == 40 {
        TokenType::LParen
    } else if c == 41 {
        TokenType::RParen
    } else if c == 123 {
        TokenType::LBrace
    } else if c == 125 {
        TokenType::RBrace
    } else if c == 91 {
        TokenType::LBracket
    } else if c == 93 {
        TokenType::RBracket
    } else if c == 58 {
        TokenType::Colon
    } else {
        TokenType::Illegal
    }
}

/// The token that starts at or after position `p` of `s`: its kind, its text,
/// and the position where the next token is looked for.
pub open spec fn next_token_spec(s: Seq<u8>, p: int) -> (TokenType, Seq<char>, int) {
    let q = skip_whitespace(s, p);
    let c = byte_at(s, q);
    if c == 61 {
        if byte_at(s, q + 1) == 61 {
            (TokenType::Eq, seq!['=', '='], advance(s, q + 1))
        } else {
            (TokenType::Assign, seq!['='], advance(s, q))
        }
    } else if c == 33 {
        if byte_at(s, q + 1) == 61 {
            (TokenType::NotEq, seq!['!', '='], advance(s, q + 1))
        } else {
            (TokenType::Bang, seq!['!'], advance(s, q))
        }
    } else if c == 0 {
        (TokenType::Eof, Seq::empty(), advance(s, q))
    } else if c == 34 {
        let e = string_end(s, q + 1);
        (TokenType::String, decode_utf8(s.subrange(q + 1, e)), advance(s, e))
    } else if is_letter(c) {
        let e = letters_end(s, q);
        let w = ascii_text(s.subrange(q, e));
        (spec_lookup_ident(w), w, e)
    } else if is_digit(c) {
        let e = digits_end(s, q);
        (TokenType::Int, ascii_text(s.subrange(q, e)), e)
    } else {
        (single_byte_kind(c), seq![c as char], advance(s, q))
    }
}

/// How much of `s` is left to lex from position `p` on.
pub open spec fn remaining(s: Seq<u8>, p: int) -> nat {
    if p <= s.len() {
        (s.len() - p) as nat
    } else {
        0
    }
}

proof fn lemma_skip_whitespace_bounds(s: Seq<u8>, p: int)
    ensures
        skip_whitespace(s, p) >= p,
        p <= s.len() ==> skip_whitespace(s, p) <= s.len(),
        p < 0 ==> skip_whitespace(s, p) == p,
    decreases s.len() - p,
{
    if 0 <= p < s.len() && is_whitespace(s[p]) {
        lemma_skip_whitespace_bounds(s, p + 1);
    }
}

proof fn lemma_letters_end_bounds(s: Seq<u8>, p: int)
    ensures
        letters_end(s, p) >= p,
        p <= s.len() ==> letters_end(s, p) <= s.len(),
        0 <= p < s.len() && is_letter(s[p]) ==> letters_end(s, p) > p,
    decreases s.len() - p,
{
    if 0 <= p < s.len() && is_letter(s[p]) {
        lemma_letters_end_bounds(s, p + 1);
    }
}

proof fn lemma_digits_end_bounds(s: Seq<u8>, p: int)
    ensures
        digits_end(s, p) >= p,
        p <= s.len() ==> digits_end(s, p) <= s.len(),
        0 <= p < s.len() && is_digit(s[p]) ==> digits_end(s, p) > p,
    decreases s.len() - p,
{
    if 0 <= p < s.len() && is_digit(s[p]) {
        lemma_digits_end_bounds(s, p + 1);
    }
}

proof fn lemma_string_end_bounds(s: Seq<u8>, p: int)
    ensures
        string_end(s, p) >= p,
        p <= s.len() ==> string_end(s, p) <= s.len(),
    decreases s.len() - p,
{
    if 0 <= p < s.len() && s[p] != 34 && s[p] != 0 {
        lemma_string_end_bounds(s, p + 1);
    }
}

/// Lexing never moves backwards through the input, only an `Eof` token can
/// be had without consuming input, and an `Eof` token has no text.
pub proof fn lemma_next_token_progress(s: Seq<u8>, p: int)
    ensures
        remaining(s, next_token_spec(s, p).2) <= remaining(s, p),
        next_token_spec(s, p).0 != TokenType::Eof ==> remaining(s, next_token_spec(s, p).2)
            < remaining(s, p),
        next_token_spec(s, p).0 == TokenType::Eof ==> next_token_spec(s, p).1 == Seq::<char>::empty(),
        0 <= p <= s.len() ==> p <= next_token_spec(s, p).2 <= s.len(),
{
    let q = skip_whitespace(s, p);
    lemma_skip_whitespace_bounds(s, p);
    lemma_letters_end_bounds(s, q);
    lemma_digits_end_bounds(s, q);
    lemma_string_end_bounds(s, q + 1);
    if 0 <= q + 1 {
        lemma_string_end_bounds(s, q + 1);
    }
}

/// At the end of the input the lexer gives `Eof` and stays where it is.
pub proof fn lemma_next_token_at_end(s: Seq<u8>)
    ensures
        next_token_spec(s, s.len() as int) == (TokenType::Eof, Seq::<char>::empty(), s.len() as int),
{
}

/// The bytes that words are made of: ASCII letters, upper and lower case,
/// and `_`.
pub open spec fn word_byte(c: u8) -> bool {
    (65 <= c && c <= 90) || (97 <= c && c <= 122) || c == 95
}

proof fn lemma_letters_end_run(s: Seq<u8>, p: int)
    requires
        0 <= p <= s.len(),
    ensures
        p <= letters_end(s, p) <= s.len(),
        forall|j: int| p <= j < letters_end(s, p) ==> word_byte(#[trigger] s[j]),
        letters_end(s, p) == s.len() || !word_byte(s[letters_end(s, p)]),
    decreases s.len() - p,
{
    if p < s.len() && is_letter(s[p]) {
        lemma_letters_end_run(s, p + 1);
    }
}

/// A token that starts with an ASCII letter (upper or lower case) or `_` is
/// a word: an identifier or a keyword, spelled by the whole run of letters
/// and underscores that starts there, and never `ILLEGAL`.
pub proof fn lemma_words(s: Seq<u8>, p: int)
    requires
        0 <= p <= s.len(),
        skip_whitespace(s, p) < s.len(),
        word_byte(s[skip_whitespace(s, p)]),
    ensures
        ({
            let q = skip_whitespace(s, p);
            let t = next_token_spec(s, p);
            &&& t.0 == TokenType::Ident || t.0 == TokenType::Function || t.0 == TokenType::Let
                || t.0 == TokenType::True || t.0 == TokenType::False || t.0 == TokenType::If
                || t.0 == TokenType::Else || t.0 == TokenType::Return
            &&& q < t.2 <= s.len()
            &&& forall|j: int| q <= j < t.2 ==> word_byte(#[trigger] s[j])
            &&& t.2 == s.len() || !word_byte(s[t.2])
            &&& t.1.len() == t.2 - q
            &&& forall|j: int| 0 <= j < t.1.len() ==> #[trigger] t.1[j] == s[q + j] as char
        }),
{
    let q = skip_whitespace(s, p);
    lemma_skip_whitespace_bounds(s, p);
    lemma_letters_end_run(s, q);
    lemma_letters_end_bounds(s, q);
}

proof fn lemma_digits_end_run(s: Seq<u8>, p: int)
    requires
        0 <= p <= s.len(),
    ensures
        p <= digits_end(s, p) <= s.len(),
        forall|j: int| p <= j < digits_end(s, p) ==> 48 <= #[trigger] s[j] <= 57,
        digits_end(s, p) == s.len() || !(48 <= s[digits_end(s, p)] <= 57),
    decreases s.len() - p,
{
    if p < s.len() && is_digit(s[p]) {
        lemma_digits_end_run(s, p + 1);
    }
}

/// A token that starts with a decimal digit is an integer literal spelled by
/// the whole run of digits that starts there.
pub proof fn lemma_numbers(s: Seq<u8>, p: int)
    requires
        0 <= p <= s.len(),
        skip_whitespace(s, p) < s.len(),
        48 <= s[skip_whitespace(s, p)] <= 57,
    ensures
        ({
            let q = skip_whitespace(s, p);
            let t = next_token_spec(s, p);
            &&& t.0 == TokenType::Int
            &&& q < t.2 <= s.len()
            &&& forall|j: int| q <= j < t.2 ==> 48 <= #[trigger] s[j] <= 57
            &&& t.2 == s.len() || !(48 <= s[t.2] <= 57)
            &&& t.1.len() == t.2 - q
            &&& forall|j: int| 0 <= j < t.1.len() ==> #[trigger] t.1[j] == s[q + j] as char
        }),
{
    let q = skip_whitespace(s, p);
    lemma_skip_whitespace_bounds(s, p);
    lemma_digits_end_run(s, q);
    lemma_digits_end_bounds(s, q);
}

/// Operators and punctuation: `==` and `!=` are read as one token when the
/// second character follows at once, `=` and `!` otherwise; each of
/// `+ - * / < > , ; : ( ) { } [ ]` is a token of its own kind.
pub proof fn lemma_operators(s: Seq<u8>, p: int)
    requires
        0 <= p <= s.len(),
        skip_whitespace(s, p) < s.len(),
    ensures
        ({
            let q = skip_whitespace(s, p);
            let c = s[q];
            let next_is_eq = q + 1 < s.len() && s[q + 1] == 61;
            let k = next_token_spec(s, p).0;
            &&& c == 61 ==> k == (if next_is_eq { TokenType::Eq } else { TokenType::Assign })
            &&& c == 33 ==> k == (if next_is_eq { TokenType::NotEq } else { TokenType::Bang })
            &&& c == 43 ==> k == TokenType::Plus
            &&& c == 45 ==> k == TokenType::Minus
            &&& c == 42 ==> k == TokenType::Asterisk
            &&& c == 47 ==> k == TokenType::Slash
            &&& c == 60 ==> k == TokenType::Lt
            &&& c == 62 ==> k == TokenType::Gt
            &&& c == 44 ==> k == TokenType::Comma
            &&& c == 59 ==> k == TokenType::Semicolon
            &&& c == 58 ==> k == TokenType::Colon
            &&& c == 40 ==> k == TokenType::LParen
            &&& c == 41 ==> k == TokenType::RParen
            &&& c == 123 ==> k == TokenType::LBrace
            &&& c == 125 ==> k == TokenType::RBrace
            &&& c == 91 ==> k == TokenType::LBracket
            &&& c == 93 ==> k == TokenType::RBracket
        }),
{
    lemma_skip_whitespace_bounds(s, p);
}

/// Turns source text into tokens, one call of `next_token` at a time.
pub struct Lexer {
    input: Vec<u8>,
    position: usize,
    ch: u8,
}

/// Decodes UTF-8 bytes into a string (`String::from_utf8_lossy`).
/// Claimed: on valid UTF-8 the result holds exactly the decoded characters.
/// Not claimed: what invalid input gives (the lexer never hands it any).
#[verifier::external_body]
fn utf8_to_string(b: &[u8]) -> (r: String)
    ensures
        valid_utf8(b@) ==> r@ == decode_utf8(b@),
{
    String::from_utf8_lossy(b).into_owned()
}

proof fn lemma_ascii_boundary(s: Seq<u8>, i: int)
    requires
        valid_utf8(s),
        0 <= i <= s.len(),
        i < s.len() ==> s[i] < 128,
    ensures
        is_char_boundary(s, i),
{
    if i < s.len() {
        is_char_boundary_iff_not_is_continuation_byte(s, i);
    } else {
        is_char_boundary_start_end_of_seq(s);
    }
}

/// The text between the quote at `q` and the position `e` is valid UTF-8
/// when `e` holds a quote, a zero byte, or is the end.
proof fn lemma_string_body_valid(s: Seq<u8>, q: int, e: int)
    requires
        valid_utf8(s),
        0 <= q < e <= s.len(),
        s[q] == 34,
        e < s.len() ==> (s[e] == 34 || s[e] == 0),
    ensures
        valid_utf8(s.subrange(q + 1, e)),
{
    lemma_ascii_boundary(s, q);
    valid_utf8_split(s, q);
    let t = s.subrange(q, s.len() as int);
    lemma_ascii_boundary(t, e - q);
    valid_utf8_split(t, e - q);
    let u = t.subrange(0, e - q);
    assert(u =~= s.subrange(q, e));
    assert(valid_utf8(u));
    assert(pop_first_scalar(u) =~= s.subrange(q + 1, e));
}

impl Lexer {
    /// Well-formedness: the position is within the input, `ch` is the byte
    /// there (0 at the end), and the input is valid UTF-8.
    pub closed spec fn wf(&self) -> bool {
        &&& self.position <= self.input.len()
        &&& self.ch == byte_at(self.input@, self.position as int)
        &&& valid_utf8(self.input@)
    }

    /// The bytes being lexed.
    pub closed spec fn source(&self) -> Seq<u8> {
        self.input@
    }

    /// The position of the next byte to look at.
    pub closed spec fn pos(&self) -> int {
        self.position as int
    }

    /// A well-formed lexer stands within its input.
    pub proof fn lemma_pos_bounds(&self)
        requires
            self.wf(),
        ensures
            0 <= self.pos() <= self.source().len(),
    {
    }

    /// A lexer over the UTF-8 bytes of `input`, at its start.
    pub fn new(input: &str) -> (l: Lexer)
        ensures
            l.wf(),
            l.source() == input.spec_bytes(),
            l.pos() == 0,
    {
        let bytes = vstd::slice::slice_to_vec(input.as_bytes());
        proof {
            encode_utf8_valid_utf8(input@);
        }
        Self::from_bytes(bytes)
    }

    /// A lexer over `input`, which must be valid UTF-8, at its start.
    pub fn from_bytes(input: Vec<u8>) -> (l: Lexer)
        requires
            valid_utf8(input@),
        ensures
            l.wf(),
            l.source() == input@,
            l.pos() == 0,
    {
        let ch = if input.len() > 0 {
            input[0]
        } else {
            0
        };
        Lexer { input, position: 0, ch }
    }

    fn read_char(&mut self)
        requires
            old(self).wf(),
        ensures
            final(self).wf(),
            final(self).input@ == old(self).input@,
            final(self).position == advance(old(self).input@, old(self).position as int),
    {
        if self.position < self.input.len() {
            self.position = self.position + 1;
        }
        self.ch = if self.position < self.input.len() {
            self.input[self.position]
        } else {
            0
        };
    }

    fn peek_char(&self) -> (c: u8)
        requires
            self.wf(),
        ensures
            c == byte_at(self.input@, self.position + 1),
    {
        if self.position < self.input.len() && self.position + 1 < self.input.len() {
            self.input[self.position + 1]
        } else {
            0
        }
    }

    fn skip_whitespace(&mut self)
        requires
            old(self).wf(),
        ensures
            final(self).wf(),
            final(self).input@ == old(self).input@,
            final(self).position == skip_whitespace(old(self).input@, old(self).position as int),
    {
        while self.ch == 32 || self.ch == 9 || self.ch == 10 || self.ch == 13
            invariant
                self.wf(),
                self.input@ == old(self).input@,
                skip_whitespace(self.input@, self.position as int) == skip_whitespace(
                    old(self).input@,
                    old(self).position as int,
                ),
            decreases self.input.len() - self.position,
        {
            self.read_char();
        }
    }

    fn read_identifier(&mut self) -> (w: String)
        requires
            old(self).wf(),
        ensures
            final(self).wf(),
            final(self).input@ == old(self).input@,
            final(self).position == letters_end(old(self).input@, old(self).position as int),
            w@ == ascii_text(old(self).input@.subrange(old(self).position as int, final(self).position as int)),
    {
        let start = self.position;
        let mut w = String::new();
        while self.ch == 95 || (97 <= self.ch && self.ch <= 122) || (65 <= self.ch && self.ch <= 90)
            invariant
                self.wf(),
                self.input@ == old(self).input@,
                start == old(self).position,
                start <= self.position,
                letters_end(self.input@, self.position as int) == letters_end(
                    self.input@,
                    start as int,
                ),
                w@ == ascii_text(self.input@.subrange(start as int, self.position as int)),
            decreases self.input.len() - self.position,
        {
            push_char(&mut w, self.ch as char);
            self.read_char();
            assert(w@ =~= ascii_text(self.input@.subrange(start as int, self.position as int)));
        }
        w
    }

    fn read_number(&mut self) -> (w: String)
        requires
            old(self).wf(),
        ensures
            final(self).wf(),
            final(self).input@ == old(self).input@,
            final(self).position == digits_end(old(self).input@, old(self).position as int),
            w@ == ascii_text(old(self).input@.subrange(old(self).position as int, final(self).position as int)),
    {
        let start = self.position;
        let mut w = String::new();
        while 48 <= self.ch && self.ch <= 57
            invariant
                self.wf(),
                self.input@ == old(self).input@,
                start == old(self).position,
                start <= self.position,
                digits_end(self.input@, self.position as int) == digits_end(
                    self.input@,
                    start as int,
                ),
                w@ == ascii_text(self.input@.subrange(start as int, self.position as int)),
            decreases self.input.len() - self.position,
        {
            push_char(&mut w, self.ch as char);
            self.read_char();
            assert(w@ =~= ascii_text(self.input@.subrange(start as int, self.position as int)));
        }
        w
    }

    fn read_string(&mut self) -> (w: String)
        requires
            old(self).wf(),
            old(self).ch == 34,
        ensures
            final(self).wf(),
            final(self).input@ == old(self).input@,
            final(self).position == string_end(old(self).input@, old(self).position + 1),
            w@ == decode_utf8(old(self).input@.subrange(old(self).position + 1, final(self).position as int)),
    {
        let q = self.position;
        self.read_char();
        while self.ch != 34 && self.ch != 0
            invariant
                self.wf(),
                self.input@ == old(self).input@,
                q == old(self).position,
                q < self.position,
                string_end(self.input@, self.position as int) == string_end(
                    self.input@,
                    q + 1,
                ),
            decreases self.input.len() - self.position,
        {
            self.read_char();
        }
        let e = self.position;
        proof {
            lemma_string_body_valid(self.input@, q as int, e as int);
        }
        let body = vstd::slice::slice_subrange(self.input.as_slice(), q + 1, e);
        utf8_to_string(body)
    }

    /// Lexes the next token. At the end of the input every call gives `Eof`.
    pub fn next_token(&mut self) -> (tok: Token)
        requires
            old(self).wf(),
        ensures
            final(self).wf(),
            final(self).source() == old(self).source(),
            (tok.ttype, tok.literal@, final(self).pos()) == next_token_spec(
                old(self).source(),
                old(self).pos(),
            ),
    {
        self.skip_whitespace();
        let c = self.ch;
        let mut lit = String::new();
        let ttype;
        if c == 61 {
            push_char(&mut lit, '=');
            if self.peek_char() == 61 {
                self.read_char();
                push_char(&mut lit, '=');
                ttype = TokenType::Eq;
            } else {
                ttype = TokenType::Assign;
            }
        } else if c == 33 {
            push_char(&mut lit, '!');
            if self.peek_char() == 61 {
                self.read_char();
                push_char(&mut lit, '=');
                ttype = TokenType::NotEq;
            } else {
                ttype = TokenType::Bang;
            }
        } else if c == 0 {
            ttype = TokenType::Eof;
        } else if c == 34 {
            lit = self.read_string();
            ttype = TokenType::String;
        } else if c == 95 || (97 <= c && c <= 122) || (65 <= c && c <= 90) {
            let w = self.read_identifier();
            let t = lookup_ident(w.as_str());
            return Token::new(t, w);
        } else if 48 <= c && c <= 57 {
            let w = self.read_number();
            return Token::new(TokenType::Int, w);
        } else {
            push_char(&mut lit, c as char);
            ttype = single_byte_kind_exec(c);
        }
        self.read_char();
        proof {
            assert(lit@ =~= next_token_spec(old(self).source(), old(self).pos()).1);
        }
        Token::new(ttype, lit)
    }
}

fn single_byte_kind_exec(c: u8) -> (t: TokenType)
    ensures
        t == single_byte_kind(c),
{
    match c {
        43 => TokenType::Plus,
        45 => TokenType::Minus,
        47 => TokenType::Slash,
        42 => TokenType::Asterisk,
        60 => TokenType::Lt,
        62 => TokenType::Gt,
        59 => TokenType::Semicolon,
        44 => TokenType::Comma,
        40 => TokenType::LParen,
        41 => TokenType::RParen,
        123 => TokenType::LBrace,
        125 => TokenType::RBrace,
        91 => TokenType::LBracket,
        93 => TokenType::RBracket,
        58 => TokenType::Colon,
        _ => TokenType::Illegal,
    }
}

} // verus!
