//! The lexer: from SQL text to tokens.
//!
//! The lexer works on the characters of its input. Its meaning is given by
//! `lex_from`, a function on character sequences; `Lexer::tokenize` computes it.
use super::token::{Token, TokenV, tokens_view};
use crate::text::{
    ascii_digit, ascii_whitespace, char_alphabetic, char_alphanumeric, chars_eq, chars_of,
    is_ascii_digit, is_ascii_whitespace, string_of, uppercase, uppercase_chars,
};
use vstd::prelude::*;
use vstd::utf8::{encode_scalar, encode_utf8};

verus! {

/// A lexical error. The position is a byte offset into the input.
#[derive(Debug, Clone, Copy, PartialEq, Eq)]
pub enum LexerError {
    UnexpectedChar(char, usize),
    UnterminatedString,
}

// ── The meaning of lexing ────────────────────────────────────────────────────

/// The number of bytes that the UTF-8 encoding of `s[..i]` takes.
pub open spec fn byte_offset(s: Seq<char>, i: int) -> nat {
    encode_utf8(s.take(i)).len()
}

/// The first index at or after `i` that does not hold ASCII whitespace.
pub open spec fn scan_whitespace(s: Seq<char>, i: int) -> int
    decreases s.len() - i,
{
    if 0 <= i < s.len() && is_ascii_whitespace(s[i]) {
        scan_whitespace(s, i + 1)
    } else {
        i
    }
}

/// The first index at or after `i` that does not hold an ASCII digit.
pub open spec fn scan_digits(s: Seq<char>, i: int) -> int
    decreases s.len() - i,
{
    if 0 <= i < s.len() && is_ascii_digit(s[i]) {
        scan_digits(s, i + 1)
    } else {
        i
    }
}

/// Whether a character may continue an identifier.
pub open spec fn is_ident_char(c: char) -> bool {
    char_alphanumeric(c) || c == '_'
}

/// The first index at or after `i` that cannot continue an identifier.
pub open spec fn scan_ident(s: Seq<char>, i: int) -> int
    decreases s.len() - i,
{
    if 0 <= i < s.len() && is_ident_char(s[i]) {
        scan_ident(s, i + 1)
    } else {
        i
    }
}

/// The index of the first quote at or after `i`, if there is one.
pub open spec fn find_quote(s: Seq<char>, i: int) -> Option<int>
    decreases s.len() - i,
{
    if i < 0 || i >= s.len() {
        None
    } else if s[i] == '\'' {
        Some(i)
    } else {
        find_quote(s, i + 1)
    }
}

/// The decimal value of the digits `s[a..b]`.
pub open spec fn digits_value(s: Seq<char>, a: int, b: int) -> int
    decreases b - a,
{
    if b <= a {
        0
    } else {
        digits_value(s, a, b - 1) * 10 + (s[b - 1] as int - '0' as int)
    }
}

/// The keyword that an upper-cased word spells, if any.
pub open spec fn keyword(u: Seq<char>) -> Option<TokenV> {
    if u == seq!['C', 'R', 'E', 'A', 'T', 'E'] {
        Some(TokenV::Create)
    } else if u == seq!['T', 'A', 'B', 'L', 'E'] {
        Some(TokenV::Table)
    } else if u == seq!['I', 'N', 'S', 'E', 'R', 'T'] {
        Some(TokenV::Insert)
    } else if u == seq!['I', 'N', 'T', 'O'] {
        Some(TokenV::Into)
    } else if u == seq!['V', 'A', 'L', 'U', 'E', 'S'] {
        Some(TokenV::Values)
    } else if u == seq!['S', 'E', 'L', 'E', 'C', 'T'] {
        Some(TokenV::Select)
    } else if u == seq!['F', 'R', 'O', 'M'] {
        Some(TokenV::From)
    } else if u == seq!['W', 'H', 'E', 'R', 'E'] {
        Some(TokenV::Where)
    } else if u == seq!['A', 'N', 'D'] {
        Some(TokenV::And)
    } else if u == seq!['O', 'R'] {
        Some(TokenV::Or)
    } else if u == seq!['N', 'O', 'T'] {
        Some(TokenV::Not)
    } else if u == seq!['N', 'U', 'L', 'L'] {
        Some(TokenV::Null)
    } else if u == seq!['U', 'P', 'D', 'A', 'T', 'E'] {
        Some(TokenV::Update)
    } else if u == seq!['S', 'E', 'T'] {
        Some(TokenV::SetKw)
    } else if u == seq!['D', 'E', 'L', 'E', 'T', 'E'] {
        Some(TokenV::Delete)
    } else if u == seq!['O', 'R', 'D', 'E', 'R'] {
        Some(TokenV::Order)
    } else if u == seq!['B', 'Y'] {
        Some(TokenV::By)
    } else if u == seq!['A', 'S', 'C'] {
        Some(TokenV::Asc)
    } else if u == seq!['D', 'E', 'S', 'C'] {
        Some(TokenV::Desc)
    } else if u == seq!['L', 'I', 'M', 'I', 'T'] {
        Some(TokenV::Limit)
    } else if u == seq!['J', 'O', 'I', 'N'] {
        Some(TokenV::Join)
    } else if u == seq!['I', 'N', 'N', 'E', 'R'] {
        Some(TokenV::Inner)
    } else if u == seq!['L', 'E', 'F', 'T'] {
        Some(TokenV::Left)
    } else if u == seq!['R', 'I', 'G', 'H', 'T'] {
        Some(TokenV::Right)
    } else if u == seq!['O', 'N'] {
        Some(TokenV::On)
    } else {
        None
    }
}

/// The token that a word denotes: a keyword, compared without regard to case,
/// or else an identifier.
pub open spec fn word_token(word: Seq<char>) -> TokenV {
    match keyword(uppercase(word)) {
        Some(t) => t,
        None => TokenV::Ident(word),
    }
}

/// The outcome of reading one token.
pub enum LexStep {
    /// A token, and the index just after it.
    Token(TokenV, int),
    /// A lexical error.
    Error(LexerError),
    /// An integer literal whose value does not fit in an `i64`.
    Overflow,
}

/// Whether an integer literal starts at `i`: a digit, or a minus sign
/// followed by a digit.
pub open spec fn starts_number(s: Seq<char>, i: int) -> bool {
    is_ascii_digit(s[i]) || (s[i] == '-' && i + 1 < s.len() && is_ascii_digit(s[i + 1]))
}

/// The value of the integer literal that starts at `i`, and its end.
pub open spec fn number_at(s: Seq<char>, i: int) -> (int, int) {
    if s[i] == '-' {
        let end = scan_digits(s, i + 1);
        (-digits_value(s, i + 1, end), end)
    } else {
        let end = scan_digits(s, i);
        (digits_value(s, i, end), end)
    }
}

/// Reading the token that starts at index `i`, a non-whitespace character.
pub open spec fn lex_step(s: Seq<char>, i: int) -> LexStep {
    let c = s[i];
    let next_is = |d: char| i + 1 < s.len() && s[i + 1] == d;
    if c == '\'' {
        match find_quote(s, i + 1) {
            Some(j) => LexStep::Token(TokenV::TextLiteral(s.subrange(i + 1, j)), j + 1),
            None => LexStep::Error(LexerError::UnterminatedString),
        }
    } else if starts_number(s, i) {
        let (v, end) = number_at(s, i);
        if i64::MIN <= v <= i64::MAX {
            LexStep::Token(TokenV::IntLiteral(v as i64), end)
        } else {
            LexStep::Overflow
        }
    } else if char_alphabetic(c) || c == '_' {
        let end = scan_ident(s, i);
        LexStep::Token(word_token(s.subrange(i, end)), end)
    } else if c == '!' {
        if next_is('=') {
            LexStep::Token(TokenV::NotEq, i + 2)
        } else {
            LexStep::Error(LexerError::UnexpectedChar('!', byte_offset(s, i + 1) as usize))
        }
    } else if c == '<' {
        if next_is('=') {
            LexStep::Token(TokenV::Lte, i + 2)
        } else {
            LexStep::Token(TokenV::Lt, i + 1)
        }
    } else if c == '>' {
        if next_is('=') {
            LexStep::Token(TokenV::Gte, i + 2)
        } else {
            LexStep::Token(TokenV::Gt, i + 1)
        }
    } else if c == '=' {
        LexStep::Token(TokenV::Eq, i + 1)
    } else if c == '(' {
        LexStep::Token(TokenV::LParen, i + 1)
    } else if c == ')' {
        LexStep::Token(TokenV::RParen, i + 1)
    } else if c == ',' {
        LexStep::Token(TokenV::Comma, i + 1)
    } else if c == ';' {
        LexStep::Token(TokenV::Semicolon, i + 1)
    } else if c == '*' {
        LexStep::Token(TokenV::Star, i + 1)
    } else if c == '.' {
        LexStep::Token(TokenV::Dot, i + 1)
    } else {
        LexStep::Error(LexerError::UnexpectedChar(c, byte_offset(s, i + 1) as usize))
    }
}

/// The outcome of lexing a text.
pub enum LexOutcome {
    /// The tokens of the text.
    Tokens(Seq<TokenV>),
    /// The first lexical error.
    Failed(LexerError),
    /// An integer literal does not fit in an `i64`.
    Overflow,
}

/// `o` with the tokens `pre` put in front of its tokens.
pub open spec fn prepend(pre: Seq<TokenV>, o: LexOutcome) -> LexOutcome {
    match o {
        LexOutcome::Tokens(ts) => LexOutcome::Tokens(pre + ts),
        other => other,
    }
}

/// Lexing the text `s` from index `i`: skip whitespace, read a token, repeat.
pub open spec fn lex_from(s: Seq<char>, i: int) -> LexOutcome
    decreases s.len() - i,
{
    let j = scan_whitespace(s, i);
    if j >= s.len() || j < 0 {
        LexOutcome::Tokens(seq![])
    } else {
        match lex_step(s, j) {
            LexStep::Token(t, k) => if i < k <= s.len() {
                prepend(seq![t], lex_from(s, k))
            } else {
                LexOutcome::Tokens(seq![])
            },
            LexStep::Error(e) => LexOutcome::Failed(e),
            LexStep::Overflow => LexOutcome::Overflow,
        }
    }
}

// ── Lemmas ───────────────────────────────────────────────────────────────────

proof fn lemma_prepend_prepend(a: Seq<TokenV>, b: Seq<TokenV>, o: LexOutcome)
    ensures
        prepend(a, prepend(b, o)) == prepend(a + b, o),
{
    match o {
        LexOutcome::Tokens(ts) => {
            assert(a + (b + ts) =~= (a + b) + ts);
        },
        _ => {},
    }
}

proof fn lemma_encode_concat(a: Seq<char>, b: Seq<char>)
    ensures
        encode_utf8(a + b) == encode_utf8(a) + encode_utf8(b),
    decreases a.len(),
{
    if a.len() == 0 {
        assert(a + b =~= b);
        assert(encode_utf8(a) =~= seq![]);
        assert(encode_utf8(a) + encode_utf8(b) =~= encode_utf8(b));
    } else {
        assert((a + b).drop_first() =~= a.drop_first() + b);
        lemma_encode_concat(a.drop_first(), b);
        assert(encode_utf8(a + b) =~= encode_utf8(a) + encode_utf8(b));
    }
}

proof fn lemma_byte_offset_step(s: Seq<char>, p: int)
    requires
        0 <= p < s.len(),
    ensures
        byte_offset(s, p + 1) == byte_offset(s, p) + encode_scalar(s[p] as u32).len(),
        byte_offset(s, p + 1) <= encode_utf8(s).len(),
{
    assert(s.take(p + 1) =~= s.take(p) + seq![s[p]]);
    lemma_encode_concat(s.take(p), seq![s[p]]);
    assert(seq![s[p]].drop_first() =~= Seq::<char>::empty());
    assert(encode_utf8(seq![s[p]]) =~= encode_scalar(s[p] as u32) + encode_utf8(
        Seq::<char>::empty(),
    ));
    assert(s =~= s.take(p + 1) + s.skip(p + 1));
    lemma_encode_concat(s.take(p + 1), s.skip(p + 1));
}

proof fn lemma_scan_whitespace_bounds(s: Seq<char>, i: int)
    requires
        0 <= i <= s.len(),
    ensures
        i <= scan_whitespace(s, i) <= s.len(),
        scan_whitespace(s, i) < s.len() ==> !is_ascii_whitespace(s[scan_whitespace(s, i)]),
    decreases s.len() - i,
{
    if i < s.len() && is_ascii_whitespace(s[i]) {
        lemma_scan_whitespace_bounds(s, i + 1);
    }
}

proof fn lemma_scan_digits_bounds(s: Seq<char>, i: int)
    requires
        0 <= i <= s.len(),
    ensures
        i <= scan_digits(s, i) <= s.len(),
        forall|k: int| i <= k < scan_digits(s, i) ==> is_ascii_digit(#[trigger] s[k]),
    decreases s.len() - i,
{
    if i < s.len() && is_ascii_digit(s[i]) {
        lemma_scan_digits_bounds(s, i + 1);
    }
}

proof fn lemma_scan_ident_bounds(s: Seq<char>, i: int)
    requires
        0 <= i <= s.len(),
    ensures
        i <= scan_ident(s, i) <= s.len(),
    decreases s.len() - i,
{
    if i < s.len() && is_ident_char(s[i]) {
        lemma_scan_ident_bounds(s, i + 1);
    }
}

proof fn lemma_find_quote_bounds(s: Seq<char>, i: int)
    requires
        0 <= i,
    ensures
        find_quote(s, i) matches Some(j) ==> i <= j < s.len() && s[j] == '\'',
    decreases s.len() - i,
{
    if i < s.len() && s[i] != '\'' {
        lemma_find_quote_bounds(s, i + 1);
    }
}

/// Digit values grow as the run of digits grows.
proof fn lemma_digits_value_mono(s: Seq<char>, a: int, b: int, c: int)
    requires
        a <= b <= c,
        forall|k: int| a <= k < c ==> is_ascii_digit(#[trigger] s[k]),
    ensures
        0 <= digits_value(s, a, b) <= digits_value(s, a, c),
    decreases c - b,
{
    if b < c {
        lemma_digits_value_mono(s, a, b, c - 1);
        lemma_digits_value_nonneg(s, a, c - 1);
        assert(s[c - 1] as int - '0' as int >= 0);
    } else {
        lemma_digits_value_nonneg(s, a, b);
    }
}

proof fn lemma_digits_value_nonneg(s: Seq<char>, a: int, b: int)
    requires
        forall|k: int| a <= k < b ==> is_ascii_digit(#[trigger] s[k]),
    ensures
        0 <= digits_value(s, a, b),
    decreases b - a,
{
    if b > a {
        lemma_digits_value_nonneg(s, a, b - 1);
        assert(s[b - 1] as int - '0' as int >= 0);
    }
}

/// A token that is read ends after its start and within the text.
proof fn lemma_lex_step_progress(s: Seq<char>, i: int)
    requires
        0 <= i < s.len(),
    ensures
        lex_step(s, i) matches LexStep::Token(_, k) ==> i <= k <= s.len(),
        lex_step(s, i) matches LexStep::Token(_, k) ==> (i < k || (s[i] != '\'' && !starts_number(
            s,
            i,
        ) && char_alphabetic(s[i]))),
{
    let c = s[i];
    if c == '\'' {
        lemma_find_quote_bounds(s, i + 1);
    } else if starts_number(s, i) {
        if c == '-' {
            lemma_scan_digits_bounds(s, i + 2);
            lemma_scan_digits_bounds(s, i + 1);
        } else {
            lemma_scan_digits_bounds(s, i + 1);
            lemma_scan_digits_bounds(s, i);
        }
    } else if char_alphabetic(c) || c == '_' {
        lemma_scan_ident_bounds(s, i);
        if c == '_' {
            lemma_scan_ident_bounds(s, i + 1);
        }
    }
}

// ── The lexer ────────────────────────────────────────────────────────────────

/// The width in bytes of a character's UTF-8 encoding.
fn utf8_width(c: char) -> (w: usize)
    ensures
        w == encode_scalar(c as u32).len(),
{
    proof {
        vstd::utf8::char_is_scalar(c);
    }
    let u = c as u32;
    if u <= 0x7F {
        1
    } else if u <= 0x7FF {
        2
    } else if u <= 0xFFFF {
        3
    } else {
        4
    }
}

/// A lexer over a text; it reads the text once, from the start.
pub struct Lexer<'a> {
    input: &'a str,
    chars: Vec<char>,
    pos: usize,
    byte_pos: usize,
}

impl<'a> Lexer<'a> {
    /// The characters of the text.
    pub closed spec fn source(&self) -> Seq<char> {
        self.input@
    }

    /// The index of the next character to read.
    pub closed spec fn position(&self) -> int {
        self.pos as int
    }

    /// The lexer's fields agree with one another.
    pub closed spec fn wf(&self) -> bool {
        &&& self.chars@ == self.input@
        &&& self.pos <= self.chars.len()
        &&& self.byte_pos == byte_offset(self.chars@, self.pos as int)
        &&& encode_utf8(self.chars@).len() <= usize::MAX
    }

    /// A lexer at the start of `input`.
    pub fn new(input: &'a str) -> (lexer: Self)
        requires
            encode_utf8(input@).len() <= usize::MAX,
        ensures
            lexer.wf(),
            lexer.source() == input@,
            lexer.position() == 0,
    {
        let chars = chars_of(input);
        assert(chars@.take(0) =~= Seq::<char>::empty());
        Lexer { input, chars, pos: 0, byte_pos: 0 }
    }

    /// Reads the whole text: the tokens in order, or the first lexical error.
    pub fn tokenize(self) -> (r: Result<Vec<Token>, LexerError>)
        requires
            self.wf(),
            !(lex_from(self.source(), self.position()) is Overflow),
        ensures
            match lex_from(self.source(), self.position()) {
                LexOutcome::Tokens(ts) => r matches Ok(v) && tokens_view(v@) == ts,
                LexOutcome::Failed(e) => r == Err::<Vec<Token>, LexerError>(e),
                LexOutcome::Overflow => false,
            },
    {
        let ghost s = self.source();
        let ghost start = self.position();
        let mut lexer = self;
        let mut tokens: Vec<Token> = Vec::new();
        loop
            invariant_except_break
                lexer.wf(),
                lexer.source() == s,
                start <= lexer.position(),
                lex_from(s, start) == prepend(tokens_view(tokens@), lex_from(s, lexer.position())),
                !(lex_from(s, start) is Overflow),
                s == self.source(),
                start == self.position(),
            ensures
                s == self.source(),
                start == self.position(),
                lex_from(s, start) == LexOutcome::Tokens(tokens_view(tokens@)),
            decreases s.len() - lexer.position(),
        {
            let ghost before = lexer.position();
            lexer.skip_whitespace();
            proof {
                lemma_scan_whitespace_bounds(s, before);
            }
            if lexer.pos >= lexer.chars.len() {
                proof {
                    assert(lex_from(s, before) == LexOutcome::Tokens(seq![]));
                    assert(tokens_view(tokens@) + seq![] =~= tokens_view(tokens@));
                }
                break;
            }
            let ghost j = lexer.position();
            proof {
                lemma_lex_step_progress(s, j);
                assert(!(lex_step(s, j) is Overflow));
            }
            let tok = lexer.next_token();
            match tok {
                Ok(t) => {
                    let ghost prev = tokens@;
                    tokens.push(t);
                    proof {
                        assert(tokens_view(tokens@) =~= tokens_view(prev) + seq![t@]);
                        lemma_prepend_prepend(
                            tokens_view(prev),
                            seq![t@],
                            lex_from(s, lexer.position()),
                        );
                    }
                },
                Err(e) => {
                    proof {
                        assert(lex_from(s, before) == LexOutcome::Failed(e));
                    }
                    return Err(e);
                },
            }
        }
        Ok(tokens)
    }

    /// Whether the token at the current position is an integer literal that
    /// does not fit in an `i64`.
    fn number_overflows(&self) -> (r: bool)
        requires
            self.wf(),
            self.pos < self.chars.len(),
        ensures
            r == (lex_step(self.source(), self.position()) is Overflow),
    {
        let ghost s = self.source();
        let ghost i = self.position();
        let ch = self.chars[self.pos];
        if ch == '\'' {
            return false;
        }
        let negative = ch == '-';
        if !(ascii_digit(ch) || (negative && self.next_is_digit())) {
            return false;
        }
        let d0: usize = if negative {
            self.pos + 1
        } else {
            self.pos
        };
        let limit: u64 = if negative {
            0x8000_0000_0000_0000u64
        } else {
            0x7fff_ffff_ffff_ffffu64
        };
        let ghost end = scan_digits(s, d0 as int);
        proof {
            lemma_scan_digits_bounds(s, d0 as int);
            lemma_digits_value_mono(s, d0 as int, end, end);
        }
        let mut k: usize = d0;
        let mut magnitude: u64 = 0;
        while k < self.chars.len() && ascii_digit(self.chars[k])
            invariant
                self.wf(),
                s == self.source(),
                d0 <= k <= end,
                end == scan_digits(s, d0 as int),
                d0 <= end <= s.len(),
                scan_digits(s, k as int) == end,
                forall|x: int| d0 <= x < end ==> is_ascii_digit(#[trigger] s[x]),
                magnitude == digits_value(s, d0 as int, k as int),
                magnitude <= limit,
                limit >= 9,
                0 <= i < s.len(),
                i == self.position(),
                s[i] != '\'',
                starts_number(s, i),
                d0 == (if s[i] == '-' {
                    i + 1
                } else {
                    i
                }),
                limit == (if s[i] == '-' {
                    0x8000_0000_0000_0000u64
                } else {
                    0x7fff_ffff_ffff_ffffu64
                }),
            decreases self.chars.len() - k,
        {
            let x: u64 = (self.chars[k] as u32 - 48) as u64;
            assert(digits_value(s, d0 as int, k + 1) == digits_value(s, d0 as int, k as int) * 10
                + x);
            if magnitude > (limit - x) / 10 {
                proof {
                    assert(magnitude * 10 + x > limit) by (nonlinear_arith)
                        requires
                            magnitude > (limit - x) / 10,
                            x <= 9,
                            limit >= 9,
                    ;
                    assert(scan_digits(s, k as int) == scan_digits(s, k + 1));
                    lemma_scan_digits_bounds(s, k + 1);
                    lemma_digits_value_mono(s, d0 as int, k + 1, end);
                    assert(digits_value(s, d0 as int, end) > limit);
                    assert(number_at(s, i).1 == end);
                }
                return true;
            }
            proof {
                assert(magnitude * 10 + x <= limit) by (nonlinear_arith)
                    requires
                        magnitude <= (limit - x) / 10,
                        x <= 9,
                ;
                assert(scan_digits(s, k as int) == scan_digits(s, k + 1));
                lemma_scan_digits_bounds(s, k + 1);
            }
            magnitude = magnitude * 10 + x;
            k = k + 1;
        }
        proof {
            if k < s.len() {
                assert(!is_ascii_digit(s[k as int]));
            }
            assert(scan_digits(s, k as int) == k);
        }
        false
    }

    /// Reads the whole text as `tokenize` does; `None` where an integer
    /// literal does not fit in an `i64`.
    pub fn tokenize_checked(self) -> (r: Option<Result<Vec<Token>, LexerError>>)
        requires
            self.wf(),
        ensures
            match lex_from(self.source(), self.position()) {
                LexOutcome::Tokens(ts) => r matches Some(Ok(v)) && tokens_view(v@) == ts,
                LexOutcome::Failed(e) => r == Some(Err::<Vec<Token>, LexerError>(e)),
                LexOutcome::Overflow => r is None,
            },
    {
        let ghost s = self.source();
        let ghost start = self.position();
        let mut lexer = self;
        let mut tokens: Vec<Token> = Vec::new();
        loop
            invariant_except_break
                lexer.wf(),
                lexer.source() == s,
                start <= lexer.position(),
                lex_from(s, start) == prepend(tokens_view(tokens@), lex_from(s, lexer.position())),
                s == self.source(),
                start == self.position(),
            ensures
                s == self.source(),
                start == self.position(),
                lex_from(s, start) == LexOutcome::Tokens(tokens_view(tokens@)),
            decreases s.len() - lexer.position(),
        {
            let ghost before = lexer.position();
            lexer.skip_whitespace();
            proof {
                lemma_scan_whitespace_bounds(s, before);
            }
            if lexer.pos >= lexer.chars.len() {
                proof {
                    assert(lex_from(s, before) == LexOutcome::Tokens(seq![]));
                    assert(tokens_view(tokens@) + seq![] =~= tokens_view(tokens@));
                }
                break;
            }
            let ghost j = lexer.position();
            proof {
                lemma_lex_step_progress(s, j);
            }
            if lexer.number_overflows() {
                proof {
                    assert(lex_from(s, before) == LexOutcome::Overflow);
                }
                return None;
            }
            let tok = lexer.next_token();
            match tok {
                Ok(t) => {
                    let ghost prev = tokens@;
                    tokens.push(t);
                    proof {
                        assert(tokens_view(tokens@) =~= tokens_view(prev) + seq![t@]);
                        lemma_prepend_prepend(
                            tokens_view(prev),
                            seq![t@],
                            lex_from(s, lexer.position()),
                        );
                    }
                },
                Err(e) => {
                    proof {
                        assert(lex_from(s, before) == LexOutcome::Failed(e));
                    }
                    return Some(Err(e));
                },
            }
        }
        Some(Ok(tokens))
    }

    fn peek(&self) -> (r: Option<char>)
        requires
            self.wf(),
        ensures
            r == (if self.pos < self.chars.len() {
                Some(self.source()[self.position()])
            } else {
                None
            }),
    {
        if self.pos < self.chars.len() {
            Some(self.chars[self.pos])
        } else {
            None
        }
    }

    fn peek_is(&self, c: char) -> (r: bool)
        requires
            self.wf(),
        ensures
            r == (self.position() < self.source().len() && self.source()[self.position()] == c),
    {
        self.pos < self.chars.len() && self.chars[self.pos] == c
    }

    fn advance(&mut self) -> (r: Option<char>)
        requires
            old(self).wf(),
        ensures
            final(self).wf(),
            final(self).source() == old(self).source(),
            r == (if old(self).pos < old(self).chars.len() {
                Some(old(self).source()[old(self).position()])
            } else {
                None
            }),
            final(self).position() == (if old(self).pos < old(self).chars.len() {
                old(self).position() + 1
            } else {
                old(self).position()
            }),
    {
        if self.pos < self.chars.len() {
            let c = self.chars[self.pos];
            proof {
                lemma_byte_offset_step(self.chars@, self.pos as int);
            }
            self.byte_pos = self.byte_pos + utf8_width(c);
            self.pos = self.pos + 1;
            Some(c)
        } else {
            None
        }
    }

    fn skip_whitespace(&mut self)
        requires
            old(self).wf(),
        ensures
            final(self).wf(),
            final(self).source() == old(self).source(),
            final(self).position() == scan_whitespace(old(self).source(), old(self).position()),
    {
        let ghost s = self.source();
        let ghost p0 = self.position();
        loop
            invariant
                self.wf(),
                self.source() == s,
                scan_whitespace(s, self.position()) == scan_whitespace(s, p0),
            ensures
                self.wf(),
                self.source() == s,
                self.position() == scan_whitespace(s, p0),
            decreases s.len() - self.position(),
        {
            match self.peek() {
                Some(c) => {
                    if ascii_whitespace(c) {
                        self.advance();
                    } else {
                        break;
                    }
                },
                None => {
                    break;
                },
            }
        }
    }

    fn next_token(&mut self) -> (r: Result<Token, LexerError>)
        requires
            old(self).wf(),
            old(self).pos < old(self).chars.len(),
            !is_ascii_whitespace(old(self).source()[old(self).position()]),
            !(lex_step(old(self).source(), old(self).position()) is Overflow),
        ensures
            final(self).wf(),
            final(self).source() == old(self).source(),
            r is Ok ==> final(self).position() > old(self).position(),
            match lex_step(old(self).source(), old(self).position()) {
                LexStep::Token(t, k) => r matches Ok(tok) && tok@ == t && final(self).position()
                    == k,
                LexStep::Error(e) => r == Err::<Token, LexerError>(e),
                LexStep::Overflow => false,
            },
    {
        let ghost s = self.source();
        let ghost i = self.position();
        proof {
            lemma_lex_step_progress(s, i);
        }
        let ch = self.chars[self.pos];
        if ch == '\'' {
            return self.read_string();
        }
        if ascii_digit(ch) || (ch == '-' && self.next_is_digit()) {
            return Ok(self.read_number());
        }
        if ch.is_alphabetic() || ch == '_' {
            return Ok(self.read_ident_or_keyword());
        }
        if ch == '!' {
            self.advance();
            if self.peek_is('=') {
                self.advance();
                return Ok(Token::NotEq);
            }
            return Err(LexerError::UnexpectedChar('!', self.byte_pos));
        }
        if ch == '<' {
            self.advance();
            if self.peek_is('=') {
                self.advance();
                return Ok(Token::Lte);
            }
            return Ok(Token::Lt);
        }
        if ch == '>' {
            self.advance();
            if self.peek_is('=') {
                self.advance();
                return Ok(Token::Gte);
            }
            return Ok(Token::Gt);
        }
        self.advance();
        match ch {
            '=' => Ok(Token::Eq),
            '(' => Ok(Token::LParen),
            ')' => Ok(Token::RParen),
            ',' => Ok(Token::Comma),
            ';' => Ok(Token::Semicolon),
            '*' => Ok(Token::Star),
            '.' => Ok(Token::Dot),
            other => Err(LexerError::UnexpectedChar(other, self.byte_pos)),
        }
    }

    fn next_is_digit(&self) -> (r: bool)
        requires
            self.wf(),
        ensures
            r == (self.position() + 1 < self.source().len() && is_ascii_digit(
                self.source()[self.position() + 1],
            )),
    {
        self.pos < self.chars.len() && self.pos + 1 < self.chars.len() && ascii_digit(
            self.chars[self.pos + 1],
        )
    }

    fn read_number(&mut self) -> (t: Token)
        requires
            old(self).wf(),
            old(self).pos < old(self).chars.len(),
            starts_number(old(self).source(), old(self).position()),
            i64::MIN <= number_at(old(self).source(), old(self).position()).0 <= i64::MAX,
        ensures
            final(self).wf(),
            final(self).source() == old(self).source(),
            t@ == TokenV::IntLiteral(number_at(old(self).source(), old(self).position()).0 as i64),
            final(self).position() == number_at(old(self).source(), old(self).position()).1,
    {
        let ghost s = self.source();
        let ghost i = self.position();
        let negative = self.chars[self.pos] == '-';
        if negative {
            self.advance();
        }
        let ghost d0 = self.position();
        let ghost end = scan_digits(s, d0);
        proof {
            lemma_scan_digits_bounds(s, d0);
            lemma_digits_value_mono(s, d0, end, end);
        }
        let mut magnitude: u64 = 0;
        loop
            invariant
                self.wf(),
                self.source() == s,
                d0 <= self.position() <= end,
                scan_digits(s, self.position()) == end,
                end == scan_digits(s, d0),
                d0 <= end <= s.len(),
                forall|k: int| d0 <= k < end ==> is_ascii_digit(#[trigger] s[k]),
                magnitude == digits_value(s, d0, self.position()),
                number_at(s, i) == (if negative {
                    (-digits_value(s, d0, end), end)
                } else {
                    (digits_value(s, d0, end), end)
                }),
                i64::MIN <= number_at(s, i).0 <= i64::MAX,
            ensures
                self.wf(),
                self.source() == s,
                self.position() == end,
                magnitude == digits_value(s, d0, end),
            decreases s.len() - self.position(),
        {
            match self.peek() {
                Some(c) => {
                    if ascii_digit(c) {
                        let ghost p = self.position();
                        proof {
                            lemma_scan_digits_bounds(s, p + 1);
                            assert(scan_digits(s, p) == scan_digits(s, p + 1));
                            lemma_digits_value_mono(s, d0, p + 1, end);
                        }
                        let d = (c as u32 - '0' as u32) as u64;
                        assert(digits_value(s, d0, p + 1) == digits_value(s, d0, p) * 10 + d);
                        magnitude = magnitude * 10 + d;
                        self.advance();
                    } else {
                        break;
                    }
                },
                None => {
                    break;
                },
            }
        }
        if negative {
            if magnitude == 0x8000_0000_0000_0000u64 {
                Token::IntLiteral(i64::MIN)
            } else {
                Token::IntLiteral(-(magnitude as i64))
            }
        } else {
            Token::IntLiteral(magnitude as i64)
        }
    }

    fn read_string(&mut self) -> (r: Result<Token, LexerError>)
        requires
            old(self).wf(),
            old(self).pos < old(self).chars.len(),
            old(self).source()[old(self).position()] == '\'',
        ensures
            final(self).wf(),
            final(self).source() == old(self).source(),
            match find_quote(old(self).source(), old(self).position() + 1) {
                Some(j) => r matches Ok(tok) && tok@ == TokenV::TextLiteral(
                    old(self).source().subrange(old(self).position() + 1, j),
                ) && final(self).position() == j + 1,
                None => r == Err::<Token, LexerError>(LexerError::UnterminatedString),
            },
    {
        let ghost s = self.source();
        let ghost i = self.position();
        self.advance();
        let mut text = String::new();
        loop
            invariant_except_break
                self.wf(),
                self.source() == s,
                old(self).source() == s,
                old(self).position() == i,
                i + 1 <= self.position(),
                find_quote(s, self.position()) == find_quote(s, i + 1),
                text@ == s.subrange(i + 1, self.position()),
            ensures
                self.wf(),
                self.source() == s,
                old(self).source() == s,
                old(self).position() == i,
                find_quote(s, i + 1) == Some(self.position() - 1),
                text@ == s.subrange(i + 1, self.position() - 1),
            decreases s.len() - self.position(),
        {
            let ghost p = self.position();
            let next = self.advance();
            match next {
                None => {
                    return Err(LexerError::UnterminatedString);
                },
                Some(c) => {
                    if c == '\'' {
                        break;
                    }
                    let ghost before = text@;
                    text.push(c);
                    assert(c == s[p]);
                    assert(text@ == before.push(c));
                    assert(text@ =~= s.subrange(i + 1, self.position()));
                },
            }
        }
        Ok(Token::TextLiteral(text))
    }

    fn read_ident_or_keyword(&mut self) -> (t: Token)
        requires
            old(self).wf(),
            old(self).pos < old(self).chars.len(),
            char_alphabetic(old(self).source()[old(self).position()]) || old(self).source()[old(
                self,
            ).position()] == '_',
        ensures
            final(self).position() > old(self).position(),
            final(self).wf(),
            final(self).source() == old(self).source(),
            t@ == word_token(
                old(self).source().subrange(
                    old(self).position(),
                    scan_ident(old(self).source(), old(self).position()),
                ),
            ),
            final(self).position() == scan_ident(old(self).source(), old(self).position()),
    {
        let ghost s = self.source();
        let start = self.pos;
        loop
            invariant
                self.wf(),
                self.source() == s,
                start <= self.position(),
                scan_ident(s, self.position()) == scan_ident(s, start as int),
                start < s.len(),
                char_alphabetic(s[start as int]) || s[start as int] == '_',
            ensures
                self.wf(),
                self.source() == s,
                self.position() > start,
                self.position() == scan_ident(s, start as int),
            decreases s.len() - self.position(),
        {
            match self.peek() {
                Some(c) => {
                    if c.is_alphanumeric() || c == '_' {
                        self.advance();
                    } else {
                        break;
                    }
                },
                None => {
                    break;
                },
            }
        }
        let word = string_of(&self.chars, start, self.pos);
        let upper = uppercase_chars(&word);
        match keyword_token(&upper) {
            Some(t) => t,
            None => Token::Ident(word),
        }
    }
}

/// The keyword token that an upper-cased word spells, if any.
fn keyword_token(u: &Vec<char>) -> (r: Option<Token>)
    ensures
        match keyword(u@) {
            Some(t) => r matches Some(tok) && tok@ == t,
            None => r is None,
        },
{
    let w = u.as_slice();
    if chars_eq(w, &['C', 'R', 'E', 'A', 'T', 'E']) {
        Some(Token::Create)
    } else if chars_eq(w, &['T', 'A', 'B', 'L', 'E']) {
        Some(Token::Table)
    } else if chars_eq(w, &['I', 'N', 'S', 'E', 'R', 'T']) {
        Some(Token::Insert)
    } else if chars_eq(w, &['I', 'N', 'T', 'O']) {
        Some(Token::Into)
    } else if chars_eq(w, &['V', 'A', 'L', 'U', 'E', 'S']) {
        Some(Token::Values)
    } else if chars_eq(w, &['S', 'E', 'L', 'E', 'C', 'T']) {
        Some(Token::Select)
    } else if chars_eq(w, &['F', 'R', 'O', 'M']) {
        Some(Token::From)
    } else if chars_eq(w, &['W', 'H', 'E', 'R', 'E']) {
        Some(Token::Where)
    } else if chars_eq(w, &['A', 'N', 'D']) {
        Some(Token::And)
    } else if chars_eq(w, &['O', 'R']) {
        Some(Token::Or)
    } else if chars_eq(w, &['N', 'O', 'T']) {
        Some(Token::Not)
    } else if chars_eq(w, &['N', 'U', 'L', 'L']) {
        Some(Token::Null)
    } else if chars_eq(w, &['U', 'P', 'D', 'A', 'T', 'E']) {
        Some(Token::Update)
    } else if chars_eq(w, &['S', 'E', 'T']) {
        Some(Token::SetKw)
    } else if chars_eq(w, &['D', 'E', 'L', 'E', 'T', 'E']) {
        Some(Token::Delete)
    } else if chars_eq(w, &['O', 'R', 'D', 'E', 'R']) {
        Some(Token::Order)
    } else if chars_eq(w, &['B', 'Y']) {
        Some(Token::By)
    } else if chars_eq(w, &['A', 'S', 'C']) {
        Some(Token::Asc)
    } else if chars_eq(w, &['D', 'E', 'S', 'C']) {
        Some(Token::Desc)
    } else if chars_eq(w, &['L', 'I', 'M', 'I', 'T']) {
        Some(Token::Limit)
    } else if chars_eq(w, &['J', 'O', 'I', 'N']) {
        Some(Token::Join)
    } else if chars_eq(w, &['I', 'N', 'N', 'E', 'R']) {
        Some(Token::Inner)
    } else if chars_eq(w, &['L', 'E', 'F', 'T']) {
        Some(Token::Left)
    } else if chars_eq(w, &['R', 'I', 'G', 'H', 'T']) {
        Some(Token::Right)
    } else if chars_eq(w, &['O', 'N']) {
        Some(Token::On)
    } else {
        None
    }
}

} // verus!
