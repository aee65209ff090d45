//! The tokenizer: turns source text into the token sequence the parser
//! consumes.
//!
//! The executable lexer is specified against `lex_spec`, a mathematical
//! lexer over the source's character sequence.  Identifiers and keywords are
//! maximal letter runs, integer literals are maximal digit runs (a literal
//! too large for the integer type lexes as `ILLEGAL`), strings are delimited
//! by single quotes (an unterminated string lexes as `ILLEGAL` and consumes
//! the rest of the input), and whitespace separates tokens.  The sequence
//! always ends with `EOF`.

use std::collections::VecDeque;
use vstd::prelude::*;

verus! {

#[derive(Debug, PartialEq, Clone)]
pub enum Token {
    ILLEGAL,
    EOF,
    IDENT(String),
    INT(i64),
    STRING(String),
    ASSIGN,
    PLUS,
    MINUS,
    LT,
    GT,
    EQ,
    NEQ,
    BANG,
    ASTERISK,
    SLASH,
    COMMA,
    SEMICOLON,
    LPAREN,
    RPAREN,
    LBRACE,
    RBRACE,
    FN,
    LET,
    IF,
    ELSE,
    RETURN,
    TRUE,
    FALSE,
}

/// The mathematical value of a `Token`: text payloads become character
/// sequences.
pub enum TokenView {
    ILLEGAL,
    EOF,
    IDENT(Seq<char>),
    INT(i64),
    STRING(Seq<char>),
    ASSIGN,
    PLUS,
    MINUS,
    LT,
    GT,
    EQ,
    NEQ,
    BANG,
    ASTERISK,
    SLASH,
    COMMA,
    SEMICOLON,
    LPAREN,
    RPAREN,
    LBRACE,
    RBRACE,
    FN,
    LET,
    IF,
    ELSE,
    RETURN,
    TRUE,
    FALSE,
}

impl View for Token {
    type V = TokenView;

    open spec fn view(&self) -> TokenView {
        match self {
            Token::ILLEGAL => TokenView::ILLEGAL,
            Token::EOF => TokenView::EOF,
            Token::IDENT(s) => TokenView::IDENT(s@),
            Token::INT(v) => TokenView::INT(*v),
            Token::STRING(s) => TokenView::STRING(s@),
            Token::ASSIGN => TokenView::ASSIGN,
            Token::PLUS => TokenView::PLUS,
            Token::MINUS => TokenView::MINUS,
            Token::LT => TokenView::LT,
            Token::GT => TokenView::GT,
            Token::EQ => TokenView::EQ,
            Token::NEQ => TokenView::NEQ,
            Token::BANG => TokenView::BANG,
            Token::ASTERISK => TokenView::ASTERISK,
            Token::SLASH => TokenView::SLASH,
            Token::COMMA => TokenView::COMMA,
            Token::SEMICOLON => TokenView::SEMICOLON,
            Token::LPAREN => TokenView::LPAREN,
            Token::RPAREN => TokenView::RPAREN,
            Token::LBRACE => TokenView::LBRACE,
            Token::RBRACE => TokenView::RBRACE,
            Token::FN => TokenView::FN,
            Token::LET => TokenView::LET,
            Token::IF => TokenView::IF,
            Token::ELSE => TokenView::ELSE,
            Token::RETURN => TokenView::RETURN,
            Token::TRUE => TokenView::TRUE,
            Token::FALSE => TokenView::FALSE,
        }
    }
}

/// The views of a token sequence.
pub open spec fn toks_view(s: Seq<Token>) -> Seq<TokenView> {
    s.map_values(|t: Token| t@)
}

pub open spec fn is_letter_spec(c: char) -> bool {
    ('a' <= c && c <= 'z') || ('A' <= c && c <= 'Z') || c == '_'
}

pub open spec fn is_digit_spec(c: char) -> bool {
    '0' <= c && c <= '9'
}

pub open spec fn is_whitespace_spec(c: char) -> bool {
    c == ' ' || c == '\n' || c == '\r' || c == '\t'
}

/// The first position at or after `pos` that does not hold a letter.
pub open spec fn scan_letters(s: Seq<char>, pos: nat) -> nat
    decreases s.len() - pos,
    when pos <= s.len()
{
    if pos < s.len() && is_letter_spec(s[pos as int]) {
        scan_letters(s, pos + 1)
    } else {
        pos
    }
}

/// The first position at or after `pos` that does not hold a digit.
pub open spec fn scan_digits(s: Seq<char>, pos: nat) -> nat
    decreases s.len() - pos,
    when pos <= s.len()
{
    if pos < s.len() && is_digit_spec(s[pos as int]) {
        scan_digits(s, pos + 1)
    } else {
        pos
    }
}

/// The first position at or after `pos` holding a closing quote, or the end
/// of the input when there is none.
pub open spec fn scan_string(s: Seq<char>, pos: nat) -> nat
    decreases s.len() - pos,
    when pos <= s.len()
{
    if pos < s.len() && s[pos as int] != '\'' {
        scan_string(s, pos + 1)
    } else {
        pos
    }
}

pub proof fn lemma_scan_letters_bounds(s: Seq<char>, pos: nat)
    requires
        pos <= s.len(),
    ensures
        pos <= scan_letters(s, pos) <= s.len(),
    decreases s.len() - pos,
{
    if pos < s.len() && is_letter_spec(s[pos as int]) {
        lemma_scan_letters_bounds(s, pos + 1);
    }
}

pub proof fn lemma_scan_digits_bounds(s: Seq<char>, pos: nat)
    requires
        pos <= s.len(),
    ensures
        pos <= scan_digits(s, pos) <= s.len(),
    decreases s.len() - pos,
{
    if pos < s.len() && is_digit_spec(s[pos as int]) {
        lemma_scan_digits_bounds(s, pos + 1);
    }
}

pub proof fn lemma_scan_string_bounds(s: Seq<char>, pos: nat)
    requires
        pos <= s.len(),
    ensures
        pos <= scan_string(s, pos) <= s.len(),
    decreases s.len() - pos,
{
    if pos < s.len() && s[pos as int] != '\'' {
        lemma_scan_string_bounds(s, pos + 1);
    }
}

/// The keyword a letter run denotes, or an identifier when it is none.
pub open spec fn keyword_token(w: Seq<char>) -> TokenView {
    if w == seq!['l', 'e', 't'] {
        TokenView::LET
    } else if w == seq!['f', 'n'] {
        TokenView::FN
    } else if w == seq!['i', 'f'] {
        TokenView::IF
    } else if w == seq!['e', 'l', 's', 'e'] {
        TokenView::ELSE
    } else if w == seq!['r', 'e', 't', 'u', 'r', 'n'] {
        TokenView::RETURN
    } else if w == seq!['t', 'r', 'u', 'e'] {
        TokenView::TRUE
    } else if w == seq!['f', 'a', 'l', 's', 'e'] {
        TokenView::FALSE
    } else {
        TokenView::IDENT(w)
    }
}

/// The decimal value of a digit run.
pub open spec fn digits_val(s: Seq<char>) -> int
    decreases s.len(),
{
    if s.len() == 0 {
        0
    } else {
        digits_val(s.drop_last()) * 10 + (s.last() as int - '0' as int)
    }
}

/// The token a digit run denotes: its value, or `ILLEGAL` when the value
/// does not fit the integer type.
pub open spec fn int_token(w: Seq<char>) -> TokenView {
    if digits_val(w) <= i64::MAX {
        TokenView::INT(digits_val(w) as i64)
    } else {
        TokenView::ILLEGAL
    }
}

/// The single-character token a punctuation character denotes, if any.
pub open spec fn single_char_token(c: char) -> Option<TokenView> {
    if c == '{' {
        Some(TokenView::LBRACE)
    } else if c == '}' {
        Some(TokenView::RBRACE)
    } else if c == '(' {
        Some(TokenView::LPAREN)
    } else if c == ')' {
        Some(TokenView::RPAREN)
    } else if c == ';' {
        Some(TokenView::SEMICOLON)
    } else if c == ',' {
        Some(TokenView::COMMA)
    } else if c == '+' {
        Some(TokenView::PLUS)
    } else if c == '-' {
        Some(TokenView::MINUS)
    } else if c == '>' {
        Some(TokenView::GT)
    } else if c == '<' {
        Some(TokenView::LT)
    } else if c == '*' {
        Some(TokenView::ASTERISK)
    } else if c == '/' {
        Some(TokenView::SLASH)
    } else {
        None
    }
}

/// The token sequence lexed from position `pos` to the end of the input.
pub open spec fn lex_spec(s: Seq<char>, pos: nat) -> Seq<TokenView>
    decreases s.len() - pos,
    when pos <= s.len()
    via lex_spec_dec
{
    if pos >= s.len() {
        seq![TokenView::EOF]
    } else {
        let c = s[pos as int];
        if is_letter_spec(c) {
            let end = scan_letters(s, pos);
            seq![keyword_token(s.subrange(pos as int, end as int))] + lex_spec(s, end)
        } else if is_digit_spec(c) {
            let end = scan_digits(s, pos);
            seq![int_token(s.subrange(pos as int, end as int))] + lex_spec(s, end)
        } else if c == '=' {
            if pos + 1 < s.len() && s[pos as int + 1] == '=' {
                seq![TokenView::EQ] + lex_spec(s, pos + 2)
            } else if pos + 1 >= s.len() {
                seq![TokenView::EOF] + lex_spec(s, pos + 1)
            } else {
                seq![TokenView::ASSIGN] + lex_spec(s, pos + 1)
            }
        } else if c == '!' {
            if pos + 1 < s.len() && s[pos as int + 1] == '=' {
                seq![TokenView::NEQ] + lex_spec(s, pos + 2)
            } else if pos + 1 >= s.len() {
                seq![TokenView::EOF] + lex_spec(s, pos + 1)
            } else {
                seq![TokenView::BANG] + lex_spec(s, pos + 1)
            }
        } else if c == '\'' {
            let q = scan_string(s, pos + 1);
            if q < s.len() {
                seq![TokenView::STRING(s.subrange(pos as int + 1, q as int))] + lex_spec(s, q + 1)
            } else {
                seq![TokenView::ILLEGAL] + lex_spec(s, s.len())
            }
        } else if single_char_token(c) is Some {
            seq![single_char_token(c)->Some_0] + lex_spec(s, pos + 1)
        } else if is_whitespace_spec(c) {
            lex_spec(s, pos + 1)
        } else {
            seq![TokenView::ILLEGAL] + lex_spec(s, pos + 1)
        }
    }
}

#[via_fn]
proof fn lex_spec_dec(s: Seq<char>, pos: nat) {
    if pos < s.len() {
        if is_letter_spec(s[pos as int]) {
            lemma_scan_letters_bounds(s, pos + 1);
        }
        if is_digit_spec(s[pos as int]) {
            lemma_scan_digits_bounds(s, pos + 1);
        }
        if s[pos as int] == '\'' {
            lemma_scan_string_bounds(s, pos + 1);
        }
    }
}

/// Whether a character can begin or continue an identifier.
pub fn is_letter(ch: char) -> (r: bool)
    ensures
        r == is_letter_spec(ch),
{
    ('a' <= ch && ch <= 'z') || ('A' <= ch && ch <= 'Z') || '_' == ch
}

/// Whether a character is a decimal digit.
fn is_digit(ch: char) -> (r: bool)
    ensures
        r == is_digit_spec(ch),
{
    '0' <= ch && ch <= '9'
}

/// The character after `start_pos`, or the null character at the end of the
/// input.
fn peek_next_char(start_pos: usize, input: &str) -> (r: char)
    requires
        start_pos < input@.len(),
    ensures
        start_pos + 1 < input@.len() ==> r == input@[start_pos + 1],
        start_pos + 1 >= input@.len() ==> r == '\0',
{
    let n = input.unicode_len();
    if start_pos + 1 >= n {
        return  '\0';
    }
    input.get_char(start_pos + 1)
}

/// The keyword token a letter run denotes, or an `IDENT` carrying the run.
fn is_keyword(chars: &str) -> (t: Token)
    ensures
        t@ == keyword_token(chars@),
{
    let n = chars.unicode_len();
    if n == 3 && chars.get_char(0) == 'l' && chars.get_char(1) == 'e' && chars.get_char(2) == 't' {
        assert(chars@ =~= seq!['l', 'e', 't']);
        Token::LET
    } else if n == 2 && chars.get_char(0) == 'f' && chars.get_char(1) == 'n' {
        assert(chars@ =~= seq!['f', 'n']);
        Token::FN
    } else if n == 2 && chars.get_char(0) == 'i' && chars.get_char(1) == 'f' {
        assert(chars@ =~= seq!['i', 'f']);
        Token::IF
    } else if n == 4 && chars.get_char(0) == 'e' && chars.get_char(1) == 'l' && chars.get_char(2)
        == 's' && chars.get_char(3) == 'e' {
        assert(chars@ =~= seq!['e', 'l', 's', 'e']);
        Token::ELSE
    } else if n == 6 && chars.get_char(0) == 'r' && chars.get_char(1) == 'e' && chars.get_char(2)
        == 't' && chars.get_char(3) == 'u' && chars.get_char(4) == 'r' && chars.get_char(5)
        == 'n' {
        assert(chars@ =~= seq!['r', 'e', 't', 'u', 'r', 'n']);
        Token::RETURN
    } else if n == 4 && chars.get_char(0) == 't' && chars.get_char(1) == 'r' && chars.get_char(2)
        == 'u' && chars.get_char(3) == 'e' {
        assert(chars@ =~= seq!['t', 'r', 'u', 'e']);
        Token::TRUE
    } else if n == 5 && chars.get_char(0) == 'f' && chars.get_char(1) == 'a' && chars.get_char(2)
        == 'l' && chars.get_char(3) == 's' && chars.get_char(4) == 'e' {
        assert(chars@ =~= seq!['f', 'a', 'l', 's', 'e']);
        Token::FALSE
    } else {
        proof {
            assert(chars@ != seq!['l', 'e', 't'] && chars@ != seq!['f', 'n'] && chars@ != seq![
                'i',
                'f',
            ] && chars@ != seq!['e', 'l', 's', 'e'] && chars@ != seq!['r', 'e', 't', 'u', 'r', 'n']
                && chars@ != seq!['t', 'r', 'u', 'e'] && chars@ != seq!['f', 'a', 'l', 's', 'e']);
        }
        Token::IDENT(chars.to_owned())
    }
}

/// Read the maximal letter run starting at `start_pos`; returns the position
/// of its last character and its token.
fn read_letters(start_pos: usize, input: &str) -> (r: (usize, Token))
    requires
        start_pos < input@.len(),
        is_letter_spec(input@[start_pos as int]),
    ensures
        r.0 + 1 == scan_letters(input@, start_pos as nat),
        start_pos <= r.0,
        r.0 + 1 <= input@.len(),
        r.1@ == keyword_token(
            input@.subrange(start_pos as int, scan_letters(input@, start_pos as nat) as int),
        ),
{
    let n = input.unicode_len();
    let mut pos = start_pos;
    while pos < n && is_letter(input.get_char(pos))
        invariant
            start_pos <= pos <= n,
            n == input@.len(),
            scan_letters(input@, start_pos as nat) == scan_letters(input@, pos as nat),
        decreases n - pos,
    {
        pos += 1;
    }
    proof {
        lemma_scan_letters_bounds(input@, (start_pos + 1) as nat);
    }
    let token = is_keyword(input.substring_char(start_pos, pos));
    (pos - 1, token)
}

/// Appending one more digit keeps the decimal value of a run at least as
/// large, and the value of a digit run is never negative.
proof fn lemma_digits_val_nonneg(s: Seq<char>)
    requires
        forall|j: int| 0 <= j < s.len() ==> is_digit_spec(#[trigger] s[j]),
    ensures
        digits_val(s) >= 0,
    decreases s.len(),
{
    if s.len() > 0 {
        lemma_digits_val_nonneg(s.drop_last());
    }
}

/// The value of a digit run is at least the value of any of its prefixes.
proof fn lemma_digits_val_prefix(s: Seq<char>, k: int)
    requires
        forall|j: int| 0 <= j < s.len() ==> is_digit_spec(#[trigger] s[j]),
        0 <= k <= s.len(),
    ensures
        digits_val(s.subrange(0, k)) <= digits_val(s),
    decreases s.len(),
{
    if k == s.len() {
        assert(s.subrange(0, k) =~= s);
    } else {
        assert(s.drop_last() =~= s.subrange(0, s.len() - 1));
        assert(s.subrange(0, k) =~= s.drop_last().subrange(0, k));
        lemma_digits_val_prefix(s.drop_last(), k);
        lemma_digits_val_nonneg(s.drop_last());
    }
}

/// Read the maximal digit run starting at `start_pos`; returns the position
/// of its last character and its token.
fn read_digits(start_pos: usize, input: &str) -> (r: (usize, Token))
    requires
        start_pos < input@.len(),
        is_digit_spec(input@[start_pos as int]),
    ensures
        r.0 + 1 == scan_digits(input@, start_pos as nat),
        start_pos <= r.0,
        r.0 + 1 <= input@.len(),
        r.1@ == int_token(
            input@.subrange(start_pos as int, scan_digits(input@, start_pos as nat) as int),
        ),
{
    let n = input.unicode_len();
    let mut pos = start_pos;
    let mut val: i64 = 0;
    let mut overflowed = false;
    while pos < n && is_digit(input.get_char(pos))
        invariant
            start_pos <= pos <= n,
            n == input@.len(),
            scan_digits(input@, start_pos as nat) == scan_digits(input@, pos as nat),
            forall|j: int| start_pos <= j < pos ==> is_digit_spec(#[trigger] input@[j]),
            !overflowed ==> val == digits_val(input@.subrange(start_pos as int, pos as int)),
            overflowed ==> digits_val(input@.subrange(start_pos as int, pos as int)) > i64::MAX,
            val >= 0,
        decreases n - pos,
    {
        let ghost prefix = input@.subrange(start_pos as int, pos as int);
        let c = input.get_char(pos);
        let d = (c as u32) - ('0' as u32);
        proof {
            assert(input@.subrange(start_pos as int, pos + 1).drop_last() =~= prefix);
            assert(d <= 9);
        }
        if !overflowed {
            let stepped = match val.checked_mul(10) {
                Some(v10) => v10.checked_add(d as i64),
                None => None,
            };
            match stepped {
                Some(v) => {
                    val = v;
                },
                None => {
                    overflowed = true;
                },
            }
        }
        pos += 1;
    }
    proof {
        lemma_scan_digits_bounds(input@, (start_pos + 1) as nat);
    }
    let token = if overflowed {
        Token::ILLEGAL
    } else {
        Token::INT(val)
    };
    (pos - 1, token)
}

/// Read a quoted string starting at the quote at `start_pos`; returns the
/// position of the closing quote and the token, or consumes the rest of the
/// input as `ILLEGAL` when the string is unterminated.
fn read_string(start_pos: usize, input: &str) -> (r: (usize, Token))
    requires
        start_pos < input@.len(),
        input@[start_pos as int] == '\'',
    ensures
        start_pos <= r.0,
        r.0 + 1 <= input@.len(),
        ({
            let q = scan_string(input@, (start_pos + 1) as nat);
            if q < input@.len() {
                r.0 == q && r.1@ == TokenView::STRING(input@.subrange(start_pos + 1, q as int))
            } else {
                r.0 + 1 == input@.len() && r.1@ == TokenView::ILLEGAL
            }
        }),
{
    let n = input.unicode_len();
    let mut pos = start_pos + 1;
    while pos < n && input.get_char(pos) != '\''
        invariant
            start_pos + 1 <= pos <= n,
            n == input@.len(),
            scan_string(input@, (start_pos + 1) as nat) == scan_string(input@, pos as nat),
        decreases n - pos,
    {
        pos += 1;
    }
    if pos < n {
        let value = input.substring_char(start_pos + 1, pos);
        (pos, Token::STRING(value.to_owned()))
    } else {
        (pos - 1, Token::ILLEGAL)
    }
}

/// Tokenize the whole input, ending with `EOF`.
pub fn lexer(input: &str) -> (tokens: VecDeque<Token>)
    ensures
        toks_view(tokens@) == lex_spec(input@, 0),
{
    let n = input.unicode_len();
    let mut pos: usize = 0;
    let mut tokens: VecDeque<Token> = VecDeque::new();
    proof {
        assert(toks_view(tokens@) + lex_spec(input@, 0) =~= lex_spec(input@, 0));
    }
    while pos < n
        invariant
            pos <= n,
            n == input@.len(),
            lex_spec(input@, 0) == toks_view(tokens@) + lex_spec(input@, pos as nat),
        decreases n - pos,
    {
        let ghost toks_before = tokens@;
        let ghost pos0 = pos as nat;
        let ch = input.get_char(pos);
        if is_letter(ch) {
            let (last_pos, token) = read_letters(pos, input);
            tokens.push_back(token);
            pos = last_pos + 1;
            proof {
                assert(toks_view(tokens@) =~= toks_view(toks_before) + seq![token@]);
                assert(lex_spec(input@, pos0) =~= seq![token@] + lex_spec(input@, pos as nat));
                assert(toks_view(tokens@) + lex_spec(input@, pos as nat) =~= toks_view(toks_before)
                    + lex_spec(input@, pos0));
            }
        } else if is_digit(ch) {
            let (last_pos, token) = read_digits(pos, input);
            tokens.push_back(token);
            pos = last_pos + 1;
            proof {
                assert(toks_view(tokens@) =~= toks_view(toks_before) + seq![token@]);
                assert(lex_spec(input@, pos0) =~= seq![token@] + lex_spec(input@, pos as nat));
                assert(toks_view(tokens@) + lex_spec(input@, pos as nat) =~= toks_view(toks_before)
                    + lex_spec(input@, pos0));
            }
        } else if ch == '{' || ch == '}' || ch == '(' || ch == ')' || ch == ';' || ch == ','
            || ch == '+' || ch == '-' || ch == '>' || ch == '<' || ch == '*' || ch == '/' {
            let token = if ch == '{' {
                Token::LBRACE
            } else if ch == '}' {
                Token::RBRACE
            } else if ch == '(' {
                Token::LPAREN
            } else if ch == ')' {
                Token::RPAREN
            } else if ch == ';' {
                Token::SEMICOLON
            } else if ch == ',' {
                Token::COMMA
            } else if ch == '+' {
                Token::PLUS
            } else if ch == '-' {
                Token::MINUS
            } else if ch == '>' {
                Token::GT
            } else if ch == '<' {
                Token::LT
            } else if ch == '*' {
                Token::ASTERISK
            } else {
                Token::SLASH
            };
            tokens.push_back(token);
            pos += 1;
            proof {
                assert(toks_view(tokens@) =~= toks_view(toks_before) + seq![token@]);
                assert(lex_spec(input@, pos0) =~= seq![token@] + lex_spec(input@, pos as nat));
                assert(toks_view(tokens@) + lex_spec(input@, pos as nat) =~= toks_view(toks_before)
                    + lex_spec(input@, pos0));
            }
        } else if ch == '=' {
            let peeked = peek_next_char(pos, input);
            let (token, width): (Token, usize) = if pos + 1 < n && peeked == '=' {
                (Token::EQ, 2)
            } else if pos + 1 >= n {
                (Token::EOF, 1)
            } else {
                (Token::ASSIGN, 1)
            };
            tokens.push_back(token);
            pos += width;
            proof {
                assert(toks_view(tokens@) =~= toks_view(toks_before) + seq![token@]);
                assert(lex_spec(input@, pos0) =~= seq![token@] + lex_spec(input@, pos as nat));
                assert(toks_view(tokens@) + lex_spec(input@, pos as nat) =~= toks_view(toks_before)
                    + lex_spec(input@, pos0));
            }
        } else if ch == '!' {
            let peeked = peek_next_char(pos, input);
            let (token, width): (Token, usize) = if pos + 1 < n && peeked == '=' {
                (Token::NEQ, 2)
            } else if pos + 1 >= n {
                (Token::EOF, 1)
            } else {
                (Token::BANG, 1)
            };
            tokens.push_back(token);
            pos += width;
            proof {
                assert(toks_view(tokens@) =~= toks_view(toks_before) + seq![token@]);
                assert(lex_spec(input@, pos0) =~= seq![token@] + lex_spec(input@, pos as nat));
                assert(toks_view(tokens@) + lex_spec(input@, pos as nat) =~= toks_view(toks_before)
                    + lex_spec(input@, pos0));
            }
        } else if ch == '\'' {
            let (last_pos, token) = read_string(pos, input);
            tokens.push_back(token);
            pos = last_pos + 1;
            proof {
                assert(toks_view(tokens@) =~= toks_view(toks_before) + seq![token@]);
                assert(lex_spec(input@, pos0) =~= seq![token@] + lex_spec(input@, pos as nat));
                assert(toks_view(tokens@) + lex_spec(input@, pos as nat) =~= toks_view(toks_before)
                    + lex_spec(input@, pos0));
            }
        } else if ch == ' ' || ch == '\n' || ch == '\r' || ch == '\t' {
            pos += 1;
        } else {
            let token = Token::ILLEGAL;
            tokens.push_back(token);
            pos += 1;
            proof {
                assert(toks_view(tokens@) =~= toks_view(toks_before) + seq![token@]);
                assert(lex_spec(input@, pos0) =~= seq![token@] + lex_spec(input@, pos as nat));
                assert(toks_view(tokens@) + lex_spec(input@, pos as nat) =~= toks_view(toks_before)
                    + lex_spec(input@, pos0));
            }
        }
    }
    tokens.push_back(Token::EOF);
    proof {
        assert(toks_view(tokens@) =~= lex_spec(input@, 0));
    }
    tokens
}

} // verus!
