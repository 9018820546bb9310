use vstd::prelude::*;
use vstd::string::StringSliceAdditionalSpecFns;
use vstd::utf8::{decode_utf8, is_char_boundary};
use crate::diagnostic::{Diagnostic, Span};
use crate::text::{decimal, decimal_chars, hex_chars, hex_digit_text, push_char, push_decimal};

verus! {

#[derive(Debug, Clone, PartialEq, Eq)]
pub struct Token {
    pub kind: TokenKind,
    pub span: Span,
}

#[derive(Debug, Clone, PartialEq, Eq)]
pub enum TokenKind {
    Let,
    Const,
    Fn,
    Return,
    If,
    Else,
    While,
    Loop,
    For,
    Break,
    Continue,
    ByteTy,
    Put,
    Puts,
    Print,
    Println,
    Read,
    True,
    False,
    Ident(String),
    Number(u16),
    StringLit(Vec<u8>),
    Colon,
    Comma,
    Semi,
    Eq,
    PlusEq,
    MinusEq,
    Arrow,
    StarEq,
    SlashEq,
    PercentEq,
    AmpEq,
    PipeEq,
    CaretEq,
    ShlEq,
    ShrEq,
    EqEq,
    Bang,
    BangEq,
    Lt,
    LtEq,
    Gt,
    GtEq,
    AndAnd,
    OrOr,
    Amp,
    Pipe,
    Caret,
    Tilde,
    Shl,
    Shr,
    Plus,
    Minus,
    Star,
    Slash,
    Percent,
    LParen,
    RParen,
    LBracket,
    RBracket,
    LBrace,
    RBrace,
    Eof,
}

/// A token stream as the parser expects it: at least one token, exactly one `Eof` token,
/// placed last with the empty span at the end of the text, and every other token covering a
/// non-empty byte range of the text, each range ending before the next one starts.
pub open spec fn well_formed_tokens(t: Seq<Token>, len: nat) -> bool {
    &&& t.len() >= 1
    &&& t.last().kind is Eof
    &&& t.last().span == (Span { start: len as usize, end: len as usize })
    &&& len <= usize::MAX
    &&& forall|k: int| 0 <= k < t.len() - 1 ==> !(#[trigger] t[k].kind is Eof)
    &&& forall|k: int|
        0 <= k < t.len() - 1 ==> #[trigger] t[k].span.start < t[k].span.end <= t[k + 1].span.start
}

/// Whitespace between tokens: space, tab, carriage return or newline.
pub open spec fn is_space_byte(c: u8) -> bool {
    c == 32 || c == 9 || c == 13 || c == 10
}

/// Bytes `i..j` of `b` hold only whitespace and `//` comments, each comment running through
/// the newline that ends its line, or to the end of the text; `in_comment` says that byte `i`
/// is inside a comment already.
pub open spec fn skippable(b: Seq<u8>, i: int, j: int, in_comment: bool) -> bool
    decreases j - i,
{
    if i >= j {
        i == j && (!in_comment || j == b.len())
    } else if in_comment {
        skippable(b, i + 1, j, b[i] != 10)
    } else if is_space_byte(b[i]) {
        skippable(b, i + 1, j, false)
    } else if b[i] == 47 && i + 1 < j && b[i + 1] == 47 {
        skippable(b, i + 2, j, true)
    } else {
        false
    }
}

/// Bytes `i..j` of `b` are blank: whitespace and whole comments only.
pub open spec fn blank(b: Seq<u8>, i: int, j: int) -> bool {
    skippable(b, i, j, false)
}

proof fn lemma_skippable_concat(b: Seq<u8>, i: int, p: int, q: int, c: bool)
    requires
        skippable(b, i, p, c),
        blank(b, p, q),
        i <= p <= q <= b.len(),
    ensures
        skippable(b, i, q, c),
    decreases p - i,
{
    if i < p {
        if c {
            lemma_skippable_concat(b, i + 1, p, q, b[i] != 10);
        } else if is_space_byte(b[i]) {
            lemma_skippable_concat(b, i + 1, p, q, false);
        } else {
            lemma_skippable_concat(b, i + 2, p, q, true);
        }
    }
}

/// A comment body from `k` up to a newline at `j` (or up to the end of the text, `j` being its
/// length) is skippable through `next`.
proof fn lemma_comment_tail(b: Seq<u8>, k: int, j: int, next: int)
    requires
        0 <= k <= j <= b.len(),
        forall|x: int| k <= x < j ==> b[x] != 10,
        (j < b.len() && b[j] == 10 && next == j + 1) || (j == b.len() && next == j),
    ensures
        skippable(b, k, next, true),
    decreases j - k,
{
    if k < j {
        lemma_comment_tail(b, k + 1, j, next);
    } else if j < b.len() {
        assert(skippable(b, j + 1, next, false));
    }
}

/// The byte value of an escape sequence `\c`, for the supported escapes.
pub open spec fn escape_value(c: u8) -> Option<u8> {
    if c == 110 {
        Some(10u8)
    } else if c == 114 {
        Some(13u8)
    } else if c == 116 {
        Some(9u8)
    } else if c == 48 {
        Some(0u8)
    } else if c == 92 {
        Some(92u8)
    } else if c == 39 {
        Some(39u8)
    } else if c == 34 {
        Some(34u8)
    } else {
        None
    }
}

/// The letter after a backslash with which a character is shown quoted (as `debug_char`
/// shows it), for the characters shown that way.
pub open spec fn shown_escape_letter(c: u32) -> Option<u8> {
    if c == 9 {
        Some(116u8)
    } else if c == 13 {
        Some(114u8)
    } else if c == 10 {
        Some(110u8)
    } else if c == 0 {
        Some(48u8)
    } else if c == 39 {
        Some(39u8)
    } else if c == 92 {
        Some(92u8)
    } else {
        None
    }
}

/// Reading an escape and showing a character agree: the byte an escape `\c` in a literal
/// stands for is shown back as `\c` (the double quote, which needs no escape when shown,
/// reads as itself). So `\t` is the tab, `\n` the line feed, `\r` the carriage return.
pub proof fn law_escapes_round_trip(c: u8)
    ensures
        escape_value(c) matches Some(v) ==> (shown_escape_letter(v as u32) == Some(c) || (c == 34
            && v == 34)),
{
}

pub open spec fn is_digit_in(c: u8, radix: u32) -> bool {
    if radix == 2 {
        c == 48 || c == 49
    } else if radix == 16 {
        (48 <= c <= 57) || (97 <= c <= 102) || (65 <= c <= 70)
    } else {
        48 <= c <= 57
    }
}

pub open spec fn digit_value(c: u8) -> nat {
    if 48 <= c <= 57 {
        (c - 48) as nat
    } else if 97 <= c <= 102 {
        (c - 87) as nat
    } else {
        (c - 55) as nat
    }
}

/// The value of a digit string in the given radix, most significant digit first.
pub open spec fn digits_value(s: Seq<u8>, radix: u32) -> nat
    decreases s.len(),
{
    if s.len() == 0 {
        0
    } else {
        digits_value(s.drop_last(), radix) * radix as nat + digit_value(s.last())
    }
}

/// The bytes of a text of ASCII characters.
pub open spec fn text_bytes(s: Seq<char>) -> Seq<u8> {
    s.map_values(|c: char| c as u8)
}

/// Reading digits agrees with writing numbers: the decimal text of `n` reads back as `n` in
/// radix 10, its lower-case hexadecimal text as `n` in radix 16 (at any padding), and the
/// upper-case hexadecimal digits `A` to `F` stand for 10 to 15.
pub proof fn law_digits_round_trip(n: nat, width: nat)
    ensures
        digits_value(text_bytes(decimal_chars(n)), 10) == n,
        digits_value(text_bytes(hex_chars(n, width)), 16) == n,
        forall|d: u8| 10 <= d < 16 ==> #[trigger] digit_value((d + 55) as u8) == d,
    decreases n + width,
{
    let dec = decimal_chars(n);
    let d = n % 10;
    assert(dec.last() == crate::text::digit_char(d));
    assert((crate::text::digit_char(d) as u8) == (d + 48) as u8);
    assert(text_bytes(dec).last() == (d + 48) as u8);
    assert(digit_value(text_bytes(dec).last()) == d);
    assert(text_bytes(dec).len() == dec.len() && dec.len() > 0);
    if n >= 10 {
        law_digits_round_trip(n / 10, 0);
        assert(text_bytes(dec).drop_last() =~= text_bytes(decimal_chars(n / 10)));
        assert(digits_value(text_bytes(dec), 10) == digits_value(text_bytes(decimal_chars(n / 10)), 10) * 10 + d);
    } else {
        assert(text_bytes(dec).drop_last() =~= Seq::<u8>::empty());
        assert(digits_value(text_bytes(dec), 10) == digits_value(Seq::<u8>::empty(), 10) * 10 + d);
    }
    let hd = n % 16;
    assert(hex_chars(n, width).last() == crate::text::hex_digit(hd));
    assert(digit_value(text_bytes(hex_chars(n, width)).last()) == hd);
    assert(text_bytes(hex_chars(n, width)).len() == hex_chars(n, width).len() && hex_chars(n, width).len() > 0);
    let hex = hex_chars(n, width);
    if n < 16 && width <= 1 {
        assert(text_bytes(hex).drop_last() =~= Seq::<u8>::empty());
        assert(digits_value(text_bytes(hex), 16) == digits_value(Seq::<u8>::empty(), 16) * 16 + hd);
    } else {
        let w2: nat = if width > 0 { (width - 1) as nat } else { 0 };
        law_digits_round_trip(n / 16, w2);
        assert(text_bytes(hex).drop_last() =~= text_bytes(hex_chars(n / 16, w2)));
        assert(digits_value(text_bytes(hex), 16) == digits_value(text_bytes(hex_chars(n / 16, w2)), 16) * 16 + hd);
    }
}

pub open spec fn is_alnum(c: u8) -> bool {
    (97 <= c <= 122) || (65 <= c <= 90) || (48 <= c <= 57)
}

pub open spec fn is_ident_char(c: u8) -> bool {
    is_alnum(c) || c == 95
}

/// The keyword token spelled by an identifier-shaped word, if it is one.
pub open spec fn keyword(w: Seq<char>) -> Option<TokenKind> {
    if w == seq!['l', 'e', 't'] {
        Some(TokenKind::Let)
    } else if w == seq!['c', 'o', 'n', 's', 't'] {
        Some(TokenKind::Const)
    } else if w == seq!['f', 'n'] {
        Some(TokenKind::Fn)
    } else if w == seq!['r', 'e', 't', 'u', 'r', 'n'] {
        Some(TokenKind::Return)
    } else if w == seq!['i', 'f'] {
        Some(TokenKind::If)
    } else if w == seq!['e', 'l', 's', 'e'] {
        Some(TokenKind::Else)
    } else if w == seq!['w', 'h', 'i', 'l', 'e'] {
        Some(TokenKind::While)
    } else if w == seq!['l', 'o', 'o', 'p'] {
        Some(TokenKind::Loop)
    } else if w == seq!['f', 'o', 'r'] {
        Some(TokenKind::For)
    } else if w == seq!['b', 'r', 'e', 'a', 'k'] {
        Some(TokenKind::Break)
    } else if w == seq!['c', 'o', 'n', 't', 'i', 'n', 'u', 'e'] {
        Some(TokenKind::Continue)
    } else if w == seq!['b', 'y', 't', 'e'] {
        Some(TokenKind::ByteTy)
    } else if w == seq!['p', 'u', 't'] {
        Some(TokenKind::Put)
    } else if w == seq!['p', 'u', 't', 's'] {
        Some(TokenKind::Puts)
    } else if w == seq!['p', 'r', 'i', 'n', 't'] {
        Some(TokenKind::Print)
    } else if w == seq!['p', 'r', 'i', 'n', 't', 'l', 'n'] {
        Some(TokenKind::Println)
    } else if w == seq!['r', 'e', 'a', 'd'] {
        Some(TokenKind::Read)
    } else if w == seq!['t', 'r', 'u', 'e'] {
        Some(TokenKind::True)
    } else if w == seq!['f', 'a', 'l', 's', 'e'] {
        Some(TokenKind::False)
    } else {
        None
    }
}

/// The one-byte operator or punctuation token spelled by `c`.
pub open spec fn op1(c: u8) -> Option<TokenKind> {
    if c == 58 {
        Some(TokenKind::Colon)
    } else if c == 44 {
        Some(TokenKind::Comma)
    } else if c == 59 {
        Some(TokenKind::Semi)
    } else if c == 47 {
        Some(TokenKind::Slash)
    } else if c == 61 {
        Some(TokenKind::Eq)
    } else if c == 33 {
        Some(TokenKind::Bang)
    } else if c == 60 {
        Some(TokenKind::Lt)
    } else if c == 62 {
        Some(TokenKind::Gt)
    } else if c == 38 {
        Some(TokenKind::Amp)
    } else if c == 124 {
        Some(TokenKind::Pipe)
    } else if c == 94 {
        Some(TokenKind::Caret)
    } else if c == 126 {
        Some(TokenKind::Tilde)
    } else if c == 43 {
        Some(TokenKind::Plus)
    } else if c == 45 {
        Some(TokenKind::Minus)
    } else if c == 42 {
        Some(TokenKind::Star)
    } else if c == 37 {
        Some(TokenKind::Percent)
    } else if c == 40 {
        Some(TokenKind::LParen)
    } else if c == 41 {
        Some(TokenKind::RParen)
    } else if c == 91 {
        Some(TokenKind::LBracket)
    } else if c == 93 {
        Some(TokenKind::RBracket)
    } else if c == 123 {
        Some(TokenKind::LBrace)
    } else if c == 125 {
        Some(TokenKind::RBrace)
    } else {
        None
    }
}

/// The two-byte operator token spelled by `c0 c1`.
pub open spec fn op2(c0: u8, c1: u8) -> Option<TokenKind> {
    if c1 == 61 {
        if c0 == 47 {
            Some(TokenKind::SlashEq)
        } else if c0 == 61 {
            Some(TokenKind::EqEq)
        } else if c0 == 33 {
            Some(TokenKind::BangEq)
        } else if c0 == 60 {
            Some(TokenKind::LtEq)
        } else if c0 == 62 {
            Some(TokenKind::GtEq)
        } else if c0 == 38 {
            Some(TokenKind::AmpEq)
        } else if c0 == 124 {
            Some(TokenKind::PipeEq)
        } else if c0 == 94 {
            Some(TokenKind::CaretEq)
        } else if c0 == 43 {
            Some(TokenKind::PlusEq)
        } else if c0 == 45 {
            Some(TokenKind::MinusEq)
        } else if c0 == 42 {
            Some(TokenKind::StarEq)
        } else if c0 == 37 {
            Some(TokenKind::PercentEq)
        } else {
            None
        }
    } else if c0 == 60 && c1 == 60 {
        Some(TokenKind::Shl)
    } else if c0 == 62 && c1 == 62 {
        Some(TokenKind::Shr)
    } else if c0 == 38 && c1 == 38 {
        Some(TokenKind::AndAnd)
    } else if c0 == 124 && c1 == 124 {
        Some(TokenKind::OrOr)
    } else if c0 == 45 && c1 == 62 {
        Some(TokenKind::Arrow)
    } else {
        None
    }
}

/// The three-byte operator token spelled by `c0 c1 c2`.
pub open spec fn op3(c0: u8, c1: u8, c2: u8) -> Option<TokenKind> {
    if c0 == 60 && c1 == 60 && c2 == 61 {
        Some(TokenKind::ShlEq)
    } else if c0 == 62 && c1 == 62 && c2 == 61 {
        Some(TokenKind::ShrEq)
    } else {
        None
    }
}

/// The operator or punctuation token spelled by `t`.
pub open spec fn op_kind(t: Seq<u8>) -> Option<TokenKind> {
    if t.len() == 1 {
        op1(t[0])
    } else if t.len() == 2 {
        op2(t[0], t[1])
    } else if t.len() == 3 {
        op3(t[0], t[1], t[2])
    } else {
        None
    }
}

/// No operator longer than `b[s..e]` starts at `s`.
pub open spec fn longest_op(b: Seq<u8>, s: int, e: int) -> bool {
    forall|m: int| e < m <= s + 3 && m <= b.len() ==> (#[trigger] op_kind(b.subrange(s, m))) is None
}

/// A `//` comment starts at `s`.
pub open spec fn comment_at(b: Seq<u8>, s: int) -> bool {
    0 <= s && s + 1 < b.len() && b[s] == 47 && b[s + 1] == 47
}

/// No identifier character follows position `e`.
pub open spec fn word_end(b: Seq<u8>, e: int) -> bool {
    e == b.len() || !is_ident_char(b[e])
}

/// `b[s..e]` is a whole word: identifier characters, not starting with a digit, and not
/// followed by another identifier character.
pub open spec fn word_at(b: Seq<u8>, s: int, e: int) -> bool {
    &&& 0 <= s < e <= b.len()
    &&& !(48 <= b[s] <= 57)
    &&& forall|k: int| s <= k < e ==> is_ident_char(#[trigger] b[k])
    &&& word_end(b, e)
}

/// The characters of ASCII bytes.
pub open spec fn ascii_text(t: Seq<u8>) -> Seq<char> {
    t.map_values(|c: u8| c as char)
}

/// The radix a numeric literal is written in: `0b`/`0B` starts a binary literal, `0x`/`0X` a
/// hexadecimal one; anything else is decimal.
pub open spec fn number_radix(t: Seq<u8>) -> u32 {
    if t.len() >= 2 && t[0] == 48 && (t[1] == 98 || t[1] == 66) {
        2
    } else if t.len() >= 2 && t[0] == 48 && (t[1] == 120 || t[1] == 88) {
        16
    } else {
        10
    }
}

/// The digits of a numeric literal, after its radix prefix.
pub open spec fn number_digits(t: Seq<u8>) -> Seq<u8> {
    if number_radix(t) == 10 {
        t
    } else {
        t.subrange(2, t.len() as int)
    }
}

/// Every byte of `d` is a digit in `radix`.
pub open spec fn all_digits_in(d: Seq<u8>, radix: u32) -> bool {
    forall|k: int| 0 <= k < d.len() ==> is_digit_in(#[trigger] d[k], radix)
}

/// The value of a numeric literal: at least one digit after the radix prefix, every one a
/// digit of the radix, and at most 65535.
pub open spec fn number_value(t: Seq<u8>) -> Option<nat> {
    let radix = number_radix(t);
    let digits = number_digits(t);
    if digits.len() > 0 && all_digits_in(digits, radix) && digits_value(digits, radix) < 65536 {
        Some(digits_value(digits, radix))
    } else {
        None
    }
}

/// The value of a character literal: an ASCII character other than `\`, or an escape,
/// between single quotes.
pub open spec fn char_value(t: Seq<u8>) -> Option<nat> {
    if t.len() == 3 && t[0] == 39 && t[2] == 39 && t[1] != 92 && t[1] < 128 {
        Some(t[1] as nat)
    } else if t.len() == 4 && t[0] == 39 && t[1] == 92 && t[3] == 39 && escape_value(t[2]) is Some {
        Some(escape_value(t[2])->0 as nat)
    } else {
        None
    }
}

/// The bytes a string literal's body stands for: ASCII characters other than `"` and `\`,
/// and escapes.
pub open spec fn string_body(s: Seq<u8>) -> Option<Seq<u8>>
    decreases s.len(),
{
    if s.len() == 0 {
        Some(Seq::empty())
    } else if s[0] == 92 {
        if s.len() >= 2 && escape_value(s[1]) is Some {
            match string_body(s.subrange(2, s.len() as int)) {
                Some(rest) => Some(seq![escape_value(s[1])->0] + rest),
                None => None,
            }
        } else {
            None
        }
    } else if s[0] == 34 || s[0] >= 128 {
        None
    } else {
        match string_body(s.drop_first()) {
            Some(rest) => Some(seq![s[0]] + rest),
            None => None,
        }
    }
}

/// The bytes of a string literal: its body between double quotes.
pub open spec fn string_value(t: Seq<u8>) -> Option<Seq<u8>> {
    if t.len() >= 2 && t[0] == 34 && t.last() == 34 {
        string_body(t.subrange(1, t.len() - 1))
    } else {
        None
    }
}

/// Token `t` is what the text of `b` under its span spells.
pub open spec fn token_text_ok(b: Seq<u8>, t: Token) -> bool {
    let s = t.span.start as int;
    let e = t.span.end as int;
    let text = b.subrange(s, e);
    &&& s < e <= b.len()
    &&& match t.kind {
        TokenKind::Ident(name) => word_at(b, s, e) && keyword(ascii_text(text)) is None && name@
            == ascii_text(text),
        TokenKind::Number(v) => (number_value(text) == Some(v as nat) && word_end(b, e))
            || char_value(text) == Some(v as nat),
        TokenKind::StringLit(bytes) => string_value(text) == Some(bytes@),
        TokenKind::Eof => false,
        k => (word_at(b, s, e) && keyword(ascii_text(text)) == Some(k)) || (op_kind(text) == Some(k)
            && longest_op(b, s, e) && !comment_at(b, s)),
    }
}

/// `t` is the token stream of `b`: well formed, each token spelled by its text, with only
/// whitespace and comments before, between and after them.
pub open spec fn lexes_to(b: Seq<u8>, t: Seq<Token>) -> bool {
    &&& well_formed_tokens(t, b.len())
    &&& forall|k: int| 0 <= k < t.len() - 1 ==> token_text_ok(b, #[trigger] t[k])
    &&& blank(b, 0, t[0].span.start as int)
    &&& forall|k: int|
        0 <= k < t.len() - 1 ==> blank(b, #[trigger] t[k].span.end as int, t[k + 1].span.start as int)
}

/// A byte that can start an identifier or keyword.
pub open spec fn is_word_start(c: u8) -> bool {
    is_ident_char(c) && !(48 <= c <= 57)
}

proof fn lemma_op_start(t: Seq<u8>)
    requires
        op_kind(t) is Some,
    ensures
        t.len() >= 1,
        op1(t[0]) is Some,
        !is_ident_char(t[0]),
        t[0] != 34 && t[0] != 39,
        !is_space_byte(t[0]),
{
}

proof fn lemma_number_shape(t: Seq<u8>)
    requires
        number_value(t) is Some,
    ensures
        t.len() >= 1,
        48 <= t[0] <= 57,
        forall|k: int| 0 <= k < t.len() ==> is_ident_char(#[trigger] t[k]),
{
    let d = number_digits(t);
    let radix = number_radix(t);
    assert(is_digit_in(d[0], radix));
    assert forall|k: int| 0 <= k < t.len() implies is_ident_char(#[trigger] t[k]) by {
        if radix == 10 {
            assert(is_digit_in(d[k], radix));
        } else if k >= 2 {
            assert(t[k] == d[k - 2]);
            assert(is_digit_in(d[k - 2], radix));
        }
    }
}

/// Which text a token spells, by the first byte of its span.
proof fn lemma_token_shape(b: Seq<u8>, tk: Token)
    requires
        token_text_ok(b, tk),
    ensures
        ({
            let s = tk.span.start as int;
            let e = tk.span.end as int;
            let text = b.subrange(s, e);
            &&& 0 <= s < e <= b.len()
            &&& !is_space_byte(b[s])
            &&& !comment_at(b, s)
            &&& is_word_start(b[s]) ==> word_at(b, s, e)
            &&& 48 <= b[s] <= 57 ==> number_value(text) is Some && word_end(b, e) && forall|k: int|
                s <= k < e ==> is_ident_char(#[trigger] b[k])
            &&& b[s] == 39 ==> char_value(text) is Some
            &&& b[s] == 34 ==> string_value(text) is Some
            &&& op1(b[s]) is Some ==> op_kind(text) is Some && longest_op(b, s, e)
            &&& (is_word_start(b[s]) || 48 <= b[s] <= 57 || b[s] == 39 || b[s] == 34 || op1(b[s]) is Some)
        }),
{
    let s = tk.span.start as int;
    let e = tk.span.end as int;
    let text = b.subrange(s, e);
    assert(text[0] == b[s]);
    if word_at(b, s, e) {
        assert(is_ident_char(b[s]));
    }
    if number_value(text) is Some {
        lemma_number_shape(text);
        assert forall|k: int| s <= k < e implies is_ident_char(#[trigger] b[k]) by {
            assert(b[k] == text[k - s]);
        }
    }
    if op_kind(text) is Some {
        lemma_op_start(text);
    }
    if string_value(text) is Some {
        assert(text[0] == 34);
    }
}

/// Two runs of identifier characters from the same start that both end where no identifier
/// character follows end at the same place.
proof fn lemma_word_end_unique(b: Seq<u8>, s: int, e1: int, e2: int)
    requires
        s <= e1 <= b.len(),
        s <= e2 <= b.len(),
        forall|k: int| s <= k < e1 ==> is_ident_char(#[trigger] b[k]),
        forall|k: int| s <= k < e2 ==> is_ident_char(#[trigger] b[k]),
        word_end(b, e1),
        word_end(b, e2),
    ensures
        e1 == e2,
{
    if e1 < e2 {
        assert(is_ident_char(b[e1]));
    } else if e2 < e1 {
        assert(is_ident_char(b[e2]));
    }
}

/// A body that decodes, followed by more bytes, decodes exactly when the rest does.
proof fn lemma_string_body_concat(x: Seq<u8>, y: Seq<u8>)
    requires
        string_body(x) is Some,
    ensures
        string_body(x + y) is Some <==> string_body(y) is Some,
    decreases x.len(),
{
    if x.len() == 0 {
        assert(x + y =~= y);
    } else if x[0] == 92 {
        let r = x.subrange(2, x.len() as int);
        lemma_string_body_concat(r, y);
        assert((x + y).subrange(2, (x + y).len() as int) =~= r + y);
    } else {
        let r = x.drop_first();
        lemma_string_body_concat(r, y);
        assert((x + y).drop_first() =~= r + y);
    }
}

/// Two string literals from the same start end at the same place.
proof fn lemma_string_end_unique(b: Seq<u8>, s: int, e1: int, e2: int)
    requires
        0 <= s < e1 <= b.len(),
        s < e2 <= b.len(),
        string_value(b.subrange(s, e1)) is Some,
        string_value(b.subrange(s, e2)) is Some,
    ensures
        e1 == e2,
{
    if e1 < e2 {
        lemma_string_end_before(b, s, e1, e2);
    } else if e2 < e1 {
        lemma_string_end_before(b, s, e2, e1);
    }
}

/// A string literal is not the start of a longer one.
proof fn lemma_string_end_before(b: Seq<u8>, s: int, e1: int, e2: int)
    requires
        0 <= s < e1 < e2 <= b.len(),
        string_value(b.subrange(s, e1)) is Some,
    ensures
        string_value(b.subrange(s, e2)) is None,
{
    let t1 = b.subrange(s, e1);
    let t2 = b.subrange(s, e2);
    if t2.len() >= 2 && t2[0] == 34 && t2.last() == 34 {
        let x = t1.subrange(1, t1.len() - 1);
        let body2 = t2.subrange(1, t2.len() - 1);
        let y = b.subrange(e1 - 1, e2 - 1);
        assert(x + y =~= body2);
        lemma_string_body_concat(x, y);
        assert(y[0] == 34) by {
            assert(y[0] == b[e1 - 1]);
            assert(t1.last() == b[e1 - 1]);
        }
    }
}

/// Two tokens that start at the same place end at the same place.
proof fn lemma_token_end_unique(b: Seq<u8>, t1: Token, t2: Token)
    requires
        token_text_ok(b, t1),
        token_text_ok(b, t2),
        t1.span.start == t2.span.start,
    ensures
        t1.span.end == t2.span.end,
{
    lemma_token_shape(b, t1);
    lemma_token_shape(b, t2);
    let s = t1.span.start as int;
    let e1 = t1.span.end as int;
    let e2 = t2.span.end as int;
    let c = b[s];
    if is_word_start(c) {
        lemma_word_end_unique(b, s, e1, e2);
    } else if 48 <= c <= 57 {
        lemma_word_end_unique(b, s, e1, e2);
    } else if c == 39 {
        let x1 = b.subrange(s, e1);
        let x2 = b.subrange(s, e2);
        assert(x1[1] == b[s + 1] && x2[1] == b[s + 1]);
    } else if c == 34 {
        lemma_string_end_unique(b, s, e1, e2);
    } else {
        if e1 < e2 {
            assert(op_kind(b.subrange(s, e2)) is None);
        } else if e2 < e1 {
            assert(op_kind(b.subrange(s, e1)) is None);
        }
    }
}

/// Reserved keywords never become identifiers: in a token stream of any text, an identifier
/// token's name is no keyword, and a word that is a keyword lexes as that keyword.
pub proof fn law_keywords_are_reserved(b: Seq<u8>, t: Seq<Token>, k: int)
    requires
        lexes_to(b, t),
        0 <= k < t.len() - 1,
    ensures
        t[k].kind matches TokenKind::Ident(name) ==> keyword(name@) is None,
        word_at(b, t[k].span.start as int, t[k].span.end as int) && keyword(
            ascii_text(b.subrange(t[k].span.start as int, t[k].span.end as int)),
        ) is Some ==> keyword(ascii_text(b.subrange(t[k].span.start as int, t[k].span.end as int)))
            == Some(t[k].kind),
{
    assert(token_text_ok(b, t[k]));
    let s = t[k].span.start as int;
    let e = t[k].span.end as int;
    let text = b.subrange(s, e);
    if word_at(b, s, e) {
        assert(text[0] == b[s]);
        assert(is_ident_char(b[s]));
        if let TokenKind::Number(v) = t[k].kind {
            if number_value(text) is Some {
                if number_radix(text) == 10 {
                    assert(is_digit_in(number_digits(text)[0], 10));
                }
            }
        }
    }
}

fn tok(kind: TokenKind, start: usize, end: usize) -> (t: Token)
    ensures
        t.kind == kind,
        t.span == (Span { start, end }),
{
    Token { kind, span: Span::new(start, end) }
}

fn word_is(w: &Vec<char>, k: &[char]) -> (r: bool)
    ensures
        r == (w@ == k@),
{
    if w.len() != k.len() {
        return false;
    }
    let mut i: usize = 0;
    while i < w.len()
        invariant
            w@.len() == k@.len(),
            i <= w@.len(),
            forall|j: int| 0 <= j < i ==> w@[j] == k@[j],
        decreases w@.len() - i,
    {
        if w[i] != k[i] {
            return false;
        }
        i = i + 1;
    }
    assert(w@ =~= k@);
    true
}

/// Classifies a word as a keyword or an identifier.
pub fn keyword_or_ident(w: Vec<char>) -> (k: TokenKind)
    ensures
        keyword(w@) matches Some(kw) ==> k == kw,
        keyword(w@) is None ==> (k matches TokenKind::Ident(s) && s@ == w@),
{
    if word_is(&w, &['l', 'e', 't']) {
        TokenKind::Let
    } else if word_is(&w, &['c', 'o', 'n', 's', 't']) {
        TokenKind::Const
    } else if word_is(&w, &['f', 'n']) {
        TokenKind::Fn
    } else if word_is(&w, &['r', 'e', 't', 'u', 'r', 'n']) {
        TokenKind::Return
    } else if word_is(&w, &['i', 'f']) {
        TokenKind::If
    } else if word_is(&w, &['e', 'l', 's', 'e']) {
        TokenKind::Else
    } else if word_is(&w, &['w', 'h', 'i', 'l', 'e']) {
        TokenKind::While
    } else if word_is(&w, &['l', 'o', 'o', 'p']) {
        TokenKind::Loop
    } else if word_is(&w, &['f', 'o', 'r']) {
        TokenKind::For
    } else if word_is(&w, &['b', 'r', 'e', 'a', 'k']) {
        TokenKind::Break
    } else if word_is(&w, &['c', 'o', 'n', 't', 'i', 'n', 'u', 'e']) {
        TokenKind::Continue
    } else if word_is(&w, &['b', 'y', 't', 'e']) {
        TokenKind::ByteTy
    } else if word_is(&w, &['p', 'u', 't']) {
        TokenKind::Put
    } else if word_is(&w, &['p', 'u', 't', 's']) {
        TokenKind::Puts
    } else if word_is(&w, &['p', 'r', 'i', 'n', 't']) {
        TokenKind::Print
    } else if word_is(&w, &['p', 'r', 'i', 'n', 't', 'l', 'n']) {
        TokenKind::Println
    } else if word_is(&w, &['r', 'e', 'a', 'd']) {
        TokenKind::Read
    } else if word_is(&w, &['t', 'r', 'u', 'e']) {
        TokenKind::True
    } else if word_is(&w, &['f', 'a', 'l', 's', 'e']) {
        TokenKind::False
    } else {
        let s = crate::text::string_of(w.as_slice());
        TokenKind::Ident(s)
    }
}


/// The character that starts at byte offset `pos` of the text (U+FFFD when `pos` is not the
/// start of a character).
fn char_at(src: &str, pos: usize) -> (c: char)
    ensures
        c == if pos < src.spec_bytes().len() && is_char_boundary(src.spec_bytes(), pos as int) {
            decode_utf8(src.spec_bytes().subrange(pos as int, src.spec_bytes().len() as int))[0]
        } else {
            '\u{FFFD}'
        },
{
    let bytes = src.as_bytes();
    assert(src.spec_bytes().len() == bytes.len());
    if pos < src.len() && src.is_char_boundary(pos) {
        let (_, tail) = src.split_at(pos);
        assert(tail.spec_bytes().len() == src.spec_bytes().len() - pos);
        if tail.len() > 0 {
            proof {
                if tail@.len() == 0 {
                    assert(tail.spec_bytes() =~= Seq::<u8>::empty());
                }
                broadcast use vstd::utf8::encode_utf8_decode_utf8;
                assert(decode_utf8(tail.spec_bytes()) == tail@);
            }
            return tail.get_char(0);
        }
    }
    '\u{FFFD}'
}

fn push_str(s: &mut String, t: &str)
    ensures
        final(s)@ == old(s)@ + t@,
{
    s.append(t);
}

fn push_hex_lower(s: &mut String, v: u32)
    ensures
        final(s)@.len() > old(s)@.len(),
        final(s)@.subrange(0, old(s)@.len() as int) == old(s)@,
    decreases v,
{
    if v >= 16 {
        push_hex_lower(s, v / 16);
    }
    let d = (v % 16) as u8;
    let ghost mid = s@;
    s.append(hex_digit_text(d));
    assert(s@.subrange(0, old(s)@.len() as int) =~= old(s)@) by {
        assert(mid.subrange(0, old(s)@.len() as int) == old(s)@);
    }
}

/// The text `Debug` shows for a character: quoted, with the usual escapes.
pub fn debug_char(c: char) -> (s: String)
    ensures
        s@.len() >= 3,
        s@[0] == '\'',
        s@.last() == '\'',
        (' ' <= c <= '~' && c != '\'' && c != '\\') ==> s@ == seq!['\'', c, '\''],
        shown_escape_letter(c as u32) matches Some(x) ==> s@ == seq!['\'', '\\', x as char, '\''],
{
    proof {
        reveal_strlit("\\");
        reveal_strlit("t");
        reveal_strlit("r");
        reveal_strlit("n");
        reveal_strlit("'");
        reveal_strlit("0");
        reveal_strlit("u");
        reveal_strlit("{");
        reveal_strlit("}");
    }
    let mut inner = String::new();
    let v = c as u32;
    if c == '\t' {
        inner.append("\\");
        inner.append("t");
    } else if c == '\r' {
        inner.append("\\");
        inner.append("r");
    } else if c == '\n' {
        inner.append("\\");
        inner.append("n");
    } else if c == '\'' {
        inner.append("\\");
        inner.append("'");
    } else if c == '\\' {
        inner.append("\\");
        inner.append("\\");
    } else if c == '\0' {
        inner.append("\\");
        inner.append("0");
    } else if v < 32 || v == 127 {
        inner.append("\\");
        inner.append("u");
        inner.append("{");
        push_hex_lower(&mut inner, v);
        inner.append("}");
    } else {
        push_char(&mut inner, c);
    }
    let mut s = String::new();
    s.append("'");
    push_str(&mut s, inner.as_str());
    s.append("'");
    assert(s@ =~= seq!['\''] + inner@ + seq!['\'']);
    s
}

fn err_at(msg: &str, span: Span) -> (d: Diagnostic)
    ensures
        d.span == Some(span),
        d.message@ == msg@,
{
    Diagnostic::new(msg.to_string(), span)
}

/// Operator and punctuation tokens: the token at `pos` and its length in bytes.
fn op_token(b: &[u8], pos: usize) -> (r: Option<(TokenKind, usize)>)
    requires
        pos < b@.len(),
    ensures
        r matches Some((k, n)) ==> 1 <= n <= 3 && pos + n <= b@.len() && !(k is Eof),
        r matches Some((k, n)) ==> op_kind(b@.subrange(pos as int, pos + n)) == Some(k)
            && longest_op(b@, pos as int, pos + n),
        r is None ==> op1(b@[pos as int]) is None,
{
    let c = b[pos];
    let n1 = if pos + 1 < b.len() { b[pos + 1] } else { 0u8 };
    let n2 = if pos + 1 < b.len() && pos + 2 < b.len() { b[pos + 2] } else { 0u8 };
    if c == 58u8 {
        Some((TokenKind::Colon, 1))
    } else if c == 44u8 {
        Some((TokenKind::Comma, 1))
    } else if c == 59u8 {
        Some((TokenKind::Semi, 1))
    } else if c == 47u8 {
        if n1 == 61u8 { Some((TokenKind::SlashEq, 2)) } else { Some((TokenKind::Slash, 1)) }
    } else if c == 61u8 {
        if n1 == 61u8 { Some((TokenKind::EqEq, 2)) } else { Some((TokenKind::Eq, 1)) }
    } else if c == 33u8 {
        if n1 == 61u8 { Some((TokenKind::BangEq, 2)) } else { Some((TokenKind::Bang, 1)) }
    } else if c == 60u8 {
        if n1 == 60u8 {
            if n2 == 61u8 { Some((TokenKind::ShlEq, 3)) } else { Some((TokenKind::Shl, 2)) }
        } else if n1 == 61u8 {
            Some((TokenKind::LtEq, 2))
        } else {
            Some((TokenKind::Lt, 1))
        }
    } else if c == 62u8 {
        if n1 == 62u8 {
            if n2 == 61u8 { Some((TokenKind::ShrEq, 3)) } else { Some((TokenKind::Shr, 2)) }
        } else if n1 == 61u8 {
            Some((TokenKind::GtEq, 2))
        } else {
            Some((TokenKind::Gt, 1))
        }
    } else if c == 38u8 {
        if n1 == 38u8 {
            Some((TokenKind::AndAnd, 2))
        } else if n1 == 61u8 {
            Some((TokenKind::AmpEq, 2))
        } else {
            Some((TokenKind::Amp, 1))
        }
    } else if c == 124u8 {
        if n1 == 124u8 {
            Some((TokenKind::OrOr, 2))
        } else if n1 == 61u8 {
            Some((TokenKind::PipeEq, 2))
        } else {
            Some((TokenKind::Pipe, 1))
        }
    } else if c == 94u8 {
        if n1 == 61u8 { Some((TokenKind::CaretEq, 2)) } else { Some((TokenKind::Caret, 1)) }
    } else if c == 126u8 {
        Some((TokenKind::Tilde, 1))
    } else if c == 43u8 {
        if n1 == 61u8 { Some((TokenKind::PlusEq, 2)) } else { Some((TokenKind::Plus, 1)) }
    } else if c == 45u8 {
        if n1 == 61u8 {
            Some((TokenKind::MinusEq, 2))
        } else if n1 == 62u8 {
            Some((TokenKind::Arrow, 2))
        } else {
            Some((TokenKind::Minus, 1))
        }
    } else if c == 42u8 {
        if n1 == 61u8 { Some((TokenKind::StarEq, 2)) } else { Some((TokenKind::Star, 1)) }
    } else if c == 37u8 {
        if n1 == 61u8 { Some((TokenKind::PercentEq, 2)) } else { Some((TokenKind::Percent, 1)) }
    } else if c == 40u8 {
        Some((TokenKind::LParen, 1))
    } else if c == 41u8 {
        Some((TokenKind::RParen, 1))
    } else if c == 91u8 {
        Some((TokenKind::LBracket, 1))
    } else if c == 93u8 {
        Some((TokenKind::RBracket, 1))
    } else if c == 123u8 {
        Some((TokenKind::LBrace, 1))
    } else if c == 125u8 {
        Some((TokenKind::RBrace, 1))
    } else {
        None
    }
}

/// Reads the escape character of `\c` at `pos`; `start` is where the literal began.
fn read_escape(src: &str, b: &[u8], pos: usize, start: usize) -> (r: Result<u8, Diagnostic>)
    requires
        b@ == src.spec_bytes(),
        start < pos,
    ensures
        pos < b@.len() ==> (r matches Ok(v) ==> escape_value(b@[pos as int]) == Some(v)),
        pos < b@.len() ==> (r is Err <==> escape_value(b@[pos as int]) is None),
        pos >= b@.len() ==> r is Err,
        r matches Err(d) ==> d.span matches Some(sp) && sp.start <= pos,
{
    if pos >= b.len() {
        return Err(err_at("unterminated escape", Span::point(start)));
    }
    let c = b[pos];
    if c == 110u8 {
        Ok(10)
    } else if c == 114u8 {
        Ok(13)
    } else if c == 116u8 {
        Ok(9)
    } else if c == 48u8 {
        Ok(0)
    } else if c == 92u8 {
        Ok(92)
    } else if c == 39u8 {
        Ok(39)
    } else if c == 34u8 {
        Ok(34)
    } else {
        let mut msg = "unknown escape \\".to_string();
        proof {
            reveal_strlit("unknown escape \\");
            broadcast use vstd::string::to_string_from_display_ensures_for_str;
        }
        push_char(&mut msg, char_at(src, pos));
        Err(Diagnostic::new(msg, Span::point(pos)))
    }
}

/// Where reading a numeric literal stops without a value, no numeric literal token starts.
proof fn lemma_no_number(b: Seq<u8>, pos: int, ds: int, i: int, radix: u32)
    requires
        0 <= pos < b.len(),
        48 <= b[pos] <= 57,
        radix == 2 || radix == 10 || radix == 16,
        radix == 10 ==> ds == pos,
        radix != 10 ==> ds == pos + 2 && pos + 1 < b.len() && b[pos] == 48,
        radix == 2 ==> (b[pos + 1] == 98 || b[pos + 1] == 66),
        radix == 16 ==> (b[pos + 1] == 120 || b[pos + 1] == 88),
        radix == 10 ==> !(b[pos] == 48 && pos + 1 < b.len() && (b[pos + 1] == 98 || b[pos + 1] == 66
            || b[pos + 1] == 120 || b[pos + 1] == 88)),
        ds <= i <= b.len(),
        forall|x: int| ds <= x < i ==> is_digit_in(#[trigger] b[x], radix),
        i == b.len() || !is_digit_in(b[i], radix),
        i == ds || (i < b.len() && is_ident_char(b[i])) || digits_value(b.subrange(ds, i), radix)
            >= 65536,
    ensures
        forall|e: int| pos < e <= b.len() ==> !(#[trigger] number_value(b.subrange(pos, e)) is Some && word_end(b, e)),
{
    assert forall|e: int| pos < e <= b.len() implies !(#[trigger] number_value(b.subrange(pos, e)) is Some && word_end(b, e)) by {
        let text = b.subrange(pos, e);
        assert(text[0] == b[pos]);
        if e == pos + 1 {
            if radix == 10 && i == pos + 1 && i < b.len() && !is_ident_char(b[i]) && i != ds {
                let d = b.subrange(ds, i);
                assert(d.drop_last() =~= Seq::<u8>::empty());
                assert(digits_value(Seq::<u8>::empty(), radix) == 0);
                assert(0 * (radix as nat) == 0) by (nonlinear_arith);
                assert(digits_value(d, radix) == digit_value(d.last()));
                assert(digits_value(d, radix) <= 15);
            }
            if i > pos + 1 {
                assert(is_digit_in(b[pos + 1], radix) || radix != 10);
            }
        } else {
            assert(text[1] == b[pos + 1]);
            assert(number_radix(text) == radix);
            let digits = number_digits(text);
            assert(digits =~= b.subrange(ds, e));
            if e < i {
                assert(is_digit_in(b[e], radix));
            } else if e > i {
                assert(digits[i - ds] == b[i]);
            }
        }
    }
}

/// Reads a numeric literal that starts with the digit at `pos`: its value and end offset.
/// The base of a number literal at `pos`: 2 after `0b`/`0B`, 16 after `0x`/`0X`, else 10.
pub open spec fn literal_radix(b: Seq<u8>, pos: int) -> u32 {
    if b[pos] == 48 && pos + 1 < b.len() && (b[pos + 1] == 98 || b[pos + 1] == 66) {
        2
    } else if b[pos] == 48 && pos + 1 < b.len() && (b[pos + 1] == 120 || b[pos + 1] == 88) {
        16
    } else {
        10
    }
}

/// Where the digits of a number literal at `pos` start: after its base prefix, if any.
pub open spec fn number_digits_start(b: Seq<u8>, pos: int) -> int {
    if literal_radix(b, pos) == 10 {
        pos
    } else {
        pos + 2
    }
}

/// The end of the run of digits of base `radix` from `i`.
pub open spec fn digit_run_end(b: Seq<u8>, i: int, radix: u32) -> int
    decreases b.len() - i,
{
    if i < 0 || i >= b.len() || !is_digit_in(b[i], radix) {
        i
    } else {
        digit_run_end(b, i + 1, radix)
    }
}

/// Why the number literal at `pos` does not read, with the span to show: no digits after a
/// base prefix, a letter, digit or `_` that is no digit of the base right after the digits,
/// or a value above 65535.
pub open spec fn number_error(b: Seq<u8>, pos: int) -> Option<(Seq<char>, Span)> {
    let radix = literal_radix(b, pos);
    let s = number_digits_start(b, pos);
    let e = digit_run_end(b, s, radix);
    if e == s {
        Some(("expected digits after numeric literal prefix"@, Span { start: pos as usize, end: e as usize }))
    } else if e < b.len() && is_ident_char(b[e]) {
        Some(
            (
                "invalid digit "@ + seq!['\'', b[e] as char, '\''] + " for base "@ + decimal_chars(
                    radix as nat,
                ) + " literal"@,
                Span { start: e as usize, end: (e + 1) as usize },
            ),
        )
    } else if digits_value(b.subrange(s, e), radix) > 65535 {
        Some(("numeric literal is too large"@, Span { start: pos as usize, end: e as usize }))
    } else {
        None
    }
}

fn read_number(b: &[u8], pos: usize) -> (r: Result<(u16, usize), Diagnostic>)
    requires
        pos < b@.len(),
        48 <= b@[pos as int] <= 57,
    ensures
        r matches Ok((v, end)) ==> pos < end <= b@.len() && word_end(b@, end as int),
        r matches Ok((v, end)) ==> number_value(b@.subrange(pos as int, end as int)) == Some(
            v as nat,
        ),
        r matches Err(d) ==> d.span matches Some(sp) && sp.start <= b@.len(),
        r is Err ==> forall|e: int|
            pos < e <= b@.len() ==> !(#[trigger] number_value(b@.subrange(pos as int, e)) is Some
                && word_end(b@, e)),
        r is Err <==> number_error(b@, pos as int) is Some,
        r matches Err(d) ==> number_error(b@, pos as int) matches Some(m) && d.message@ == m.0
            && d.span == Some(m.1),
{
    let first = b[pos];
    let n1 = if pos + 1 < b.len() { b[pos + 1] } else { 0u8 };
    let radix: u32 = if first == 48u8 && (n1 == 98u8 || n1 == 66u8) {
        2
    } else if first == 48u8 && (n1 == 120u8 || n1 == 88u8) {
        16
    } else {
        10
    };
    let digits_start: usize = if radix == 10 { pos } else { pos + 2 };
    let mut i: usize = digits_start;
    // The value read so far, capped at 65536 once it no longer fits a u16.
    let mut value: u32 = 0;
    while i < b.len() && is_digit_exec(b[i], radix)
        invariant
            digits_start <= i <= b@.len(),
            digits_start <= pos + 2,
            radix == 2 || radix == 10 || radix == 16,
            value <= 65536,
            value < 65536 ==> value as nat == digits_value(
                b@.subrange(digits_start as int, i as int),
                radix,
            ),
            value == 65536 ==> digits_value(b@.subrange(digits_start as int, i as int), radix)
                >= 65536,
            forall|x: int| digits_start <= x < i ==> is_digit_in(#[trigger] b@[x], radix),
            radix == 10 ==> digits_start == pos,
            radix != 10 ==> digits_start == pos + 2 && pos + 1 < b@.len() && b@[pos as int] == 48,
            radix == 2 ==> (b@[pos + 1] == 98 || b@[pos + 1] == 66),
            radix == 16 ==> (b@[pos + 1] == 120 || b@[pos + 1] == 88),
            radix == 10 ==> !(b@[pos as int] == 48 && pos + 1 < b@.len() && (b@[pos + 1] == 98
                || b@[pos + 1] == 66 || b@[pos + 1] == 120 || b@[pos + 1] == 88)),
            radix == literal_radix(b@, pos as int),
            digits_start == number_digits_start(b@, pos as int),
            digit_run_end(b@, digits_start as int, radix) == digit_run_end(b@, i as int, radix),
        decreases b@.len() - i,
    {
        let d = digit_value_exec(b[i]);
        let ghost prev = b@.subrange(digits_start as int, i as int);
        assert(b@.subrange(digits_start as int, i + 1).drop_last() =~= prev);
        if value < 65536 {
            let next = value * radix + d as u32;
            value = if next > 65535 { 65536 } else { next };
        } else {
            proof {
                assert(digits_value(prev, radix) * radix as nat >= digits_value(prev, radix))
                    by (nonlinear_arith)
                    requires
                        radix >= 2,
                ;
            }
        }
        i = i + 1;
    }
    proof {
        if i == digits_start || (i < b.len() && is_ident_char(b@[i as int])) || value > 65535 {
            lemma_no_number(b@, pos as int, digits_start as int, i as int, radix);
        }
    }
    if i == digits_start {
        return Err(err_at("expected digits after numeric literal prefix", Span::new(pos, i)));
    }
    if i < b.len() && is_ident_char_exec(b[i]) {
        let mut msg = "invalid digit ".to_string();
        let shown = debug_char(b[i] as char);
        msg.append(shown.as_str());
        msg.append(" for base ");
        let r = decimal(radix as u64);
        msg.append(r.as_str());
        msg.append(" literal");
        return Err(Diagnostic::new(msg, Span::point(i)));
    }
    if value > 65535 {
        return Err(err_at("numeric literal is too large", Span::new(pos, i)));
    }
    proof {
        let t = b@.subrange(pos as int, i as int);
        let digits = b@.subrange(digits_start as int, i as int);
        if radix != 10 {
            assert(t.subrange(2, t.len() as int) =~= digits);
        } else {
            assert(t =~= digits);
        }
        assert forall|k: int| 0 <= k < digits.len() implies is_digit_in(#[trigger] digits[k], radix) by {
            assert(digits[k] == b@[digits_start + k]);
        }
    }
    Ok((value as u16, i))
}

fn is_digit_exec(c: u8, radix: u32) -> (r: bool)
    ensures
        r == is_digit_in(c, radix),
{
    if radix == 2 {
        c == 48u8 || c == 49u8
    } else if radix == 16 {
        (48u8 <= c && c <= 57u8) || (97u8 <= c && c <= 102u8) || (65u8 <= c && c <= 70u8)
    } else {
        48u8 <= c && c <= 57u8
    }
}

fn digit_value_exec(c: u8) -> (d: u8)
    requires
        (48 <= c <= 57) || (97 <= c <= 102) || (65 <= c <= 70),
    ensures
        d == digit_value(c),
{
    if 48u8 <= c && c <= 57u8 {
        c - 48u8
    } else if 97u8 <= c && c <= 102u8 {
        c - 87
    } else if c >= 55 {
        c - 55
    } else {
        0
    }
}

fn is_ident_char_exec(c: u8) -> (r: bool)
    ensures
        r == is_ident_char(c),
{
    (97u8 <= c && c <= 122u8) || (65u8 <= c && c <= 90u8) || (48u8 <= c && c <= 57u8) || c == 95u8
}

/// A body that decodes extends, one character or escape at a time, to one that decodes.
proof fn lemma_string_body_push(s: Seq<u8>, piece: Seq<u8>, v: u8)
    requires
        string_body(s) is Some,
        (piece.len() == 1 && piece[0] != 34 && piece[0] != 92 && piece[0] < 128 && v == piece[0])
            || (piece.len() == 2 && piece[0] == 92 && escape_value(piece[1]) == Some(v)),
    ensures
        string_body(s + piece) == Some(string_body(s)->0.push(v)),
    decreases s.len(),
{
    let t = s + piece;
    if s.len() == 0 {
        assert(t =~= piece);
        let e = Seq::<u8>::empty();
        assert(string_body(e) == Some(e));
        if piece.len() == 1 {
            assert(t.drop_first() =~= e);
        } else {
            assert(t.subrange(2, t.len() as int) =~= e);
        }
        assert(seq![v] + e =~= e.push(v));
    } else if s[0] == 92 {
        let rest = s.subrange(2, s.len() as int);
        assert(t.subrange(2, t.len() as int) =~= rest + piece);
        lemma_string_body_push(rest, piece, v);
        let e = escape_value(s[1])->0;
        assert(seq![e] + string_body(rest)->0.push(v) =~= (seq![e] + string_body(rest)->0).push(v));
    } else {
        let rest = s.drop_first();
        assert(t.drop_first() =~= rest + piece);
        lemma_string_body_push(rest, piece, v);
        assert(seq![s[0]] + string_body(rest)->0.push(v) =~= (seq![s[0]] + string_body(rest)->0).push(v));
    }
}

/// Where reading a string literal stops with an error, no string literal token starts.
proof fn lemma_no_string(b: Seq<u8>, pos: int, j: int)
    requires
        0 <= pos < j <= b.len(),
        string_body(b.subrange(pos + 1, j)) is Some,
        j == b.len() || (b[j] == 92 && (j + 1 >= b.len() || escape_value(b[j + 1]) is None)) || (b[j]
            >= 128 && b[j] != 92 && b[j] != 34),
    ensures
        forall|e: int| pos < e <= b.len() ==> #[trigger] string_value(b.subrange(pos, e)) is None,
{
    assert forall|e: int| pos < e <= b.len() implies #[trigger] string_value(b.subrange(pos, e)) is None by {
        let t = b.subrange(pos, e);
        if t.len() >= 2 && t[0] == 34 && t.last() == 34 {
            let body = t.subrange(1, t.len() - 1);
            assert(body =~= b.subrange(pos + 1, e - 1));
            assert(t.last() == b[e - 1]);
            let p = b.subrange(pos + 1, j);
            if e - 1 < j {
                let rest = b.subrange(e - 1, j);
                assert(body + rest =~= p);
                if string_body(body) is Some {
                    lemma_string_body_concat(body, rest);
                    assert(rest[0] == 34);
                }
            } else if e - 1 > j {
                let rest = b.subrange(j, e - 1);
                assert(p + rest =~= body);
                lemma_string_body_concat(p, rest);
                assert(rest[0] == b[j]);
                if rest.len() >= 2 {
                    assert(rest[1] == b[j + 1]);
                }
            }
        }
    }
}

/// Reads a string literal whose opening quote is at `pos`: its bytes and end offset.
fn read_string(src: &str, b: &[u8], pos: usize) -> (r: Result<(Vec<u8>, usize), Diagnostic>)
    requires
        b@ == src.spec_bytes(),
        pos < b@.len(),
    ensures
        r matches Ok((v, end)) ==> pos < end <= b@.len() && forall|k: int|
            0 <= k < v@.len() ==> v@[k] < 128,
        r matches Ok((v, end)) ==> b@[pos as int] == 34 ==> string_value(
            b@.subrange(pos as int, end as int),
        ) == Some(v@),
        r matches Err(d) ==> d.span matches Some(sp) && sp.start <= b@.len(),
        r is Err ==> forall|e: int|
            pos < e <= b@.len() ==> #[trigger] string_value(b@.subrange(pos as int, e)) is None,
{
    let mut bytes: Vec<u8> = Vec::new();
    let _n = b.len();
    let mut j: usize = pos + 1;
    loop
        invariant
            pos < j,
            pos < b@.len(),
            b@ == src.spec_bytes(),
            forall|k: int| 0 <= k < bytes@.len() ==> bytes@[k] < 128,
            j <= b@.len(),
            string_body(b@.subrange(pos + 1, j as int)) == Some(bytes@),
        decreases b@.len() + 2 - j,
    {
        if j >= b.len() {
            proof {
                lemma_no_string(b@, pos as int, j as int);
            }
            return Err(err_at("unterminated string literal", Span::point(pos)));
        }
        let c = b[j];
        if c == 34u8 {
            proof {
                let t = b@.subrange(pos as int, j + 1);
                assert(t.subrange(1, t.len() - 1) =~= b@.subrange(pos + 1, j as int));
            }
            return Ok((bytes, j + 1));
        } else if c == 92u8 {
            let v = match read_escape(src, b, j + 1, pos) {
                Ok(v) => v,
                Err(d) => {
                    proof {
                        lemma_no_string(b@, pos as int, j as int);
                    }
                    return Err(d);
                },
            };
            proof {
                let piece = b@.subrange(j as int, j + 2);
                lemma_string_body_push(b@.subrange(pos + 1, j as int), piece, v);
                assert(b@.subrange(pos + 1, j as int) + piece =~= b@.subrange(pos + 1, j + 2));
            }
            bytes.push(v);
            j = j + 2;
        } else if c < 128 {
            proof {
                let piece = b@.subrange(j as int, j + 1);
                lemma_string_body_push(b@.subrange(pos + 1, j as int), piece, c);
                assert(b@.subrange(pos + 1, j as int) + piece =~= b@.subrange(pos + 1, j + 1));
            }
            bytes.push(c);
            j = j + 1;
        } else {
            proof {
                lemma_no_string(b@, pos as int, j as int);
            }
            return Err(err_at("non-ASCII string byte", Span::point(j)));
        }
    }
}

/// Reads a character literal whose opening quote is at `pos`: its value and end offset.
fn read_char(src: &str, b: &[u8], pos: usize) -> (r: Result<(u8, usize), Diagnostic>)
    requires
        b@ == src.spec_bytes(),
        pos < b@.len(),
    ensures
        r matches Ok((v, end)) ==> pos < end <= b@.len() && v < 128,
        r matches Ok((v, end)) ==> b@[pos as int] == 39 ==> char_value(
            b@.subrange(pos as int, end as int),
        ) == Some(v as nat),
        r matches Err(d) ==> d.span matches Some(sp) && sp.start <= b@.len(),
        r is Err ==> forall|e: int|
            pos < e <= b@.len() ==> #[trigger] char_value(b@.subrange(pos as int, e)) is None,
{
    proof {
        assert forall|e: int| pos < e <= b@.len() && #[trigger] char_value(b@.subrange(pos as int, e))
            is Some implies pos + 3 <= b@.len() && (b@[pos + 1] != 92 ==> b@[pos + 1] < 128 && b@[pos
            + 2] == 39) && (b@[pos + 1] == 92 ==> pos + 4 <= b@.len() && escape_value(b@[pos + 2])
            is Some && b@[pos + 3] == 39) by {
            let t = b@.subrange(pos as int, e);
            assert(t[1] == b@[pos + 1]);
            assert(t[2] == b@[pos + 2]);
            if t.len() == 4 {
                assert(t[3] == b@[pos + 3]);
            }
        }
    }
    let _n = b.len();
    let j = pos + 1;
    if j >= b.len() {
        return Err(err_at("unterminated character literal", Span::point(pos)));
    }
    let c = b[j];
    let (value, next) = if c == 92u8 {
        (read_escape(src, b, j + 1, pos)?, j + 2)
    } else if c < 128 {
        (c, j + 1)
    } else {
        return Err(err_at("non-ASCII character literal", Span::point(j)));
    };
    if next < b.len() && b[next] == 39u8 {
        Ok((value, next + 1))
    } else {
        Err(err_at("unterminated character literal", Span::point(pos)))
    }
}

/// Two skippable runs from the same place: the shorter one ends where the longer one goes on
/// outside a comment.
proof fn lemma_blank_split(b: Seq<u8>, i: int, j1: int, j2: int, c: bool)
    requires
        skippable(b, i, j1, c),
        skippable(b, i, j2, c),
        i <= j1 <= j2 <= b.len(),
    ensures
        blank(b, j1, j2),
    decreases j1 - i,
{
    if i < j1 {
        if c {
            lemma_blank_split(b, i + 1, j1, j2, b[i] != 10);
        } else if is_space_byte(b[i]) {
            lemma_blank_split(b, i + 1, j1, j2, false);
        } else {
            lemma_blank_split(b, i + 2, j1, j2, true);
        }
    }
}

/// Where a token starts, blank text cannot go on.
proof fn lemma_blank_stops(b: Seq<u8>, s: int, j: int, tk: Token)
    requires
        blank(b, s, j),
        j <= b.len(),
        token_text_ok(b, tk),
        tk.span.start == s,
    ensures
        j == s,
{
    lemma_token_shape(b, tk);
}

/// Every token of a well-formed stream starts within the text.
proof fn lemma_starts_in_text(t: Seq<Token>, len: nat, k: int)
    requires
        well_formed_tokens(t, len),
        0 <= k < t.len(),
    ensures
        t[k].span.start <= len,
    decreases t.len() - k,
{
    if k < t.len() - 1 {
        lemma_starts_in_text(t, len, k + 1);
    }
}

/// A token read at `pos`, where every lexing of the text has its token number `k` after blank
/// text, is that token: every lexing then has its token number `k + 1` after blank text from
/// the end of the one read.
proof fn lemma_lex_step_token(b: Seq<u8>, k: int, pos: int, tk: Token)
    requires
        0 <= k,
        0 <= pos < b.len(),
        tk.span.start == pos,
        token_text_ok(b, tk),
        forall|t: Seq<Token>|
            #[trigger] lexes_to(b, t) ==> k < t.len() && pos <= t[k].span.start && blank(
                b,
                pos,
                t[k].span.start as int,
            ),
    ensures
        forall|t: Seq<Token>|
            #[trigger] lexes_to(b, t) ==> k + 1 < t.len() && tk.span.end <= t[k + 1].span.start
                && blank(b, tk.span.end as int, t[k + 1].span.start as int),
{
    assert forall|t: Seq<Token>| #[trigger] lexes_to(b, t) implies k + 1 < t.len()
        && tk.span.end <= t[k + 1].span.start && blank(
        b,
        tk.span.end as int,
        t[k + 1].span.start as int,
    ) by {
        lemma_starts_in_text(t, b.len(), k);
        lemma_blank_stops(b, pos, t[k].span.start as int, tk);
        assert(k < t.len() - 1);
        assert(token_text_ok(b, t[k]));
        lemma_token_end_unique(b, tk, t[k]);
    }
}

/// Blank text skipped from `pos` to `next`, where every lexing of the text has its token
/// number `k` after blank text: every lexing still has it after blank text from `next`.
proof fn lemma_lex_step_blank(b: Seq<u8>, k: int, pos: int, next: int)
    requires
        0 <= k,
        0 <= pos < next <= b.len(),
        blank(b, pos, next),
        forall|t: Seq<Token>|
            #[trigger] lexes_to(b, t) ==> k < t.len() && pos <= t[k].span.start && blank(
                b,
                pos,
                t[k].span.start as int,
            ),
    ensures
        forall|t: Seq<Token>|
            #[trigger] lexes_to(b, t) ==> k < t.len() && next <= t[k].span.start && blank(
                b,
                next,
                t[k].span.start as int,
            ),
{
    assert forall|t: Seq<Token>| #[trigger] lexes_to(b, t) implies k < t.len() && next
        <= t[k].span.start && blank(b, next, t[k].span.start as int) by {
        let st = t[k].span.start as int;
        if next <= st {
            lemma_blank_split(b, pos, next, st, false);
        } else {
            lemma_blank_split(b, pos, st, next, false);
            if k < t.len() - 1 {
                assert(token_text_ok(b, t[k]));
                lemma_blank_stops(b, st, next, t[k]);
            }
        }
    }
}

/// Nothing the lexer knows starts at `pos`: no white space, no comment and no token.
pub open spec fn stuck_at(b: Seq<u8>, pos: int) -> bool {
    &&& !is_space_byte(b[pos])
    &&& !comment_at(b, pos)
    &&& forall|tk: Token| tk.span.start == pos ==> !(#[trigger] token_text_ok(b, tk))
}

/// Reads the token (or skips the whitespace or comment) that starts at `pos`.
fn lex_one(src: &str, b: &[u8], pos: usize) -> (r: Result<(Option<Token>, usize), Diagnostic>)
    requires
        b@ == src.spec_bytes(),
        pos < b@.len(),
    ensures
        r matches Ok((t, next)) ==> pos < next <= b@.len() && (t matches Some(tk) ==> pos
            == tk.span.start && tk.span.start < tk.span.end == next && !(tk.kind is Eof)),
        r matches Ok((None, next)) ==> blank(b@, pos as int, next as int),
        r matches Ok((Some(tk), next)) ==> token_text_ok(b@, tk),
        r matches Err(d) ==> d.span matches Some(sp) && sp.start <= b@.len(),
        r is Err ==> stuck_at(b@, pos as int),
        48 <= b@[pos as int] <= 57 ==> (number_error(b@, pos as int) matches Some(m) ==> (r matches Err(
            d,
        ) && d.message@ == m.0 && d.span == Some(m.1))),
{
    let c = b[pos];
    if c == 32u8 || c == 9u8 || c == 13u8 || c == 10u8 {
        assert(blank(b@, pos as int, pos + 1)) by {
            assert(skippable(b@, pos + 1, pos + 1, false));
        }
        return Ok((None, pos + 1));
    }
    if c == 47u8 && pos + 1 < b.len() && b[pos + 1] == 47u8 {
        let mut j = pos + 2;
        while j < b.len() && b[j] != 10u8
            invariant
                pos + 2 <= j <= b@.len(),
                forall|x: int| pos + 2 <= x < j ==> b@[x] != 10,
            decreases b@.len() - j,
        {
            j = j + 1;
        }
        let next = if j < b.len() { j + 1 } else { j };
        proof {
            lemma_comment_tail(b@, pos + 2, j as int, next as int);
        }
        return Ok((None, next));
    }
    if let Some((kind, n)) = op_token(b, pos) {
        proof {
            lemma_op_start(b@.subrange(pos as int, pos + n));
        }
        return Ok((Some(tok(kind, pos, pos + n)), pos + n));
    }
    if 48u8 <= c && c <= 57u8 {
        let (value, end) = match read_number(b, pos) {
            Ok(x) => x,
            Err(d) => {
                proof {
                    assert forall|tk: Token| tk.span.start == pos implies !(#[trigger] token_text_ok(b@, tk)) by {
                        if token_text_ok(b@, tk) {
                            lemma_token_shape(b@, tk);
                        }
                    }
                }
                return Err(d);
            },
        };
        return Ok((Some(tok(TokenKind::Number(value), pos, end)), end));
    }
    if c == 39u8 {
        let (value, end) = match read_char(src, b, pos) {
            Ok(x) => x,
            Err(d) => {
                proof {
                    assert forall|tk: Token| tk.span.start == pos implies !(#[trigger] token_text_ok(b@, tk)) by {
                        if token_text_ok(b@, tk) {
                            lemma_token_shape(b@, tk);
                        }
                    }
                }
                return Err(d);
            },
        };
        return Ok((Some(tok(TokenKind::Number(value as u16), pos, end)), end));
    }
    if c == 34u8 {
        let (bytes, end) = match read_string(src, b, pos) {
            Ok(x) => x,
            Err(d) => {
                proof {
                    assert forall|tk: Token| tk.span.start == pos implies !(#[trigger] token_text_ok(b@, tk)) by {
                        if token_text_ok(b@, tk) {
                            lemma_token_shape(b@, tk);
                        }
                    }
                }
                return Err(d);
            },
        };
        return Ok((Some(tok(TokenKind::StringLit(bytes), pos, end)), end));
    }
    if (97u8 <= c && c <= 122u8) || (65u8 <= c && c <= 90u8) || c == 95u8 {
        let mut word: Vec<char> = Vec::new();
        let mut j = pos;
        while j < b.len() && is_ident_char_exec(b[j])
            invariant
                pos <= j <= b@.len(),
                word@ == ascii_text(b@.subrange(pos as int, j as int)),
                forall|k: int| pos <= k < j ==> is_ident_char(#[trigger] b@[k]),
            decreases b@.len() - j,
        {
            word.push(b[j] as char);
            j = j + 1;
            assert(word@ =~= ascii_text(b@.subrange(pos as int, j as int)));
        }
        assert(is_ident_char(b@[pos as int]));
        let kind = keyword_or_ident(word);
        assert(!(kind is Eof));
        return Ok((Some(tok(kind, pos, j)), j));
    }
    proof {
        assert forall|tk: Token| tk.span.start == pos implies !(#[trigger] token_text_ok(b@, tk)) by {
            if token_text_ok(b@, tk) {
                lemma_token_shape(b@, tk);
            }
        }
    }
    let mut msg = "unexpected character ".to_string();
    let shown = debug_char(char_at(src, pos));
    msg.append(shown.as_str());
    Err(Diagnostic::new(msg, Span::point(pos)))
}

/// Splits source text into tokens, ending with an `Eof` token at the end of the text.
#[verifier::spinoff_prover]
#[verifier::rlimit(50)]
pub fn lex(src: &str) -> (r: Result<Vec<Token>, Diagnostic>)
    ensures
        r matches Ok(t) ==> lexes_to(src.spec_bytes(), t@),
        r is Err ==> !exists|t: Seq<Token>| lexes_to(src.spec_bytes(), t),
        r matches Err(d) ==> d.span matches Some(sp) && sp.start <= src.spec_bytes().len(),
        src@.len() == 0 ==> (r matches Ok(t) && t@.len() == 1 && t@[0].kind is Eof),
        src.spec_bytes().len() > 0 && 48 <= src.spec_bytes()[0] <= 57 ==> (number_error(
            src.spec_bytes(),
            0,
        ) matches Some(m) ==> (r matches Err(d) && d.message@ == m.0 && d.span == Some(m.1))),
{
    let b = src.as_bytes();
    let mut tokens: Vec<Token> = Vec::new();
    let mut pos: usize = 0;
    while pos < b.len()
        invariant
            b@ == src.spec_bytes(),
            pos <= b@.len(),
            b@.len() == 0 ==> tokens@.len() == 0,
            pos > 0 ==> !(48 <= b@[0] <= 57 && number_error(b@, 0) is Some),
            forall|k: int| 0 <= k < tokens@.len() ==> !(#[trigger] tokens@[k].kind is Eof),
            tokens@.len() == 0 ==> blank(b@, 0, pos as int),
            forall|k: int| 0 <= k < tokens@.len() ==> token_text_ok(b@, #[trigger] tokens@[k]),
            forall|t: Seq<Token>|
                #[trigger] lexes_to(b@, t) ==> tokens@.len() < t.len() && pos <= t[tokens@.len() as int].span.start
                    && blank(b@, pos as int, t[tokens@.len() as int].span.start as int),
            tokens@.len() > 0 ==> blank(b@, tokens@.last().span.end as int, pos as int),
            tokens@.len() > 0 ==> blank(b@, 0, tokens@[0].span.start as int),
            forall|k: int|
                0 <= k < tokens@.len() - 1 ==> blank(
                    b@,
                    #[trigger] tokens@[k].span.end as int,
                    tokens@[k + 1].span.start as int,
                ),
            forall|k: int|
                0 <= k < tokens@.len() ==> #[trigger] tokens@[k].span.start
                    < tokens@[k].span.end,
            forall|k: int|
                0 <= k < tokens@.len() - 1 ==> #[trigger] tokens@[k].span.end
                    <= tokens@[k + 1].span.start,
            tokens@.len() > 0 ==> tokens@.last().span.end <= pos,
        decreases b@.len() - pos,
    {
        let (t, next) = match lex_one(src, b, pos) {
            Ok(x) => x,
            Err(d) => {
                proof {
                    if exists|t: Seq<Token>| lexes_to(b@, t) {
                        let t = choose|t: Seq<Token>| lexes_to(b@, t);
                        let k = tokens@.len() as int;
                        let st = t[k].span.start as int;
                        if pos < st {
                            assert(is_space_byte(b@[pos as int]) || comment_at(b@, pos as int));
                        } else {
                            assert(k < t.len() - 1);
                            assert(token_text_ok(b@, t[k]));
                        }
                    }
                }
                return Err(d);
            },
        };
        let ghost before = tokens@;
        if let Some(t) = t {
            tokens.push(t);
            proof {
                lemma_lex_step_token(b@, before.len() as int, pos as int, t);
                assert(blank(b@, next as int, next as int));
                assert forall|k: int| 0 <= k < tokens@.len() - 1 implies blank(
                    b@,
                    #[trigger] tokens@[k].span.end as int,
                    tokens@[k + 1].span.start as int,
                ) by {
                    if k < before.len() - 1 {
                        assert(tokens@[k] == before[k] && tokens@[k + 1] == before[k + 1]);
                    } else {
                        assert(tokens@[k] == before.last());
                    }
                }
            }
        } else {
            proof {
                lemma_lex_step_blank(b@, before.len() as int, pos as int, next as int);
                if before.len() == 0 {
                    lemma_skippable_concat(b@, 0, pos as int, next as int, false);
                } else {
                    lemma_skippable_concat(b@, before.last().span.end as int, pos as int, next as int, false);
                }
            }
        }
        pos = next;
    }
    let n = b.len();
    let ghost before = tokens@;
    tokens.push(tok(TokenKind::Eof, n, n));
    proof {
        assert forall|k: int| 0 <= k < tokens@.len() - 1 implies blank(
            b@,
            #[trigger] tokens@[k].span.end as int,
            tokens@[k + 1].span.start as int,
        ) by {
            if k < before.len() - 1 {
                assert(tokens@[k] == before[k] && tokens@[k + 1] == before[k + 1]);
            } else {
                assert(tokens@[k] == before.last());
            }
        }
        assert forall|k: int| 0 <= k < tokens@.len() - 1 implies token_text_ok(b@, #[trigger] tokens@[k]) by {
            assert(tokens@[k] == before[k]);
        }
    }
    Ok(tokens)
}

/// A number for each kind of token, ignoring the data it carries.
pub open spec fn kind_tag(k: TokenKind) -> u8 {
    match k {
        TokenKind::Let => 0,
        TokenKind::Const => 1,
        TokenKind::Fn => 2,
        TokenKind::Return => 3,
        TokenKind::If => 4,
        TokenKind::Else => 5,
        TokenKind::While => 6,
        TokenKind::Loop => 7,
        TokenKind::For => 8,
        TokenKind::Break => 9,
        TokenKind::Continue => 10,
        TokenKind::ByteTy => 11,
        TokenKind::Put => 12,
        TokenKind::Puts => 13,
        TokenKind::Print => 14,
        TokenKind::Println => 15,
        TokenKind::Read => 16,
        TokenKind::True => 17,
        TokenKind::False => 18,
        TokenKind::Ident(_) => 19,
        TokenKind::Number(_) => 20,
        TokenKind::StringLit(_) => 21,
        TokenKind::Colon => 22,
        TokenKind::Comma => 23,
        TokenKind::Semi => 24,
        TokenKind::Eq => 25,
        TokenKind::PlusEq => 26,
        TokenKind::MinusEq => 27,
        TokenKind::Arrow => 28,
        TokenKind::StarEq => 29,
        TokenKind::SlashEq => 30,
        TokenKind::PercentEq => 31,
        TokenKind::AmpEq => 32,
        TokenKind::PipeEq => 33,
        TokenKind::CaretEq => 34,
        TokenKind::ShlEq => 35,
        TokenKind::ShrEq => 36,
        TokenKind::EqEq => 37,
        TokenKind::Bang => 38,
        TokenKind::BangEq => 39,
        TokenKind::Lt => 40,
        TokenKind::LtEq => 41,
        TokenKind::Gt => 42,
        TokenKind::GtEq => 43,
        TokenKind::AndAnd => 44,
        TokenKind::OrOr => 45,
        TokenKind::Amp => 46,
        TokenKind::Pipe => 47,
        TokenKind::Caret => 48,
        TokenKind::Tilde => 49,
        TokenKind::Shl => 50,
        TokenKind::Shr => 51,
        TokenKind::Plus => 52,
        TokenKind::Minus => 53,
        TokenKind::Star => 54,
        TokenKind::Slash => 55,
        TokenKind::Percent => 56,
        TokenKind::LParen => 57,
        TokenKind::RParen => 58,
        TokenKind::LBracket => 59,
        TokenKind::RBracket => 60,
        TokenKind::LBrace => 61,
        TokenKind::RBrace => 62,
        TokenKind::Eof => 63,
    }
}

/// The number `kind_tag` gives a token kind.
pub fn tag_of(k: &TokenKind) -> (t: u8)
    ensures
        t == kind_tag(*k),
{
    match k {
        TokenKind::Let => 0,
        TokenKind::Const => 1,
        TokenKind::Fn => 2,
        TokenKind::Return => 3,
        TokenKind::If => 4,
        TokenKind::Else => 5,
        TokenKind::While => 6,
        TokenKind::Loop => 7,
        TokenKind::For => 8,
        TokenKind::Break => 9,
        TokenKind::Continue => 10,
        TokenKind::ByteTy => 11,
        TokenKind::Put => 12,
        TokenKind::Puts => 13,
        TokenKind::Print => 14,
        TokenKind::Println => 15,
        TokenKind::Read => 16,
        TokenKind::True => 17,
        TokenKind::False => 18,
        TokenKind::Ident(_) => 19,
        TokenKind::Number(_) => 20,
        TokenKind::StringLit(_) => 21,
        TokenKind::Colon => 22,
        TokenKind::Comma => 23,
        TokenKind::Semi => 24,
        TokenKind::Eq => 25,
        TokenKind::PlusEq => 26,
        TokenKind::MinusEq => 27,
        TokenKind::Arrow => 28,
        TokenKind::StarEq => 29,
        TokenKind::SlashEq => 30,
        TokenKind::PercentEq => 31,
        TokenKind::AmpEq => 32,
        TokenKind::PipeEq => 33,
        TokenKind::CaretEq => 34,
        TokenKind::ShlEq => 35,
        TokenKind::ShrEq => 36,
        TokenKind::EqEq => 37,
        TokenKind::Bang => 38,
        TokenKind::BangEq => 39,
        TokenKind::Lt => 40,
        TokenKind::LtEq => 41,
        TokenKind::Gt => 42,
        TokenKind::GtEq => 43,
        TokenKind::AndAnd => 44,
        TokenKind::OrOr => 45,
        TokenKind::Amp => 46,
        TokenKind::Pipe => 47,
        TokenKind::Caret => 48,
        TokenKind::Tilde => 49,
        TokenKind::Shl => 50,
        TokenKind::Shr => 51,
        TokenKind::Plus => 52,
        TokenKind::Minus => 53,
        TokenKind::Star => 54,
        TokenKind::Slash => 55,
        TokenKind::Percent => 56,
        TokenKind::LParen => 57,
        TokenKind::RParen => 58,
        TokenKind::LBracket => 59,
        TokenKind::RBracket => 60,
        TokenKind::LBrace => 61,
        TokenKind::RBrace => 62,
        TokenKind::Eof => 63,
    }
}

/// The decimal texts of `bytes`, separated by `, `.
pub open spec fn byte_list_text(bytes: Seq<u8>) -> Seq<char>
    decreases bytes.len(),
{
    if bytes.len() == 0 {
        Seq::empty()
    } else if bytes.len() == 1 {
        decimal_chars(bytes[0] as nat)
    } else {
        byte_list_text(bytes.drop_last()) + ", "@ + decimal_chars(bytes.last() as nat)
    }
}

/// The text `Debug` shows for a token kind.
pub open spec fn kind_text(k: TokenKind) -> Seq<char> {
    match k {
        TokenKind::Let => "Let"@,
        TokenKind::Const => "Const"@,
        TokenKind::Fn => "Fn"@,
        TokenKind::Return => "Return"@,
        TokenKind::If => "If"@,
        TokenKind::Else => "Else"@,
        TokenKind::While => "While"@,
        TokenKind::Loop => "Loop"@,
        TokenKind::For => "For"@,
        TokenKind::Break => "Break"@,
        TokenKind::Continue => "Continue"@,
        TokenKind::ByteTy => "ByteTy"@,
        TokenKind::Put => "Put"@,
        TokenKind::Puts => "Puts"@,
        TokenKind::Print => "Print"@,
        TokenKind::Println => "Println"@,
        TokenKind::Read => "Read"@,
        TokenKind::True => "True"@,
        TokenKind::False => "False"@,
        TokenKind::Ident(name) => "Ident(\""@ + name@ + "\")"@,
        TokenKind::Number(n) => "Number("@ + decimal_chars(n as nat) + ")"@,
        TokenKind::StringLit(bytes) => "StringLit(["@ + byte_list_text(bytes@) + "])"@,
        TokenKind::Colon => "Colon"@,
        TokenKind::Comma => "Comma"@,
        TokenKind::Semi => "Semi"@,
        TokenKind::Eq => "Eq"@,
        TokenKind::PlusEq => "PlusEq"@,
        TokenKind::MinusEq => "MinusEq"@,
        TokenKind::Arrow => "Arrow"@,
        TokenKind::StarEq => "StarEq"@,
        TokenKind::SlashEq => "SlashEq"@,
        TokenKind::PercentEq => "PercentEq"@,
        TokenKind::AmpEq => "AmpEq"@,
        TokenKind::PipeEq => "PipeEq"@,
        TokenKind::CaretEq => "CaretEq"@,
        TokenKind::ShlEq => "ShlEq"@,
        TokenKind::ShrEq => "ShrEq"@,
        TokenKind::EqEq => "EqEq"@,
        TokenKind::Bang => "Bang"@,
        TokenKind::BangEq => "BangEq"@,
        TokenKind::Lt => "Lt"@,
        TokenKind::LtEq => "LtEq"@,
        TokenKind::Gt => "Gt"@,
        TokenKind::GtEq => "GtEq"@,
        TokenKind::AndAnd => "AndAnd"@,
        TokenKind::OrOr => "OrOr"@,
        TokenKind::Amp => "Amp"@,
        TokenKind::Pipe => "Pipe"@,
        TokenKind::Caret => "Caret"@,
        TokenKind::Tilde => "Tilde"@,
        TokenKind::Shl => "Shl"@,
        TokenKind::Shr => "Shr"@,
        TokenKind::Plus => "Plus"@,
        TokenKind::Minus => "Minus"@,
        TokenKind::Star => "Star"@,
        TokenKind::Slash => "Slash"@,
        TokenKind::Percent => "Percent"@,
        TokenKind::LParen => "LParen"@,
        TokenKind::RParen => "RParen"@,
        TokenKind::LBracket => "LBracket"@,
        TokenKind::RBracket => "RBracket"@,
        TokenKind::LBrace => "LBrace"@,
        TokenKind::RBrace => "RBrace"@,
        TokenKind::Eof => "Eof"@,
    }
}

/// The text `Debug` shows for a token kind, e.g. `Semi`, `Ident("x")`, `Number(7)`.
pub fn describe_kind(k: &TokenKind) -> (s: String)
    ensures
        s@ == kind_text(*k),
{
    match k {
        TokenKind::Let => "Let".to_string(),
        TokenKind::Const => "Const".to_string(),
        TokenKind::Fn => "Fn".to_string(),
        TokenKind::Return => "Return".to_string(),
        TokenKind::If => "If".to_string(),
        TokenKind::Else => "Else".to_string(),
        TokenKind::While => "While".to_string(),
        TokenKind::Loop => "Loop".to_string(),
        TokenKind::For => "For".to_string(),
        TokenKind::Break => "Break".to_string(),
        TokenKind::Continue => "Continue".to_string(),
        TokenKind::ByteTy => "ByteTy".to_string(),
        TokenKind::Put => "Put".to_string(),
        TokenKind::Puts => "Puts".to_string(),
        TokenKind::Print => "Print".to_string(),
        TokenKind::Println => "Println".to_string(),
        TokenKind::Read => "Read".to_string(),
        TokenKind::True => "True".to_string(),
        TokenKind::False => "False".to_string(),
        TokenKind::Ident(name) => {
            let mut s = "Ident(\"".to_string();
            s.append(name.as_str());
            s.append("\")");
            s
        },
        TokenKind::Number(n) => {
            let mut s = "Number(".to_string();
            push_decimal(&mut s, *n as u64);
            s.append(")");
            s
        },
        TokenKind::StringLit(bytes) => {
            let mut s = "StringLit([".to_string();
            let mut i: usize = 0;
            while i < bytes.len()
                invariant
                    i <= bytes@.len(),
                    s@ == "StringLit(["@ + byte_list_text(bytes@.take(i as int)),
                decreases bytes@.len() - i,
            {
                let ghost before = bytes@.take(i as int);
                if i > 0 {
                    s.append(", ");
                }
                push_decimal(&mut s, bytes[i] as u64);
                i = i + 1;
                proof {
                    let t = bytes@.take(i as int);
                    assert(t.drop_last() =~= before);
                    if i == 1 {
                        assert(byte_list_text(t) == decimal_chars(t[0] as nat));
                        assert(byte_list_text(before) =~= Seq::<char>::empty());
                    }
                    assert(s@ =~= "StringLit(["@ + byte_list_text(t));
                }
            }
            proof {
                assert(bytes@.take(bytes@.len() as int) =~= bytes@);
            }
            s.append("])");
            s
        },
        TokenKind::Colon => "Colon".to_string(),
        TokenKind::Comma => "Comma".to_string(),
        TokenKind::Semi => "Semi".to_string(),
        TokenKind::Eq => "Eq".to_string(),
        TokenKind::PlusEq => "PlusEq".to_string(),
        TokenKind::MinusEq => "MinusEq".to_string(),
        TokenKind::Arrow => "Arrow".to_string(),
        TokenKind::StarEq => "StarEq".to_string(),
        TokenKind::SlashEq => "SlashEq".to_string(),
        TokenKind::PercentEq => "PercentEq".to_string(),
        TokenKind::AmpEq => "AmpEq".to_string(),
        TokenKind::PipeEq => "PipeEq".to_string(),
        TokenKind::CaretEq => "CaretEq".to_string(),
        TokenKind::ShlEq => "ShlEq".to_string(),
        TokenKind::ShrEq => "ShrEq".to_string(),
        TokenKind::EqEq => "EqEq".to_string(),
        TokenKind::Bang => "Bang".to_string(),
        TokenKind::BangEq => "BangEq".to_string(),
        TokenKind::Lt => "Lt".to_string(),
        TokenKind::LtEq => "LtEq".to_string(),
        TokenKind::Gt => "Gt".to_string(),
        TokenKind::GtEq => "GtEq".to_string(),
        TokenKind::AndAnd => "AndAnd".to_string(),
        TokenKind::OrOr => "OrOr".to_string(),
        TokenKind::Amp => "Amp".to_string(),
        TokenKind::Pipe => "Pipe".to_string(),
        TokenKind::Caret => "Caret".to_string(),
        TokenKind::Tilde => "Tilde".to_string(),
        TokenKind::Shl => "Shl".to_string(),
        TokenKind::Shr => "Shr".to_string(),
        TokenKind::Plus => "Plus".to_string(),
        TokenKind::Minus => "Minus".to_string(),
        TokenKind::Star => "Star".to_string(),
        TokenKind::Slash => "Slash".to_string(),
        TokenKind::Percent => "Percent".to_string(),
        TokenKind::LParen => "LParen".to_string(),
        TokenKind::RParen => "RParen".to_string(),
        TokenKind::LBracket => "LBracket".to_string(),
        TokenKind::RBracket => "RBracket".to_string(),
        TokenKind::LBrace => "LBrace".to_string(),
        TokenKind::RBrace => "RBrace".to_string(),
        TokenKind::Eof => "Eof".to_string(),
    }
}

} // verus!
