//! The token grammar, stated over the UTF-8 bytes of the input.
use vstd::prelude::*;
use vstd::utf8::*;
use crate::error::ErrorView;
use crate::token::TokenView;

verus! {

pub const UPPER_A: u8 = 0x41;
pub const UPPER_Z: u8 = 0x5a;
pub const LOWER_A: u8 = 0x61;
pub const LOWER_Z: u8 = 0x7a;
pub const DIGIT_ZERO: u8 = 0x30;
pub const DIGIT_NINE: u8 = 0x39;
pub const UNDERSCORE: u8 = 0x5f;
pub const NEWLINE: u8 = 0x0a;
pub const STAR: u8 = 0x2a;
pub const SLASH: u8 = 0x2f;
pub const OPEN_PAREN: u8 = 0x28;
pub const CLOSE_PAREN: u8 = 0x29;
pub const OPEN_BRACE: u8 = 0x7b;
pub const CLOSE_BRACE: u8 = 0x7d;
pub const SEMICOLON: u8 = 0x3b;

pub open spec fn is_ascii_letter(c: u8) -> bool {
    (UPPER_A <= c && c <= UPPER_Z) || (LOWER_A <= c && c <= LOWER_Z)
}

pub open spec fn is_ascii_digit(c: u8) -> bool {
    DIGIT_ZERO <= c && c <= DIGIT_NINE
}

/// A byte that may continue an identifier or a constant.
pub open spec fn is_word_byte(c: u8) -> bool {
    is_ascii_letter(c) || is_ascii_digit(c) || c == UNDERSCORE
}

pub open spec fn is_ident_start(c: u8) -> bool {
    is_ascii_letter(c) || c == UNDERSCORE
}

/// The code points of Unicode's `White_Space` property.
pub open spec fn is_white_space(u: u32) -> bool {
    (0x09 <= u && u <= 0x0d) || u == 0x20 || u == 0x85 || u == 0xa0 || u == 0x1680 || (0x2000 <= u
        && u <= 0x200a) || u == 0x2028 || u == 0x2029 || u == 0x202f || u == 0x205f || u == 0x3000
}

/// The number of bytes of the whitespace character encoded at `p`, or 0 when
/// the character there is not whitespace.
pub open spec fn white_space_len(s: Seq<u8>, p: int) -> int {
    let rest = s.subrange(p, s.len() as int);
    if 0 <= p < s.len() && valid_first_scalar(rest) && is_white_space(decode_first_scalar(rest)) {
        length_of_first_scalar(rest)
    } else {
        0
    }
}

pub open spec fn starts_with_pair(s: Seq<u8>, p: int, a: u8, b: u8) -> bool {
    0 <= p && p + 1 < s.len() && s[p] == a && s[p + 1] == b
}

/// The first index at or after `i` that holds a newline, or the end of `s`.
pub open spec fn line_end(s: Seq<u8>, i: int) -> int
    decreases s.len() - i,
{
    if i >= s.len() {
        s.len() as int
    } else if s[i] == NEWLINE {
        i
    } else {
        line_end(s, i + 1)
    }
}

/// The index just past the first `*/` that starts at or after `i`, or the end
/// of `s` when there is none: an unclosed block comment runs to the end.
pub open spec fn block_end(s: Seq<u8>, i: int) -> int
    decreases s.len() - i,
{
    if i + 1 >= s.len() {
        s.len() as int
    } else if s[i] == STAR && s[i + 1] == SLASH {
        i + 2
    } else {
        block_end(s, i + 1)
    }
}

/// The index just past the whitespace character or comment that starts at
/// `p`, or `p` itself when none does.
pub open spec fn trivia_end(s: Seq<u8>, p: int) -> int {
    if white_space_len(s, p) > 0 {
        p + white_space_len(s, p)
    } else if starts_with_pair(s, p, SLASH, SLASH) {
        line_end(s, p + 2)
    } else if starts_with_pair(s, p, SLASH, STAR) {
        block_end(s, p + 2)
    } else {
        p
    }
}

/// The first position at or after `p` where no trivia starts.
pub open spec fn skip_trivia(s: Seq<u8>, p: int) -> int
    decreases s.len() - p,
    via skip_trivia_decreases
{
    if 0 <= p < s.len() && trivia_end(s, p) > p {
        skip_trivia(s, trivia_end(s, p))
    } else {
        p
    }
}

#[via_fn]
proof fn skip_trivia_decreases(s: Seq<u8>, p: int) {
    if 0 <= p < s.len() && trivia_end(s, p) > p {
        lemma_trivia_end_bounded(s, p);
    }
}

pub proof fn lemma_line_end_bounded(s: Seq<u8>, i: int)
    requires
        0 <= i,
    ensures
        line_end(s, i) <= s.len(),
        i <= s.len() ==> i <= line_end(s, i),
        line_end(s, i) < s.len() ==> s[line_end(s, i)] == NEWLINE,
    decreases s.len() - i,
{
    if i < s.len() && s[i] != NEWLINE {
        lemma_line_end_bounded(s, i + 1);
    }
}

pub proof fn lemma_block_end_bounded(s: Seq<u8>, i: int)
    requires
        0 <= i,
    ensures
        block_end(s, i) <= s.len(),
        i <= s.len() ==> i <= block_end(s, i),
        block_end(s, i) < s.len() ==> i + 2 <= block_end(s, i) && s[block_end(s, i) - 1] == SLASH,
    decreases s.len() - i,
{
    if i + 1 < s.len() && !(s[i] == STAR && s[i + 1] == SLASH) {
        lemma_block_end_bounded(s, i + 1);
    }
}

pub proof fn lemma_trivia_end_bounded(s: Seq<u8>, p: int)
    requires
        0 <= p <= s.len(),
    ensures
        p <= trivia_end(s, p) <= s.len(),
{
    lemma_line_end_bounded(s, p + 2);
    lemma_block_end_bounded(s, p + 2);
}

/// The first index at or after `i` that does not hold a word byte.
pub open spec fn word_end(s: Seq<u8>, i: int) -> int
    decreases s.len() - i,
{
    if 0 <= i < s.len() && is_word_byte(s[i]) {
        word_end(s, i + 1)
    } else {
        i
    }
}

/// The first index at or after `i` that does not hold an ASCII digit.
pub open spec fn digit_end(s: Seq<u8>, i: int) -> int
    decreases s.len() - i,
{
    if 0 <= i < s.len() && is_ascii_digit(s[i]) {
        digit_end(s, i + 1)
    } else {
        i
    }
}

/// ASCII bytes read as characters.
pub open spec fn ascii_text(bs: Seq<u8>) -> Seq<char> {
    bs.map_values(|c: u8| c as char)
}

pub open spec fn is_keyword(text: Seq<char>) -> bool {
    text == seq!['i', 'n', 't'] || text == seq!['v', 'o', 'i', 'd'] || text == seq![
        'r',
        'e',
        't',
        'u',
        'r',
        'n',
    ]
}

/// The token for a matched word: its keyword when it spells one, else an identifier.
pub open spec fn word_token(text: Seq<char>) -> TokenView {
    if text == seq!['i', 'n', 't'] {
        TokenView::KwInt
    } else if text == seq!['v', 'o', 'i', 'd'] {
        TokenView::KwVoid
    } else if text == seq!['r', 'e', 't', 'u', 'r', 'n'] {
        TokenView::KwReturn
    } else {
        TokenView::Identifier(text)
    }
}

/// The value of a run of decimal digits, most significant first.
pub open spec fn digits_value(ds: Seq<u8>) -> nat
    decreases ds.len(),
{
    if ds.len() == 0 {
        0
    } else {
        digits_value(ds.drop_last()) * 10 + (ds.last() - DIGIT_ZERO) as nat
    }
}

/// The character whose UTF-8 encoding starts at byte `p`.
pub open spec fn char_at(s: Seq<u8>, p: int) -> char {
    decode_first_scalar(s.subrange(p, s.len() as int)) as char
}

/// What the recognizer yields at a non-trivia byte `p`: a token or an error,
/// and the position the cursor is left at.
pub open spec fn recognize(s: Seq<u8>, p: int) -> (Result<TokenView, ErrorView>, int) {
    let c = s[p];
    if c == OPEN_PAREN {
        (Ok(TokenView::OpenParen), p + 1)
    } else if c == CLOSE_PAREN {
        (Ok(TokenView::CloseParen), p + 1)
    } else if c == OPEN_BRACE {
        (Ok(TokenView::OpenBrace), p + 1)
    } else if c == CLOSE_BRACE {
        (Ok(TokenView::CloseBrace), p + 1)
    } else if c == SEMICOLON {
        (Ok(TokenView::Semicolon), p + 1)
    } else if is_ident_start(c) {
        let e = word_end(s, p);
        (Ok(word_token(ascii_text(s.subrange(p, e)))), e)
    } else if is_ascii_digit(c) && digit_end(s, p) == word_end(s, p) {
        let e = digit_end(s, p);
        let v = digits_value(s.subrange(p, e));
        if v <= i32::MAX {
            (Ok(TokenView::Constant(v as i32)), e)
        } else {
            (Err(ErrorView::InvalidInteger { value: ascii_text(s.subrange(p, e)), pos: p as nat }), e)
        }
    } else {
        (Err(ErrorView::UnexpectedCharacter { ch: char_at(s, p), pos: p as nat }), p)
    }
}

/// The outcome of scanning `s` from byte `p` to its end: every token in order,
/// or the first error.
pub open spec fn scan(s: Seq<u8>, p: int) -> Result<Seq<TokenView>, ErrorView>
    decreases s.len() - p,
    via scan_decreases
{
    let q = skip_trivia(s, p);
    if 0 <= p && q < s.len() {
        let (r, e) = recognize(s, q);
        match r {
            Err(err) => Err(err),
            Ok(t) => match scan(s, e) {
                Ok(ts) => Ok(seq![t] + ts),
                Err(err) => Err(err),
            },
        }
    } else {
        Ok(seq![])
    }
}

#[via_fn]
proof fn scan_decreases(s: Seq<u8>, p: int) {
    let q = skip_trivia(s, p);
    if 0 <= p && q < s.len() {
        lemma_skip_trivia_bounded(s, p);
        lemma_recognize_advances(s, q);
    }
}

pub proof fn lemma_skip_trivia_bounded(s: Seq<u8>, p: int)
    requires
        0 <= p <= s.len(),
    ensures
        p <= skip_trivia(s, p) <= s.len(),
    decreases s.len() - p,
{
    if p < s.len() && trivia_end(s, p) > p {
        lemma_trivia_end_bounded(s, p);
        lemma_skip_trivia_bounded(s, trivia_end(s, p));
    }
}

pub proof fn lemma_word_end_bounded(s: Seq<u8>, i: int)
    requires
        0 <= i <= s.len(),
    ensures
        i <= word_end(s, i) <= s.len(),
        i <= digit_end(s, i) <= word_end(s, i),
        i < s.len() && is_word_byte(s[i]) ==> i < word_end(s, i),
        i < s.len() && is_ascii_digit(s[i]) ==> i < digit_end(s, i),
        forall|k: int| i <= k < word_end(s, i) ==> is_word_byte(#[trigger] s[k]),
        forall|k: int| i <= k < digit_end(s, i) ==> is_ascii_digit(#[trigger] s[k]),
    decreases s.len() - i,
{
    if i < s.len() {
        lemma_word_end_bounded(s, i + 1);
    }
}

/// Recognition at a byte inside `s` ends inside `s`, past the byte on success.
pub proof fn lemma_recognize_advances(s: Seq<u8>, p: int)
    requires
        0 <= p < s.len(),
    ensures
        p <= recognize(s, p).1 <= s.len(),
        recognize(s, p).0 is Ok ==> p < recognize(s, p).1,
{
    lemma_word_end_bounded(s, p);
}

} // verus!
