//! The scanner: a cursor over borrowed text that skips trivia and recognizes
//! one token at a time, stopping at the first error.
use vstd::prelude::*;
use vstd::string::{StrSliceExecFns, StringSliceAdditionalSpecFns};
use vstd::utf8::*;
use crate::grammar::{
    ascii_text, block_end, char_at, digit_end, digits_value, is_ascii_digit, is_word_byte,
    lemma_block_end_bounded, lemma_line_end_bounded, lemma_recognize_advances,
    lemma_skip_trivia_bounded, lemma_trivia_end_bounded, lemma_word_end_bounded, line_end,
    recognize, scan, skip_trivia, starts_with_pair, trivia_end, white_space_len, word_end,
    word_token, CLOSE_BRACE, CLOSE_PAREN, DIGIT_NINE, DIGIT_ZERO, LOWER_A, LOWER_Z, NEWLINE,
    OPEN_BRACE, OPEN_PAREN, SEMICOLON, SLASH, STAR, UNDERSCORE, UPPER_A, UPPER_Z,
};
use crate::error::{ErrorView, LexerError};
use crate::token::{views_of, Token, TokenView};
use crate::utf8_facts::{lemma_boundaries_around_ascii, lemma_next_boundary, lemma_str_ascii};

verus! {

/// Which two-byte encodings are whitespace.
proof fn lemma_white_space_width_2(b1: u8, b2: u8)
    by (bit_vector)
    requires
        0xc0 <= b1 <= 0xdf,
        0x80 <= b2 <= 0xbf,
    ensures
        ((((b1 & 0x1f) as u32) << 6) | ((b2 & 0x3f) as u32)) <= 0x7ff,
        ((((b1 & 0x1f) as u32) << 6) | ((b2 & 0x3f) as u32)) == 0x85 <==> (b1 == 0xc2 && b2
            == 0x85),
        ((((b1 & 0x1f) as u32) << 6) | ((b2 & 0x3f) as u32)) == 0xa0 <==> (b1 == 0xc2 && b2
            == 0xa0),
{
}

/// Which three-byte encodings are whitespace.
proof fn lemma_white_space_width_3(b1: u8, b2: u8, b3: u8)
    by (bit_vector)
    requires
        0xe0 <= b1 <= 0xef,
        0x80 <= b2 <= 0xbf,
        0x80 <= b3 <= 0xbf,
    ensures
        ((((b1 & 0x0f) as u32) << 12) | (((b2 & 0x3f) as u32) << 6) | ((b3 & 0x3f) as u32))
            == 0x1680 <==> (b1 == 0xe1 && b2 == 0x9a && b3 == 0x80),
        (0x2000 <= ((((b1 & 0x0f) as u32) << 12) | (((b2 & 0x3f) as u32) << 6) | ((b3 & 0x3f) as u32))
            <= 0x200a) <==> (b1 == 0xe2 && b2 == 0x80 && b3 <= 0x8a),
        ((((b1 & 0x0f) as u32) << 12) | (((b2 & 0x3f) as u32) << 6) | ((b3 & 0x3f) as u32))
            == 0x2028 <==> (b1 == 0xe2 && b2 == 0x80 && b3 == 0xa8),
        ((((b1 & 0x0f) as u32) << 12) | (((b2 & 0x3f) as u32) << 6) | ((b3 & 0x3f) as u32))
            == 0x2029 <==> (b1 == 0xe2 && b2 == 0x80 && b3 == 0xa9),
        ((((b1 & 0x0f) as u32) << 12) | (((b2 & 0x3f) as u32) << 6) | ((b3 & 0x3f) as u32))
            == 0x202f <==> (b1 == 0xe2 && b2 == 0x80 && b3 == 0xaf),
        ((((b1 & 0x0f) as u32) << 12) | (((b2 & 0x3f) as u32) << 6) | ((b3 & 0x3f) as u32))
            == 0x205f <==> (b1 == 0xe2 && b2 == 0x81 && b3 == 0x9f),
        ((((b1 & 0x0f) as u32) << 12) | (((b2 & 0x3f) as u32) << 6) | ((b3 & 0x3f) as u32))
            == 0x3000 <==> (b1 == 0xe3 && b2 == 0x80 && b3 == 0x80),
{
}

fn white_space_len_at(b: &[u8], p: usize) -> (r: usize)
    requires
        p <= b@.len(),
        valid_utf8(b@),
        is_char_boundary(b@, p as int),
    ensures
        r as int == white_space_len(b@, p as int),
        r <= b@.len() - p,
{
    let n = b.len();
    if p >= n {
        return 0;
    }
    let c = b[p];
    proof {
        let s = b@;
        let rest = s.subrange(p as int, n as int);
        valid_utf8_split(s, p as int);
        assert(valid_first_scalar(rest));
        if is_leading_byte_width_1(c) {
            assert(c & 0x7f == c) by (bit_vector)
                requires
                    c <= 0x7f,
            ;
        } else if is_leading_byte_width_2(c) {
            lemma_white_space_width_2(c, s[p + 1]);
        } else if is_leading_byte_width_3(c) {
            lemma_white_space_width_3(c, s[p + 1], s[p + 2]);
        }
    }
    if (0x09 <= c && c <= 0x0d) || c == 0x20 {
        1
    } else if n - p > 1 && c == 0xc2 && (b[p + 1] == 0x85 || b[p + 1] == 0xa0) {
        2
    } else if n - p > 2 && ((c == 0xe1 && b[p + 1] == 0x9a && b[p + 2] == 0x80) || (c == 0xe2
        && b[p + 1] == 0x80 && ((0x80 <= b[p + 2] && b[p + 2] <= 0x8a) || b[p + 2] == 0xa8
        || b[p + 2] == 0xa9 || b[p + 2] == 0xaf)) || (c == 0xe2 && b[p + 1] == 0x81 && b[p + 2]
        == 0x9f) || (c == 0xe3 && b[p + 1] == 0x80 && b[p + 2] == 0x80)) {
        3
    } else {
        0
    }
}

fn line_end_from(b: &[u8], i: usize) -> (r: usize)
    requires
        i <= b@.len(),
    ensures
        r as int == line_end(b@, i as int),
{
    let mut j = i;
    while j < b.len() && b[j] != NEWLINE
        invariant
            i <= j <= b@.len(),
            line_end(b@, j as int) == line_end(b@, i as int),
        decreases b@.len() - j,
    {
        j += 1;
    }
    j
}

fn block_end_from(b: &[u8], i: usize) -> (r: usize)
    requires
        i <= b@.len(),
    ensures
        r as int == block_end(b@, i as int),
{
    let mut j = i;
    while b.len() - j > 1
        invariant
            i <= j <= b@.len(),
            block_end(b@, j as int) == block_end(b@, i as int),
        decreases b@.len() - j,
    {
        if b[j] == STAR && b[j + 1] == SLASH {
            return j + 2;
        }
        j += 1;
    }
    b.len()
}

fn trivia_end_at(b: &[u8], p: usize) -> (r: usize)
    requires
        p <= b@.len(),
        valid_utf8(b@),
        is_char_boundary(b@, p as int),
    ensures
        r as int == trivia_end(b@, p as int),
{
    let n = b.len();
    let ws = white_space_len_at(b, p);
    if ws > 0 {
        p + ws
    } else if n - p > 1 && b[p] == SLASH && b[p + 1] == SLASH {
        line_end_from(b, p + 2)
    } else if n - p > 1 && b[p] == SLASH && b[p + 1] == STAR {
        block_end_from(b, p + 2)
    } else {
        p
    }
}

/// Trivia that starts at a character boundary ends at one.
proof fn lemma_trivia_end_boundary(s: Seq<u8>, p: int)
    requires
        valid_utf8(s),
        0 <= p < s.len(),
        is_char_boundary(s, p),
    ensures
        is_char_boundary(s, trivia_end(s, p)),
{
    let n = s.len() as int;
    lemma_trivia_end_bounded(s, p);
    lemma_line_end_bounded(s, p + 2);
    lemma_block_end_bounded(s, p + 2);
    is_char_boundary_start_end_of_seq(s);
    let e = trivia_end(s, p);
    if white_space_len(s, p) > 0 {
        lemma_next_boundary(s, p);
    } else if e < n && starts_with_pair(s, p, SLASH, SLASH) {
        is_char_boundary_iff_not_is_continuation_byte(s, e);
    } else if e < n && starts_with_pair(s, p, SLASH, STAR) {
        lemma_boundaries_around_ascii(s, e - 1);
    }
}

fn is_word_byte_at(c: u8) -> (r: bool)
    ensures
        r == is_word_byte(c),
{
    (UPPER_A <= c && c <= UPPER_Z) || (LOWER_A <= c && c <= LOWER_Z) || (DIGIT_ZERO <= c && c
        <= DIGIT_NINE) || c == UNDERSCORE
}

fn word_end_from(b: &[u8], i: usize) -> (r: usize)
    requires
        i <= b@.len(),
    ensures
        r as int == word_end(b@, i as int),
{
    let mut j = i;
    while j < b.len() && is_word_byte_at(b[j])
        invariant
            i <= j <= b@.len(),
            word_end(b@, j as int) == word_end(b@, i as int),
        decreases b@.len() - j,
    {
        j += 1;
    }
    j
}

fn digit_end_from(b: &[u8], i: usize) -> (r: usize)
    requires
        i <= b@.len(),
    ensures
        r as int == digit_end(b@, i as int),
{
    let mut j = i;
    while j < b.len() && DIGIT_ZERO <= b[j] && b[j] <= DIGIT_NINE
        invariant
            i <= j <= b@.len(),
            digit_end(b@, j as int) == digit_end(b@, i as int),
        decreases b@.len() - j,
    {
        j += 1;
    }
    j
}

/// The value of the digits in `b[p..e]` as an `i32`, or `None` when it is
/// larger than `i32::MAX`.
fn parse_digits(b: &[u8], p: usize, e: usize) -> (r: Option<i32>)
    requires
        p <= e <= b@.len(),
        forall|k: int| p <= k < e ==> is_ascii_digit(#[trigger] b@[k]),
    ensures
        r == (if digits_value(b@.subrange(p as int, e as int)) <= i32::MAX {
            Some(digits_value(b@.subrange(p as int, e as int)) as i32)
        } else {
            None::<i32>
        }),
{
    let mut acc: u64 = 0;
    let mut j = p;
    while j < e
        invariant
            p <= j <= e <= b@.len(),
            forall|k: int| p <= k < e ==> is_ascii_digit(#[trigger] b@[k]),
            acc == digits_value(b@.subrange(p as int, j as int)),
            acc <= i32::MAX,
        decreases e - j,
    {
        let d = (b[j] - DIGIT_ZERO) as u64;
        let next = acc * 10 + d;
        proof {
            let ds = b@.subrange(p as int, j as int + 1);
            assert(ds.drop_last() =~= b@.subrange(p as int, j as int));
        }
        if next > i32::MAX as u64 {
            proof {
                let whole = b@.subrange(p as int, e as int);
                lemma_digits_value_prefix(whole, j - p + 1);
                assert(whole.subrange(0, j - p + 1) =~= b@.subrange(p as int, j as int + 1));
            }
            return None;
        }
        acc = next;
        j += 1;
    }
    Some(acc as i32)
}

/// A prefix of a digit run has a value no larger than the whole run.
proof fn lemma_digits_value_prefix(ds: Seq<u8>, k: int)
    requires
        0 <= k <= ds.len(),
    ensures
        digits_value(ds.subrange(0, k)) <= digits_value(ds),
    decreases ds.len(),
{
    if k == ds.len() {
        assert(ds.subrange(0, k) =~= ds);
    } else {
        lemma_digits_value_prefix(ds.drop_last(), k);
        assert(ds.drop_last().subrange(0, k) =~= ds.subrange(0, k));
    }
}

/// The text of `input`'s bytes `p..e`, all of which are below 0x80.
fn ascii_slice_text(input: &str, p: usize, e: usize) -> (r: String)
    requires
        p < e <= input.spec_bytes().len(),
        forall|k: int| p <= k < e ==> #[trigger] input.spec_bytes()[k] < 0x80,
    ensures
        r@ == ascii_text(input.spec_bytes().subrange(p as int, e as int)),
{
    let ghost s = input.spec_bytes();
    proof {
        broadcast use encode_utf8_valid_utf8;

        lemma_boundaries_around_ascii(s, p as int);
    }
    let (_, rest) = input.split_at(p);
    proof {
        broadcast use encode_utf8_valid_utf8;

        let t = rest.spec_bytes();
        lemma_boundaries_around_ascii(t, e - p - 1);
    }
    let (word, _) = rest.split_at(e - p);
    proof {
        let w = word.spec_bytes();
        assert(w =~= s.subrange(p as int, e as int));
        lemma_str_ascii(word@);
    }
    word.to_owned()
}

/// The character whose encoding starts at byte `p` of `input`.
fn char_at_byte(input: &str, p: usize) -> (r: char)
    requires
        p < input.spec_bytes().len(),
        is_char_boundary(input.spec_bytes(), p as int),
    ensures
        r == char_at(input.spec_bytes(), p as int),
{
    let (_, rest) = input.split_at(p);
    proof {
        assert(rest@.len() > 0);
        encode_utf8_first_scalar(rest@);
        char_u32_cast(rest@[0], decode_first_scalar(rest.spec_bytes()));
    }
    rest.get_char(0)
}

/// Distinct bytes below 0x80 read as distinct characters.
proof fn lemma_ascii_text_injective(a: Seq<u8>, c: Seq<u8>)
    requires
        ascii_text(a) == ascii_text(c),
    ensures
        a == c,
{
    assert(a.len() == ascii_text(a).len());
    assert forall|i: int| 0 <= i < a.len() implies a[i] == c[i] by {
        assert(ascii_text(a)[i] == ascii_text(c)[i]);
        assert(ascii_text(a)[i] == a[i] as char);
        assert(ascii_text(c)[i] == c[i] as char);
    }
    assert(a =~= c);
}

/// The token for the word in bytes `p..e`: a keyword when it spells one,
/// else an identifier.
fn word_token_at(input: &str, b: &[u8], p: usize, e: usize) -> (r: Token)
    requires
        b@ == input.spec_bytes(),
        p < e <= b@.len(),
        forall|k: int| p <= k < e ==> is_word_byte(#[trigger] b@[k]),
    ensures
        r@ == word_token(ascii_text(b@.subrange(p as int, e as int))),
{
    let ghost w = b@.subrange(p as int, e as int);
    let ghost kw_int = seq![0x69u8, 0x6e, 0x74];
    let ghost kw_void = seq![0x76u8, 0x6f, 0x69, 0x64];
    let ghost kw_return = seq![0x72u8, 0x65, 0x74, 0x75, 0x72, 0x6e];
    assert(ascii_text(kw_int) =~= seq!['i', 'n', 't']);
    assert(ascii_text(kw_void) =~= seq!['v', 'o', 'i', 'd']);
    assert(ascii_text(kw_return) =~= seq!['r', 'e', 't', 'u', 'r', 'n']);
    let len = e - p;
    if len == 3 && b[p] == 0x69 && b[p + 1] == 0x6e && b[p + 2] == 0x74 {
        assert(w =~= kw_int);
        Token::KwInt
    } else if len == 4 && b[p] == 0x76 && b[p + 1] == 0x6f && b[p + 2] == 0x69 && b[p + 3]
        == 0x64 {
        assert(w =~= kw_void);
        Token::KwVoid
    } else if len == 6 && b[p] == 0x72 && b[p + 1] == 0x65 && b[p + 2] == 0x74 && b[p + 3]
        == 0x75 && b[p + 4] == 0x72 && b[p + 5] == 0x6e {
        assert(w =~= kw_return);
        Token::KwReturn
    } else {
        proof {
            if ascii_text(w) == ascii_text(kw_int) {
                lemma_ascii_text_injective(w, kw_int);
                assert(w[0] == kw_int[0] && w[1] == kw_int[1] && w[2] == kw_int[2]);
            }
            if ascii_text(w) == ascii_text(kw_void) {
                lemma_ascii_text_injective(w, kw_void);
                assert(w[0] == kw_void[0] && w[1] == kw_void[1] && w[2] == kw_void[2] && w[3]
                    == kw_void[3]);
            }
            if ascii_text(w) == ascii_text(kw_return) {
                lemma_ascii_text_injective(w, kw_return);
                assert(w[0] == kw_return[0] && w[1] == kw_return[1] && w[2] == kw_return[2]
                    && w[3] == kw_return[3] && w[4] == kw_return[4] && w[5] == kw_return[5]);
            }
        }
        Token::Identifier(ascii_slice_text(input, p, e))
    }
}

/// The view of one recognizer outcome.
pub open spec fn outcome_view(r: Result<Token, LexerError>) -> Result<TokenView, ErrorView> {
    match r {
        Ok(t) => Ok(t@),
        Err(e) => Err(e@),
    }
}

/// The view of a whole scan's outcome.
pub open spec fn scan_view(r: Result<Vec<Token>, LexerError>) -> Result<Seq<TokenView>, ErrorView> {
    match r {
        Ok(ts) => Ok(views_of(ts@)),
        Err(e) => Err(e@),
    }
}

/// `ts` in front of the tokens of `r`; an error stays as it is.
pub open spec fn prepend(ts: Seq<TokenView>, r: Result<Seq<TokenView>, ErrorView>) -> Result<
    Seq<TokenView>,
    ErrorView,
> {
    match r {
        Ok(rest) => Ok(ts + rest),
        Err(e) => Err(e),
    }
}

/// A cursor over borrowed source text. It never copies the text, and its
/// position only moves forward.
pub struct Lexer<'a> {
    input: &'a str,
    position: usize,
}

impl<'a> Lexer<'a> {
    /// The UTF-8 bytes of the text being scanned.
    pub closed spec fn text(&self) -> Seq<u8> {
        self.input.spec_bytes()
    }

    /// The byte offset of the cursor.
    pub closed spec fn cursor(&self) -> int {
        self.position as int
    }

    /// The cursor lies within the text, at the start of a character or at the end.
    pub closed spec fn wf(&self) -> bool {
        &&& self.position <= self.input.spec_bytes().len()
        &&& is_char_boundary(self.input.spec_bytes(), self.position as int)
    }

    pub fn new(input: &'a str) -> (l: Self)
        ensures
            l.wf(),
            l.text() == input.spec_bytes(),
            l.cursor() == 0,
    {
        proof {
            broadcast use encode_utf8_valid_utf8;

            is_char_boundary_start_end_of_seq(input.spec_bytes());
        }
        Lexer { input, position: 0 }
    }

    /// Moves the cursor past every whitespace character and comment at it;
    /// tells whether it moved.
    fn skip_whitespaces_and_comments(&mut self) -> (r: bool)
        requires
            old(self).wf(),
        ensures
            final(self).wf(),
            final(self).text() == old(self).text(),
            final(self).cursor() == skip_trivia(old(self).text(), old(self).cursor()),
            r == (final(self).cursor() != old(self).cursor()),
    {
        let input = self.input;
        let b = input.as_bytes();
        let ghost s = b@;
        let ghost start = self.position as int;
        let mut skipped = false;
        proof {
            broadcast use encode_utf8_valid_utf8;

        }
        loop
            invariant
                self.input == input,
                b@ == s,
                s == input.spec_bytes(),
                valid_utf8(s),
                self.wf(),
                start <= self.position,
                skip_trivia(s, self.position as int) == skip_trivia(s, start),
                skipped == (self.position != start),
            ensures
                self.input == input,
                self.wf(),
                self.position == skip_trivia(s, start),
                skipped == (self.position != start),
            decreases b@.len() - self.position,
        {
            if self.position >= b.len() {
                break;
            }
            let e = trivia_end_at(b, self.position);
            if e == self.position {
                break;
            }
            proof {
                lemma_trivia_end_bounded(s, self.position as int);
                lemma_trivia_end_boundary(s, self.position as int);
            }
            self.position = e;
            skipped = true;
        }
        skipped
    }

    /// Skips trivia, then recognizes one token at the cursor; `None` at the
    /// end of the text.
    fn next_token_internal(&mut self) -> (r: Option<Result<Token, LexerError>>)
        requires
            old(self).wf(),
        ensures
            final(self).wf(),
            final(self).text() == old(self).text(),
            ({
                let s = old(self).text();
                let q = skip_trivia(s, old(self).cursor());
                if q >= s.len() {
                    r is None && final(self).cursor() == q
                } else {
                    &&& r is Some
                    &&& outcome_view(r->0) == recognize(s, q).0
                    &&& final(self).cursor() == recognize(s, q).1
                }
            }),
    {
        let _ = self.skip_whitespaces_and_comments();
        let input = self.input;
        let b = input.as_bytes();
        let ghost s = b@;
        proof {
            broadcast use encode_utf8_valid_utf8;

        }
        if self.position >= b.len() {
            return None;
        }
        let start = self.position;
        let c = b[start];
        proof {
            lemma_word_end_bounded(s, start as int);
            if c < 0x80 {
                lemma_boundaries_around_ascii(s, start as int);
            }
        }
        if c == OPEN_PAREN {
            self.position = start + 1;
            return Some(Ok(Token::OpenParen));
        }
        if c == CLOSE_PAREN {
            self.position = start + 1;
            return Some(Ok(Token::CloseParen));
        }
        if c == OPEN_BRACE {
            self.position = start + 1;
            return Some(Ok(Token::OpenBrace));
        }
        if c == CLOSE_BRACE {
            self.position = start + 1;
            return Some(Ok(Token::CloseBrace));
        }
        if c == SEMICOLON {
            self.position = start + 1;
            return Some(Ok(Token::Semicolon));
        }
        if (UPPER_A <= c && c <= UPPER_Z) || (LOWER_A <= c && c <= LOWER_Z) || c == UNDERSCORE {
            let e = word_end_from(b, start);
            proof {
                lemma_boundaries_around_ascii(s, e - 1);
            }
            self.position = e;
            return Some(Ok(word_token_at(input, b, start, e)));
        }
        if DIGIT_ZERO <= c && c <= DIGIT_NINE {
            let e = digit_end_from(b, start);
            if e == word_end_from(b, start) {
                proof {
                    lemma_boundaries_around_ascii(s, e - 1);
                }
                self.position = e;
                return match parse_digits(b, start, e) {
                    Some(v) => Some(Ok(Token::Constant(v))),
                    None => Some(
                        Err(
                            LexerError::InvalidInteger {
                                value: ascii_slice_text(input, start, e),
                                pos: start,
                            },
                        ),
                    ),
                };
            }
        }
        Some(Err(LexerError::UnexpectedCharacter { char: char_at_byte(input, start), pos: start }))
    }

    /// Scans the rest of the text: every token in order, or the first error
    /// alone. The text itself is left as it was.
    pub fn tokenize_all(&mut self) -> (r: Result<Vec<Token>, LexerError>)
        requires
            old(self).wf(),
        ensures
            final(self).wf(),
            final(self).text() == old(self).text(),
            scan_view(r) == scan(old(self).text(), old(self).cursor()),
            old(self).cursor() <= final(self).cursor(),
            r is Ok ==> final(self).cursor() == old(self).text().len(),
    {
        let mut tokens: Vec<Token> = Vec::new();
        let ghost s = self.text();
        let ghost start = self.cursor();
        loop
            invariant
                self.wf(),
                self.text() == s,
                s == old(self).text(),
                start == old(self).cursor(),
                0 <= start <= self.cursor() <= s.len(),
                scan(s, start) == prepend(views_of(tokens@), scan(s, self.cursor())),
            decreases s.len() - self.cursor(),
        {
            let ghost before = self.cursor();
            proof {
                lemma_skip_trivia_bounded(s, before);
                let q = skip_trivia(s, before);
                if q < s.len() {
                    lemma_recognize_advances(s, q);
                }
            }
            match self.next_token_internal() {
                None => {
                    assert(views_of(tokens@) =~= views_of(tokens@) + seq![]);
                    return Ok(tokens);
                },
                Some(Ok(t)) => {
                    let ghost old_tokens = tokens@;
                    tokens.push(t);
                    assert(views_of(tokens@) =~= views_of(old_tokens) + seq![t@]);
                    proof {
                        if let Ok(rest) = scan(s, self.cursor()) {
                            assert(views_of(old_tokens) + (seq![t@] + rest) =~= views_of(tokens@)
                                + rest);
                        }
                    }
                },
                Some(Err(e)) => {
                    return Err(e);
                },
            }
        }
    }
}

} // verus!
