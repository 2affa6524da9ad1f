use vstd::prelude::*;
use vstd::string::StringExecFns;

verus! {

/// The single error that ends a scan. `pos` is a byte offset into the input.
#[derive(Debug, PartialEq)]
pub enum LexerError {
    /// The character at `pos` does not start any token.
    UnexpectedCharacter { char: char, pos: usize },
    /// The digit run at `pos` does not fit a 32-bit signed integer.
    InvalidInteger { value: String, pos: usize },
    /// No rule applied at `pos`; the recognizer never produces it on a non-empty remainder.
    NoMatch { pos: usize },
}

/// The mathematical value of a [`LexerError`].
pub enum ErrorView {
    UnexpectedCharacter { ch: char, pos: nat },
    InvalidInteger { value: Seq<char>, pos: nat },
    NoMatch { pos: nat },
}

impl View for LexerError {
    type V = ErrorView;

    open spec fn view(&self) -> ErrorView {
        match self {
            LexerError::UnexpectedCharacter { char, pos } => ErrorView::UnexpectedCharacter {
                ch: *char,
                pos: *pos as nat,
            },
            LexerError::InvalidInteger { value, pos } => ErrorView::InvalidInteger {
                value: value@,
                pos: *pos as nat,
            },
            LexerError::NoMatch { pos } => ErrorView::NoMatch { pos: *pos as nat },
        }
    }
}

/// The decimal digit character for `d < 10`.
pub open spec fn digit_char(d: nat) -> char {
    ((d + 0x30) as u8) as char
}

/// The decimal spelling of `n`, without leading zeros.
pub open spec fn decimal(n: nat) -> Seq<char>
    decreases n,
{
    if n < 10 {
        seq![digit_char(n)]
    } else {
        decimal(n / 10).push(digit_char(n % 10))
    }
}

/// The human-readable description of an error.
pub open spec fn message_of(e: ErrorView) -> Seq<char> {
    match e {
        ErrorView::UnexpectedCharacter { ch, pos } => "Unexpected character '"@ + seq![ch]
            + "' at position "@ + decimal(pos),
        ErrorView::InvalidInteger { value, pos } => "Invalid integer constant '"@ + value
            + "' at position "@ + decimal(pos),
        ErrorView::NoMatch { pos } => "No token matched at position "@ + decimal(pos),
    }
}

/// Relies on `String::push`: appends `c` to the end of the string.
#[verifier::external_body]
fn push_char(s: &mut String, c: char)
    ensures
        final(s)@ == old(s)@.push(c),
{
    s.push(c)
}

fn push_decimal(out: &mut String, n: usize)
    ensures
        final(out)@ == old(out)@ + decimal(n as nat),
    decreases n,
{
    if n >= 10 {
        push_decimal(out, n / 10);
    }
    let d = (n % 10) as u8;
    push_char(out, (d + 0x30) as char);
    proof {
        if n >= 10 {
            assert(decimal(n as nat) == decimal((n / 10) as nat).push(digit_char((n % 10) as nat)));
        }
    }
    assert(out@ =~= old(out)@ + decimal(n as nat));
}

impl LexerError {
    /// A one-line description of the error, naming its position.
    pub fn message(&self) -> (r: String)
        ensures
            r@ == message_of(self@),
    {
        match self {
            LexerError::UnexpectedCharacter { char, pos } => {
                let mut out = String::from_str("Unexpected character '");
                push_char(&mut out, *char);
                out.append("' at position ");
                push_decimal(&mut out, *pos);
                out
            },
            LexerError::InvalidInteger { value, pos } => {
                let mut out = String::from_str("Invalid integer constant '");
                out.append(value.as_str());
                out.append("' at position ");
                push_decimal(&mut out, *pos);
                out
            },
            LexerError::NoMatch { pos } => {
                let mut out = String::from_str("No token matched at position ");
                push_decimal(&mut out, *pos);
                out
            },
        }
    }
}

} // verus!
