//! The wire codec: `<destination-token-as-decimal>~<content>`, the content
//! optionally ended by carriage returns, line feeds or NULs.

use vstd::prelude::*;
use vstd::string::*;
use vstd::utf8::*;

verus! {

/// The byte that parts the destination field from the content (`~`).
pub const DELIMITER: u8 = 126;

/// Why a buffer is not a message.
#[derive(Debug, Clone, Copy, PartialEq, Eq)]
pub enum ProtocolError {
    /// The buffer holds no delimiter.
    MissingDelimiter,
    /// The field before the delimiter is not a decimal token.
    InvalidDestination,
    /// The bytes after the delimiter are not UTF-8.
    InvalidText,
}

/// A decoded buffer: the recipient's token and the text for it.
#[derive(Debug, PartialEq, Eq)]
pub struct Frame {
    pub to: usize,
    pub content: String,
}

/// The characters that end a line on the wire.
pub open spec fn is_terminator(c: char) -> bool {
    c == '\n' || c == '\r' || c == '\0'
}

/// `text` without the line terminators at its end.
pub open spec fn strip_terminators(text: Seq<char>) -> Seq<char>
    decreases text.len(),
{
    if text.len() > 0 && is_terminator(text.last()) {
        strip_terminators(text.drop_last())
    } else {
        text
    }
}

/// `i` is where the first delimiter of `bytes` stands.
pub open spec fn splits_at(bytes: Seq<u8>, i: int) -> bool {
    &&& 0 <= i < bytes.len()
    &&& bytes[i] == DELIMITER
    &&& forall|j: int| 0 <= j < i ==> bytes[j] != DELIMITER
}

pub open spec fn has_delimiter(bytes: Seq<u8>) -> bool {
    exists|i: int| splits_at(bytes, i)
}

/// The index of the first delimiter, where there is one.
pub open spec fn delimiter_position(bytes: Seq<u8>) -> int {
    choose|i: int| splits_at(bytes, i)
}

pub open spec fn is_digit(b: u8) -> bool {
    48 <= b <= 57
}

pub open spec fn all_digits(field: Seq<u8>) -> bool {
    forall|i: int| 0 <= i < field.len() ==> is_digit(#[trigger] field[i])
}

/// The number that a run of ASCII digits writes in base ten.
pub open spec fn decimal(digits: Seq<u8>) -> nat
    decreases digits.len(),
{
    if digits.len() == 0 {
        0
    } else {
        10 * decimal(digits.drop_last()) + (digits.last() - 48) as nat
    }
}

/// `field` without a leading plus sign.
pub open spec fn unsigned(field: Seq<u8>) -> Seq<u8> {
    if field.len() > 0 && field[0] == 43 {
        field.skip(1)
    } else {
        field
    }
}

/// The token that a destination field names: one or more decimal digits,
/// with an optional plus sign before them, whose value fits a `usize`.
pub open spec fn destination(field: Seq<u8>) -> Option<usize> {
    let digits = unsigned(field);
    if digits.len() > 0 && all_digits(digits) && decimal(digits) <= usize::MAX {
        Some(decimal(digits) as usize)
    } else {
        None
    }
}

/// What a buffer decodes to. The buffer is split at its first delimiter only,
/// so the content may itself hold the delimiter.
pub open spec fn frame(bytes: Seq<u8>) -> Result<(usize, Seq<char>), ProtocolError> {
    if !has_delimiter(bytes) {
        Err(ProtocolError::MissingDelimiter)
    } else {
        let at = delimiter_position(bytes);
        let tail = bytes.skip(at + 1);
        match destination(bytes.take(at)) {
            None => Err(ProtocolError::InvalidDestination),
            Some(to) => if valid_utf8(tail) {
                Ok((to, strip_terminators(decode_utf8(tail))))
            } else {
                Err(ProtocolError::InvalidText)
            },
        }
    }
}

fn terminates(c: char) -> (r: bool)
    ensures
        r == is_terminator(c),
{
    c == '\n' || c == '\r' || c == '\0'
}

/// Strips the line terminators from the end of `line`.
pub fn newline_strip(line: &mut String)
    ensures
        final(line)@ == strip_terminators(old(line)@),
{
    let text = line.as_str();
    let mut end: usize = text.unicode_len();
    assert(text@.take(end as int) == text@);
    while end > 0 && terminates(text.get_char(end - 1))
        invariant
            end <= text@.len(),
            strip_terminators(text@) == strip_terminators(text@.take(end as int)),
        decreases end,
    {
        assert(text@.take(end as int).drop_last() == text@.take(end - 1));
        end -= 1;
    }
    assert(text@.subrange(0, end as int) == text@.take(end as int));
    let kept = String::from_str(text.substring_char(0, end));
    *line = kept;
}

/// `String::from_utf8`: the text that `bytes` encode, `None` where they are
/// not UTF-8.
#[verifier::external_body]
fn text_of(bytes: Vec<u8>) -> (text: Option<String>)
    ensures
        match text {
            Some(text) => valid_utf8(bytes@) && text@ == decode_utf8(bytes@),
            None => !valid_utf8(bytes@),
        },
{
    String::from_utf8(bytes).ok()
}

proof fn lemma_decimal_grows(digits: Seq<u8>, upto: int)
    requires
        0 <= upto <= digits.len(),
    ensures
        decimal(digits.take(upto)) <= decimal(digits),
    decreases digits.len() - upto,
{
    if upto < digits.len() {
        assert(digits.take(upto + 1).drop_last() == digits.take(upto));
        lemma_decimal_grows(digits, upto + 1);
    } else {
        assert(digits.take(upto) == digits);
    }
}

fn find_delimiter(bytes: &Vec<u8>) -> (found: Option<usize>)
    ensures
        match found {
            Some(at) => splits_at(bytes@, at as int),
            None => !has_delimiter(bytes@),
        },
{
    let mut at: usize = 0;
    while at < bytes.len()
        invariant
            at <= bytes.len(),
            forall|before: int| 0 <= before < at ==> bytes@[before] != DELIMITER,
        decreases bytes.len() - at,
    {
        if bytes[at] == DELIMITER {
            return Some(at);
        }
        at += 1;
    }
    None
}

/// Reads the destination field, the first `end` bytes of `bytes`.
fn parse_destination(bytes: &Vec<u8>, end: usize) -> (token: Option<usize>)
    requires
        end <= bytes.len(),
    ensures
        token == destination(bytes@.take(end as int)),
{
    let start: usize = if end > 0 && bytes[0] == 43 {
        1
    } else {
        0
    };
    let ghost digits = unsigned(bytes@.take(end as int));
    if start == end {
        return None;
    }
    let mut at: usize = start;
    let mut value: usize = 0;
    assert(digits.take(0).len() == 0);
    while at < end
        invariant
            start <= at <= end <= bytes.len(),
            digits == unsigned(bytes@.take(end as int)),
            digits.len() == end - start,
            forall|place: int| 0 <= place < digits.len() ==> digits[place] == bytes@[start + place],
            all_digits(digits.take(at - start)),
            value == decimal(digits.take(at - start)),
        decreases end - at,
    {
        let byte = bytes[at];
        let ghost seen = digits.take(at - start + 1);
        assert(seen.drop_last() == digits.take(at - start));
        assert(seen.last() == byte);
        if byte < 48 || byte > 57 {
            assert(!is_digit(digits[at - start]));
            return None;
        }
        let digit: usize = (byte - 48) as usize;
        if value > (usize::MAX - digit) / 10 {
            proof {
                assert(decimal(seen) == 10 * value + digit);
                lemma_decimal_grows(digits, at - start + 1);
            }
            return None;
        }
        value = value * 10 + digit;
        at += 1;
    }
    assert(digits.take(at - start) == digits);
    Some(value)
}

/// Decodes one buffer as it was read from a socket.
pub fn decode(bytes: &Vec<u8>) -> (decoded: Result<Frame, ProtocolError>)
    ensures
        match decoded {
            Ok(found) => frame(bytes@) == Ok::<(usize, Seq<char>), ProtocolError>(
                (found.to, found.content@),
            ),
            Err(error) => frame(bytes@) == Err::<(usize, Seq<char>), ProtocolError>(error),
        },
{
    let at = match find_delimiter(bytes) {
        Some(at) => at,
        None => {
            return Err(ProtocolError::MissingDelimiter);
        },
    };
    assert(delimiter_position(bytes@) == at) by {
        let chosen = delimiter_position(bytes@);
        assert(splits_at(bytes@, chosen));
        if chosen < at {
            assert(bytes@[chosen] != DELIMITER);
        }
        if at < chosen {
            assert(bytes@[at as int] != DELIMITER);
        }
    }
    let to = match parse_destination(bytes, at) {
        Some(to) => to,
        None => {
            return Err(ProtocolError::InvalidDestination);
        },
    };
    let mut tail: Vec<u8> = Vec::new();
    let mut next: usize = at + 1;
    while next < bytes.len()
        invariant
            at + 1 <= next <= bytes.len(),
            tail@ == bytes@.subrange(at + 1, next as int),
        decreases bytes.len() - next,
    {
        tail.push(bytes[next]);
        assert(tail@ == bytes@.subrange(at + 1, next + 1));
        next += 1;
    }
    assert(tail@ == bytes@.skip(at + 1));
    match text_of(tail) {
        Some(text) => {
            let mut content = text;
            newline_strip(&mut content);
            Ok(Frame { to, content })
        },
        None => Err(ProtocolError::InvalidText),
    }
}

} // verus!
