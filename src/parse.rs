use vstd::prelude::*;
use vstd::string::*;

use crate::dice::{die_with_faces, DiceToRoll, Die};

verus! {

/// Why a dice expression was rejected.
#[derive(Clone, Copy, Debug, PartialEq, Eq, Structural)]
pub enum ParseError {
    /// The part before the `d` is not a non-negative integer.
    InvalidCount,
    /// The part after the `d` is missing or not an integer.
    InvalidSize,
    /// The number of faces is not that of a supported die.
    UnsupportedDie,
}

/// The character that separates the count from the size, in either case.
pub open spec fn is_separator(c: char) -> bool {
    c == 'd' || c == 'D'
}

pub open spec fn is_digit(c: char) -> bool {
    '0' <= c && c <= '9'
}

pub open spec fn all_digits(s: Seq<char>) -> bool {
    forall|i: int| 0 <= i < s.len() ==> is_digit(#[trigger] s[i])
}

/// The value of a string of decimal digits, most significant first.
pub open spec fn digits_value(s: Seq<char>) -> int
    decreases s.len(),
{
    if s.len() == 0 {
        0
    } else {
        10 * digits_value(s.drop_last()) + (s.last() as int - '0' as int)
    }
}

/// What follows an optional leading plus sign.
pub open spec fn unsigned_body(s: Seq<char>) -> Seq<char> {
    if s.len() > 0 && s[0] == '+' {
        s.drop_first()
    } else {
        s
    }
}

/// `s` read as a decimal `u32`: an optional `+`, then one or more digits whose
/// value fits in 32 bits.
pub open spec fn decimal_u32(s: Seq<char>) -> Option<u32> {
    let b = unsigned_body(s);
    if b.len() > 0 && all_digits(b) && digits_value(b) <= u32::MAX {
        Some(digits_value(b) as u32)
    } else {
        None
    }
}

/// The index of the first separator at or after `i`, or the length of `s` if
/// there is none.
pub open spec fn separator_from(s: Seq<char>, i: int) -> int
    decreases s.len() - i,
{
    if i >= s.len() {
        s.len() as int
    } else if is_separator(s[i]) {
        i
    } else {
        separator_from(s, i + 1)
    }
}

/// The index of the first separator of `s`, or its length if there is none.
pub open spec fn separator_index(s: Seq<char>) -> int {
    separator_from(s, 0)
}

/// The count of dice that an expression names: 1 where nothing precedes the
/// separator, else the text before it read as a number.
pub open spec fn count_part(s: Seq<char>) -> Option<u32> {
    let k = separator_index(s);
    if k == 0 && k < s.len() {
        Some(1u32)
    } else {
        decimal_u32(s.take(k))
    }
}

/// The number of faces that an expression names: the text after the first
/// separator read as a number; nothing where there is no separator.
pub open spec fn size_part(s: Seq<char>) -> Option<u32> {
    let k = separator_index(s);
    if k < s.len() {
        decimal_u32(s.subrange(k + 1, s.len() as int))
    } else {
        None
    }
}

/// What a dice expression denotes, or the first check that it fails.
pub open spec fn parse_spec(s: Seq<char>) -> Result<DiceToRoll, ParseError> {
    match count_part(s) {
        None => Err(ParseError::InvalidCount),
        Some(number) => match size_part(s) {
            None => Err(ParseError::InvalidSize),
            Some(faces) => match die_with_faces(faces as int) {
                None => Err(ParseError::UnsupportedDie),
                Some(die) => Ok(DiceToRoll { die, number }),
            },
        },
    }
}

proof fn lemma_digits_value_nonneg(s: Seq<char>)
    requires
        all_digits(s),
    ensures
        digits_value(s) >= 0,
    decreases s.len(),
{
    if s.len() > 0 {
        assert(is_digit(s[s.len() - 1]));
        lemma_digits_value_nonneg(s.drop_last());
    }
}

/// A prefix of a string of digits has no greater value than the whole.
proof fn lemma_prefix_value_le(s: Seq<char>, j: int)
    requires
        all_digits(s),
        0 <= j <= s.len(),
    ensures
        digits_value(s.take(j)) <= digits_value(s),
    decreases s.len(),
{
    if j == s.len() {
        assert(s.take(j) =~= s);
    } else {
        let t = s.drop_last();
        assert(is_digit(s[s.len() - 1]));
        lemma_prefix_value_le(t, j);
        assert(t.take(j) =~= s.take(j));
        lemma_digits_value_nonneg(t);
    }
}

fn is_separator_char(c: char) -> (r: bool)
    ensures
        r == is_separator(c),
{
    c == 'd' || c == 'D'
}

/// Reads the characters `from..to` of `text` as a decimal `u32`.
fn parse_u32(text: &str, from: usize, to: usize) -> (r: Option<u32>)
    requires
        from <= to <= text@.len(),
    ensures
        r == decimal_u32(text@.subrange(from as int, to as int)),
{
    let ghost s = text@.subrange(from as int, to as int);
    let mut i: usize = from;
    if i < to && text.get_char(i) == '+' {
        i = i + 1;
        assert(unsigned_body(s) =~= text@.subrange(i as int, to as int));
    } else {
        assert(unsigned_body(s) =~= text@.subrange(i as int, to as int));
    }
    let start: usize = i;
    let ghost body = unsigned_body(s);
    if start == to {
        return None;
    }
    let mut acc: u64 = 0;
    while i < to
        invariant
            from <= start <= i <= to <= text@.len(),
            body == text@.subrange(start as int, to as int),
            s == text@.subrange(from as int, to as int),
            body == unsigned_body(s),
            all_digits(body.take(i - start)),
            acc == digits_value(body.take(i - start)),
            acc <= u32::MAX,
        decreases to - i,
    {
        let c = text.get_char(i);
        let ghost j: int = i - start;
        if !('0' <= c && c <= '9') {
            assert(!is_digit(body[j]));
            return None;
        }
        let ghost next = body.take(j + 1);
        assert(next.drop_last() =~= body.take(j));
        assert(next.last() == c);
        acc = acc * 10 + (c as u64 - '0' as u64);
        i = i + 1;
        assert(all_digits(body.take(i - start))) by {
            assert(body.take(i - start) =~= next);
        }
        if acc > u32::MAX as u64 {
            proof {
                if all_digits(body) {
                    lemma_prefix_value_le(body, j + 1);
                }
            }
            return None;
        }
    }
    assert(body.take(i - start) =~= body);
    Some(acc as u32)
}

impl DiceToRoll {
    /// Reads a dice expression such as `2d6`, `D20` or `d100`: an optional
    /// count, the letter `d` in either case, and a number of faces. A missing
    /// count means one die.
    pub fn from_string(s: String) -> (r: Result<DiceToRoll, ParseError>)
        ensures
            r == parse_spec(s@),
    {
        let text = s.as_str();
        let n = text.unicode_len();
        let mut k: usize = 0;
        while k < n && !is_separator_char(text.get_char(k))
            invariant
                0 <= k <= n == text@.len(),
                text@ == s@,
                separator_index(s@) == separator_from(s@, k as int),
            decreases n - k,
        {
            k = k + 1;
        }
        assert(separator_index(s@) == k);
        assert(s@.take(k as int) =~= s@.subrange(0, k as int));
        let count = if k == 0 && k < n {
            Some(1u32)
        } else {
            parse_u32(text, 0, k)
        };
        let number = match count {
            None => {
                return Err(ParseError::InvalidCount);
            },
            Some(x) => x,
        };
        let size = if k < n {
            parse_u32(text, k + 1, n)
        } else {
            None
        };
        let faces = match size {
            None => {
                return Err(ParseError::InvalidSize);
            },
            Some(x) => x,
        };
        match Die::from_sides(faces) {
            None => Err(ParseError::UnsupportedDie),
            Some(die) => Ok(DiceToRoll::new(number, die)),
        }
    }
}

/// No separator occurs in `s`.
pub open spec fn no_separator(s: Seq<char>) -> bool {
    forall|i: int| 0 <= i < s.len() ==> !is_separator(#[trigger] s[i])
}

proof fn lemma_separator_after(s: Seq<char>, k: int, i: int)
    requires
        0 <= i <= k < s.len(),
        is_separator(s[k]),
        forall|j: int| 0 <= j < k ==> !is_separator(#[trigger] s[j]),
    ensures
        separator_from(s, i) == k,
    decreases k - i,
{
    if i < k {
        lemma_separator_after(s, k, i + 1);
    }
}

/// How an expression made of a count, a separator and a size splits.
proof fn lemma_split(count: Seq<char>, sep: char, size: Seq<char>)
    requires
        no_separator(count),
        is_separator(sep),
    ensures
        ({
            let s = count + seq![sep] + size;
            &&& count_part(s) == if count.len() == 0 {
                Some(1u32)
            } else {
                decimal_u32(count)
            }
            &&& size_part(s) == decimal_u32(size)
        }),
{
    let s = count + seq![sep] + size;
    let k = count.len() as int;
    assert forall|j: int| 0 <= j < k implies !is_separator(#[trigger] s[j]) by {
        assert(s[j] == count[j]);
    }
    lemma_separator_after(s, k, 0);
    assert(s.take(k) =~= count);
    assert(s.subrange(k + 1, s.len() as int) =~= size);
}

/// A non-empty string of digits whose value fits in 32 bits reads as that value.
proof fn lemma_decimal_of_digits(s: Seq<char>)
    requires
        s.len() > 0,
        all_digits(s),
        digits_value(s) <= u32::MAX,
    ensures
        decimal_u32(s) == Some(digits_value(s) as u32),
        no_separator(s),
{
    assert(is_digit(s[0]));
}

/// An expression `NdM`, with a count `N` that fits in 32 bits and the faces
/// `M` of a supported die, denotes `N` dice with `M` faces.
pub proof fn lemma_parse_count_and_size(count: Seq<char>, sep: char, size: Seq<char>)
    requires
        count.len() > 0,
        all_digits(count),
        digits_value(count) <= u32::MAX,
        is_separator(sep),
        size.len() > 0,
        all_digits(size),
        die_with_faces(digits_value(size)) is Some,
    ensures
        parse_spec(count + seq![sep] + size) == Ok::<DiceToRoll, ParseError>(
            DiceToRoll {
                die: die_with_faces(digits_value(size))->Some_0,
                number: digits_value(count) as u32,
            },
        ),
{
    lemma_decimal_of_digits(count);
    lemma_decimal_of_digits(size);
    lemma_split(count, sep, size);
}

/// An expression with nothing before the separator names one die: where it
/// is accepted, its count is 1, and `dM` with the faces `M` of a supported
/// die denotes one die with `M` faces.
pub proof fn lemma_parse_default_count(sep: char, size: Seq<char>)
    requires
        is_separator(sep),
    ensures
        parse_spec(seq![sep] + size) matches Ok(d) ==> d.number == 1,
        all_digits(size) && size.len() > 0 && die_with_faces(digits_value(size)) is Some
            ==> parse_spec(seq![sep] + size) == Ok::<DiceToRoll, ParseError>(
            DiceToRoll { die: die_with_faces(digits_value(size))->Some_0, number: 1 },
        ),
{
    let empty = Seq::<char>::empty();
    assert(empty + seq![sep] + size =~= seq![sep] + size);
    lemma_split(empty, sep, size);
    if all_digits(size) && size.len() > 0 && die_with_faces(digits_value(size)) is Some {
        lemma_decimal_of_digits(size);
    }
}

/// An expression whose count is absent or a number, and whose size is a
/// number that no supported die has as faces, is rejected as an unsupported
/// die.
pub proof fn lemma_parse_unsupported_die(count: Seq<char>, sep: char, size: Seq<char>)
    requires
        count.len() == 0 || (all_digits(count) && digits_value(count) <= u32::MAX),
        is_separator(sep),
        size.len() > 0,
        all_digits(size),
        digits_value(size) <= u32::MAX,
        die_with_faces(digits_value(size)) is None,
    ensures
        parse_spec(count + seq![sep] + size) == Err::<DiceToRoll, ParseError>(
            ParseError::UnsupportedDie,
        ),
{
    if count.len() > 0 {
        lemma_decimal_of_digits(count);
    }
    lemma_decimal_of_digits(size);
    lemma_digits_value_nonneg(size);
    lemma_split(count, sep, size);
}

/// An expression whose count is not a number is rejected for its count; one
/// whose count is absent or a number and whose size is not a number is
/// rejected for its size.
pub proof fn lemma_parse_not_a_number(count: Seq<char>, sep: char, size: Seq<char>)
    requires
        no_separator(count),
        is_separator(sep),
    ensures
        count.len() > 0 && decimal_u32(count) is None ==> parse_spec(count + seq![sep] + size)
            == Err::<DiceToRoll, ParseError>(ParseError::InvalidCount),
        (count.len() == 0 || decimal_u32(count) is Some) && decimal_u32(size) is None
            ==> parse_spec(count + seq![sep] + size) == Err::<DiceToRoll, ParseError>(
            ParseError::InvalidSize,
        ),
{
    lemma_split(count, sep, size);
}

} // verus!
