//! The names of region files: `r.<x>.<z>.mca`.

use vstd::prelude::*;
use vstd::string::{StringExecFns, StringSliceAdditionalSpecFns};
use vstd::utf8::{encode_utf8, is_ascii_chars, is_ascii_chars_encode_utf8};

verus! {

/// The byte is a decimal digit.
pub open spec fn is_digit(byte: u8) -> bool {
    48 <= byte <= 57
}

/// Every byte is a decimal digit.
pub open spec fn all_digits(text: Seq<u8>) -> bool {
    forall|i: int| 0 <= i < text.len() ==> is_digit(#[trigger] text[i])
}

/// The number that a sequence of decimal digits denotes.
pub open spec fn decimal_value(digits: Seq<u8>) -> nat
    decreases digits.len(),
{
    if digits.len() == 0 {
        0
    } else {
        decimal_value(digits.drop_last()) * 10 + (digits.last() - 48) as nat
    }
}

/// The digits of a text that denotes a number: the text without its sign.
pub open spec fn digits_of(text: Seq<u8>) -> Seq<u8> {
    if text.len() > 0 && (text[0] == 45 || text[0] == 43) {
        text.skip(1)
    } else {
        text
    }
}

/// The number that a text denotes: an optional sign, `+` or `-`, and then
/// decimal digits, at least one, and nothing else. The number has to fit
/// 32 bits.
pub open spec fn number_of(text: Seq<u8>) -> Option<int> {
    let digits = digits_of(text);
    let amount = decimal_value(digits) as int;
    let number = if text.len() > 0 && text[0] == 45 {
        -amount
    } else {
        amount
    };
    if digits.len() > 0 && all_digits(digits) && -0x8000_0000 <= number < 0x8000_0000 {
        Some(number)
    } else {
        None
    }
}

/// The name of a region file, made of the texts of its two coordinates.
pub open spec fn region_name_bytes(x: Seq<u8>, z: Seq<u8>) -> Seq<u8> {
    seq![114u8, 46u8] + x + seq![46u8] + z + seq![46u8, 109u8, 99u8, 97u8]
}

/// The name is that of the region file with the coordinates `(x, z)`.
pub open spec fn names_region(name: Seq<u8>, x: int, z: int) -> bool {
    exists|x_text: Seq<u8>, z_text: Seq<u8>|
        {
            &&& name == #[trigger] region_name_bytes(x_text, z_text)
            &&& number_of(x_text) == Some(x)
            &&& number_of(z_text) == Some(z)
        }
}

/// The value of digits grows with each further digit.
proof fn lemma_decimal_grows(digits: Seq<u8>, shorter: int)
    requires
        0 <= shorter <= digits.len(),
        all_digits(digits),
    ensures
        decimal_value(digits.subrange(0, shorter)) <= decimal_value(digits),
    decreases digits.len() - shorter,
{
    if shorter < digits.len() {
        let next = digits.subrange(0, shorter + 1);
        assert(next.drop_last() =~= digits.subrange(0, shorter));
        assert(is_digit(next.last()));
        lemma_decimal_grows(digits, shorter + 1);
    } else {
        assert(digits.subrange(0, shorter) =~= digits);
    }
}

/// Reads the number that the bytes from `start` up to `end` denote.
fn parse_number(bytes: &[u8], start: usize, end: usize) -> (r: Option<i32>)
    requires
        start <= end <= bytes@.len(),
    ensures
        match r {
            Some(number) => number_of(bytes@.subrange(start as int, end as int)) == Some(
                number as int,
            ),
            None => number_of(bytes@.subrange(start as int, end as int)) is None,
        },
{
    let ghost text = bytes@.subrange(start as int, end as int);
    if start == end {
        return None;
    }
    let negative = bytes[start] == 45;
    let signed = negative || bytes[start] == 43;
    let first: usize = if signed {
        start + 1
    } else {
        start
    };
    let ghost digits = digits_of(text);
    assert(text[0] == bytes@[start as int]);
    assert(digits =~= bytes@.subrange(first as int, end as int));
    if first == end {
        return None;
    }
    let mut amount: i64 = 0;
    let mut at: usize = first;
    assert(digits.subrange(0, 0) =~= Seq::<u8>::empty());
    while at < end
        invariant
            first <= at <= end <= bytes@.len(),
            start < end,
            text == bytes@.subrange(start as int, end as int),
            negative == (text[0] == 45),
            digits == digits_of(text),
            digits == bytes@.subrange(first as int, end as int),
            all_digits(digits.subrange(0, at - first)),
            amount == decimal_value(digits.subrange(0, at - first)),
            0 <= amount <= 0x8000_0000,
        decreases end - at,
    {
        let byte: u8 = bytes[at];
        let ghost before = digits.subrange(0, at - first);
        let ghost after = digits.subrange(0, at - first + 1);
        assert(after.drop_last() =~= before);
        assert(after.last() == byte);
        if byte < 48 || byte > 57 {
            assert(!is_digit(digits[at - first]));
            return None;
        }
        amount = amount * 10 + (byte - 48) as i64;
        assert(all_digits(after)) by {
            assert forall|i: int| 0 <= i < after.len() implies is_digit(#[trigger] after[i]) by {
                if i < before.len() {
                    assert(after[i] == before[i]);
                }
            }
        }
        if amount > 0x8000_0000 {
            proof {
                if all_digits(digits) {
                    lemma_decimal_grows(digits, at - first + 1);
                }
            }
            return None;
        }
        at = at + 1;
    }
    assert(digits.subrange(0, at - first) =~= digits);
    if negative {
        Some((-amount) as i32)
    } else if amount < 0x8000_0000 {
        Some(amount as i32)
    } else {
        None
    }
}

/// The position of the first dot at or behind `from`; the length of the
/// text where there is none.
pub open spec fn first_dot(text: Seq<u8>, from: int) -> int
    decreases text.len() - from,
{
    if from >= text.len() {
        text.len() as int
    } else if text[from] == 46 {
        from
    } else {
        first_dot(text, from + 1)
    }
}

/// Finds the first dot at or behind `from`.
fn find_dot(bytes: &[u8], from: usize) -> (r: usize)
    requires
        from <= bytes@.len(),
    ensures
        r == first_dot(bytes@, from as int),
        from <= r <= bytes@.len(),
        r < bytes@.len() ==> bytes@[r as int] == 46,
{
    let mut at: usize = from;
    while at < bytes.len() && bytes[at] != 46
        invariant
            from <= at <= bytes@.len(),
            first_dot(bytes@, from as int) == first_dot(bytes@, at as int),
        decreases bytes@.len() - at,
    {
        at = at + 1;
    }
    at
}

/// The coordinates that a name gives when it is read from the left: `r.`,
/// a number up to the next dot, a number up to the next dot, and `mca`.
pub open spec fn read_name(name: Seq<u8>) -> Option<(int, int)> {
    let first = first_dot(name, 2);
    let second = first_dot(name, first + 1);
    if name.len() >= 2 && name[0] == 114 && name[1] == 46 && first < name.len() && second
        < name.len() && name.subrange(second, name.len() as int) == seq![46u8, 109u8, 99u8, 97u8] {
        match (number_of(name.subrange(2, first)), number_of(name.subrange(first + 1, second))) {
            (Some(x), Some(z)) => Some((x, z)),
            _ => None,
        }
    } else {
        None
    }
}

/// A text that denotes a number holds no dot.
proof fn lemma_number_has_no_dot(text: Seq<u8>, i: int)
    requires
        number_of(text) is Some,
        0 <= i < text.len(),
    ensures
        text[i] != 46,
{
    let digits = digits_of(text);
    if text[0] == 45 || text[0] == 43 {
        if i > 0 {
            assert(is_digit(digits[i - 1]));
        }
    } else {
        assert(is_digit(digits[i]));
    }
}

/// The first dot behind a stretch without dots is the dot at its end.
proof fn lemma_first_dot(text: Seq<u8>, from: int, dot: int)
    requires
        0 <= from <= dot < text.len(),
        text[dot] == 46,
        forall|i: int| from <= i < dot ==> text[i] != 46,
    ensures
        first_dot(text, from) == dot,
    decreases dot - from,
{
    if from < dot {
        lemma_first_dot(text, from + 1, dot);
    }
}

/// The first dot lies at or behind the start of the search, and it is a
/// dot.
proof fn lemma_first_dot_is_dot(text: Seq<u8>, from: int)
    requires
        0 <= from <= text.len(),
    ensures
        from <= first_dot(text, from) <= text.len(),
        first_dot(text, from) < text.len() ==> text[first_dot(text, from)] == 46,
    decreases text.len() - from,
{
    if from < text.len() && text[from] != 46 {
        lemma_first_dot_is_dot(text, from + 1);
    }
}

/// Reading a name from the left gives the coordinates of the region that
/// the name is the file name of, and nothing for any other name.
pub proof fn lemma_read_name(name: Seq<u8>)
    ensures
        match read_name(name) {
            Some((x, z)) => names_region(name, x, z),
            None => forall|x: int, z: int| !names_region(name, x, z),
        },
        forall|x: int, z: int, other_x: int, other_z: int|
            names_region(name, x, z) && names_region(name, other_x, other_z) ==> x == other_x
                && z == other_z,
{
    let first = first_dot(name, 2);
    let second = first_dot(name, first + 1);
    let tail = seq![46u8, 109u8, 99u8, 97u8];
    assert forall|x: int, z: int| names_region(name, x, z) implies read_name(name) == Some(
        (x, z),
    ) by {
        let (x_text, z_text) = choose|x_text: Seq<u8>, z_text: Seq<u8>|
            {
                &&& name == #[trigger] region_name_bytes(x_text, z_text)
                &&& number_of(x_text) == Some(x)
                &&& number_of(z_text) == Some(z)
            };
        let dot_x: int = 2 + x_text.len() as int;
        let dot_z: int = dot_x + 1 + z_text.len() as int;
        assert(name.len() == dot_z + 4);
        assert forall|i: int| 2 <= i < dot_x implies name[i] != 46 by {
            assert(name[i] == x_text[i - 2]);
            lemma_number_has_no_dot(x_text, i - 2);
        }
        assert(name[dot_x] == 46);
        lemma_first_dot(name, 2, dot_x);
        assert forall|i: int| dot_x + 1 <= i < dot_z implies name[i] != 46 by {
            assert(name[i] == z_text[i - dot_x - 1]);
            lemma_number_has_no_dot(z_text, i - dot_x - 1);
        }
        assert(name[dot_z] == 46);
        lemma_first_dot(name, dot_x + 1, dot_z);
        assert(name.subrange(2, first) =~= x_text);
        assert(name.subrange(first + 1, second) =~= z_text);
        assert(name.subrange(second, name.len() as int) =~= tail);
    }
    match read_name(name) {
        Some((x, z)) => {
            lemma_first_dot_is_dot(name, 2);
            lemma_first_dot_is_dot(name, first + 1);
            let x_text = name.subrange(2, first);
            let z_text = name.subrange(first + 1, second);
            assert(0 <= second <= name.len());
            assert(name.subrange(second, name.len() as int) == tail);
            assert(tail.len() == 4);
            assert(name.subrange(second, name.len() as int).len() == name.len() - second);
            assert(name =~= region_name_bytes(x_text, z_text)) by {
                let built = region_name_bytes(x_text, z_text);
                assert(built.len() == name.len());
                assert forall|i: int| 0 <= i < name.len() implies name[i] == built[i] by {
                    if i >= second {
                        assert(name.subrange(second, name.len() as int)[i - second] == name[i]);
                    }
                }
            }
        },
        None => {},
    }
}

/// Parses a file name in the format `r.X.Z.mca` into the X and Z values.
pub fn parse_region_filename(name: &str) -> (r: Option<(i32, i32)>)
    ensures
        match r {
            Some((x, z)) => names_region(name.spec_bytes(), x as int, z as int),
            None => forall|x: int, z: int| !names_region(name.spec_bytes(), x, z),
        },
{
    let bytes = name.as_bytes();
    proof {
        lemma_read_name(bytes@);
    }
    let len: usize = bytes.len();
    if len < 2 || bytes[0] != 114 || bytes[1] != 46 {
        return None;
    }
    let first: usize = find_dot(bytes, 2);
    if first >= len {
        return None;
    }
    let second: usize = find_dot(bytes, first + 1);
    if second >= len {
        return None;
    }
    let ghost tail = bytes@.subrange(second as int, len as int);
    if len - second != 4 || bytes[second + 1] != 109 || bytes[second + 2] != 99 || bytes[second
        + 3] != 97 {
        assert(tail != seq![46u8, 109u8, 99u8, 97u8]) by {
            if tail.len() == 4 {
                assert(tail[1] == bytes@[second + 1]);
                assert(tail[2] == bytes@[second + 2]);
                assert(tail[3] == bytes@[second + 3]);
            }
        }
        return None;
    }
    assert(tail =~= seq![46u8, 109u8, 99u8, 97u8]);
    let x: i32 = match parse_number(bytes, 2, first) {
        Some(x) => x,
        None => {
            return None;
        },
    };
    let z: i32 = match parse_number(bytes, first + 1, second) {
        Some(z) => z,
        None => {
            return None;
        },
    };
    Some((x, z))
}

/// The character of a decimal digit.
pub open spec fn digit_char(digit: nat) -> char {
    if digit == 0 {
        '0'
    } else if digit == 1 {
        '1'
    } else if digit == 2 {
        '2'
    } else if digit == 3 {
        '3'
    } else if digit == 4 {
        '4'
    } else if digit == 5 {
        '5'
    } else if digit == 6 {
        '6'
    } else if digit == 7 {
        '7'
    } else if digit == 8 {
        '8'
    } else {
        '9'
    }
}

/// The decimal digits of a number, without leading zeros.
pub open spec fn decimal_text(number: nat) -> Seq<char>
    decreases number,
{
    if number < 10 {
        seq![digit_char(number)]
    } else {
        decimal_text(number / 10).push(digit_char(number % 10))
    }
}

/// A number as it is written in a file name: its decimal digits, after a
/// minus sign where it is negative.
pub open spec fn number_text(number: int) -> Seq<char> {
    if number < 0 {
        seq!['-'] + decimal_text((-number) as nat)
    } else {
        decimal_text(number as nat)
    }
}

/// The name of a file that belongs to a region: `r.<x>.<z>.<extension>`,
/// with `.tmp` behind it while the file is being written.
pub open spec fn file_name_text(x: int, z: int, extension: Seq<char>, temp: bool) -> Seq<char> {
    seq!['r', '.'] + number_text(x) + seq!['.'] + number_text(z) + seq!['.'] + extension + if temp {
        seq!['.', 't', 'm', 'p']
    } else {
        Seq::empty()
    }
}

/// A decimal digit as a text.
fn digit_str(digit: u8) -> (r: &'static str)
    requires
        digit < 10,
    ensures
        r@ == seq![digit_char(digit as nat)],
{
    proof {
        reveal_strlit("0");
        reveal_strlit("1");
        reveal_strlit("2");
        reveal_strlit("3");
        reveal_strlit("4");
        reveal_strlit("5");
        reveal_strlit("6");
        reveal_strlit("7");
        reveal_strlit("8");
        reveal_strlit("9");
    }
    let r = if digit == 0 {
        "0"
    } else if digit == 1 {
        "1"
    } else if digit == 2 {
        "2"
    } else if digit == 3 {
        "3"
    } else if digit == 4 {
        "4"
    } else if digit == 5 {
        "5"
    } else if digit == 6 {
        "6"
    } else if digit == 7 {
        "7"
    } else if digit == 8 {
        "8"
    } else {
        "9"
    };
    assert(r@ =~= seq![digit_char(digit as nat)]);
    r
}

/// Writes a number behind a text.
fn append_number(name: &mut String, number: i32)
    ensures
        final(name)@ == old(name)@ + number_text(number as int),
{
    let mut rest: i64 = number as i64;
    if number < 0 {
        proof {
            reveal_strlit("-");
        }
        name.append("-");
        rest = -rest;
    }
    let ghost start = name@;
    let ghost amount = rest as nat;
    assert(start =~= old(name)@ + if number < 0 {
        seq!['-']
    } else {
        Seq::<char>::empty()
    });
    let mut digits: Vec<u8> = Vec::new();
    let ghost mut tail: Seq<char> = Seq::empty();
    while rest >= 10
        invariant
            0 <= rest,
            decimal_text(amount) == decimal_text(rest as nat) + tail,
            tail.len() == digits@.len(),
            forall|i: int|
                0 <= i < digits@.len() ==> digits@[i] < 10 && tail[digits@.len() - 1 - i]
                    == digit_char(#[trigger] digits@[i] as nat),
        decreases rest,
    {
        let digit: u8 = (rest % 10) as u8;
        proof {
            let before = tail;
            tail = seq![digit_char(digit as nat)] + tail;
            assert(decimal_text(rest as nat) == decimal_text((rest / 10) as nat).push(
                digit_char(digit as nat),
            ));
            assert(decimal_text(rest as nat) + before =~= decimal_text((rest / 10) as nat) + tail);
        }
        digits.push(digit);
        rest = rest / 10;
    }
    name.append(digit_str(rest as u8));
    let mut left: usize = digits.len();
    while left > 0
        invariant
            left <= digits@.len(),
            tail.len() == digits@.len(),
            forall|i: int|
                0 <= i < digits@.len() ==> digits@[i] < 10 && tail[digits@.len() - 1 - i]
                    == digit_char(#[trigger] digits@[i] as nat),
            name@ == start + decimal_text(rest as nat) + tail.subrange(0, digits@.len() - left),
        decreases left,
    {
        left = left - 1;
        let ghost before = name@;
        name.append(digit_str(digits[left]));
        assert(tail.subrange(0, digits@.len() - left) =~= tail.subrange(
            0,
            digits@.len() - left - 1,
        ).push(tail[digits@.len() - left - 1]));
        assert(name@ =~= start + decimal_text(rest as nat) + tail.subrange(
            0,
            digits@.len() - left,
        ));
    }
    assert(tail.subrange(0, digits@.len() as int) =~= tail);
    assert(name@ =~= old(name)@ + number_text(number as int));
}

/// Makes the name of a file that belongs to a region: `r.X.Z.` and the
/// extension, with `.tmp` behind it for a temporary file.
pub fn region_file_name(x: i32, z: i32, extension: &str, temp: bool) -> (r: String)
    ensures
        r@ == file_name_text(x as int, z as int, extension@, temp),
{
    proof {
        reveal_strlit("r.");
        reveal_strlit(".");
        reveal_strlit(".tmp");
    }
    let mut name = String::from_str("r.");
    append_number(&mut name, x);
    name.append(".");
    append_number(&mut name, z);
    name.append(".");
    name.append(extension);
    if temp {
        name.append(".tmp");
    }
    assert(name@ =~= file_name_text(x as int, z as int, extension@, temp));
    name
}

/// The bytes of a text of characters that take one byte each.
pub open spec fn ascii_bytes(text: Seq<char>) -> Seq<u8> {
    text.map_values(|c: char| c as u8)
}

/// The digits of a number denote the number.
proof fn lemma_decimal_text(number: nat)
    ensures
        decimal_text(number).len() > 0,
        is_ascii_chars(decimal_text(number)),
        all_digits(ascii_bytes(decimal_text(number))),
        decimal_value(ascii_bytes(decimal_text(number))) == number,
    decreases number,
{
    let text = decimal_text(number);
    let bytes = ascii_bytes(text);
    let last = digit_char(number % 10);
    assert(last as u8 == 48 + number % 10 && '\0' <= last <= '\u{7f}');
    if number < 10 {
        assert(bytes.drop_last() =~= Seq::<u8>::empty());
        assert(bytes.last() == last as u8);
        assert(decimal_value(bytes.drop_last()) == 0);
    } else {
        lemma_decimal_text(number / 10);
        let upper = decimal_text(number / 10);
        assert(bytes.drop_last() =~= ascii_bytes(upper));
        assert(bytes.last() == last as u8);
        assert forall|i: int| 0 <= i < bytes.len() implies is_digit(#[trigger] bytes[i]) by {
            if i < upper.len() {
                assert(bytes[i] == ascii_bytes(upper)[i]);
            }
        }
        assert forall|i: int| 0 <= i < text.len() implies '\0' <= #[trigger] text[i]
            <= '\u{7f}' by {
            if i < upper.len() {
                assert(text[i] == upper[i]);
            }
        }
    }
}

/// A number as it is written in a file name denotes the number.
proof fn lemma_number_text(number: i32)
    ensures
        is_ascii_chars(number_text(number as int)),
        number_of(ascii_bytes(number_text(number as int))) == Some(number as int),
{
    let text = number_text(number as int);
    let bytes = ascii_bytes(text);
    if number < 0 {
        let amount = (-number) as nat;
        lemma_decimal_text(amount);
        assert('-' as u8 == 45);
        assert(bytes[0] == 45);
        assert(digits_of(bytes) =~= ascii_bytes(decimal_text(amount)));
        assert forall|i: int| 0 <= i < text.len() implies '\0' <= #[trigger] text[i]
            <= '\u{7f}' by {
            if i > 0 {
                assert(text[i] == decimal_text(amount)[i - 1]);
            }
        }
    } else {
        lemma_decimal_text(number as nat);
        assert(is_digit(bytes[0]));
        assert(digits_of(bytes) == bytes);
    }
}

/// The name that is made for the region file with the coordinates
/// `(x, z)` is read back as these coordinates.
pub proof fn lemma_file_name_is_read(x: i32, z: i32)
    ensures
        names_region(
            encode_utf8(file_name_text(x as int, z as int, seq!['m', 'c', 'a'], false)),
            x as int,
            z as int,
        ),
{
    let name = file_name_text(x as int, z as int, seq!['m', 'c', 'a'], false);
    let x_text = number_text(x as int);
    let z_text = number_text(z as int);
    lemma_number_text(x);
    lemma_number_text(z);
    assert('r' as u8 == 114 && '.' as u8 == 46 && 'm' as u8 == 109 && 'c' as u8 == 99 && 'a' as u8
        == 97);
    assert(is_ascii_chars(name)) by {
        assert forall|i: int| 0 <= i < name.len() implies '\0' <= #[trigger] name[i]
            <= '\u{7f}' by {
            if 2 <= i < 2 + x_text.len() {
                assert(name[i] == x_text[i - 2]);
            } else if 3 + x_text.len() <= i < 3 + x_text.len() + z_text.len() {
                assert(name[i] == z_text[i - 3 - x_text.len()]);
            }
        }
    }
    is_ascii_chars_encode_utf8(name);
    let bytes = encode_utf8(name);
    let built = region_name_bytes(ascii_bytes(x_text), ascii_bytes(z_text));
    assert(bytes =~= built) by {
        assert(bytes.len() == built.len());
        assert forall|i: int| 0 <= i < bytes.len() implies bytes[i] == built[i] by {
            assert(bytes[i] == name[i] as u8);
            if 2 <= i < 2 + x_text.len() {
                assert(name[i] == x_text[i - 2]);
            } else if 3 + x_text.len() <= i < 3 + x_text.len() + z_text.len() {
                assert(name[i] == z_text[i - 3 - x_text.len()]);
            }
        }
    }
}

} // verus!
