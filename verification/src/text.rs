//! Names and texts: decoding, quoting, numbers, and letter case.

use vstd::prelude::*;
use vstd::string::*;
use vstd::utf8::*;

verus! {

/// The text that stands for `bytes` where they are not UTF-8: what
/// `String::from_utf8_lossy` makes of them.
pub uninterp spec fn repaired_text(bytes: Seq<u8>) -> Seq<char>;

/// The text in `bytes`, repaired where they are not UTF-8.
pub open spec fn text_of(bytes: Seq<u8>) -> Seq<char> {
    if valid_utf8(bytes) {
        decode_utf8(bytes)
    } else {
        repaired_text(bytes)
    }
}

/// Calls `String::from_utf8_lossy`. Bytes that are UTF-8 give the text that
/// they encode. Of other bytes it is said that they give a text of their own,
/// in which at least one replacement character stands; which stretches of
/// bytes become a replacement character is not said. Each character stands for
/// one byte or more, so the text is no longer than the bytes, and it has a NUL
/// only where they have one.
#[verifier::external_body]
pub(crate) fn decode_lossy(bytes: &[u8]) -> (text: String)
    ensures
        valid_utf8(bytes@) ==> text@ == decode_utf8(bytes@),
        !valid_utf8(bytes@) ==> text@ == repaired_text(bytes@),
        !valid_utf8(bytes@) ==> text@.contains('\u{FFFD}'),
        text@.len() <= bytes@.len(),
        text@.contains('\0') ==> bytes@.contains(0u8),
{
    String::from_utf8_lossy(bytes).into_owned()
}

/// The form in which `text` is shown in messages: what formatting it with
/// `{:?}` gives.
pub uninterp spec fn quoted(text: Seq<char>) -> Seq<char>;

/// Formats a text with `{:?}`: in double quotes, with special characters
/// escaped. The result is determined by the text; the table of escapes is not
/// said.
#[verifier::external_body]
pub(crate) fn quote(text: &str) -> (shown: String)
    ensures
        shown@ == quoted(text@),
{
    format!("{:?}", text)
}

/// The decimal digit for a number under ten.
pub open spec fn digit(value: nat) -> char
    recommends
        value < 10,
{
    (0x30 + value) as char
}

/// A number in decimal notation, without leading zeros.
pub open spec fn decimal(value: nat) -> Seq<char>
    decreases value,
{
    if value < 10 {
        seq![digit(value)]
    } else {
        decimal(value / 10).push(digit(value % 10))
    }
}

/// One decimal digit.
fn digit_text(value: u64) -> (text: &'static str)
    requires
        value < 10,
    ensures
        text@ == seq![digit(value as nat)],
{
    proof {
        reveal_strlit("0");
        reveal_strlit("1");
        reveal_strlit("2");
        reveal_strlit("3");
        reveal_strlit("4");
        reveal_strlit("5");
        reveal_strlit("6");
        reveal_strlit("7");
        reveal_strlit("8");
        reveal_strlit("9");
    }
    let text = match value {
        0 => "0",
        1 => "1",
        2 => "2",
        3 => "3",
        4 => "4",
        5 => "5",
        6 => "6",
        7 => "7",
        8 => "8",
        _ => "9",
    };
    assert(text@ =~= seq![digit(value as nat)]);
    text
}

/// A number in decimal notation.
pub fn decimal_text(value: u64) -> (text: String)
    ensures
        text@ == decimal(value as nat),
    decreases value,
{
    let mut text = if value < 10 {
        String::new()
    } else {
        decimal_text(value / 10)
    };
    text.append(digit_text(value % 10));
    assert(text@ =~= decimal(value as nat));
    text
}

/// `byte`, or the lower-case letter if it is an ASCII upper-case one.
pub open spec fn fold(byte: u8) -> u8 {
    if 0x41 <= byte <= 0x5a {
        (byte + 0x20) as u8
    } else {
        byte
    }
}

/// Whether two names are the same but for the case of ASCII letters.
pub open spec fn same_but_case(a: Seq<char>, b: Seq<char>) -> bool {
    encode_utf8(a).map_values(|byte: u8| fold(byte)) == encode_utf8(b).map_values(
        |byte: u8| fold(byte),
    )
}

/// Names are the same but for case in the manner of an equivalence: each is
/// the same as itself, and the relation is symmetric and transitive.
pub proof fn same_but_case_is_equivalence(a: Seq<char>, b: Seq<char>, c: Seq<char>)
    ensures
        same_but_case(a, a),
        same_but_case(a, b) ==> same_but_case(b, a),
        same_but_case(a, b) && same_but_case(b, c) ==> same_but_case(a, c),
{
}

/// Two names are the same but for case exactly if they are encoded in equally
/// many bytes, and the bytes at each position are equal or are the upper-case
/// and the lower-case form of one ASCII letter. So a difference in anything
/// but the case of an ASCII letter tells names apart.
pub proof fn only_the_case_of_ascii_letters_is_ignored(a: Seq<char>, b: Seq<char>)
    ensures
        same_but_case(a, b) <==> {
            let left = encode_utf8(a);
            let right = encode_utf8(b);
            &&& left.len() == right.len()
            &&& forall|i: int|
                #![trigger left[i]]
                #![trigger right[i]]
                0 <= i < left.len() ==> {
                    ||| left[i] == right[i]
                    ||| 0x41 <= left[i] <= 0x5a && right[i] == left[i] + 0x20
                    ||| 0x41 <= right[i] <= 0x5a && left[i] == right[i] + 0x20
                }
        },
{
    let left = encode_utf8(a);
    let right = encode_utf8(b);
    let folded_left = left.map_values(|byte: u8| fold(byte));
    let folded_right = right.map_values(|byte: u8| fold(byte));
    if same_but_case(a, b) {
        assert(left.len() == folded_left.len());
        assert(right.len() == folded_right.len());
        assert forall|i: int|
            #![trigger left[i]]
            #![trigger right[i]]
            0 <= i < left.len() implies {
            ||| left[i] == right[i]
            ||| 0x41 <= left[i] <= 0x5a && right[i] == left[i] + 0x20
            ||| 0x41 <= right[i] <= 0x5a && left[i] == right[i] + 0x20
        } by {
            assert(folded_left[i] == folded_right[i]);
        }
    } else if left.len() == right.len() {
        assert(!(folded_left =~= folded_right));
        let i = choose|i: int|
            0 <= i < folded_left.len() && #[trigger] folded_left[i] != folded_right[i];
        assert(left[i] != right[i]);
    }
}

/// What a number looks like in decimal notation: a number under ten is its
/// digit, and appending a digit to any other multiplies by ten and adds it.
/// There is no leading zero.
pub proof fn decimal_notation(value: nat, last: nat)
    requires
        last < 10,
    ensures
        decimal(last) == seq![seq!['0', '1', '2', '3', '4', '5', '6', '7', '8', '9'][last as int]],
        value > 0 ==> decimal(10 * value + last) == decimal(value).push(
            seq!['0', '1', '2', '3', '4', '5', '6', '7', '8', '9'][last as int],
        ),
        decimal(value).len() > 0,
        value > 0 ==> decimal(value)[0] != '0',
    decreases value,
{
    let digits = seq!['0', '1', '2', '3', '4', '5', '6', '7', '8', '9'];
    assert(digit(last) == digits[last as int]) by {
        assert(last == 0 || last == 1 || last == 2 || last == 3 || last == 4 || last == 5 || last
            == 6 || last == 7 || last == 8 || last == 9);
    }
    assert(decimal(last) =~= seq![digits[last as int]]);
    if value > 0 {
        assert((10 * value + last) / 10 == value);
        assert((10 * value + last) % 10 == last);
    }
    if value >= 10 {
        decimal_notation(value / 10, 0);
    }
}

/// Numbers are told apart by their notation, and each character of it is a
/// digit.
pub proof fn decimal_is_unambiguous(a: nat, b: nat)
    ensures
        decimal(a) == decimal(b) ==> a == b,
        forall|i: int| 0 <= i < decimal(a).len() ==> '0' <= #[trigger] decimal(a)[i] <= '9',
    decreases a,
{
    decimal_notation(a / 10, 0);
    decimal_notation(b / 10, 0);
    if a >= 10 {
        decimal_is_unambiguous(a / 10, b / 10);
    }
    if decimal(a) == decimal(b) {
        assert(decimal(a).last() == digit(a % 10));
        assert(decimal(b).last() == digit(b % 10));
        if a >= 10 && b >= 10 {
            assert(decimal(a).drop_last() =~= decimal(a / 10));
            assert(decimal(b).drop_last() =~= decimal(b / 10));
        }
    }
}

/// A padded text is the text itself, then spaces up to the width. A text that
/// is wide enough is left as it is.
pub proof fn padding_appends_spaces(text: Seq<char>, width: nat)
    ensures
        padded(text, width).len() == if text.len() < width {
            width
        } else {
            text.len()
        },
        text.is_prefix_of(padded(text, width)),
        forall|i: int| text.len() <= i < width ==> #[trigger] padded(text, width)[i] == ' ',
{
    assert(padded(text, width).take(text.len() as int) =~= text);
}

/// A text is encoded in the bytes that it was read from, if these are UTF-8;
/// otherwise it is what stands for them.
pub proof fn text_is_what_its_bytes_encode(bytes: Seq<u8>)
    ensures
        valid_utf8(bytes) ==> encode_utf8(text_of(bytes)) == bytes,
        !valid_utf8(bytes) ==> text_of(bytes) == repaired_text(bytes),
{
    if valid_utf8(bytes) {
        decode_utf8_encode_utf8(bytes);
    }
}

fn fold_byte(byte: u8) -> (folded: u8)
    ensures
        folded == fold(byte),
{
    if 0x41 <= byte && byte <= 0x5a {
        byte + 0x20
    } else {
        byte
    }
}

/// Whether two names are the same but for the case of ASCII letters.
pub fn eq_ignore_ascii_case(a: &str, b: &str) -> (same: bool)
    ensures
        same == same_but_case(a@, b@),
{
    let left = a.as_bytes();
    let right = b.as_bytes();
    let ghost folded_left = left@.map_values(|byte: u8| fold(byte));
    let ghost folded_right = right@.map_values(|byte: u8| fold(byte));
    if left.len() != right.len() {
        assert(folded_left.len() != folded_right.len());
        return false;
    }
    let mut i: usize = 0;
    while i < left.len()
        invariant
            left@ == encode_utf8(a@),
            right@ == encode_utf8(b@),
            left@.len() == right@.len(),
            i <= left@.len(),
            folded_left == left@.map_values(|byte: u8| fold(byte)),
            folded_right == right@.map_values(|byte: u8| fold(byte)),
            forall|k: int| 0 <= k < i ==> folded_left[k] == folded_right[k],
        decreases left@.len() - i,
    {
        if fold_byte(left[i]) != fold_byte(right[i]) {
            assert(folded_left[i as int] != folded_right[i as int]);
            return false;
        }
        i = i + 1;
    }
    assert(folded_left =~= folded_right);
    true
}

/// `text`, followed by as many spaces as it takes to be `width` characters
/// long.
pub open spec fn padded(text: Seq<char>, width: nat) -> Seq<char> {
    text + Seq::new(
        if text.len() < width {
            (width - text.len()) as nat
        } else {
            0
        },
        |i: int| ' ',
    )
}

/// `text` left-aligned in a field of `width` characters.
pub fn pad(text: &str, width: usize) -> (field: String)
    ensures
        field@ == padded(text@, width as nat),
{
    let mut len: usize = text.unicode_len();
    let mut field = text.to_owned();
    let ghost short = text@.len();
    proof {
        reveal_strlit(" ");
    }
    while len < width
        invariant
            short <= len,
            len <= width || len == short,
            field@ =~= text@ + Seq::new((len - short) as nat, |i: int| ' '),
            " "@ =~= seq![' '],
        decreases width - len,
    {
        field.append(" ");
        len = len + 1;
    }
    assert(field@ =~= padded(text@, width as nat));
    field
}

/// Whether two texts are equal.
pub fn same_text(a: &str, b: &str) -> (same: bool)
    ensures
        same == (a@ == b@),
{
    let left = a.as_bytes();
    let right = b.as_bytes();
    if left.len() != right.len() {
        return false;
    }
    let mut i: usize = 0;
    while i < left.len()
        invariant
            left@ == encode_utf8(a@),
            right@ == encode_utf8(b@),
            left@.len() == right@.len(),
            i <= left@.len(),
            forall|k: int| 0 <= k < i ==> left@[k] == right@[k],
        decreases left@.len() - i,
    {
        if left[i] != right[i] {
            return false;
        }
        i = i + 1;
    }
    proof {
        assert(left@ =~= right@);
        encode_utf8_decode_utf8(a@);
        encode_utf8_decode_utf8(b@);
    }
    true
}

} // verus!
