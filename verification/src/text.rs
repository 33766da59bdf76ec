use vstd::prelude::*;

verus! {

/// The characters of a string slice, as `str::chars` yields them.
/// Trusted: the vector holds exactly the characters of `s`, in order.
#[verifier::external_body]
pub fn chars_of(s: &str) -> (res: Vec<char>)
    ensures
        res@ == s@,
{
    s.chars().collect()
}

/// Appends a character with `String::push`.
/// Trusted: the string afterwards is the old one followed by `c`.
#[verifier::external_body]
pub fn push_char(s: &mut String, c: char)
    ensures
        final(s)@ == old(s)@.push(c),
{
    s.push(c)
}

/// Removes the last character with `String::pop`.
/// Trusted: an empty string stays empty and gives `None`; otherwise the last
/// character is removed and returned.
#[verifier::external_body]
pub fn pop_char(s: &mut String) -> (res: Option<char>)
    ensures
        old(s)@.len() == 0 ==> res is None && final(s)@ == old(s)@,
        old(s)@.len() > 0 ==> res == Some(old(s)@.last()) && final(s)@ == old(s)@.drop_last(),
{
    s.pop()
}

/// The decimal digits of `n`, most significant first, without leading zeros
/// (`"0"` for zero).
pub open spec fn decimal(n: nat) -> Seq<char>
    decreases n,
{
    if n < 10 {
        seq![digit_char(n)]
    } else {
        decimal(n / 10).push(digit_char(n % 10))
    }
}

/// The character of a decimal digit.
pub open spec fn digit_char(d: nat) -> char {
    if d == 0 {
        '0'
    } else if d == 1 {
        '1'
    } else if d == 2 {
        '2'
    } else if d == 3 {
        '3'
    } else if d == 4 {
        '4'
    } else if d == 5 {
        '5'
    } else if d == 6 {
        '6'
    } else if d == 7 {
        '7'
    } else if d == 8 {
        '8'
    } else {
        '9'
    }
}

/// Formats a number in decimal with its `Display` implementation (`to_string`).
/// Trusted: the text is the decimal representation of `n`.
#[verifier::external_body]
pub fn u64_to_string(n: u64) -> (res: String)
    ensures
        res@ == decimal(n as nat),
{
    n.to_string()
}

/// Whether `c` is a control character (`char::is_control`).
/// Trusted: the control characters are those of Unicode's general category
/// Cc, which are exactly U+0000 to U+001F and U+007F to U+009F.
#[verifier::external_body]
pub fn is_control(c: char) -> (res: bool)
    ensures
        res == (c as u32 <= 0x1f || (0x7f <= c as u32 && c as u32 <= 0x9f)),
{
    c.is_control()
}

} // verus!
