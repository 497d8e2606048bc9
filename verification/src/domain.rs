//! The password alphabet: 42 printable characters, each paired with an
//! 8-bit code.  The code set is sparse; bytes outside it map to the
//! sentinel code 0xFF, and codes outside it map to the character '?'.

use vstd::prelude::*;

verus! {

use vstd::string::StrSliceExecFns;

/// The 42 password characters, in table order.
pub open spec fn spec_chars() -> Seq<char> {
    seq![
        'A', 'H', 'O', 'V', '1', '6', 'B', 'I', 'P', 'W', '2', '7',
        'C', 'J', 'Q', 'X', '3', '8', 'D', 'K', 'R', 'Y', '4', '9',
        'E', 'L', 'S', 'Z', '5', '0', 'F', 'M', 'T', '-', 'n', '!',
        'G', 'N', 'U', '.', 'm', 'c',
    ]
}

/// The codes of the 42 password characters, in the same order.
pub open spec fn spec_codes() -> Seq<u8> {
    seq![
        0x00u8, 0x01, 0x02, 0x03, 0x04, 0x05, 0x08, 0x09, 0x0A, 0x0B, 0x0C, 0x0D,
        0x10, 0x11, 0x12, 0x13, 0x14, 0x15, 0x18, 0x19, 0x1A, 0x1B, 0x1C, 0x1D,
        0x20, 0x21, 0x22, 0x23, 0x24, 0x25, 0x28, 0x29, 0x2A, 0x2B, 0x2C, 0x2D,
        0x30, 0x31, 0x32, 0x33, 0x34, 0x35,
    ]
}

/// Whether `code` is the code of some password character.
pub open spec fn is_code(code: u8) -> bool {
    spec_codes().contains(code)
}

/// Whether every element of `s` is a password-character code.
pub open spec fn all_codes(s: Seq<u8>) -> bool {
    forall|i: int| 0 <= i < s.len() ==> is_code(#[trigger] s[i])
}

/// The code of a character; 0xFF for a character outside the alphabet.
pub open spec fn spec_char_code(c: char) -> u8 {
    if c == 'A' { 0x00 } else if c == 'H' { 0x01 } else if c == 'O' { 0x02 }
    else if c == 'V' { 0x03 } else if c == '1' { 0x04 } else if c == '6' { 0x05 }
    else if c == 'B' { 0x08 } else if c == 'I' { 0x09 } else if c == 'P' { 0x0A }
    else if c == 'W' { 0x0B } else if c == '2' { 0x0C } else if c == '7' { 0x0D }
    else if c == 'C' { 0x10 } else if c == 'J' { 0x11 } else if c == 'Q' { 0x12 }
    else if c == 'X' { 0x13 } else if c == '3' { 0x14 } else if c == '8' { 0x15 }
    else if c == 'D' { 0x18 } else if c == 'K' { 0x19 } else if c == 'R' { 0x1A }
    else if c == 'Y' { 0x1B } else if c == '4' { 0x1C } else if c == '9' { 0x1D }
    else if c == 'E' { 0x20 } else if c == 'L' { 0x21 } else if c == 'S' { 0x22 }
    else if c == 'Z' { 0x23 } else if c == '5' { 0x24 } else if c == '0' { 0x25 }
    else if c == 'F' { 0x28 } else if c == 'M' { 0x29 } else if c == 'T' { 0x2A }
    else if c == '-' { 0x2B } else if c == 'n' { 0x2C } else if c == '!' { 0x2D }
    else if c == 'G' { 0x30 } else if c == 'N' { 0x31 } else if c == 'U' { 0x32 }
    else if c == '.' { 0x33 } else if c == 'm' { 0x34 } else if c == 'c' { 0x35 }
    else { 0xFF }
}

/// The character of a code; '?' for a code outside the table.
pub open spec fn spec_code_char(code: u8) -> char {
    if code == 0x00 { 'A' } else if code == 0x01 { 'H' } else if code == 0x02 { 'O' }
    else if code == 0x03 { 'V' } else if code == 0x04 { '1' } else if code == 0x05 { '6' }
    else if code == 0x08 { 'B' } else if code == 0x09 { 'I' } else if code == 0x0A { 'P' }
    else if code == 0x0B { 'W' } else if code == 0x0C { '2' } else if code == 0x0D { '7' }
    else if code == 0x10 { 'C' } else if code == 0x11 { 'J' } else if code == 0x12 { 'Q' }
    else if code == 0x13 { 'X' } else if code == 0x14 { '3' } else if code == 0x15 { '8' }
    else if code == 0x18 { 'D' } else if code == 0x19 { 'K' } else if code == 0x1A { 'R' }
    else if code == 0x1B { 'Y' } else if code == 0x1C { '4' } else if code == 0x1D { '9' }
    else if code == 0x20 { 'E' } else if code == 0x21 { 'L' } else if code == 0x22 { 'S' }
    else if code == 0x23 { 'Z' } else if code == 0x24 { '5' } else if code == 0x25 { '0' }
    else if code == 0x28 { 'F' } else if code == 0x29 { 'M' } else if code == 0x2A { 'T' }
    else if code == 0x2B { '-' } else if code == 0x2C { 'n' } else if code == 0x2D { '!' }
    else if code == 0x30 { 'G' } else if code == 0x31 { 'N' } else if code == 0x32 { 'U' }
    else if code == 0x33 { '.' } else if code == 0x34 { 'm' } else if code == 0x35 { 'c' }
    else { '?' }
}

/// The code of a character, 0xFF when the character is not in the alphabet.
pub fn char_to_code(c: char) -> (r: u8)
    ensures
        r == spec_char_code(c),
{
    match c {
        'A' => 0x00, 'H' => 0x01, 'O' => 0x02, 'V' => 0x03, '1' => 0x04, '6' => 0x05,
        'B' => 0x08, 'I' => 0x09, 'P' => 0x0A, 'W' => 0x0B, '2' => 0x0C, '7' => 0x0D,
        'C' => 0x10, 'J' => 0x11, 'Q' => 0x12, 'X' => 0x13, '3' => 0x14, '8' => 0x15,
        'D' => 0x18, 'K' => 0x19, 'R' => 0x1A, 'Y' => 0x1B, '4' => 0x1C, '9' => 0x1D,
        'E' => 0x20, 'L' => 0x21, 'S' => 0x22, 'Z' => 0x23, '5' => 0x24, '0' => 0x25,
        'F' => 0x28, 'M' => 0x29, 'T' => 0x2A, '-' => 0x2B, 'n' => 0x2C, '!' => 0x2D,
        'G' => 0x30, 'N' => 0x31, 'U' => 0x32, '.' => 0x33, 'm' => 0x34, 'c' => 0x35,
        _ => 0xFF,
    }
}

/// The character of a code, '?' when the code is not in the table.
pub fn code_to_char(code: u8) -> (r: char)
    ensures
        r == spec_code_char(code),
{
    match code {
        0x00 => 'A', 0x01 => 'H', 0x02 => 'O', 0x03 => 'V', 0x04 => '1', 0x05 => '6',
        0x08 => 'B', 0x09 => 'I', 0x0A => 'P', 0x0B => 'W', 0x0C => '2', 0x0D => '7',
        0x10 => 'C', 0x11 => 'J', 0x12 => 'Q', 0x13 => 'X', 0x14 => '3', 0x15 => '8',
        0x18 => 'D', 0x19 => 'K', 0x1A => 'R', 0x1B => 'Y', 0x1C => '4', 0x1D => '9',
        0x20 => 'E', 0x21 => 'L', 0x22 => 'S', 0x23 => 'Z', 0x24 => '5', 0x25 => '0',
        0x28 => 'F', 0x29 => 'M', 0x2A => 'T', 0x2B => '-', 0x2C => 'n', 0x2D => '!',
        0x30 => 'G', 0x31 => 'N', 0x32 => 'U', 0x33 => '.', 0x34 => 'm', 0x35 => 'c',
        _ => '?',
    }
}

/// The 42 password-character codes as a vector, in table order.
pub fn password_char_codes() -> (v: Vec<u8>)
    ensures
        v@ == spec_codes(),
{
    let v: Vec<u8> = vec![
        0x00u8, 0x01, 0x02, 0x03, 0x04, 0x05, 0x08, 0x09, 0x0A, 0x0B, 0x0C, 0x0D,
        0x10, 0x11, 0x12, 0x13, 0x14, 0x15, 0x18, 0x19, 0x1A, 0x1B, 0x1C, 0x1D,
        0x20, 0x21, 0x22, 0x23, 0x24, 0x25, 0x28, 0x29, 0x2A, 0x2B, 0x2C, 0x2D,
        0x30, 0x31, 0x32, 0x33, 0x34, 0x35,
    ];
    proof {
        assert(v@ =~= spec_codes());
    }
    v
}

/// The 42 password characters as a vector, in table order.
pub fn password_chars() -> (v: Vec<char>)
    ensures
        v@ == spec_chars(),
{
    let v: Vec<char> = vec![
        'A', 'H', 'O', 'V', '1', '6', 'B', 'I', 'P', 'W', '2', '7',
        'C', 'J', 'Q', 'X', '3', '8', 'D', 'K', 'R', 'Y', '4', '9',
        'E', 'L', 'S', 'Z', '5', '0', 'F', 'M', 'T', '-', 'n', '!',
        'G', 'N', 'U', '.', 'm', 'c',
    ];
    proof {
        assert(v@ =~= spec_chars());
    }
    v
}

/// Relies on String::push: appends exactly the given character.
#[verifier::external_body]
fn string_push(s: &mut String, c: char)
    ensures
        final(s)@ == old(s)@.push(c),
{
    s.push(c);
}

/// Renders a sequence of codes as the string of their characters.
pub fn to_string(password: &[u8]) -> (r: String)
    ensures
        r@.len() == password@.len(),
        forall|i: int| 0 <= i < password@.len() ==> r@[i] == spec_code_char(#[trigger] password@[i]),
{
    let mut s = String::new();
    let n = password.len();
    for i in 0..n
        invariant
            n == password@.len(),
            s@.len() == i,
            forall|j: int| 0 <= j < i ==> s@[j] == spec_code_char(#[trigger] password@[j]),
    {
        let c = code_to_char(password[i]);
        string_push(&mut s, c);
    }
    s
}

/// The position of a character in the table; 42 for one outside the alphabet.
pub open spec fn spec_char_index(c: char) -> usize {
    if c == 'A' { 0 } else if c == 'H' { 1 } else if c == 'O' { 2 }
    else if c == 'V' { 3 } else if c == '1' { 4 } else if c == '6' { 5 }
    else if c == 'B' { 6 } else if c == 'I' { 7 } else if c == 'P' { 8 }
    else if c == 'W' { 9 } else if c == '2' { 10 } else if c == '7' { 11 }
    else if c == 'C' { 12 } else if c == 'J' { 13 } else if c == 'Q' { 14 }
    else if c == 'X' { 15 } else if c == '3' { 16 } else if c == '8' { 17 }
    else if c == 'D' { 18 } else if c == 'K' { 19 } else if c == 'R' { 20 }
    else if c == 'Y' { 21 } else if c == '4' { 22 } else if c == '9' { 23 }
    else if c == 'E' { 24 } else if c == 'L' { 25 } else if c == 'S' { 26 }
    else if c == 'Z' { 27 } else if c == '5' { 28 } else if c == '0' { 29 }
    else if c == 'F' { 30 } else if c == 'M' { 31 } else if c == 'T' { 32 }
    else if c == '-' { 33 } else if c == 'n' { 34 } else if c == '!' { 35 }
    else if c == 'G' { 36 } else if c == 'N' { 37 } else if c == 'U' { 38 }
    else if c == '.' { 39 } else if c == 'm' { 40 } else if c == 'c' { 41 }
    else { 42 }
}

/// The position of a character in the table, 42 for one outside the alphabet.
pub fn to_charcode_index(c: char) -> (r: usize)
    ensures
        r == spec_char_index(c),
{
    match c {
        'A' => 0, 'H' => 1, 'O' => 2, 'V' => 3, '1' => 4, '6' => 5,
        'B' => 6, 'I' => 7, 'P' => 8, 'W' => 9, '2' => 10, '7' => 11,
        'C' => 12, 'J' => 13, 'Q' => 14, 'X' => 15, '3' => 16, '8' => 17,
        'D' => 18, 'K' => 19, 'R' => 20, 'Y' => 21, '4' => 22, '9' => 23,
        'E' => 24, 'L' => 25, 'S' => 26, 'Z' => 27, '5' => 28, '0' => 29,
        'F' => 30, 'M' => 31, 'T' => 32, '-' => 33, 'n' => 34, '!' => 35,
        'G' => 36, 'N' => 37, 'U' => 38, '.' => 39, 'm' => 40, 'c' => 41,
        _ => 42,
    }
}

/// The positions, in the character table, of the characters of `s`;
/// `None` exactly when some character of `s` is not in the alphabet.
pub fn to_charcode_indices(s: &str) -> (r: Option<Vec<usize>>)
    ensures
        match r {
            Some(v) => {
                &&& v@.len() == s@.len()
                &&& forall|i: int| 0 <= i < v@.len()
                    ==> #[trigger] v@[i] == spec_char_index(s@[i]) && v@[i] < 42
            },
            None => exists|i: int| 0 <= i < s@.len() && #[trigger] spec_char_index(s@[i]) == 42,
        },
{
    let n = s.unicode_len();
    let mut v: Vec<usize> = Vec::new();
    for i in 0..n
        invariant
            n == s@.len(),
            v@.len() == i,
            forall|j: int| 0 <= j < i
                ==> #[trigger] v@[j] == spec_char_index(s@[j]) && v@[j] < 42,
    {
        let c = s.get_char(i);
        let idx = to_charcode_index(c);
        if idx >= 42 {
            return None;
        }
        v.push(idx);
    }
    Some(v)
}

} // verus!
