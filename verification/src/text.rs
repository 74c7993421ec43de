//! Text rendering: the few characters of output that a log line needs.

use vstd::prelude::*;
use vstd::string::*;

verus! {

/// `String::push`: appends one character to the end of the string.
pub assume_specification[ String::push ](string: &mut String, ch: char)
    ensures
        final(string)@ == old(string)@.push(ch),
;

/// The lower-case hexadecimal digit of `nibble`.
pub open spec fn hex_digit(nibble: u8) -> char {
    if nibble < 10 {
        (0x30 + nibble) as char
    } else {
        (0x57 + nibble) as char
    }
}

/// The two lower-case hexadecimal digits of `byte`.
pub open spec fn hex_byte(byte: u8) -> Seq<char> {
    seq![hex_digit(byte / 16), hex_digit(byte % 16)]
}

/// `byte` as it may safely appear in a log line: the usual backslash escapes for tab, carriage return,
/// line feed, quotes and backslash, printable ASCII as itself, and `\xNN` for everything else.
pub open spec fn escape_ascii(byte: u8) -> Seq<char> {
    if byte == 0x09 {
        seq!['\\', 't']
    } else if byte == 0x0d {
        seq!['\\', 'r']
    } else if byte == 0x0a {
        seq!['\\', 'n']
    } else if byte == 0x27 || byte == 0x22 || byte == 0x5c {
        seq!['\\', byte as char]
    } else if 0x20 <= byte <= 0x7e {
        seq![byte as char]
    } else {
        seq!['\\', 'x'] + hex_byte(byte)
    }
}

fn push_hex_digit(out: &mut String, nibble: u8)
    requires
        nibble < 16,
    ensures
        final(out)@ == old(out)@.push(hex_digit(nibble)),
{
    if nibble < 10 {
        out.push((0x30u8 + nibble) as char);
    } else {
        out.push((0x57u8 + nibble) as char);
    }
}

/// Append the two hexadecimal digits of `byte`.
pub(crate) fn push_hex_byte(out: &mut String, byte: u8)
    ensures
        final(out)@ == old(out)@ + hex_byte(byte),
{
    push_hex_digit(out, byte / 16);
    push_hex_digit(out, byte % 16);
    assert(out@ =~= old(out)@ + hex_byte(byte));
}

/// Append `byte`, escaped.
pub(crate) fn push_escaped(out: &mut String, byte: u8)
    ensures
        final(out)@ == old(out)@ + escape_ascii(byte),
{
    if byte == 0x09 {
        out.push('\\');
        out.push('t');
    } else if byte == 0x0d {
        out.push('\\');
        out.push('r');
    } else if byte == 0x0a {
        out.push('\\');
        out.push('n');
    } else if byte == 0x27 || byte == 0x22 || byte == 0x5c {
        out.push('\\');
        out.push(byte as char);
    } else if byte >= 0x20 && byte <= 0x7e {
        out.push(byte as char);
    } else {
        out.push('\\');
        out.push('x');
        push_hex_byte(out, byte);
    }
    assert(out@ =~= old(out)@ + escape_ascii(byte));
}

// ---------------------------------------------------------------------------------------------------
// Laws
// ---------------------------------------------------------------------------------------------------
/// The value of a lower-case hexadecimal digit, if `ch` is one.
pub open spec fn digit_value(ch: char) -> Option<int> {
    if '0' <= ch <= '9' {
        Some(ch as int - '0' as int)
    } else if 'a' <= ch <= 'f' {
        Some(ch as int - 'a' as int + 10)
    } else {
        None
    }
}

/// The byte that an escaped text stands for, if it stands for one.
pub open spec fn unescaped(text: Seq<char>) -> Option<int> {
    if text.len() == 1 {
        Some(text[0] as int)
    } else if text.len() == 2 && text[0] == '\\' {
        if text[1] == 't' {
            Some(9int)
        } else if text[1] == 'n' {
            Some(10int)
        } else if text[1] == 'r' {
            Some(13int)
        } else {
            Some(text[1] as int)
        }
    } else if text.len() == 4 && text[0] == '\\' && text[1] == 'x' && digit_value(text[2]) is Some
        && digit_value(text[3]) is Some {
        Some(16 * digit_value(text[2])->0 + digit_value(text[3])->0)
    } else {
        None
    }
}

/// Two hexadecimal digits read back as the byte they were made of.
pub proof fn law_hex_digits_read_back(byte: u8)
    ensures
        hex_byte(byte).len() == 2,
        digit_value(hex_byte(byte)[0]) is Some,
        digit_value(hex_byte(byte)[1]) is Some,
        16 * digit_value(hex_byte(byte)[0])->0 + digit_value(hex_byte(byte)[1])->0 == byte,
{
}

/// Escaping is safe and loses nothing: only printable ASCII comes out, it reads back as the byte, and it
/// is as short as it can be: a printable byte stands for itself, but for the quotes and the backslash,
/// which like tab, line feed and carriage return take a backslash and one more character, and all other
/// bytes are written in hexadecimal.
pub proof fn law_escaping_is_safe_and_reads_back(byte: u8)
    ensures
        forall|i: int|
            0 <= i < escape_ascii(byte).len() ==> ' ' <= #[trigger] escape_ascii(byte)[i] <= '~',
        unescaped(escape_ascii(byte)) == Some(byte as int),
        ({
            let quoted = byte == '"' as u8 || byte == '\'' as u8 || byte == '\\' as u8;
            let blank = byte == 9 || byte == 10 || byte == 13;
            escape_ascii(byte).len() == if quoted || blank {
                2nat
            } else if 0x20 <= byte <= 0x7e {
                1
            } else {
                4
            }
        }),
{
    law_hex_digits_read_back(byte);
    let text = escape_ascii(byte);
    if text.len() == 4 {
        assert(text[2] == hex_byte(byte)[0]);
        assert(text[3] == hex_byte(byte)[1]);
    }
}

} // verus!
