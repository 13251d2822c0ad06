use vstd::prelude::*;

verus! {

/// A problem found while scanning an escape sequence in
/// [`Mode::Strict`](crate::Mode::Strict).
///
/// Every variant carries the byte offset of the `ESC` (0x1B) that started
/// the offending sequence, so a caller can slice the original input to
/// inspect or log the exact bytes involved.
#[derive(Debug, Clone, Copy, PartialEq, Eq, Structural)]
pub enum ScanError {
    /// Input ended before the sequence reached a final byte.
    UnterminatedSequence { start: usize },
    /// A byte appeared that is not valid anywhere in the sequence, or
    /// appeared in the wrong position (for example a parameter byte after
    /// an intermediate byte).
    DisallowedByte { start: usize, byte: u8 },
    /// The sequence had more parameters than `MAX_PARAMS` allows.
    TooManyParameters { start: usize },
    /// A single parameter had more digits than `MAX_PARAM_LEN` allows.
    ParameterTooLarge { start: usize },
    /// The sequence is a recognized introducer (OSC, DCS, SOS, PM, or APC)
    /// for a string-terminated control sequence that cannot be handled.
    /// The scanner itself never reports it: it scans all of these.
    UnsupportedSequence { start: usize, byte: u8 },
}

impl ScanError {
    /// The offset that every variant carries.
    pub open spec fn spec_start(self) -> usize {
        match self {
            ScanError::UnterminatedSequence { start } => start,
            ScanError::DisallowedByte { start, .. } => start,
            ScanError::TooManyParameters { start } => start,
            ScanError::ParameterTooLarge { start } => start,
            ScanError::UnsupportedSequence { start, .. } => start,
        }
    }

    /// Byte offset, in the original input, of the `ESC` that started the
    /// sequence this error refers to.
    pub fn start(&self) -> (s: usize)
        ensures
            s == self.spec_start(),
    {
        match *self {
            ScanError::UnterminatedSequence { start } => start,
            ScanError::DisallowedByte { start, .. } => start,
            ScanError::TooManyParameters { start } => start,
            ScanError::ParameterTooLarge { start } => start,
            ScanError::UnsupportedSequence { start, .. } => start,
        }
    }

    /// The human-readable description of this error, as `to_string`
    /// renders it.
    pub open spec fn message(self) -> Seq<char> {
        match self {
            ScanError::UnterminatedSequence { start } => "unterminated escape sequence starting at byte "@
                + decimal_chars(start as nat),
            ScanError::DisallowedByte { start, byte } => "disallowed byte 0x"@ + hex_byte_chars(byte)
                + " in escape sequence starting at byte "@ + decimal_chars(start as nat),
            ScanError::TooManyParameters { start } => "too many parameters in escape sequence starting at byte "@
                + decimal_chars(start as nat),
            ScanError::ParameterTooLarge { start } => "parameter too long in escape sequence starting at byte "@
                + decimal_chars(start as nat),
            ScanError::UnsupportedSequence { start, byte } => "unsupported string sequence (introducer 0x"@
                + hex_byte_chars(byte) + ") starting at byte "@ + decimal_chars(start as nat),
        }
    }

    /// Renders the error as a sentence naming the offending byte (in
    /// two-digit upper-case hexadecimal) and the offset of the sequence (in
    /// decimal).
    pub fn to_string(&self) -> (s: String)
        ensures
            s@ == self.message(),
    {
        let mut s = String::new();
        match *self {
            ScanError::UnterminatedSequence { start } => {
                s.append("unterminated escape sequence starting at byte ");
                push_decimal(&mut s, start);
            },
            ScanError::DisallowedByte { start, byte } => {
                s.append("disallowed byte 0x");
                push_hex_byte(&mut s, byte);
                s.append(" in escape sequence starting at byte ");
                push_decimal(&mut s, start);
            },
            ScanError::TooManyParameters { start } => {
                s.append("too many parameters in escape sequence starting at byte ");
                push_decimal(&mut s, start);
            },
            ScanError::ParameterTooLarge { start } => {
                s.append("parameter too long in escape sequence starting at byte ");
                push_decimal(&mut s, start);
            },
            ScanError::UnsupportedSequence { start, byte } => {
                s.append("unsupported string sequence (introducer 0x");
                push_hex_byte(&mut s, byte);
                s.append(") starting at byte ");
                push_decimal(&mut s, start);
            },
        }
        s
    }
}

/// The character of a digit below sixteen: `0`-`9`, then `A`-`F`.
pub open spec fn digit_char(d: int) -> char {
    if d < 10 {
        (48 + d) as char
    } else {
        (55 + d) as char
    }
}

/// The decimal representation of `n`, without leading zeros.
pub open spec fn decimal_chars(n: nat) -> Seq<char>
    decreases n,
{
    if n < 10 {
        seq![digit_char(n as int)]
    } else {
        decimal_chars(n / 10).push(digit_char((n % 10) as int))
    }
}

/// The two-digit upper-case hexadecimal representation of `b`.
pub open spec fn hex_byte_chars(b: u8) -> Seq<char> {
    seq![digit_char((b / 16) as int), digit_char((b % 16) as int)]
}

fn digit_str(d: u8) -> (s: &'static str)
    requires
        d < 16,
    ensures
        s@ == seq![digit_char(d as int)],
{
    match d {
        0 => {
            proof {
                reveal_strlit("0");
            }
            "0"
        },
        1 => {
            proof {
                reveal_strlit("1");
            }
            "1"
        },
        2 => {
            proof {
                reveal_strlit("2");
            }
            "2"
        },
        3 => {
            proof {
                reveal_strlit("3");
            }
            "3"
        },
        4 => {
            proof {
                reveal_strlit("4");
            }
            "4"
        },
        5 => {
            proof {
                reveal_strlit("5");
            }
            "5"
        },
        6 => {
            proof {
                reveal_strlit("6");
            }
            "6"
        },
        7 => {
            proof {
                reveal_strlit("7");
            }
            "7"
        },
        8 => {
            proof {
                reveal_strlit("8");
            }
            "8"
        },
        9 => {
            proof {
                reveal_strlit("9");
            }
            "9"
        },
        10 => {
            proof {
                reveal_strlit("A");
            }
            "A"
        },
        11 => {
            proof {
                reveal_strlit("B");
            }
            "B"
        },
        12 => {
            proof {
                reveal_strlit("C");
            }
            "C"
        },
        13 => {
            proof {
                reveal_strlit("D");
            }
            "D"
        },
        14 => {
            proof {
                reveal_strlit("E");
            }
            "E"
        },
        _ => {
            proof {
                reveal_strlit("F");
            }
            "F"
        },
    }
}

fn push_decimal(out: &mut String, n: usize)
    ensures
        final(out)@ == old(out)@ + decimal_chars(n as nat),
    decreases n,
{
    if n >= 10 {
        push_decimal(out, n / 10);
    }
    out.append(digit_str((n % 10) as u8));
    proof {
        if n >= 10 {
            assert(final(out)@ =~= old(out)@ + decimal_chars(n as nat));
        }
    }
}

fn push_hex_byte(out: &mut String, b: u8)
    ensures
        final(out)@ == old(out)@ + hex_byte_chars(b),
{
    out.append(digit_str(b / 16));
    out.append(digit_str(b % 16));
    assert(out@ =~= old(out)@ + hex_byte_chars(b));
}

} // verus!
