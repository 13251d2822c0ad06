//! Semantic interpretation of SGR (`ESC [ ... m`) sequences.
//!
//! [`parse_csi_params`] turns a CSI sequence into integer fields but doesn't
//! know what those integers mean; the meaning is specific to which final
//! byte the sequence ends in. This module covers the one final byte almost
//! every terminal-writing program cares about: `m`, Select Graphic
//! Rendition, which sets colors and text attributes.

use vstd::prelude::*;

use crate::csi::{csi_body, csi_params, parse_csi_params, CsiParam};
use crate::scanner::is_intermediate;

verus! {

/// `m`, the final byte of an SGR sequence.
pub const SGR_FINAL: u8 = 0x6D;

/// A color selected by an SGR foreground/background attribute.
#[derive(Debug, Clone, Copy, PartialEq, Eq, Structural)]
pub enum Color {
    /// One of the eight standard colors (0 = black .. 7 = white), set by
    /// `30..=37` or `40..=47`.
    Named(u8),
    /// One of the eight bright colors, set by the non-standard but
    /// near-universal `90..=97` / `100..=107` range.
    BrightNamed(u8),
    /// A 256-color palette index, set by `38;5;n` or `48;5;n`.
    Indexed(u8),
    /// A 24-bit color, set by `38;2;r;g;b` or `48;2;r;g;b`.
    Rgb(u8, u8, u8),
}

/// One effect of an SGR sequence, in the order its parameter appeared.
///
/// A single sequence can carry several of these: `ESC[1;31m` is
/// `[Bold, Foreground(Named(1))]`.
#[derive(Debug, Clone, Copy, PartialEq, Eq, Structural)]
pub enum SgrAttribute {
    /// `0` (or no parameters at all): clear every attribute set so far.
    Reset,
    Bold,
    Faint,
    Italic,
    Underline,
    SlowBlink,
    RapidBlink,
    Reverse,
    Conceal,
    Strikethrough,
    /// `22`: cancels both [`Bold`](Self::Bold) and [`Faint`](Self::Faint).
    NormalIntensity,
    NoItalic,
    NoUnderline,
    NoBlink,
    NoReverse,
    Reveal,
    NoStrikethrough,
    Foreground(Color),
    Background(Color),
    DefaultForeground,
    DefaultBackground,
}

/// The code of a field: an omitted field counts as `0`.
pub open spec fn code_of(p: CsiParam) -> u32 {
    match p {
        Some(c) => c,
        None => 0,
    }
}

/// The attribute that a code standing on its own selects, or `None` for a
/// code that is not recognized (or that needs arguments: `38` and `48`).
pub open spec fn single_attribute(code: u32) -> Option<SgrAttribute> {
    if code == 0 {
        Some(SgrAttribute::Reset)
    } else if code == 1 {
        Some(SgrAttribute::Bold)
    } else if code == 2 {
        Some(SgrAttribute::Faint)
    } else if code == 3 {
        Some(SgrAttribute::Italic)
    } else if code == 4 {
        Some(SgrAttribute::Underline)
    } else if code == 5 {
        Some(SgrAttribute::SlowBlink)
    } else if code == 6 {
        Some(SgrAttribute::RapidBlink)
    } else if code == 7 {
        Some(SgrAttribute::Reverse)
    } else if code == 8 {
        Some(SgrAttribute::Conceal)
    } else if code == 9 {
        Some(SgrAttribute::Strikethrough)
    } else if code == 22 {
        Some(SgrAttribute::NormalIntensity)
    } else if code == 23 {
        Some(SgrAttribute::NoItalic)
    } else if code == 24 {
        Some(SgrAttribute::NoUnderline)
    } else if code == 25 {
        Some(SgrAttribute::NoBlink)
    } else if code == 27 {
        Some(SgrAttribute::NoReverse)
    } else if code == 28 {
        Some(SgrAttribute::Reveal)
    } else if code == 29 {
        Some(SgrAttribute::NoStrikethrough)
    } else if 30 <= code <= 37 {
        Some(SgrAttribute::Foreground(Color::Named((code - 30) as u8)))
    } else if code == 39 {
        Some(SgrAttribute::DefaultForeground)
    } else if 40 <= code <= 47 {
        Some(SgrAttribute::Background(Color::Named((code - 40) as u8)))
    } else if code == 49 {
        Some(SgrAttribute::DefaultBackground)
    } else if 90 <= code <= 97 {
        Some(SgrAttribute::Foreground(Color::BrightNamed((code - 90) as u8)))
    } else if 100 <= code <= 107 {
        Some(SgrAttribute::Background(Color::BrightNamed((code - 100) as u8)))
    } else {
        None
    }
}

/// The field at `index`, or `None` when it is omitted or out of range.
pub open spec fn field_at(params: Seq<CsiParam>, index: int) -> Option<u32> {
    if 0 <= index < params.len() {
        params[index]
    } else {
        None
    }
}

/// The field at `index` as a color component: present and at most 255.
pub open spec fn component_at(params: Seq<CsiParam>, index: int) -> Option<u8> {
    match field_at(params, index) {
        Some(v) => if v <= 255 {
            Some(v as u8)
        } else {
            None
        },
        None => None,
    }
}

/// The color that the fields `rest` following a `38` or `48` select, and
/// how many of them it takes: `5;n` is palette index `n`, `2;r;g;b` is a
/// 24-bit color, each number at most 255.
pub open spec fn extended_color(rest: Seq<CsiParam>) -> Option<(Color, int)> {
    if field_at(rest, 0) == Some(5u32) {
        match component_at(rest, 1) {
            Some(index) => Some((Color::Indexed(index), 2)),
            None => None,
        }
    } else if field_at(rest, 0) == Some(2u32) {
        match (component_at(rest, 1), component_at(rest, 2), component_at(rest, 3)) {
            (Some(r), Some(g), Some(b)) => Some((Color::Rgb(r, g, b), 4)),
            _ => None,
        }
    } else {
        None
    }
}

/// The attributes that the fields of `params` from `i` on select, in
/// order, or `None` if any of them is not recognized.
pub open spec fn attributes_from(params: Seq<CsiParam>, i: int) -> Option<Seq<SgrAttribute>>
    decreases params.len() - i,
{
    if i < 0 || i >= params.len() {
        Some(Seq::<SgrAttribute>::empty())
    } else {
        let code = code_of(params[i]);
        if code == 38 || code == 48 {
            match extended_color(params.subrange(i + 1, params.len() as int)) {
                Some((color, used)) => {
                    let attr = if code == 38 {
                        SgrAttribute::Foreground(color)
                    } else {
                        SgrAttribute::Background(color)
                    };
                    if 0 < used && i + 1 + used <= params.len() {
                        match attributes_from(params, i + 1 + used) {
                            Some(rest) => Some(seq![attr] + rest),
                            None => None,
                        }
                    } else {
                        None
                    }
                },
                None => None,
            }
        } else {
            match single_attribute(code) {
                Some(attr) => match attributes_from(params, i + 1) {
                    Some(rest) => Some(seq![attr] + rest),
                    None => None,
                },
                None => None,
            }
        }
    }
}

/// Whether `body` holds an intermediate byte.
pub open spec fn has_intermediate(body: Seq<u8>) -> bool {
    exists|j: int| 0 <= j < body.len() && is_intermediate(#[trigger] body[j])
}

/// The attributes of the SGR sequence `s`: `None` unless `s` is `ESC [`,
/// parameter bytes (no intermediate bytes) and `m`, and its parameters
/// parse; `[Reset]` when there are no parameters.
pub open spec fn sgr_attributes(s: Seq<u8>) -> Option<Seq<SgrAttribute>> {
    if s.len() == 0 || s.last() != SGR_FINAL {
        None
    } else {
        match csi_params(s) {
            Some(params) => if has_intermediate(csi_body(s)) {
                None
            } else if params.len() == 0 {
                Some(seq![SgrAttribute::Reset])
            } else {
                attributes_from(params, 0)
            },
            None => None,
        }
    }
}

/// Parses a complete SGR sequence into the attributes it sets, in order.
///
/// `sequence` must be exactly what [`Event::Escape`](crate::Event::Escape)
/// produces for an SGR sequence: a leading `ESC [`, parameter bytes, and a
/// final `m`. Anything else, including a CSI sequence with a different final
/// byte or with intermediate bytes, returns `None`.
///
/// A sequence with no parameters (`ESC[m`) is equivalent to `ESC[0m` and
/// parses as `[Reset]`, matching how every terminal treats it.
///
/// Parameter codes this function doesn't recognize, and extended color
/// selectors (`38`/`48`) with a malformed or incomplete argument, cause the
/// whole sequence to return `None` rather than silently dropping the
/// attribute a caller asked about.
pub fn parse_sgr(sequence: &[u8]) -> (r: Option<Vec<SgrAttribute>>)
    ensures
        match r {
            Some(v) => sgr_attributes(sequence@) == Some(v@),
            None => sgr_attributes(sequence@) is None,
        },
{
    if sequence.len() == 0 || sequence[sequence.len() - 1] != SGR_FINAL {
        return None;
    }
    let params = match parse_csi_params(sequence) {
        Some(p) => p,
        None => return None,
    };
    // An SGR sequence has parameter bytes only.
    let n = sequence.len();
    let mut t: usize = 2;
    while t < n - 1
        invariant
            n == sequence@.len(),
            n >= 3,
            2 <= t <= n - 1,
            forall|j: int| 2 <= j < t ==> !is_intermediate(#[trigger] sequence@[j]),
        decreases n - t,
    {
        if 0x20 <= sequence[t] && sequence[t] <= 0x2F {
            proof {
                assert(csi_body(sequence@)[t - 2] == sequence@[t as int]);
            }
            return None;
        }
        t += 1;
    }
    proof {
        if has_intermediate(csi_body(sequence@)) {
            let j = choose|j: int| 0 <= j < csi_body(sequence@).len() && is_intermediate(
                #[trigger] csi_body(sequence@)[j],
            );
            assert(csi_body(sequence@)[j] == sequence@[j + 2]);
        }
    }
    if params.len() == 0 {
        return Some(vec![SgrAttribute::Reset]);
    }

    let mut attrs: Vec<SgrAttribute> = Vec::new();
    let mut i: usize = 0;
    proof {
        if let Some(all) = attributes_from(params@, 0) {
            assert(attrs@ + all =~= all);
        }
    }
    while i < params.len()
        invariant
            i <= params.len(),
            sgr_attributes(sequence@) == attributes_from(params@, 0),
            attributes_from(params@, 0) == match attributes_from(params@, i as int) {
                Some(rest) => Some(attrs@ + rest),
                None => None,
            },
        decreases params.len() - i,
    {
        let code = match params[i] {
            Some(c) => c,
            None => 0,
        };
        let (attr, step): (SgrAttribute, usize) = match code {
            0 => (SgrAttribute::Reset, 1),
            1 => (SgrAttribute::Bold, 1),
            2 => (SgrAttribute::Faint, 1),
            3 => (SgrAttribute::Italic, 1),
            4 => (SgrAttribute::Underline, 1),
            5 => (SgrAttribute::SlowBlink, 1),
            6 => (SgrAttribute::RapidBlink, 1),
            7 => (SgrAttribute::Reverse, 1),
            8 => (SgrAttribute::Conceal, 1),
            9 => (SgrAttribute::Strikethrough, 1),
            22 => (SgrAttribute::NormalIntensity, 1),
            23 => (SgrAttribute::NoItalic, 1),
            24 => (SgrAttribute::NoUnderline, 1),
            25 => (SgrAttribute::NoBlink, 1),
            27 => (SgrAttribute::NoReverse, 1),
            28 => (SgrAttribute::Reveal, 1),
            29 => (SgrAttribute::NoStrikethrough, 1),
            30..=37 => (SgrAttribute::Foreground(Color::Named((code - 30) as u8)), 1),
            38 => {
                let rest = &params.as_slice()[i + 1..params.len()];
                match parse_extended_color(rest) {
                    Some((color, consumed)) => (SgrAttribute::Foreground(color), 1 + consumed),
                    None => return None,
                }
            },
            39 => (SgrAttribute::DefaultForeground, 1),
            40..=47 => (SgrAttribute::Background(Color::Named((code - 40) as u8)), 1),
            48 => {
                let rest = &params.as_slice()[i + 1..params.len()];
                match parse_extended_color(rest) {
                    Some((color, consumed)) => (SgrAttribute::Background(color), 1 + consumed),
                    None => return None,
                }
            },
            49 => (SgrAttribute::DefaultBackground, 1),
            90..=97 => (SgrAttribute::Foreground(Color::BrightNamed((code - 90) as u8)), 1),
            100..=107 => (SgrAttribute::Background(Color::BrightNamed((code - 100) as u8)), 1),
            _ => return None,
        };
        let ghost prev = attrs@;
        attrs.push(attr);
        proof {
            let tail = attributes_from(params@, i + step);
            assert(attributes_from(params@, i as int) == match tail {
                Some(rest) => Some(seq![attr] + rest),
                None => None,
            });
            if let Some(rest) = tail {
                assert(prev + (seq![attr] + rest) =~= attrs@ + rest);
            }
        }
        i += step;
    }
    proof {
        assert(attrs@ + Seq::<SgrAttribute>::empty() =~= attrs@);
    }
    Some(attrs)
}

/// `rest` is everything after a `38` or `48` field. Returns the color it
/// selects and how many of `rest`'s fields were consumed to build it (not
/// counting the `38`/`48` field itself).
fn parse_extended_color(rest: &[CsiParam]) -> (r: Option<(Color, usize)>)
    ensures
        match r {
            Some((color, used)) => extended_color(rest@) == Some((color, used as int)),
            None => extended_color(rest@) is None,
        },
{
    match field(rest, 0) {
        Some(5) => {
            let index = match byte_field(rest, 1) {
                Some(v) => v,
                None => return None,
            };
            Some((Color::Indexed(index), 2))
        },
        Some(2) => {
            let r = match byte_field(rest, 1) {
                Some(v) => v,
                None => return None,
            };
            let g = match byte_field(rest, 2) {
                Some(v) => v,
                None => return None,
            };
            let b = match byte_field(rest, 3) {
                Some(v) => v,
                None => return None,
            };
            Some((Color::Rgb(r, g, b), 4))
        },
        _ => None,
    }
}

fn field(params: &[CsiParam], index: usize) -> (r: Option<u32>)
    ensures
        r == field_at(params@, index as int),
{
    if index < params.len() {
        params[index]
    } else {
        None
    }
}

/// The field at `index` if it is present and fits in a byte.
fn byte_field(params: &[CsiParam], index: usize) -> (r: Option<u8>)
    ensures
        r == component_at(params@, index as int),
{
    match field(params, index) {
        Some(v) => if v <= 255 {
            Some(v as u8)
        } else {
            None
        },
        None => None,
    }
}

} // verus!
