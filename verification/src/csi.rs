//! Typed parameter parsing for CSI (`ESC [ ... final`) sequences.
//!
//! [`EscapeScanner`](crate::EscapeScanner) hands back a CSI sequence as raw
//! bytes because scanning has to succeed or fail before anyone cares what
//! the numbers inside mean. Once a caller has a complete sequence and wants
//! to act on it (is this an SGR reset? a cursor move by how many rows?) it
//! needs the parameter fields as integers instead of ASCII digits.

use vstd::prelude::*;

use crate::scanner::{is_digit, is_final, is_intermediate, is_parameter, CSI_OPEN, ESC, SEMICOLON};

verus! {

/// One parameter field of a CSI sequence.
///
/// A field can be omitted (`ESC[;1m` has an empty first field, `ESC[1;m`
/// an empty second one), which every terminal treats as "use the default
/// for this position" rather than as zero. `None` represents that case;
/// `Some(n)` is a field that was present and parsed as `n`.
pub type CsiParam = Option<u32>;

/// Every byte of `f` is an ASCII digit.
pub open spec fn all_digits(f: Seq<u8>) -> bool {
    forall|i: int| 0 <= i < f.len() ==> is_digit(#[trigger] f[i])
}

/// The number that the ASCII digits `f` spell in decimal.
pub open spec fn digits_value(f: Seq<u8>) -> nat
    decreases f.len(),
{
    if f.len() == 0 {
        0
    } else {
        digits_value(f.drop_last()) * 10 + (f.last() - 0x30) as nat
    }
}

/// The offset of the first intermediate byte of `body` at or after `i`, or
/// the length of `body` if there is none.
pub open spec fn first_intermediate(body: Seq<u8>, i: int) -> int
    decreases body.len() - i,
{
    if 0 <= i < body.len() && !is_intermediate(body[i]) {
        first_intermediate(body, i + 1)
    } else {
        i
    }
}

/// `s` split at every `;`, as `<[u8]>::split` splits it: `k` separators
/// give `k + 1` fields, some of them possibly empty.
pub open spec fn split_fields(s: Seq<u8>) -> Seq<Seq<u8>>
    decreases s.len(),
{
    if s.len() == 0 {
        seq![Seq::<u8>::empty()]
    } else {
        let prev = split_fields(s.drop_last());
        if s.last() == SEMICOLON {
            prev.push(Seq::<u8>::empty())
        } else {
            prev.update(prev.len() - 1, prev.last().push(s.last()))
        }
    }
}

/// One field: `Some(None)` when it is empty, `Some(Some(n))` when it is a
/// run of digits whose value `n` fits in `u32`, and `None` otherwise.
pub open spec fn parse_field(f: Seq<u8>) -> Option<CsiParam> {
    if f.len() == 0 {
        Some(None)
    } else if all_digits(f) && digits_value(f) <= u32::MAX {
        Some(Some(digits_value(f) as u32))
    } else {
        None
    }
}

/// Every field parsed, or `None` if any of them fails.
pub open spec fn parse_fields(fields: Seq<Seq<u8>>) -> Option<Seq<CsiParam>>
    decreases fields.len(),
{
    if fields.len() == 0 {
        Some(Seq::<CsiParam>::empty())
    } else {
        match (parse_fields(fields.drop_last()), parse_field(fields.last())) {
            (Some(init), Some(last)) => Some(init.push(last)),
            _ => None,
        }
    }
}

/// The parameter bytes of a CSI sequence `s`: those between `ESC [` and the
/// first intermediate byte or the final byte.
pub open spec fn csi_parameter_bytes(s: Seq<u8>) -> Seq<u8> {
    let body = s.subrange(2, s.len() - 1);
    body.take(first_intermediate(body, 0))
}

/// The bytes of a CSI sequence `s` between `ESC [` and the final byte.
pub open spec fn csi_body(s: Seq<u8>) -> Seq<u8> {
    s.subrange(2, s.len() - 1)
}

/// Whether `body` is parameter bytes followed by intermediate bytes, the
/// only form the body of a CSI sequence may take.
pub open spec fn is_csi_body(body: Seq<u8>) -> bool {
    let k = first_intermediate(body, 0);
    &&& forall|j: int| 0 <= j < k ==> is_parameter(#[trigger] body[j])
    &&& forall|j: int| k <= j < body.len() ==> is_intermediate(#[trigger] body[j])
}

/// Whether `s` has the outline of a CSI sequence: `ESC [`, then anything,
/// then a final byte.
pub open spec fn is_csi_shaped(s: Seq<u8>) -> bool {
    &&& s.len() >= 3
    &&& s[0] == ESC
    &&& s[1] == CSI_OPEN
    &&& is_final(s.last())
}

/// The parameter fields of the CSI sequence `s`, or `None` when `s` is not
/// a CSI sequence (`ESC [`, parameter bytes, intermediate bytes, a final
/// byte) or a field is not a plain decimal number that fits in `u32`.
pub open spec fn csi_params(s: Seq<u8>) -> Option<Seq<CsiParam>> {
    if !is_csi_shaped(s) || !is_csi_body(csi_body(s)) {
        None
    } else if csi_parameter_bytes(s).len() == 0 {
        Some(Seq::<CsiParam>::empty())
    } else {
        parse_fields(split_fields(csi_parameter_bytes(s)))
    }
}

/// Parses the parameter fields out of a complete CSI sequence.
///
/// `sequence` must be exactly what [`Event::Escape`](crate::Event::Escape)
/// produces for a CSI sequence: a leading `ESC [`, zero or more parameter
/// and intermediate bytes, and a single final byte. Anything else -
/// including a sequence that is not CSI at all - returns `None`.
///
/// Parameter fields are split on `;`. This function only handles the plain
/// numeric form; a sequence that uses a private-marker prefix (`ESC[?25h`)
/// or colon-separated sub-parameters (`ESC[38:2:255:0:0m`) returns `None`
/// rather than guessing at a meaning for those bytes. A field whose value
/// would overflow `u32` also returns `None` for the whole sequence.
pub fn parse_csi_params(sequence: &[u8]) -> (r: Option<Vec<CsiParam>>)
    ensures
        match r {
            Some(v) => csi_params(sequence@) == Some(v@),
            None => csi_params(sequence@) is None,
        },
{
    let n = sequence.len();
    if n < 3 || sequence[0] != ESC || sequence[1] != CSI_OPEN {
        return None;
    }
    let final_byte = sequence[n - 1];
    if !(0x40 <= final_byte && final_byte <= 0x7E) {
        return None;
    }
    let ghost s = sequence@;
    let ghost body = csi_body(s);

    // Parameter bytes (0x30..=0x3F) come first, then intermediate bytes
    // (0x20..=0x2F); stop at the first intermediate byte so those aren't
    // fed into the number parser below.
    let mut param_end: usize = 2;
    while param_end < n - 1 && !(0x20 <= sequence[param_end] && sequence[param_end] <= 0x2F)
        invariant
            sequence@ == s,
            n == s.len(),
            n >= 3,
            body == s.subrange(2, n - 1),
            2 <= param_end <= n - 1,
            first_intermediate(body, 0) == first_intermediate(body, param_end - 2),
        decreases n - param_end,
    {
        param_end += 1;
    }
    proof {
        assert(first_intermediate(body, 0) == param_end - 2);
        assert(csi_parameter_bytes(s) =~= s.subrange(2, param_end as int));
        assert(is_csi_shaped(s));
    }

    // Everything after the first intermediate byte must be intermediate too.
    let mut t: usize = param_end;
    while t < n - 1
        invariant
            sequence@ == s,
            n == s.len(),
            n >= 3,
            body == csi_body(s),
            2 <= param_end <= t <= n - 1,
            first_intermediate(body, 0) == param_end - 2,
            forall|j: int| param_end <= j < t ==> is_intermediate(#[trigger] s[j]),
        decreases n - t,
    {
        if !(0x20 <= sequence[t] && sequence[t] <= 0x2F) {
            proof {
                assert(body[t - 2] == s[t as int]);
                assert(!is_csi_body(body));
            }
            return None;
        }
        t += 1;
    }
    proof {
        assert forall|j: int| param_end - 2 <= j < body.len() implies is_intermediate(#[trigger] body[j]) by {
            assert(body[j] == s[j + 2]);
        }
        assert(is_csi_body(body) <==> forall|j: int| 2 <= j < param_end ==> is_parameter(#[trigger] s[j])) by {
            if forall|j: int| 2 <= j < param_end ==> is_parameter(#[trigger] s[j]) {
                assert forall|j: int| 0 <= j < param_end - 2 implies is_parameter(#[trigger] body[j]) by {
                    assert(body[j] == s[j + 2]);
                }
            }
            if is_csi_body(body) {
                assert forall|j: int| 2 <= j < param_end implies is_parameter(#[trigger] s[j]) by {
                    assert(body[j - 2] == s[j]);
                }
            }
        }
    }
    if param_end == 2 {
        return Some(Vec::new());
    }

    let mut fields: Vec<CsiParam> = Vec::new();
    let mut value: u32 = 0;
    let mut empty = true;
    let mut k: usize = 2;
    proof {
        assert(s.subrange(2, 2) =~= Seq::<u8>::empty());
        assert(split_fields(Seq::<u8>::empty()).drop_last() =~= Seq::<Seq<u8>>::empty());
    }
    while k < param_end
        invariant
            sequence@ == s,
            n == s.len(),
            2 < param_end,
            2 <= k <= param_end <= n - 1,
            is_csi_body(csi_body(s)) ==> csi_params(s) == parse_fields(
                split_fields(s.subrange(2, param_end as int)),
            ),
            !is_csi_body(csi_body(s)) ==> csi_params(s) is None,
            is_csi_body(csi_body(s)) <==> forall|j: int| 2 <= j < param_end ==> is_parameter(
                #[trigger] s[j],
            ),
            forall|j: int| 2 <= j < k ==> is_parameter(#[trigger] s[j]),
            split_fields(s.subrange(2, k as int)).len() >= 1,
            parse_fields(split_fields(s.subrange(2, k as int)).drop_last()) == Some(fields@),
            empty <==> split_fields(s.subrange(2, k as int)).last().len() == 0,
            empty ==> value == 0,
            !empty ==> all_digits(split_fields(s.subrange(2, k as int)).last()),
            !empty ==> digits_value(split_fields(s.subrange(2, k as int)).last()) == value,
        decreases param_end - k,
    {
        let b = sequence[k];
        let ghost p = s.subrange(2, k as int);
        let ghost next = s.subrange(2, k + 1);
        proof {
            assert(next.drop_last() =~= p);
            assert(next.last() == b);
            assert(next =~= p.push(b));
        }
        if b == SEMICOLON {
            let field = if empty {
                None
            } else {
                Some(value)
            };
            proof {
                let parts = split_fields(p);
                assert(split_fields(next) == parts.push(Seq::<u8>::empty()));
                assert(parts.push(Seq::<u8>::empty()).drop_last() =~= parts);
                assert(parse_field(parts.last()) == Some(field));
            }
            fields.push(field);
            value = 0;
            empty = true;
        } else {
            if !(0x30 <= b && b <= 0x39) {
                proof {
                    lemma_last_field_fails(p, b);
                    lemma_failure_persists(next, s.subrange(k + 1, param_end as int));
                    assert(next + s.subrange(k + 1, param_end as int) =~= s.subrange(2, param_end as int));
                }
                return None;
            }
            let digit = (b - 0x30) as u32;
            let grown = match value.checked_mul(10) {
                Some(m) => m.checked_add(digit),
                None => None,
            };
            match grown {
                None => {
                    proof {
                        if empty {
                            assert(split_fields(p).last() =~= Seq::<u8>::empty());
                        }
                        assert(value * 10 + digit > u32::MAX);
                        lemma_last_field_fails(p, b);
                        lemma_failure_persists(next, s.subrange(k + 1, param_end as int));
                        assert(next + s.subrange(k + 1, param_end as int) =~= s.subrange(2, param_end as int));
                    }
                    return None;
                },
                Some(v) => {
                    proof {
                        let parts = split_fields(p);
                        let last = parts.last();
                        let grown_field = last.push(b);
                        assert(split_fields(next) == parts.update(parts.len() - 1, grown_field));
                        assert(parts.update(parts.len() - 1, grown_field).drop_last() =~= parts.drop_last());
                        assert(grown_field.drop_last() =~= last);
                        assert(all_digits(grown_field)) by {
                            assert forall|i: int| 0 <= i < grown_field.len() implies is_digit(
                                #[trigger] grown_field[i],
                            ) by {
                                if i < last.len() {
                                    assert(grown_field[i] == last[i]);
                                }
                            }
                        }
                        if empty {
                            assert(last =~= Seq::<u8>::empty());
                        }
                    }
                    value = v;
                    empty = false;
                },
            }
        }
        k += 1;
    }
    let field = if empty {
        None
    } else {
        Some(value)
    };
    fields.push(field);
    proof {
        let parts = split_fields(s.subrange(2, param_end as int));
        assert(parse_field(parts.last()) == Some(field));
    }
    Some(fields)
}

/// A CSI sequence whose parameter bytes (those before the first
/// intermediate byte) hold anything but ASCII digits and `;` - a private
/// marker such as `?` or `>`, or a `:` sub-parameter separator - has no
/// numeric parameters: [`parse_csi_params`] returns `None` for it.
pub proof fn non_numeric_parameters_are_rejected(s: Seq<u8>, j: int)
    requires
        0 <= j < csi_parameter_bytes(s).len(),
        !is_digit(csi_parameter_bytes(s)[j]),
        csi_parameter_bytes(s)[j] != SEMICOLON,
    ensures
        csi_params(s) is None,
{
    if is_csi_shaped(s) && is_csi_body(csi_body(s)) {
        let p = csi_parameter_bytes(s);
        let b = p[j];
        lemma_last_field_fails(p.take(j), b);
        assert(p.take(j).push(b) =~= p.take(j + 1));
        lemma_failure_persists(p.take(j + 1), p.skip(j + 1));
        assert(p.take(j + 1) + p.skip(j + 1) =~= p);
    }
}

/// Splitting never yields an empty list of fields.
pub proof fn lemma_split_fields_nonempty(s: Seq<u8>)
    ensures
        split_fields(s).len() >= 1,
    decreases s.len(),
{
    if s.len() > 0 {
        lemma_split_fields_nonempty(s.drop_last());
    }
}

/// Appending a byte that makes the field in progress unparseable (a
/// non-digit, or a digit that pushes its value past `u32::MAX`) makes the
/// whole list of fields unparseable.
proof fn lemma_last_field_fails(p: Seq<u8>, b: u8)
    requires
        b != SEMICOLON,
        !is_digit(b) || (all_digits(split_fields(p).last()) && digits_value(split_fields(p).last()) * 10
            + (b - 0x30) > u32::MAX),
    ensures
        parse_fields(split_fields(p.push(b))) is None,
{
    lemma_split_fields_nonempty(p);
    let parts = split_fields(p);
    let grown = parts.last().push(b);
    assert(p.push(b).drop_last() =~= p);
    assert(split_fields(p.push(b)) == parts.update(parts.len() - 1, grown));
    assert(grown.drop_last() =~= parts.last());
    if !is_digit(b) {
        assert(!is_digit(grown[grown.len() - 1]));
    }
    assert(parse_field(grown) is None);
}

/// Once the fields of `p` cannot be parsed, no continuation of `p` can be
/// parsed either.
pub proof fn lemma_failure_persists(p: Seq<u8>, q: Seq<u8>)
    requires
        parse_fields(split_fields(p)) is None,
    ensures
        parse_fields(split_fields(p + q)) is None,
    decreases q.len(),
{
    if q.len() > 0 {
        let p1 = p + q.drop_last();
        lemma_failure_persists(p, q.drop_last());
        assert(p + q =~= p1.push(q.last()));
        lemma_failure_grows(p1, q.last());
    }
}

proof fn lemma_failure_grows(p: Seq<u8>, b: u8)
    requires
        parse_fields(split_fields(p)) is None,
    ensures
        parse_fields(split_fields(p.push(b))) is None,
{
    lemma_split_fields_nonempty(p);
    let parts = split_fields(p);
    assert(p.push(b).drop_last() =~= p);
    if b == SEMICOLON {
        assert(parts.push(Seq::<u8>::empty()).drop_last() =~= parts);
    } else {
        let last = parts.last();
        let grown = last.push(b);
        let parts2 = parts.update(parts.len() - 1, grown);
        assert(parts2.drop_last() =~= parts.drop_last());
        assert(grown.drop_last() =~= last);
        if parse_fields(parts.drop_last()) is Some {
            assert(parse_field(last) is None);
            if all_digits(grown) {
                assert(all_digits(last)) by {
                    assert forall|i: int| 0 <= i < last.len() implies is_digit(#[trigger] last[i]) by {
                        assert(grown[i] == last[i]);
                    }
                }
            }
            assert(parse_field(grown) is None);
        }
    }
}

} // verus!
