//! How parameter lists print, parse back and combine.

use vstd::prelude::*;

use crate::csi::{
    all_digits, csi_body, csi_parameter_bytes, csi_params, digits_value, first_intermediate,
    is_csi_body, is_csi_shaped, lemma_split_fields_nonempty, parse_field, parse_fields,
    split_fields, CsiParam,
};
use crate::sgr::{
    attributes_from, code_of, component_at, extended_color, field_at, has_intermediate,
    sgr_attributes, single_attribute, Color, SgrAttribute, SGR_FINAL,
};
use crate::scanner::{is_digit, is_final, is_intermediate, is_parameter, CSI_OPEN, ESC, SEMICOLON};

verus! {

/// The decimal digits of `n`, as ASCII bytes, without leading zeros.
pub open spec fn decimal_bytes(n: nat) -> Seq<u8>
    decreases n,
{
    if n < 10 {
        seq![(0x30 + n) as u8]
    } else {
        decimal_bytes(n / 10).push((0x30 + n % 10) as u8)
    }
}

/// How a field prints: its value in decimal, or nothing when omitted.
pub open spec fn field_bytes(p: CsiParam) -> Seq<u8> {
    match p {
        Some(n) => decimal_bytes(n as nat),
        None => Seq::<u8>::empty(),
    }
}

/// The fields printed and separated by `;`.
pub open spec fn join_fields(v: Seq<CsiParam>) -> Seq<u8>
    decreases v.len(),
{
    if v.len() == 0 {
        Seq::<u8>::empty()
    } else if v.len() == 1 {
        field_bytes(v[0])
    } else {
        join_fields(v.drop_last()) + seq![SEMICOLON] + field_bytes(v.last())
    }
}

/// The CSI sequence with parameter bytes `params` and final byte `f`.
pub open spec fn csi_sequence(params: Seq<u8>, f: u8) -> Seq<u8> {
    seq![ESC, CSI_OPEN] + params + seq![f]
}

/// Every byte of `p` is a digit or `;`.
pub open spec fn digits_and_separators(p: Seq<u8>) -> bool {
    forall|j: int| 0 <= j < p.len() ==> is_digit(#[trigger] p[j]) || p[j] == SEMICOLON
}

/// Splitting at a `;` between two pieces splits each piece on its own.
pub proof fn lemma_split_concat(p: Seq<u8>, q: Seq<u8>)
    ensures
        split_fields(p + seq![SEMICOLON] + q) == split_fields(p) + split_fields(q),
    decreases q.len(),
{
    lemma_split_fields_nonempty(p);
    let ps = p + seq![SEMICOLON];
    assert(ps.drop_last() =~= p);
    if q.len() == 0 {
        assert(p + seq![SEMICOLON] + q =~= ps);
        assert(split_fields(q) =~= seq![Seq::<u8>::empty()]);
        assert(split_fields(ps) =~= split_fields(p) + split_fields(q));
    } else {
        let q0 = q.drop_last();
        let b = q.last();
        lemma_split_concat(p, q0);
        lemma_split_fields_nonempty(q0);
        let whole = p + seq![SEMICOLON] + q;
        assert(whole.drop_last() =~= p + seq![SEMICOLON] + q0);
        assert(whole.last() == b);
        let left = split_fields(p);
        let right0 = split_fields(q0);
        if b == SEMICOLON {
            assert((left + right0).push(Seq::<u8>::empty()) =~= left + right0.push(Seq::<u8>::empty()));
        } else {
            assert((left + right0).update(
                left.len() + right0.len() - 1,
                right0.last().push(b),
            ) =~= left + right0.update(right0.len() - 1, right0.last().push(b)));
        }
    }
}

/// Splitting bytes without `;` gives the single field they make.
proof fn lemma_split_single(q: Seq<u8>)
    requires
        forall|j: int| 0 <= j < q.len() ==> #[trigger] q[j] != SEMICOLON,
    ensures
        split_fields(q) == seq![q],
    decreases q.len(),
{
    if q.len() > 0 {
        let q0 = q.drop_last();
        assert(forall|j: int| 0 <= j < q0.len() ==> #[trigger] q0[j] == q[j]);
        lemma_split_single(q0);
        assert(q.last() == q[q.len() - 1]);
        assert(q0.push(q.last()) =~= q);
        assert(seq![q0].update(0, q0.push(q.last())) =~= seq![q]);
    } else {
        assert(q =~= Seq::<u8>::empty());
    }
}

/// The decimal digits of `n` are digits, and spell `n`.
proof fn lemma_decimal_bytes(n: nat)
    ensures
        decimal_bytes(n).len() >= 1,
        all_digits(decimal_bytes(n)),
        digits_value(decimal_bytes(n)) == n,
    decreases n,
{
    let d = decimal_bytes(n);
    if n < 10 {
        assert(d.drop_last() =~= Seq::<u8>::empty());
        assert(d.last() == 0x30 + n);
        assert(digits_value(d) == digits_value(d.drop_last()) * 10 + (d.last() - 0x30) as nat);
    } else {
        lemma_decimal_bytes(n / 10);
        let init = decimal_bytes(n / 10);
        assert(d.drop_last() =~= init);
        assert(all_digits(d)) by {
            assert forall|i: int| 0 <= i < d.len() implies is_digit(#[trigger] d[i]) by {
                if i < init.len() {
                    assert(d[i] == init[i]);
                }
            }
        }
        assert(d.last() == 0x30 + n % 10);
        assert(digits_value(d) == digits_value(init) * 10 + (d.last() - 0x30) as nat);
        assert((n / 10) * 10 + n % 10 == n);
    }
}

/// The printed fields of `v` split back into the printed fields, one by one.
proof fn lemma_split_join(v: Seq<CsiParam>)
    requires
        v.len() >= 1,
    ensures
        split_fields(join_fields(v)) == v.map_values(|p: CsiParam| field_bytes(p)),
    decreases v.len(),
{
    let last = field_bytes(v.last());
    assert(forall|j: int| 0 <= j < last.len() ==> #[trigger] last[j] != SEMICOLON) by {
        if let Some(n) = v.last() {
            lemma_decimal_bytes(n as nat);
            assert forall|j: int| 0 <= j < last.len() implies #[trigger] last[j] != SEMICOLON by {
                assert(is_digit(last[j]));
            }
        }
    }
    lemma_split_single(last);
    if v.len() == 1 {
        assert(v.map_values(|p: CsiParam| field_bytes(p)) =~= seq![field_bytes(v[0])]);
    } else {
        lemma_split_join(v.drop_last());
        lemma_split_concat(join_fields(v.drop_last()), last);
        assert(v.map_values(|p: CsiParam| field_bytes(p)) =~= v.drop_last().map_values(
            |p: CsiParam| field_bytes(p),
        ) + seq![last]);
    }
}

/// Printed fields parse back to themselves.
proof fn lemma_parse_printed(v: Seq<CsiParam>)
    ensures
        parse_fields(v.map_values(|p: CsiParam| field_bytes(p))) == Some(v),
    decreases v.len(),
{
    let printed = v.map_values(|p: CsiParam| field_bytes(p));
    if v.len() > 0 {
        lemma_parse_printed(v.drop_last());
        assert(printed.drop_last() =~= v.drop_last().map_values(|p: CsiParam| field_bytes(p)));
        assert(printed.last() == field_bytes(v.last()));
        if let Some(n) = v.last() {
            lemma_decimal_bytes(n as nat);
        }
        assert(parse_field(printed.last()) == Some(v.last()));
        assert(v.drop_last().push(v.last()) =~= v);
    } else {
        assert(v =~= Seq::<CsiParam>::empty());
    }
}

/// The parameter bytes of a CSI sequence made of digits and `;` are all of
/// its body, and its parameters are their fields.
pub proof fn lemma_plain_csi_params(p: Seq<u8>, f: u8)
    requires
        digits_and_separators(p),
        is_final(f),
    ensures
        csi_body(csi_sequence(p, f)) == p,
        csi_parameter_bytes(csi_sequence(p, f)) == p,
        csi_params(csi_sequence(p, f)) == if p.len() == 0 {
            Some(Seq::<CsiParam>::empty())
        } else {
            parse_fields(split_fields(p))
        },
{
    let s = csi_sequence(p, f);
    assert(csi_body(s) =~= p);
    assert(forall|j: int| 0 <= j < p.len() ==> !is_intermediate(#[trigger] p[j])) by {
        assert forall|j: int| 0 <= j < p.len() implies !is_intermediate(#[trigger] p[j]) by {
            assert(is_digit(p[j]) || p[j] == SEMICOLON);
        }
    }
    lemma_first_intermediate_end(p, 0);
    assert(p.take(p.len() as int) =~= p);
    assert(is_csi_body(p)) by {
        assert forall|j: int| 0 <= j < p.len() implies is_parameter(#[trigger] p[j]) by {
            assert(is_digit(p[j]) || p[j] == SEMICOLON);
        }
    }
    assert(s.last() == f);
    assert(s[0] == ESC && s[1] == CSI_OPEN);
    assert(is_csi_shaped(s));
}

proof fn lemma_first_intermediate_end(body: Seq<u8>, i: int)
    requires
        0 <= i <= body.len(),
        forall|j: int| 0 <= j < body.len() ==> !is_intermediate(#[trigger] body[j]),
    ensures
        first_intermediate(body, i) == body.len(),
    decreases body.len() - i,
{
    if i < body.len() {
        lemma_first_intermediate_end(body, i + 1);
    }
}

/// Printing a list of parameter fields in decimal, separated by `;`, between
/// `ESC [` and any final byte, and parsing it back gives the same list. The
/// one exception is a single omitted field, which prints as no parameters
/// at all and parses back as the empty list.
pub proof fn csi_params_round_trip(v: Seq<CsiParam>, f: u8)
    requires
        v.len() >= 1,
        !(v.len() == 1 && v[0] is None),
        is_final(f),
    ensures
        csi_params(csi_sequence(join_fields(v), f)) == Some(v),
{
    lemma_split_join(v);
    lemma_parse_printed(v);
    let p = join_fields(v);
    assert(digits_and_separators(p)) by {
        lemma_join_digits(v);
    }
    lemma_plain_csi_params(p, f);
    lemma_join_nonempty(v);
}

proof fn lemma_join_digits(v: Seq<CsiParam>)
    ensures
        digits_and_separators(join_fields(v)),
    decreases v.len(),
{
    let last = field_bytes(v.last());
    if v.len() >= 1 {
        if let Some(n) = v.last() {
            lemma_decimal_bytes(n as nat);
        }
        assert(digits_and_separators(last));
    }
    if v.len() == 1 {
        if let Some(n) = v[0] {
            lemma_decimal_bytes(n as nat);
        }
    } else if v.len() > 1 {
        lemma_join_digits(v.drop_last());
        let init = join_fields(v.drop_last());
        let whole = init + seq![SEMICOLON] + last;
        assert forall|j: int| 0 <= j < whole.len() implies is_digit(#[trigger] whole[j]) || whole[j]
            == SEMICOLON by {
            if j < init.len() {
                assert(whole[j] == init[j]);
            } else if j > init.len() {
                assert(whole[j] == last[j - init.len() - 1]);
            }
        }
    }
}

proof fn lemma_join_nonempty(v: Seq<CsiParam>)
    requires
        v.len() >= 1,
        !(v.len() == 1 && v[0] is None),
    ensures
        join_fields(v).len() > 0,
{
    if v.len() == 1 {
        if let Some(n) = v[0] {
            lemma_decimal_bytes(n as nat);
        }
    }
}


/// The SGR sequence with parameter bytes `params`.
pub open spec fn sgr_sequence(params: Seq<u8>) -> Seq<u8> {
    csi_sequence(params, SGR_FINAL)
}

/// Joining the parameter bytes of two SGR sequences with `;` gives the
/// attributes of the first followed by those of the second.
pub proof fn sgr_join(p1: Seq<u8>, p2: Seq<u8>)
    requires
        digits_and_separators(p1),
        digits_and_separators(p2),
        sgr_attributes(sgr_sequence(p1)) is Some,
        sgr_attributes(sgr_sequence(p2)) is Some,
    ensures
        sgr_attributes(sgr_sequence(p1 + seq![SEMICOLON] + p2)) == Some(
            sgr_attributes(sgr_sequence(p1)).unwrap() + sgr_attributes(sgr_sequence(p2)).unwrap(),
        ),
{
    let joined = p1 + seq![SEMICOLON] + p2;
    assert(digits_and_separators(joined)) by {
        assert forall|j: int| 0 <= j < joined.len() implies is_digit(#[trigger] joined[j])
            || joined[j] == SEMICOLON by {
            if j < p1.len() {
                assert(joined[j] == p1[j]);
            } else if j > p1.len() {
                assert(joined[j] == p2[j - p1.len() - 1]);
            }
        }
    }
    lemma_plain_sgr(p1);
    lemma_plain_sgr(p2);
    lemma_plain_sgr(joined);
    lemma_split_concat(p1, p2);
    let ps1 = parse_fields(split_fields(p1)).unwrap();
    let ps2 = parse_fields(split_fields(p2)).unwrap();
    lemma_parse_fields_concat(split_fields(p1), split_fields(p2));
    lemma_attributes_concat(ps1, ps2, 0);
}

/// The attributes of an SGR sequence whose parameter bytes are digits and
/// `;` are those of its fields (an empty list of bytes being one omitted
/// field, which selects `Reset`).
proof fn lemma_plain_sgr(p: Seq<u8>)
    requires
        digits_and_separators(p),
    ensures
        sgr_attributes(sgr_sequence(p)) == match parse_fields(split_fields(p)) {
            Some(params) => attributes_from(params, 0),
            None => None,
        },
{
    lemma_plain_csi_params(p, SGR_FINAL);
    let s = sgr_sequence(p);
    assert(s.last() == SGR_FINAL);
    assert(!has_intermediate(csi_body(s))) by {
        if has_intermediate(p) {
            let j = choose|j: int| 0 <= j < p.len() && is_intermediate(#[trigger] p[j]);
            assert(is_digit(p[j]) || p[j] == SEMICOLON);
        }
    }
    lemma_split_fields_nonempty(p);
    if p.len() == 0 {
        let parts = split_fields(p);
        assert(parts =~= seq![Seq::<u8>::empty()]);
        assert(parts.drop_last() =~= Seq::<Seq<u8>>::empty());
        assert(parse_fields(parts.drop_last()) == Some(Seq::<CsiParam>::empty()));
        assert(parse_field(parts.last()) == Some(None::<u32>));
        let one = Seq::<CsiParam>::empty().push(None);
        assert(parse_fields(parts) == Some(one));
        assert(one[0] == None::<u32>);
        assert(attributes_from(one, 1) == Some(Seq::<SgrAttribute>::empty()));
        assert(seq![SgrAttribute::Reset] + Seq::<SgrAttribute>::empty() =~= seq![SgrAttribute::Reset]);
    } else {
        if let Some(params) = parse_fields(split_fields(p)) {
            lemma_parse_fields_len(split_fields(p));
        }
    }
}

/// Parsed fields are as many as the fields.
proof fn lemma_parse_fields_len(fields: Seq<Seq<u8>>)
    requires
        parse_fields(fields) is Some,
    ensures
        parse_fields(fields).unwrap().len() == fields.len(),
    decreases fields.len(),
{
    if fields.len() > 0 {
        lemma_parse_fields_len(fields.drop_last());
    }
}

/// Parsing two lists of fields one after the other.
proof fn lemma_parse_fields_concat(a: Seq<Seq<u8>>, b: Seq<Seq<u8>>)
    requires
        parse_fields(a) is Some,
        parse_fields(b) is Some,
    ensures
        parse_fields(a + b) == Some(parse_fields(a).unwrap() + parse_fields(b).unwrap()),
    decreases b.len(),
{
    if b.len() == 0 {
        assert(a + b =~= a);
        assert(parse_fields(b).unwrap() =~= Seq::<CsiParam>::empty());
        assert(parse_fields(a).unwrap() + parse_fields(b).unwrap() =~= parse_fields(a).unwrap());
    } else {
        lemma_parse_fields_concat(a, b.drop_last());
        assert((a + b).drop_last() =~= a + b.drop_last());
        assert((a + b).last() == b.last());
        let x = parse_fields(a).unwrap();
        let y0 = parse_fields(b.drop_last()).unwrap();
        let last = parse_field(b.last()).unwrap();
        assert((x + y0).push(last) =~= x + y0.push(last));
    }
}

/// Fields before the ones an extended color reads do not change it.
proof fn lemma_extended_color_extend(x: Seq<CsiParam>, y: Seq<CsiParam>)
    requires
        extended_color(x) is Some,
    ensures
        extended_color(x + y) == extended_color(x),
{
    assert(forall|k: int| 0 <= k < x.len() ==> #[trigger] (x + y)[k] == x[k]);
    assert(field_at(x, 0) is Some);
    assert(field_at(x + y, 0) == field_at(x, 0));
    if field_at(x, 0) == Some(5u32) {
        assert(component_at(x, 1) is Some);
        assert(field_at(x + y, 1) == field_at(x, 1));
    } else {
        assert(component_at(x, 1) is Some && component_at(x, 2) is Some && component_at(x, 3) is Some);
        assert(field_at(x + y, 1) == field_at(x, 1));
        assert(field_at(x + y, 2) == field_at(x, 2));
        assert(field_at(x + y, 3) == field_at(x, 3));
    }
}

/// Fields in front do not change the attributes of the fields after them.
proof fn lemma_attributes_shift(a: Seq<CsiParam>, b: Seq<CsiParam>, j: int)
    requires
        0 <= j,
    ensures
        attributes_from(a + b, a.len() + j) == attributes_from(b, j),
    decreases b.len() - j,
{
    let ab = a + b;
    let i = a.len() + j;
    if j < b.len() {
        assert(ab[i] == b[j]);
        let code = code_of(b[j]);
        assert(ab.subrange(i + 1, ab.len() as int) =~= b.subrange(j + 1, b.len() as int));
        if code == 38 || code == 48 {
            if let Some((color, used)) = extended_color(b.subrange(j + 1, b.len() as int)) {
                if 0 < used && j + 1 + used <= b.len() {
                    lemma_attributes_shift(a, b, j + 1 + used);
                }
            }
        } else {
            lemma_attributes_shift(a, b, j + 1);
        }
    }
}

/// The attributes of two lists of fields one after the other, when the
/// first list's attributes parse on their own.
proof fn lemma_attributes_concat(a: Seq<CsiParam>, b: Seq<CsiParam>, i: int)
    requires
        0 <= i <= a.len(),
        attributes_from(a, i) is Some,
    ensures
        attributes_from(a + b, i) == match attributes_from(b, 0) {
            Some(r2) => Some(attributes_from(a, i).unwrap() + r2),
            None => None,
        },
    decreases a.len() - i,
{
    let ab = a + b;
    if i == a.len() {
        lemma_attributes_shift(a, b, 0);
        if let Some(r2) = attributes_from(b, 0) {
            assert(Seq::<SgrAttribute>::empty() + r2 =~= r2);
        }
    } else {
        assert(ab[i] == a[i]);
        let code = code_of(a[i]);
        if code == 38 || code == 48 {
            let rest = a.subrange(i + 1, a.len() as int);
            assert(ab.subrange(i + 1, ab.len() as int) =~= rest + b);
            lemma_extended_color_extend(rest, b);
            let (color, used) = extended_color(rest).unwrap();
            lemma_attributes_concat(a, b, i + 1 + used);
            if let Some(r2) = attributes_from(b, 0) {
                let attr = if code == 38 {
                    SgrAttribute::Foreground(color)
                } else {
                    SgrAttribute::Background(color)
                };
                let r1 = attributes_from(a, i + 1 + used).unwrap();
                assert(seq![attr] + (r1 + r2) =~= (seq![attr] + r1) + r2);
            }
        } else {
            lemma_attributes_concat(a, b, i + 1);
            if let Some(r2) = attributes_from(b, 0) {
                let attr = single_attribute(code).unwrap();
                let r1 = attributes_from(a, i + 1).unwrap();
                assert(seq![attr] + (r1 + r2) =~= (seq![attr] + r1) + r2);
            }
        }
    }
}


/// The attributes of the SGR sequence that prints the fields `v`.
proof fn lemma_sgr_of_fields(v: Seq<CsiParam>)
    requires
        v.len() >= 1,
        !(v.len() == 1 && v[0] is None),
    ensures
        sgr_attributes(sgr_sequence(join_fields(v))) == attributes_from(v, 0),
{
    lemma_split_join(v);
    lemma_parse_printed(v);
    lemma_join_digits(v);
    lemma_plain_sgr(join_fields(v));
}

/// What each code on its own selects: `0` resets, `1`-`9` and `22`-`29`
/// switch the documented styles on and off, `30`-`37` and `40`-`47` select
/// the standard color `code - 30` (`code - 40`) as foreground (background),
/// `90`-`97` and `100`-`107` the bright ones, `39` and `49` the default
/// colors, and every other code - including `38` and `48` without their
/// arguments - makes the sequence unparseable.
pub proof fn sgr_single_code(c: u32)
    ensures
        ({
            let r = sgr_attributes(sgr_sequence(decimal_bytes(c as nat)));
            &&& c == 0 ==> r == Some(seq![SgrAttribute::Reset])
            &&& c == 1 ==> r == Some(seq![SgrAttribute::Bold])
            &&& c == 2 ==> r == Some(seq![SgrAttribute::Faint])
            &&& c == 3 ==> r == Some(seq![SgrAttribute::Italic])
            &&& c == 4 ==> r == Some(seq![SgrAttribute::Underline])
            &&& c == 5 ==> r == Some(seq![SgrAttribute::SlowBlink])
            &&& c == 6 ==> r == Some(seq![SgrAttribute::RapidBlink])
            &&& c == 7 ==> r == Some(seq![SgrAttribute::Reverse])
            &&& c == 8 ==> r == Some(seq![SgrAttribute::Conceal])
            &&& c == 9 ==> r == Some(seq![SgrAttribute::Strikethrough])
            &&& c == 22 ==> r == Some(seq![SgrAttribute::NormalIntensity])
            &&& c == 23 ==> r == Some(seq![SgrAttribute::NoItalic])
            &&& c == 24 ==> r == Some(seq![SgrAttribute::NoUnderline])
            &&& c == 25 ==> r == Some(seq![SgrAttribute::NoBlink])
            &&& c == 27 ==> r == Some(seq![SgrAttribute::NoReverse])
            &&& c == 28 ==> r == Some(seq![SgrAttribute::Reveal])
            &&& c == 29 ==> r == Some(seq![SgrAttribute::NoStrikethrough])
            &&& 30 <= c <= 37 ==> r == Some(
                seq![SgrAttribute::Foreground(Color::Named((c - 30) as u8))],
            )
            &&& c == 39 ==> r == Some(seq![SgrAttribute::DefaultForeground])
            &&& 40 <= c <= 47 ==> r == Some(
                seq![SgrAttribute::Background(Color::Named((c - 40) as u8))],
            )
            &&& c == 49 ==> r == Some(seq![SgrAttribute::DefaultBackground])
            &&& 90 <= c <= 97 ==> r == Some(
                seq![SgrAttribute::Foreground(Color::BrightNamed((c - 90) as u8))],
            )
            &&& 100 <= c <= 107 ==> r == Some(
                seq![SgrAttribute::Background(Color::BrightNamed((c - 100) as u8))],
            )
            &&& (10 <= c <= 21 || c == 26 || c == 38 || c == 48 || 50 <= c <= 89 || c == 98 || c
                == 99 || c >= 108) ==> r is None
        }),
{
    let v = seq![Some(c)];
    assert(join_fields(v) == decimal_bytes(c as nat));
    lemma_sgr_of_fields(v);
    assert(v.subrange(1, 1) =~= Seq::<CsiParam>::empty());
    assert(attributes_from(v, 1) == Some(Seq::<SgrAttribute>::empty()));
    if let Some(a) = single_attribute(c) {
        assert(seq![a] + Seq::<SgrAttribute>::empty() =~= seq![a]);
    }
}

/// `38;5;n` selects palette color `n` as foreground and `48;5;n` as
/// background; an index above 255 makes the sequence unparseable.
pub proof fn sgr_indexed_colors(n: u32)
    ensures
        ({
            let fg = sgr_attributes(sgr_sequence(join_fields(seq![Some(38u32), Some(5u32), Some(n)])));
            let bg = sgr_attributes(sgr_sequence(join_fields(seq![Some(48u32), Some(5u32), Some(n)])));
            &&& n <= 255 ==> fg == Some(seq![SgrAttribute::Foreground(Color::Indexed(n as u8))])
            &&& n <= 255 ==> bg == Some(seq![SgrAttribute::Background(Color::Indexed(n as u8))])
            &&& n > 255 ==> fg is None && bg is None
        }),
{
    lemma_extended_three(38, n);
    lemma_extended_three(48, n);
}

proof fn lemma_extended_three(code: u32, n: u32)
    requires
        code == 38 || code == 48,
    ensures
        ({
            let r = sgr_attributes(sgr_sequence(join_fields(seq![Some(code), Some(5u32), Some(n)])));
            let color = Color::Indexed(n as u8);
            let attr = if code == 38 {
                SgrAttribute::Foreground(color)
            } else {
                SgrAttribute::Background(color)
            };
            &&& n <= 255 ==> r == Some(seq![attr])
            &&& n > 255 ==> r is None
        }),
{
    let v = seq![Some(code), Some(5u32), Some(n)];
    lemma_sgr_of_fields(v);
    let rest = v.subrange(1, 3);
    assert(rest =~= seq![Some(5u32), Some(n)]);
    assert(field_at(rest, 0) == Some(5u32));
    assert(field_at(rest, 1) == Some(n));
    assert(attributes_from(v, 3) == Some(Seq::<SgrAttribute>::empty()));
    if n <= 255 {
        assert(extended_color(rest) == Some((Color::Indexed(n as u8), 2int)));
        let attr = if code == 38 {
            SgrAttribute::Foreground(Color::Indexed(n as u8))
        } else {
            SgrAttribute::Background(Color::Indexed(n as u8))
        };
        assert(seq![attr] + Seq::<SgrAttribute>::empty() =~= seq![attr]);
    } else {
        assert(extended_color(rest) is None);
    }
}

/// `38;2;r;g;b` selects the 24-bit color `(r, g, b)` as foreground and
/// `48;2;r;g;b` as background; a component above 255 makes the sequence
/// unparseable.
pub proof fn sgr_rgb_colors(code: u32, r: u32, g: u32, b: u32)
    requires
        code == 38 || code == 48,
    ensures
        ({
            let res = sgr_attributes(
                sgr_sequence(join_fields(seq![Some(code), Some(2u32), Some(r), Some(g), Some(b)])),
            );
            let color = Color::Rgb(r as u8, g as u8, b as u8);
            &&& (r <= 255 && g <= 255 && b <= 255 && code == 38) ==> res == Some(
                seq![SgrAttribute::Foreground(color)],
            )
            &&& (r <= 255 && g <= 255 && b <= 255 && code == 48) ==> res == Some(
                seq![SgrAttribute::Background(color)],
            )
            &&& (r > 255 || g > 255 || b > 255) ==> res is None
        }),
{
    let v = seq![Some(code), Some(2u32), Some(r), Some(g), Some(b)];
    lemma_sgr_of_fields(v);
    let rest = v.subrange(1, 5);
    assert(rest =~= seq![Some(2u32), Some(r), Some(g), Some(b)]);
    assert(field_at(rest, 0) == Some(2u32));
    assert(field_at(rest, 1) == Some(r));
    assert(field_at(rest, 2) == Some(g));
    assert(field_at(rest, 3) == Some(b));
    assert(attributes_from(v, 5) == Some(Seq::<SgrAttribute>::empty()));
    if r <= 255 && g <= 255 && b <= 255 {
        let color = Color::Rgb(r as u8, g as u8, b as u8);
        assert(extended_color(rest) == Some((color, 4int)));
        let attr = if code == 38 {
            SgrAttribute::Foreground(color)
        } else {
            SgrAttribute::Background(color)
        };
        assert(seq![attr] + Seq::<SgrAttribute>::empty() =~= seq![attr]);
    } else {
        assert(extended_color(rest) is None);
    }
}


/// An SGR sequence without parameters means the same as one whose only
/// parameter is `0`.
pub proof fn sgr_without_parameters_is_reset()
    ensures
        sgr_attributes(sgr_sequence(Seq::<u8>::empty())) == sgr_attributes(
            sgr_sequence(decimal_bytes(0)),
        ),
        sgr_attributes(sgr_sequence(Seq::<u8>::empty())) == Some(seq![SgrAttribute::Reset]),
{
    sgr_single_code(0);
    lemma_plain_sgr(Seq::<u8>::empty());
}

/// Leading zeros do not change the number digits spell.
pub proof fn leading_zero_keeps_value(f: Seq<u8>)
    ensures
        digits_value(seq![0x30u8] + f) == digits_value(f),
        all_digits(f) ==> all_digits(seq![0x30u8] + f),
    decreases f.len(),
{
    let g = seq![0x30u8] + f;
    if f.len() == 0 {
        assert(g =~= seq![0x30u8]);
        assert(g.drop_last() =~= Seq::<u8>::empty());
        assert(digits_value(g) == digits_value(g.drop_last()) * 10 + (g.last() - 0x30) as nat);
    } else {
        leading_zero_keeps_value(f.drop_last());
        assert(g.drop_last() =~= seq![0x30u8] + f.drop_last());
        assert(g.last() == f.last());
        assert(digits_value(g) == digits_value(g.drop_last()) * 10 + (g.last() - 0x30) as nat);
        assert(digits_value(f) == digits_value(f.drop_last()) * 10 + (f.last() - 0x30) as nat);
    }
    if all_digits(f) {
        assert forall|i: int| 0 <= i < g.len() implies is_digit(#[trigger] g[i]) by {
            if i > 0 {
                assert(g[i] == f[i - 1]);
            }
        }
    }
}

/// The bytes of every field of `p` are bytes of `p` other than `;`.
proof fn lemma_fields_are_digits(p: Seq<u8>)
    requires
        digits_and_separators(p),
    ensures
        forall|k: int| 0 <= k < split_fields(p).len() ==> all_digits(#[trigger] split_fields(p)[k]),
    decreases p.len(),
{
    lemma_split_fields_nonempty(p);
    if p.len() == 0 {
        assert(split_fields(p) =~= seq![Seq::<u8>::empty()]);
        assert(all_digits(split_fields(p)[0]));
    } else {
        let init = p.drop_last();
        let b = p.last();
        assert(forall|j: int| 0 <= j < init.len() ==> #[trigger] init[j] == p[j]);
        lemma_fields_are_digits(init);
        lemma_split_fields_nonempty(init);
        let parts = split_fields(init);
        assert(p =~= init.push(b));
        assert(p.drop_last() =~= init);
        assert forall|k: int| 0 <= k < split_fields(p).len() implies all_digits(
            #[trigger] split_fields(p)[k],
        ) by {
            if b == SEMICOLON {
                if k < parts.len() {
                    assert(split_fields(p)[k] == parts[k]);
                } else {
                    assert(split_fields(p)[k] =~= Seq::<u8>::empty());
                }
            } else {
                if k < parts.len() - 1 {
                    assert(split_fields(p)[k] == parts[k]);
                } else {
                    let grown = parts.last().push(b);
                    assert(split_fields(p)[k] == grown);
                    assert(is_digit(p[p.len() - 1]));
                    assert(all_digits(parts[parts.len() - 1]));
                    assert forall|i: int| 0 <= i < grown.len() implies is_digit(#[trigger] grown[i]) by {
                        if i < parts.last().len() {
                            assert(grown[i] == parts.last()[i]);
                        }
                    }
                }
            }
        }
    }
}

/// Parsing a list of fields succeeds exactly when each field parses, and
/// gives each field's value in place.
proof fn lemma_parse_fields_each(fields: Seq<Seq<u8>>)
    ensures
        parse_fields(fields) is Some <==> forall|k: int| 0 <= k < fields.len() ==> (#[trigger] parse_field(
            fields[k],
        )) is Some,
        parse_fields(fields) matches Some(v) ==> v.len() == fields.len() && forall|k: int|
            0 <= k < fields.len() ==> Some(#[trigger] v[k]) == parse_field(fields[k]),
    decreases fields.len(),
{
    if fields.len() > 0 {
        let init = fields.drop_last();
        lemma_parse_fields_each(init);
        assert(forall|k: int| 0 <= k < init.len() ==> #[trigger] init[k] == fields[k]);
        assert(fields.last() == fields[fields.len() - 1]);
        if forall|k: int| 0 <= k < fields.len() ==> (#[trigger] parse_field(fields[k])) is Some {
            assert forall|k: int| 0 <= k < init.len() implies (#[trigger] parse_field(init[k])) is Some by {
                assert(parse_field(fields[k]) is Some);
            }
            assert(parse_fields(init) is Some);
            assert(parse_field(fields[fields.len() - 1]) is Some);
            assert(parse_fields(fields) is Some);
        } else {
            let k = choose|k: int| 0 <= k < fields.len() && !((#[trigger] parse_field(fields[k])) is Some);
            if k < init.len() {
                assert(parse_field(init[k]) is None);
                assert(parse_fields(init) is None);
            } else {
                assert(parse_field(fields.last()) is None);
            }
            assert(parse_fields(fields) is None);
        }
    }
}

/// The parameters of a CSI sequence whose parameter bytes are digits and
/// `;` are its fields' decimal values, an empty field giving `None`: the
/// sequence parses exactly when every value fits in `u32`.
pub proof fn csi_params_are_decimal_values(p: Seq<u8>, f: u8)
    requires
        digits_and_separators(p),
        p.len() > 0,
        is_final(f),
    ensures
        ({
            let fields = split_fields(p);
            let r = csi_params(csi_sequence(p, f));
            &&& r is Some <==> forall|k: int| 0 <= k < fields.len() ==> digits_value(
                #[trigger] fields[k],
            ) <= u32::MAX
            &&& r matches Some(v) ==> v.len() == fields.len() && forall|k: int|
                0 <= k < fields.len() ==> #[trigger] v[k] == if fields[k].len() == 0 {
                    None
                } else {
                    Some(digits_value(fields[k]) as u32)
                }
        }),
{
    lemma_plain_csi_params(p, f);
    lemma_fields_are_digits(p);
    let fields = split_fields(p);
    lemma_parse_fields_each(fields);
    assert(forall|k: int| 0 <= k < fields.len() ==> ((#[trigger] parse_field(fields[k])) is Some
        <==> digits_value(fields[k]) <= u32::MAX)) by {
        assert forall|k: int| 0 <= k < fields.len() implies ((#[trigger] parse_field(fields[k])) is Some
            <==> digits_value(fields[k]) <= u32::MAX) by {
            assert(all_digits(fields[k]));
            if fields[k].len() == 0 {
                assert(fields[k] =~= Seq::<u8>::empty());
            }
        }
    }
    if forall|k: int| 0 <= k < fields.len() ==> digits_value(#[trigger] fields[k]) <= u32::MAX {
        assert forall|k: int| 0 <= k < fields.len() implies (#[trigger] parse_field(fields[k])) is Some by {
            assert(digits_value(fields[k]) <= u32::MAX);
        }
    }
    if csi_params(csi_sequence(p, f)) is Some && !(forall|k: int| 0 <= k < fields.len() ==> digits_value(
        #[trigger] fields[k],
    ) <= u32::MAX) {
        let k = choose|k: int| 0 <= k < fields.len() && !(digits_value(#[trigger] fields[k]) <= u32::MAX);
        assert(parse_field(fields[k]) is None);
    }
    if let Some(v) = csi_params(csi_sequence(p, f)) {
        assert forall|k: int| 0 <= k < fields.len() implies #[trigger] v[k] == if fields[k].len() == 0 {
            None
        } else {
            Some(digits_value(fields[k]) as u32)
        } by {
            assert(Some(v[k]) == parse_field(fields[k]));
            assert(all_digits(fields[k]));
        }
    }
}

} // verus!
