//! The grammar of escape sequences stated directly, and the proof that
//! strict mode accepts exactly the sequences it describes.

use vstd::prelude::*;

use crate::csi::{
    all_digits, csi_body, csi_parameter_bytes, csi_params, digits_value, first_intermediate,
    is_csi_body, is_csi_shaped, lemma_split_fields_nonempty, parse_field, parse_fields,
    split_fields,
};
use crate::error::ScanError;
use crate::mode::Mode;
use crate::scanner::{
    csi_scan, escape_scan, intermediates_end, is_digit, is_final, is_intermediate,
    is_parameter, is_printable, is_string_introducer, step, string_scan, EventKind, Outcome,
    BACKSLASH, BEL, CSI_OPEN, ESC, MAX_PARAMS, MAX_PARAM_LEN, OSC, SEMICOLON,
};

verus! {

/// How many bytes of `f` are ASCII digits.
pub open spec fn digit_count(f: Seq<u8>) -> nat
    decreases f.len(),
{
    if f.len() == 0 {
        0
    } else {
        digit_count(f.drop_last()) + if is_digit(f.last()) {
            1nat
        } else {
            0nat
        }
    }
}

/// The `;`-separated fields of the parameter bytes of a CSI sequence, empty
/// ones included; none at all when there are no parameter bytes.
pub open spec fn parameter_fields(params: Seq<u8>) -> Seq<Seq<u8>> {
    if params.len() == 0 {
        Seq::<Seq<u8>>::empty()
    } else {
        split_fields(params)
    }
}

/// `ESC F`: a two-byte escape whose final byte opens nothing longer.
pub open spec fn well_formed_fe(seq: Seq<u8>) -> bool {
    &&& seq.len() == 2
    &&& seq[0] == ESC
    &&& is_final(seq[1])
    &&& seq[1] != CSI_OPEN
    &&& !is_string_introducer(seq[1])
}

/// `ESC I+ F`: intermediate bytes, then a byte from `0` to `~`.
pub open spec fn well_formed_nf(seq: Seq<u8>) -> bool {
    &&& seq.len() >= 3
    &&& seq[0] == ESC
    &&& forall|j: int| 1 <= j < seq.len() - 1 ==> is_intermediate(#[trigger] seq[j])
    &&& 0x30 <= seq.last() <= 0x7E
}

/// `ESC [ P* I* F`: parameter bytes, intermediate bytes and a final byte,
/// with at most `MAX_PARAMS` fields, none of them holding more than
/// `MAX_PARAM_LEN` digits.
pub open spec fn well_formed_csi(seq: Seq<u8>) -> bool {
    let fields = parameter_fields(csi_parameter_bytes(seq));
    &&& is_csi_shaped(seq)
    &&& is_csi_body(csi_body(seq))
    &&& fields.len() <= MAX_PARAMS
    &&& forall|k: int| 0 <= k < fields.len() ==> digit_count(#[trigger] fields[k]) <= MAX_PARAM_LEN
}

/// The bytes of `s` from `a` to `b` are all between space and `~`.
pub open spec fn all_printable(s: Seq<u8>, a: int, b: int) -> bool {
    forall|j: int| a <= j < b ==> is_printable(#[trigger] s[j])
}

/// A string sequence: OSC, DCS, SOS, PM or APC, a body of bytes from space
/// to `~`, and the terminator `ST` (`ESC \`), or for OSC also `BEL`.
pub open spec fn well_formed_string(seq: Seq<u8>) -> bool {
    &&& seq.len() >= 3
    &&& seq[0] == ESC
    &&& is_string_introducer(seq[1])
    &&& {
        ||| seq[1] == OSC && seq.last() == BEL && all_printable(seq, 2, seq.len() - 1)
        ||| seq.len() >= 4 && seq[seq.len() - 2] == ESC && seq.last() == BACKSLASH && all_printable(
            seq,
            2,
            seq.len() - 2,
        )
    }
}

/// A complete, well-formed escape sequence.
pub open spec fn well_formed_escape(seq: Seq<u8>) -> bool {
    ||| well_formed_fe(seq)
    ||| well_formed_nf(seq)
    ||| well_formed_csi(seq)
    ||| well_formed_string(seq)
}

/// Every field of `fields` holds at most `MAX_PARAM_LEN` digits.
pub open spec fn fields_digits_within(fields: Seq<Seq<u8>>) -> bool {
    forall|k: int| 0 <= k < fields.len() ==> digit_count(#[trigger] fields[k]) <= MAX_PARAM_LEN
}

/// What the CSI state machine knows at `i` about the bytes from `ps` on:
/// the parameter bytes end at `q` once an intermediate byte was seen (at
/// `i` otherwise), and the counters describe their fields.
spec fn csi_state(
    input: Seq<u8>,
    ps: int,
    i: int,
    count: int,
    run: int,
    seen_param: bool,
    seen_intermediate: bool,
    q: int,
) -> bool {
    let pend = if seen_intermediate {
        q
    } else {
        i
    };
    let params = input.subrange(ps, pend);
    &&& 0 <= ps <= pend <= i <= input.len()
    &&& forall|j: int| ps <= j < pend ==> is_parameter(#[trigger] input[j])
    &&& seen_intermediate ==> pend < i
    &&& forall|j: int| pend <= j < i ==> is_intermediate(#[trigger] input[j])
    &&& count == split_fields(params).len() - 1
    &&& seen_param == (params.len() > 0)
    &&& run == digit_count(split_fields(params).last())
}

/// A violation, once found, is what the CSI scan reports.
proof fn lemma_violation_sticks(
    input: Seq<u8>,
    i: int,
    count: int,
    run: int,
    seen_param: bool,
    seen_intermediate: bool,
    v: Outcome,
)
    ensures
        csi_scan(input, i, count, run, seen_param, seen_intermediate, Some(v)).1 == v,
    decreases input.len() - i,
{
    if 0 <= i < input.len() {
        lemma_violation_sticks(input, i + 1, count + 1, 0, true, seen_intermediate, v);
        lemma_violation_sticks(input, i + 1, count, run + 1, true, seen_intermediate, v);
        lemma_violation_sticks(input, i + 1, count, run, true, seen_intermediate, v);
        lemma_violation_sticks(input, i + 1, count, run, seen_param, true, v);
    }
}

/// `first_intermediate` finds the first intermediate byte.
proof fn lemma_first_intermediate_at(body: Seq<u8>, i: int, m: int)
    requires
        0 <= i <= m <= body.len(),
        forall|j: int| i <= j < m ==> !is_intermediate(#[trigger] body[j]),
        m == body.len() || is_intermediate(body[m]),
    ensures
        first_intermediate(body, i) == m,
    decreases m - i,
{
    if i < m {
        lemma_first_intermediate_at(body, i + 1, m);
    }
}

/// `intermediates_end` finds the first byte that is not intermediate.
proof fn lemma_intermediates_end_at(input: Seq<u8>, i: int, m: int)
    requires
        0 <= i <= m < input.len(),
        forall|j: int| i <= j < m ==> is_intermediate(#[trigger] input[j]),
        !is_intermediate(input[m]),
    ensures
        intermediates_end(input, i) == m,
    decreases m - i,
{
    if i < m {
        lemma_intermediates_end_at(input, i + 1, m);
    }
}

/// Everything `intermediates_end` passes over is intermediate.
proof fn lemma_intermediates_end_all(input: Seq<u8>, i: int)
    requires
        0 <= i <= input.len(),
    ensures
        i <= intermediates_end(input, i) <= input.len(),
        forall|j: int| i <= j < intermediates_end(input, i) ==> is_intermediate(#[trigger] input[j]),
        intermediates_end(input, i) < input.len() ==> !is_intermediate(
            input[intermediates_end(input, i)],
        ),
    decreases input.len() - i,
{
    if i < input.len() && is_intermediate(input[i]) {
        lemma_intermediates_end_all(input, i + 1);
    }
}

/// Appending one byte to the parameter bytes: a `;` opens a new empty
/// field, anything else grows the last field.
proof fn lemma_split_push(p: Seq<u8>, b: u8)
    ensures
        split_fields(p).len() >= 1,
        b == SEMICOLON ==> split_fields(p.push(b)) == split_fields(p).push(Seq::<u8>::empty()),
        b != SEMICOLON ==> split_fields(p.push(b)) == split_fields(p).update(
            split_fields(p).len() - 1,
            split_fields(p).last().push(b),
        ),
{
    lemma_split_fields_nonempty(p);
    assert(p.push(b).drop_last() =~= p);
}

/// Digits of a field, counted after one more byte.
proof fn lemma_digit_count_push(f: Seq<u8>, b: u8)
    ensures
        digit_count(f.push(b)) == digit_count(f) + if is_digit(b) {
            1nat
        } else {
            0nat
        },
{
    assert(f.push(b).drop_last() =~= f);
}

/// A prefix of a field holds no more digits than the field.
proof fn lemma_digit_count_prefix(f: Seq<u8>, m: int)
    requires
        0 <= m <= f.len(),
    ensures
        digit_count(f.take(m)) <= digit_count(f),
    decreases f.len(),
{
    if m < f.len() {
        assert(f.take(m) =~= f.drop_last().take(m));
        lemma_digit_count_prefix(f.drop_last(), m);
    } else {
        assert(f.take(m) =~= f);
    }
}

/// The fields of a prefix `p` of some parameter bytes `p + q`: all but the
/// last are fields of `p + q`, and the last is a prefix of the field of
/// `p + q` at the same place.
proof fn lemma_split_prefix(p: Seq<u8>, q: Seq<u8>)
    ensures
        split_fields(p).len() >= 1,
        split_fields(p).len() <= split_fields(p + q).len(),
        split_fields(p).last().len() <= split_fields(p + q)[split_fields(p).len() - 1].len(),
        split_fields(p + q)[split_fields(p).len() - 1].take(split_fields(p).last().len() as int)
            == split_fields(p).last(),
    decreases q.len(),
{
    lemma_split_fields_nonempty(p);
    let a = split_fields(p);
    let n = a.len();
    if q.len() == 0 {
        assert(p + q =~= p);
        assert(a.last().take(a.last().len() as int) =~= a.last());
    } else {
        let q0 = q.drop_last();
        let b = q.last();
        lemma_split_prefix(p, q0);
        assert(p + q =~= (p + q0).push(b));
        lemma_split_push(p + q0, b);
        let c0 = split_fields(p + q0);
        let c = split_fields(p + q);
        if b != SEMICOLON && n - 1 == c0.len() - 1 {
            let old = c0[n - 1];
            assert(c[n - 1] == old.push(b));
            assert(old.push(b).take(a.last().len() as int) =~= old.take(a.last().len() as int));
        } else {
            assert(c[n - 1] == c0[n - 1]);
        }
    }
}

/// The state machine's start: no bytes seen.
proof fn lemma_csi_state_start(input: Seq<u8>, ps: int)
    requires
        0 <= ps <= input.len(),
    ensures
        csi_state(input, ps, ps, 0, 0, false, false, 0),
{
    assert(input.subrange(ps, ps) =~= Seq::<u8>::empty());
    assert(split_fields(Seq::<u8>::empty()) =~= seq![Seq::<u8>::empty()]);
}

/// A CSI scan from a state that describes the bytes seen so far (with no
/// violation yet), ending `Complete`, ends at a final byte after a body of
/// parameter bytes and intermediate bytes whose fields obey the limits.
proof fn lemma_csi_complete_is_well_formed(
    input: Seq<u8>,
    ps: int,
    i: int,
    count: int,
    run: int,
    seen_param: bool,
    seen_intermediate: bool,
    q: int,
)
    requires
        csi_state(input, ps, i, count, run, seen_param, seen_intermediate, q),
        fields_digits_within(
            split_fields(
                input.subrange(
                    ps,
                    if seen_intermediate {
                        q
                    } else {
                        i
                    },
                ),
            ),
        ),
        csi_scan(input, i, count, run, seen_param, seen_intermediate, None).1 == Outcome::Complete,
    ensures
        ({
            let end = csi_scan(input, i, count, run, seen_param, seen_intermediate, None).0;
            let body = input.subrange(ps, end - 1);
            let fields = parameter_fields(body.take(first_intermediate(body, 0)));
            &&& i < end <= input.len()
            &&& is_final(input[end - 1])
            &&& is_csi_body(body)
            &&& fields.len() <= MAX_PARAMS
            &&& fields_digits_within(fields)
        }),
    decreases input.len() - i,
{
    if i >= input.len() {
        assert(false);
    }
    let b = input[i];
    let params = input.subrange(ps, i);
    lemma_split_fields_nonempty(params);
    if is_parameter(b) {
        if seen_intermediate {
            lemma_violation_sticks(input, i + 1, count + 1, 0, true, true, Outcome::Disallowed(b));
            lemma_violation_sticks(input, i + 1, count, run + 1, true, true, Outcome::Disallowed(b));
            lemma_violation_sticks(input, i + 1, count, run, true, true, Outcome::Disallowed(b));
            assert(false);
        }
        let grown = input.subrange(ps, i + 1);
        assert(grown =~= params.push(b));
        lemma_split_push(params, b);
        let parts = split_fields(params);
        if b == SEMICOLON {
            assert(fields_digits_within(split_fields(grown))) by {
                assert forall|k: int| 0 <= k < split_fields(grown).len() implies digit_count(
                    #[trigger] split_fields(grown)[k],
                ) <= MAX_PARAM_LEN by {
                    if k < parts.len() {
                        assert(split_fields(grown)[k] == parts[k]);
                    } else {
                        assert(split_fields(grown)[k] =~= Seq::<u8>::empty());
                    }
                }
            }
            lemma_csi_complete_is_well_formed(input, ps, i + 1, count + 1, 0, true, false, q);
        } else {
            lemma_digit_count_push(parts.last(), b);
            if is_digit(b) && run + 1 > MAX_PARAM_LEN {
                lemma_violation_sticks(input, i + 1, count, run + 1, true, false, Outcome::ParamTooLong);
                assert(false);
            }
            assert(fields_digits_within(split_fields(grown))) by {
                assert forall|k: int| 0 <= k < split_fields(grown).len() implies digit_count(
                    #[trigger] split_fields(grown)[k],
                ) <= MAX_PARAM_LEN by {
                    if k < parts.len() - 1 {
                        assert(split_fields(grown)[k] == parts[k]);
                    }
                }
            }
            if is_digit(b) {
                lemma_csi_complete_is_well_formed(input, ps, i + 1, count, run + 1, true, false, q);
            } else {
                lemma_csi_complete_is_well_formed(input, ps, i + 1, count, run, true, false, q);
            }
        }
    } else if is_intermediate(b) {
        if seen_intermediate {
            lemma_csi_complete_is_well_formed(input, ps, i + 1, count, run, seen_param, true, q);
        } else {
            lemma_csi_complete_is_well_formed(input, ps, i + 1, count, run, seen_param, true, i);
        }
    } else if is_final(b) {
        let pend = if seen_intermediate {
            q
        } else {
            i
        };
        let body = input.subrange(ps, i);
        assert(forall|j: int| 0 <= j < body.len() ==> #[trigger] body[j] == input[ps + j]);
        lemma_first_intermediate_at(body, 0, pend - ps);
        assert(body.take(pend - ps) =~= input.subrange(ps, pend));
        assert(is_csi_body(body));
    } else {
        assert(false);
    }
}

/// A string scan from `j`, over a body that is printable so far, ending
/// `Complete`, ends at one of the terminators after a printable body.
proof fn lemma_string_complete(input: Seq<u8>, intro: u8, cs: int, j: int)
    requires
        0 <= cs <= j <= input.len(),
        all_printable(input, cs, j),
        string_scan(input, intro, j).1 == Outcome::Complete,
    ensures
        ({
            let end = string_scan(input, intro, j).0;
            ||| intro == OSC && j < end <= input.len() && input[end - 1] == BEL && all_printable(
                input,
                cs,
                end - 1,
            )
            ||| j + 2 <= end <= input.len() && input[end - 2] == ESC && input[end - 1] == BACKSLASH
                && all_printable(input, cs, end - 2)
        }),
    decreases input.len() - j,
{
    if j < input.len() && !(input[j] == BEL && intro == OSC) && input[j] != ESC && is_printable(
        input[j],
    ) {
        lemma_string_complete(input, intro, cs, j + 1);
    }
}

/// A string scan over printable bytes carries on to the first byte that
/// is not printable.
proof fn lemma_string_scan_skips(input: Seq<u8>, intro: u8, j: int, t: int)
    requires
        0 <= j <= t <= input.len(),
        all_printable(input, j, t),
    ensures
        string_scan(input, intro, j) == string_scan(input, intro, t),
    decreases t - j,
{
    if j < t {
        lemma_string_scan_skips(input, intro, j + 1, t);
    }
}

/// Every escape sequence that strict mode accepts is well formed.
pub proof fn strict_escapes_are_well_formed(input: Seq<u8>, pos: int)
    requires
        0 <= pos < input.len() <= usize::MAX,
        input[pos] == ESC,
        step(input, pos, Mode::Strict).0 is Ok,
    ensures
        step(input, pos, Mode::Strict).0 == Ok::<(EventKind, int, int), crate::error::ScanError>(
            (EventKind::Escape, pos, step(input, pos, Mode::Strict).1),
        ),
        well_formed_escape(input.subrange(pos, step(input, pos, Mode::Strict).1)),
{
    let (end, outcome) = escape_scan(input, pos);
    assert(outcome == Outcome::Complete);
    let seq = input.subrange(pos, end);
    let i = pos + 1;
    assert(i < input.len());
    let b = input[i];
    crate::scanner::lemma_escape_scan_bounds(input, pos);
    assert(forall|j: int| 0 <= j < seq.len() ==> #[trigger] seq[j] == input[pos + j]);
    if b == CSI_OPEN {
        let ps = i + 1;
        lemma_csi_state_start(input, ps);
        assert(fields_digits_within(split_fields(input.subrange(ps, ps))));
        lemma_csi_complete_is_well_formed(input, ps, ps, 0, 0, false, false, 0);
        assert(csi_body(seq) =~= input.subrange(ps, end - 1));
        assert(well_formed_csi(seq));
    } else if is_string_introducer(b) {
        lemma_string_complete(input, b, i + 1, i + 1);
        if b == OSC && input[end - 1] == BEL && all_printable(input, i + 1, end - 1) {
            assert(all_printable(seq, 2, seq.len() - 1));
        } else {
            assert(all_printable(seq, 2, seq.len() - 2));
        }
        assert(well_formed_string(seq));
    } else if is_final(b) {
        assert(well_formed_fe(seq));
    } else if is_intermediate(b) {
        lemma_intermediates_end_all(input, i + 1);
        assert(well_formed_nf(seq));
    } else {
        assert(false);
    }
}


/// In either mode, every `Escape` event is a well-formed escape sequence:
/// lenient mode reports everything else as `Invalid`.
pub proof fn escape_events_are_well_formed(input: Seq<u8>, pos: int, mode: Mode)
    requires
        0 <= pos < input.len() <= usize::MAX,
        step(input, pos, mode).0 matches Ok((EventKind::Escape, _, _)),
    ensures
        well_formed_escape(input.subrange(pos, step(input, pos, mode).1)),
{
    crate::laws::modes_agree_on_each_step(input, pos);
    strict_escapes_are_well_formed(input, pos);
}

/// `first_intermediate` stays within the body.
proof fn lemma_first_intermediate_bounds(body: Seq<u8>, i: int)
    requires
        0 <= i <= body.len(),
    ensures
        i <= first_intermediate(body, i) <= body.len(),
    decreases body.len() - i,
{
    if i < body.len() && !is_intermediate(body[i]) {
        lemma_first_intermediate_bounds(body, i + 1);
    }
}

/// The CSI state machine, run from a state that describes the bytes seen so
/// far over a well-formed body ending in a final byte at `e - 1`, completes
/// there.
proof fn lemma_well_formed_csi_completes(
    input: Seq<u8>,
    ps: int,
    e: int,
    i: int,
    count: int,
    run: int,
    seen_param: bool,
    seen_intermediate: bool,
    q: int,
)
    requires
        ps <= i < e <= input.len(),
        is_final(input[e - 1]),
        is_csi_body(input.subrange(ps, e - 1)),
        0 <= first_intermediate(input.subrange(ps, e - 1), 0) <= e - 1 - ps,
        parameter_fields(
            input.subrange(ps, ps + first_intermediate(input.subrange(ps, e - 1), 0)),
        ).len() <= MAX_PARAMS,
        fields_digits_within(
            parameter_fields(
                input.subrange(ps, ps + first_intermediate(input.subrange(ps, e - 1), 0)),
            ),
        ),
        csi_state(input, ps, i, count, run, seen_param, seen_intermediate, q),
        seen_intermediate <==> i > ps + first_intermediate(input.subrange(ps, e - 1), 0),
        seen_intermediate ==> q == ps + first_intermediate(input.subrange(ps, e - 1), 0),
    ensures
        csi_scan(input, i, count, run, seen_param, seen_intermediate, None) == (
            e,
            Outcome::Complete,
        ),
    decreases e - i,
{
    let body = input.subrange(ps, e - 1);
    let k = first_intermediate(body, 0);
    let all = input.subrange(ps, ps + k);
    let b = input[i];
    if i == e - 1 {
        let pend = if seen_intermediate {
            q
        } else {
            i
        };
        assert(pend == ps + k);
        if seen_param {
            assert(all.len() > 0);
        } else {
            assert(all.len() == 0);
        }
    } else {
        assert(body[i - ps] == b);
        if i < ps + k {
            assert(is_parameter(b));
            let params = input.subrange(ps, i);
            let grown = input.subrange(ps, i + 1);
            assert(grown =~= params.push(b));
            lemma_split_push(params, b);
            let parts = split_fields(params);
            if b == SEMICOLON {
                lemma_well_formed_csi_completes(input, ps, e, i + 1, count + 1, 0, true, false, q);
            } else {
                lemma_digit_count_push(parts.last(), b);
                if is_digit(b) {
                    let rest = input.subrange(i + 1, ps + k);
                    assert(grown + rest =~= all);
                    lemma_split_prefix(grown, rest);
                    let g = split_fields(grown);
                    let f = split_fields(all)[g.len() - 1];
                    lemma_digit_count_prefix(f, g.last().len() as int);
                    assert(parameter_fields(all) == split_fields(all));
                    assert(digit_count(f) <= MAX_PARAM_LEN);
                    assert(g.last() == parts.last().push(b));
                    lemma_well_formed_csi_completes(
                        input,
                        ps,
                        e,
                        i + 1,
                        count,
                        run + 1,
                        true,
                        false,
                        q,
                    );
                } else {
                    lemma_well_formed_csi_completes(input, ps, e, i + 1, count, run, true, false, q);
                }
            }
        } else {
            assert(is_intermediate(b));
            if seen_intermediate {
                lemma_well_formed_csi_completes(
                    input,
                    ps,
                    e,
                    i + 1,
                    count,
                    run,
                    seen_param,
                    true,
                    q,
                );
            } else {
                lemma_well_formed_csi_completes(
                    input,
                    ps,
                    e,
                    i + 1,
                    count,
                    run,
                    seen_param,
                    true,
                    i,
                );
            }
        }
    }
}

/// Every well-formed escape sequence is accepted by strict mode as one
/// escape event, exactly as long as the sequence.
pub proof fn well_formed_escapes_are_accepted(input: Seq<u8>, pos: int, e: int)
    requires
        0 <= pos < e <= input.len() <= usize::MAX,
        well_formed_escape(input.subrange(pos, e)),
    ensures
        step(input, pos, Mode::Strict) == (
            Ok::<(EventKind, int, int), crate::error::ScanError>((EventKind::Escape, pos, e)),
            e,
        ),
{
    let seq = input.subrange(pos, e);
    assert(forall|j: int| 0 <= j < seq.len() ==> #[trigger] seq[j] == input[pos + j]);
    assert(input[pos] == ESC);
    let i = pos + 1;
    let b = input[i];
    assert(seq[1] == b);
    if b == CSI_OPEN {
        assert(well_formed_csi(seq));
        let ps = i + 1;
        let body = input.subrange(ps, e - 1);
        assert(csi_body(seq) =~= body);
        lemma_first_intermediate_bounds(body, 0);
        let k = first_intermediate(body, 0);
        assert(body.take(k) =~= input.subrange(ps, ps + k));
        lemma_csi_state_start(input, ps);
        lemma_well_formed_csi_completes(input, ps, e, ps, 0, 0, false, false, 0);
    } else if is_string_introducer(b) {
        assert(well_formed_string(seq));
        if b == OSC && seq.last() == BEL && all_printable(seq, 2, seq.len() - 1) {
            assert forall|j: int| i + 1 <= j < e - 1 implies is_printable(#[trigger] input[j]) by {
                assert(input[j] == seq[j - pos]);
            }
            lemma_string_scan_skips(input, b, i + 1, e - 1);
        } else {
            assert forall|j: int| i + 1 <= j < e - 2 implies is_printable(#[trigger] input[j]) by {
                assert(input[j] == seq[j - pos]);
            }
            lemma_string_scan_skips(input, b, i + 1, e - 2);
        }
    } else if is_final(b) {
        assert(well_formed_fe(seq));
    } else {
        assert(well_formed_nf(seq));
        assert(is_intermediate(b));
        assert forall|j: int| i + 1 <= j < e - 1 implies is_intermediate(#[trigger] input[j]) by {
            assert(input[j] == seq[j - pos]);
        }
        assert(input[e - 1] == seq[seq.len() - 1]);
        lemma_intermediates_end_at(input, i + 1, e - 1);
    }
}


/// A CSI sequence that strict mode accepts is well formed, so none of its
/// fields holds more than `MAX_PARAM_LEN` digits. So when its parameter
/// bytes are all digits and `;`, [`parse_csi_params`](crate::csi::parse_csi_params)
/// reads every field of it: no field can overflow `u32`.
pub proof fn strict_csi_parameters_fit(input: Seq<u8>, pos: int)
    requires
        0 <= pos < input.len() <= usize::MAX,
        input[pos] == ESC,
        pos + 1 < input.len(),
        input[pos + 1] == CSI_OPEN,
        step(input, pos, Mode::Strict).0 is Ok,
    ensures
        ({
            let seq = input.subrange(pos, step(input, pos, Mode::Strict).1);
            let params = csi_parameter_bytes(seq);
            &&& well_formed_csi(seq)
            &&& (forall|j: int| 0 <= j < params.len() ==> is_digit(#[trigger] params[j]) || params[j]
                == SEMICOLON) ==> csi_params(seq) is Some
        }),
{
    strict_escapes_are_well_formed(input, pos);
    let seq = input.subrange(pos, step(input, pos, Mode::Strict).1);
    crate::scanner::lemma_step_advances(input, pos, Mode::Strict);
    assert(seq.len() >= 2);
    assert(seq[1] == input[pos + 1]);
    assert(well_formed_csi(seq));
    let params = csi_parameter_bytes(seq);
    if params.len() > 0 && forall|j: int| 0 <= j < params.len() ==> is_digit(#[trigger] params[j])
        || params[j] == SEMICOLON {
        lemma_digit_fields_parse(params);
    }
}

/// `10` to the power `n`.
pub open spec fn pow10(n: nat) -> nat
    decreases n,
{
    if n == 0 {
        1
    } else {
        10 * pow10((n - 1) as nat)
    }
}

/// Powers of ten grow with the exponent.
proof fn lemma_pow10_monotone(a: nat, b: nat)
    requires
        a <= b,
    ensures
        pow10(a) <= pow10(b),
    decreases b,
{
    if a < b {
        lemma_pow10_monotone(a, (b - 1) as nat);
    }
}

/// Decimal digits never spell more than their count of nines.
proof fn lemma_digits_value_bound(f: Seq<u8>)
    requires
        all_digits(f),
    ensures
        digits_value(f) < pow10(f.len()),
        digit_count(f) == f.len(),
    decreases f.len(),
{
    if f.len() > 0 {
        let init = f.drop_last();
        assert(all_digits(init)) by {
            assert forall|i: int| 0 <= i < init.len() implies is_digit(#[trigger] init[i]) by {
                assert(init[i] == f[i]);
            }
        }
        lemma_digits_value_bound(init);
        assert(is_digit(f[f.len() - 1]));
    }
}

/// Fields of digits of at most `MAX_PARAM_LEN` digits all parse.
proof fn lemma_digit_fields_parse(p: Seq<u8>)
    requires
        forall|j: int| 0 <= j < p.len() ==> is_digit(#[trigger] p[j]) || p[j] == SEMICOLON,
        fields_digits_within(split_fields(p)),
    ensures
        parse_fields(split_fields(p)) is Some,
        all_digits(split_fields(p).last()),
    decreases p.len(),
{
    if p.len() == 0 {
        let parts = split_fields(p);
        assert(parts == seq![Seq::<u8>::empty()]);
        assert(parts.drop_last() =~= Seq::<Seq<u8>>::empty());
        assert(parse_fields(parts.drop_last()) is Some);
        assert(parse_field(parts.last()) == Some(None::<u32>));
        assert(parse_fields(parts) is Some);
    } else {
        let init = p.drop_last();
        let b = p.last();
        assert(p =~= init.push(b));
        lemma_split_push(init, b);
        let parts = split_fields(init);
        assert(forall|j: int| 0 <= j < init.len() ==> #[trigger] init[j] == p[j]);
        if b == SEMICOLON {
            assert(fields_digits_within(parts)) by {
                assert forall|k: int| 0 <= k < parts.len() implies digit_count(#[trigger] parts[k])
                    <= MAX_PARAM_LEN by {
                    assert(split_fields(p)[k] == parts[k]);
                }
            }
            lemma_digit_fields_parse(init);
            assert(parts.push(Seq::<u8>::empty()).drop_last() =~= parts);
            assert(parse_field(Seq::<u8>::empty()) == Some(None::<u32>));
            assert(parse_fields(parts.push(Seq::<u8>::empty())) is Some);
            assert(split_fields(p).last() =~= Seq::<u8>::empty());
        } else {
            let last = parts.last();
            let grown = last.push(b);
            let parts2 = parts.update(parts.len() - 1, grown);
            assert(parts2[parts.len() - 1] == grown);
            assert(fields_digits_within(parts)) by {
                assert forall|k: int| 0 <= k < parts.len() implies digit_count(#[trigger] parts[k])
                    <= MAX_PARAM_LEN by {
                    if k < parts.len() - 1 {
                        assert(parts2[k] == parts[k]);
                    } else {
                        lemma_digit_count_push(last, b);
                    }
                }
            }
            lemma_digit_fields_parse(init);
            assert(is_digit(p[p.len() - 1]));
            assert(all_digits(grown)) by {
                assert forall|i: int| 0 <= i < grown.len() implies is_digit(#[trigger] grown[i]) by {
                    if i < last.len() {
                        assert(grown[i] == last[i]);
                    }
                }
            }
            lemma_digits_value_bound(grown);
            assert(grown.len() <= MAX_PARAM_LEN);
            lemma_pow10_monotone(grown.len(), MAX_PARAM_LEN as nat);
            assert(pow10(8) == 100000000) by {
                reveal_with_fuel(pow10, 9);
            }
            assert(parse_field(grown) is Some);
            assert(parts2.drop_last() =~= parts.drop_last());
            assert(parse_fields(parts) is Some);
            assert(parse_fields(parts.drop_last()) is Some);
            assert(parts2.last() == grown);
            assert(parse_fields(parts2) is Some);
        }
    }
}


/// `ESC` followed by a byte that opens no sequence (not `[`, not a string
/// introducer, not a final or intermediate byte): strict mode reports that
/// byte as disallowed, and lenient mode reports only the `ESC` as invalid
/// and resumes at that byte. A lone `ESC` at the end of the input is
/// unterminated, and lenient mode reports it alone as invalid.
pub proof fn stray_byte_after_escape(input: Seq<u8>, pos: int)
    requires
        0 <= pos < input.len() <= usize::MAX,
        input[pos] == ESC,
    ensures
        pos + 1 == input.len() ==> {
            &&& step(input, pos, Mode::Lenient) == (
                Ok::<(EventKind, int, int), ScanError>((EventKind::Invalid, pos, pos + 1)),
                pos + 1,
            )
            &&& step(input, pos, Mode::Strict).0 == Err::<(EventKind, int, int), ScanError>(
                ScanError::UnterminatedSequence { start: pos as usize },
            )
        },
        pos + 1 < input.len() && input[pos + 1] != CSI_OPEN && !is_string_introducer(input[pos + 1])
            && !is_final(input[pos + 1]) && !is_intermediate(input[pos + 1]) ==> {
            &&& step(input, pos, Mode::Lenient) == (
                Ok::<(EventKind, int, int), ScanError>((EventKind::Invalid, pos, pos + 1)),
                pos + 1,
            )
            &&& step(input, pos, Mode::Strict).0 == Err::<(EventKind, int, int), ScanError>(
                ScanError::DisallowedByte { start: pos as usize, byte: input[pos + 1] },
            )
        },
{
}

/// A string sequence (OSC, DCS, SOS, PM, APC) runs over printable bytes up
/// to its first byte `t` that is not printable, and that byte decides how it
/// ends: `BEL` ends an OSC, `ESC \` ends any of them, the end of the input
/// leaves it unterminated, and anything else (another control byte, or an
/// `ESC` not followed by `\`) cuts it off right there. Lenient mode then
/// reports the bytes before `t` as invalid and resumes at `t`; strict mode
/// reports the offending byte.
pub proof fn string_sequences_end_at_first_control_byte(input: Seq<u8>, pos: int, t: int)
    requires
        0 <= pos,
        pos + 2 <= t <= input.len() <= usize::MAX,
        input[pos] == ESC,
        is_string_introducer(input[pos + 1]),
        all_printable(input, pos + 2, t),
        t == input.len() || !is_printable(input[t]),
    ensures
        ({
            let intro = input[pos + 1];
            let lenient = step(input, pos, Mode::Lenient);
            let strict = step(input, pos, Mode::Strict).0;
            let invalid = (
                Ok::<(EventKind, int, int), ScanError>((EventKind::Invalid, pos, t)),
                t,
            );
            &&& t == input.len() ==> lenient == invalid && strict == Err::<
                (EventKind, int, int),
                ScanError,
            >(ScanError::UnterminatedSequence { start: pos as usize })
            &&& t < input.len() && input[t] == BEL && intro == OSC ==> lenient == (
                Ok::<(EventKind, int, int), ScanError>((EventKind::Escape, pos, t + 1)),
                t + 1,
            ) && strict == lenient.0
            &&& t + 1 < input.len() && input[t] == ESC && input[t + 1] == BACKSLASH ==> lenient == (
                Ok::<(EventKind, int, int), ScanError>((EventKind::Escape, pos, t + 2)),
                t + 2,
            ) && strict == lenient.0
            &&& t + 1 == input.len() && input[t] == ESC ==> lenient == invalid && strict == Err::<
                (EventKind, int, int),
                ScanError,
            >(ScanError::UnterminatedSequence { start: pos as usize })
            &&& t + 1 < input.len() && input[t] == ESC && input[t + 1] != BACKSLASH ==> lenient
                == invalid && strict == Err::<(EventKind, int, int), ScanError>(
                ScanError::DisallowedByte { start: pos as usize, byte: ESC },
            )
            &&& t < input.len() && input[t] != ESC && !(input[t] == BEL && intro == OSC) ==> lenient
                == invalid && strict == Err::<(EventKind, int, int), ScanError>(
                ScanError::DisallowedByte { start: pos as usize, byte: input[t] },
            )
        }),
{
    lemma_string_scan_skips(input, input[pos + 1], pos + 2, t);
}

/// The CSI scan ends right after the first byte outside `0x20..=0x3F` when
/// that byte is final, and at it otherwise; it completes only at a final
/// byte.
proof fn lemma_csi_end(
    input: Seq<u8>,
    i: int,
    count: int,
    run: int,
    seen_param: bool,
    seen_intermediate: bool,
    violation: Option<Outcome>,
    t: int,
)
    requires
        0 <= i <= t <= input.len(),
        forall|j: int| i <= j < t ==> 0x20 <= #[trigger] input[j] <= 0x3F,
        t == input.len() || !(0x20 <= input[t] <= 0x3F),
        violation != Some(Outcome::Complete),
    ensures
        csi_scan(input, i, count, run, seen_param, seen_intermediate, violation).0 == if t
            < input.len() && is_final(input[t]) {
            t + 1
        } else {
            t
        },
        csi_scan(input, i, count, run, seen_param, seen_intermediate, violation).1
            == Outcome::Complete ==> t < input.len() && is_final(input[t]),
    decreases t - i,
{
    if i < t {
        let b = input[i];
        let v1 = if seen_intermediate && violation is None {
            Some(Outcome::Disallowed(b))
        } else {
            violation
        };
        let v2 = if run + 1 > MAX_PARAM_LEN && v1 is None {
            Some(Outcome::ParamTooLong)
        } else {
            v1
        };
        lemma_csi_end(input, i + 1, count + 1, 0, true, seen_intermediate, v1, t);
        lemma_csi_end(input, i + 1, count, run + 1, true, seen_intermediate, v2, t);
        lemma_csi_end(input, i + 1, count, run, true, seen_intermediate, v1, t);
        lemma_csi_end(input, i + 1, count, run, seen_param, true, violation, t);
    }
}

/// A CSI sequence runs over parameter and intermediate bytes
/// (`0x20..=0x3F`) up to the first other byte, at offset `t`. When that
/// byte is a final byte the sequence ends after it, and lenient mode reports
/// it as an escape if it is well formed and as invalid otherwise. When there
/// is no such byte, or it is not a final byte, lenient mode reports the bytes
/// before `t` as invalid and resumes at `t`. Strict mode accepts exactly the
/// well-formed case.
pub proof fn csi_sequences_end_at_first_other_byte(input: Seq<u8>, pos: int, t: int)
    requires
        0 <= pos,
        pos + 2 <= t <= input.len() <= usize::MAX,
        input[pos] == ESC,
        input[pos + 1] == CSI_OPEN,
        forall|j: int| pos + 2 <= j < t ==> 0x20 <= #[trigger] input[j] <= 0x3F,
        t == input.len() || !(0x20 <= input[t] <= 0x3F),
    ensures
        t < input.len() && is_final(input[t]) ==> step(input, pos, Mode::Lenient) == (
            Ok::<(EventKind, int, int), ScanError>(
                (
                    if well_formed_csi(input.subrange(pos, t + 1)) {
                        EventKind::Escape
                    } else {
                        EventKind::Invalid
                    },
                    pos,
                    t + 1,
                ),
            ),
            t + 1,
        ),
        !(t < input.len() && is_final(input[t])) ==> step(input, pos, Mode::Lenient) == (
            Ok::<(EventKind, int, int), ScanError>((EventKind::Invalid, pos, t)),
            t,
        ),
        step(input, pos, Mode::Strict).0 is Ok <==> (t < input.len() && is_final(input[t])
            && well_formed_csi(input.subrange(pos, t + 1))),
{
    lemma_csi_end(input, pos + 2, 0, 0, false, false, None, t);
    let (end, outcome) = escape_scan(input, pos);
    if t < input.len() && is_final(input[t]) {
        let seq = input.subrange(pos, t + 1);
        if well_formed_csi(seq) {
            well_formed_escapes_are_accepted(input, pos, t + 1);
        } else if outcome == Outcome::Complete {
            strict_escapes_are_well_formed(input, pos);
            assert(seq[1] == CSI_OPEN);
            assert(!is_string_introducer(seq[1]) && !is_intermediate(seq[1]));
            assert(false);
        }
    }
}

/// An nF escape (`ESC` and intermediate bytes) runs up to the first
/// non-intermediate byte, at offset `t`: a byte from `0` to `~` completes it,
/// while the end of the input, or any other byte, leaves the bytes before `t`
/// invalid in lenient mode, which resumes at `t`.
pub proof fn nf_escapes_end_at_first_other_byte(input: Seq<u8>, pos: int, t: int)
    requires
        0 <= pos,
        pos + 2 <= t <= input.len() <= usize::MAX,
        input[pos] == ESC,
        forall|j: int| pos + 1 <= j < t ==> is_intermediate(#[trigger] input[j]),
        t == input.len() || !is_intermediate(input[t]),
    ensures
        t < input.len() && 0x30 <= input[t] <= 0x7E ==> {
            &&& step(input, pos, Mode::Lenient) == (
                Ok::<(EventKind, int, int), ScanError>((EventKind::Escape, pos, t + 1)),
                t + 1,
            )
            &&& step(input, pos, Mode::Strict) == step(input, pos, Mode::Lenient)
        },
        t == input.len() ==> {
            &&& step(input, pos, Mode::Lenient) == (
                Ok::<(EventKind, int, int), ScanError>((EventKind::Invalid, pos, t)),
                t,
            )
            &&& step(input, pos, Mode::Strict).0 == Err::<(EventKind, int, int), ScanError>(
                ScanError::UnterminatedSequence { start: pos as usize },
            )
        },
        t < input.len() && !(0x30 <= input[t] <= 0x7E) ==> {
            &&& step(input, pos, Mode::Lenient) == (
                Ok::<(EventKind, int, int), ScanError>((EventKind::Invalid, pos, t)),
                t,
            )
            &&& step(input, pos, Mode::Strict).0 == Err::<(EventKind, int, int), ScanError>(
                ScanError::DisallowedByte { start: pos as usize, byte: input[t] },
            )
        },
{
    assert(is_intermediate(input[pos + 1]));
    if t < input.len() {
        lemma_intermediates_end_at(input, pos + 2, t);
    } else {
        lemma_intermediates_end_all(input, pos + 2);
        let j = intermediates_end(input, pos + 2);
        if j < input.len() {
            assert(is_intermediate(input[j]));
        }
    }
}


/// The first offset in `[i, t)` holding a parameter byte, or `t`.
pub open spec fn first_parameter(input: Seq<u8>, i: int, t: int) -> int
    decreases t - i,
{
    if i < t && !is_parameter(input[i]) {
        first_parameter(input, i + 1, t)
    } else {
        i
    }
}

/// What a CSI scan reports once the parameter bytes are behind it and no
/// violation was found in them, given how many fields they make.
spec fn csi_tail_outcome(input: Seq<u8>, from: int, t: int, fields: int) -> Outcome {
    let j = first_parameter(input, from, t);
    if j < t {
        Outcome::Disallowed(input[j])
    } else if t >= input.len() {
        Outcome::Unterminated
    } else if is_final(input[t]) {
        if fields > MAX_PARAMS {
            Outcome::TooManyParams
        } else {
            Outcome::Complete
        }
    } else {
        Outcome::Disallowed(input[t])
    }
}

proof fn lemma_first_parameter_bounds(input: Seq<u8>, i: int, t: int)
    requires
        i <= t,
    ensures
        i <= first_parameter(input, i, t) <= t,
        first_parameter(input, i, t) < t ==> is_parameter(input[first_parameter(input, i, t)]),
        forall|j: int| i <= j < first_parameter(input, i, t) ==> !is_parameter(#[trigger] input[j]),
    decreases t - i,
{
    if i < t && !is_parameter(input[i]) {
        lemma_first_parameter_bounds(input, i + 1, t);
    }
}

proof fn lemma_first_intermediate_props(body: Seq<u8>, i: int)
    requires
        0 <= i <= body.len(),
    ensures
        i <= first_intermediate(body, i) <= body.len(),
        first_intermediate(body, i) < body.len() ==> is_intermediate(body[first_intermediate(body, i)]),
        forall|j: int| i <= j < first_intermediate(body, i) ==> !is_intermediate(#[trigger] body[j]),
    decreases body.len() - i,
{
    if i < body.len() && !is_intermediate(body[i]) {
        lemma_first_intermediate_props(body, i + 1);
    }
}

/// The CSI scan after the parameter bytes: the intermediate bytes, then
/// whatever follows them.
proof fn lemma_csi_tail(
    input: Seq<u8>,
    from: int,
    t: int,
    i: int,
    count: int,
    run: int,
    seen_param: bool,
    seen_intermediate: bool,
)
    requires
        0 <= from <= i <= t <= input.len(),
        forall|j: int| from <= j < t ==> 0x20 <= #[trigger] input[j] <= 0x3F,
        t == input.len() || !(0x20 <= input[t] <= 0x3F),
        from < t ==> is_intermediate(input[from]),
        i > from ==> seen_intermediate,
        forall|j: int| from <= j < i ==> !is_parameter(#[trigger] input[j]),
    ensures
        csi_scan(input, i, count, run, seen_param, seen_intermediate, None).1 == csi_tail_outcome(
            input,
            from,
            t,
            if seen_param {
                count + 1
            } else {
                count
            },
        ),
    decreases t - i,
{
    lemma_first_parameter_bounds(input, from, t);
    lemma_first_parameter_bounds(input, i, t);
    assert(first_parameter(input, from, t) == first_parameter(input, i, t)) by {
        lemma_first_parameter_skip(input, from, i, t);
    }
    if i < t {
        let b = input[i];
        if is_parameter(b) {
            assert(i > from);
            lemma_violation_sticks(input, i + 1, count + 1, 0, true, true, Outcome::Disallowed(b));
            lemma_violation_sticks(input, i + 1, count, run + 1, true, true, Outcome::Disallowed(b));
            lemma_violation_sticks(input, i + 1, count, run, true, true, Outcome::Disallowed(b));
        } else {
            lemma_csi_tail(input, from, t, i + 1, count, run, seen_param, true);
        }
    }
}

proof fn lemma_first_parameter_skip(input: Seq<u8>, from: int, i: int, t: int)
    requires
        from <= i <= t,
        forall|j: int| from <= j < i ==> !is_parameter(#[trigger] input[j]),
    ensures
        first_parameter(input, from, t) == first_parameter(input, i, t),
    decreases i - from,
{
    if from < i {
        lemma_first_parameter_skip(input, from + 1, i, t);
    }
}

/// The CSI scan over the parameter bytes (before the first intermediate
/// byte, at `ps + k`): a field with too many digits is the first violation;
/// otherwise the rest is `csi_tail_outcome`.
proof fn lemma_csi_params_phase(
    input: Seq<u8>,
    ps: int,
    t: int,
    k: int,
    i: int,
    count: int,
    run: int,
    seen_param: bool,
)
    requires
        0 <= ps <= i <= ps + k <= t <= input.len(),
        k == first_intermediate(input.subrange(ps, t), 0),
        forall|j: int| ps <= j < t ==> 0x20 <= #[trigger] input[j] <= 0x3F,
        t == input.len() || !(0x20 <= input[t] <= 0x3F),
        csi_state(input, ps, i, count, run, seen_param, false, 0),
        fields_digits_within(split_fields(input.subrange(ps, i))),
    ensures
        ({
            let params = input.subrange(ps, ps + k);
            let outcome = csi_scan(input, i, count, run, seen_param, false, None).1;
            &&& !fields_digits_within(parameter_fields(params)) ==> outcome == Outcome::ParamTooLong
            &&& fields_digits_within(parameter_fields(params)) ==> outcome == csi_tail_outcome(
                input,
                ps + k,
                t,
                parameter_fields(params).len() as int,
            )
        }),
    decreases ps + k - i,
{
    let body = input.subrange(ps, t);
    lemma_first_intermediate_props(body, 0);
    let all = input.subrange(ps, ps + k);
    if i == ps + k {
        assert(input.subrange(ps, i) == all);
        if seen_param {
            assert(parameter_fields(all) == split_fields(all));
        } else {
            assert(all.len() == 0);
        }
        if ps + k < t {
            assert(body[k] == input[ps + k]);
        }
        lemma_csi_tail(input, ps + k, t, i, count, run, seen_param, false);
    } else {
        let b = input[i];
        assert(body[i - ps] == b);
        assert(!is_intermediate(b));
        assert(is_parameter(b));
        let params = input.subrange(ps, i);
        let grown = input.subrange(ps, i + 1);
        assert(grown =~= params.push(b));
        lemma_split_push(params, b);
        let parts = split_fields(params);
        if b == SEMICOLON {
            assert(fields_digits_within(split_fields(grown))) by {
                assert forall|m: int| 0 <= m < split_fields(grown).len() implies digit_count(
                    #[trigger] split_fields(grown)[m],
                ) <= MAX_PARAM_LEN by {
                    if m < parts.len() {
                        assert(split_fields(grown)[m] == parts[m]);
                    } else {
                        assert(split_fields(grown)[m] =~= Seq::<u8>::empty());
                    }
                }
            }
            lemma_csi_params_phase(input, ps, t, k, i + 1, count + 1, 0, true);
        } else {
            lemma_digit_count_push(parts.last(), b);
            let rest = input.subrange(i + 1, ps + k);
            assert(grown + rest =~= all);
            lemma_split_prefix(grown, rest);
            let g = split_fields(grown);
            if is_digit(b) && run + 1 > MAX_PARAM_LEN {
                lemma_violation_sticks(input, i + 1, count, run + 1, true, false, Outcome::ParamTooLong);
                let f = split_fields(all)[g.len() - 1];
                lemma_digit_count_prefix(f, g.last().len() as int);
                assert(g.last() == parts.last().push(b));
                assert(parameter_fields(all) == split_fields(all));
                assert(!fields_digits_within(parameter_fields(all)));
            } else {
                assert(fields_digits_within(split_fields(grown))) by {
                    assert forall|m: int| 0 <= m < split_fields(grown).len() implies digit_count(
                        #[trigger] split_fields(grown)[m],
                    ) <= MAX_PARAM_LEN by {
                        if m < parts.len() - 1 {
                            assert(split_fields(grown)[m] == parts[m]);
                        }
                    }
                }
                if is_digit(b) {
                    lemma_csi_params_phase(input, ps, t, k, i + 1, count, run + 1, true);
                } else {
                    lemma_csi_params_phase(input, ps, t, k, i + 1, count, run, true);
                }
            }
        }
    }
}

/// Which error strict mode reports for a CSI sequence, whose parameter and
/// intermediate bytes (`0x20..=0x3F`) run up to offset `t`: a field of more
/// than `MAX_PARAM_LEN` digits among the parameter bytes comes first; then a
/// parameter byte after an intermediate byte, reported with that byte;
/// then the end of the input (unterminated), too many fields at a final
/// byte, or the first byte that is neither (reported with that byte).
pub proof fn strict_csi_errors(input: Seq<u8>, pos: int, t: int)
    requires
        0 <= pos,
        pos + 2 <= t <= input.len() <= usize::MAX,
        input[pos] == ESC,
        input[pos + 1] == CSI_OPEN,
        forall|j: int| pos + 2 <= j < t ==> 0x20 <= #[trigger] input[j] <= 0x3F,
        t == input.len() || !(0x20 <= input[t] <= 0x3F),
    ensures
        ({
            let ps = pos + 2;
            let k = first_intermediate(input.subrange(ps, t), 0);
            let fields = parameter_fields(input.subrange(ps, ps + k));
            let j = first_parameter(input, ps + k, t);
            let strict = step(input, pos, Mode::Strict).0;
            &&& !fields_digits_within(fields) ==> strict == Err::<(EventKind, int, int), ScanError>(
                ScanError::ParameterTooLarge { start: pos as usize },
            )
            &&& fields_digits_within(fields) && j < t ==> strict == Err::<
                (EventKind, int, int),
                ScanError,
            >(ScanError::DisallowedByte { start: pos as usize, byte: input[j] })
            &&& fields_digits_within(fields) && j == t && t == input.len() ==> strict == Err::<
                (EventKind, int, int),
                ScanError,
            >(ScanError::UnterminatedSequence { start: pos as usize })
            &&& fields_digits_within(fields) && j == t && t < input.len() && is_final(input[t])
                && fields.len() > MAX_PARAMS ==> strict == Err::<(EventKind, int, int), ScanError>(
                ScanError::TooManyParameters { start: pos as usize },
            )
            &&& fields_digits_within(fields) && j == t && t < input.len() && !is_final(input[t])
                ==> strict == Err::<(EventKind, int, int), ScanError>(
                ScanError::DisallowedByte { start: pos as usize, byte: input[t] },
            )
        }),
{
    let ps = pos + 2;
    let body = input.subrange(ps, t);
    lemma_first_intermediate_props(body, 0);
    let k = first_intermediate(body, 0);
    lemma_csi_state_start(input, ps);
    assert(fields_digits_within(split_fields(input.subrange(ps, ps))));
    assert forall|j: int| ps <= j < t implies 0x20 <= #[trigger] input[j] <= 0x3F by {}
    lemma_csi_params_phase(input, ps, t, k, ps, 0, 0, false);
    lemma_first_parameter_bounds(input, ps + k, t);
    lemma_csi_end(input, ps, 0, 0, false, false, None, t);
}

} // verus!
