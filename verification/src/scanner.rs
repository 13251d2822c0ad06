use vstd::prelude::*;

use crate::error::ScanError;
use crate::mode::Mode;

verus! {

/// Escape, the byte that starts every escape sequence.
pub const ESC: u8 = 0x1B;

/// Bell, which xterm accepts as a terminator of an OSC string.
pub const BEL: u8 = 0x07;

/// Introducer of an Operating System Command string (`ESC ]`).
pub const OSC: u8 = 0x5D;

/// Introducer of a Device Control String (`ESC P`).
pub const DCS: u8 = 0x50;

/// Introducer of a Start Of String sequence (`ESC X`).
pub const SOS: u8 = 0x58;

/// Introducer of a Privacy Message (`ESC ^`).
pub const PM: u8 = 0x5E;

/// Introducer of an Application Program Command (`ESC _`).
pub const APC: u8 = 0x5F;

/// `[`, which follows `ESC` to open a Control Sequence Introducer.
pub const CSI_OPEN: u8 = 0x5B;

/// `;`, which separates the parameter fields of a control sequence.
pub const SEMICOLON: u8 = 0x3B;

/// `\`, which follows `ESC` in the String Terminator `ST`.
pub const BACKSLASH: u8 = 0x5C;

/// Far more parameters than any real control sequence uses. Anything past
/// this is either a bug in the sender or an attempt to make a naive parser
/// do a lot of work, so strict mode rejects it rather than allocating for it.
pub const MAX_PARAMS: usize = 32;

/// Same reasoning as `MAX_PARAMS`, applied to the digit count of a single
/// parameter field.
pub const MAX_PARAM_LEN: usize = 8;

/// Intermediate bytes of a control sequence: space and `!` to `/`.
pub open spec fn is_intermediate(b: u8) -> bool {
    0x20 <= b <= 0x2F
}

/// Parameter bytes of a control sequence: `0` to `?`, separators included.
pub open spec fn is_parameter(b: u8) -> bool {
    0x30 <= b <= 0x3F
}

/// Final bytes of a control sequence: `@` to `~`.
pub open spec fn is_final(b: u8) -> bool {
    0x40 <= b <= 0x7E
}

/// ASCII `0` to `9`.
pub open spec fn is_digit(b: u8) -> bool {
    0x30 <= b <= 0x39
}

/// Bytes allowed in the body of a control string: space to `~`.
pub open spec fn is_printable(b: u8) -> bool {
    0x20 <= b <= 0x7E
}

/// Introducers of the string sequences OSC, DCS, SOS, PM and APC.
pub open spec fn is_string_introducer(b: u8) -> bool {
    b == OSC || b == DCS || b == SOS || b == PM || b == APC
}

/// What kind of piece of the input an [`Event`] is.
#[derive(Debug, Clone, Copy, PartialEq, Eq, Structural)]
pub enum EventKind {
    Text,
    Escape,
    Invalid,
}

/// One piece of a scanned byte stream.
#[derive(Debug, Clone, Copy, PartialEq, Eq)]
pub enum Event<'a> {
    /// A run of bytes with no escape sequences in it.
    Text(&'a [u8]),
    /// A complete, well-formed escape sequence, including its leading `ESC`.
    Escape(&'a [u8]),
    /// In [`Mode::Lenient`] only: bytes that looked like the start of an
    /// escape sequence but turned out malformed, oversized, or unterminated.
    /// Skipped rather than surfaced as text so callers don't accidentally
    /// render control bytes.
    Invalid(&'a [u8]),
}

impl<'a> Event<'a> {
    /// The kind of this event, paired with the bytes it covers.
    pub open spec fn spec_view(self) -> (EventKind, Seq<u8>) {
        match self {
            Event::Text(b) => (EventKind::Text, b@),
            Event::Escape(b) => (EventKind::Escape, b@),
            Event::Invalid(b) => (EventKind::Invalid, b@),
        }
    }
}

/// What the scan of one escape sequence found.
#[derive(Debug, Clone, Copy, PartialEq, Eq, Structural)]
pub enum Outcome {
    Complete,
    Unterminated,
    Disallowed(u8),
    TooManyParams,
    ParamTooLong,
}

/// An event or error of a scan, located by the range `[start, end)` of the
/// input that it covers.
pub type ScanItem = Result<(EventKind, int, int), ScanError>;

/// An event or error of a scan, with the bytes of the event.
pub type ScanItemView = Result<(EventKind, Seq<u8>), ScanError>;

/// The first offset at or after `i` that does not hold an intermediate byte.
pub open spec fn intermediates_end(input: Seq<u8>, i: int) -> int
    decreases input.len() - i,
{
    if 0 <= i < input.len() && is_intermediate(input[i]) {
        intermediates_end(input, i + 1)
    } else {
        i
    }
}

/// The state machine of a CSI sequence, run from offset `i` with `count`
/// `;` separators seen so far, `run` digits in the field since the last
/// `;`, flags for whether any parameter byte and any intermediate byte were
/// seen, and the first violation found so far. Returns the exclusive end of
/// what was recognized and what it was; the first violation wins over
/// everything found later. The grammar this machine accepts is stated
/// directly by `well_formed_csi` in the module `grammar`.
pub open spec fn csi_scan(
    input: Seq<u8>,
    i: int,
    count: int,
    run: int,
    seen_param: bool,
    seen_intermediate: bool,
    violation: Option<Outcome>,
) -> (int, Outcome)
    decreases input.len() - i,
{
    if i < 0 || i >= input.len() {
        (i, or_else(violation, Outcome::Unterminated))
    } else {
        let b = input[i];
        if is_parameter(b) {
            let v1 = if seen_intermediate && violation is None {
                Some(Outcome::Disallowed(b))
            } else {
                violation
            };
            if b == SEMICOLON {
                csi_scan(input, i + 1, count + 1, 0, true, seen_intermediate, v1)
            } else if is_digit(b) {
                let v2 = if run + 1 > MAX_PARAM_LEN && v1 is None {
                    Some(Outcome::ParamTooLong)
                } else {
                    v1
                };
                csi_scan(input, i + 1, count, run + 1, true, seen_intermediate, v2)
            } else {
                csi_scan(input, i + 1, count, run, true, seen_intermediate, v1)
            }
        } else if is_intermediate(b) {
            csi_scan(input, i + 1, count, run, seen_param, true, violation)
        } else if is_final(b) {
            // With any parameter byte there is one field more than there
            // are separators, empty fields included.
            let fields = if seen_param {
                count + 1
            } else {
                count
            };
            let v = if fields > MAX_PARAMS && violation is None {
                Some(Outcome::TooManyParams)
            } else {
                violation
            };
            (i + 1, or_else(v, Outcome::Complete))
        } else {
            (i, or_else(violation, Outcome::Disallowed(b)))
        }
    }
}

/// The violation if there is one, else `other`.
pub open spec fn or_else(violation: Option<Outcome>, other: Outcome) -> Outcome {
    match violation {
        Some(v) => v,
        None => other,
    }
}

/// The body of a string sequence with introducer `intro`, scanned from
/// offset `j` to its terminator: `ST` (`ESC \`) for all of them, and also a
/// bare `BEL` for OSC. Any other byte outside space to `~` ends it as
/// malformed.
pub open spec fn string_scan(input: Seq<u8>, intro: u8, j: int) -> (int, Outcome)
    decreases input.len() - j,
{
    if j < 0 || j >= input.len() {
        (j, Outcome::Unterminated)
    } else if input[j] == BEL && intro == OSC {
        (j + 1, Outcome::Complete)
    } else if input[j] == ESC {
        if j + 1 >= input.len() {
            (j, Outcome::Unterminated)
        } else if input[j + 1] == BACKSLASH {
            (j + 2, Outcome::Complete)
        } else {
            (j, Outcome::Disallowed(ESC))
        }
    } else if is_printable(input[j]) {
        string_scan(input, intro, j + 1)
    } else {
        (j, Outcome::Disallowed(input[j]))
    }
}

/// The escape sequence whose `ESC` stands at `start`: the exclusive end of
/// what was recognized, and what it was.
pub open spec fn escape_scan(input: Seq<u8>, start: int) -> (int, Outcome) {
    let i = start + 1;
    if i >= input.len() {
        (i, Outcome::Unterminated)
    } else {
        let b = input[i];
        if b == CSI_OPEN {
            csi_scan(input, i + 1, 0, 0, false, false, None)
        } else if is_string_introducer(b) {
            string_scan(input, b, i + 1)
        } else if is_final(b) {
            (i + 1, Outcome::Complete)
        } else if is_intermediate(b) {
            let j = intermediates_end(input, i + 1);
            if j >= input.len() {
                (j, Outcome::Unterminated)
            } else if 0x30 <= input[j] <= 0x7E {
                (j + 1, Outcome::Complete)
            } else {
                (j, Outcome::Disallowed(input[j]))
            }
        } else {
            (i, Outcome::Disallowed(b))
        }
    }
}

/// What a scan in `mode` reports for an escape sequence spanning
/// `[start, end)` with the given outcome.
pub open spec fn finish_item(start: int, end: int, outcome: Outcome, mode: Mode) -> ScanItem {
    let lenient = mode == Mode::Lenient;
    match outcome {
        Outcome::Complete => Ok((EventKind::Escape, start, end)),
        Outcome::TooManyParams => if lenient {
            Ok((EventKind::Invalid, start, end))
        } else {
            Err(ScanError::TooManyParameters { start: start as usize })
        },
        Outcome::ParamTooLong => if lenient {
            Ok((EventKind::Invalid, start, end))
        } else {
            Err(ScanError::ParameterTooLarge { start: start as usize })
        },
        Outcome::Disallowed(byte) => if lenient {
            Ok((EventKind::Invalid, start, end))
        } else {
            Err(ScanError::DisallowedByte { start: start as usize, byte })
        },
        Outcome::Unterminated => if lenient {
            Ok((EventKind::Invalid, start, end))
        } else {
            Err(ScanError::UnterminatedSequence { start: start as usize })
        },
    }
}

/// The first offset at or after `i` that holds `ESC`, or the input's length.
pub open spec fn text_end(input: Seq<u8>, i: int) -> int
    decreases input.len() - i,
{
    if 0 <= i < input.len() && input[i] != ESC {
        text_end(input, i + 1)
    } else {
        i
    }
}

/// One step of a scan in `mode` at offset `pos` (below the input's
/// length): the item reported and the offset the scan resumes at. An error
/// ends the scan: it resumes at the end of the input.
pub open spec fn step(input: Seq<u8>, pos: int, mode: Mode) -> (ScanItem, int) {
    if input[pos] == ESC {
        let (end, outcome) = escape_scan(input, pos);
        let item = finish_item(pos, end, outcome, mode);
        (item, if item is Err { input.len() as int } else { end })
    } else {
        let end = text_end(input, pos);
        (Ok((EventKind::Text, pos, end)), end)
    }
}

/// Every item a scan in `mode` reports from offset `pos` to the end.
pub open spec fn scan_items(input: Seq<u8>, pos: int, mode: Mode) -> Seq<ScanItem>
    decreases input.len() - pos,
{
    if pos < 0 || pos >= input.len() {
        seq![]
    } else {
        let (item, next) = step(input, pos, mode);
        if pos < next <= input.len() {
            seq![item] + scan_items(input, next, mode)
        } else {
            seq![item]
        }
    }
}

/// An item with its range replaced by the bytes of `input` it covers.
pub open spec fn item_bytes(input: Seq<u8>, item: ScanItem) -> ScanItemView {
    match item {
        Ok((kind, start, end)) => Ok((kind, input.subrange(start, end))),
        Err(e) => Err(e),
    }
}

/// What a scanner's result says.
pub open spec fn result_view(r: Result<Event, ScanError>) -> ScanItemView {
    match r {
        Ok(ev) => Ok(ev.spec_view()),
        Err(e) => Err(e),
    }
}

/// Scans a byte slice into a sequence of [`Event`]s.
///
/// Call [`next`](Self::next) until it returns `None`, or
/// [`collect_events`](Self::collect_events) to get them all at once. What
/// each call reports is `step` of the specification; `scan_items` is the
/// whole scan.
pub struct EscapeScanner<'a> {
    input: &'a [u8],
    pos: usize,
    mode: Mode,
}

impl<'a> EscapeScanner<'a> {
    #[verifier::type_invariant]
    spec fn position_in_bounds(self) -> bool {
        self.pos <= self.input@.len()
    }

    /// The bytes being scanned.
    pub closed spec fn spec_input(self) -> Seq<u8> {
        self.input@
    }

    /// The offset the next event starts at.
    pub closed spec fn spec_pos(self) -> int {
        self.pos as int
    }

    /// How malformed sequences are handled.
    pub closed spec fn spec_mode(self) -> Mode {
        self.mode
    }

    /// A scanner at the start of `input`.
    pub fn new(input: &'a [u8], mode: Mode) -> (s: Self)
        ensures
            s.spec_input() == input@,
            s.spec_pos() == 0,
            s.spec_mode() == mode,
    {
        EscapeScanner { input, pos: 0, mode }
    }

    /// Shorthand for `EscapeScanner::new(input, Mode::Strict)`.
    pub fn strict(input: &'a [u8]) -> (s: Self)
        ensures
            s.spec_input() == input@,
            s.spec_pos() == 0,
            s.spec_mode() == Mode::Strict,
    {
        EscapeScanner::new(input, Mode::Strict)
    }

    /// Shorthand for `EscapeScanner::new(input, Mode::Lenient)`.
    pub fn lenient(input: &'a [u8]) -> (s: Self)
        ensures
            s.spec_input() == input@,
            s.spec_pos() == 0,
            s.spec_mode() == Mode::Lenient,
    {
        EscapeScanner::new(input, Mode::Lenient)
    }

    fn finish(&self, start: usize, end: usize, outcome: Outcome) -> (r: Result<Event<'a>, ScanError>)
        requires
            start <= end <= self.input@.len(),
        ensures
            result_view(r) == item_bytes(
                self.input@,
                finish_item(start as int, end as int, outcome, self.mode),
            ),
    {
        let lenient = match self.mode {
            Mode::Lenient => true,
            Mode::Strict => false,
        };
        match outcome {
            Outcome::Complete => Ok(Event::Escape(&self.input[start..end])),
            Outcome::TooManyParams => if lenient {
                Ok(Event::Invalid(&self.input[start..end]))
            } else {
                Err(ScanError::TooManyParameters { start })
            },
            Outcome::ParamTooLong => if lenient {
                Ok(Event::Invalid(&self.input[start..end]))
            } else {
                Err(ScanError::ParameterTooLarge { start })
            },
            Outcome::Disallowed(byte) => if lenient {
                Ok(Event::Invalid(&self.input[start..end]))
            } else {
                Err(ScanError::DisallowedByte { start, byte })
            },
            Outcome::Unterminated => if lenient {
                Ok(Event::Invalid(&self.input[start..end]))
            } else {
                Err(ScanError::UnterminatedSequence { start })
            },
        }
    }
}


impl<'a> EscapeScanner<'a> {
    /// `self.input[start]` must be `ESC`. Returns the exclusive end offset
    /// of whatever was recognized (complete or not) and what it was.
    fn scan_escape(&self, start: usize) -> (r: (usize, Outcome))
        requires
            start < self.input@.len(),
        ensures
            (r.0 as int, r.1) == escape_scan(self.input@, start as int),
    {
        let bytes = self.input;
        let len = bytes.len();
        let mut i = start + 1;
        if i >= len {
            return (i, Outcome::Unterminated);
        }
        let b = bytes[i];
        if b == CSI_OPEN {
            self.scan_csi(i + 1)
        } else if b == OSC || b == DCS || b == SOS || b == PM || b == APC {
            self.scan_control_string(b, i + 1)
        } else if 0x40 <= b && b <= 0x7E {
            (i + 1, Outcome::Complete)
        } else if 0x20 <= b && b <= 0x2F {
            i += 1;
            while i < len && 0x20 <= bytes[i] && bytes[i] <= 0x2F
                invariant
                    bytes@ == self.input@,
                    len == bytes@.len(),
                    start + 2 <= i <= len,
                    intermediates_end(bytes@, start + 2) == intermediates_end(bytes@, i as int),
                decreases len - i,
            {
                i += 1;
            }
            if i >= len {
                (i, Outcome::Unterminated)
            } else if 0x30 <= bytes[i] && bytes[i] <= 0x7E {
                (i + 1, Outcome::Complete)
            } else {
                (i, Outcome::Disallowed(bytes[i]))
            }
        } else {
            (i, Outcome::Disallowed(b))
        }
    }

    /// `params_start` points just past `ESC [`.
    fn scan_csi(&self, params_start: usize) -> (r: (usize, Outcome))
        requires
            params_start <= self.input@.len(),
        ensures
            (r.0 as int, r.1) == csi_scan(self.input@, params_start as int, 0, 0, false, false, None),
    {
        let bytes = self.input;
        let len = bytes.len();
        let mut i = params_start;
        let mut param_count: usize = 0;
        let mut current_len: usize = 0;
        let mut seen_param_byte = false;
        let mut seen_intermediate = false;
        let mut violation: Option<Outcome> = None;

        while i < len
            invariant
                bytes@ == self.input@,
                len == bytes@.len(),
                params_start <= i <= len,
                param_count <= i - params_start,
                current_len <= i - params_start,
                csi_scan(bytes@, params_start as int, 0, 0, false, false, None) == csi_scan(
                    bytes@,
                    i as int,
                    param_count as int,
                    current_len as int,
                    seen_param_byte,
                    seen_intermediate,
                    violation,
                ),
            decreases len - i,
        {
            let b = bytes[i];
            if 0x30 <= b && b <= 0x3F {
                if seen_intermediate && violation.is_none() {
                    violation = Some(Outcome::Disallowed(b));
                }
                seen_param_byte = true;
                if b == SEMICOLON {
                    param_count += 1;
                    current_len = 0;
                } else if 0x30 <= b && b <= 0x39 {
                    current_len += 1;
                    if current_len > MAX_PARAM_LEN && violation.is_none() {
                        violation = Some(Outcome::ParamTooLong);
                    }
                }
                i += 1;
            } else if 0x20 <= b && b <= 0x2F {
                seen_intermediate = true;
                i += 1;
            } else if 0x40 <= b && b <= 0x7E {
                if seen_param_byte {
                    param_count += 1;
                }
                if param_count > MAX_PARAMS && violation.is_none() {
                    violation = Some(Outcome::TooManyParams);
                }
                let outcome = match violation {
                    Some(v) => v,
                    None => Outcome::Complete,
                };
                return (i + 1, outcome);
            } else {
                let outcome = match violation {
                    Some(v) => v,
                    None => Outcome::Disallowed(b),
                };
                return (i, outcome);
            }
        }
        let outcome = match violation {
            Some(v) => v,
            None => Outcome::Unterminated,
        };
        (i, outcome)
    }

    /// `content_start` points just past the introducer byte of an
    /// OSC/DCS/SOS/PM/APC sequence. Scans its string body up to the
    /// terminator.
    ///
    /// Every one of these introducers accepts the two-byte string
    /// terminator `ST` (`ESC \`). OSC additionally accepts a bare `BEL`,
    /// which is how xterm has terminated OSC since before ST was common.
    /// DCS/SOS/PM/APC get no such exception: a `BEL` inside one of those is
    /// just a disallowed control byte. Body bytes are otherwise restricted
    /// to the printable range, which excludes a raw `ESC` not immediately
    /// followed by `\`.
    fn scan_control_string(&self, introducer: u8, content_start: usize) -> (r: (usize, Outcome))
        requires
            content_start <= self.input@.len(),
        ensures
            (r.0 as int, r.1) == string_scan(self.input@, introducer, content_start as int),
    {
        let bytes = self.input;
        let len = bytes.len();
        let mut j = content_start;
        while j < len
            invariant
                bytes@ == self.input@,
                len == bytes@.len(),
                content_start <= j <= len,
                string_scan(bytes@, introducer, content_start as int) == string_scan(
                    bytes@,
                    introducer,
                    j as int,
                ),
            decreases len - j,
        {
            let b = bytes[j];
            if b == BEL && introducer == OSC {
                return (j + 1, Outcome::Complete);
            } else if b == ESC {
                return if j + 1 >= len {
                    (j, Outcome::Unterminated)
                } else if bytes[j + 1] == BACKSLASH {
                    (j + 2, Outcome::Complete)
                } else {
                    (j, Outcome::Disallowed(ESC))
                };
            } else if 0x20 <= b && b <= 0x7E {
                j += 1;
            } else {
                return (j, Outcome::Disallowed(b));
            }
        }
        (j, Outcome::Unterminated)
    }

    /// Scans the next piece of the input: a run of text up to the next
    /// `ESC`, or one escape sequence. Returns `None` once the input is used
    /// up, and, in strict mode, after the first error. Each event that is
    /// returned covers at least one byte, and the scan resumes right after
    /// it.
    pub fn next(&mut self) -> (r: Option<Result<Event<'a>, ScanError>>)
        ensures
            final(self).spec_input() == old(self).spec_input(),
            final(self).spec_mode() == old(self).spec_mode(),
            old(self).spec_pos() >= old(self).spec_input().len() ==> {
                &&& r is None
                &&& final(self).spec_pos() == old(self).spec_pos()
            },
            old(self).spec_pos() < old(self).spec_input().len() ==> {
                let (item, next) = step(old(self).spec_input(), old(self).spec_pos(), old(self).spec_mode());
                &&& r matches Some(res) && result_view(res) == item_bytes(old(self).spec_input(), item)
                &&& final(self).spec_pos() == next
                &&& old(self).spec_pos() < next <= old(self).spec_input().len()
            },
    {
        proof {
            use_type_invariant(&*self);
        }
        if self.pos >= self.input.len() {
            return None;
        }
        proof {
            lemma_step_advances(self.input@, self.pos as int, self.mode);
        }
        let start = self.pos;
        if self.input[start] == ESC {
            proof {
                lemma_escape_scan_bounds(self.input@, start as int);
            }
            let (end, outcome) = self.scan_escape(start);
            let result = self.finish(start, end, outcome);
            // In strict mode the first error ends the scan.
            self.pos = if result.is_err() {
                self.input.len()
            } else {
                end
            };
            return Some(result);
        }
        let bytes = self.input;
        let len = bytes.len();
        let mut p = start;
        while p < len && bytes[p] != ESC
            invariant
                start <= p <= len,
                len == bytes@.len(),
                text_end(bytes@, start as int) == text_end(bytes@, p as int),
            decreases len - p,
        {
            p += 1;
        }
        self.pos = p;
        Some(Ok(Event::Text(&bytes[start..p])))
    }
}

/// The bytes-level view of a list of located items.
pub open spec fn items_bytes(input: Seq<u8>, items: Seq<ScanItem>) -> Seq<ScanItemView> {
    items.map_values(|item: ScanItem| item_bytes(input, item))
}

/// What a list of scanner results says.
pub open spec fn results_view(results: Seq<Result<Event, ScanError>>) -> Seq<ScanItemView> {
    results.map_values(|r: Result<Event, ScanError>| result_view(r))
}

impl<'a> EscapeScanner<'a> {
    /// Runs the scan to the end and returns every piece it reports, in
    /// order: the results of calling [`next`](Self::next) until it returns
    /// `None`.
    pub fn collect_events(self) -> (r: Vec<Result<Event<'a>, ScanError>>)
        ensures
            results_view(r@) == items_bytes(
                self.spec_input(),
                scan_items(self.spec_input(), self.spec_pos(), self.spec_mode()),
            ),
    {
        let ghost input = self.spec_input();
        let ghost mode = self.spec_mode();
        let ghost pos0 = self.spec_pos();
        proof {
            use_type_invariant(&self);
        }
        let mut scanner = EscapeScanner { input: self.input, pos: self.pos, mode: self.mode };
        let mut out: Vec<Result<Event<'a>, ScanError>> = Vec::new();
        proof {
            assert(results_view(out@) =~= Seq::<ScanItemView>::empty());
        }
        loop
            invariant
                input == self.spec_input(),
                pos0 == self.spec_pos(),
                mode == self.spec_mode(),
                scanner.spec_input() == input,
                scanner.spec_mode() == mode,
                0 <= scanner.spec_pos() <= input.len(),
                results_view(out@) + items_bytes(input, scan_items(input, scanner.spec_pos(), mode))
                    == items_bytes(input, scan_items(input, pos0, mode)),
            decreases input.len() - scanner.spec_pos(),
        {
            let ghost before = scanner.spec_pos();
            match scanner.next() {
                None => {
                    assert(scan_items(input, before, mode) =~= Seq::<ScanItem>::empty());
                    assert(items_bytes(input, scan_items(input, before, mode))
                        =~= Seq::<ScanItemView>::empty());
                    assert(results_view(out@) + items_bytes(input, scan_items(input, before, mode))
                        =~= results_view(out@));
                    return out;
                },
                Some(item) => {
                    let ghost prev = out@;
                    out.push(item);
                    proof {
                        let (it, next) = step(input, before, mode);
                        let rest = scan_items(input, next, mode);
                        assert(scan_items(input, before, mode) == seq![it] + rest);
                        assert(results_view(out@) =~= results_view(prev).push(item_bytes(input, it)));
                        assert(items_bytes(input, seq![it] + rest) =~= seq![item_bytes(input, it)]
                            + items_bytes(input, rest));
                        assert(results_view(out@) + items_bytes(input, rest) =~= results_view(prev)
                            + items_bytes(input, seq![it] + rest));
                    }
                },
            }
        }
    }
}

/// Every piece the scan of `intermediates_end` passes over stays in the
/// input.
pub proof fn lemma_intermediates_end_bounds(input: Seq<u8>, i: int)
    requires
        0 <= i <= input.len(),
    ensures
        i <= intermediates_end(input, i) <= input.len(),
    decreases input.len() - i,
{
    if i < input.len() && is_intermediate(input[i]) {
        lemma_intermediates_end_bounds(input, i + 1);
    }
}

/// The end of a run of text lies within the input, after its start.
pub proof fn lemma_text_end_bounds(input: Seq<u8>, i: int)
    requires
        0 <= i <= input.len(),
    ensures
        i <= text_end(input, i) <= input.len(),
    decreases input.len() - i,
{
    if i < input.len() && input[i] != ESC {
        lemma_text_end_bounds(input, i + 1);
    }
}

/// A CSI scan from `i` ends at or after `i`, within the input.
pub proof fn lemma_csi_scan_bounds(
    input: Seq<u8>,
    i: int,
    count: int,
    run: int,
    seen_param: bool,
    seen_intermediate: bool,
    violation: Option<Outcome>,
)
    requires
        0 <= i <= input.len(),
    ensures
        i <= csi_scan(input, i, count, run, seen_param, seen_intermediate, violation).0 <= input.len(),
    decreases input.len() - i,
{
    if i < input.len() {
        let b = input[i];
        let v1 = if seen_intermediate && violation is None {
            Some(Outcome::Disallowed(b))
        } else {
            violation
        };
        let v2 = if run + 1 > MAX_PARAM_LEN && v1 is None {
            Some(Outcome::ParamTooLong)
        } else {
            v1
        };
        lemma_csi_scan_bounds(input, i + 1, count + 1, 0, true, seen_intermediate, v1);
        lemma_csi_scan_bounds(input, i + 1, count, run + 1, true, seen_intermediate, v2);
        lemma_csi_scan_bounds(input, i + 1, count, run, true, seen_intermediate, v1);
        lemma_csi_scan_bounds(input, i + 1, count, run, seen_param, true, violation);
    }
}

/// A string scan from `j` ends at or after `j`, within the input.
pub proof fn lemma_string_scan_bounds(input: Seq<u8>, intro: u8, j: int)
    requires
        0 <= j <= input.len(),
    ensures
        j <= string_scan(input, intro, j).0 <= input.len(),
    decreases input.len() - j,
{
    if j < input.len() {
        lemma_string_scan_bounds(input, intro, j + 1);
    }
}

/// An escape sequence covers at least its `ESC`, and no more than the input.
pub proof fn lemma_escape_scan_bounds(input: Seq<u8>, start: int)
    requires
        0 <= start < input.len(),
    ensures
        start < escape_scan(input, start).0 <= input.len(),
{
    let i = start + 1;
    if i < input.len() {
        lemma_csi_scan_bounds(input, i + 1, 0, 0, false, false, None);
        lemma_string_scan_bounds(input, input[i], i + 1);
        lemma_intermediates_end_bounds(input, i + 1);
    }
}

/// Every step of a scan consumes at least one byte and stays within the
/// input, so a scan always makes progress and ends.
pub proof fn lemma_step_advances(input: Seq<u8>, pos: int, mode: Mode)
    requires
        0 <= pos < input.len(),
    ensures
        pos < step(input, pos, mode).1 <= input.len(),
{
    if input[pos] == ESC {
        lemma_escape_scan_bounds(input, pos);
    } else {
        lemma_text_end_bounds(input, pos + 1);
        assert(text_end(input, pos) == text_end(input, pos + 1));
    }
}

} // verus!
