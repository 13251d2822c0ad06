//! Properties of whole scans, proved over the scanner's specification.

use vstd::prelude::*;

use crate::error::ScanError;
use crate::mode::Mode;
use crate::scanner::{
    escape_scan, item_bytes, items_bytes, lemma_step_advances, scan_items, step, text_end,
    EventKind, ScanItem, ScanItemView, ESC,
};

verus! {

/// The bytes of every event of a list of results, concatenated in order;
/// errors contribute nothing.
pub open spec fn concat_event_bytes(views: Seq<ScanItemView>) -> Seq<u8>
    decreases views.len(),
{
    if views.len() == 0 {
        Seq::<u8>::empty()
    } else {
        let head = match views[0] {
            Ok((_, bytes)) => bytes,
            Err(_) => Seq::<u8>::empty(),
        };
        head + concat_event_bytes(views.drop_first())
    }
}

/// What every item of a scan satisfies.
spec fn item_facts(input: Seq<u8>, mode: Mode, item: ScanItem) -> bool {
    match item {
        Ok((kind, s, e)) => {
            &&& 0 <= s < e <= input.len()
            &&& kind == EventKind::Text ==> forall|j: int| s <= j < e ==> input[j] != ESC
            &&& kind != EventKind::Text ==> input[s] == ESC
            &&& mode == Mode::Strict ==> kind != EventKind::Invalid
        },
        Err(err) => {
            &&& mode == Mode::Strict
            &&& !(err is UnsupportedSequence)
            &&& 0 <= err.spec_start() < input.len()
            &&& input[err.spec_start() as int] == ESC
        },
    }
}

proof fn lemma_text_end_no_escape(input: Seq<u8>, i: int)
    requires
        0 <= i <= input.len(),
    ensures
        forall|j: int| i <= j < text_end(input, i) ==> input[j] != ESC,
    decreases input.len() - i,
{
    if i < input.len() && input[i] != ESC {
        lemma_text_end_no_escape(input, i + 1);
    }
}

proof fn lemma_text_end_stops(input: Seq<u8>, i: int)
    requires
        0 <= i <= input.len(),
    ensures
        text_end(input, i) == input.len() || input[text_end(input, i)] == ESC,
    decreases input.len() - i,
{
    if i < input.len() && input[i] != ESC {
        lemma_text_end_stops(input, i + 1);
    }
}

/// A run of text is one event that reaches up to the next `ESC` (or the
/// end of the input) and holds no `ESC`: text is never split, and never
/// runs into an escape sequence.
pub proof fn text_runs_end_at_escape(input: Seq<u8>, pos: int, mode: Mode)
    requires
        0 <= pos < input.len(),
        input[pos] != ESC,
    ensures
        step(input, pos, mode).0 == Ok::<(EventKind, int, int), ScanError>(
            (EventKind::Text, pos, step(input, pos, mode).1),
        ),
        pos < step(input, pos, mode).1 <= input.len(),
        step(input, pos, mode).1 == input.len() || input[step(input, pos, mode).1] == ESC,
        forall|j: int| pos <= j < step(input, pos, mode).1 ==> input[j] != ESC,
{
    lemma_step_advances(input, pos, mode);
    lemma_text_end_stops(input, pos);
    lemma_text_end_no_escape(input, pos);
}

/// The item of one step covers exactly the bytes from `pos` to where the
/// scan resumes, and satisfies `item_facts`.
proof fn lemma_step_facts(input: Seq<u8>, pos: int, mode: Mode)
    requires
        0 <= pos < input.len() <= usize::MAX,
    ensures
        item_facts(input, mode, step(input, pos, mode).0),
        step(input, pos, mode).0 matches Ok((_, s, e)) ==> s == pos && e == step(input, pos, mode).1,
        step(input, pos, mode).0 matches Err(err) ==> err.spec_start() == pos,
{
    lemma_step_advances(input, pos, mode);
    if input[pos] != ESC {
        lemma_text_end_no_escape(input, pos);
    }
}

/// Every item of the scan from `pos` satisfies `item_facts`.
proof fn lemma_scan_facts(input: Seq<u8>, pos: int, mode: Mode)
    requires
        0 <= pos <= input.len() <= usize::MAX,
    ensures
        forall|k: int|
            0 <= k < scan_items(input, pos, mode).len() ==> item_facts(
                input,
                mode,
                #[trigger] scan_items(input, pos, mode)[k],
            ),
    decreases input.len() - pos,
{
    if pos < input.len() {
        lemma_step_facts(input, pos, mode);
        lemma_step_advances(input, pos, mode);
        let (item, next) = step(input, pos, mode);
        lemma_scan_facts(input, next, mode);
        let items = scan_items(input, pos, mode);
        assert(items == seq![item] + scan_items(input, next, mode));
        assert forall|k: int| 0 <= k < items.len() implies item_facts(input, mode, #[trigger] items[k]) by {
            if k > 0 {
                assert(items[k] == scan_items(input, next, mode)[k - 1]);
            }
        }
    }
}

/// Every event and error of a scan covers at least one byte, so a scan
/// reports at most as many items as there are bytes left to scan.
pub proof fn scan_item_count_bounded(input: Seq<u8>, pos: int, mode: Mode)
    requires
        0 <= pos <= input.len(),
    ensures
        scan_items(input, pos, mode).len() <= input.len() - pos,
    decreases input.len() - pos,
{
    if pos < input.len() {
        lemma_step_advances(input, pos, mode);
        scan_item_count_bounded(input, step(input, pos, mode).1, mode);
    }
}

/// Strict mode never reports an `Invalid` event: what it cannot accept it
/// reports as an error.
pub proof fn strict_scan_never_reports_invalid(input: Seq<u8>, pos: int)
    requires
        0 <= pos <= input.len() <= usize::MAX,
    ensures
        forall|k: int|
            0 <= k < scan_items(input, pos, Mode::Strict).len() ==> !(#[trigger] scan_items(
                input,
                pos,
                Mode::Strict,
            )[k] matches Ok((EventKind::Invalid, _, _))),
{
    lemma_scan_facts(input, pos, Mode::Strict);
}

/// Every error names the offset of an `ESC` in the input: the one that
/// started the offending sequence. (The scan never reports
/// `UnsupportedSequence`: every string sequence is scanned.)
pub proof fn scan_errors_point_at_escape(input: Seq<u8>, pos: int, mode: Mode)
    requires
        0 <= pos <= input.len() <= usize::MAX,
    ensures
        forall|k: int|
            0 <= k < scan_items(input, pos, mode).len() ==> (#[trigger] scan_items(
                input,
                pos,
                mode,
            )[k] matches Err(e) ==> {
                &&& e.spec_start() < input.len()
                &&& input[e.spec_start() as int] == ESC
                &&& !(e is UnsupportedSequence)
            }),
{
    lemma_scan_facts(input, pos, mode);
}

/// Text events never contain `ESC`, and escape and invalid events always
/// begin with it.
pub proof fn event_bytes_respect_escapes(input: Seq<u8>, pos: int, mode: Mode)
    requires
        0 <= pos <= input.len() <= usize::MAX,
    ensures
        forall|k: int|
            0 <= k < scan_items(input, pos, mode).len() ==> match #[trigger] item_bytes(
                input,
                scan_items(input, pos, mode)[k],
            ) {
                Ok((EventKind::Text, bytes)) => !bytes.contains(ESC),
                Ok((_, bytes)) => bytes.len() > 0 && bytes[0] == ESC,
                Err(_) => true,
            },
{
    lemma_scan_facts(input, pos, mode);
    let items = scan_items(input, pos, mode);
    assert forall|k: int| 0 <= k < items.len() implies match #[trigger] item_bytes(input, items[k]) {
        Ok((EventKind::Text, bytes)) => !bytes.contains(ESC),
        Ok((_, bytes)) => bytes.len() > 0 && bytes[0] == ESC,
        Err(_) => true,
    } by {
        assert(item_facts(input, mode, items[k]));
        if let Ok((kind, s, e)) = items[k] {
            let bytes = input.subrange(s, e);
            if kind == EventKind::Text {
                assert forall|j: int| 0 <= j < bytes.len() implies bytes[j] != ESC by {
                    assert(bytes[j] == input[s + j]);
                }
            }
        }
    }
}

/// Lenient mode never reports an error, and the bytes of its events,
/// concatenated in order, give back exactly the input from where the scan
/// started: nothing is lost, duplicated or reordered.
pub proof fn lenient_scan_reconstructs_input(input: Seq<u8>, pos: int)
    requires
        0 <= pos <= input.len() <= usize::MAX,
    ensures
        forall|k: int|
            0 <= k < scan_items(input, pos, Mode::Lenient).len() ==> #[trigger] scan_items(
                input,
                pos,
                Mode::Lenient,
            )[k] is Ok,
        concat_event_bytes(items_bytes(input, scan_items(input, pos, Mode::Lenient)))
            == input.subrange(pos, input.len() as int),
    decreases input.len() - pos,
{
    lemma_scan_facts(input, pos, Mode::Lenient);
    let items = scan_items(input, pos, Mode::Lenient);
    if pos == input.len() {
        assert(items_bytes(input, items) =~= Seq::<ScanItemView>::empty());
        assert(input.subrange(pos, pos) =~= Seq::<u8>::empty());
    } else {
        lemma_step_facts(input, pos, Mode::Lenient);
        lemma_step_advances(input, pos, Mode::Lenient);
        let (item, next) = step(input, pos, Mode::Lenient);
        lenient_scan_reconstructs_input(input, next);
        let rest = scan_items(input, next, Mode::Lenient);
        assert(items == seq![item] + rest);
        assert(item is Ok) by {
            assert(item_facts(input, Mode::Lenient, items[0]));
        }
        let views = items_bytes(input, items);
        assert(views.drop_first() =~= items_bytes(input, rest));
        assert(views[0] == item_bytes(input, item));
        assert(input.subrange(pos, next) + input.subrange(next, input.len() as int) =~= input.subrange(
            pos,
            input.len() as int,
        ));
    }
}

/// Where a scan stops covering the input: the offset of the sequence that
/// its final error names, or the end of the input when there is no error.
pub open spec fn covered_until(input: Seq<u8>, items: Seq<ScanItem>) -> int {
    if items.len() > 0 {
        match items.last() {
            Err(e) => e.spec_start() as int,
            Ok(_) => input.len() as int,
        }
    } else {
        input.len() as int
    }
}

/// In either mode, the bytes of the events of a scan, concatenated in
/// order, give back the input from where the scan started up to the `ESC`
/// of the sequence that stopped it (all of the input when nothing did).
pub proof fn scan_events_cover_input(input: Seq<u8>, pos: int, mode: Mode)
    requires
        0 <= pos <= input.len() <= usize::MAX,
    ensures
        pos <= covered_until(input, scan_items(input, pos, mode)) <= input.len(),
        concat_event_bytes(items_bytes(input, scan_items(input, pos, mode))) == input.subrange(
            pos,
            covered_until(input, scan_items(input, pos, mode)),
        ),
    decreases input.len() - pos,
{
    let items = scan_items(input, pos, mode);
    if pos == input.len() {
        assert(items_bytes(input, items) =~= Seq::<ScanItemView>::empty());
        assert(input.subrange(pos, pos) =~= Seq::<u8>::empty());
    } else {
        lemma_step_facts(input, pos, mode);
        lemma_step_advances(input, pos, mode);
        let (item, next) = step(input, pos, mode);
        scan_events_cover_input(input, next, mode);
        let rest = scan_items(input, next, mode);
        assert(items == seq![item] + rest);
        let views = items_bytes(input, items);
        assert(views.drop_first() =~= items_bytes(input, rest));
        assert(views[0] == item_bytes(input, item));
        if item is Err {
            assert(rest =~= Seq::<ScanItem>::empty());
            assert(items_bytes(input, rest) =~= Seq::<ScanItemView>::empty());
            assert(input.subrange(pos, pos) =~= Seq::<u8>::empty());
        } else {
            let stop = covered_until(input, rest);
            if rest.len() > 0 {
                assert(items.last() == rest.last());
            }
            assert(input.subrange(pos, next) + input.subrange(next, stop) =~= input.subrange(pos, stop));
        }
    }
}

/// Where strict mode accepts a piece, lenient mode reports the same piece
/// and resumes at the same offset. Where strict mode reports an error,
/// lenient mode reports the bytes of the offending sequence (malformed,
/// oversized or unterminated) as `Invalid`, and resumes right after them.
pub proof fn modes_agree_on_each_step(input: Seq<u8>, pos: int)
    requires
        0 <= pos < input.len(),
    ensures
        step(input, pos, Mode::Strict).0 is Ok ==> step(input, pos, Mode::Lenient) == step(
            input,
            pos,
            Mode::Strict,
        ),
        step(input, pos, Mode::Strict).0 matches Err(e) ==> {
            &&& input[pos] == ESC
            &&& step(input, pos, Mode::Lenient) == (
                Ok::<(EventKind, int, int), ScanError>(
                    (EventKind::Invalid, pos, escape_scan(input, pos).0),
                ),
                escape_scan(input, pos).0,
            )
        },
{
}

/// An error is always the last item of a scan: strict mode stops at the
/// first sequence it cannot accept.
pub proof fn scan_stops_at_first_error(input: Seq<u8>, pos: int, mode: Mode)
    requires
        0 <= pos <= input.len(),
    ensures
        forall|k: int|
            0 <= k < scan_items(input, pos, mode).len() && (#[trigger] scan_items(
                input,
                pos,
                mode,
            )[k]) is Err ==> k == scan_items(input, pos, mode).len() - 1,
    decreases input.len() - pos,
{
    if pos < input.len() {
        lemma_step_advances(input, pos, mode);
        let (item, next) = step(input, pos, mode);
        scan_stops_at_first_error(input, next, mode);
        let items = scan_items(input, pos, mode);
        let rest = scan_items(input, next, mode);
        assert(items == seq![item] + rest);
        if item is Err {
            assert(rest =~= Seq::<ScanItem>::empty());
        }
        assert forall|k: int| 0 <= k < items.len() && (#[trigger] items[k]) is Err implies k
            == items.len() - 1 by {
            if k > 0 {
                assert(items[k] == rest[k - 1]);
            }
        }
    }
}

/// Lenient mode reports every item that a strict scan reports, in the same
/// places: the strict scan is at most as long, and each item it accepts is
/// the lenient scan's item at the same index.
pub proof fn modes_agree_on_whole_scan(input: Seq<u8>, pos: int)
    requires
        0 <= pos <= input.len(),
    ensures
        scan_items(input, pos, Mode::Strict).len() <= scan_items(input, pos, Mode::Lenient).len(),
        forall|k: int|
            0 <= k < scan_items(input, pos, Mode::Strict).len() && (#[trigger] scan_items(
                input,
                pos,
                Mode::Strict,
            )[k]) is Ok ==> scan_items(input, pos, Mode::Lenient)[k] == scan_items(
                input,
                pos,
                Mode::Strict,
            )[k],
    decreases input.len() - pos,
{
    if pos < input.len() {
        modes_agree_on_each_step(input, pos);
        lemma_step_advances(input, pos, Mode::Strict);
        lemma_step_advances(input, pos, Mode::Lenient);
        let (sitem, snext) = step(input, pos, Mode::Strict);
        let (litem, lnext) = step(input, pos, Mode::Lenient);
        let strict = scan_items(input, pos, Mode::Strict);
        let lenient = scan_items(input, pos, Mode::Lenient);
        assert(strict == seq![sitem] + scan_items(input, snext, Mode::Strict));
        assert(lenient == seq![litem] + scan_items(input, lnext, Mode::Lenient));
        if sitem is Ok {
            modes_agree_on_whole_scan(input, snext);
            assert forall|k: int| 0 <= k < strict.len() && (#[trigger] strict[k]) is Ok implies lenient[k]
                == strict[k] by {
                if k > 0 {
                    assert(strict[k] == scan_items(input, snext, Mode::Strict)[k - 1]);
                    assert(lenient[k] == scan_items(input, snext, Mode::Lenient)[k - 1]);
                }
            }
        } else {
            assert(scan_items(input, snext, Mode::Strict) =~= Seq::<ScanItem>::empty());
        }
    }
}

} // verus!
