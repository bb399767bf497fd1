//! What the language server reports: where a diagnostic is shown in the file
//! being edited, and the semantic highlighting of a text.
use crate::diagnostics::Diag;
use crate::source::{Range, SourceId};
use vstd::prelude::*;

pub mod highlights;

verus! {

/// Where a diagnostic of another file is shown in the file `current`, and
/// what it then says, after the notes `extras` (message and span) were looked
/// at in order: the range of the first note in `current` takes the place of
/// `range`, and the message of each note of yet another file is added on a
/// line of its own; notes without a span are passed over.
pub open spec fn place_notes(
    extras: Seq<(Seq<char>, Option<crate::source::Span>)>,
    current: SourceId,
    range: Range,
    message: Seq<char>,
) -> (Range, Seq<char>, bool)
    decreases extras.len(),
{
    if extras.len() == 0 {
        (range, message, false)
    } else {
        let prev = place_notes(extras.drop_last(), current, range, message);
        match extras.last().1 {
            None => prev,
            Some(span) => if span.source_id == current {
                if prev.2 {
                    prev
                } else {
                    (span.range, prev.1, true)
                }
            } else {
                (prev.0, prev.1 + "\n"@ + extras.last().0, prev.2)
            },
        }
    }
}

/// Where the diagnostic `d` is shown in the file `current`, and what it says
/// there: as it is where it belongs to that file, else placed by its notes.
pub open spec fn placement(d: crate::diagnostics::DiagView, current: SourceId) -> (Range, Seq<char>) {
    if d.0.source_id == current {
        (d.0.range, d.1)
    } else {
        let p = place_notes(d.2, current, d.0.range, d.1);
        (p.0, p.1)
    }
}

/// Where the diagnostic `d` is shown in the file `current`, and its message there.
pub fn place_diagnostic(d: &Diag, current: SourceId) -> (res: (Range, String))
    ensures
        (res.0, res.1@) == placement(d@, current),
{
    let mut range = d.span.range;
    let mut message = d.message.clone();
    let mut missing_main = false;
    if d.span.source_id != current {
        let n = d.extras.len();
        for i in 0..n
            invariant
                n == d.extras@.len(),
                d.span.source_id != current,
                (range, message@, missing_main) == place_notes(
                    d@.2.subrange(0, i as int),
                    current,
                    d.span.range,
                    d.message@,
                ),
        {
            proof {
                assert(d@.2.subrange(0, i + 1).drop_last() =~= d@.2.subrange(0, i as int));
                assert(d@.2[i as int] == d.extras@[i as int]@);
            }
            let extra = &d.extras[i];
            match extra.span {
                None => {},
                Some(span) => {
                    if span.source_id == current && !missing_main {
                        range = span.range;
                        missing_main = true;
                    }
                    if span.source_id != current {
                        message.append("\n");
                        message.append(extra.message.as_str());
                    }
                },
            }
        }
        assert(d@.2.subrange(0, n as int) =~= d@.2);
    }
    (range, message)
}

} // verus!
