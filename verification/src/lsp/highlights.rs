//! Semantic highlighting: turning highlight events over a text into the
//! relative tokens of the language server protocol.
use vstd::prelude::*;
use vstd::string::StringSliceAdditionalSpecFns;

verus! {

/// The position of the first line feed at or after `start`, or the length of `b`.
pub open spec fn line_end(b: Seq<u8>, start: int) -> int
    decreases b.len() - start,
{
    if start >= b.len() {
        b.len() as int
    } else if b[start] == 10 {
        start
    } else {
        line_end(b, start + 1)
    }
}

/// The length of the line starting at `start`, without its line ending; a carriage
/// return is part of the ending only right before a line feed.
pub open spec fn content_len(b: Seq<u8>, start: int) -> int {
    let e = line_end(b, start);
    if e < b.len() && e > start && b[e - 1] == 13 {
        e - start - 1
    } else {
        e - start
    }
}

/// Whether a character of the UTF-8 text `b` starts at byte `c` (or `c` is its end):
/// the byte there is not a continuation byte.
pub open spec fn starts_char(b: Seq<u8>, c: int) -> bool {
    c == b.len() || (0 <= c < b.len() && (b[c] < 0x80 || b[c] >= 0xc0))
}

/// Moves `c` past line feeds and carriage returns; `None` where a byte there would
/// be looked at as a one-byte slice that is not a whole character.
pub open spec fn skip_line_breaks(b: Seq<u8>, c: int) -> Option<int>
    decreases b.len() - c,
{
    if c >= b.len() {
        Some(c)
    } else if !(starts_char(b, c) && starts_char(b, c + 1)) {
        None
    } else if b[c] == 10 || b[c] == 13 {
        skip_line_breaks(b, c + 1)
    } else {
        Some(c)
    }
}

/// The line and column of `offset`, counting from line `line` which starts at byte
/// `start` of `b`, with `counter` bytes of content and line breaks counted before it.
/// `None` where the count would go wrong: a column below zero, an overflow, or a
/// look at part of a character.
pub open spec fn locate(b: Seq<u8>, offset: nat, line: nat, start: int, counter: nat) -> Option<(nat, nat)>
    decreases b.len() + 1 - start,
    via locate_decreases
{
    if start < 0 || start >= b.len() {
        Some((0, 0))
    } else {
        let len = content_len(b, start);
        if counter + len > usize::MAX {
            None
        } else if counter + len > offset {
            if counter <= offset {
                Some((line, (offset - counter) as nat))
            } else {
                None
            }
        } else {
            match skip_line_breaks(b, counter + len) {
                None => None,
                Some(c) => locate(b, offset, line + 1, line_end(b, start) + 1, c as nat),
            }
        }
    }
}

#[via_fn]
proof fn locate_decreases(b: Seq<u8>, offset: nat, line: nat, start: int, counter: nat) {
    if 0 <= start < b.len() {
        lemma_line_end_bounds(b, start);
    }
}

/// The line and column of byte `offset` of `text`, where it can be told.
pub open spec fn line_of_offset(text: &str, offset: usize) -> Option<(nat, nat)> {
    locate(text.spec_bytes(), offset as nat, 0, 0, 0)
}

/// Where a line ends: at or after its start, at a line feed or the end, with no line feed before.
pub proof fn lemma_line_end_bounds(b: Seq<u8>, start: int)
    requires
        0 <= start <= b.len(),
    ensures
        start <= line_end(b, start) <= b.len(),
        line_end(b, start) < b.len() ==> b[line_end(b, start)] == 10,
        forall|k: int| start <= k < line_end(b, start) ==> b[k] != 10,
    decreases b.len() - start,
{
    if start < b.len() && b[start] != 10 {
        lemma_line_end_bounds(b, start + 1);
    }
}

/// The line and column of byte `offset` of `text`, or `None` where [`offset_to_line`]
/// cannot tell them.
pub fn offset_to_line_checked(text: &str, offset: usize) -> (res: Option<(usize, usize)>)
    ensures
        match line_of_offset(text, offset) {
            Some(p) => res matches Some(r) && r.0 == p.0 && r.1 == p.1,
            None => res is None,
        },
{
    let b = text.as_bytes();
    let ghost bs = text.spec_bytes();
    let max_counter = b.len();
    let mut counter: usize = 0;
    let mut start: usize = 0;
    let mut line: usize = 0;
    while start < max_counter
        invariant
            b@ == bs,
            max_counter == bs.len(),
            line_of_offset(text, offset) == locate(bs, offset as nat, line as nat, start as int, counter as nat),
            line <= start,
            start <= max_counter,
        decreases max_counter - start,
    {
        let mut e = start;
        proof {
            lemma_line_end_bounds(bs, start as int);
        }
        while e < max_counter && b[e] != 10
            invariant
                b@ == bs,
                max_counter == bs.len(),
                start <= e <= max_counter,
                line_end(bs, start as int) == line_end(bs, e as int),
            decreases max_counter - e,
        {
            e = e + 1;
        }
        assert(line_end(bs, start as int) == e);
        let line_len = if e < max_counter && e > start && b[e - 1] == 13 {
            e - start - 1
        } else {
            e - start
        };
        assert(line_len == content_len(bs, start as int));
        let ghost before = locate(bs, offset as nat, line as nat, start as int, counter as nat);
        if counter > usize::MAX - line_len {
            assert(before is None);
            return None;
        }
        if counter + line_len > offset {
            if counter <= offset {
                assert(before == Some((line as nat, (offset - counter) as nat)));
                return Some((line, offset - counter));
            } else {
                assert(before is None);
                return None;
            }
        }
        counter = counter + line_len;
        let ghost c0 = counter;
        let ghost next_start: int = e + 1;
        let ghost next_line: nat = (line + 1) as nat;
        assert(before == match skip_line_breaks(bs, c0 as int) {
            None => None,
            Some(c) => locate(bs, offset as nat, next_line, next_start, c as nat),
        });
        let mut done = false;
        while !done && counter < max_counter
            invariant
                line_of_offset(text, offset) == before,
                before == match skip_line_breaks(bs, c0 as int) {
                    None => None,
                    Some(c) => locate(bs, offset as nat, next_line, next_start, c as nat),
                },
                b@ == bs,
                max_counter == bs.len(),
                c0 <= counter,
                skip_line_breaks(bs, c0 as int) == (if done {
                    Some(counter as int)
                } else {
                    skip_line_breaks(bs, counter as int)
                }),
            decreases max_counter - counter, if done { 0int } else { 1int },
        {
            let at_boundary = b[counter] < 0x80 || b[counter] >= 0xc0;
            let next_boundary = counter + 1 == max_counter || b[counter + 1] < 0x80 || b[counter + 1] >= 0xc0;
            if !(at_boundary && next_boundary) {
                assert(skip_line_breaks(bs, counter as int) is None);
                assert(before is None);
                return None;
            }
            if b[counter] == 10 || b[counter] == 13 {
                assert(skip_line_breaks(bs, counter as int) == skip_line_breaks(bs, counter + 1));
                counter = counter + 1;
            } else {
                assert(skip_line_breaks(bs, counter as int) == Some(counter as int));
                done = true;
            }
        }
        assert(skip_line_breaks(bs, c0 as int) == Some(counter as int));
        assert(before == locate(bs, offset as nat, (line + 1) as nat, e + 1, counter as nat));
        line = line + 1;
        if e < max_counter {
            start = e + 1;
        } else {
            start = max_counter;
        }
    }
    Some((0, 0))
}

/// The line and column of byte `offset` of `text`: the lines are those a text is
/// split into at line feeds (a carriage return right before one belongs to the
/// line ending), and the column counts bytes from where the count of content and
/// line-break bytes before the line says the line starts.
pub fn offset_to_line(text: &str, offset: usize) -> (res: (usize, usize))
    requires
        line_of_offset(text, offset) is Some,
    ensures
        res.0 == line_of_offset(text, offset).unwrap().0,
        res.1 == line_of_offset(text, offset).unwrap().1,
{
    offset_to_line_checked(text, offset).unwrap()
}

/// What a highlighter reports while it walks a text.
#[derive(Clone, Copy, Debug, PartialEq, Eq, Structural)]
pub enum HighlightEvent {
    /// The bytes `start..end` of the text, under the highlights started and not yet ended.
    Source { start: usize, end: usize },
    /// A highlight of the given kind starts.
    HighlightStart(usize),
    /// The innermost highlight ends.
    HighlightEnd,
}

/// A highlighted piece of text, placed relative to the previous one.
#[derive(Clone, Copy, Debug, PartialEq, Eq, Structural)]
pub struct SemanticToken {
    pub delta_line: u32,
    pub delta_start: u32,
    pub length: u32,
    pub token_type: u32,
    pub token_modifiers_bitset: u32,
}

/// Where the walk over the events stands: the highlight in force, the line and
/// column of the last token, and the tokens so far.
pub type TokenState = (Option<u32>, Option<(nat, nat)>, Seq<SemanticToken>);

/// One event applied to the state; `None` where the count would go wrong.
pub open spec fn token_step(text: &str, st: TokenState, ev: HighlightEvent) -> Option<TokenState> {
    match ev {
        HighlightEvent::HighlightStart(h) => Some((Some(h as u32), st.1, st.2)),
        HighlightEvent::HighlightEnd => Some((None, st.1, st.2)),
        HighlightEvent::Source { start, end } => match st.0 {
            None => Some(st),
            Some(cur) => {
                let prev = match st.1 {
                    Some(p) => p,
                    None => (0nat, 0nat),
                };
                match line_of_offset(text, start) {
                    None => None,
                    Some(pos) => if pos.0 < prev.0 || end < start || (pos.0 == prev.0 && pos.1 < prev.1) {
                        None
                    } else {
                        let delta_line = (pos.0 - prev.0) as nat;
                        let delta_start = if delta_line == 0 {
                            (pos.1 - prev.1) as nat
                        } else {
                            pos.1
                        };
                        let tok = SemanticToken {
                            delta_line: delta_line as u32,
                            delta_start: delta_start as u32,
                            length: (end - start) as u32,
                            token_type: cur,
                            token_modifiers_bitset: 0,
                        };
                        Some((st.0, Some(pos), st.2.push(tok)))
                    },
                }
            },
        },
    }
}

/// All events applied in order, from no highlight, no token and no position.
pub open spec fn token_run(text: &str, events: Seq<HighlightEvent>) -> Option<TokenState>
    decreases events.len(),
{
    if events.len() == 0 {
        Some((None, None, Seq::empty()))
    } else {
        match token_run(text, events.drop_last()) {
            None => None,
            Some(st) => token_step(text, st, events.last()),
        }
    }
}

/// The absolute line and column of the last of `tokens`, found by adding up their
/// relative placements from line 0, column 0: a token on a new line starts at its
/// column, one on the same line that many columns after the previous token.
pub open spec fn absolute_end(tokens: Seq<SemanticToken>) -> (nat, nat)
    decreases tokens.len(),
{
    if tokens.len() == 0 {
        (0, 0)
    } else {
        let p = absolute_end(tokens.drop_last());
        let t = tokens.last();
        if t.delta_line == 0 {
            (p.0, p.1 + t.delta_start as nat)
        } else {
            (p.0 + t.delta_line as nat, t.delta_start as nat)
        }
    }
}

/// The line of a located offset is at most the number of bytes left from the
/// start of the counting, and its column is below the length of the text.
proof fn lemma_locate_bounds(b: Seq<u8>, offset: nat, line: nat, start: int, counter: nat)
    requires
        0 <= start <= b.len() + 1,
    ensures
        locate(b, offset, line, start, counter) matches Some(p) ==> p.0 <= line + b.len() + 1 - start && p.1
            <= b.len(),
    decreases b.len() + 1 - start,
{
    if start < b.len() {
        lemma_line_end_bounds(b, start);
        let len = content_len(b, start);
        assert(0 <= len <= b.len());
        if counter + len > offset {
            assert(locate(b, offset, line, start, counter) matches Some(p) ==> p.0 == line && p.1 < len);
        } else if counter + len <= usize::MAX {
            match skip_line_breaks(b, counter + len) {
                None => {},
                Some(c) => {
                    lemma_locate_bounds(b, offset, line + 1, line_end(b, start) + 1, c as nat);
                    assert(locate(b, offset, line, start, counter) == locate(
                        b,
                        offset,
                        line + 1,
                        line_end(b, start) + 1,
                        c as nat,
                    ));
                },
            }
        }
    }
}

/// Adding up the relative placements of the tokens gives back the absolute line
/// and column of the last one, in a text short enough for them to be counted in
/// 32 bits; without a token there is no last position.
pub proof fn law_tokens_add_up(text: &str, events: Seq<HighlightEvent>)
    requires
        text.spec_bytes().len() < u32::MAX,
        token_run(text, events) is Some,
    ensures
        token_run(text, events)->Some_0.1 is None <==> token_run(text, events)->Some_0.2.len() == 0,
        token_run(text, events)->Some_0.1 matches Some(p) ==> absolute_end(token_run(text, events)->Some_0.2) == p,
    decreases events.len(),
{
    if events.len() > 0 {
        law_tokens_add_up(text, events.drop_last());
        let st = token_run(text, events.drop_last())->Some_0;
        match events.last() {
            HighlightEvent::Source { start, end } => {
                if st.0 is Some {
                    lemma_locate_bounds(text.spec_bytes(), start as nat, 0, 0, 0);
                    let st2 = token_run(text, events)->Some_0;
                    let pos = line_of_offset(text, start)->Some_0;
                    let prev = match st.1 {
                        Some(p) => p,
                        None => (0nat, 0nat),
                    };
                    assert(pos.0 <= u32::MAX && pos.1 <= u32::MAX);
                    assert(st2.1 == Some(pos));
                    assert(st2.2.drop_last() =~= st.2);
                    assert(absolute_end(st.2) == prev);
                    let t = st2.2.last();
                    assert(t.delta_line as nat == pos.0 - prev.0);
                }
            },
            _ => {},
        }
    }
}

/// The tokens for the highlight events of `text`, or `None` where a position
/// cannot be told or a token would start before the previous one.
pub fn tokens_from_events_checked(text: &str, events: &Vec<HighlightEvent>) -> (res: Option<Vec<SemanticToken>>)
    ensures
        match token_run(text, events@) {
            Some(st) => res matches Some(v) && v@ == st.2,
            None => res is None,
        },
{
    let mut tokens: Vec<SemanticToken> = Vec::new();
    let mut current_highlight: Option<u32> = None;
    let mut previous_source: Option<(usize, usize)> = None;
    let n = events.len();
    for i in 0..n
        invariant
            n == events@.len(),
            token_run(text, events@.subrange(0, i as int)) == Some(
                (
                    current_highlight,
                    match previous_source {
                        Some(p) => Some((p.0 as nat, p.1 as nat)),
                        None => None,
                    },
                    tokens@,
                ),
            ),
    {
        let ghost pre = events@.subrange(0, i as int);
        let ghost next = events@.subrange(0, i + 1);
        proof {
            assert(next.drop_last() =~= pre);
            assert(next.last() == events@[i as int]);
        }
        match events[i] {
            HighlightEvent::Source { start, end } => {
                if let Some(cur) = current_highlight {
                    let (p_line, p_offset) = match previous_source {
                        Some(p) => p,
                        None => (0, 0),
                    };
                    let pos = offset_to_line_checked(text, start);
                    match pos {
                        None => {
                            proof {
                                lemma_token_run_none(text, events@, (i + 1) as nat);
                            }
                            return None;
                        },
                        Some((line, offset)) => {
                            if line < p_line || end < start || (line == p_line && offset < p_offset) {
                                proof {
                                    lemma_token_run_none(text, events@, (i + 1) as nat);
                                }
                                return None;
                            }
                            let delta_line = line - p_line;
                            let delta_start = if delta_line == 0 {
                                offset - p_offset
                            } else {
                                offset
                            };
                            tokens.push(
                                SemanticToken {
                                    delta_line: delta_line as u32,
                                    delta_start: delta_start as u32,
                                    length: (end - start) as u32,
                                    token_type: cur,
                                    token_modifiers_bitset: 0,
                                },
                            );
                            previous_source = Some((line, offset));
                        },
                    }
                }
            },
            HighlightEvent::HighlightStart(h) => {
                current_highlight = Some(h as u32);
            },
            HighlightEvent::HighlightEnd => {
                current_highlight = None;
            },
        }
    }
    proof {
        assert(events@.subrange(0, n as int) =~= events@);
    }
    Some(tokens)
}

/// Once the walk goes wrong, it stays wrong.
proof fn lemma_token_run_none(text: &str, events: Seq<HighlightEvent>, k: nat)
    requires
        k <= events.len(),
        token_run(text, events.subrange(0, k as int)) is None,
    ensures
        token_run(text, events) is None,
    decreases events.len() - k,
{
    if k < events.len() {
        let next = events.subrange(0, (k + 1) as int);
        assert(next.drop_last() =~= events.subrange(0, k as int));
        lemma_token_run_none(text, events, k + 1);
    } else {
        assert(events.subrange(0, k as int) =~= events);
    }
}

/// The tokens for the highlight events of `text`: each piece of text under a
/// highlight becomes a token placed relative to the previous token.
pub fn tokens_from_events(text: &str, events: &Vec<HighlightEvent>) -> (res: Vec<SemanticToken>)
    requires
        token_run(text, events@) is Some,
    ensures
        res@ == token_run(text, events@).unwrap().2,
{
    tokens_from_events_checked(text, events).unwrap()
}

} // verus!
