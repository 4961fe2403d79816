//! Streaming tokenizer for the restricted markup dialect: it turns a byte
//! stream into a flat sequence of tag and text events without materializing a
//! document tree, and is proved to compute exactly the specification-level
//! tokenization `tokenize_spec`.
//!
//! Dialect notes: entity references are not decoded; a CDATA section is not
//! recognized (its opening `<![` is skipped to the first `>`); bytes beyond
//! ASCII pass through untouched and are only decoded when identifiers and
//! labels become strings.

use vstd::prelude::*;
use crate::loader::LoadError;

verus! {

/// One markup event.
pub enum XmlEvent {
    /// `<name a="v" ...>`
    Open { name: Vec<u8>, attrs: Vec<(Vec<u8>, Vec<u8>)> },
    /// `<name a="v" .../>`
    Empty { name: Vec<u8>, attrs: Vec<(Vec<u8>, Vec<u8>)> },
    /// `</name>`
    Close { name: Vec<u8> },
    /// Text between tags, trimmed of surrounding whitespace.
    Text { text: Vec<u8> },
}

/// Mathematical image of an event.
pub ghost enum EventView {
    Open { name: Seq<u8>, attrs: Seq<(Seq<u8>, Seq<u8>)> },
    Empty { name: Seq<u8>, attrs: Seq<(Seq<u8>, Seq<u8>)> },
    Close { name: Seq<u8> },
    Text { text: Seq<u8> },
}

/// Deep view of an attribute list.
pub open spec fn attrs_deep(attrs: Seq<(Vec<u8>, Vec<u8>)>) -> Seq<(Seq<u8>, Seq<u8>)> {
    Seq::new(attrs.len(), |i: int| (attrs[i].0@, attrs[i].1@))
}

impl View for XmlEvent {
    type V = EventView;

    open spec fn view(&self) -> EventView {
        match self {
            XmlEvent::Open { name, attrs } => EventView::Open {
                name: name@,
                attrs: attrs_deep(attrs@),
            },
            XmlEvent::Empty { name, attrs } => EventView::Empty {
                name: name@,
                attrs: attrs_deep(attrs@),
            },
            XmlEvent::Close { name } => EventView::Close { name: name@ },
            XmlEvent::Text { text } => EventView::Text { text: text@ },
        }
    }
}

/// Deep view of an event list.
pub open spec fn events_deep(evs: Seq<XmlEvent>) -> Seq<EventView> {
    Seq::new(evs.len(), |i: int| evs[i]@)
}

/// Every byte is ASCII.
pub open spec fn ascii_wf(s: Seq<u8>) -> bool {
    forall|i: int| 0 <= i < s.len() ==> #[trigger] s[i] < 0x80
}

/// Whitespace, per the dialect: space, tab, carriage return, line feed.
pub open spec fn is_ws(b: u8) -> bool {
    b == 32 || b == 9 || b == 10 || b == 13
}

/// A byte that may stand in an element or attribute name.
pub open spec fn is_name_byte(b: u8) -> bool {
    !is_ws(b) && b != 60 && b != 62 && b != 47 && b != 61 && b != 34 && b != 39
}

/// First position at or after `pos` whose byte is not whitespace.
pub open spec fn skip_ws_spec(input: Seq<u8>, pos: int) -> int
    decreases input.len() - pos,
{
    if pos < 0 || pos >= input.len() || !is_ws(input[pos]) {
        pos
    } else {
        skip_ws_spec(input, pos + 1)
    }
}

/// First position at or after `pos` whose byte cannot stand in a name.
pub open spec fn name_end_spec(input: Seq<u8>, pos: int) -> int
    decreases input.len() - pos,
{
    if pos < 0 || pos >= input.len() || !is_name_byte(input[pos]) {
        pos
    } else {
        name_end_spec(input, pos + 1)
    }
}

/// First position at or after `pos` holding the byte `stop` (or the end).
pub open spec fn find_spec(input: Seq<u8>, pos: int, stop: u8) -> int
    decreases input.len() - pos,
{
    if pos < 0 || pos >= input.len() || input[pos] == stop {
        pos
    } else {
        find_spec(input, pos + 1, stop)
    }
}

/// First position at or after `pos` where a comment terminator `-->` starts;
/// the input length when there is none.
pub open spec fn comment_end_spec(input: Seq<u8>, pos: int) -> int
    decreases input.len() - pos,
{
    if pos < 0 || input.len() - pos <= 2 {
        input.len() as int
    } else if input[pos] == 45 && input[pos + 1] == 45 && input[pos + 2] == 62 {
        pos
    } else {
        comment_end_spec(input, pos + 1)
    }
}

/// Last position in `(lo, hi]` such that no trailing whitespace remains:
/// trims whitespace bytes from the right end of the span.
pub open spec fn trim_end_spec(input: Seq<u8>, lo: int, hi: int) -> int
    decreases hi,
{
    if hi <= lo || hi <= 0 || hi > input.len() || !is_ws(input[hi - 1]) {
        hi
    } else {
        trim_end_spec(input, lo, hi - 1)
    }
}

pub proof fn lemma_skip_ws_bounds(input: Seq<u8>, pos: int)
    requires
        0 <= pos <= input.len(),
    ensures
        pos <= skip_ws_spec(input, pos) <= input.len(),
    decreases input.len() - pos,
{
    if pos < input.len() && is_ws(input[pos]) {
        lemma_skip_ws_bounds(input, pos + 1);
    }
}

pub proof fn lemma_name_end_bounds(input: Seq<u8>, pos: int)
    requires
        0 <= pos <= input.len(),
    ensures
        pos <= name_end_spec(input, pos) <= input.len(),
    decreases input.len() - pos,
{
    if pos < input.len() && is_name_byte(input[pos]) {
        lemma_name_end_bounds(input, pos + 1);
    }
}

pub proof fn lemma_find_bounds(input: Seq<u8>, pos: int, stop: u8)
    requires
        0 <= pos <= input.len(),
    ensures
        pos <= find_spec(input, pos, stop) <= input.len(),
    decreases input.len() - pos,
{
    if pos < input.len() && input[pos] != stop {
        lemma_find_bounds(input, pos + 1, stop);
    }
}

pub proof fn lemma_comment_end_bounds(input: Seq<u8>, pos: int)
    requires
        0 <= pos <= input.len(),
    ensures
        pos <= comment_end_spec(input, pos) <= input.len(),
    decreases input.len() - pos,
{
    if input.len() - pos > 2 && !(input[pos] == 45 && input[pos + 1] == 45 && input[pos + 2]
        == 62) {
        lemma_comment_end_bounds(input, pos + 1);
    }
}

/// Skipping whitespace never passes the next `<`: `<` is not whitespace.
pub proof fn lemma_skip_le_find(input: Seq<u8>, pos: int)
    requires
        0 <= pos <= input.len(),
    ensures
        skip_ws_spec(input, pos) <= find_spec(input, pos, 60),
    decreases input.len() - pos,
{
    if pos < input.len() && is_ws(input[pos]) {
        lemma_skip_le_find(input, pos + 1);
    } else if pos < input.len() {
        lemma_find_bounds(input, pos, 60);
    }
}

/// The attribute list of a tag, scanned from just after its name: the
/// attributes in order, the position after the closing `>`, and whether the
/// tag was self-closing; `None` when the tag is structurally broken.
pub open spec fn attrs_spec(input: Seq<u8>, pos: int) -> Option<
    (Seq<(Seq<u8>, Seq<u8>)>, int, bool),
>
    decreases input.len() - pos,
{
    if pos < 0 || pos > input.len() {
        None
    } else {
        let p = skip_ws_spec(input, pos);
        if p >= input.len() {
            None
        } else if input[p] == 47 {
            if p + 1 < input.len() && input[p + 1] == 62 {
                Some((Seq::empty(), p + 2, true))
            } else {
                None
            }
        } else if input[p] == 62 {
            Some((Seq::empty(), p + 1, false))
        } else {
            let p1 = name_end_spec(input, p);
            if p1 == p {
                None
            } else {
                let p2 = skip_ws_spec(input, p1);
                if p2 >= input.len() || input[p2] != 61 {
                    None
                } else {
                    let p3 = skip_ws_spec(input, p2 + 1);
                    if p3 >= input.len() || (input[p3] != 34 && input[p3] != 39) {
                        None
                    } else {
                        let vend = find_spec(input, p3 + 1, input[p3]);
                        if vend >= input.len() {
                            None
                        } else {
                            proof {
                                lemma_skip_ws_bounds(input, pos);
                                lemma_name_end_bounds(input, p);
                                lemma_skip_ws_bounds(input, p1);
                                lemma_skip_ws_bounds(input, p2 + 1);
                                lemma_find_bounds(input, p3 + 1, input[p3]);
                            }
                            match attrs_spec(input, vend + 1) {
                                Some((rest, end, sc)) => Some(
                                    (
                                        seq![
                                            (
                                                input.subrange(p, p1),
                                                input.subrange(p3 + 1, vend),
                                            ),
                                        ] + rest,
                                        end,
                                        sc,
                                    ),
                                ),
                                None => None,
                            }
                        }
                    }
                }
            }
        }
    }
}

/// A successful attribute scan ends strictly after where it started.
pub proof fn lemma_attrs_spec_bounds(input: Seq<u8>, pos: int)
    requires
        0 <= pos <= input.len(),
        attrs_spec(input, pos) is Some,
    ensures
        pos < attrs_spec(input, pos)->Some_0.1 <= input.len(),
    decreases input.len() - pos,
{
    let p = skip_ws_spec(input, pos);
    lemma_skip_ws_bounds(input, pos);
    if input[p] == 47 || input[p] == 62 {
    } else {
        let p1 = name_end_spec(input, p);
        lemma_name_end_bounds(input, p);
        let p2 = skip_ws_spec(input, p1);
        lemma_skip_ws_bounds(input, p1);
        let p3 = skip_ws_spec(input, p2 + 1);
        lemma_skip_ws_bounds(input, p2 + 1);
        let vend = find_spec(input, p3 + 1, input[p3]);
        lemma_find_bounds(input, p3 + 1, input[p3]);
        lemma_attrs_spec_bounds(input, vend + 1);
    }
}

/// The event sequence of the byte stream from `pos` on, or `None` when the
/// stream is malformed: broken tag structure, an empty element name, an
/// unterminated tag, value, declaration or comment.
pub open spec fn events_spec(input: Seq<u8>, pos: int) -> Option<Seq<EventView>>
    decreases input.len() - pos,
{
    if pos < 0 || pos > input.len() {
        None
    } else if pos == input.len() {
        Some(Seq::empty())
    } else if input[pos] == 60 {
        if pos + 1 < input.len() && input[pos + 1] == 47 {
            // closing tag
            let p1 = name_end_spec(input, pos + 2);
            if p1 == pos + 2 {
                None
            } else {
                let p2 = skip_ws_spec(input, p1);
                if p2 >= input.len() || input[p2] != 62 {
                    None
                } else {
                    proof {
                        lemma_name_end_bounds(input, pos + 2);
                        lemma_skip_ws_bounds(input, p1);
                    }
                    match events_spec(input, p2 + 1) {
                        Some(rest) => Some(
                            seq![EventView::Close { name: input.subrange(pos + 2, p1) }] + rest,
                        ),
                        None => None,
                    }
                }
            }
        } else if pos + 1 < input.len() && input[pos + 1] == 63 {
            // processing instruction: skipped to the next '>'
            let sp = find_spec(input, pos + 2, 62);
            if sp >= input.len() {
                None
            } else {
                proof {
                    lemma_find_bounds(input, pos + 2, 62);
                }
                events_spec(input, sp + 1)
            }
        } else if pos + 1 < input.len() && input[pos + 1] == 33 {
            if input.len() - pos > 3 && input[pos + 2] == 45 && input[pos + 3] == 45 {
                // comment: skipped to its terminator
                let sp = comment_end_spec(input, pos + 4);
                if input.len() - sp <= 2 {
                    None
                } else {
                    proof {
                        lemma_comment_end_bounds(input, pos + 4);
                    }
                    events_spec(input, sp + 3)
                }
            } else {
                // declaration: skipped to the next '>'
                let sp = find_spec(input, pos + 2, 62);
                if sp >= input.len() {
                    None
                } else {
                    proof {
                        lemma_find_bounds(input, pos + 2, 62);
                    }
                    events_spec(input, sp + 1)
                }
            }
        } else {
            // opening tag
            let p1 = name_end_spec(input, pos + 1);
            if p1 == pos + 1 {
                None
            } else {
                match attrs_spec(input, p1) {
                    Some((attrs, end, sc)) => {
                        proof {
                            lemma_name_end_bounds(input, pos + 1);
                            lemma_attrs_spec_bounds(input, p1);
                        }
                        match events_spec(input, end) {
                            Some(rest) => Some(
                                seq![
                                    if sc {
                                        EventView::Empty {
                                            name: input.subrange(pos + 1, p1),
                                            attrs,
                                        }
                                    } else {
                                        EventView::Open {
                                            name: input.subrange(pos + 1, p1),
                                            attrs,
                                        }
                                    },
                                ] + rest,
                            ),
                            None => None,
                        }
                    },
                    None => None,
                }
            }
        }
    } else {
        // text run up to the next '<', trimmed of surrounding whitespace
        let tp = find_spec(input, pos, 60);
        let lead = skip_ws_spec(input, pos);
        let hi = trim_end_spec(input, lead, tp);
        proof {
            lemma_find_bounds(input, pos + 1, 60);
            assert(find_spec(input, pos, 60) == find_spec(input, pos + 1, 60));
        }
        match events_spec(input, tp) {
            Some(rest) => {
                if lead < hi {
                    Some(seq![EventView::Text { text: input.subrange(lead, hi) }] + rest)
                } else {
                    Some(rest)
                }
            },
            None => None,
        }
    }
}

/// The tokenization of a whole byte stream: its event sequence, or `None`
/// when the stream is malformed.
pub open spec fn tokenize_spec(input: Seq<u8>) -> Option<Seq<EventView>> {
    events_spec(input, 0)
}

fn ws_exec(b: u8) -> (r: bool)
    ensures
        r == is_ws(b),
{
    b == 32 || b == 9 || b == 10 || b == 13
}

fn name_byte_exec(b: u8) -> (r: bool)
    ensures
        r == is_name_byte(b),
{
    !(b == 32 || b == 9 || b == 10 || b == 13) && b != 60 && b != 62 && b != 47 && b != 61 && b
        != 34 && b != 39
}

/// Collects the run of name bytes starting at `start`.
fn scan_name(input: &[u8], start: usize) -> (r: (Vec<u8>, usize))
    requires
        start <= input@.len(),
    ensures
        r.1 as int == name_end_spec(input@, start as int),
        start <= r.1 <= input@.len(),
        r.0@ == input@.subrange(start as int, r.1 as int),
{
    let mut out: Vec<u8> = Vec::new();
    let mut pos = start;
    while pos < input.len() && name_byte_exec(input[pos])
        invariant
            start <= pos <= input@.len(),
            name_end_spec(input@, start as int) == name_end_spec(input@, pos as int),
            out@ == input@.subrange(start as int, pos as int),
        decreases input@.len() - pos,
    {
        out.push(input[pos]);
        proof {
            assert(out@ =~= input@.subrange(start as int, pos as int + 1));
        }
        pos = pos + 1;
    }
    (out, pos)
}

/// Skips whitespace from `start`.
fn skip_ws(input: &[u8], start: usize) -> (r: usize)
    requires
        start <= input@.len(),
    ensures
        r as int == skip_ws_spec(input@, start as int),
        start <= r <= input@.len(),
{
    let mut pos = start;
    while pos < input.len() && ws_exec(input[pos])
        invariant
            start <= pos <= input@.len(),
            skip_ws_spec(input@, start as int) == skip_ws_spec(input@, pos as int),
        decreases input@.len() - pos,
    {
        pos = pos + 1;
    }
    pos
}

/// Advances to the first occurrence of `stop` (or the end).
fn find_byte(input: &[u8], start: usize, stop: u8) -> (r: usize)
    requires
        start <= input@.len(),
    ensures
        r as int == find_spec(input@, start as int, stop),
        start <= r <= input@.len(),
{
    let mut pos = start;
    while pos < input.len() && input[pos] != stop
        invariant
            start <= pos <= input@.len(),
            find_spec(input@, start as int, stop) == find_spec(input@, pos as int, stop),
        decreases input@.len() - pos,
    {
        pos = pos + 1;
    }
    pos
}

/// Copies the byte span `[lo, hi)` of the input.
fn copy_span(input: &[u8], lo: usize, hi: usize) -> (r: Vec<u8>)
    requires
        lo <= hi <= input@.len(),
    ensures
        r@ == input@.subrange(lo as int, hi as int),
{
    let mut out: Vec<u8> = Vec::new();
    let mut pos = lo;
    while pos < hi
        invariant
            lo <= pos <= hi <= input@.len(),
            out@ == input@.subrange(lo as int, pos as int),
        decreases hi - pos,
    {
        out.push(input[pos]);
        proof {
            assert(out@ =~= input@.subrange(lo as int, pos as int + 1));
        }
        pos = pos + 1;
    }
    out
}

/// Scans the attribute list of a tag beginning after its name; computes
/// exactly `attrs_spec` at that position.
fn scan_attrs(input: &[u8], start: usize) -> (r: Result<
    (Vec<(Vec<u8>, Vec<u8>)>, usize, bool),
    LoadError,
>)
    requires
        start <= input@.len(),
    ensures
        match r {
            Ok(t) => attrs_spec(input@, start as int) == Some(
                (attrs_deep(t.0@), t.1 as int, t.2),
            ) && start < t.1 <= input@.len(),
            Err(e) => attrs_spec(input@, start as int) is None && e == LoadError::Malformed,
        },
{
    let mut attrs: Vec<(Vec<u8>, Vec<u8>)> = Vec::new();
    let mut pos = start;
    proof {
        assert(attrs_deep(attrs@) =~= Seq::<(Seq<u8>, Seq<u8>)>::empty());
    }
    loop
        invariant
            start <= pos <= input@.len(),
            (match attrs_spec(input@, pos as int) {
                Some(t) => attrs_spec(input@, start as int) == Some(
                    (attrs_deep(attrs@) + t.0, t.1, t.2),
                ),
                None => attrs_spec(input@, start as int) is None,
            }),
        decreases input@.len() - pos,
    {
        let p = skip_ws(input, pos);
        if p >= input.len() {
            return Err(LoadError::Malformed);
        }
        if input[p] == 47 {
            // '/': must be the end of a self-closing tag
            if p + 1 < input.len() && input[p + 1] == 62 {
                proof {
                    assert(attrs_deep(attrs@) + Seq::<(Seq<u8>, Seq<u8>)>::empty() =~= attrs_deep(
                        attrs@,
                    ));
                    lemma_attrs_spec_bounds(input@, start as int);
                }
                return Ok((attrs, p + 2, true));
            }
            return Err(LoadError::Malformed);
        }
        if input[p] == 62 {
            // '>'
            proof {
                assert(attrs_deep(attrs@) + Seq::<(Seq<u8>, Seq<u8>)>::empty() =~= attrs_deep(
                    attrs@,
                ));
                lemma_attrs_spec_bounds(input@, start as int);
            }
            return Ok((attrs, p + 1, false));
        }
        let (aname, p1) = scan_name(input, p);
        if aname.len() == 0 {
            return Err(LoadError::Malformed);
        }
        let p2 = skip_ws(input, p1);
        if p2 >= input.len() || input[p2] != 61 {
            // '='
            return Err(LoadError::Malformed);
        }
        let p3 = skip_ws(input, p2 + 1);
        if p3 >= input.len() || (input[p3] != 34 && input[p3] != 39) {
            // '"' or '\''
            return Err(LoadError::Malformed);
        }
        let quote = input[p3];
        let vend = find_byte(input, p3 + 1, quote);
        if vend >= input.len() {
            return Err(LoadError::Malformed);
        }
        let val = copy_span(input, p3 + 1, vend);
        let ghost deep_before = attrs_deep(attrs@);
        attrs.push((aname, val));
        proof {
            assert(attrs_deep(attrs@) =~= deep_before + seq![
                (input@.subrange(p as int, p1 as int), input@.subrange(p3 as int + 1, vend as int)),
            ]);
            assert forall|t0: Seq<(Seq<u8>, Seq<u8>)>|
                deep_before + (seq![
                    (
                        input@.subrange(p as int, p1 as int),
                        input@.subrange(p3 as int + 1, vend as int),
                    ),
                ] + t0) =~= attrs_deep(attrs@) + t0 by {}
        }
        pos = vend + 1;
    }
}

/// Tokenizes a byte stream into markup events: returns exactly the events
/// that `tokenize_spec` assigns to the input, and `Malformed` if and only if
/// `tokenize_spec` rejects it. This function never reports `Io`.
pub fn tokenize(input: &[u8]) -> (r: Result<Vec<XmlEvent>, LoadError>)
    ensures
        match r {
            Ok(evs) => tokenize_spec(input@) == Some(events_deep(evs@)),
            Err(e) => tokenize_spec(input@) is None && e == LoadError::Malformed,
        },
{
    let mut out: Vec<XmlEvent> = Vec::new();
    let mut pos: usize = 0;
    let n = input.len();
    proof {
        assert(events_deep(out@) =~= Seq::<EventView>::empty());
    }
    while pos < n
        invariant
            pos <= n,
            n == input@.len(),
            (match events_spec(input@, pos as int) {
                Some(rest) => events_spec(input@, 0) == Some(events_deep(out@) + rest),
                None => events_spec(input@, 0) is None,
            }),
        decreases n - pos,
    {
        let ghost deep_before = events_deep(out@);
        let ghost out_before = out@;
        if input[pos] == 60 {
            // '<'
            if pos + 1 < n && input[pos + 1] == 47 {
                // closing tag
                let (name, p1) = scan_name(input, pos + 2);
                if name.len() == 0 {
                    return Err(LoadError::Malformed);
                }
                let p2 = skip_ws(input, p1);
                if p2 >= n || input[p2] != 62 {
                    return Err(LoadError::Malformed);
                }
                let ev = XmlEvent::Close { name };
                out.push(ev);
                proof {
                    assert(out@.drop_last() =~= out_before);
                    lemma_events_push(deep_before, out@, events_spec(input@, p2 as int + 1));
                }
                pos = p2 + 1;
            } else if pos + 1 < n && input[pos + 1] == 63 {
                // '<?' processing instruction: skip to the next '>'
                let sp = find_byte(input, pos + 2, 62);
                if sp >= n {
                    return Err(LoadError::Malformed);
                }
                pos = sp + 1;
            } else if pos + 1 < n && input[pos + 1] == 33 {
                // '<!': comment or declaration
                if n - pos > 3 && input[pos + 2] == 45 && input[pos + 3] == 45 {
                    // '<!--': skip to '-->'
                    let mut sp = pos + 4;
                    while n - sp > 2 && !(input[sp] == 45 && input[sp + 1] == 45 && input[sp + 2]
                        == 62)
                        invariant
                            pos + 4 <= sp,
                            sp <= n,
                            n == input@.len(),
                            comment_end_spec(input@, pos as int + 4) == comment_end_spec(
                                input@,
                                sp as int,
                            ),
                        decreases n - sp,
                    {
                        sp = sp + 1;
                    }
                    if n - sp <= 2 {
                        return Err(LoadError::Malformed);
                    }
                    pos = sp + 3;
                } else {
                    let sp = find_byte(input, pos + 2, 62);
                    if sp >= n {
                        return Err(LoadError::Malformed);
                    }
                    pos = sp + 1;
                }
            } else {
                // opening tag
                let (name, p1) = scan_name(input, pos + 1);
                if name.len() == 0 {
                    return Err(LoadError::Malformed);
                }
                match scan_attrs(input, p1) {
                    Ok((attrs, p2, self_closing)) => {
                        let ev = if self_closing {
                            XmlEvent::Empty { name, attrs }
                        } else {
                            XmlEvent::Open { name, attrs }
                        };
                        out.push(ev);
                        proof {
                            assert(out@.drop_last() =~= out_before);
                            lemma_events_push(
                                deep_before,
                                out@,
                                events_spec(input@, p2 as int),
                            );
                        }
                        pos = p2;
                    },
                    Err(e) => {
                        return Err(e);
                    },
                }
            }
        } else {
            // text run up to the next '<', trimmed of surrounding whitespace
            let tp = find_byte(input, pos, 60);
            let lead = skip_ws(input, pos);
            proof {
                lemma_skip_le_find(input@, pos as int);
                lemma_find_bounds(input@, pos as int + 1, 60);
            }
            let mut hi = tp;
            while hi > lead && ws_exec(input[hi - 1])
                invariant
                    lead <= hi <= tp <= n,
                    n == input@.len(),
                    trim_end_spec(input@, lead as int, tp as int) == trim_end_spec(
                        input@,
                        lead as int,
                        hi as int,
                    ),
                decreases hi,
            {
                hi = hi - 1;
            }
            proof {
                lemma_skip_ws_bounds(input@, pos as int);
            }
            if lead < hi {
                let text = copy_span(input, lead, hi);
                let ev = XmlEvent::Text { text };
                out.push(ev);
                proof {
                    assert(out@.drop_last() =~= out_before);
                    lemma_events_push(deep_before, out@, events_spec(input@, tp as int));
                }
            }
            pos = tp;
        }
    }
    proof {
        assert(events_deep(out@) + Seq::<EventView>::empty() =~= events_deep(out@));
    }
    Ok(out)
}

/// Pushing one event keeps the loop's relation to the specification fold.
proof fn lemma_events_push(
    deep_before: Seq<EventView>,
    out: Seq<XmlEvent>,
    rest: Option<Seq<EventView>>,
)
    requires
        out.len() > 0,
        events_deep(out.drop_last()) == deep_before,
    ensures
        events_deep(out) =~= deep_before + seq![out.last()@],
        rest matches Some(r2) ==> (deep_before + (seq![out.last()@] + r2)) =~= (events_deep(out)
            + r2),
{
    assert(events_deep(out) =~= events_deep(out.drop_last()) + seq![out.last()@]);
    match rest {
        Some(r2) => {
            assert(deep_before + (seq![out.last()@] + r2) =~= (deep_before + seq![out.last()@])
                + r2);
        },
        None => {},
    }
}

} // verus!
