//! The outgoing events of a session, as a tagged type, and their exact
//! renderings as wire message payloads.  Events exist only between the
//! engine that produces them and the codec that frames them; nothing stores
//! them.

use vstd::prelude::*;

use crate::progress::{render_percent, spec_percent_render};
use crate::text::{concat_bytes, dec_u64, spec_dec, spec_starts_with, starts_with_bytes};

verus! {

/// One message of a session's event stream.
pub enum Event {
    /// A file of the corpus contains at least one match; announced before
    /// the first `Found` event of that file.
    FoundIn { path: Vec<u8> },
    /// One match: the file it lies in, its absolute byte offset there, and
    /// the cleaned snippet around it.
    Found { path: Vec<u8>, offset: u64, snippet: Vec<u8> },
    /// Throttled progress: the scanned share of the corpus as a scaled
    /// percentage.
    Update { scaled_percent: u64 },
    /// A search finished; carries the elapsed time in milliseconds.
    Done { elapsed_ms: u64 },
    /// One catalogue entry of a list session.
    FileEntry { name: Vec<u8> },
    /// A list session finished.
    ListDone,
    /// A failure surfaced to the peer as diagnostic text.
    ErrorMsg { text: Vec<u8> },
}

/// The ASCII bytes of "found_in: ".
pub open spec fn spec_lit_found_in() -> Seq<u8> {
    seq![102u8, 111u8, 117u8, 110u8, 100u8, 95u8, 105u8, 110u8, 58u8, 32u8]
}

/// The ASCII bytes of "found: ".
pub open spec fn spec_lit_found() -> Seq<u8> {
    seq![102u8, 111u8, 117u8, 110u8, 100u8, 58u8, 32u8]
}

/// The ASCII bytes of "update: ".
pub open spec fn spec_lit_update() -> Seq<u8> {
    seq![117u8, 112u8, 100u8, 97u8, 116u8, 101u8, 58u8, 32u8]
}

/// The ASCII bytes of "done:".
pub open spec fn spec_lit_done() -> Seq<u8> {
    seq![100u8, 111u8, 110u8, 101u8, 58u8]
}

/// The ASCII bytes of "file: ".
pub open spec fn spec_lit_file() -> Seq<u8> {
    seq![102u8, 105u8, 108u8, 101u8, 58u8, 32u8]
}

/// The ASCII bytes of "error: ".
pub open spec fn spec_lit_error() -> Seq<u8> {
    seq![101u8, 114u8, 114u8, 111u8, 114u8, 58u8, 32u8]
}

/// The ASCII bytes of the ", " separator inside match events.
pub open spec fn spec_lit_sep() -> Seq<u8> {
    seq![44u8, 32u8]
}

/// The exact payload a session writes for an event:
///
/// * `found_in: <path>`
/// * `found: <path>, <offset>, <snippet>`
/// * `update: <percent>` with five decimal places
/// * `done: <elapsed>` for a finished search
/// * `file: <name>` and the bare `done:` for a list session
/// * `error: <text>` for failures
pub open spec fn spec_render(e: Event) -> Seq<u8> {
    match e {
        Event::FoundIn { path } => spec_lit_found_in() + path@,
        Event::Found { path, offset, snippet } => spec_lit_found() + path@ + spec_lit_sep()
            + spec_dec(offset as nat) + spec_lit_sep() + snippet@,
        Event::Update { scaled_percent } => spec_lit_update() + spec_percent_render(
            scaled_percent as int,
        ),
        Event::Done { elapsed_ms } => spec_lit_done() + seq![32u8] + spec_dec(elapsed_ms as nat),
        Event::FileEntry { name } => spec_lit_file() + name@,
        Event::ListDone => spec_lit_done(),
        Event::ErrorMsg { text } => spec_lit_error() + text@,
    }
}

/// Build the ASCII bytes of "found_in: ".
fn lit_found_in() -> (r: Vec<u8>)
    ensures
        r@ == spec_lit_found_in(),
{
    let mut v: Vec<u8> = Vec::new();
    v.push(102);
    v.push(111);
    v.push(117);
    v.push(110);
    v.push(100);
    v.push(95);
    v.push(105);
    v.push(110);
    v.push(58);
    v.push(32);
    proof {
        assert(v@ =~= spec_lit_found_in());
    }
    v
}

/// Build the ASCII bytes of "found: ".
fn lit_found() -> (r: Vec<u8>)
    ensures
        r@ == spec_lit_found(),
{
    let mut v: Vec<u8> = Vec::new();
    v.push(102);
    v.push(111);
    v.push(117);
    v.push(110);
    v.push(100);
    v.push(58);
    v.push(32);
    proof {
        assert(v@ =~= spec_lit_found());
    }
    v
}

/// Build the ASCII bytes of "update: ".
fn lit_update() -> (r: Vec<u8>)
    ensures
        r@ == spec_lit_update(),
{
    let mut v: Vec<u8> = Vec::new();
    v.push(117);
    v.push(112);
    v.push(100);
    v.push(97);
    v.push(116);
    v.push(101);
    v.push(58);
    v.push(32);
    proof {
        assert(v@ =~= spec_lit_update());
    }
    v
}

/// Build the ASCII bytes of "done:".
fn lit_done() -> (r: Vec<u8>)
    ensures
        r@ == spec_lit_done(),
{
    let mut v: Vec<u8> = Vec::new();
    v.push(100);
    v.push(111);
    v.push(110);
    v.push(101);
    v.push(58);
    proof {
        assert(v@ =~= spec_lit_done());
    }
    v
}

/// Build the ASCII bytes of "file: ".
fn lit_file() -> (r: Vec<u8>)
    ensures
        r@ == spec_lit_file(),
{
    let mut v: Vec<u8> = Vec::new();
    v.push(102);
    v.push(105);
    v.push(108);
    v.push(101);
    v.push(58);
    v.push(32);
    proof {
        assert(v@ =~= spec_lit_file());
    }
    v
}

/// Build the ASCII bytes of "error: ".
fn lit_error() -> (r: Vec<u8>)
    ensures
        r@ == spec_lit_error(),
{
    let mut v: Vec<u8> = Vec::new();
    v.push(101);
    v.push(114);
    v.push(114);
    v.push(111);
    v.push(114);
    v.push(58);
    v.push(32);
    proof {
        assert(v@ =~= spec_lit_error());
    }
    v
}

/// Build the ASCII bytes of ", ".
fn lit_sep() -> (r: Vec<u8>)
    ensures
        r@ == spec_lit_sep(),
{
    let mut v: Vec<u8> = Vec::new();
    v.push(44);
    v.push(32);
    proof {
        assert(v@ =~= spec_lit_sep());
    }
    v
}

/// What kind of event a received message payload carries, read off its
/// prefix.
#[derive(Clone, Copy, PartialEq, Eq, Structural, Debug)]
pub enum EventKind {
    /// A "found_in: " announcement.
    FoundIn,
    /// A "found: " match report.
    Found,
    /// An "update: " progress report.
    Update,
    /// A terminal "done:" marker, with or without a trailing elapsed time.
    Done,
    /// A "file: " listing entry.
    FileEntry,
    /// An "error: " diagnostic.
    ErrorText,
}

/// The kind a received payload carries and where its content starts: the
/// longest-prefix classification a client applies to the event stream.
pub open spec fn spec_classify(msg: Seq<u8>) -> Option<(EventKind, int)> {
    if spec_starts_with(msg, spec_lit_found_in()) {
        Some((EventKind::FoundIn, spec_lit_found_in().len() as int))
    } else if spec_starts_with(msg, spec_lit_found()) {
        Some((EventKind::Found, spec_lit_found().len() as int))
    } else if spec_starts_with(msg, spec_lit_update()) {
        Some((EventKind::Update, spec_lit_update().len() as int))
    } else if spec_starts_with(msg, spec_lit_file()) {
        Some((EventKind::FileEntry, spec_lit_file().len() as int))
    } else if spec_starts_with(msg, spec_lit_error()) {
        Some((EventKind::ErrorText, spec_lit_error().len() as int))
    } else if spec_starts_with(msg, spec_lit_done()) {
        Some((EventKind::Done, spec_lit_done().len() as int))
    } else {
        None
    }
}

/// Classify a received message payload by its event prefix; the returned
/// position is where the content after the prefix starts.
pub fn classify_event(msg: &Vec<u8>) -> (r: Option<(EventKind, usize)>)
    ensures
        match r {
            Some((kind, at)) => spec_classify(msg@) == Some((kind, at as int)) && at <= msg@.len(),
            None => spec_classify(msg@) is None,
        },
{
    if starts_with_bytes(msg, &lit_found_in()) {
        Some((EventKind::FoundIn, 10))
    } else if starts_with_bytes(msg, &lit_found()) {
        Some((EventKind::Found, 7))
    } else if starts_with_bytes(msg, &lit_update()) {
        Some((EventKind::Update, 8))
    } else if starts_with_bytes(msg, &lit_file()) {
        Some((EventKind::FileEntry, 6))
    } else if starts_with_bytes(msg, &lit_error()) {
        Some((EventKind::ErrorText, 7))
    } else if starts_with_bytes(msg, &lit_done()) {
        Some((EventKind::Done, 5))
    } else {
        None
    }
}

/// Render an event as the exact message payload the protocol sends for it.
pub fn render(e: &Event) -> (r: Vec<u8>)
    ensures
        r@ == spec_render(*e),
{
    match e {
        Event::FoundIn { path } => {
            let r = concat_bytes(&lit_found_in(), path);
            proof {
                assert(r@ =~= spec_render(*e));
            }
            r
        },
        Event::Found { path, offset, snippet } => {
            let mut r = concat_bytes(&lit_found(), path);
            r = concat_bytes(&r, &lit_sep());
            r = concat_bytes(&r, &dec_u64(*offset));
            r = concat_bytes(&r, &lit_sep());
            r = concat_bytes(&r, snippet);
            proof {
                assert(r@ =~= spec_render(*e));
            }
            r
        },
        Event::Update { scaled_percent } => {
            let r = concat_bytes(&lit_update(), &render_percent(*scaled_percent));
            proof {
                assert(r@ =~= spec_render(*e));
            }
            r
        },
        Event::Done { elapsed_ms } => {
            let mut r = lit_done();
            r.push(32);
            r = concat_bytes(&r, &dec_u64(*elapsed_ms));
            proof {
                assert(r@ =~= spec_render(*e));
            }
            r
        },
        Event::FileEntry { name } => {
            let r = concat_bytes(&lit_file(), name);
            proof {
                assert(r@ =~= spec_render(*e));
            }
            r
        },
        Event::ListDone => {
            let r = lit_done();
            proof {
                assert(r@ =~= spec_render(*e));
            }
            r
        },
        Event::ErrorMsg { text } => {
            let r = concat_bytes(&lit_error(), text);
            proof {
                assert(r@ =~= spec_render(*e));
            }
            r
        },
    }
}

} // verus!
