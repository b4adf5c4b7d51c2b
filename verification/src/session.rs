//! The per-connection sessions behind the dispatcher.  A connection runs
//! exactly one command: its first byte routes it, an unknown byte is refused
//! and the connection closed.  The search session owns the streaming scan of
//! the corpus: the lowercase-normalized term, the aggregate progress
//! denominator established once at session start, the wall-clock throttle on
//! update events, and one sliding-window scanner per file.  Each file with a
//! match is announced before its first match event.
//!
//! Concurrency stays outside the library: every session works on values of
//! its own, and the shared catalogue serializes its own access.

use vstd::prelude::*;

use crate::events::Event;
use crate::progress::{progress_scaled, spec_progress_scaled, Throttle};
use crate::search::{spec_occurs_at, spec_snippet, FoundMatch, Scanner};
use crate::store::{spec_not_found_text, StoreError};
use crate::text::{copy_bytes, lower_bytes, spec_lower_seq};
use crate::wire::{spec_command_of_byte, Command, ProtocolError};

verus! {

/// The smallest carry the scan window keeps, so that short terms do not
/// force tiny reads.
pub const SCAN_FLOOR: usize = 524288;

/// The scan window size for a term: the floor, or the term length where the
/// term is longer.
pub open spec fn spec_window_size(term_len: int) -> int {
    if term_len > SCAN_FLOOR {
        term_len
    } else {
        SCAN_FLOOR as int
    }
}

/// Compute the scan window size for a term.
pub fn window_size(term_len: usize) -> (w: usize)
    ensures
        w == spec_window_size(term_len as int),
        w >= term_len,
        w >= 1,
{
    if term_len > SCAN_FLOOR {
        term_len
    } else {
        SCAN_FLOOR
    }
}

/// The sum of the sizes of a corpus enumeration.
pub open spec fn spec_corpus_total(corpus: Seq<(Vec<u8>, u64)>) -> int
    decreases corpus.len(),
{
    if corpus.len() == 0 {
        0
    } else {
        spec_corpus_total(corpus.drop_last()) + corpus.last().1
    }
}

/// Corpus sizes are unsigned: the total is never negative and never less
/// than the total over a prefix.
proof fn lemma_corpus_prefix(corpus: Seq<(Vec<u8>, u64)>, i: int)
    requires
        0 <= i <= corpus.len(),
    ensures
        0 <= spec_corpus_total(corpus.subrange(0, i)) <= spec_corpus_total(corpus),
    decreases corpus.len(),
{
    if corpus.len() == 0 {
        assert(corpus.subrange(0, 0) =~= corpus);
    } else if i == corpus.len() {
        assert(corpus.subrange(0, i) =~= corpus);
        lemma_corpus_prefix(corpus.drop_last(), corpus.len() - 1);
        assert(corpus.drop_last().subrange(0, corpus.len() - 1) =~= corpus.drop_last());
    } else {
        assert(corpus.drop_last().subrange(0, i) =~= corpus.subrange(0, i));
        lemma_corpus_prefix(corpus.drop_last(), i);
    }
}

/// Route a connection by its first byte: the command to run, or the protocol
/// error whose text is sent before the connection is closed.
pub fn dispatch(b: u8) -> (r: Result<Command, ProtocolError>)
    ensures
        match r {
            Ok(c) => spec_command_of_byte(b) == Some(c),
            Err(e) => spec_command_of_byte(b) is None && e is UnknownCommand,
        },
{
    match crate::wire::command_of_byte(b) {
        Some(c) => Ok(c),
        None => Err(ProtocolError::UnknownCommand),
    }
}

/// The reply that ends a delete session: the second acknowledgement on
/// success (nothing to send but the token), or the diagnostic error event
/// after which the connection is closed.
pub fn delete_reply(outcome: &Result<(), StoreError>) -> (r: Option<Event>)
    ensures
        outcome is Ok <==> r is None,
        outcome is Err ==> (r matches Some(e) && e is ErrorMsg && e->ErrorMsg_text@
            == spec_not_found_text()),
{
    match outcome {
        Ok(_) => None,
        Err(e) => Some(Event::ErrorMsg { text: e.text() }),
    }
}

/// The full event stream of a list session: one entry per catalogue row, in
/// listing order, then the terminal marker.
pub fn list_events(entries: &Vec<(Vec<u8>, Vec<u8>)>) -> (evs: Vec<Event>)
    ensures
        evs@.len() == entries@.len() + 1,
        forall|i: int|
            0 <= i < entries@.len() ==> (#[trigger] evs@[i]) is FileEntry && evs@[i]->FileEntry_name@
                == entries@[i].0@,
        evs@[evs@.len() - 1] is ListDone,
{
    let mut evs: Vec<Event> = Vec::new();
    let mut i: usize = 0;
    while i < entries.len()
        invariant
            i <= entries@.len(),
            evs@.len() == i,
            forall|j: int|
                0 <= j < i ==> (#[trigger] evs@[j]) is FileEntry && evs@[j]->FileEntry_name@
                    == entries@[j].0@,
        decreases entries@.len() - i,
    {
        let name = copy_bytes(&entries[i].0);
        evs.push(Event::FileEntry { name });
        i = i + 1;
    }
    evs.push(Event::ListDone);
    evs
}

/// Build the match events of one chunk from the scanner's reported matches.
fn found_events(path: &Vec<u8>, found: &Vec<FoundMatch>) -> (evs: Vec<Event>)
    ensures
        evs@.len() == found@.len(),
        forall|m: int|
            0 <= m < evs@.len() ==> (#[trigger] evs@[m]) is Found && evs@[m]->Found_path@ == path@
                && evs@[m]->Found_offset == found@[m].offset && evs@[m]->Found_snippet@ == found@[
            m].snippet@,
{
    let mut evs: Vec<Event> = Vec::new();
    let mut k: usize = 0;
    while k < found.len()
        invariant
            k <= found@.len(),
            evs@.len() == k,
            forall|m: int|
                0 <= m < k ==> (#[trigger] evs@[m]) is Found && evs@[m]->Found_path@ == path@
                    && evs@[m]->Found_offset == found@[m].offset && evs@[m]->Found_snippet@
                    == found@[m].snippet@,
        decreases found@.len() - k,
    {
        let ev = Event::Found {
            path: copy_bytes(path),
            offset: found[k].offset,
            snippet: copy_bytes(&found[k].snippet),
        };
        evs.push(ev);
        k = k + 1;
    }
    evs
}

/// The event list of one feed step reports exactly the chunk's new matches,
/// in increasing offset order, between the optional announcement in front
/// and the optional update at the back.
proof fn lemma_feed_events(
    evs: Seq<Event>,
    found: Seq<FoundMatch>,
    a0: int,
    u1: int,
    path: Seq<u8>,
    term: Seq<u8>,
    newfed: Seq<u8>,
    oldlen: int,
)
    requires
        a0 == 0 || a0 == 1,
        u1 == 0 || u1 == 1,
        evs.len() == a0 + found.len() + u1,
        forall|m: int|
            0 <= m < found.len() ==> (#[trigger] found[m]).offset + term.len() > oldlen
                && spec_occurs_at(newfed, term, found[m].offset as int) && found[m].snippet@
                == spec_snippet(newfed, found[m].offset as int, term.len() as int),
        forall|m: int| 0 <= m < found.len() - 1 ==> (#[trigger] found[m].offset) < found[m
            + 1].offset,
        forall|o: int|
            #[trigger] spec_occurs_at(newfed, term, o) && o + term.len() > oldlen ==> exists|m: int|
                0 <= m < found.len() && (#[trigger] found[m].offset) == o,
        forall|m: int|
            0 <= m < found.len() ==> (#[trigger] evs[a0 + m]) is Found && evs[a0 + m]->Found_path@
                == path && evs[a0 + m]->Found_offset == found[m].offset && evs[a0
                + m]->Found_snippet@ == found[m].snippet@,
    ensures
        forall|k: int|
            a0 <= k < evs.len() - u1 ==> (#[trigger] evs[k]) is Found && evs[k]->Found_path@ == path
                && spec_occurs_at(newfed, term, evs[k]->Found_offset as int)
                && evs[k]->Found_offset + term.len() > oldlen && evs[k]->Found_snippet@
                == spec_snippet(newfed, evs[k]->Found_offset as int, term.len() as int),
        forall|o: int|
            #[trigger] spec_occurs_at(newfed, term, o) && o + term.len() > oldlen ==> exists|k: int|
                #![trigger evs[k]]
                a0 <= k < evs.len() - u1 && evs[k]->Found_offset == o,
        forall|k: int|
            #![trigger evs[k]]
            a0 <= k < evs.len() - u1 - 1 ==> evs[k]->Found_offset < evs[k + 1]->Found_offset,
{
    assert forall|k: int| a0 <= k < evs.len() - u1 implies (#[trigger] evs[k]) is Found && evs[
    k]->Found_path@ == path && spec_occurs_at(newfed, term, evs[k]->Found_offset as int) && evs[
    k]->Found_offset + term.len() > oldlen && evs[k]->Found_snippet@ == spec_snippet(
        newfed,
        evs[k]->Found_offset as int,
        term.len() as int,
    ) by {
        let m = k - a0;
        assert(evs[a0 + m] is Found);
        assert(evs[a0 + m]->Found_offset == found[m].offset);
    }
    assert forall|o: int|
        #[trigger] spec_occurs_at(newfed, term, o) && o + term.len() > oldlen implies exists|k: int|
        #![trigger evs[k]]
        a0 <= k < evs.len() - u1 && evs[k]->Found_offset == o by {
        let m = choose|m: int| 0 <= m < found.len() && (#[trigger] found[m].offset) == o;
        assert(evs[a0 + m]->Found_offset == o);
        assert(a0 <= a0 + m < evs.len() - u1);
    }
    assert forall|k: int|
        #![trigger evs[k]]
        a0 <= k < evs.len() - u1 - 1 implies evs[k]->Found_offset < evs[k + 1]->Found_offset by {
        let m = k - a0;
        assert(evs[a0 + m]->Found_offset == found[m].offset);
        assert(evs[a0 + (m + 1)]->Found_offset == found[m + 1].offset);
        assert(found[m].offset < found[m + 1].offset);
    }
}

/// The scan of one file of the corpus.
pub struct FileScan {
    path: Vec<u8>,
    scanner: Scanner,
    announced: bool,
}

impl FileScan {
    /// The file identifier used in this file's events.
    pub closed spec fn spec_path(self) -> Seq<u8> {
        self.path@
    }

    /// The file bytes scanned so far.
    pub closed spec fn spec_fed(self) -> Seq<u8> {
        self.scanner.fed_bytes()
    }

    /// The term the scanner is looking for.
    pub closed spec fn spec_term(self) -> Seq<u8> {
        self.scanner.term_bytes()
    }

    /// Whether the per-file announcement has been emitted.
    pub closed spec fn spec_announced(self) -> bool {
        self.announced
    }

    /// Well-formedness of the underlying scanner.
    pub closed spec fn wf(self) -> bool {
        self.scanner.wf()
    }
}

/// One search command's server-side state, scoped to its connection.
pub struct SearchSession {
    term: Vec<u8>,
    cap: usize,
    total_bytes: u64,
    done_bytes: u64,
    throttle: Throttle,
}

impl SearchSession {
    /// The lowercase-normalized search term.
    pub closed spec fn spec_term(self) -> Seq<u8> {
        self.term@
    }

    /// The aggregate progress denominator fixed at session start.
    pub closed spec fn spec_total(self) -> u64 {
        self.total_bytes
    }

    /// The bytes consumed so far, over all files.
    pub closed spec fn spec_done(self) -> u64 {
        self.done_bytes
    }

    /// The throttle interval in milliseconds.
    pub closed spec fn spec_interval(self) -> u64 {
        self.throttle.spec_interval()
    }

    /// When the throttle last released an update.
    pub closed spec fn spec_last_update(self) -> u64 {
        self.throttle.spec_last()
    }

    /// Whether an update event is due at a given time.
    pub open spec fn spec_update_due(self, now_ms: u64) -> bool {
        self.spec_last_update() + self.spec_interval() <= now_ms
    }

    /// Well-formedness: a non-empty term, a window that covers it, and a
    /// consumed count within the denominator.
    pub closed spec fn wf(self) -> bool {
        &&& 1 <= self.term@.len() <= self.cap
        &&& self.cap as int == spec_window_size(self.term@.len() as int)
        &&& self.done_bytes <= self.total_bytes
    }

    /// Open a search session: normalize the term to lowercase and fix the
    /// progress denominator as the sum of the corpus sizes, established once
    /// before scanning begins.  An empty term is rejected, as is a corpus
    /// whose total size overflows the byte counter.
    pub fn new(
        term: &Vec<u8>,
        corpus: &Vec<(Vec<u8>, u64)>,
        interval_ms: u64,
        now_ms: u64,
    ) -> (r: Option<SearchSession>)
        ensures
            match r {
                Some(s) => {
                    &&& term@.len() >= 1
                    &&& spec_corpus_total(corpus@) <= u64::MAX
                    &&& s.wf()
                    &&& s.spec_term() == spec_lower_seq(term@)
                    &&& s.spec_total() == spec_corpus_total(corpus@)
                    &&& s.spec_done() == 0
                    &&& s.spec_interval() == interval_ms
                    &&& s.spec_last_update() == now_ms
                },
                None => term@.len() == 0 || spec_corpus_total(corpus@) > u64::MAX,
            },
    {
        if term.len() == 0 {
            return None;
        }
        let mut total: u64 = 0;
        let mut i: usize = 0;
        while i < corpus.len()
            invariant
                i <= corpus@.len(),
                total == spec_corpus_total(corpus@.subrange(0, i as int)),
            decreases corpus@.len() - i,
        {
            proof {
                assert(corpus@.subrange(0, i as int + 1).drop_last() =~= corpus@.subrange(
                    0,
                    i as int,
                ));
                assert(corpus@.subrange(0, i as int + 1).last() == corpus@[i as int]);
            }
            let sz = corpus[i].1;
            if total > u64::MAX - sz {
                proof {
                    lemma_corpus_prefix(corpus@, i as int + 1);
                }
                return None;
            }
            total = total + sz;
            i = i + 1;
        }
        proof {
            assert(corpus@.subrange(0, corpus@.len() as int) =~= corpus@);
        }
        let low = lower_bytes(term);
        let cap = window_size(low.len());
        Some(
            SearchSession {
                term: low,
                cap,
                total_bytes: total,
                done_bytes: 0,
                throttle: Throttle::new(interval_ms, now_ms),
            },
        )
    }

    /// Open one file of the corpus for scanning; its announcement is still
    /// pending.
    pub fn begin_file(&self, path: &Vec<u8>) -> (fs: FileScan)
        requires
            self.wf(),
        ensures
            fs.wf(),
            fs.spec_path() == path@,
            fs.spec_fed() == Seq::<u8>::empty(),
            fs.spec_term() == self.spec_term(),
            !fs.spec_announced(),
    {
        FileScan { path: copy_bytes(path), scanner: Scanner::new(&self.term, self.cap), announced: false }
    }

    /// Scan the next chunk of the current file.
    ///
    /// The returned events are, in order: the file's announcement, exactly
    /// when the file was not announced yet and this chunk completes its
    /// first match; one match event per occurrence of the term whose last
    /// byte lies in this chunk, at its absolute offset, with its cleaned
    /// snippet, in increasing offset order, each occurrence exactly once
    /// over the whole scan; and one throttled progress update, exactly when
    /// a full interval has elapsed since the last one.
    pub fn feed_file(&mut self, fs: &mut FileScan, chunk: &Vec<u8>, now_ms: u64) -> (evs: Vec<
        Event,
    >)
        requires
            old(self).wf(),
            old(fs).wf(),
            old(fs).spec_term() == old(self).spec_term(),
            old(fs).spec_fed().len() + chunk@.len() <= u64::MAX,
            old(self).spec_done() + chunk@.len() <= old(self).spec_total(),
        ensures
            final(self).wf(),
            final(fs).wf(),
            final(self).spec_term() == old(self).spec_term(),
            final(self).spec_total() == old(self).spec_total(),
            final(self).spec_interval() == old(self).spec_interval(),
            final(self).spec_done() == old(self).spec_done() + chunk@.len(),
            final(self).spec_last_update() == if old(self).spec_update_due(now_ms) {
                now_ms
            } else {
                old(self).spec_last_update()
            },
            final(fs).spec_path() == old(fs).spec_path(),
            final(fs).spec_term() == old(fs).spec_term(),
            final(fs).spec_fed() == old(fs).spec_fed() + chunk@,
            ({
                let term = old(self).spec_term();
                let tl = term.len() as int;
                let newfed = old(fs).spec_fed() + chunk@;
                let oldlen = old(fs).spec_fed().len() as int;
                let has_new = exists|o: int|
                    spec_occurs_at(newfed, term, o) && o + tl > oldlen;
                let a0: int = if !old(fs).spec_announced() && has_new {
                    1
                } else {
                    0
                };
                let u1: int = if old(self).spec_update_due(now_ms) && old(self).spec_total() > 0 {
                    1
                } else {
                    0
                };
                &&& final(fs).spec_announced() == (old(fs).spec_announced() || has_new)
                &&& evs@.len() >= a0 + u1
                &&& (a0 == 1 ==> evs@[0] is FoundIn && evs@[0]->FoundIn_path@ == old(
                    fs,
                ).spec_path())
                &&& (u1 == 1 ==> evs@[evs@.len() - 1] is Update && evs@[evs@.len()
                    - 1]->Update_scaled_percent == spec_progress_scaled(
                    old(self).spec_done() + chunk@.len(),
                    old(self).spec_total() as int,
                ))
                &&& forall|k: int|
                    a0 <= k < evs@.len() - u1 ==> (#[trigger] evs@[k]) is Found
                        && evs@[k]->Found_path@ == old(fs).spec_path() && spec_occurs_at(
                        newfed,
                        term,
                        evs@[k]->Found_offset as int,
                    ) && evs@[k]->Found_offset + tl > oldlen && evs@[k]->Found_snippet@
                        == spec_snippet(newfed, evs@[k]->Found_offset as int, tl)
                &&& forall|o: int|
                    #[trigger] spec_occurs_at(newfed, term, o) && o + tl > oldlen ==> exists|k: int|
                        #![trigger evs@[k]]
                        a0 <= k < evs@.len() - u1 && evs@[k]->Found_offset == o
                &&& forall|k: int|
                    #![trigger evs@[k]]
                    a0 <= k < evs@.len() - u1 - 1 ==> evs@[k]->Found_offset < evs@[k
                        + 1]->Found_offset
            }),
    {
        let ghost term = self.term@;
        let ghost oldlen = fs.scanner.fed_bytes().len() as int;
        let ghost newfed = fs.scanner.fed_bytes() + chunk@;
        let found = fs.scanner.feed(chunk);
        let ghost has_new = exists|o: int|
            spec_occurs_at(newfed, term, o) && o + term.len() > oldlen;
        proof {
            if found@.len() > 0 {
                assert(spec_occurs_at(newfed, term, found@[0].offset as int) && found@[0].offset
                    + term.len() > oldlen);
            }
            if has_new {
                let o = choose|o: int| spec_occurs_at(newfed, term, o) && o + term.len() > oldlen;
                assert(exists|k: int| 0 <= k < found@.len() && found@[k].offset == o);
            }
            assert(has_new == (found@.len() > 0));
        }
        let mut fevs = found_events(&fs.path, &found);
        let ghost fevs_v = fevs@;
        let mut evs: Vec<Event> = Vec::new();
        if !fs.announced && found.len() > 0 {
            evs.push(Event::FoundIn { path: copy_bytes(&fs.path) });
            fs.announced = true;
        }
        let ghost a0: int = evs@.len() as int;
        evs.append(&mut fevs);
        self.done_bytes = self.done_bytes + (chunk.len() as u64);
        let emit = self.throttle.poll(now_ms);
        let ghost mid_len: int = evs@.len() as int;
        if emit && self.total_bytes > 0 {
            let scaled = progress_scaled(self.done_bytes, self.total_bytes);
            evs.push(Event::Update { scaled_percent: scaled });
        }
        proof {
            let u1: int = evs@.len() - mid_len;
            assert forall|m: int| 0 <= m < found@.len() implies (#[trigger] evs@[a0 + m]) is Found
                && evs@[a0 + m]->Found_path@ == fs.path@ && evs@[a0 + m]->Found_offset == found@[
            m].offset && evs@[a0 + m]->Found_snippet@ == found@[m].snippet@ by {
                assert(evs@[a0 + m] == fevs_v[m]);
            }
            lemma_feed_events(evs@, found@, a0, u1, fs.path@, term, newfed, oldlen);
        }
        evs
    }

    /// End the session: the terminal event carrying the elapsed time, after
    /// which the peer's final acknowledgement is awaited and the connection
    /// closed.
    pub fn finish(&self, elapsed_ms: u64) -> (e: Event)
        ensures
            e is Done,
            e->Done_elapsed_ms == elapsed_ms,
    {
        Event::Done { elapsed_ms }
    }
}

} // verus!
