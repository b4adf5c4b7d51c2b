//! The streaming search engine: case-insensitive substring matching, and a
//! sliding overlap window that scans arbitrarily large files in bounded
//! memory without missing or duplicating matches that straddle read
//! boundaries.
//!
//! The scanner keeps a carry buffer of the last `cap` bytes fed to it, where
//! `cap` is at least the term length.  Each `feed` searches the carry plus
//! the fresh chunk and reports exactly the occurrences whose last byte lies
//! in the fresh chunk, so every occurrence in the whole stream is reported
//! exactly once, at its absolute byte offset.

use vstd::prelude::*;

use crate::text::{lower_byte, spec_lower, spec_lower_seq, spec_strip_crlf, strip_crlf};

verus! {

/// An occurrence of `needle` in `hay` at offset `i`, compared byte by byte
/// after ASCII lowercasing of both sides.
pub open spec fn spec_occurs_at(hay: Seq<u8>, needle: Seq<u8>, i: int) -> bool {
    &&& 0 <= i
    &&& i + needle.len() <= hay.len()
    &&& spec_lower_seq(hay.subrange(i, i + needle.len())) == spec_lower_seq(needle)
}

/// Test one candidate offset.
pub fn is_match_at(hay: &Vec<u8>, needle: &Vec<u8>, i: usize) -> (r: bool)
    requires
        i + needle@.len() <= hay@.len(),
    ensures
        r == spec_occurs_at(hay@, needle@, i as int),
{
    let n = needle.len();
    let hl = hay.len();
    let mut j: usize = 0;
    while j < n
        invariant
            j <= n,
            n == needle@.len(),
            hl == hay@.len(),
            i + n <= hl,
            forall|k: int| 0 <= k < j ==> spec_lower(hay@[i + k]) == spec_lower(needle@[k]),
        decreases n - j,
    {
        if lower_byte(hay[i + j]) != lower_byte(needle[j]) {
            proof {
                if spec_occurs_at(hay@, needle@, i as int) {
                    assert(spec_lower_seq(hay@.subrange(i as int, i as int + needle@.len()))[
                        j as int] == spec_lower_seq(needle@)[j as int]);
                }
            }
            return false;
        }
        j = j + 1;
    }
    proof {
        assert(spec_lower_seq(hay@.subrange(i as int, i as int + needle@.len())) =~= spec_lower_seq(
            needle@,
        ));
    }
    true
}

/// All occurrence offsets of `needle` in `hay` that are at least `lo`, in
/// increasing order, each exactly once.
pub fn find_matches_from(hay: &Vec<u8>, needle: &Vec<u8>, lo: usize) -> (r: Vec<usize>)
    requires
        needle@.len() >= 1,
    ensures
        forall|k: int|
            0 <= k < r@.len() ==> spec_occurs_at(hay@, needle@, r@[k] as int) && lo <= r@[k],
        forall|o: int|
            #[trigger] spec_occurs_at(hay@, needle@, o) && lo <= o ==> r@.contains(o as usize),
        forall|k: int| 0 <= k < r@.len() - 1 ==> #[trigger] r@[k] < r@[k + 1],
{
    let mut r: Vec<usize> = Vec::new();
    if hay.len() < needle.len() {
        return r;
    }
    let last: usize = hay.len() - needle.len();
    if lo > last {
        return r;
    }
    let mut i: usize = lo;
    while i <= last
        invariant
            lo <= i <= last + 1,
            last == hay@.len() - needle@.len(),
            last < hay@.len() <= usize::MAX,
            needle@.len() >= 1,
            forall|k: int|
                0 <= k < r@.len() ==> spec_occurs_at(hay@, needle@, r@[k] as int) && lo <= r@[k]
                    < i,
            forall|o: int|
                #[trigger] spec_occurs_at(hay@, needle@, o) && lo <= o < i ==> r@.contains(
                    o as usize,
                ),
            forall|k: int| 0 <= k < r@.len() - 1 ==> #[trigger] r@[k] < r@[k + 1],
        decreases last + 1 - i,
    {
        let ghost prev = r@;
        let hit = is_match_at(hay, needle, i);
        if hit {
            r.push(i);
        }
        proof {
            assert forall|o: int|
                #[trigger] spec_occurs_at(hay@, needle@, o) && lo <= o < i + 1 implies r@.contains(
                o as usize,
            ) by {
                if o < i {
                    assert(prev.contains(o as usize));
                    let m = choose|m: int| 0 <= m < prev.len() && prev[m] == o as usize;
                    assert(r@[m] == o as usize);
                } else {
                    assert(r@[r@.len() - 1] == i);
                }
            }
        }
        i = i + 1;
    }
    r
}

/// All occurrence offsets of `needle` in `hay`, scanning the whole buffer in
/// one pass: the reference against which the windowed scanner is measured.
pub fn find_all(hay: &Vec<u8>, needle: &Vec<u8>) -> (r: Vec<usize>)
    requires
        needle@.len() >= 1,
    ensures
        forall|k: int| 0 <= k < r@.len() ==> spec_occurs_at(hay@, needle@, r@[k] as int),
        forall|o: int| #[trigger] spec_occurs_at(hay@, needle@, o) ==> r@.contains(o as usize),
        forall|k: int| 0 <= k < r@.len() - 1 ==> #[trigger] r@[k] < r@[k + 1],
{
    find_matches_from(hay, needle, 0)
}

/// Occurrences that lie wholly inside a prefix are unaffected by whatever
/// bytes follow it.
pub proof fn lemma_occurs_prefix_stable(prefix: Seq<u8>, rest: Seq<u8>, term: Seq<u8>, o: int)
    requires
        0 <= o,
        o + term.len() <= prefix.len(),
    ensures
        spec_occurs_at(prefix + rest, term, o) <==> spec_occurs_at(prefix, term, o),
{
    assert((prefix + rest).subrange(o, o + term.len()) =~= prefix.subrange(o, o + term.len()));
}

/// An occurrence inside a suffix of a stream is an occurrence of the stream,
/// shifted by the suffix's base offset.
pub proof fn lemma_occurs_in_suffix(s: Seq<u8>, base: int, term: Seq<u8>, o: int)
    requires
        0 <= base <= o,
        base <= s.len(),
    ensures
        spec_occurs_at(s, term, o) <==> spec_occurs_at(
            s.subrange(base, s.len() as int),
            term,
            o - base,
        ),
{
    let suffix = s.subrange(base, s.len() as int);
    if o + term.len() <= s.len() {
        assert(suffix.subrange(o - base, o - base + term.len()) =~= s.subrange(o, o + term.len()));
    }
}

/// A window occurrence at index `wi` of the suffix starting at `base` is an
/// occurrence of the whole stream at `base + wi`, and if it starts at or
/// after the first index whose occurrence can outrun the carry, its last
/// byte lies past the carry.
proof fn lemma_window_match_lifts(newfed: Seq<u8>, term: Seq<u8>, base: int, cl: int, lo: int, wi: int)
    requires
        0 <= base,
        0 <= cl,
        base + cl <= newfed.len(),
        term.len() >= 1,
        spec_occurs_at(newfed.subrange(base, newfed.len() as int), term, wi),
        lo <= wi,
        lo == if term.len() <= cl {
            cl - term.len() + 1
        } else {
            0
        },
    ensures
        spec_occurs_at(newfed, term, base + wi),
        base + wi + term.len() > base + cl,
{
    lemma_occurs_in_suffix(newfed, base, term, base + wi);
}

/// A stream occurrence whose last byte lies past the old stream end appears
/// in the window suffix at an index at or after the reporting bound, so the
/// windowed scan cannot miss it.
proof fn lemma_window_match_covers(
    newfed: Seq<u8>,
    term: Seq<u8>,
    base: int,
    cl: int,
    lo: int,
    o: int,
)
    requires
        0 <= base,
        base + cl <= newfed.len(),
        term.len() >= 1,
        cl >= term.len() || base == 0,
        lo == if term.len() <= cl {
            cl - term.len() + 1
        } else {
            0
        },
        spec_occurs_at(newfed, term, o),
        o + term.len() > base + cl,
    ensures
        lo <= o - base,
        spec_occurs_at(newfed.subrange(base, newfed.len() as int), term, o - base),
{
    lemma_occurs_in_suffix(newfed, base, term, o);
}

/// The collected absolute offsets of one `feed` step are exactly the
/// occurrences of the term in the whole stream whose last byte lies past the
/// old stream end, in increasing order.
proof fn lemma_feed_contract(
    newfed: Seq<u8>,
    term: Seq<u8>,
    base: int,
    cl: int,
    lo: int,
    idxs: Seq<usize>,
    found: Seq<u64>,
)
    requires
        0 <= base,
        0 <= cl,
        base + cl <= newfed.len(),
        newfed.len() <= u64::MAX,
        newfed.len() - base <= usize::MAX,
        term.len() >= 1,
        cl >= term.len() || base == 0,
        lo == if term.len() <= cl {
            cl - term.len() + 1
        } else {
            0
        },
        forall|m: int|
            0 <= m < idxs.len() ==> spec_occurs_at(
                newfed.subrange(base, newfed.len() as int),
                term,
                #[trigger] idxs[m] as int,
            ) && lo <= idxs[m],
        forall|o: int|
            #[trigger] spec_occurs_at(newfed.subrange(base, newfed.len() as int), term, o) && lo
                <= o ==> idxs.contains(o as usize),
        forall|m: int| 0 <= m < idxs.len() - 1 ==> #[trigger] idxs[m] < idxs[m + 1],
        found.len() == idxs.len(),
        forall|m: int| 0 <= m < found.len() ==> #[trigger] found[m] == base + idxs[m],
    ensures
        forall|k: int|
            0 <= k < found.len() ==> spec_occurs_at(newfed, term, #[trigger] found[k] as int) && found[k]
                + term.len() > base + cl,
        forall|o: int|
            #[trigger] spec_occurs_at(newfed, term, o) && o + term.len() > base + cl
                ==> found.contains(o as u64),
        forall|k: int| 0 <= k < found.len() - 1 ==> #[trigger] found[k] < found[k + 1],
{
    assert forall|k: int| 0 <= k < found.len() implies spec_occurs_at(
        newfed,
        term,
        #[trigger] found[k] as int,
    ) && found[k] + term.len() > base + cl by {
        lemma_window_match_lifts(newfed, term, base, cl, lo, idxs[k] as int);
    }
    assert forall|o: int|
        #[trigger] spec_occurs_at(newfed, term, o) && o + term.len() > base + cl implies
        found.contains(o as u64) by {
        lemma_window_match_covers(newfed, term, base, cl, lo, o);
        let wi = o - base;
        assert(idxs.contains(wi as usize));
        let m = choose|m: int| 0 <= m < idxs.len() && idxs[m] == wi as usize;
        assert(found[m] == base + wi);
        assert(found.contains(o as u64));
    }
}

/// One reported occurrence: its absolute byte offset in the scanned stream
/// and the cleaned snippet around it.
pub struct FoundMatch {
    /// Absolute byte offset of the occurrence in the whole stream.
    pub offset: u64,
    /// The stream bytes from the occurrence through the trailing context,
    /// clipped to what has been read, with line breaks stripped.
    pub snippet: Vec<u8>,
}

/// Turn window-relative match indices into reported matches with absolute
/// stream offsets and their snippets.
fn build_matches(window: &Vec<u8>, term_len: usize, idxs: &Vec<usize>, base: u64) -> (r: Vec<
    FoundMatch,
>)
    requires
        base + window@.len() <= u64::MAX,
        forall|m: int| 0 <= m < idxs@.len() ==> #[trigger] idxs@[m] + term_len <= window@.len(),
    ensures
        r@.len() == idxs@.len(),
        forall|m: int|
            0 <= m < r@.len() ==> (#[trigger] r@[m].offset) == base + idxs@[m]
                && r@[m].snippet@ == spec_snippet(window@, idxs@[m] as int, term_len as int),
{
    let mut r: Vec<FoundMatch> = Vec::new();
    let mut k: usize = 0;
    while k < idxs.len()
        invariant
            k <= idxs@.len(),
            base + window@.len() <= u64::MAX,
            forall|m: int| 0 <= m < idxs@.len() ==> #[trigger] idxs@[m] + term_len
                <= window@.len(),
            r@.len() == k,
            forall|m: int|
                0 <= m < k ==> (#[trigger] r@[m].offset) == base + idxs@[m] && r@[m].snippet@
                    == spec_snippet(window@, idxs@[m] as int, term_len as int),
        decreases idxs@.len() - k,
    {
        let off: u64 = base + (idxs[k] as u64);
        let sn = snippet_at(window, idxs[k], term_len);
        let ghost snv = sn@;
        r.push(FoundMatch { offset: off, snippet: sn });
        proof {
            assert(r@[k as int].offset == off);
            assert(r@[k as int].snippet@ == snv);
        }
        k = k + 1;
    }
    r
}

/// A snippet cut from a suffix window of the stream is the same bytes as
/// the snippet cut from the stream itself.
proof fn lemma_snippet_shift(s: Seq<u8>, base: int, o: int, tl: int)
    requires
        0 <= base <= o,
        0 <= tl,
        o + tl <= s.len(),
    ensures
        spec_snippet(s.subrange(base, s.len() as int), o - base, tl) == spec_snippet(s, o, tl),
{
    let w = s.subrange(base, s.len() as int);
    let end_w = if o - base + tl + SNIPPET_CONTEXT <= w.len() {
        o - base + tl + SNIPPET_CONTEXT
    } else {
        w.len() as int
    };
    let end_s = if o + tl + SNIPPET_CONTEXT <= s.len() {
        o + tl + SNIPPET_CONTEXT
    } else {
        s.len() as int
    };
    assert(w.subrange(o - base, end_w) =~= s.subrange(o, end_s));
}

/// The sliding overlap window of one file scan.
///
/// `carry` always holds the tail of the byte stream fed so far, up to `cap`
/// bytes, and `cap` is at least the term length, so an occurrence that
/// straddles the boundary between two chunks is always contiguously present
/// in carry-plus-chunk before the window advances.
pub struct Scanner {
    term: Vec<u8>,
    cap: usize,
    carry: Vec<u8>,
    processed: u64,
    fed: Ghost<Seq<u8>>,
}

impl Scanner {
    /// All bytes handed to the scanner so far.
    pub closed spec fn fed_bytes(self) -> Seq<u8> {
        self.fed@
    }

    /// The search term this scanner was built for.
    pub closed spec fn term_bytes(self) -> Seq<u8> {
        self.term@
    }

    /// The carry capacity this scanner was built with.
    pub closed spec fn capacity(self) -> int {
        self.cap as int
    }

    /// How much of the stream the carry buffer retains.
    pub closed spec fn carry_len(self) -> int {
        if self.fed@.len() < self.cap as int {
            self.fed@.len() as int
        } else {
            self.cap as int
        }
    }

    /// Well-formedness: the capacity covers the term, the byte counter
    /// matches the stream, and the carry buffer holds exactly the stream's
    /// tail, as much of it as fits the capacity.
    pub closed spec fn wf(self) -> bool {
        &&& 1 <= self.term@.len() <= self.cap
        &&& self.processed == self.fed@.len()
        &&& self.fed@.len() <= u64::MAX
        &&& self.carry@.len() == self.carry_len()
        &&& self.carry@ == self.fed@.subrange(
            self.fed@.len() - self.carry_len(),
            self.fed@.len() as int,
        )
    }

    /// Start a scan with a given term and carry capacity.
    pub fn new(term: &Vec<u8>, cap: usize) -> (s: Self)
        requires
            1 <= term@.len() <= cap,
        ensures
            s.wf(),
            s.fed_bytes() == Seq::<u8>::empty(),
            s.term_bytes() == term@,
            s.capacity() == cap,
    {
        let mut own: Vec<u8> = Vec::new();
        let mut i: usize = 0;
        while i < term.len()
            invariant
                i <= term@.len(),
                own@ == term@.subrange(0, i as int),
            decreases term@.len() - i,
        {
            own.push(term[i]);
            proof {
                assert(own@ =~= term@.subrange(0, i as int + 1));
            }
            i = i + 1;
        }
        proof {
            assert(own@ =~= term@);
        }
        let s = Scanner {
            term: own,
            cap,
            carry: Vec::new(),
            processed: 0,
            fed: Ghost(Seq::empty()),
        };
        proof {
            assert(s.carry@ =~= s.fed@.subrange(0, 0));
        }
        s
    }

    /// Feed the next chunk of the stream and collect every occurrence of the
    /// term whose last byte lies in this chunk, at absolute stream offsets,
    /// in increasing order.  Occurrences wholly inside earlier chunks were
    /// already reported (they ended in the chunk they were reported for), so
    /// across a whole scan every occurrence is reported exactly once.
    #[verifier::rlimit(100)]
    pub fn feed(&mut self, chunk: &Vec<u8>) -> (found: Vec<FoundMatch>)
        requires
            old(self).wf(),
            old(self).fed_bytes().len() + chunk@.len() <= u64::MAX,
        ensures
            final(self).wf(),
            final(self).term_bytes() == old(self).term_bytes(),
            final(self).capacity() == old(self).capacity(),
            final(self).fed_bytes() == old(self).fed_bytes() + chunk@,
            forall|k: int|
                0 <= k < found@.len() ==> spec_occurs_at(
                    final(self).fed_bytes(),
                    old(self).term_bytes(),
                    (#[trigger] found@[k].offset) as int,
                ) && found@[k].offset + old(self).term_bytes().len() > old(
                    self,
                ).fed_bytes().len() && found@[k].snippet@ == spec_snippet(
                    final(self).fed_bytes(),
                    found@[k].offset as int,
                    old(self).term_bytes().len() as int,
                ),
            forall|o: int|
                #[trigger] spec_occurs_at(old(self).fed_bytes() + chunk@, old(self).term_bytes(), o)
                    && o + old(self).term_bytes().len() > old(self).fed_bytes().len() ==> exists|
                    k: int,
                |
                    0 <= k < found@.len() && (#[trigger] found@[k].offset) == o,
            forall|k: int|
                0 <= k < found@.len() - 1 ==> (#[trigger] found@[k].offset) < found@[k + 1].offset,
    {
        let ghost oldfed = self.fed@;
        let ghost newfed = self.fed@ + chunk@;
        let tl = self.term.len();
        let cl = self.carry.len();

        // Assemble the window: carry bytes followed by the fresh chunk.
        let window = crate::text::concat_bytes(&self.carry, chunk);

        // The window is exactly the tail of the full stream from `base` on.
        let ghost base = oldfed.len() - self.carry@.len();
        proof {
            assert(window@ =~= newfed.subrange(base, newfed.len() as int));
        }

        // Only occurrences whose last byte lies in the fresh chunk are new;
        // those start at window index carry_len - term_len + 1 or later.
        let lo: usize = if tl <= cl {
            cl - tl + 1
        } else {
            0
        };
        let idxs = find_matches_from(&window, &self.term, lo);
        let base_exec: u64 = self.processed - (cl as u64);
        proof {
            assert forall|m: int| 0 <= m < idxs@.len() implies #[trigger] idxs@[m] + tl
                <= window@.len() by {
                assert(spec_occurs_at(window@, self.term@, idxs@[m] as int));
            }
        }
        let found = build_matches(&window, tl, &idxs, base_exec);

        // Slide the window: the new carry is the tail of the stream.
        if window.len() > self.cap {
            let start = window.len() - self.cap;
            self.carry = crate::text::suffix_bytes(&window, start);
        } else {
            self.carry = window;
        }
        self.processed = self.processed + (chunk.len() as u64);
        proof {
            self.fed@ = newfed;
        }

        // Re-establish well-formedness and the reported-offset contract.
        proof {
            assert(self.carry@ =~= self.fed@.subrange(
                self.fed@.len() - self.carry@.len(),
                self.fed@.len() as int,
            ));
            let offs = Seq::new(found@.len(), |m: int| found@[m].offset);
            lemma_feed_contract(newfed, self.term@, base, cl as int, lo as int, idxs@, offs);
            assert forall|k: int| 0 <= k < found@.len() implies spec_occurs_at(
                newfed,
                self.term@,
                (#[trigger] found@[k].offset) as int,
            ) && found@[k].offset + self.term@.len() > oldfed.len() && found@[k].snippet@
                == spec_snippet(newfed, found@[k].offset as int, self.term@.len() as int) by {
                assert(offs[k] == found@[k].offset);
                let wi = idxs@[k] as int;
                assert(found@[k].snippet@ == spec_snippet(window@, wi, tl as int));
                assert(spec_occurs_at(window@, self.term@, wi));
                lemma_snippet_shift(newfed, base, base + wi, tl as int);
            }
            assert forall|o: int|
                #[trigger] spec_occurs_at(newfed, self.term@, o) && o + self.term@.len()
                    > oldfed.len() implies exists|k: int|
                0 <= k < found@.len() && (#[trigger] found@[k].offset) == o by {
                assert(offs.contains(o as u64));
                let k = choose|k: int| 0 <= k < offs.len() && offs[k] == o as u64;
                assert(found@[k].offset == o);
            }
            assert forall|k: int| 0 <= k < found@.len() - 1 implies (#[trigger] found@[k].offset)
                < found@[k + 1].offset by {
                assert(offs[k] < offs[k + 1]);
            }
        }
        found
    }
}

/// Scan a whole buffer through the windowed scanner, feeding it fixed-size
/// chunks, and collect every reported offset.
///
/// For every carry capacity at least the term length and every chunk size,
/// the offsets reported by the windowed scan are exactly the offsets the
/// one-pass scan reports: every case-insensitive occurrence, each exactly
/// once, in increasing order, no matter where it falls relative to chunk
/// boundaries.
pub fn scan_chunks(data: &Vec<u8>, term: &Vec<u8>, cap: usize, step: usize) -> (r: Vec<u64>)
    requires
        1 <= term@.len() <= cap,
        1 <= step,
        data@.len() <= u64::MAX,
    ensures
        forall|k: int| 0 <= k < r@.len() ==> spec_occurs_at(data@, term@, r@[k] as int),
        forall|o: int| #[trigger] spec_occurs_at(data@, term@, o) ==> r@.contains(o as u64),
        forall|k: int| 0 <= k < r@.len() - 1 ==> #[trigger] r@[k] < r@[k + 1],
{
    let mut scanner = Scanner::new(term, cap);
    let mut r: Vec<u64> = Vec::new();
    let mut pos: usize = 0;
    while pos < data.len()
        invariant
            pos <= data@.len() <= u64::MAX,
            1 <= step,
            scanner.wf(),
            scanner.term_bytes() == term@,
            scanner.capacity() == cap,
            scanner.fed_bytes() == data@.subrange(0, pos as int),
            forall|k: int|
                0 <= k < r@.len() ==> spec_occurs_at(data@, term@, r@[k] as int) && r@[k]
                    + term@.len() <= pos,
            forall|o: int|
                #[trigger] spec_occurs_at(data@, term@, o) && o + term@.len() <= pos
                    ==> r@.contains(o as u64),
            forall|k: int| 0 <= k < r@.len() - 1 ==> #[trigger] r@[k] < r@[k + 1],
        decreases data@.len() - pos,
    {
        let stop: usize = if step <= data.len() - pos {
            pos + step
        } else {
            data.len()
        };
        let ghost take = stop - pos;
        let mut chunk: Vec<u8> = Vec::new();
        let mut q: usize = pos;
        while q < stop
            invariant
                pos <= q <= stop,
                stop <= data@.len(),
                chunk@ == data@.subrange(pos as int, q as int),
            decreases stop - q,
        {
            chunk.push(data[q]);
            proof {
                assert(chunk@ =~= data@.subrange(pos as int, q as int + 1));
            }
            q = q + 1;
        }
        let ghost oldpos = pos as int;
        let ghost oldr = r@;
        let found = scanner.feed(&chunk);
        proof {
            assert(scanner.fed_bytes() =~= data@.subrange(0, oldpos + take));
        }
        let mut t: usize = 0;
        while t < found.len()
            invariant
                t <= found@.len(),
                r@.len() == oldr.len() + t,
                forall|m: int| 0 <= m < oldr.len() ==> #[trigger] r@[m] == oldr[m],
                forall|m: int| 0 <= m < t ==> #[trigger] r@[oldr.len() + m] == found@[m].offset,
            decreases found@.len() - t,
        {
            let off = found[t].offset;
            r.push(off);
            t = t + 1;
        }
        proof {
            let prefix_new = data@.subrange(0, oldpos + take);
            let prefix_old = data@.subrange(0, oldpos);
            // Transfer per-chunk facts to facts about the whole buffer.
            assert(data@ =~= prefix_new + data@.subrange(oldpos + take, data@.len() as int));
            assert(prefix_new =~= prefix_old + chunk@);
            assert forall|k: int| 0 <= k < r@.len() implies spec_occurs_at(
                data@,
                term@,
                r@[k] as int,
            ) && r@[k] + term@.len() <= oldpos + take by {
                if k < oldr.len() {
                    assert(spec_occurs_at(data@, term@, r@[k] as int));
                } else {
                    let m = k - oldr.len();
                    assert(r@[oldr.len() + m] == found@[m].offset);
                    let o = r@[k] as int;
                    assert(spec_occurs_at(prefix_new, term@, found@[m].offset as int));
                    assert(spec_occurs_at(prefix_new, term@, o));
                    lemma_occurs_prefix_stable(
                        prefix_new,
                        data@.subrange(oldpos + take, data@.len() as int),
                        term@,
                        o,
                    );
                }
            }
            assert forall|o: int|
                #[trigger] spec_occurs_at(data@, term@, o) && o + term@.len() <= oldpos + take
                    implies r@.contains(o as u64) by {
                lemma_occurs_prefix_stable(
                    prefix_new,
                    data@.subrange(oldpos + take, data@.len() as int),
                    term@,
                    o,
                );
                assert(spec_occurs_at(prefix_new, term@, o));
                if o + term@.len() <= oldpos {
                    lemma_occurs_prefix_stable(prefix_old, chunk@, term@, o);
                    assert(spec_occurs_at(prefix_old, term@, o));
                    assert(oldr.contains(o as u64));
                    let m = choose|m: int| 0 <= m < oldr.len() && oldr[m] == o as u64;
                    assert(r@[m] == o as u64);
                } else {
                    let m = choose|m: int|
                        0 <= m < found@.len() && (#[trigger] found@[m].offset) == o;
                    assert(r@[oldr.len() + m] == o as u64);
                }
            }
            // Old entries end before the new chunk; new entries end inside
            // it, so the concatenation stays strictly increasing.
            assert forall|k: int| 0 <= k < r@.len() - 1 implies #[trigger] r@[k] < r@[k + 1] by {
                if k + 1 < oldr.len() {
                    assert(r@[k] == oldr[k] && r@[k + 1] == oldr[k + 1]);
                    assert(oldr[k] < oldr[k + 1]);
                } else if k >= oldr.len() {
                    let m = k - oldr.len();
                    assert(r@[oldr.len() + m] == found@[m].offset);
                    assert(r@[oldr.len() + (m + 1)] == found@[m + 1].offset);
                    assert(found@[m].offset < found@[m + 1].offset);
                } else {
                    // Last old entry against first new entry.
                    assert(r@[k] == oldr[k]);
                    let z: int = 0;
                    assert(r@[oldr.len() + z] == found@[z].offset);
                    assert(oldr[k] + term@.len() <= oldpos);
                    assert(found@[0].offset + term@.len() > oldpos);
                }
            }
        }
        pos = stop;
    }
    proof {
        assert(data@.subrange(0, data@.len() as int) =~= data@);
    }
    r
}

/// Scanning a file in one pass and scanning it through the windowed
/// algorithm yield identical offset sets: any two reports that are sound and
/// complete for the same haystack and term hold exactly the same offsets,
/// wherever the occurrences fall relative to window boundaries.
pub proof fn lemma_match_offsets_unique(r1: Seq<u64>, r2: Seq<u64>, hay: Seq<u8>, term: Seq<u8>)
    requires
        forall|k: int| 0 <= k < r1.len() ==> spec_occurs_at(hay, term, (#[trigger] r1[k]) as int),
        forall|o: int| #[trigger] spec_occurs_at(hay, term, o) ==> r1.contains(o as u64),
        forall|k: int| 0 <= k < r2.len() ==> spec_occurs_at(hay, term, (#[trigger] r2[k]) as int),
        forall|o: int| #[trigger] spec_occurs_at(hay, term, o) ==> r2.contains(o as u64),
    ensures
        forall|x: u64| r1.contains(x) <==> r2.contains(x),
{
    assert forall|x: u64| r1.contains(x) implies r2.contains(x) by {
        let k = choose|k: int| 0 <= k < r1.len() && r1[k] == x;
        assert(spec_occurs_at(hay, term, r1[k] as int));
    }
    assert forall|x: u64| r2.contains(x) implies r1.contains(x) by {
        let k = choose|k: int| 0 <= k < r2.len() && r2[k] == x;
        assert(spec_occurs_at(hay, term, r2[k] as int));
    }
}

/// The snippet reported with a match: the window bytes from the occurrence
/// start through the term plus a fixed amount of trailing context, clipped
/// to the window, with line breaks stripped.
pub const SNIPPET_CONTEXT: usize = 10;

/// The snippet for an occurrence at `start` in `window`.
pub open spec fn spec_snippet(window: Seq<u8>, start: int, term_len: int) -> Seq<u8>
    recommends
        0 <= start,
        0 <= term_len,
        start + term_len <= window.len(),
{
    let end = if start + term_len + SNIPPET_CONTEXT <= window.len() {
        start + term_len + SNIPPET_CONTEXT
    } else {
        window.len() as int
    };
    spec_strip_crlf(window.subrange(start, end))
}

/// Cut the snippet for an occurrence out of the window.
pub fn snippet_at(window: &Vec<u8>, start: usize, term_len: usize) -> (r: Vec<u8>)
    requires
        start + term_len <= window@.len(),
    ensures
        r@ == spec_snippet(window@, start as int, term_len as int),
{
    let rest = window.len() - start - term_len;
    let end: usize = if rest >= SNIPPET_CONTEXT {
        start + term_len + SNIPPET_CONTEXT
    } else {
        window.len()
    };
    let mut piece: Vec<u8> = Vec::new();
    let mut i: usize = start;
    while i < end
        invariant
            start <= i <= end,
            end <= window@.len(),
            piece@ == window@.subrange(start as int, i as int),
        decreases end - i,
    {
        piece.push(window[i]);
        proof {
            assert(piece@ =~= window@.subrange(start as int, i as int + 1));
        }
        i = i + 1;
    }
    strip_crlf(&piece)
}

} // verus!
