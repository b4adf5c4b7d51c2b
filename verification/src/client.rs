//! The client's view of a running search: one record per announced file,
//! the occurrences reported so far, and an aggregate progress string with
//! five decimal places.  The interactive shell renders this state; the
//! bookkeeping itself is kept here.

use vstd::prelude::*;

use vstd::seq_lib::group_to_multiset_ensures;
use vstd::multiset::{group_multiset_axioms, Multiset};
use vstd::string::StringExecFns;

use crate::progress::spec_progress_scaled;

verus! {

/// What the client knows about one file of the corpus.
pub struct FileState {
    /// The file's name as announced by the server.
    pub name: String,
    /// The file's size in bytes as announced, zero until known.
    pub size: u64,
    /// How many bytes of it the server reported as read.
    pub bytes_read: u64,
    /// One line per reported match: offset and snippet.
    pub occurrences: Vec<String>,
}

/// The client's state for one search session.
pub struct SearchState {
    /// The aggregate progress over all files, rendered with five decimal
    /// places.
    pub progress: String,
    /// The files announced so far, in announcement order unless sorted.
    pub files: Vec<FileState>,
    /// How many lines the last redraw used; owned by the display code.
    pub last_update_lines: u32,
}

/// The decimal digit characters.
pub open spec fn spec_digit_char(d: nat) -> char {
    if d == 0 {
        '0'
    } else if d == 1 {
        '1'
    } else if d == 2 {
        '2'
    } else if d == 3 {
        '3'
    } else if d == 4 {
        '4'
    } else if d == 5 {
        '5'
    } else if d == 6 {
        '6'
    } else if d == 7 {
        '7'
    } else if d == 8 {
        '8'
    } else {
        '9'
    }
}

/// The decimal representation of a value as characters, most significant
/// digit first.
pub open spec fn spec_dec_chars(n: nat) -> Seq<char>
    decreases n,
{
    if n < 10 {
        seq![spec_digit_char(n)]
    } else {
        spec_dec_chars(n / 10).push(spec_digit_char(n % 10))
    }
}

/// The decimal representation of a value as characters, zero-padded to a
/// fixed width, keeping only the lowest `w` digits.
pub open spec fn spec_dec_pad_chars(n: nat, w: nat) -> Seq<char>
    decreases w,
{
    if w == 0 {
        Seq::empty()
    } else {
        spec_dec_pad_chars(n / 10, (w - 1) as nat).push(spec_digit_char(n % 10))
    }
}

/// One decimal digit as a string slice.
fn digit_str(d: u64) -> (r: &'static str)
    requires
        d < 10,
    ensures
        r@ == seq![spec_digit_char(d as nat)],
{
    if d == 0 {
        proof {
            reveal_strlit("0");
            assert("0"@ =~= seq![spec_digit_char(0)]);
        }
        "0"
    } else if d == 1 {
        proof {
            reveal_strlit("1");
            assert("1"@ =~= seq![spec_digit_char(1)]);
        }
        "1"
    } else if d == 2 {
        proof {
            reveal_strlit("2");
            assert("2"@ =~= seq![spec_digit_char(2)]);
        }
        "2"
    } else if d == 3 {
        proof {
            reveal_strlit("3");
            assert("3"@ =~= seq![spec_digit_char(3)]);
        }
        "3"
    } else if d == 4 {
        proof {
            reveal_strlit("4");
            assert("4"@ =~= seq![spec_digit_char(4)]);
        }
        "4"
    } else if d == 5 {
        proof {
            reveal_strlit("5");
            assert("5"@ =~= seq![spec_digit_char(5)]);
        }
        "5"
    } else if d == 6 {
        proof {
            reveal_strlit("6");
            assert("6"@ =~= seq![spec_digit_char(6)]);
        }
        "6"
    } else if d == 7 {
        proof {
            reveal_strlit("7");
            assert("7"@ =~= seq![spec_digit_char(7)]);
        }
        "7"
    } else if d == 8 {
        proof {
            reveal_strlit("8");
            assert("8"@ =~= seq![spec_digit_char(8)]);
        }
        "8"
    } else {
        proof {
            reveal_strlit("9");
            assert("9"@ =~= seq![spec_digit_char(9)]);
        }
        "9"
    }
}

/// Render a counter in decimal as a string.
pub fn u64_to_string(n: u64) -> (s: String)
    ensures
        s@ == spec_dec_chars(n as nat),
    decreases n,
{
    if n < 10 {
        digit_str(n).to_owned()
    } else {
        let mut s = u64_to_string(n / 10);
        s.append(digit_str(n % 10));
        s
    }
}

/// Render a counter in decimal, zero-padded to a fixed width.
fn u64_to_string_pad(n: u64, w: usize) -> (s: String)
    ensures
        s@ == spec_dec_pad_chars(n as nat, w as nat),
    decreases w,
{
    if w == 0 {
        let s = String::new();
        proof {
            assert(s@ =~= spec_dec_pad_chars(n as nat, 0));
        }
        s
    } else {
        let mut s = u64_to_string_pad(n / 10, w - 1);
        s.append(digit_str(n % 10));
        s
    }
}

/// The sum of the announced sizes of all files.
pub open spec fn spec_total_size(files: Seq<FileState>) -> int
    decreases files.len(),
{
    if files.len() == 0 {
        0
    } else {
        spec_total_size(files.drop_last()) + files.last().size
    }
}

/// The sum of the reported read counts of all files.
pub open spec fn spec_total_read(files: Seq<FileState>) -> int
    decreases files.len(),
{
    if files.len() == 0 {
        0
    } else {
        spec_total_read(files.drop_last()) + files.last().bytes_read
    }
}

/// Both sums are sums of unsigned counters: never negative, and never less
/// than the sum over a prefix of the files.
pub proof fn lemma_sums_prefix(files: Seq<FileState>, i: int)
    requires
        0 <= i <= files.len(),
    ensures
        0 <= spec_total_size(files.subrange(0, i)) <= spec_total_size(files),
        0 <= spec_total_read(files.subrange(0, i)) <= spec_total_read(files),
    decreases files.len(),
{
    if files.len() == 0 {
        assert(files.subrange(0, 0) =~= files);
    } else if i == files.len() {
        assert(files.subrange(0, i) =~= files);
        lemma_sums_prefix(files.drop_last(), files.len() - 1);
        assert(files.drop_last().subrange(0, files.len() - 1) =~= files.drop_last());
    } else {
        assert(files.drop_last().subrange(0, i) =~= files.subrange(0, i));
        lemma_sums_prefix(files.drop_last(), i);
    }
}

/// The progress string for a given read count and total: the percentage
/// with five decimal places, clamped to one hundred percent, and zero when
/// no sizes are known yet.
pub open spec fn spec_progress_chars(read: int, total: int) -> Seq<char> {
    if total <= 0 {
        seq!['0', '.', '0', '0', '0', '0', '0']
    } else {
        let done = if read <= total {
            read
        } else {
            total
        };
        let scaled = spec_progress_scaled(done, total);
        spec_dec_chars((scaled / 100000) as nat) + seq!['.'] + spec_dec_pad_chars(
            (scaled % 100000) as nat,
            5,
        )
    }
}

/// The first file record carrying a name, or a negative position when no
/// record does.
pub open spec fn spec_first_match(files: Seq<FileState>, name: Seq<char>) -> int
    decreases files.len(),
{
    if files.len() == 0 {
        -1
    } else if files[0].name@ == name {
        0
    } else {
        let r = spec_first_match(files.drop_first(), name);
        if r < 0 {
            -1
        } else {
            r + 1
        }
    }
}

proof fn lemma_first_match_at(files: Seq<FileState>, name: Seq<char>, i: int)
    requires
        0 <= i < files.len(),
        files[i].name@ == name,
        forall|j: int| 0 <= j < i ==> (#[trigger] files[j].name@) != name,
    ensures
        spec_first_match(files, name) == i,
    decreases files.len(),
{
    if i > 0 {
        lemma_first_match_at(files.drop_first(), name, i - 1);
    }
}

proof fn lemma_first_match_none(files: Seq<FileState>, name: Seq<char>)
    requires
        forall|j: int| 0 <= j < files.len() ==> (#[trigger] files[j].name@) != name,
    ensures
        spec_first_match(files, name) == -1,
    decreases files.len(),
{
    if files.len() > 0 {
        lemma_first_match_none(files.drop_first(), name);
    }
}

/// The separator between an occurrence's offset and its snippet.
pub open spec fn spec_occ_sep() -> Seq<char> {
    seq![' ', '-', ' ']
}

impl SearchState {
    /// A fresh search: no files, zero progress, nothing drawn yet.
    pub fn new() -> (s: Self)
        ensures
            s.files@ == Seq::<FileState>::empty(),
            s.progress@ == seq!['0', '.', '0'],
            s.last_update_lines == 0,
    {
        let progress = {
            proof {
                reveal_strlit("0.0");
                assert("0.0"@ =~= seq!['0', '.', '0']);
            }
            String::from_str("0.0")
        };
        SearchState { files: Vec::new(), progress, last_update_lines: 0 }
    }

    /// Recompute the aggregate progress string from the per-file counters:
    /// total bytes read over total size, as a percentage with five decimal
    /// places, never past one hundred percent.  The totals must fit the
    /// machine's counters, as they do when they were summed from real files.
    pub fn update_progress(&mut self)
        requires
            spec_total_size(old(self).files@) <= u64::MAX as int,
            spec_total_read(old(self).files@) <= u64::MAX as int,
        ensures
            final(self).files == old(self).files,
            final(self).last_update_lines == old(self).last_update_lines,
            final(self).progress@ == spec_progress_chars(
                spec_total_read(old(self).files@),
                spec_total_size(old(self).files@),
            ),
    {
        let mut total_size: u64 = 0;
        let mut total_read: u64 = 0;
        let mut i: usize = 0;
        while i < self.files.len()
            invariant
                i <= self.files@.len(),
                *self == *old(self),
                spec_total_size(self.files@) <= u64::MAX as int,
                spec_total_read(self.files@) <= u64::MAX as int,
                total_size == spec_total_size(self.files@.subrange(0, i as int)),
                total_read == spec_total_read(self.files@.subrange(0, i as int)),
            decreases self.files@.len() - i,
        {
            proof {
                lemma_sums_prefix(self.files@, i as int + 1);
                assert(self.files@.subrange(0, i as int + 1).drop_last() =~= self.files@.subrange(
                    0,
                    i as int,
                ));
                assert(self.files@.subrange(0, i as int + 1).last() == self.files@[i as int]);
            }
            total_size = total_size + self.files[i].size;
            total_read = total_read + self.files[i].bytes_read;
            i = i + 1;
        }
        proof {
            assert(self.files@.subrange(0, self.files@.len() as int) =~= self.files@);
        }
        if total_size == 0 {
            let p = {
                proof {
                    reveal_strlit("0.00000");
                    assert("0.00000"@ =~= seq!['0', '.', '0', '0', '0', '0', '0']);
                }
                String::from_str("0.00000")
            };
            self.progress = p;
        } else {
            let done: u64 = if total_read <= total_size {
                total_read
            } else {
                total_size
            };
            let scaled: u64 = crate::progress::progress_scaled(done, total_size);
            let mut p = u64_to_string(scaled / 100000);
            p.append(".");
            proof {
                reveal_strlit(".");
                assert("."@ =~= seq!['.']);
            }
            let frac = u64_to_string_pad(scaled % 100000, 5);
            p.append(frac.as_str());
            self.progress = p;
        }
    }

    /// Append one reported occurrence, rendered as "offset - snippet", to
    /// the first file record carrying the reported name; without such a
    /// record the report is dropped, as the shell never announced the file.
    pub fn add_occurrence(&mut self, file_name: &str, occurrence: &str, snippet: &str)
        ensures
            ({
                let i = spec_first_match(old(self).files@, file_name@);
                let fs = final(self).files@;
                let os = old(self).files@;
                if i < 0 {
                    *final(self) == *old(self)
                } else {
                    &&& fs.len() == os.len()
                    &&& forall|j: int| 0 <= j < os.len() && j != i ==> fs[j] == os[j]
                    &&& fs[i].name == os[i].name
                    &&& fs[i].size == os[i].size
                    &&& fs[i].bytes_read == os[i].bytes_read
                    &&& fs[i].occurrences@.len() == os[i].occurrences@.len() + 1
                    &&& forall|k: int|
                        0 <= k < os[i].occurrences@.len() ==> fs[i].occurrences@[k]
                            == os[i].occurrences@[k]
                    &&& fs[i].occurrences@.last()@ == occurrence@ + spec_occ_sep() + snippet@
                    &&& final(self).progress == old(self).progress
                    &&& final(self).last_update_lines == old(self).last_update_lines
                }
            }),
    {
        let key: String = file_name.to_owned();
        let mut i: usize = 0;
        while i < self.files.len()
            invariant
                i <= self.files@.len(),
                key@ == file_name@,
                *self == *old(self),
                forall|j: int| 0 <= j < i ==> (#[trigger] self.files@[j].name@) != file_name@,
            decreases self.files@.len() - i,
        {
            if self.files[i].name == key {
                proof {
                    lemma_first_match_at(self.files@, file_name@, i as int);
                }
                let mut line = occurrence.to_owned();
                line.append(" - ");
                line.append(snippet);
                proof {
                    reveal_strlit(" - ");
                    assert(" - "@ =~= spec_occ_sep());
                }
                let ghost linev = line@;
                let ghost oldocc = self.files@[i as int].occurrences@;
                self.files[i].occurrences.push(line);
                proof {
                    assert(self.files@[i as int].occurrences@.last()@ == linev);
                    assert(self.files@[i as int].occurrences@.drop_last() =~= oldocc);
                }
                return ;
            }
            i = i + 1;
        }
        proof {
            lemma_first_match_none(self.files@, file_name@);
        }
    }

    /// Order the file records by how many occurrences each holds, most
    /// first, keeping exactly the same records.
    pub fn sort_occ(&mut self)
        ensures
            final(self).files@.to_multiset() == old(self).files@.to_multiset(),
            forall|k: int|
                #![trigger final(self).files@[k]]
                0 <= k < final(self).files@.len() - 1 ==> final(self).files@[k].occurrences@.len()
                    >= final(self).files@[k + 1].occurrences@.len(),
            final(self).progress == old(self).progress,
            final(self).last_update_lines == old(self).last_update_lines,
    {
        broadcast use group_to_multiset_ensures;
        broadcast use group_multiset_axioms;

        let mut sorted: Vec<FileState> = Vec::new();
        while self.files.len() > 0
            invariant
                sorted@.to_multiset().add(self.files@.to_multiset()) == old(self).files@.to_multiset(),
                forall|k: int|
                    0 <= k < sorted@.len() - 1 ==> (#[trigger] sorted@[k].occurrences@.len())
                        >= sorted@[k + 1].occurrences@.len(),
                forall|p: int, q: int|
                    0 <= p < sorted@.len() && 0 <= q < self.files@.len() ==> (#[trigger] sorted@[
                    p].occurrences@.len()) >= (#[trigger] self.files@[q].occurrences@.len()),
                self.progress == old(self).progress,
                self.last_update_lines == old(self).last_update_lines,
            decreases self.files@.len(),
        {
            let mut m: usize = 0;
            let mut j: usize = 1;
            while j < self.files.len()
                invariant
                    m < j <= self.files@.len() || (j <= self.files@.len() && m == 0),
                    m < self.files@.len(),
                    forall|k: int|
                        0 <= k < j ==> (#[trigger] self.files@[k].occurrences@.len())
                            <= self.files@[m as int].occurrences@.len(),
                decreases self.files@.len() - j,
            {
                if self.files[j].occurrences.len() > self.files[m].occurrences.len() {
                    m = j;
                }
                j = j + 1;
            }
            let ghost oldfiles = self.files@;
            let ghost oldsorted = sorted@;
            let f = self.files.remove(m);
            let ghost fv = f;
            sorted.push(f);
            proof {
                assert(sorted@ == oldsorted.push(fv));
                assert(self.files@ == oldfiles.remove(m as int));
                broadcast use group_multiset_axioms;

                vstd::seq_lib::to_multiset_build(oldsorted, fv);
                vstd::seq_lib::to_multiset_remove(oldfiles, m as int);
                oldfiles.to_multiset_ensures();
                assert(oldfiles.contains(fv));
                assert(oldfiles.to_multiset().contains(fv));
                assert(sorted@.to_multiset().add(self.files@.to_multiset()) =~= oldsorted.to_multiset().add(
                    oldfiles.to_multiset(),
                ));
                assert forall|p: int, q: int|
                    0 <= p < sorted@.len() && 0 <= q < self.files@.len() implies (
                #[trigger] sorted@[p].occurrences@.len()) >= (
                #[trigger] self.files@[q].occurrences@.len()) by {
                    if q < m {
                        assert(self.files@[q] == oldfiles[q]);
                    } else {
                        assert(self.files@[q] == oldfiles[q + 1]);
                    }
                    if p < oldsorted.len() {
                        assert(sorted@[p] == oldsorted[p]);
                    } else {
                        assert(sorted@[p] == fv);
                    }
                }
            }
        }
        proof {
            assert(self.files@.to_multiset() =~= Multiset::<FileState>::empty());
            assert(sorted@.to_multiset().add(Multiset::<FileState>::empty())
                =~= sorted@.to_multiset());
        }
        self.files = sorted;
    }
}

} // verus!
