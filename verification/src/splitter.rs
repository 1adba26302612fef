//! The splitting logic itself: fixed-width key extraction from each
//! line, the session state that reuses directories and writers across
//! consecutive lines with equal keys, and a model of the output tree —
//! the content every file holds after the lines are dispatched in order.
//!
//! Dispatching is planned here and performed by the caller: each
//! accepted line yields a [`LinePlan`] saying which directory to ensure,
//! whether the open writer is kept (then the separator precedes the
//! payload) or flushed, closed and replaced, and what to write. Files
//! are opened in append mode, so a key that reappears after other keys
//! receives its payload without a separator boundary from its earlier
//! run — intentional behaviour under the sorted-input assumption, kept
//! as such on unsorted input.

use vstd::prelude::*;
use vstd::string::StrSliceExecFns;
use crate::text::str_eq;

verus! {

/// Errors of the splitting logic.
#[derive(Debug, Clone, Copy, PartialEq, Eq, Structural)]
pub enum SplitError {
    /// A line shorter than the two key lengths together.
    MalformedLine,
    /// The target base directory already holds an entry.
    TargetNotEmpty,
}

/// Whether `line` is long enough to carry both keys.
pub open spec fn line_ok(line: Seq<char>, d: nat, f: nat) -> bool {
    line.len() >= d + f
}

/// The directory key: the first `d` characters of the line.
pub open spec fn dir_key_of(line: Seq<char>, d: nat) -> Seq<char> {
    line.take(d as int)
}

/// The file key: the `f` characters after the directory key.
pub open spec fn file_key_of(line: Seq<char>, d: nat, f: nat) -> Seq<char> {
    line.subrange(d as int, (d + f) as int)
}

/// The payload: everything after the two keys, written verbatim.
pub open spec fn payload_of(line: Seq<char>, d: nat, f: nat) -> Seq<char> {
    line.subrange((d + f) as int, line.len() as int)
}

/// The pair of keys that selects the output file of a line.
pub open spec fn key_of(line: Seq<char>, d: nat, f: nat) -> (Seq<char>, Seq<char>) {
    (dir_key_of(line, d), file_key_of(line, d, f))
}

/// Whether the line at `i` directly continues the run of its
/// predecessor: both carry the same keys, so the writer is reused and a
/// separator precedes the payload.
pub open spec fn continues_run(lines: Seq<Seq<char>>, i: int, d: nat, f: nat) -> bool {
    0 < i < lines.len() && key_of(lines[i], d, f) == key_of(lines[i - 1], d, f)
}

/// The content of every output file after the lines are dispatched in
/// order: each payload is appended to the file selected by its line's
/// keys, preceded by the separator exactly when the line directly
/// continues a run of the same keys.
pub open spec fn tree_after(lines: Seq<Seq<char>>, d: nat, f: nat, eol: Seq<char>) -> Map<
    (Seq<char>, Seq<char>),
    Seq<char>,
>
    decreases lines.len(),
{
    if lines.len() == 0 {
        Map::empty()
    } else {
        let prev = tree_after(lines.drop_last(), d, f, eol);
        let key = key_of(lines.last(), d, f);
        let before = if prev.dom().contains(key) {
            prev[key]
        } else {
            Seq::<char>::empty()
        };
        let sep = if continues_run(lines, lines.len() - 1, d, f) {
            eol
        } else {
            Seq::<char>::empty()
        };
        prev.insert(key, before + sep + payload_of(lines.last(), d, f))
    }
}

/// The distinct keys of `lines`, in order of first appearance.
pub open spec fn key_order(lines: Seq<Seq<char>>, d: nat, f: nat) -> Seq<(Seq<char>, Seq<char>)>
    decreases lines.len(),
{
    if lines.len() == 0 {
        Seq::empty()
    } else {
        let prev = key_order(lines.drop_last(), d, f);
        let key = key_of(lines.last(), d, f);
        if prev.contains(key) {
            prev
        } else {
            prev.push(key)
        }
    }
}

/// One planned dispatch: where the payload goes and how the currently
/// open writer is handled.
#[derive(Debug)]
pub struct LinePlan {
    /// The directory key: the name of the directory under the base.
    pub dir_name: String,
    /// The file key: the stem of the `.txt` file in that directory.
    pub file_stem: String,
    /// The characters to write, after the separator if one is due.
    pub payload: String,
    /// Ensure the directory exists (a no-op if it does) before opening.
    pub make_dir: bool,
    /// Flush and close the open writer before opening the new file.
    pub close_previous: bool,
    /// Keep the open writer and write the separator before the payload.
    pub reuse_writer: bool,
}

/// The session state of one run: the keys of the last dispatched line
/// (absent before the first), the fixed key lengths and separator, and,
/// for specification, the lines dispatched so far.
pub struct Splitter {
    /// The directory key length in characters.
    pub dir_len: usize,
    /// The file key length in characters.
    pub file_len: usize,
    /// The separator written between payloads of one run.
    pub eol: String,
    /// The directory key of the last dispatched line.
    pub current_dir: Option<String>,
    /// The file key of the last dispatched line.
    pub current_file: Option<String>,
    /// The lines dispatched so far, for specification only.
    pub history: Ghost<Seq<Seq<char>>>,
}

impl Splitter {
    /// The directory key length.
    pub open spec fn d(self) -> nat {
        self.dir_len as nat
    }

    /// The file key length.
    pub open spec fn f(self) -> nat {
        self.file_len as nat
    }

    /// The separator written between payloads of one run.
    pub open spec fn sep(self) -> Seq<char> {
        self.eol@
    }

    /// The lines dispatched so far, in order.
    pub open spec fn lines(self) -> Seq<Seq<char>> {
        self.history@
    }

    /// The content of every output file written so far in this run.
    pub open spec fn files(self) -> Map<(Seq<char>, Seq<char>), Seq<char>> {
        tree_after(self.history@, self.d(), self.f(), self.sep())
    }

    /// Well-formedness: the key lengths fit together in a `usize`,
    /// every dispatched line was long enough, and the current keys are
    /// exactly those of the last dispatched line, absent before the
    /// first.
    pub open spec fn wf(self) -> bool {
        &&& self.dir_len + self.file_len <= usize::MAX
        &&& forall|i: int|
            0 <= i < self.history@.len() ==> line_ok(#[trigger] self.history@[i], self.d(), self.f())
        &&& if self.history@.len() == 0 {
            self.current_dir is None && self.current_file is None
        } else {
            &&& self.current_dir matches Some(cd) && cd@ == dir_key_of(
                self.history@.last(),
                self.d(),
            )
            &&& self.current_file matches Some(cf) && cf@ == file_key_of(
                self.history@.last(),
                self.d(),
                self.f(),
            )
        }
    }

    /// A fresh session: no current keys, no open writer, nothing
    /// dispatched yet.
    pub fn new(dir_len: usize, file_len: usize, eol: &str) -> (r: Splitter)
        requires
            dir_len + file_len <= usize::MAX,
        ensures
            r.wf(),
            r.lines() == Seq::<Seq<char>>::empty(),
            r.d() == dir_len,
            r.f() == file_len,
            r.sep() == eol@,
    {
        Splitter {
            dir_len,
            file_len,
            eol: eol.to_owned(),
            current_dir: None,
            current_file: None,
            history: Ghost(Seq::empty()),
        }
    }

    /// Plans the dispatch of one line. A line shorter than the two key
    /// lengths together is rejected and leaves the session unchanged;
    /// an accepted line yields the plan for its payload and becomes the
    /// session's current line.
    pub fn step(&mut self, line: &str) -> (r: Result<LinePlan, SplitError>)
        requires
            old(self).wf(),
        ensures
            final(self).wf(),
            final(self).d() == old(self).d(),
            final(self).f() == old(self).f(),
            final(self).sep() == old(self).sep(),
            r is Ok <==> line_ok(line@, old(self).d(), old(self).f()),
            r matches Err(e) ==> e == SplitError::MalformedLine && *final(self) == *old(self),
            r matches Ok(plan) ==> {
                let d = old(self).d();
                let f = old(self).f();
                let key = key_of(line@, d, f);
                let was_open = old(self).lines().len() > 0;
                &&& plan.dir_name@ == dir_key_of(line@, d)
                &&& plan.file_stem@ == file_key_of(line@, d, f)
                &&& plan.payload@ == payload_of(line@, d, f)
                &&& plan.reuse_writer == (was_open && key_of(old(self).lines().last(), d, f)
                    == key)
                &&& plan.make_dir == !(was_open && dir_key_of(old(self).lines().last(), d)
                    == key.0)
                &&& plan.close_previous == (was_open && !plan.reuse_writer)
                &&& final(self).lines() == old(self).lines().push(line@)
                &&& final(self).files() == ({
                    let before = if old(self).files().dom().contains(key) {
                        old(self).files()[key]
                    } else {
                        Seq::<char>::empty()
                    };
                    let sep = if plan.reuse_writer {
                        old(self).sep()
                    } else {
                        Seq::<char>::empty()
                    };
                    old(self).files().insert(key, before + sep + plan.payload@)
                })
            },
    {
        let d = self.dir_len;
        let f = self.file_len;
        let needed = d + f;
        let n = line.unicode_len();
        if n < needed {
            return Err(SplitError::MalformedLine);
        }
        let dir_name = line.substring_char(0, d).to_owned();
        let file_stem = line.substring_char(d, needed).to_owned();
        let payload = line.substring_char(needed, n).to_owned();
        let same_dir = match &self.current_dir {
            Some(cd) => str_eq(cd.as_str(), dir_name.as_str()),
            None => false,
        };
        let same_file = same_dir && match &self.current_file {
            Some(cf) => str_eq(cf.as_str(), file_stem.as_str()),
            None => false,
        };
        let was_open = self.current_dir.is_some();
        let plan = LinePlan {
            dir_name: dir_name.clone(),
            file_stem: file_stem.clone(),
            payload,
            make_dir: !same_dir,
            close_previous: was_open && !same_file,
            reuse_writer: same_file,
        };
        proof {
            lemma_tree_push(self.history@, line@, d as nat, f as nat, self.eol@);
        }
        self.history = Ghost(self.history@.push(line@));
        self.current_dir = Some(dir_name);
        self.current_file = Some(file_stem);
        Ok(plan)
    }
}

/// Dispatching one more line updates the output tree at that line's key
/// alone: its payload is appended to what the file held, preceded by
/// the separator exactly when the previous line carried the same key.
pub proof fn lemma_tree_push(lines: Seq<Seq<char>>, line: Seq<char>, d: nat, f: nat, eol: Seq<char>)
    ensures
        ({
            let t = tree_after(lines, d, f, eol);
            let key = key_of(line, d, f);
            let before = if t.dom().contains(key) {
                t[key]
            } else {
                Seq::<char>::empty()
            };
            let sep = if lines.len() > 0 && key_of(lines.last(), d, f) == key {
                eol
            } else {
                Seq::<char>::empty()
            };
            tree_after(lines.push(line), d, f, eol) == t.insert(
                key,
                before + sep + payload_of(line, d, f),
            )
        }),
{
    let ls = lines.push(line);
    assert(ls.drop_last() =~= lines);
    assert(ls.last() == line);
    if lines.len() > 0 {
        assert(ls[ls.len() - 2] == lines.last());
    }
}

/// Decides the precondition on the target base directory: a base that
/// already holds an entry is rejected, before any input is read.
pub fn check_target_empty(has_entry: bool) -> (r: Result<(), SplitError>)
    ensures
        r is Ok <==> !has_entry,
        r matches Err(e) ==> e == SplitError::TargetNotEmpty,
{
    if has_entry {
        Err(SplitError::TargetNotEmpty)
    } else {
        Ok(())
    }
}

/// A sequence extended by one element contains exactly its old
/// elements and the new one.
proof fn lemma_contains_push<A>(s: Seq<A>, x: A, y: A)
    ensures
        s.push(x).contains(y) <==> s.contains(y) || x == y,
{
    assert(s.push(x)[s.len() as int] == x);
    if s.contains(y) {
        let i = choose|i: int| 0 <= i < s.len() && s[i] == y;
        assert(s.push(x)[i] == y);
    }
    if s.push(x).contains(y) {
        let i = choose|i: int| 0 <= i < s.push(x).len() && s.push(x)[i] == y;
        if i < s.len() {
            assert(s[i] == y);
        }
    }
}

/// Dispatching one more line extends the key order by that line's key
/// exactly when the key is new.
pub proof fn lemma_key_order_push(lines: Seq<Seq<char>>, line: Seq<char>, d: nat, f: nat)
    ensures
        ({
            let prev = key_order(lines, d, f);
            let key = key_of(line, d, f);
            key_order(lines.push(line), d, f) == if prev.contains(key) {
                prev
            } else {
                prev.push(key)
            }
        }),
{
    assert(lines.push(line).drop_last() =~= lines);
    assert(lines.push(line).last() == line);
}

/// A file stands in the output tree exactly when its key stands in the
/// key order.
pub proof fn lemma_tree_dom(
    lines: Seq<Seq<char>>,
    d: nat,
    f: nat,
    eol: Seq<char>,
    k: (Seq<char>, Seq<char>),
)
    ensures
        tree_after(lines, d, f, eol).dom().contains(k) <==> key_order(lines, d, f).contains(k),
    decreases lines.len(),
{
    if lines.len() != 0 {
        lemma_tree_dom(lines.drop_last(), d, f, eol, k);
        let pko = key_order(lines.drop_last(), d, f);
        let key = key_of(lines.last(), d, f);
        lemma_contains_push(pko, key, k);
    }
}

/// The key order never repeats a key.
pub proof fn lemma_key_order_distinct(lines: Seq<Seq<char>>, d: nat, f: nat)
    ensures
        forall|m: int, m2: int|
            #![trigger key_order(lines, d, f)[m], key_order(lines, d, f)[m2]]
            0 <= m < m2 < key_order(lines, d, f).len() ==> key_order(lines, d, f)[m] != key_order(
                lines,
                d,
                f,
            )[m2],
    decreases lines.len(),
{
    if lines.len() != 0 {
        lemma_key_order_distinct(lines.drop_last(), d, f);
        let pko = key_order(lines.drop_last(), d, f);
        let key = key_of(lines.last(), d, f);
        let ko = key_order(lines, d, f);
        if !pko.contains(key) {
            assert forall|m: int, m2: int| 0 <= m < m2 < ko.len() implies ko[m] != ko[m2] by {
                if m2 == pko.len() {
                    if pko[m] == key {
                        assert(pko.contains(key));
                    }
                }
            }
        }
    }
}

/// A key stands in the key order exactly when some line carries it.
pub proof fn lemma_key_order_complete(
    lines: Seq<Seq<char>>,
    d: nat,
    f: nat,
    k: (Seq<char>, Seq<char>),
)
    ensures
        key_order(lines, d, f).contains(k) <==> exists|i: int|
            0 <= i < lines.len() && key_of(#[trigger] lines[i], d, f) == k,
    decreases lines.len(),
{
    if lines.len() != 0 {
        let prev = lines.drop_last();
        lemma_key_order_complete(prev, d, f, k);
        let pko = key_order(prev, d, f);
        let key = key_of(lines.last(), d, f);
        lemma_contains_push(pko, key, k);
        if exists|i: int| 0 <= i < prev.len() && key_of(#[trigger] prev[i], d, f) == k {
            let i = choose|i: int| 0 <= i < prev.len() && key_of(#[trigger] prev[i], d, f) == k;
            assert(lines[i] == prev[i]);
            assert(key_of(lines[i], d, f) == k);
        }
        if k == key {
            assert(key_of(lines[lines.len() - 1], d, f) == k);
        }
        if exists|i: int| 0 <= i < lines.len() && key_of(#[trigger] lines[i], d, f) == k {
            let i = choose|i: int| 0 <= i < lines.len() && key_of(#[trigger] lines[i], d, f) == k;
            if i < prev.len() {
                assert(prev[i] == lines[i]);
                assert(key_of(prev[i], d, f) == k);
            }
        }
    }
}

/// The payloads of `lines` joined by the separator: `payload_1 + sep +
/// payload_2 + ... + payload_N`, with no leading and no trailing
/// separator.
pub open spec fn joined_payloads(lines: Seq<Seq<char>>, d: nat, f: nat, eol: Seq<char>) -> Seq<
    char,
>
    decreases lines.len(),
{
    if lines.len() == 0 {
        Seq::empty()
    } else if lines.len() == 1 {
        payload_of(lines[0], d, f)
    } else {
        joined_payloads(lines.drop_last(), d, f, eol) + eol + payload_of(lines.last(), d, f)
    }
}

/// Separator placement: when the lines of `[start, end)` form a run of
/// one key that appears nowhere else, the file for that key holds
/// exactly those lines' payloads joined by the separator — no leading
/// and no trailing separator.
pub proof fn lemma_separator_placement(
    lines: Seq<Seq<char>>,
    start: int,
    end: int,
    d: nat,
    f: nat,
    eol: Seq<char>,
)
    requires
        0 <= start < end <= lines.len(),
        forall|i: int|
            start <= i < end ==> key_of(#[trigger] lines[i], d, f) == key_of(lines[start], d, f),
        forall|i: int|
            0 <= i < start ==> key_of(#[trigger] lines[i], d, f) != key_of(lines[start], d, f),
        forall|i: int|
            end <= i < lines.len() ==> key_of(#[trigger] lines[i], d, f) != key_of(
                lines[start],
                d,
                f,
            ),
    ensures
        ({
            let key = key_of(lines[start], d, f);
            let t = tree_after(lines, d, f, eol);
            t.dom().contains(key) && t[key] == joined_payloads(
                lines.subrange(start, end),
                d,
                f,
                eol,
            )
        }),
    decreases lines.len(),
{
    let key = key_of(lines[start], d, f);
    let prev = lines.drop_last();
    let n = lines.len() as int;
    if end < n {
        // the last line carries another key, so the file is untouched
        assert forall|i: int| start <= i < end implies key_of(#[trigger] prev[i], d, f) == key_of(
            prev[start],
            d,
            f,
        ) by {
            assert(prev[i] == lines[i]);
            assert(prev[start] == lines[start]);
        }
        assert forall|i: int| 0 <= i < start implies key_of(#[trigger] prev[i], d, f) != key_of(
            prev[start],
            d,
            f,
        ) by {
            assert(prev[i] == lines[i]);
            assert(prev[start] == lines[start]);
        }
        assert forall|i: int| end <= i < prev.len() implies key_of(#[trigger] prev[i], d, f)
            != key_of(prev[start], d, f) by {
            assert(prev[i] == lines[i]);
            assert(prev[start] == lines[start]);
        }
        lemma_separator_placement(prev, start, end, d, f, eol);
        assert(lines.subrange(start, end) =~= prev.subrange(start, end));
        assert(key_of(lines[n - 1], d, f) != key);
    } else if start == n - 1 {
        // the run is the single last line, and its key is new
        assert forall|i: int| 0 <= i < prev.len() implies key_of(
            #[trigger] prev[i],
            d,
            f,
        ) != key by {
            assert(prev[i] == lines[i]);
        }
        lemma_key_order_complete(prev, d, f, key);
        lemma_tree_dom(prev, d, f, eol, key);
        let sub = lines.subrange(start, n);
        assert(sub.len() == 1);
        assert(sub[0] == lines[start]);
        assert(Seq::<char>::empty() + Seq::<char>::empty() + payload_of(lines.last(), d, f)
            =~= payload_of(lines.last(), d, f));
    } else {
        // the last line continues the run, so its payload is appended
        // after one separator
        assert forall|i: int| start <= i < prev.len() implies key_of(#[trigger] prev[i], d, f)
            == key_of(prev[start], d, f) by {
            assert(prev[i] == lines[i]);
            assert(prev[start] == lines[start]);
        }
        assert forall|i: int| 0 <= i < start implies key_of(#[trigger] prev[i], d, f) != key_of(
            prev[start],
            d,
            f,
        ) by {
            assert(prev[i] == lines[i]);
            assert(prev[start] == lines[start]);
        }
        lemma_separator_placement(prev, start, n - 1, d, f, eol);
        let sub = lines.subrange(start, n);
        let psub = prev.subrange(start, n - 1);
        assert(sub.drop_last() =~= psub);
        assert(sub.last() == lines.last());
        assert(sub.len() >= 2);
        assert(key_of(lines[n - 2], d, f) == key);
        assert(lines[n - 2] == prev[prev.len() - 1]);
    }
}

/// Whether `part` appears contiguously inside `s`.
pub open spec fn contains_part(s: Seq<char>, part: Seq<char>) -> bool {
    exists|j: int|
        0 <= j && j + part.len() <= s.len() && #[trigger] s.subrange(j, j + part.len()) == part
}

/// Partition correctness: every line's payload appears in the file
/// selected by that line's directory key and file key.
pub proof fn lemma_partition_correctness(
    lines: Seq<Seq<char>>,
    idx: int,
    d: nat,
    f: nat,
    eol: Seq<char>,
)
    requires
        0 <= idx < lines.len(),
    ensures
        ({
            let key = key_of(lines[idx], d, f);
            let t = tree_after(lines, d, f, eol);
            t.dom().contains(key) && contains_part(t[key], payload_of(lines[idx], d, f))
        }),
    decreases lines.len(),
{
    let n = lines.len() as int;
    let key = key_of(lines[idx], d, f);
    let pay = payload_of(lines[idx], d, f);
    let prev = lines.drop_last();
    let t = tree_after(lines, d, f, eol);
    if idx == n - 1 {
        let content = t[key];
        let j = content.len() - pay.len();
        assert(content.subrange(j, j + pay.len()) =~= pay);
        assert(contains_part(content, pay)) by {
            assert(content.subrange(j, j + pay.len()) == pay);
        }
    } else {
        lemma_partition_correctness(prev, idx, d, f, eol);
        assert(prev[idx] == lines[idx]);
        let pt = tree_after(prev, d, f, eol);
        let lkey = key_of(lines.last(), d, f);
        if lkey == key {
            let j = choose|j: int|
                0 <= j && j + pay.len() <= pt[key].len() && #[trigger] pt[key].subrange(
                    j,
                    j + pay.len(),
                ) == pay;
            assert(t[key].subrange(j, j + pay.len()) =~= pt[key].subrange(j, j + pay.len()));
            assert(contains_part(t[key], pay)) by {
                assert(t[key].subrange(j, j + pay.len()) == pay);
            }
        } else {
            assert(t[key] == pt[key]);
        }
    }
}

} // verus!
