//! An in-memory run of the splitter: every line dispatched in order
//! through the session state machine, with the output tree returned as
//! data instead of written to disk. One entry stands for one output
//! file; entries appear in the order the files are first opened.

use vstd::prelude::*;
use vstd::string::StringExecFns;
use crate::splitter::{
    key_of, key_order, lemma_key_order_complete, lemma_key_order_distinct, lemma_key_order_push,
    lemma_tree_dom, line_ok, payload_of, tree_after, SplitError, Splitter,
};
use crate::text::str_eq;

verus! {

/// The character sequences of a sequence of strings.
pub open spec fn views_of(lines: Seq<String>) -> Seq<Seq<char>> {
    lines.map_values(|s: String| s@)
}

/// One output file of an in-memory run: its directory name, its file
/// stem, and the full content it ends with.
#[derive(Debug)]
pub struct FileEntry {
    /// The directory key: the name of the directory under the base.
    pub dir_name: String,
    /// The file key: the stem of the `.txt` file in that directory.
    pub file_stem: String,
    /// Everything the file holds after the run.
    pub content: String,
}

impl FileEntry {
    /// The key this entry is filed under.
    pub open spec fn key(self) -> (Seq<char>, Seq<char>) {
        (self.dir_name@, self.file_stem@)
    }
}

/// Finds the entry filed under (`dir_name`, `file_stem`), if any.
fn find_entry(entries: &Vec<FileEntry>, dir_name: &str, file_stem: &str) -> (r: Option<usize>)
    ensures
        r matches Some(j) ==> j < entries@.len() && entries@[j as int].key() == (
            dir_name@,
            file_stem@,
        ),
        r is None ==> forall|j: int|
            0 <= j < entries@.len() ==> (#[trigger] entries@[j].key()) != (dir_name@, file_stem@),
{
    let mut i: usize = 0;
    while i < entries.len()
        invariant
            i <= entries@.len(),
            forall|j: int|
                0 <= j < i ==> (#[trigger] entries@[j].key()) != (dir_name@, file_stem@),
        decreases entries@.len() - i,
    {
        let e = &entries[i];
        if str_eq(e.dir_name.as_str(), dir_name) && str_eq(e.file_stem.as_str(), file_stem) {
            return Some(i);
        }
        i += 1;
    }
    None
}

/// Runs the whole split in memory: dispatches every line in order and
/// returns one entry per distinct key, in order of first appearance,
/// each holding the full content of its file. The first line shorter
/// than the two key lengths together aborts the run.
pub fn split_lines(lines: &Vec<String>, dir_len: usize, file_len: usize, eol: &str) -> (r: Result<
    Vec<FileEntry>,
    SplitError,
>)
    requires
        dir_len + file_len <= usize::MAX,
    ensures
        r matches Err(e) ==> e == SplitError::MalformedLine,
        (r is Err) <==> (exists|i: int|
            0 <= i < lines@.len() && !line_ok(
                #[trigger] views_of(lines@)[i],
                dir_len as nat,
                file_len as nat,
            )),
        r matches Ok(entries) ==> ({
            let lv = views_of(lines@);
            let d = dir_len as nat;
            let f = file_len as nat;
            let t = tree_after(lv, d, f, eol@);
            let ko = key_order(lv, d, f);
            &&& forall|i: int| 0 <= i < lv.len() ==> line_ok(#[trigger] lv[i], d, f)
            &&& entries@.len() == ko.len()
            &&& forall|i: int| 0 <= i < entries@.len() ==> (#[trigger] entries@[i].key()) == ko[i]
            &&& forall|i: int|
                0 <= i < entries@.len() ==> t.dom().contains(#[trigger] entries@[i].key())
                    && entries@[i].content@ == t[entries@[i].key()]
        }),
{
    let ghost lv = views_of(lines@);
    let ghost d = dir_len as nat;
    let ghost f = file_len as nat;
    let mut sp = Splitter::new(dir_len, file_len, eol);
    let mut entries: Vec<FileEntry> = Vec::new();
    let mut i: usize = 0;
    proof {
        assert(lv.take(0) =~= Seq::<Seq<char>>::empty());
    }
    while i < lines.len()
        invariant
            i <= lines@.len(),
            lv == views_of(lines@),
            d == dir_len as nat,
            f == file_len as nat,
            dir_len + file_len <= usize::MAX,
            sp.wf(),
            sp.d() == d,
            sp.f() == f,
            sp.sep() == eol@,
            sp.lines() == lv.take(i as int),
            entries@.len() == key_order(sp.lines(), d, f).len(),
            forall|j: int|
                0 <= j < entries@.len() ==> (#[trigger] entries@[j].key()) == key_order(
                    sp.lines(),
                    d,
                    f,
                )[j],
            forall|j: int|
                0 <= j < entries@.len() ==> tree_after(sp.lines(), d, f, eol@).dom().contains(
                    #[trigger] entries@[j].key(),
                ) && entries@[j].content@ == tree_after(sp.lines(), d, f, eol@)[entries@[j].key()],
        decreases lines@.len() - i,
    {
        proof {
            assert(lv[i as int] == lines@[i as int]@);
        }
        let line: &String = &lines[i];
        let ghost old_lines = sp.lines();
        let ghost old_tree = tree_after(old_lines, d, f, eol@);
        let ghost old_ko = key_order(old_lines, d, f);
        let plan = match sp.step(line.as_str()) {
            Ok(p) => p,
            Err(e) => {
                proof {
                    assert(!line_ok(lv[i as int], d, f));
                }
                return Err(e);
            },
        };
        let ghost key = key_of(lv[i as int], d, f);
        proof {
            lemma_key_order_push(old_lines, lv[i as int], d, f);
            lemma_key_order_distinct(old_lines, d, f);
            assert(sp.lines() =~= lv.take(i + 1));
        }
        match find_entry(&entries, plan.dir_name.as_str(), plan.file_stem.as_str()) {
            Some(j) => {
                proof {
                    assert(entries@[j as int].key() == key);
                    assert(old_ko[j as int] == key);
                    assert(old_ko.contains(key));
                }
                let mut c = entries[j].content.clone();
                if plan.reuse_writer {
                    c.append(eol);
                } else {
                    proof {
                        assert(c@ + Seq::<char>::empty() =~= c@);
                    }
                }
                c.append(plan.payload.as_str());
                let newe = FileEntry {
                    dir_name: plan.dir_name,
                    file_stem: plan.file_stem,
                    content: c,
                };
                entries[j] = newe;
            },
            None => {
                proof {
                    if old_ko.contains(key) {
                        let m = choose|m: int| 0 <= m < old_ko.len() && old_ko[m] == key;
                        assert(entries@[m].key() == key);
                    }
                    lemma_tree_dom(old_lines, d, f, eol@, key);
                    if plan.reuse_writer {
                        lemma_key_order_complete(old_lines, d, f, key);
                        assert(key_of(old_lines[old_lines.len() - 1], d, f) == key);
                    }
                    assert(Seq::<char>::empty() + Seq::<char>::empty() + payload_of(
                        lv[i as int],
                        d,
                        f,
                    ) =~= payload_of(lv[i as int], d, f));
                }
                entries.push(
                    FileEntry {
                        dir_name: plan.dir_name,
                        file_stem: plan.file_stem,
                        content: plan.payload,
                    },
                );
            },
        }
        i += 1;
    }
    proof {
        assert(lv.take(lines@.len() as int) =~= lv);
        assert forall|j: int| 0 <= j < lv.len() implies line_ok(#[trigger] lv[j], d, f) by {
            assert(sp.lines()[j] == lv[j]);
        }
    }
    Ok(entries)
}

} // verus!
