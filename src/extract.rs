use vstd::prelude::*;

use crate::content::{file_fails, materializes, pairs_view, Content, ContentMap, ContentView};
use crate::error::{RpaError, RpaResult};
use crate::archive::reversed;
use crate::pattern::{glob_matches, kept, GlobPattern};

verus! {

/// Whether a path is chosen for extraction: it matches the pattern or is
/// named; with no pattern, every path is chosen when none is named.
pub open spec fn selected(files: Seq<Seq<char>>, pattern: Option<Seq<char>>, path: Seq<char>) -> bool {
    match pattern {
        Some(t) => glob_matches(t, path) || files.contains(path),
        None => files.len() == 0 || files.contains(path),
    }
}

pub open spec fn names_view(files: Seq<String>) -> Seq<Seq<char>> {
    files.map_values(|f: String| f@)
}

pub open spec fn pattern_text(pattern: Option<&GlobPattern>) -> Option<Seq<char>> {
    match pattern {
        Some(p) => Some(p.text()),
        None => None,
    }
}

fn names_contain(files: &[String], path: &String) -> (r: bool)
    ensures
        r == names_view(files@).contains(path@),
{
    let mut i: usize = 0;
    while i < files.len()
        invariant
            0 <= i <= files@.len(),
            forall|j: int| 0 <= j < i ==> files@[j]@ != path@,
        decreases files@.len() - i,
    {
        if files[i] == *path {
            assert(names_view(files@)[i as int] == path@);
            return true;
        }
        i = i + 1;
    }
    assert forall|j: int| 0 <= j < names_view(files@).len() implies names_view(files@)[j] != path@ by {
        assert(names_view(files@)[j] == files@[j]@);
    }
    false
}

fn chosen(files: &[String], pattern: Option<&GlobPattern>, path: &String) -> (r: bool)
    ensures
        r == selected(names_view(files@), pattern_text(pattern), path@),
{
    match pattern {
        Some(p) => p.matches(path.as_str()) || names_contain(files, path),
        None => files.len() == 0 || names_contain(files, path),
    }
}

/// The contents chosen for extraction, in order: those whose paths match
/// `pattern` or are among `files`; with no pattern, all of them when `files`
/// is empty.
pub fn filter_content(content: ContentMap, files: &[String], pattern: Option<&GlobPattern>) -> (r: Vec<(String, Content)>)
    ensures
        pairs_view(r@) == kept(
            content@,
            |p: Seq<char>| selected(names_view(files@), pattern_text(pattern), p),
        ),
{
    let ghost keep = |p: Seq<char>| selected(names_view(files@), pattern_text(pattern), p);
    let ghost all = content@;
    let entries = content.into_entries();
    let n = entries.len();
    let mut rest = reversed(entries);
    let mut out: Vec<(String, Content)> = Vec::new();
    assert(all.take(0) =~= Seq::<(Seq<char>, ContentView)>::empty());
    while rest.len() > 0
        invariant
            keep == (|p: Seq<char>| selected(names_view(files@), pattern_text(pattern), p)),
            all == pairs_view(entries@),
            all.len() == n,
            rest@.len() <= n,
            forall|j: int| 0 <= j < rest@.len() ==> (#[trigger] pairs_view(rest@)[j]) == all[n - 1 - j],
            pairs_view(out@) == kept(all.take(n - rest@.len()), keep),
        decreases rest@.len(),
    {
        let ghost i = n - rest@.len();
        let ghost before = rest@;
        let (path, content) = rest.pop().unwrap();
        assert(pairs_view(before)[before.len() - 1] == all[i]);
        assert(all.take(i + 1).drop_last() =~= all.take(i));
        assert(all.take(i + 1).last() == all[i]);
        assert(all[i] == (path@, content@));
        assert forall|j: int| 0 <= j < rest@.len() implies (#[trigger] pairs_view(rest@)[j]) == all[n - 1 - j] by {
            assert(pairs_view(rest@)[j] == pairs_view(before)[j]);
        }
        let ghost prev = out@;
        if chosen(files, pattern, &path) {
            out.push((path, content));
            assert(pairs_view(out@) =~= pairs_view(prev).push(all[i]));
        }
        assert(pairs_view(out@) =~= kept(all.take(i + 1), keep));
    }
    assert(all.take(n as int) =~= all);
    out
}

/// The bytes of each content, in order, with its path; files are read
/// through `read_file`, and the first read that fails ends the work with its
/// error.
pub fn extract_archive<F>(reader: &[u8], contents: Vec<(String, Content)>, read_file: &F) -> (r: RpaResult<Vec<(String, Vec<u8>)>>) where
    F: Fn(&str) -> Result<Vec<u8>, std::io::Error>,
    requires
        forall|i: int| 0 <= i < contents@.len() ==> (#[trigger] contents@[i]).1.wf(),
        forall|p: &str| read_file.requires((p,)),
    ensures
        r matches Ok(v) ==> v@.len() == contents@.len() && forall|i: int|
            0 <= i < v@.len() ==> (#[trigger] v@[i]).0@ == contents@[i].0@ && materializes(
                contents@[i].1@,
                reader@,
                *read_file,
                v@[i].1@,
            ),
        r matches Err(e) ==> (e matches RpaError::Io(ioe) && exists|i: int|
            0 <= i < contents@.len() && ((#[trigger] contents@[i]).1@ matches ContentView::File(p)
                && file_fails(*read_file, p, ioe))),
        (forall|i: int| 0 <= i < contents@.len() ==> !((#[trigger] contents@[i]).1 is File)) ==> r is Ok,
{
    let mut out: Vec<(String, Vec<u8>)> = Vec::new();
    let mut i: usize = 0;
    while i < contents.len()
        invariant
            0 <= i <= contents@.len(),
            forall|j: int| 0 <= j < contents@.len() ==> (#[trigger] contents@[j]).1.wf(),
            forall|p: &str| read_file.requires((p,)),
            out@.len() == i,
            forall|j: int|
                0 <= j < i ==> (#[trigger] out@[j]).0@ == contents@[j].0@ && materializes(
                    contents@[j].1@,
                    reader@,
                    *read_file,
                    out@[j].1@,
                ),
        decreases contents@.len() - i,
    {
        let mut bytes: Vec<u8> = Vec::new();
        match contents[i].1.copy_to(reader, read_file, &mut bytes) {
            Ok(_) => {},
            Err(e) => {
                assert(contents@[i as int].1@ is File);
                return Err(RpaError::Io(e));
            },
        }
        assert(bytes@.skip(0) =~= bytes@);
        out.push((contents[i].0.clone(), bytes));
        i = i + 1;
    }
    Ok(out)
}

} // verus!
