use std::path::Path;

use glob::{Pattern, PatternError};
use vstd::prelude::*;

use crate::archive::reversed;
use crate::content::{pairs_view, Content, ContentMap, ContentView};
use crate::pickle::keys_unique;

verus! {

/// A compiled glob pattern of the glob crate.
#[verifier::external_type_specification]
#[verifier::external_body]
pub struct ExPattern(glob::Pattern);

/// Whether the glob crate compiles the pattern.
pub uninterp spec fn glob_compiles(pattern: Seq<char>) -> bool;

/// Whether a path matches a glob pattern, as the glob crate decides.
pub uninterp spec fn glob_matches(pattern: Seq<char>, path: Seq<char>) -> bool;

/// Relies on `glob::Pattern::new`: whether it fails depends on the text alone.
#[verifier::external_body]
fn compile(pattern: &str) -> (r: Result<Pattern, PatternError>)
    ensures
        r is Ok <==> glob_compiles(pattern@),
{
    Pattern::new(pattern)
}

/// A glob pattern together with its text.
#[derive(Debug)]
pub struct GlobPattern {
    text: String,
    compiled: Pattern,
}

impl GlobPattern {
    /// The text the pattern was compiled from.
    pub closed spec fn text(&self) -> Seq<char> {
        self.text@
    }

    /// Compile `pattern`.
    pub fn new(pattern: &str) -> (r: Result<GlobPattern, PatternError>)
        ensures
            r is Ok <==> glob_compiles(pattern@),
            r matches Ok(p) ==> p.text() == pattern@,
    {
        match compile(pattern) {
            Ok(compiled) => Ok(GlobPattern { text: pattern.to_owned(), compiled }),
            Err(e) => Err(e),
        }
    }

    /// Whether `path` matches the pattern.
    pub fn matches(&self, path: &str) -> (r: bool)
        ensures
            r == glob_matches(self.text(), path@),
    {
        matches_compiled(self, path)
    }
}

/// Relies on `glob::Pattern::matches_path`; a `GlobPattern` is only made by
/// compiling its `text`, so the answer depends on that text and the path
/// alone.
#[verifier::external_body]
fn matches_compiled(pattern: &GlobPattern, path: &str) -> (r: bool)
    ensures
        r == glob_matches(pattern.text(), path@),
{
    pattern.compiled.matches_path(Path::new(path))
}

/// The entries whose paths `keep` accepts, in order.
pub open spec fn kept(s: Seq<(Seq<char>, ContentView)>, keep: spec_fn(Seq<char>) -> bool) -> Seq<(Seq<char>, ContentView)>
    decreases s.len(),
{
    if s.len() == 0 {
        Seq::empty()
    } else if keep(s.last().0) {
        kept(s.drop_last(), keep).push(s.last())
    } else {
        kept(s.drop_last(), keep)
    }
}

/// Keep the entries for which whether `pattern` matches their path is
/// `matching`, in order.
pub(crate) fn keep_matching(entries: Vec<(String, Content)>, pattern: &GlobPattern, matching: bool) -> (r: Vec<(String, Content)>)
    ensures
        pairs_view(r@) == kept(pairs_view(entries@), |p: Seq<char>| glob_matches(pattern.text(), p) == matching),
{
    let ghost keep = |p: Seq<char>| glob_matches(pattern.text(), p) == matching;
    let ghost all = pairs_view(entries@);
    let n = entries.len();
    let mut rest = reversed(entries);
    let mut out: Vec<(String, Content)> = Vec::new();
    assert(all.take(0) =~= Seq::<(Seq<char>, ContentView)>::empty());
    while rest.len() > 0
        invariant
            keep == (|p: Seq<char>| glob_matches(pattern.text(), p) == matching),
            all == pairs_view(entries@),
            all.len() == n,
            rest@.len() <= n,
            forall|j: int| 0 <= j < rest@.len() ==> (#[trigger] pairs_view(rest@)[j]) == all[n - 1 - j],
            pairs_view(out@) == kept(all.take(n - rest@.len()), keep),
        decreases rest@.len(),
    {
        let ghost i = n - rest@.len();
        let ghost before = rest@;
        let (path, content) = rest.pop().unwrap();
        assert(pairs_view(before)[before.len() - 1] == all[i]);
        assert(all.take(i + 1).drop_last() =~= all.take(i));
        assert(all.take(i + 1).last() == all[i]);
        assert(all[i] == (path@, content@));
        assert forall|j: int| 0 <= j < rest@.len() implies (#[trigger] pairs_view(rest@)[j]) == all[n - 1 - j] by {
            assert(pairs_view(rest@)[j] == pairs_view(before)[j]);
        }
        let ghost prev = out@;
        if pattern.matches(path.as_str()) == matching {
            out.push((path, content));
            assert(pairs_view(out@) =~= pairs_view(prev).push(all[i]));
            assert(pairs_view(out@) =~= kept(all.take(i + 1), keep));
        } else {
            assert(pairs_view(out@) =~= kept(all.take(i + 1), keep));
        }
    }
    assert(all.take(n as int) =~= all);
    out
}

/// Borrowed paths and contents as plain values.
pub open spec fn ref_pairs_view(s: Seq<(&String, &Content)>) -> Seq<(Seq<char>, ContentView)> {
    s.map_values(|e: (&String, &Content)| (e.0@, e.1@))
}

impl ContentMap {
    /// The entries, in order and borrowed, whose paths match the glob pattern
    /// `pattern`.
    pub fn glob<'a>(&'a self, pattern: &str) -> (r: Result<Vec<(&'a String, &'a Content)>, PatternError>)
        ensures
            r is Ok <==> glob_compiles(pattern@),
            r matches Ok(v) ==> ref_pairs_view(v@) == kept(self@, |p: Seq<char>| glob_matches(pattern@, p)),
    {
        let compiled = GlobPattern::new(pattern)?;
        let entries = self.entries();
        let ghost keep = |p: Seq<char>| glob_matches(pattern@, p);
        let ghost all = self@;
        let mut out: Vec<(&'a String, &'a Content)> = Vec::new();
        let mut i: usize = 0;
        while i < entries.len()
            invariant
                keep == (|p: Seq<char>| glob_matches(pattern@, p)),
                0 <= i <= entries@.len(),
                pairs_view(entries@) == all,
                compiled.text() == pattern@,
                ref_pairs_view(out@) == kept(all.take(i as int), keep),
            decreases entries@.len() - i,
        {
            assert(all.take(i + 1).drop_last() =~= all.take(i as int));
            assert(all.take(i + 1).last() == all[i as int]);
            assert(all[i as int] == (entries@[i as int].0@, entries@[i as int].1@));
            let ghost prev = out@;
            if compiled.matches(entries[i].0.as_str()) {
                out.push((&entries[i].0, &entries[i].1));
                assert(ref_pairs_view(out@) =~= ref_pairs_view(prev).push(all[i as int]));
            }
            assert(ref_pairs_view(out@) =~= kept(all.take(i + 1), keep));
            i = i + 1;
        }
        assert(all.take(entries@.len() as int) =~= all);
        Ok(out)
    }

    /// The entries, in order, whose paths match the glob pattern `pattern`.
    pub fn into_glob(self, pattern: &str) -> (r: Result<Vec<(String, Content)>, PatternError>)
        ensures
            r is Ok <==> glob_compiles(pattern@),
            r matches Ok(v) ==> pairs_view(v@) == kept(self@, |p: Seq<char>| glob_matches(pattern@, p)),
    {
        let compiled = GlobPattern::new(pattern)?;
        let ghost all = self@;
        let out = keep_matching(self.into_entries(), &compiled, true);
        assert((|p: Seq<char>| glob_matches(compiled.text(), p) == true) =~= (|p: Seq<char>| glob_matches(pattern@, p)));
        Ok(out)
    }

    /// The map with only the entries for which whether `pattern` matches
    /// their path is `matching`, in order.
    pub fn retain_glob(self, pattern: &GlobPattern, matching: bool) -> (r: ContentMap)
        requires
            self.wf(),
        ensures
            r.wf(),
            r@ == kept(self@, |p: Seq<char>| glob_matches(pattern.text(), p) == matching),
    {
        let ghost all = self@;
        let out = keep_matching(self.into_entries(), pattern, matching);
        let ghost keep = |p: Seq<char>| glob_matches(pattern.text(), p) == matching;
        proof {
            lemma_kept_sub(all, keep);
            assert forall|i: int| 0 <= i < out@.len() implies (#[trigger] out@[i]).1.wf() by {
                assert(pairs_view(out@)[i] == kept(all, keep)[i]);
                let j = choose|j: int| 0 <= j < all.len() && kept(all, keep)[i] == all[j];
                assert(all[j].1.wf());
            }
        }
        ContentMap::from_unique(out)
    }
}

/// What `kept` keeps is a selection of the entries in order: each entry kept
/// is one of the given entries, and the kept keys stay distinct.
proof fn lemma_kept_sub(s: Seq<(Seq<char>, ContentView)>, keep: spec_fn(Seq<char>) -> bool)
    ensures
        forall|i: int| 0 <= i < kept(s, keep).len() ==> exists|j: int| 0 <= j < s.len() && #[trigger] kept(s, keep)[i] == s[j],
        keys_unique(s) ==> keys_unique(kept(s, keep)),
    decreases s.len(),
{
    if s.len() > 0 {
        lemma_kept_sub(s.drop_last(), keep);
        let prev = kept(s.drop_last(), keep);
        assert forall|i: int| 0 <= i < kept(s, keep).len() implies exists|j: int| 0 <= j < s.len() && #[trigger] kept(s, keep)[i] == s[j] by {
            if i < prev.len() {
                let j = choose|j: int| 0 <= j < s.drop_last().len() && prev[i] == s.drop_last()[j];
                assert(kept(s, keep)[i] == s[j]);
            } else {
                assert(kept(s, keep)[i] == s[s.len() - 1]);
            }
        }
        if keys_unique(s) {
            assert(keys_unique(s.drop_last())) by {
                assert forall|a: int, b: int| 0 <= a < b < s.drop_last().len() implies s.drop_last()[a].0 != s.drop_last()[b].0 by {
                    assert(s.drop_last()[a] == s[a] && s.drop_last()[b] == s[b]);
                }
            }
            if keep(s.last().0) {
                assert forall|a: int, b: int| 0 <= a < b < kept(s, keep).len() implies kept(s, keep)[a].0 != kept(s, keep)[b].0 by {
                    if b == prev.len() {
                        let j = choose|j: int| 0 <= j < s.drop_last().len() && prev[a] == s.drop_last()[j];
                        assert(s.drop_last()[j] == s[j]);
                    }
                }
            }
        }
    }
}

} // verus!
