use vstd::prelude::*;

use crate::error::{RpaError, RpaResult};
use crate::pickle::{entries_map, key_index, keys_unique, lemma_key_index, lemma_key_index_unique};
use crate::record::{append_range, Record, RecordView};

verus! {

/// Where the bytes of one archive entry come from.
#[derive(Debug, PartialEq, Eq)]
pub enum Content {
    /// A range of the archive that is being read.
    Record(Record),
    /// A file, read when the entry is written out.
    File(String),
    /// Bytes held in memory.
    Raw(Vec<u8>),
}

/// Content as plain values.
pub enum ContentView {
    Record(RecordView),
    File(Seq<char>),
    Raw(Seq<u8>),
}

impl ContentView {
    pub open spec fn wf(&self) -> bool {
        match self {
            ContentView::Record(r) => r.wf(),
            _ => true,
        }
    }
}

impl View for Content {
    type V = ContentView;

    open spec fn view(&self) -> ContentView {
        match self {
            Content::Record(r) => ContentView::Record(r@),
            Content::File(p) => ContentView::File(p@),
            Content::Raw(b) => ContentView::Raw(b@),
        }
    }
}

pub open spec fn opt_view(c: Option<Content>) -> Option<ContentView> {
    match c {
        Some(c) => Some(c@),
        None => None,
    }
}

/// `read_file`, called on the path, can return the bytes `out`.
pub open spec fn file_gives<F: Fn(&str) -> Result<Vec<u8>, std::io::Error>>(
    read_file: F,
    path: Seq<char>,
    out: Seq<u8>,
) -> bool {
    exists|s: &str, v: Vec<u8>|
        s@ == path && v@ == out && #[trigger] read_file.ensures((s,), Ok::<Vec<u8>, std::io::Error>(v))
}

/// `read_file`, called on the path, can fail with `e`.
pub open spec fn file_fails<F: Fn(&str) -> Result<Vec<u8>, std::io::Error>>(
    read_file: F,
    path: Seq<char>,
    e: std::io::Error,
) -> bool {
    exists|s: &str| s@ == path && #[trigger] read_file.ensures((s,), Err::<Vec<u8>, std::io::Error>(e))
}

/// What the content writes, given the archive's bytes and the function that
/// reads files: a record's bytes in the archive, the raw bytes, or what
/// reading the file returned.
pub open spec fn materializes<F: Fn(&str) -> Result<Vec<u8>, std::io::Error>>(
    c: ContentView,
    reader: Seq<u8>,
    read_file: F,
    out: Seq<u8>,
) -> bool {
    match c {
        ContentView::Record(r) => out == r.bytes_in(reader),
        ContentView::Raw(b) => out == b,
        ContentView::File(p) => file_gives(read_file, p, out),
    }
}

impl Content {
    pub open spec fn wf(&self) -> bool {
        self@.wf()
    }

    /// Append the content's bytes to `writer` and return how many there are.
    ///
    /// A record copies its range of `reader`, raw bytes are copied as they
    /// are, and a file is read through `read_file` now; only that read can fail,
    /// and then nothing is written and the read's error is returned.
    pub fn copy_to<F>(&self, reader: &[u8], read_file: &F, writer: &mut Vec<u8>) -> (r: Result<u64, std::io::Error>) where
        F: Fn(&str) -> Result<Vec<u8>, std::io::Error>,
        requires
            self.wf(),
            forall|p: &str| read_file.requires((p,)),
        ensures
            r matches Ok(n) ==> final(writer)@.len() == old(writer)@.len() + n
                && final(writer)@.subrange(0, old(writer)@.len() as int) == old(writer)@
                && materializes(self@, reader@, *read_file, final(writer)@.skip(old(writer)@.len() as int)),
            r matches Err(e) ==> final(writer)@ == old(writer)@ && (self@ matches ContentView::File(p)
                && file_fails(*read_file, p, e)),
            !(self is File) ==> r is Ok,
    {
        let ghost before = writer@;
        match self {
            Content::Record(record) => {
                let n = record.copy_section(reader, writer);
                assert(writer@.skip(before.len() as int) =~= record@.bytes_in(reader@));
                assert(writer@.subrange(0, before.len() as int) =~= before);
                Ok(n)
            },
            Content::File(path) => {
                let name = path.as_str();
                match read_file(name) {
                    Ok(bytes) => {
                        append_range(writer, bytes.as_slice(), 0, bytes.len());
                        assert(writer@.subrange(0, before.len() as int) =~= before);
                        assert(writer@.skip(before.len() as int) =~= bytes@);
                        assert(file_gives(*read_file, path@, bytes@));
                        Ok(bytes.len() as u64)
                    },
                    Err(e) => {
                        assert(file_fails(*read_file, path@, e));
                        Err(e)
                    },
                }
            },
            Content::Raw(data) => {
                append_range(writer, data.as_slice(), 0, data.len());
                assert(writer@.skip(before.len() as int) =~= data@);
                assert(writer@.subrange(0, before.len() as int) =~= before);
                Ok(data.len() as u64)
            },
        }
    }
}

/// The contents of an archive by path, in the order they will be written.
#[derive(Debug)]
pub struct ContentMap {
    entries: Vec<(String, Content)>,
}

/// The entries after `v` is stored under `k`: in place of the entry under
/// `k`, or at the end.
pub open spec fn inserted(s: Seq<(Seq<char>, ContentView)>, k: Seq<char>, v: ContentView) -> Seq<(Seq<char>, ContentView)> {
    let i = key_index(s, k);
    if i >= 0 {
        s.update(i, (k, v))
    } else {
        s.push((k, v))
    }
}

/// The content stored under `k`, if any.
pub open spec fn stored(s: Seq<(Seq<char>, ContentView)>, k: Seq<char>) -> Option<ContentView> {
    let i = key_index(s, k);
    if i >= 0 {
        Some(s[i].1)
    } else {
        None
    }
}

/// The entries without the one under `k`.
pub open spec fn removed(s: Seq<(Seq<char>, ContentView)>, k: Seq<char>) -> Seq<(Seq<char>, ContentView)> {
    let i = key_index(s, k);
    if i >= 0 {
        s.remove(i)
    } else {
        s
    }
}

/// Paths and contents as plain values.
pub open spec fn pairs_view(s: Seq<(String, Content)>) -> Seq<(Seq<char>, ContentView)> {
    s.map_values(|e: (String, Content)| (e.0@, e.1@))
}

impl View for ContentMap {
    type V = Seq<(Seq<char>, ContentView)>;

    closed spec fn view(&self) -> Seq<(Seq<char>, ContentView)> {
        pairs_view(self.entries@)
    }
}

impl ContentMap {
    /// Paths are unique and every record fits its prefix.
    pub open spec fn wf(&self) -> bool {
        keys_unique(self@) && forall|i: int| 0 <= i < self@.len() ==> (#[trigger] self@[i]).1.wf()
    }

    /// The contents as a map from path to content.
    pub open spec fn map(&self) -> Map<Seq<char>, ContentView> {
        entries_map(self@)
    }

    /// An empty map.
    pub fn new() -> (r: ContentMap)
        ensures
            r@ == Seq::<(Seq<char>, ContentView)>::empty(),
            r.wf(),
    {
        let r = ContentMap { entries: Vec::new() };
        assert(r@ =~= Seq::<(Seq<char>, ContentView)>::empty());
        r
    }

    /// How many paths are stored.
    pub fn len(&self) -> (r: usize)
        ensures
            r == self@.len(),
    {
        self.entries.len()
    }

    /// Whether no path is stored.
    pub fn is_empty(&self) -> (r: bool)
        ensures
            r == (self@.len() == 0),
    {
        self.entries.len() == 0
    }

    fn position(&self, path: &String) -> (r: Option<usize>)
        requires
            self.wf(),
        ensures
            r matches Some(i) ==> i == key_index(self@, path@) && i < self.entries@.len(),
            self@.len() == self.entries@.len(),
            r is None ==> key_index(self@, path@) == -1,
    {
        let mut i: usize = 0;
        while i < self.entries.len()
            invariant
                0 <= i <= self@.len(),
                self.wf(),
                forall|j: int| 0 <= j < i ==> self@[j].0 != path@,
            decreases self@.len() - i,
        {
            if self.entries[i].0 == *path {
                proof {
                    lemma_key_index_unique(self@, i as int);
                }
                return Some(i);
            }
            i = i + 1;
        }
        proof {
            lemma_key_index(self@, path@);
        }
        None
    }

    /// The content stored under `path`.
    pub fn get(&self, path: &str) -> (r: Option<&Content>)
        requires
            self.wf(),
        ensures
            match r {
                Some(c) => stored(self@, path@) == Some(c@) && c.wf(),
                None => stored(self@, path@) is None,
            },
    {
        let key = path.to_owned();
        match self.position(&key) {
            Some(i) => Some(&self.entries[i].1),
            None => None,
        }
    }

    /// Whether content is stored under `path`.
    pub fn contains_key(&self, path: &str) -> (r: bool)
        requires
            self.wf(),
        ensures
            r == (key_index(self@, path@) >= 0),
            r == self.map().contains_key(path@),
    {
        proof {
            lemma_key_index(self@, path@);
        }
        let key = path.to_owned();
        self.position(&key).is_some()
    }

    /// The stored paths, in order.
    pub fn keys(&self) -> (r: Vec<String>)
        ensures
            r@.len() == self@.len(),
            forall|i: int| 0 <= i < self@.len() ==> (#[trigger] r@[i])@ == self@[i].0,
    {
        let mut out: Vec<String> = Vec::new();
        let mut i: usize = 0;
        while i < self.entries.len()
            invariant
                0 <= i <= self@.len(),
                out@.len() == i,
                forall|j: int| 0 <= j < i ==> (#[trigger] out@[j])@ == self@[j].0,
            decreases self@.len() - i,
        {
            out.push(self.entries[i].0.clone());
            i = i + 1;
        }
        out
    }

    /// Store `content` under `path`, returning what was stored there before.
    pub fn insert(&mut self, path: &str, content: Content) -> (r: Option<Content>)
        requires
            old(self).wf(),
            content.wf(),
        ensures
            final(self).wf(),
            final(self)@ == inserted(old(self)@, path@, content@),
            opt_view(r) == stored(old(self)@, path@),
    {
        let key = path.to_owned();
        self.insert_key(key, content)
    }

    fn insert_key(&mut self, key: String, content: Content) -> (r: Option<Content>)
        requires
            old(self).wf(),
            content.wf(),
        ensures
            final(self).wf(),
            final(self)@ == inserted(old(self)@, key@, content@),
            opt_view(r) == stored(old(self)@, key@),
    {
        proof {
            lemma_key_index(self@, key@);
        }
        let ghost k = key@;
        match self.position(&key) {
            Some(i) => {
                let (old_key, previous) = self.entries.remove(i);
                self.entries.insert(i, (old_key, content));
                assert(self@ =~= old(self)@.update(i as int, (k, content@)));
                assert(keys_unique(self@)) by {
                    assert forall|a: int, b: int| 0 <= a < b < self@.len() implies self@[a].0 != self@[b].0 by {
                        assert(self@[a].0 == old(self)@[a].0);
                        assert(self@[b].0 == old(self)@[b].0);
                    }
                }
                assert forall|j: int| 0 <= j < self@.len() implies (#[trigger] self@[j]).1.wf() by {
                    if j != i {
                        assert(self@[j] == old(self)@[j]);
                    }
                }
                Some(previous)
            },
            None => {
                self.entries.push((key, content));
                assert(self@ =~= old(self)@.push((k, content@)));
                assert forall|j: int| 0 <= j < self@.len() implies (#[trigger] self@[j]).1.wf() by {
                    if j < old(self)@.len() {
                        assert(self@[j] == old(self)@[j]);
                    }
                }
                None
            },
        }
    }

    /// Remove and return the content stored under `path`.
    pub fn remove(&mut self, path: &str) -> (r: Option<Content>)
        requires
            old(self).wf(),
        ensures
            final(self).wf(),
            final(self)@ == removed(old(self)@, path@),
            opt_view(r) == stored(old(self)@, path@),
            r matches Some(c) ==> c.wf(),
    {
        let key = path.to_owned();
        match self.position(&key) {
            Some(i) => {
                let (_, content) = self.entries.remove(i);
                assert(self@ =~= old(self)@.remove(i as int));
                assert(keys_unique(self@)) by {
                    assert forall|a: int, b: int| 0 <= a < b < self@.len() implies self@[a].0 != self@[b].0 by {
                        let oa = if a < i { a } else { a + 1 };
                        let ob = if b < i { b } else { b + 1 };
                        assert(self@[a] == old(self)@[oa]);
                        assert(self@[b] == old(self)@[ob]);
                    }
                }
                assert forall|j: int| 0 <= j < self@.len() implies (#[trigger] self@[j]).1.wf() by {
                    let oj = if j < i { j } else { j + 1 };
                    assert(self@[j] == old(self)@[oj]);
                }
                Some(content)
            },
            None => None,
        }
    }

    /// Store the file at `path` under the same path.
    pub fn insert_file(&mut self, path: &str) -> (r: Option<Content>)
        requires
            old(self).wf(),
        ensures
            final(self).wf(),
            final(self)@ == inserted(old(self)@, path@, ContentView::File(path@)),
            opt_view(r) == stored(old(self)@, path@),
    {
        self.insert(path, Content::File(path.to_owned()))
    }

    /// Store the file at `file_path` under `archive_path`.
    pub fn insert_file_mapped(&mut self, archive_path: &str, file_path: &str) -> (r: Option<Content>)
        requires
            old(self).wf(),
        ensures
            final(self).wf(),
            final(self)@ == inserted(old(self)@, archive_path@, ContentView::File(file_path@)),
            opt_view(r) == stored(old(self)@, archive_path@),
    {
        self.insert(archive_path, Content::File(file_path.to_owned()))
    }

    /// Store `bytes` under `path`.
    pub fn insert_raw(&mut self, path: &str, bytes: Vec<u8>) -> (r: Option<Content>)
        requires
            old(self).wf(),
        ensures
            final(self).wf(),
            final(self)@ == inserted(old(self)@, path@, ContentView::Raw(bytes@)),
            opt_view(r) == stored(old(self)@, path@),
    {
        self.insert(path, Content::Raw(bytes))
    }

    /// Move the content under `old_path` to `new_path`, returning what was
    /// stored under `new_path` before. Fails with `NotFound` when nothing is
    /// stored under `old_path`.
    pub fn rename_key(&mut self, old_path: &str, new_path: &str) -> (r: RpaResult<Option<Content>>)
        requires
            old(self).wf(),
        ensures
            final(self).wf(),
            key_index(old(self)@, old_path@) < 0 ==> (r matches Err(RpaError::NotFound(p)) && p@
                == old_path@ && final(self)@ == old(self)@),
            key_index(old(self)@, old_path@) >= 0 ==> (r matches Ok(prev) && opt_view(prev)
                == stored(removed(old(self)@, old_path@), new_path@) && final(self)@ == inserted(
                removed(old(self)@, old_path@),
                new_path@,
                old(self)@[key_index(old(self)@, old_path@)].1,
            )),
    {
        match self.remove(old_path) {
            Some(content) => Ok(self.insert(new_path, content)),
            None => Err(RpaError::NotFound(old_path.to_owned())),
        }
    }

    /// The paths and contents, in order.
    pub fn into_entries(self) -> (r: Vec<(String, Content)>)
        ensures
            pairs_view(r@) == self@,
    {
        self.entries
    }

    /// The paths and contents, in order.
    pub fn entries(&self) -> (r: &Vec<(String, Content)>)
        ensures
            pairs_view(r@) == self@,
    {
        &self.entries
    }

    /// A map of entries whose paths are known to be distinct.
    pub(crate) fn from_unique(entries: Vec<(String, Content)>) -> (r: ContentMap)
        requires
            keys_unique(pairs_view(entries@)),
            forall|i: int| 0 <= i < entries@.len() ==> (#[trigger] entries@[i]).1.wf(),
        ensures
            r@ == pairs_view(entries@),
            r.wf(),
    {
        let r = ContentMap { entries };
        assert forall|i: int| 0 <= i < r@.len() implies (#[trigger] r@[i]).1.wf() by {
            assert(r@[i].1 == entries@[i].1@);
        }
        r
    }
}

impl Default for ContentMap {
    fn default() -> (r: ContentMap)
        ensures
            r@.len() == 0,
            r.wf(),
    {
        ContentMap::new()
    }
}

} // verus!
