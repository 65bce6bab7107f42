use vstd::prelude::*;
use vstd::string::StringSliceAdditionalSpecFns;

use crate::content::{file_fails, materializes, pairs_view, stored, Content, ContentMap, ContentView};
use crate::error::{RpaError, RpaResult};
use crate::laws::lemma_header_length;
use crate::hex::{padded_hex, parse_hex, parse_hex_spec, push_padded_hex};
use crate::pickle::{
    entries_map, entries_view, key_index, keys_unique, lemma_key_index, lemma_key_index_same_keys,
    lemma_key_index_unique, pickle_index, pickled_index, unpickle_index, unpickled_index, PickleValue,
};
use crate::record::{append_range, decode_record, encodes_fields, masked, Record};
use crate::version::{header_len_spec, identify_bytes, identify_spec, signature_of, writable, RpaVersion};
use crate::zlib::{deflate, inflate, zlib_deflated, zlib_inflated};

verus! {

/// The key that a new archive obfuscates its index with.
pub const DEFAULT_KEY: u64 = 0xDEADBEEF;

/// The signature bytes: the first seven of the archive, or all of a shorter one.
pub open spec fn signature_tag(data: Seq<u8>) -> Seq<u8> {
    if data.len() <= 7 {
        data
    } else {
        data.subrange(0, 7)
    }
}

/// Where the line that starts at `from` ends: after its newline, or at the
/// end of the data.
pub open spec fn line_end(data: Seq<u8>, from: int) -> int
    decreases data.len() - from,
{
    if from >= data.len() {
        data.len() as int
    } else if data[from] == 10u8 {
        from + 1
    } else {
        line_end(data, from + 1)
    }
}

/// The pieces of `s` between single spaces, empty pieces included.
pub open spec fn split_on_space(s: Seq<u8>) -> Seq<Seq<u8>>
    decreases s.len(),
{
    if s.len() == 0 {
        seq![Seq::empty()]
    } else {
        let prev = split_on_space(s.drop_last());
        if s.last() == 32u8 {
            prev.push(Seq::empty())
        } else {
            prev.update(prev.len() - 1, prev.last().push(s.last()))
        }
    }
}

/// The space-separated fields of the header line after the signature, its
/// last byte (the newline) left out; `None` when that line is empty.
pub open spec fn header_fields(data: Seq<u8>) -> Option<Seq<Seq<u8>>> {
    let start = signature_tag(data).len() as int;
    let end = line_end(data, start);
    if end == start {
        None
    } else {
        Some(split_on_space(data.subrange(start, end - 1)))
    }
}

/// The index offset: the second field, in hexadecimal.
pub open spec fn header_offset(data: Seq<u8>) -> Option<u64> {
    match header_fields(data) {
        Some(f) => if f.len() >= 2 {
            parse_hex_spec(f[1])
        } else {
            None
        },
        None => None,
    }
}

/// The xor of hexadecimal fields; `None` if one is not a number.
pub open spec fn fold_key(fields: Seq<Seq<u8>>) -> Option<u64>
    decreases fields.len(),
{
    if fields.len() == 0 {
        Some(0)
    } else {
        match (fold_key(fields.drop_last()), parse_hex_spec(fields.last())) {
            (Some(a), Some(b)) => Some(a ^ b),
            _ => None,
        }
    }
}

/// The obfuscation key of the header: the xor of the fields from the third
/// on (`RPA-3.0`) or from the fourth on (`RPA-3.2`); none for other versions.
/// `None` when a key field is not a number.
pub open spec fn header_key(data: Seq<u8>, version: RpaVersion) -> Option<Option<u64>> {
    let f = header_fields(data)->Some_0;
    let first: int = if version == RpaVersion::V3_0 { 2 } else { 3 };
    if version == RpaVersion::V3_0 || version == RpaVersion::V3_2 {
        let keys = if f.len() >= first { f.subrange(first, f.len() as int) } else { Seq::empty() };
        match fold_key(keys) {
            Some(k) => Some(Some(k)),
            None => None,
        }
    } else {
        Some(None)
    }
}

/// The bytes from the index offset to the end.
pub open spec fn index_region(data: Seq<u8>, offset: u64) -> Seq<u8> {
    if offset <= data.len() {
        data.subrange(offset as int, data.len() as int)
    } else {
        Seq::empty()
    }
}

/// Every entry of the index is a well-formed record.
pub open spec fn index_decodes(index: Map<Seq<char>, PickleValue>, key: Option<u64>) -> bool {
    forall|k: Seq<char>| #[trigger] index.contains_key(k) ==> decode_record(index[k], key) is Some
}

/// The contents that the index describes.
pub open spec fn decoded_contents(index: Map<Seq<char>, PickleValue>, key: Option<u64>) -> Map<Seq<char>, ContentView> {
    Map::new(
        |k: Seq<char>| index.contains_key(k),
        |k: Seq<char>| ContentView::Record(decode_record(index[k], key)->Some_0),
    )
}

/// The archive `data` of the given version has this offset, key and index.
pub open spec fn metadata_ok(
    data: Seq<u8>,
    version: RpaVersion,
    offset: u64,
    key: Option<u64>,
    content: Seq<(Seq<char>, ContentView)>,
) -> bool {
    &&& header_offset(data) == Some(offset)
    &&& header_key(data, version) == Some(key)
    &&& zlib_inflated(index_region(data, offset)) matches Some(plain)
    &&& unpickled_index(plain) matches Some(index)
    &&& index_decodes(index, key)
    &&& keys_unique(content)
    &&& entries_map(content) == decoded_contents(index, key)
}

/// The first failure that reading the metadata of `data` meets is `e`.
pub open spec fn metadata_error(data: Seq<u8>, version: RpaVersion, e: RpaError) -> bool {
    match header_offset(data) {
        None => e is ParseOffset,
        Some(offset) => match header_key(data, version) {
            None => e is ParseKey,
            Some(key) => match zlib_inflated(index_region(data, offset)) {
                None => e is DeserializeRecord,
                Some(plain) => match unpickled_index(plain) {
                    None => e is DeserializeRecord,
                    Some(index) => !index_decodes(index, key) && e is FormatRecord,
                },
            },
        },
    }
}

/// The archive is read from `data`, with `name` as its file name.
pub open spec fn read_ok(data: Seq<u8>, name: Seq<u8>, a: RenpyArchive) -> bool {
    &&& identify_spec(name, signature_tag(data)) == Some(a.version)
    &&& a.reader@ == data
    &&& metadata_ok(data, a.version, a.offset, a.key, a.content@)
}

/// Reading `data`, with `name` as its file name, fails first with `e`.
pub open spec fn read_error(data: Seq<u8>, name: Seq<u8>, e: RpaError) -> bool {
    match identify_spec(name, signature_tag(data)) {
        None => e is IdentifyVersion,
        Some(v) => metadata_error(data, v, e),
    }
}

/// The header line of a written archive: the signature, the index offset in
/// sixteen hexadecimal digits and, for `RPA-3.0`, the key in eight.
pub open spec fn header_bytes(version: RpaVersion, offset: u64, key: u64) -> Seq<u8> {
    match version {
        RpaVersion::V3_0 => signature_of(RpaVersion::V3_0) + seq![32u8] + padded_hex(offset as nat, 16)
            + seq![32u8] + padded_hex(key as nat, 8) + seq![10u8],
        RpaVersion::V2_0 => signature_of(RpaVersion::V2_0) + seq![32u8] + padded_hex(offset as nat, 16)
            + seq![10u8],
        _ => Seq::empty(),
    }
}

/// The header of this version has room for the key: `RPA-3.0` writes it in
/// eight hexadecimal digits, `RPA-2.0` does not write it.
pub open spec fn key_fits(version: RpaVersion, key: Option<u64>) -> bool {
    version == RpaVersion::V3_0 ==> key_or_zero(key) <= u32::MAX
}

/// The key that records are obfuscated with when an archive of this version
/// is written: only `RPA-3.0` obfuscates.
pub open spec fn write_key(version: RpaVersion, key: Option<u64>) -> Option<u64> {
    if version == RpaVersion::V3_0 {
        key
    } else {
        None
    }
}

/// The payloads one after another.
pub open spec fn concat(s: Seq<Seq<u8>>) -> Seq<u8>
    decreases s.len(),
{
    if s.len() == 0 {
        Seq::empty()
    } else {
        concat(s.drop_last()) + s.last()
    }
}

/// `s` with its start overwritten by `h`.
pub open spec fn overlay(s: Seq<u8>, h: Seq<u8>) -> Seq<u8> {
    if h.len() <= s.len() {
        h + s.skip(h.len() as int)
    } else {
        h
    }
}

pub open spec fn zeros(n: nat) -> Seq<u8> {
    Seq::new(n, |i: int| 0u8)
}

pub open spec fn key_or_zero(key: Option<u64>) -> u64 {
    match key {
        Some(k) => k,
        None => 0,
    }
}

/// Where the `i`-th payload starts in a written archive.
pub open spec fn entry_offset(version: RpaVersion, payloads: Seq<Seq<u8>>, i: int) -> nat {
    header_len_spec(version) + concat(payloads.take(i)).len()
}

/// The bytes of a written archive: the header, the payloads, and the
/// compressed index.
pub open spec fn flush_image(
    version: RpaVersion,
    key: Option<u64>,
    payloads: Seq<Seq<u8>>,
    index: Map<Seq<char>, PickleValue>,
) -> Seq<u8> {
    let hl = header_len_spec(version);
    let body = concat(payloads);
    header_bytes(version, (hl + body.len()) as u64, key_or_zero(key)) + body + zlib_deflated(
        pickled_index(index),
    )
}

/// `index` holds, for each path, the new record of its payload: its offset
/// and length, obfuscated with the key for `RPA-3.0`, and no prefix.
pub open spec fn flush_index(
    entries: Seq<(Seq<char>, ContentView)>,
    version: RpaVersion,
    key: Option<u64>,
    payloads: Seq<Seq<u8>>,
    index: Map<Seq<char>, PickleValue>,
) -> bool {
    &&& forall|k: Seq<char>| #[trigger] index.contains_key(k) <==> key_index(entries, k) >= 0
    &&& forall|i: int|
        0 <= i < entries.len() ==> encodes_fields(
            index[(#[trigger] entries[i]).0],
            masked(entry_offset(version, payloads, i) as u64, write_key(version, key)),
            masked(payloads[i].len() as u64, write_key(version, key)),
            None,
        )
}

/// Writing `entries` of a writable version with a key that fits appended
/// this archive to `before`, with these payloads (each what its content
/// gives) and this index, which reads back from its compressed pickle.
pub open spec fn flushed<F: Fn(&str) -> Result<Vec<u8>, std::io::Error>>(
    entries: Seq<(Seq<char>, ContentView)>,
    reader: Seq<u8>,
    read_file: F,
    version: RpaVersion,
    key: Option<u64>,
    payloads: Seq<Seq<u8>>,
    index: Map<Seq<char>, PickleValue>,
    before: Seq<u8>,
    after: Seq<u8>,
) -> bool {
    &&& writable(version)
    &&& key_fits(version, key)
    &&& payloads.len() == entries.len()
    &&& forall|i: int|
        0 <= i < entries.len() ==> materializes(entries[i].1, reader, read_file, #[trigger] payloads[i])
    &&& flush_index(entries, version, key, payloads, index)
    &&& unpickled_index(pickled_index(index)) == Some(index)
    &&& zlib_inflated(zlib_deflated(pickled_index(index))) == Some(pickled_index(index))
    &&& after == before + flush_image(version, key, payloads, index)
}

/// Overwrite `out` from `base` on with `h`, growing it where needed.
fn overwrite_at(out: &mut Vec<u8>, base: usize, h: &[u8])
    requires
        base <= old(out)@.len(),
    ensures
        final(out)@ == old(out)@.take(base as int) + overlay(old(out)@.skip(base as int), h@),
{
    let ghost s = old(out)@.skip(base as int);
    let mut i: usize = 0;
    while i < h.len()
        invariant
            0 <= i <= h@.len(),
            h@.len() == h.len(),
            base <= old(out)@.len(),
            s == old(out)@.skip(base as int),
            base <= out@.len(),
            out@ == old(out)@.take(base as int) + overlay(s, h@.take(i as int)),
        decreases h@.len() - i,
    {
        if i < out.len() - base {
            out.set(base + i, h[i]);
        } else {
            out.push(h[i]);
        }
        assert(out@ =~= old(out)@.take(base as int) + overlay(s, h@.take(i + 1)));
        i = i + 1;
    }
    assert(h@.take(h@.len() as int) =~= h@);
}

impl RpaVersion {
    /// The header line of an archive of this version whose index lies at
    /// `offset`: `RPA-3.0 {offset:016x} {key:08x}` or `RPA-2.0 {offset:016x}`,
    /// then a newline; as long as `header_length` gives. Fails with
    /// `WritingNotSupported` for other versions, and with `KeyTooLarge` for an
    /// `RPA-3.0` key that does not fit in eight digits.
    pub fn format_header(&self, offset: u64, key: u64) -> (r: RpaResult<Vec<u8>>)
        ensures
            writable(*self) && key_fits(*self, Some(key)) ==> (r matches Ok(h) && h@ == header_bytes(
                *self,
                offset,
                key,
            ) && h@.len() == header_len_spec(*self)),
            writable(*self) && !key_fits(*self, Some(key)) ==> (r matches Err(RpaError::KeyTooLarge(k))
                && k == key),
            !writable(*self) ==> (r matches Err(RpaError::WritingNotSupported(v)) && v == *self),
    {
        if !self.write_support() {
            return Err(RpaError::WritingNotSupported(*self));
        }
        if *self == RpaVersion::V3_0 && key > 0xFFFF_FFFF {
            return Err(RpaError::KeyTooLarge(key));
        }
        proof {
            lemma_header_length(*self, offset, key);
        }
        let v30: [u8; 7] = [82u8, 80, 65, 45, 51, 46, 48];
        let v20: [u8; 7] = [82u8, 80, 65, 45, 50, 46, 48];
        let mut h: Vec<u8> = Vec::new();
        match self {
            RpaVersion::V3_0 => {
                append_range(&mut h, v30.as_slice(), 0, 7);
                h.push(32u8);
                push_padded_hex(&mut h, offset, 16);
                h.push(32u8);
                push_padded_hex(&mut h, key, 8);
                h.push(10u8);
                assert(h@ =~= header_bytes(*self, offset, key));
                Ok(h)
            },
            RpaVersion::V2_0 => {
                append_range(&mut h, v20.as_slice(), 0, 7);
                h.push(32u8);
                push_padded_hex(&mut h, offset, 16);
                h.push(10u8);
                assert(h@ =~= header_bytes(*self, offset, key));
                Ok(h)
            },
            _ => Err(RpaError::WritingNotSupported(*self)),
        }
    }
}

/// An archive: its bytes, how its index is obfuscated and where it lies, its
/// version, and the contents it will be written with.
#[derive(Debug)]
pub struct RenpyArchive {
    /// The archive's bytes.
    pub reader: Vec<u8>,
    /// Key that offsets and lengths in the index are obfuscated with.
    pub key: Option<u64>,
    /// Where the index lies in `reader`.
    pub offset: u64,
    /// The archive's version.
    pub version: RpaVersion,
    /// The contents by path.
    pub content: ContentMap,
}

fn split_fields(line: &[u8]) -> (r: Vec<Vec<u8>>)
    ensures
        r@.map_values(|t: Vec<u8>| t@) == split_on_space(line@),
{
    let mut fields: Vec<Vec<u8>> = Vec::new();
    let mut current: Vec<u8> = Vec::new();
    let mut i: usize = 0;
    assert(line@.subrange(0, 0) =~= Seq::<u8>::empty());
    while i < line.len()
        invariant
            0 <= i <= line@.len(),
            line@.len() == line.len(),
            fields@.map_values(|t: Vec<u8>| t@).push(current@) == split_on_space(line@.subrange(0, i as int)),
        decreases line@.len() - i,
    {
        let ghost prev = split_on_space(line@.subrange(0, i as int));
        assert(line@.subrange(0, i + 1).drop_last() =~= line@.subrange(0, i as int));
        if line[i] == 32u8 {
            fields.push(current);
            current = Vec::new();
            assert(fields@.map_values(|t: Vec<u8>| t@).push(current@) =~= prev.push(Seq::empty()));
        } else {
            current.push(line[i]);
            assert(fields@.map_values(|t: Vec<u8>| t@).push(current@) =~= prev.update(
                prev.len() - 1,
                prev.last().push(line@[i as int]),
            ));
        }
        i = i + 1;
    }
    assert(line@.subrange(0, line@.len() as int) =~= line@);
    fields.push(current);
    assert(fields@.map_values(|t: Vec<u8>| t@) =~= split_on_space(line@));
    fields
}

fn find_line_end(data: &[u8], from: usize) -> (r: usize)
    requires
        from <= data@.len(),
    ensures
        r == line_end(data@, from as int),
        from <= r <= data@.len(),
{
    let mut i = from;
    while i < data.len()
        invariant
            from <= i <= data@.len(),
            data@.len() == data.len(),
            line_end(data@, from as int) == line_end(data@, i as int),
        decreases data@.len() - i,
    {
        if data[i] == 10u8 {
            return i + 1;
        }
        i = i + 1;
    }
    i
}

pub open spec fn fields_view(f: Seq<Vec<u8>>) -> Seq<Seq<u8>> {
    f.map_values(|t: Vec<u8>| t@)
}

fn fold_keys(fields: &Vec<Vec<u8>>, first: usize) -> (r: Option<u64>)
    ensures
        r == fold_key(
            if fields@.len() >= first {
                fields_view(fields@).subrange(first as int, fields@.len() as int)
            } else {
                Seq::empty()
            },
        ),
{
    let ghost keys = if fields@.len() >= first {
        fields_view(fields@).subrange(first as int, fields@.len() as int)
    } else {
        Seq::empty()
    };
    if fields.len() < first {
        return Some(0);
    }
    let mut key: u64 = 0;
    let mut i = first;
    assert(keys.subrange(0, 0) =~= Seq::<Seq<u8>>::empty());
    while i < fields.len()
        invariant
            first <= i <= fields@.len(),
            keys == fields_view(fields@).subrange(first as int, fields@.len() as int),
            fold_key(keys.subrange(0, i - first)) == Some(key),
        decreases fields@.len() - i,
    {
        let ghost next = keys.subrange(0, i + 1 - first);
        assert(next.drop_last() =~= keys.subrange(0, i - first));
        assert(next.last() == fields@[i as int]@);
        match parse_hex(fields[i].as_slice()) {
            Some(k) => {
                key = key ^ k;
            },
            None => {
                proof {
                    lemma_fold_key_prefix(keys, i + 1 - first);
                }
                return None;
            },
        }
        i = i + 1;
    }
    assert(keys.subrange(0, keys.len() as int) =~= keys);
    Some(key)
}

proof fn lemma_fold_key_prefix(keys: Seq<Seq<u8>>, j: int)
    requires
        0 <= j <= keys.len(),
        fold_key(keys.subrange(0, j)) is None,
    ensures
        fold_key(keys) is None,
    decreases keys.len(),
{
    if j < keys.len() {
        assert(keys.drop_last().subrange(0, j) =~= keys.subrange(0, j));
        lemma_fold_key_prefix(keys.drop_last(), j);
    } else {
        assert(keys.subrange(0, j) =~= keys);
    }
}

/// The items of `v` in reverse order.
pub(crate) fn reversed<T>(v: Vec<T>) -> (r: Vec<T>)
    ensures
        r@.len() == v@.len(),
        forall|i: int| 0 <= i < v@.len() ==> r@[i] == v@[v@.len() - 1 - i],
{
    let ghost orig = v@;
    let mut v = v;
    let mut r: Vec<T> = Vec::new();
    while v.len() > 0
        invariant
            v@ == orig.subrange(0, v@.len() as int),
            r@.len() + v@.len() == orig.len(),
            forall|i: int| 0 <= i < r@.len() ==> r@[i] == orig[orig.len() - 1 - i],
        decreases v@.len(),
    {
        let x = v.pop().unwrap();
        r.push(x);
    }
    r
}

/// The contents that decoded index entries describe.
fn decode_index(decoded: Vec<(String, PickleValue)>, key: Option<u64>) -> (r: RpaResult<ContentMap>)
    requires
        keys_unique(entries_view(decoded@)),
    ensures
        r matches Ok(c) ==> c.wf() && index_decodes(entries_map(entries_view(decoded@)), key)
            && entries_map(c@) == decoded_contents(entries_map(entries_view(decoded@)), key),
        r matches Err(e) ==> e is FormatRecord && !index_decodes(
            entries_map(entries_view(decoded@)),
            key,
        ),
{
    let ghost orig = decoded@;
    let ghost ov = entries_view(orig);
    let ghost index = entries_map(ov);
    let n = decoded.len();
    let mut rev = reversed(decoded);
    let mut contents: Vec<(String, Content)> = Vec::new();
    while rev.len() > 0
        invariant
            orig.len() == n,
            orig == decoded@,
            ov == entries_view(orig),
            index == entries_map(ov),
            keys_unique(ov),
            rev@.len() + contents@.len() == n,
            forall|j: int| 0 <= j < rev@.len() ==> rev@[j] == orig[n - 1 - j],
            forall|j: int|
                0 <= j < contents@.len() ==> (#[trigger] contents@[j]).0@ == orig[j].0@
                    && decode_record(orig[j].1, key) is Some && contents@[j].1@ == ContentView::Record(
                    decode_record(orig[j].1, key)->Some_0,
                ) && contents@[j].1.wf(),
        decreases rev@.len(),
    {
        let ghost k = contents@.len() as int;
        let (path, value) = rev.pop().unwrap();
        assert(path == orig[k].0 && value == orig[k].1);
        let ghost gv = value;
        match Record::from_value(value, key) {
            Ok(record) => {
                contents.push((path, Content::Record(record)));
            },
            Err(_) => {
                proof {
                    assert(ov[k].0 == path@);
                    lemma_key_index_unique(ov, k);
                    lemma_key_index(ov, path@);
                    assert(index.contains_key(path@));
                    assert(ov[k].1 == gv);
                    assert(index[path@] == gv);
                    assert(decode_record(index[path@], key) is None);
                    assert(!index_decodes(index, key));
                }
                return Err(RpaError::FormatRecord);
            },
        }
    }
    let ghost cv = pairs_view(contents@);
    proof {
        assert forall|i: int| 0 <= i < cv.len() implies (#[trigger] cv[i]).0 == ov[i].0 by {}
        assert forall|i: int, j: int| 0 <= i < j < cv.len() implies cv[i].0 != cv[j].0 by {
            assert(cv[i].0 == ov[i].0 && cv[j].0 == ov[j].0);
        }
        assert forall|k: Seq<char>| #[trigger] index.contains_key(k) implies decode_record(index[k], key) is Some by {
            lemma_key_index(ov, k);
            let i = key_index(ov, k);
            assert(contents@[i].0@ == orig[i].0@);
            assert(ov[i].1 == orig[i].1);
        }
        assert forall|k: Seq<char>| true implies (entries_map(cv).contains_key(k) <==> index.contains_key(k)) && (
        index.contains_key(k) ==> entries_map(cv)[k] == decoded_contents(index, key)[k]) by {
            lemma_key_index(ov, k);
            lemma_key_index(cv, k);
            lemma_key_index_same_keys(cv, ov, k);
            let i = key_index(ov, k);
            if i >= 0 {
                assert(contents@[i].0@ == orig[i].0@);
                assert(ov[i].1 == orig[i].1);
            }
        }
        assert(entries_map(cv) =~= decoded_contents(index, key));
    }
    Ok(ContentMap::from_unique(contents))
}

/// The index built from the entries' new records describes each path once.
proof fn lemma_index_of_entries(
    cv: Seq<(Seq<char>, ContentView)>,
    iv: Seq<(Seq<char>, PickleValue)>,
    version: RpaVersion,
    key: Option<u64>,
    payloads: Seq<Seq<u8>>,
)
    requires
        keys_unique(cv),
        iv.len() == cv.len(),
        forall|j: int|
            0 <= j < iv.len() ==> (#[trigger] iv[j]).0 == cv[j].0 && encodes_fields(
                iv[j].1,
                masked(entry_offset(version, payloads, j) as u64, write_key(version, key)),
                masked(payloads[j].len() as u64, write_key(version, key)),
                None,
            ),
    ensures
        flush_index(cv, version, key, payloads, entries_map(iv)),
{
    let index_map = entries_map(iv);
    assert(keys_unique(iv)) by {
        assert forall|a: int, b: int| 0 <= a < b < iv.len() implies iv[a].0 != iv[b].0 by {
            assert(iv[a].0 == cv[a].0 && iv[b].0 == cv[b].0);
        }
    }
    assert forall|k: Seq<char>| #[trigger] index_map.contains_key(k) <==> key_index(cv, k) >= 0 by {
        lemma_key_index(iv, k);
        lemma_key_index(cv, k);
        lemma_key_index_same_keys(iv, cv, k);
    }
    assert forall|j: int| 0 <= j < cv.len() implies encodes_fields(
        index_map[(#[trigger] cv[j]).0],
        masked(entry_offset(version, payloads, j) as u64, write_key(version, key)),
        masked(payloads[j].len() as u64, write_key(version, key)),
        None,
    ) by {
        assert(iv[j].0 == cv[j].0);
        lemma_key_index_unique(iv, j);
        lemma_key_index(iv, cv[j].0);
    }
}

impl RenpyArchive {
    pub open spec fn wf(&self) -> bool {
        self.content.wf()
    }

    /// An empty in-memory archive of version 3.0 with the default key.
    pub fn new() -> (r: RenpyArchive)
        ensures
            r.wf(),
            r.reader@.len() == 0,
            r.offset == 0,
            r.version == RpaVersion::V3_0,
            r.key == Some(DEFAULT_KEY),
            r.content@.len() == 0,
    {
        RenpyArchive {
            reader: Vec::new(),
            key: Some(DEFAULT_KEY),
            offset: 0,
            version: RpaVersion::V3_0,
            content: ContentMap::new(),
        }
    }

    /// Open an archive from its bytes.
    pub fn read(reader: Vec<u8>) -> (r: RpaResult<RenpyArchive>)
        ensures
            r matches Ok(a) ==> a.wf() && read_ok(reader@, Seq::empty(), a),
            r matches Err(e) ==> read_error(reader@, Seq::empty(), e),
    {
        proof {
            reveal_strlit("");
        }
        Self::read_named(reader, "")
    }

    /// Open an archive from its bytes, with its file name as a hint to the
    /// version.
    pub fn read_named(reader: Vec<u8>, file_name: &str) -> (r: RpaResult<RenpyArchive>)
        ensures
            r matches Ok(a) ==> a.wf() && read_ok(reader@, file_name.spec_bytes(), a),
            r matches Err(e) ==> read_error(reader@, file_name.spec_bytes(), e),
    {
        let version = Self::version(reader.as_slice(), file_name)?;
        let (offset, key, content) = Self::metadata(reader.as_slice(), &version)?;
        Ok(RenpyArchive { reader, key, offset, version, content })
    }

    /// The version named by the first seven bytes, else the legacy version
    /// for a file name ending in `rpi`.
    pub fn version(reader: &[u8], file_name: &str) -> (r: RpaResult<RpaVersion>)
        ensures
            r matches Ok(v) ==> identify_spec(file_name.spec_bytes(), signature_tag(reader@)) == Some(v),
            r is Err ==> (r matches Err(RpaError::IdentifyVersion) && identify_spec(
                file_name.spec_bytes(),
                signature_tag(reader@),
            ) is None),
    {
        let n: usize = if reader.len() <= 7 {
            reader.len()
        } else {
            7
        };
        let mut tag: Vec<u8> = Vec::new();
        append_range(&mut tag, reader, 0, n);
        assert(tag@ =~= signature_tag(reader@));
        match identify_bytes(file_name.as_bytes(), tag.as_slice()) {
            Some(v) => Ok(v),
            None => Err(RpaError::IdentifyVersion),
        }
    }

    /// The index offset, the key and the contents that the header line and
    /// the index of an archive of the given version give.
    pub fn metadata(reader: &[u8], version: &RpaVersion) -> (r: RpaResult<(u64, Option<u64>, ContentMap)>)
        ensures
            r matches Ok(m) ==> m.2.wf() && metadata_ok(reader@, *version, m.0, m.1, m.2@),
            r matches Err(e) ==> metadata_error(reader@, *version, e),
    {
        let start: usize = if reader.len() <= 7 {
            reader.len()
        } else {
            7
        };
        let end = find_line_end(reader, start);
        if end == start {
            return Err(RpaError::ParseOffset);
        }
        let mut line: Vec<u8> = Vec::new();
        append_range(&mut line, reader, start, end - 1);
        let fields = split_fields(line.as_slice());
        assert(header_fields(reader@) == Some(fields_view(fields@)));
        if fields.len() < 2 {
            return Err(RpaError::ParseOffset);
        }
        let offset = match parse_hex(fields[1].as_slice()) {
            Some(o) => o,
            None => return Err(RpaError::ParseOffset),
        };
        let key: Option<u64> = match version {
            RpaVersion::V3_0 => match fold_keys(&fields, 2) {
                Some(k) => Some(k),
                None => return Err(RpaError::ParseKey),
            },
            RpaVersion::V3_2 => match fold_keys(&fields, 3) {
                Some(k) => Some(k),
                None => return Err(RpaError::ParseKey),
            },
            _ => None,
        };
        assert(header_key(reader@, *version) == Some(key));
        let mut region: Vec<u8> = Vec::new();
        if offset <= reader.len() as u64 {
            append_range(&mut region, reader, offset as usize, reader.len());
        }
        assert(region@ =~= index_region(reader@, offset));
        let plain = match inflate(region.as_slice()) {
            Ok(p) => p,
            Err(_) => return Err(RpaError::DeserializeRecord),
        };
        let decoded = match unpickle_index(plain.as_slice()) {
            Some(d) => d,
            None => return Err(RpaError::DeserializeRecord),
        };
        let content = decode_index(decoded, key)?;
        Ok((offset, key, content))
    }

    /// Write the archive to the end of `writer`, consuming it.
    ///
    /// A placeholder as long as the header comes first, then each content's
    /// bytes in order, then the index of the new records (no prefix; offsets
    /// and lengths obfuscated with the key for `RPA-3.0`, plain for `RPA-2.0`),
    /// pickled and compressed; the header is then written over the
    /// placeholder. Nothing is written for a version that cannot be written,
    /// nor for an `RPA-3.0` key wider than eight hexadecimal digits. Files are
    /// read through `read_file` as their turn comes; a failed read ends the
    /// work with its error, and what was written so far is to be discarded.
    #[verifier::rlimit(80)]
    pub fn flush<F>(self, read_file: &F, writer: &mut Vec<u8>) -> (r: RpaResult<()>) where
        F: Fn(&str) -> Result<Vec<u8>, std::io::Error>,
        requires
            self.wf(),
            forall|p: &str| read_file.requires((p,)),
        ensures
            !writable(self.version) ==> (r matches Err(RpaError::WritingNotSupported(v)) && v
                == self.version && final(writer)@ == old(writer)@),
            writable(self.version) && !key_fits(self.version, self.key) ==> (r matches Err(
                RpaError::KeyTooLarge(k),
            ) && k == key_or_zero(self.key) && final(writer)@ == old(writer)@),
            r is Ok ==> exists|payloads: Seq<Seq<u8>>, index: Map<Seq<char>, PickleValue>|
                flushed(
                    self.content@,
                    self.reader@,
                    *read_file,
                    self.version,
                    self.key,
                    payloads,
                    index,
                    old(writer)@,
                    final(writer)@,
                ),
            writable(self.version) && key_fits(self.version, self.key) && r is Err ==> (r matches Err(
                RpaError::Io(e),
            ) && exists|i: int|
                0 <= i < self.content@.len() && ((#[trigger] self.content@[i]).1 matches ContentView::File(p)
                    && file_fails(*read_file, p, e))),
            writable(self.version) && key_fits(self.version, self.key) && (forall|i: int|
                0 <= i < self.content@.len() ==> !((#[trigger] self.content@[i]).1 is File)) ==> r is Ok,
    {
        let header_length = self.version.header_length()?;
        let key: u64 = match self.key {
            Some(k) => k,
            None => 0,
        };
        if self.version == RpaVersion::V3_0 && key > 0xFFFF_FFFF {
            return Err(RpaError::KeyTooLarge(key));
        }
        let record_key: Option<u64> = if self.version == RpaVersion::V3_0 {
            self.key
        } else {
            None
        };
        let base = writer.len();
        let ghost before = writer@;
        let mut k: usize = 0;
        while k < header_length
            invariant
                k <= header_length,
                writer@ == before + zeros(k as nat),
            decreases header_length - k,
        {
            writer.push(0u8);
            assert(writer@ =~= before + zeros((k + 1) as nat));
            k = k + 1;
        }
        let ghost hl = header_len_spec(self.version);
        let ghost cv = self.content@;
        let entries = self.content.entries();
        let mut index: Vec<(String, PickleValue)> = Vec::new();
        let ghost mut payloads: Seq<Seq<u8>> = Seq::empty();
        let mut i: usize = 0;
        while i < entries.len()
            invariant
                writable(self.version),
                key_fits(self.version, self.key),
                key == key_or_zero(self.key),
                record_key == write_key(self.version, self.key),
                hl == header_length,
                hl == header_len_spec(self.version),
                base == before.len(),
                cv == self.content@,
                pairs_view(entries@) == cv,
                forall|j: int| 0 <= j < cv.len() ==> (#[trigger] cv[j]).1.wf(),
                forall|p: &str| read_file.requires((p,)),
                0 <= i <= entries@.len(),
                payloads.len() == i,
                writer@ == before + zeros(hl) + concat(payloads),
                forall|j: int| 0 <= j < i ==> materializes(cv[j].1, self.reader@, *read_file, #[trigger] payloads[j]),
                index@.len() == i,
                forall|j: int|
                    0 <= j < i ==> (#[trigger] index@[j]).0@ == cv[j].0 && encodes_fields(
                        index@[j].1,
                        masked(entry_offset(self.version, payloads, j) as u64, record_key),
                        masked(payloads[j].len() as u64, record_key),
                        None,
                    ),
            decreases entries@.len() - i,
        {
            let ghost at = writer@;
            let offset = (writer.len() - base) as u64;
            assert(cv[i as int].1 == entries@[i as int].1@);
            let length = match entries[i].1.copy_to(self.reader.as_slice(), read_file, writer) {
                Ok(n) => n,
                Err(e) => {
                    assert(cv[i as int].1 is File);
                    return Err(RpaError::Io(e));
                },
            };
            let ghost p = writer@.skip(at.len() as int);
            assert(writer@ =~= at + p);
            proof {
                assert(concat(payloads.push(p)) =~= concat(payloads) + p) by {
                    assert(payloads.push(p).drop_last() =~= payloads);
                }
                assert(payloads.push(p).take(i as int) =~= payloads);
                assert forall|j: int| 0 <= j < i implies #[trigger] payloads.push(p).take(j) =~= payloads.take(j) by {}
                assert(entry_offset(self.version, payloads.push(p), i as int) == offset);
                payloads = payloads.push(p);
            }
            let record = Record::new(offset, length, None, record_key);
            index.push((entries[i].0.clone(), record.into_value()));
            proof {
                assert forall|j: int| 0 <= j <= i implies materializes(cv[j].1, self.reader@, *read_file, #[trigger] payloads[j]) by {}
                assert forall|j: int| 0 <= j < i implies entry_offset(self.version, payloads, j) == entry_offset(self.version, payloads.drop_last(), j) by {
                    assert(payloads.take(j) =~= payloads.drop_last().take(j));
                }
            }
            i = i + 1;
        }
        let ghost iv = entries_view(index@);
        let ghost index_map = entries_map(iv);
        proof {
            assert forall|j: int| 0 <= j < iv.len() implies (#[trigger] iv[j]).0 == cv[j].0 && encodes_fields(
                iv[j].1,
                masked(entry_offset(self.version, payloads, j) as u64, write_key(self.version, self.key)),
                masked(payloads[j].len() as u64, write_key(self.version, self.key)),
                None,
            ) by {
                assert(index@[j].0@ == cv[j].0);
            }
            lemma_index_of_entries(cv, iv, self.version, self.key, payloads);
        }
        let index_offset = (writer.len() - base) as u64;
        let ghost body = writer@;
        let pickled = pickle_index(index)?;
        let compressed = match deflate(pickled.as_slice()) {
            Ok(c) => c,
            Err(e) => return Err(RpaError::Io(e)),
        };
        append_range(writer, compressed.as_slice(), 0, compressed.len());
        assert(compressed@.subrange(0, compressed@.len() as int) =~= compressed@);
        let header = self.version.format_header(index_offset, key)?;
        let ghost placed = writer@;
        overwrite_at(writer, base, header.as_slice());
        proof {
            assert(placed.take(base as int) =~= before);
            let rest = zeros(hl) + concat(payloads) + zlib_deflated(pickled_index(index_map));
            assert(placed.skip(base as int) =~= rest);
            assert(index_offset == hl + concat(payloads).len());
            assert(rest.skip(hl as int) =~= concat(payloads) + zlib_deflated(pickled_index(index_map)));
            assert(writer@ =~= before + flush_image(self.version, self.key, payloads, index_map));
            assert(flushed(cv, self.reader@, *read_file, self.version, self.key, payloads, index_map, before, writer@));
        }
        Ok(())
    }

    /// Append the bytes stored under `path` to `writer` and return how many
    /// there are; files are read through `read_file`.
    pub fn copy_file<F>(&self, path: &str, read_file: &F, writer: &mut Vec<u8>) -> (r: RpaResult<u64>) where
        F: Fn(&str) -> Result<Vec<u8>, std::io::Error>,
        requires
            self.wf(),
            forall|p: &str| read_file.requires((p,)),
        ensures
            stored(self.content@, path@) is None ==> (r matches Err(RpaError::NotFound(p)) && p@
                == path@ && final(writer)@ == old(writer)@),
            stored(self.content@, path@) matches Some(c) ==> match r {
                Ok(n) => final(writer)@.len() == old(writer)@.len() + n && final(writer)@.subrange(
                    0,
                    old(writer)@.len() as int,
                ) == old(writer)@ && materializes(c, self.reader@, *read_file, final(writer)@.skip(old(writer)@.len() as int)),
                Err(e) => final(writer)@ == old(writer)@ && (e matches RpaError::Io(ioe) && c matches ContentView::File(p)
                    && file_fails(*read_file, p, ioe)),
            },
    {
        match self.content.get(path) {
            Some(content) => match content.copy_to(self.reader.as_slice(), read_file, writer) {
                Ok(n) => Ok(n),
                Err(e) => Err(RpaError::Io(e)),
            },
            None => Err(RpaError::NotFound(path.to_owned())),
        }
    }
}

impl Default for RenpyArchive {
    fn default() -> (r: RenpyArchive)
        ensures
            r.wf(),
            r.reader@.len() == 0,
            r.offset == 0,
            r.version == RpaVersion::V3_0,
            r.key == Some(DEFAULT_KEY),
            r.content@.len() == 0,
    {
        RenpyArchive::new()
    }
}

} // verus!
