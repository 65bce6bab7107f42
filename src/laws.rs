use vstd::prelude::*;

use crate::archive::{
    concat, decoded_contents, entry_offset, flush_image, flushed, fold_key, header_bytes, header_fields,
    header_key, header_offset, index_decodes, index_region, key_fits, key_or_zero, line_end, read_error,
    read_ok, signature_tag, split_on_space, write_key, zeros, RenpyArchive,
};
use crate::content::{stored, ContentView};
use crate::error::RpaError;
use crate::hex::{
    hex_width, lemma_hex_width_digits, lemma_hex_width_len, lemma_padded_hex_len, lemma_parse_padded_hex,
    lemma_pow16_values, padded_hex,
};
use crate::pickle::{entries_map, key_index, keys_unique, lemma_key_index, lemma_key_index_unique, pickled_index, unpickled_index, PickleValue};
use crate::record::{decode_record, encodes_fields, masked, record_fields, section, signed_of, unsigned_of, RecordView};
use crate::version::{header_len_spec, identify_spec, signature_of, writable, RpaVersion};
use crate::zlib::{zlib_deflated, zlib_inflated};

verus! {

/// Obfuscating an offset and a length with a key and deobfuscating them with
/// the same key gives them back.
pub proof fn lemma_obfuscation_involution(start: u64, length: u64, key: Option<u64>)
    ensures
        masked(masked(start, key), key) == start,
        masked(masked(length, key), key) == length,
{
    match key {
        Some(k) => {
            assert((start ^ k) ^ k == start) by (bit_vector);
            assert((length ^ k) ^ k == length) by (bit_vector);
        },
        None => {},
    }
}

/// Deobfuscating with a key other than the one used never gives the value
/// back.
pub proof fn lemma_other_key_differs(x: u64, key: u64, other: u64)
    requires
        key != other,
    ensures
        (x ^ key) ^ other != x,
{
    assert((x ^ key) ^ other != x) by (bit_vector)
        requires
            key != other,
    ;
}

/// The header line of a writable version is as long as the version's header
/// length, for every offset and every key that the version can write.
pub proof fn lemma_header_length(version: RpaVersion, offset: u64, key: u64)
    requires
        writable(version),
        key_fits(version, Some(key)),
    ensures
        header_bytes(version, offset, key).len() == header_len_spec(version),
{
    lemma_pow16_values();
    lemma_padded_hex_len(offset as nat, 16);
    if version == RpaVersion::V3_0 {
        lemma_padded_hex_len(key as nat, 8);
    }
}

proof fn lemma_concat_append(a: Seq<Seq<u8>>, b: Seq<Seq<u8>>)
    ensures
        concat(a + b) == concat(a) + concat(b),
    decreases b.len(),
{
    if b.len() == 0 {
        assert(a + b =~= a);
        assert(concat(b) =~= Seq::<u8>::empty());
        assert(concat(a) + concat(b) =~= concat(a));
    } else {
        lemma_concat_append(a, b.drop_last());
        assert((a + b).drop_last() =~= a + b.drop_last());
        assert((a + b).last() == b.last());
        assert(concat(a + b) =~= concat(a) + concat(b));
    }
}

/// The `i`-th payload lies in the concatenation right after those before it.
proof fn lemma_payload_in_concat(s: Seq<Seq<u8>>, i: int)
    requires
        0 <= i < s.len(),
    ensures
        concat(s.take(i)).len() + s[i].len() <= concat(s).len(),
        concat(s).subrange(concat(s.take(i)).len() as int, (concat(s.take(i)).len() + s[i].len()) as int) == s[i],
{
    let a = s.take(i + 1);
    let b = s.skip(i + 1);
    assert(s =~= a + b);
    lemma_concat_append(a, b);
    assert(a.drop_last() =~= s.take(i));
    assert(a.last() == s[i]);
    assert(concat(a) == concat(s.take(i)) + s[i]);
    let p = concat(s.take(i)).len() as int;
    assert(concat(s).subrange(p, p + s[i].len()) =~= s[i]);
}

/// Where the header is as long as its placeholder, the `i`-th payload lies in
/// the written archive at its entry offset.
proof fn lemma_payload_in_image(
    version: RpaVersion,
    key: Option<u64>,
    payloads: Seq<Seq<u8>>,
    index: Map<Seq<char>, PickleValue>,
    i: int,
)
    requires
        writable(version),
        key_fits(version, key),
        0 <= i < payloads.len(),
    ensures
        ({
            let image = flush_image(version, key, payloads, index);
            let start = entry_offset(version, payloads, i) as int;
            &&& start + payloads[i].len() <= image.len()
            &&& image.subrange(start, start + payloads[i].len()) == payloads[i]
        }),
{
    let hl = header_len_spec(version);
    let body = concat(payloads);
    let h = header_bytes(version, (hl + body.len()) as u64, key_or_zero(key));
    lemma_header_length(version, (hl + body.len()) as u64, key_or_zero(key));
    let image = flush_image(version, key, payloads, index);
    lemma_payload_in_concat(payloads, i);
    let p = concat(payloads.take(i)).len() as int;
    let start = hl + p;
    assert(image.subrange(start, start + payloads[i].len()) =~= body.subrange(p, p + payloads[i].len()));
}

/// When an archive is written, a record's prefix comes first in its payload,
/// at the record's new offset, and the new index entry for its path has no
/// prefix and a length that counts the prefix together with the body bytes.
pub proof fn lemma_prefix_baked_in<F: Fn(&str) -> Result<Vec<u8>, std::io::Error>>(
    entries: Seq<(Seq<char>, ContentView)>,
    reader: Seq<u8>,
    read_file: F,
    version: RpaVersion,
    key: Option<u64>,
    payloads: Seq<Seq<u8>>,
    index: Map<Seq<char>, PickleValue>,
    before: Seq<u8>,
    after: Seq<u8>,
    i: int,
)
    requires
        flushed(entries, reader, read_file, version, key, payloads, index, before, after),
        0 <= i < entries.len(),
        entries[i].1 is Record,
    ensures
        ({
            let r = entries[i].1->Record_0;
            let start = (before.len() + entry_offset(version, payloads, i)) as int;
            &&& after.subrange(start, start + r.prefix_bytes().len()) == r.prefix_bytes()
            &&& payloads[i].len() == r.prefix_bytes().len() + section(reader, r.start, r.body_len()).len()
            &&& encodes_fields(
                index[entries[i].0],
                masked(entry_offset(version, payloads, i) as u64, write_key(version, key)),
                masked(payloads[i].len() as u64, write_key(version, key)),
                None,
            )
        }),
{
    let r = entries[i].1->Record_0;
    let image = flush_image(version, key, payloads, index);
    let p = payloads[i];
    assert(after == before + image);
    assert(crate::content::materializes(entries[i].1, reader, read_file, p));
    assert(p == r.bytes_in(reader));
    lemma_payload_in_image(version, key, payloads, index, i);
    let off = entry_offset(version, payloads, i) as int;
    let n = r.prefix_bytes().len() as int;
    assert(image.subrange(off, off + p.len()) == p);
    let start = before.len() + off;
    assert(after.subrange(start, start + n) =~= p.subrange(0, n));
    assert(p.subrange(0, n) =~= r.prefix_bytes());
}

proof fn lemma_line_end(data: Seq<u8>, from: int, j: int)
    requires
        0 <= from <= j < data.len(),
        data[j] == 10u8,
        forall|m: int| from <= m < j ==> data[m] != 10u8,
    ensures
        line_end(data, from) == j + 1,
    decreases j - from,
{
    if from < j {
        lemma_line_end(data, from + 1, j);
    }
}

proof fn lemma_split_len(s: Seq<u8>)
    ensures
        split_on_space(s).len() >= 1,
    decreases s.len(),
{
    if s.len() > 0 {
        lemma_split_len(s.drop_last());
    }
}

/// Appending bytes without a space extends the last piece.
proof fn lemma_split_no_space(s: Seq<u8>, t: Seq<u8>)
    requires
        forall|j: int| 0 <= j < t.len() ==> t[j] != 32u8,
    ensures
        split_on_space(s + t) == split_on_space(s).update(
            split_on_space(s).len() - 1,
            split_on_space(s).last() + t,
        ),
    decreases t.len(),
{
    lemma_split_len(s);
    if t.len() == 0 {
        assert(s + t =~= s);
        assert(split_on_space(s).last() + t =~= split_on_space(s).last());
        assert(split_on_space(s).update(split_on_space(s).len() - 1, split_on_space(s).last()) =~= split_on_space(s));
    } else {
        lemma_split_no_space(s, t.drop_last());
        assert((s + t).drop_last() =~= s + t.drop_last());
        assert((s + t).last() == t.last());
        let prev = split_on_space(s);
        let mid = split_on_space(s + t.drop_last());
        assert(mid.len() == prev.len());
        assert(t[t.len() - 1] != 32u8);
        assert(split_on_space(s + t) == mid.update(mid.len() - 1, mid.last().push(t.last())));
        assert((prev.last() + t.drop_last()).push(t.last()) =~= prev.last() + t);
        assert(mid.last() == prev.last() + t.drop_last());
        assert(split_on_space(s + t) =~= prev.update(prev.len() - 1, prev.last() + t));
    }
}

proof fn lemma_split_space(s: Seq<u8>)
    ensures
        split_on_space(s.push(32u8)) == split_on_space(s).push(Seq::empty()),
{
    assert(s.push(32u8).drop_last() =~= s);
}

proof fn lemma_no_space_in_digits(n: nat, w: nat)
    ensures
        forall|j: int| 0 <= j < hex_width(n, w).len() ==> hex_width(n, w)[j] != 32u8 && hex_width(n, w)[j] != 10u8,
{
    lemma_hex_width_digits(n, w);
    assert forall|j: int| 0 <= j < hex_width(n, w).len() implies hex_width(n, w)[j] != 32u8 && hex_width(n, w)[j] != 10u8 by {
        let c = hex_width(n, w)[j];
        assert(48 <= c <= 57 || 97 <= c <= 102);
    }
}

/// The key that the header of a written archive gives back.
pub open spec fn written_key(version: RpaVersion, key: Option<u64>) -> Option<u64> {
    if version == RpaVersion::V3_0 {
        Some(key_or_zero(key))
    } else {
        None
    }
}

/// The header line of a written archive reads back as its offset and key.
proof fn lemma_header_reads_back(version: RpaVersion, offset: u64, key: u64, rest: Seq<u8>)
    requires
        writable(version),
        key_fits(version, Some(key)),
    ensures
        ({
            let data = header_bytes(version, offset, key) + rest;
            &&& signature_tag(data) == signature_of(version)
            &&& header_offset(data) == Some(offset)
            &&& header_key(data, version) == Some(written_key(version, Some(key)))
        }),
{
    lemma_pow16_values();
    lemma_header_length(version, offset, key);
    lemma_parse_padded_hex(offset, 16);
    let h16 = padded_hex(offset as nat, 16);
    lemma_hex_width_len(offset as nat, 16);
    lemma_no_space_in_digits(offset as nat, 16);
    let h = header_bytes(version, offset, key);
    let data = h + rest;
    let hl = header_len_spec(version) as int;
    assert(data.subrange(0, 7) =~= signature_of(version));
    assert(signature_tag(data) == signature_of(version));
    assert(data[hl - 1] == 10u8);
    let sp: Seq<u8> = seq![32u8];
    lemma_split_space(Seq::empty());
    assert(Seq::<u8>::empty().push(32u8) =~= sp);
    assert(split_on_space(Seq::empty()) =~= seq![Seq::<u8>::empty()]);
    lemma_split_no_space(sp, h16);
    assert(split_on_space(sp + h16) =~= seq![Seq::<u8>::empty(), h16]);
    if version == RpaVersion::V3_0 {
        lemma_parse_padded_hex(key, 8);
        let h8 = padded_hex(key as nat, 8);
        lemma_hex_width_len(key as nat, 8);
        lemma_no_space_in_digits(key as nat, 8);
        assert forall|m: int| 7 <= m < hl - 1 implies data[m] != 10u8 by {
            if 8 <= m < 24 {
                assert(data[m] == h16[m - 8]);
            } else if 25 <= m < 33 {
                assert(data[m] == h8[m - 25]);
            }
        }
        lemma_line_end(data, 7, hl - 1);
        lemma_split_space(sp + h16);
        assert((sp + h16).push(32u8) =~= sp + h16 + sp);
        lemma_split_no_space(sp + h16 + sp, h8);
        assert(data.subrange(7, hl - 1) =~= sp + h16 + sp + h8);
        let fields = split_on_space(data.subrange(7, hl - 1));
        assert(fields =~= seq![Seq::<u8>::empty(), h16, h8]);
        assert(header_fields(data) == Some(fields));
        assert(fields.subrange(2, 3) =~= seq![h8]);
        assert(seq![h8].drop_last() =~= Seq::<Seq<u8>>::empty());
        assert(0u64 ^ key == key) by (bit_vector);
        assert(fold_key(Seq::<Seq<u8>>::empty()) == Some(0u64));
        assert(seq![h8].last() == h8);
        assert(fold_key(seq![h8]) == Some(key));
    } else {
        assert forall|m: int| 7 <= m < hl - 1 implies data[m] != 10u8 by {
            if 8 <= m < 24 {
                assert(data[m] == h16[m - 8]);
            }
        }
        lemma_line_end(data, 7, hl - 1);
        assert(data.subrange(7, hl - 1) =~= sp + h16);
        assert(header_fields(data) == Some(seq![Seq::<u8>::empty(), h16]));
    }
}

proof fn lemma_encoded_decodes(value: PickleValue, start: u64, length: u64, key: Option<u64>, key2: Option<u64>)
    requires
        encodes_fields(value, masked(start, key), masked(length, key), None),
        forall|x: u64| masked(x, key2) == #[trigger] masked(x, key),
    ensures
        decode_record(value, key2) == Some(RecordView { start, length, prefix: None }),
{
    let s1 = masked(start, key);
    let l1 = masked(length, key);
    assert(record_fields(value) == Some((signed_of(s1), signed_of(l1), None::<Vec<u8>>)));
    assert(unsigned_of(signed_of(s1)) == s1);
    assert(unsigned_of(signed_of(l1)) == l1);
    lemma_obfuscation_involution(start, length, key);
    assert(masked(s1, key2) == masked(s1, key));
    assert(masked(l1, key2) == masked(l1, key));
}

/// Contents held in memory, written into an empty sink, read back: the
/// archive opens, with the same version, exactly the same paths, and for each
/// path a record whose bytes in the written archive are the content's bytes.
///
pub proof fn lemma_round_trip<F: Fn(&str) -> Result<Vec<u8>, std::io::Error>>(
    entries: Seq<(Seq<char>, ContentView)>,
    reader: Seq<u8>,
    read_file: F,
    version: RpaVersion,
    key: Option<u64>,
    payloads: Seq<Seq<u8>>,
    index: Map<Seq<char>, PickleValue>,
    image: Seq<u8>,
    name: Seq<u8>,
)
    requires
        keys_unique(entries),
        forall|i: int| 0 <= i < entries.len() ==> (#[trigger] entries[i]).1 is Raw,
        image.len() <= u64::MAX,
        flushed(entries, reader, read_file, version, key, payloads, index, Seq::empty(), image),
    ensures
        forall|e: RpaError| !read_error(image, name, e),
        forall|a: RenpyArchive|
            read_ok(image, name, a) ==> {
                &&& a.version == version
                &&& forall|k: Seq<char>| key_index(a.content@, k) >= 0 <==> key_index(entries, k) >= 0
                &&& forall|i: int|
                    0 <= i < entries.len() ==> (stored(a.content@, (#[trigger] entries[i]).0) matches Some(
                        ContentView::Record(r),
                    ) && r.bytes_in(image) == entries[i].1->Raw_0)
            },
{
    let hl = header_len_spec(version);
    let body = concat(payloads);
    let offset = (hl + body.len()) as u64;
    let k0 = key_or_zero(key);
    let h = header_bytes(version, offset, k0);
    let zd = zlib_deflated(pickled_index(index));
    lemma_header_length(version, offset, k0);
    assert(image =~= Seq::<u8>::empty() + flush_image(version, key, payloads, index));
    assert(image =~= h + (body + zd));
    assert(offset == hl + body.len());
    lemma_header_reads_back(version, offset, k0, body + zd);
    let key2 = written_key(version, key);
    let wk = write_key(version, key);
    assert(forall|x: u64| masked(x, key2) == #[trigger] masked(x, wk)) by {
        assert forall|x: u64| masked(x, key2) == #[trigger] masked(x, wk) by {
            if key_or_zero(key) == 0 {
                assert(x ^ 0u64 == x) by (bit_vector);
            }
        }
    }
    assert(index_region(image, offset) =~= zd);
    assert(zlib_inflated(index_region(image, offset)) == Some(pickled_index(index)));
    assert(unpickled_index(pickled_index(index)) == Some(index));
    assert(signature_of(RpaVersion::V3_2)[6] != signature_of(RpaVersion::V3_0)[6]);
    assert(signature_of(RpaVersion::V3_2)[4] != signature_of(RpaVersion::V2_0)[4]);
    assert(signature_of(RpaVersion::V3_0)[4] != signature_of(RpaVersion::V2_0)[4]);
    assert(identify_spec(name, signature_tag(image)) == Some(version));
    assert forall|k: Seq<char>| #[trigger] index.contains_key(k) implies decode_record(index[k], key2) == Some(
        RecordView {
            start: entry_offset(version, payloads, key_index(entries, k)) as u64,
            length: payloads[key_index(entries, k)].len() as u64,
            prefix: None,
        },
    ) && key_index(entries, k) >= 0 by {
        let i = key_index(entries, k);
        lemma_key_index(entries, k);
        assert(entries[i].0 == k);
        lemma_encoded_decodes(
            index[k],
            entry_offset(version, payloads, i) as u64,
            payloads[i].len() as u64,
            wk,
            key2,
        );
    }
    assert(index_decodes(index, key2));
    assert forall|e: RpaError| !read_error(image, name, e) by {}
    assert forall|a: RenpyArchive| read_ok(image, name, a) implies {
        &&& a.version == version
        &&& forall|k: Seq<char>| key_index(a.content@, k) >= 0 <==> key_index(entries, k) >= 0
        &&& forall|i: int|
            0 <= i < entries.len() ==> (stored(a.content@, (#[trigger] entries[i]).0) matches Some(
                ContentView::Record(r),
            ) && r.bytes_in(image) == entries[i].1->Raw_0)
    } by {
        let c = a.content@;
        assert(a.key == key2);
        assert(entries_map(c) == decoded_contents(index, key2));
        assert forall|k: Seq<char>| key_index(c, k) >= 0 <==> key_index(entries, k) >= 0 by {
            lemma_key_index(c, k);
            lemma_key_index(entries, k);
        }
        assert forall|i: int| 0 <= i < entries.len() implies (stored(c, (#[trigger] entries[i]).0) matches Some(
            ContentView::Record(r),
        ) && r.bytes_in(image) == entries[i].1->Raw_0) by {
            let k = entries[i].0;
            lemma_key_index_unique(entries, i);
            lemma_key_index(entries, k);
            lemma_key_index(c, k);
            assert(index.contains_key(k));
            let r = RecordView {
                start: entry_offset(version, payloads, i) as u64,
                length: payloads[i].len() as u64,
                prefix: None,
            };
            assert(stored(c, k) == Some(ContentView::Record(r)));
            lemma_payload_in_image(version, key, payloads, index, i);
            let off = entry_offset(version, payloads, i) as int;
            assert(image.subrange(off, off + payloads[i].len()) == payloads[i]);
            assert(r.prefix_bytes() =~= Seq::<u8>::empty());
            assert(r.bytes_in(image) =~= payloads[i]);
            assert(crate::content::materializes(entries[i].1, reader, read_file, payloads[i]));
        }
    }
}

} // verus!
