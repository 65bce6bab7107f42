use vstd::prelude::*;

use crate::error::{RpaError, RpaResult};
use crate::pickle::PickleValue;

verus! {

/// Where one path's bytes lie in an archive body.
///
/// `length` counts the `prefix` too: the bytes read from the body are the
/// `length - prefix.len()` bytes from `start` on.
#[derive(Debug, PartialEq, Eq)]
pub struct Record {
    /// Offset of the first body byte.
    pub start: u64,
    /// Length of the data, prefix included.
    pub length: u64,
    /// Bytes written ahead of the body bytes.
    pub prefix: Option<Vec<u8>>,
}

/// `x` obfuscated (or deobfuscated) with an optional key.
pub open spec fn masked(x: u64, key: Option<u64>) -> u64 {
    match key {
        Some(k) => x ^ k,
        None => x,
    }
}

pub open spec fn prefix_bytes(prefix: Option<Vec<u8>>) -> Seq<u8> {
    match prefix {
        Some(p) => p@,
        None => Seq::empty(),
    }
}

/// The bytes of `reader` from `start` on, at most `len` of them.
pub open spec fn section(reader: Seq<u8>, start: u64, len: nat) -> Seq<u8> {
    if start >= reader.len() {
        Seq::empty()
    } else if start + len <= reader.len() {
        reader.subrange(start as int, start + len)
    } else {
        reader.subrange(start as int, reader.len() as int)
    }
}

/// The two's-complement reading of a `u64` as an `i64`, as `x as i64` does.
pub open spec fn signed_of(x: u64) -> i64 {
    if x <= i64::MAX {
        x as i64
    } else {
        (x - 0x1_0000_0000_0000_0000) as i64
    }
}

/// The two's-complement reading of an `i64` as a `u64`, as `x as u64` does.
pub open spec fn unsigned_of(x: i64) -> u64 {
    if x >= 0 {
        x as u64
    } else {
        (x + 0x1_0000_0000_0000_0000) as u64
    }
}

fn to_signed(x: u64) -> (r: i64)
    ensures
        r == signed_of(x),
{
    if x <= i64::MAX as u64 {
        x as i64
    } else {
        (x - 1 - i64::MAX as u64) as i64 + i64::MIN
    }
}

fn to_unsigned(x: i64) -> (r: u64)
    ensures
        r == unsigned_of(x),
{
    if x >= 0 {
        x as u64
    } else {
        ((x - i64::MIN) as u64) + (i64::MAX as u64) + 1
    }
}

/// The integers and prefix of a serialized record value: a list whose only
/// item is a list of two integers, or of two integers and a byte string.
pub open spec fn record_fields(value: PickleValue) -> Option<(i64, i64, Option<Vec<u8>>)> {
    match value {
        PickleValue::List(outer) => if outer@.len() == 1 {
            match outer@[0] {
                PickleValue::List(inner) => if inner@.len() == 2 {
                    match (inner@[0], inner@[1]) {
                        (PickleValue::Int(s), PickleValue::Int(l)) => Some((s, l, None)),
                        _ => None,
                    }
                } else if inner@.len() == 3 {
                    match (inner@[0], inner@[1], inner@[2]) {
                        (PickleValue::Int(s), PickleValue::Int(l), PickleValue::Bytes(p)) => Some(
                            (s, l, Some(p)),
                        ),
                        _ => None,
                    }
                } else {
                    None
                },
                _ => None,
            }
        } else {
            None
        },
        _ => None,
    }
}

/// The record that a serialized value stands for, deobfuscated with `key`;
/// `None` when the value has another shape or the prefix is longer than the
/// length.
pub open spec fn decode_record(value: PickleValue, key: Option<u64>) -> Option<RecordView> {
    match record_fields(value) {
        Some(f) => {
            let r = RecordView {
                start: masked(unsigned_of(f.0), key),
                length: masked(unsigned_of(f.1), key),
                prefix: match f.2 {
                    Some(p) => Some(p@),
                    None => None,
                },
            };
            if r.wf() {
                Some(r)
            } else {
                None
            }
        },
        None => None,
    }
}

/// `value` is the serialized form of a record with these fields: a list
/// holding one list of the two integers, and of the prefix when there is one.
pub open spec fn encodes_fields(value: PickleValue, start: u64, length: u64, prefix: Option<Vec<u8>>) -> bool {
    match value {
        PickleValue::List(outer) => outer@.len() == 1 && match outer@[0] {
            PickleValue::List(inner) => match prefix {
                None => inner@ == seq![PickleValue::Int(signed_of(start)), PickleValue::Int(signed_of(length))],
                Some(p) => inner@ == seq![
                    PickleValue::Int(signed_of(start)),
                    PickleValue::Int(signed_of(length)),
                    PickleValue::Bytes(p),
                ],
            },
            _ => false,
        },
        _ => false,
    }
}

/// A record as plain values.
pub struct RecordView {
    pub start: u64,
    pub length: u64,
    pub prefix: Option<Seq<u8>>,
}

impl RecordView {
    pub open spec fn prefix_bytes(&self) -> Seq<u8> {
        match self.prefix {
            Some(p) => p,
            None => Seq::empty(),
        }
    }

    /// The prefix fits in the length.
    pub open spec fn wf(&self) -> bool {
        self.prefix_bytes().len() <= self.length
    }

    /// How many bytes are read from the body.
    pub open spec fn body_len(&self) -> nat {
        (self.length - self.prefix_bytes().len()) as nat
    }

    /// The bytes the record stands for in `reader`: its prefix, then what the
    /// body holds of its range.
    pub open spec fn bytes_in(&self, reader: Seq<u8>) -> Seq<u8> {
        self.prefix_bytes() + section(reader, self.start, self.body_len())
    }
}

impl View for Record {
    type V = RecordView;

    open spec fn view(&self) -> RecordView {
        RecordView {
            start: self.start,
            length: self.length,
            prefix: match self.prefix {
                Some(p) => Some(p@),
                None => None,
            },
        }
    }
}

impl Record {
    pub open spec fn wf(&self) -> bool {
        self@.wf()
    }

    /// A record from `start` and `length` run through the key, if any.
    ///
    /// The same call turns stored values into real ones and real values into
    /// stored ones, since xor with a key undoes itself.
    pub fn new(start: u64, length: u64, prefix: Option<Vec<u8>>, key: Option<u64>) -> (r: Record)
        ensures
            r.start == masked(start, key),
            r.length == masked(length, key),
            r.prefix == prefix,
    {
        let (start, length) = match key {
            Some(key) => (start ^ key, length ^ key),
            None => (start, length),
        };
        Record { start, length, prefix }
    }

    /// A record from its serialized value, deobfuscated with `key`.
    ///
    /// Fails with `FormatRecord` unless the value is a list holding one item,
    /// `[start, length]` or `[start, length, prefix]`, with a prefix no longer
    /// than the length.
    pub fn from_value(value: PickleValue, key: Option<u64>) -> (r: RpaResult<Record>)
        ensures
            r is Ok <==> decode_record(value, key) is Some,
            r matches Ok(rec) ==> rec@ == decode_record(value, key)->Some_0,
            r matches Err(e) ==> e is FormatRecord,
    {
        let mut outer = match value {
            PickleValue::List(outer) => outer,
            _ => return Err(RpaError::FormatRecord),
        };
        if outer.len() != 1 {
            return Err(RpaError::FormatRecord);
        }
        let mut inner = match outer.swap_remove(0) {
            PickleValue::List(inner) => inner,
            _ => return Err(RpaError::FormatRecord),
        };
        let ghost items = inner@;
        if inner.len() != 2 && inner.len() != 3 {
            return Err(RpaError::FormatRecord);
        }
        let prefix = if inner.len() == 3 {
            match inner.pop() {
                Some(PickleValue::Bytes(p)) => Some(p),
                _ => return Err(RpaError::FormatRecord),
            }
        } else {
            None
        };
        let length = match inner.pop() {
            Some(PickleValue::Int(l)) => l,
            _ => return Err(RpaError::FormatRecord),
        };
        let start = match inner.pop() {
            Some(PickleValue::Int(s)) => s,
            _ => return Err(RpaError::FormatRecord),
        };
        let record = Record::new(to_unsigned(start), to_unsigned(length), prefix, key);
        let prefix_len: usize = match &record.prefix {
            Some(p) => p.len(),
            None => 0,
        };
        if (prefix_len as u64) > record.length {
            return Err(RpaError::FormatRecord);
        }
        Ok(record)
    }

    /// The serialized value of the record: `[[start, length]]`, or
    /// `[[start, length, prefix]]` when there is a prefix.
    pub fn into_value(self) -> (r: PickleValue)
        ensures
            encodes_fields(r, self.start, self.length, self.prefix),
    {
        let mut inner: Vec<PickleValue> = Vec::new();
        inner.push(PickleValue::Int(to_signed(self.start)));
        inner.push(PickleValue::Int(to_signed(self.length)));
        match self.prefix {
            Some(p) => {
                inner.push(PickleValue::Bytes(p));
                assert(inner@ =~= seq![
                    PickleValue::Int(signed_of(self.start)),
                    PickleValue::Int(signed_of(self.length)),
                    PickleValue::Bytes(p),
                ]);
            },
            None => {
                assert(inner@ =~= seq![
                    PickleValue::Int(signed_of(self.start)),
                    PickleValue::Int(signed_of(self.length)),
                ]);
            },
        }
        let mut outer: Vec<PickleValue> = Vec::new();
        outer.push(PickleValue::List(inner));
        PickleValue::List(outer)
    }

    /// How many bytes are read from the body: the length without the prefix.
    fn actual_length(&self) -> (r: u64)
        requires
            self.wf(),
        ensures
            r == self@.body_len(),
    {
        match &self.prefix {
            Some(p) => self.length - p.len() as u64,
            None => self.length,
        }
    }

    /// Append the record's bytes to `writer`: the prefix, then the body bytes
    /// of its range that `reader` holds. Returns how many bytes were written.
    pub fn copy_section(&self, reader: &[u8], writer: &mut Vec<u8>) -> (r: u64)
        requires
            self.wf(),
        ensures
            final(writer)@ == old(writer)@ + self@.bytes_in(reader@),
            r == self@.bytes_in(reader@).len(),
    {
        let ghost start_len = writer@.len();
        let mut written: u64 = 0;
        match &self.prefix {
            Some(p) => {
                append_range(writer, p.as_slice(), 0, p.len());
                written = p.len() as u64;
                assert(p@.subrange(0, p@.len() as int) == p@);
            },
            None => {},
        }
        let body = self.actual_length();
        if self.start < reader.len() as u64 {
            let from = self.start as usize;
            let available = reader.len() - from;
            let to: usize = if body <= available as u64 {
                from + body as usize
            } else {
                reader.len()
            };
            append_range(writer, reader, from, to);
            written = written + (to - from) as u64;
        }
        written
    }
}

/// Append `src[from..to]` to `out`.
pub(crate) fn append_range(out: &mut Vec<u8>, src: &[u8], from: usize, to: usize)
    requires
        from <= to <= src@.len(),
    ensures
        final(out)@ == old(out)@ + src@.subrange(from as int, to as int),
{
    let mut i = from;
    while i < to
        invariant
            from <= i <= to <= src@.len(),
            out@ == old(out)@ + src@.subrange(from as int, i as int),
        decreases to - i,
    {
        out.push(src[i]);
        assert(src@.subrange(from as int, i + 1) == src@.subrange(from as int, i as int).push(src@[i as int]));
        i = i + 1;
    }
}

} // verus!
