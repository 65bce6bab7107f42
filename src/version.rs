use vstd::prelude::*;

use vstd::string::StrSliceExecFns;

use crate::error::{RpaError, RpaResult};

verus! {

/// The revisions of the archive format.
#[derive(Clone, Copy, Debug, PartialEq, Eq, Structural)]
pub enum RpaVersion {
    /// `RPA-3.2`: read only.
    V3_2,
    /// `RPA-3.0`: obfuscated, read and write.
    V3_0,
    /// `RPA-2.0`: plain offsets, read and write.
    V2_0,
    /// The legacy `.rpi` revision: read only.
    V1_0,
}

/// The seven signature bytes of a given version, if it has one.
pub open spec fn signature_of(v: RpaVersion) -> Seq<u8> {
    match v {
        RpaVersion::V3_2 => seq![82u8, 80, 65, 45, 51, 46, 50],
        RpaVersion::V3_0 => seq![82u8, 80, 65, 45, 51, 46, 48],
        RpaVersion::V2_0 => seq![82u8, 80, 65, 45, 50, 46, 48],
        RpaVersion::V1_0 => Seq::empty(),
    }
}

/// The bytes `rpi`.
pub open spec fn legacy_suffix() -> Seq<u8> {
    seq![114u8, 112, 105]
}

pub open spec fn ends_with(s: Seq<u8>, suffix: Seq<u8>) -> bool {
    s.len() >= suffix.len() && s.subrange(s.len() - suffix.len(), s.len() as int) == suffix
}

/// The version named by a signature `tag` (compared byte for byte), else the
/// legacy version when `name` ends in `rpi`.
pub open spec fn identify_spec(name: Seq<u8>, tag: Seq<u8>) -> Option<RpaVersion> {
    if tag == signature_of(RpaVersion::V3_2) {
        Some(RpaVersion::V3_2)
    } else if tag == signature_of(RpaVersion::V3_0) {
        Some(RpaVersion::V3_0)
    } else if tag == signature_of(RpaVersion::V2_0) {
        Some(RpaVersion::V2_0)
    } else if ends_with(name, legacy_suffix()) {
        Some(RpaVersion::V1_0)
    } else {
        None
    }
}

/// Whether archives of the version can be written.
pub open spec fn writable(v: RpaVersion) -> bool {
    v == RpaVersion::V3_0 || v == RpaVersion::V2_0
}

/// The byte length of the header line that a writable version produces.
pub open spec fn header_len_spec(v: RpaVersion) -> nat {
    match v {
        RpaVersion::V3_0 => 34,
        RpaVersion::V2_0 => 25,
        _ => 0,
    }
}

pub(crate) fn bytes_equal(a: &[u8], b: &[u8]) -> (r: bool)
    ensures
        r == (a@ == b@),
{
    if a.len() != b.len() {
        return false;
    }
    let mut i: usize = 0;
    while i < a.len()
        invariant
            a@.len() == b@.len(),
            0 <= i <= a@.len(),
            a@.subrange(0, i as int) == b@.subrange(0, i as int),
        decreases a@.len() - i,
    {
        if a[i] != b[i] {
            assert(a@[i as int] != b@[i as int]);
            return false;
        }
        assert(a@.subrange(0, i + 1) == a@.subrange(0, i as int).push(a@[i as int]));
        assert(b@.subrange(0, i + 1) == b@.subrange(0, i as int).push(b@[i as int]));
        i = i + 1;
    }
    assert(a@ == a@.subrange(0, a@.len() as int));
    assert(b@ == b@.subrange(0, b@.len() as int));
    true
}

pub(crate) fn bytes_end_with(s: &[u8], suffix: &[u8]) -> (r: bool)
    ensures
        r == ends_with(s@, suffix@),
{
    if s.len() < suffix.len() {
        return false;
    }
    let start = s.len() - suffix.len();
    let mut i: usize = 0;
    while i < suffix.len()
        invariant
            start + suffix@.len() == s@.len(),
            s@.len() == s.len(),
            0 <= i <= suffix@.len(),
            forall|j: int| 0 <= j < i ==> s@[start + j] == suffix@[j],
        decreases suffix@.len() - i,
    {
        if s[start + i] != suffix[i] {
            assert(s@.subrange(start as int, s@.len() as int)[i as int] != suffix@[i as int]);
            return false;
        }
        i = i + 1;
    }
    assert(s@.subrange(start as int, s@.len() as int) =~= suffix@);
    true
}

/// The version named by the signature bytes `tag`, falling back to the
/// legacy version for a file name ending in `rpi`.
pub(crate) fn identify_bytes(file_name: &[u8], tag: &[u8]) -> (r: Option<RpaVersion>)
    ensures
        r == identify_spec(file_name@, tag@),
{
    let v32: [u8; 7] = [82u8, 80, 65, 45, 51, 46, 50];
    let v30: [u8; 7] = [82u8, 80, 65, 45, 51, 46, 48];
    let v20: [u8; 7] = [82u8, 80, 65, 45, 50, 46, 48];
    let rpi: [u8; 3] = [114u8, 112, 105];
    assert(v32@ == signature_of(RpaVersion::V3_2));
    assert(v30@ == signature_of(RpaVersion::V3_0));
    assert(v20@ == signature_of(RpaVersion::V2_0));
    assert(rpi@ == legacy_suffix());
    if bytes_equal(tag, v32.as_slice()) {
        Some(RpaVersion::V3_2)
    } else if bytes_equal(tag, v30.as_slice()) {
        Some(RpaVersion::V3_0)
    } else if bytes_equal(tag, v20.as_slice()) {
        Some(RpaVersion::V2_0)
    } else if bytes_end_with(file_name, rpi.as_slice()) {
        Some(RpaVersion::V1_0)
    } else {
        None
    }
}

/// The signature of a version as text.
pub open spec fn text_signature(v: RpaVersion) -> Seq<char> {
    match v {
        RpaVersion::V3_2 => seq!['R', 'P', 'A', '-', '3', '.', '2'],
        RpaVersion::V3_0 => seq!['R', 'P', 'A', '-', '3', '.', '0'],
        RpaVersion::V2_0 => seq!['R', 'P', 'A', '-', '2', '.', '0'],
        RpaVersion::V1_0 => Seq::empty(),
    }
}

/// The version that the signature text `tag` names, else the legacy version
/// when `name` ends in `rpi`.
pub open spec fn identify_text(name: Seq<char>, tag: Seq<char>) -> Option<RpaVersion> {
    if tag == text_signature(RpaVersion::V3_2) {
        Some(RpaVersion::V3_2)
    } else if tag == text_signature(RpaVersion::V3_0) {
        Some(RpaVersion::V3_0)
    } else if tag == text_signature(RpaVersion::V2_0) {
        Some(RpaVersion::V2_0)
    } else if name.len() >= 3 && name.subrange(name.len() - 3, name.len() as int) == seq!['r', 'p', 'i'] {
        Some(RpaVersion::V1_0)
    } else {
        None
    }
}

/// Whether `s` ends with `suffix`, or, when `whole` is set, equals it.
fn chars_end_with(s: &str, suffix: &[char], whole: bool) -> (r: bool)
    ensures
        whole ==> r == (s@ == suffix@),
        !whole ==> r == (s@.len() >= suffix@.len() && s@.subrange(
            s@.len() - suffix@.len(),
            s@.len() as int,
        ) == suffix@),
{
    let n = s.unicode_len();
    if n < suffix.len() || (whole && n != suffix.len()) {
        return false;
    }
    let start = n - suffix.len();
    let mut i: usize = 0;
    while i < suffix.len()
        invariant
            n == s@.len(),
            start + suffix@.len() == n,
            whole ==> start == 0,
            0 <= i <= suffix@.len(),
            forall|j: int| 0 <= j < i ==> s@[start + j] == suffix@[j],
        decreases suffix@.len() - i,
    {
        if s.get_char(start + i) != suffix[i] {
            assert(s@.subrange(start as int, n as int)[i as int] != suffix@[i as int]);
            return false;
        }
        i = i + 1;
    }
    assert(s@.subrange(start as int, n as int) =~= suffix@);
    if whole {
        assert(s@ =~= s@.subrange(0, n as int));
    }
    true
}

impl RpaVersion {
    /// Identify the version from the header signature `version` and the
    /// archive's file name.
    ///
    /// `RPA-3.2`, `RPA-3.0` and `RPA-2.0` name their versions; any other
    /// signature means the legacy version when the file name ends in `rpi`.
    pub fn identify(file_name: &str, version: &str) -> (r: Option<RpaVersion>)
        ensures
            r == identify_text(file_name@, version@),
    {
        let v32: [char; 7] = ['R', 'P', 'A', '-', '3', '.', '2'];
        let v30: [char; 7] = ['R', 'P', 'A', '-', '3', '.', '0'];
        let v20: [char; 7] = ['R', 'P', 'A', '-', '2', '.', '0'];
        let rpi: [char; 3] = ['r', 'p', 'i'];
        assert(v32@ == text_signature(RpaVersion::V3_2));
        assert(v30@ == text_signature(RpaVersion::V3_0));
        assert(v20@ == text_signature(RpaVersion::V2_0));
        assert(rpi@ == seq!['r', 'p', 'i']);
        if chars_end_with(version, v32.as_slice(), true) {
            Some(RpaVersion::V3_2)
        } else if chars_end_with(version, v30.as_slice(), true) {
            Some(RpaVersion::V3_0)
        } else if chars_end_with(version, v20.as_slice(), true) {
            Some(RpaVersion::V2_0)
        } else if chars_end_with(file_name, rpi.as_slice(), false) {
            Some(RpaVersion::V1_0)
        } else {
            None
        }
    }

    /// The byte length of the header line written for this version.
    pub fn header_length(&self) -> (r: RpaResult<usize>)
        ensures
            writable(*self) ==> (r matches Ok(n) && n == header_len_spec(*self)),
            !writable(*self) ==> (r matches Err(RpaError::WritingNotSupported(v)) && v == *self),
    {
        match self {
            RpaVersion::V3_0 => Ok(34),
            RpaVersion::V2_0 => Ok(25),
            RpaVersion::V3_2 | RpaVersion::V1_0 => Err(RpaError::WritingNotSupported(*self)),
        }
    }

    /// The version's name: `v3.2`, `v3.0`, `v2.0` or `v1.0`.
    pub fn as_str(&self) -> (r: &'static str) {
        match self {
            RpaVersion::V3_2 => "v3.2",
            RpaVersion::V3_0 => "v3.0",
            RpaVersion::V2_0 => "v2.0",
            RpaVersion::V1_0 => "v1.0",
        }
    }

    /// Whether archives of this version can be written.
    pub fn write_support(&self) -> (r: bool)
        ensures
            r == writable(*self),
    {
        match self {
            RpaVersion::V3_0 | RpaVersion::V2_0 => true,
            RpaVersion::V3_2 | RpaVersion::V1_0 => false,
        }
    }
}

} // verus!
