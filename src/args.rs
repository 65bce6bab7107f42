use vstd::prelude::*;
use vstd::string::{StrSliceExecFns, StringExecFns, StringSliceAdditionalSpecFns};

use crate::hex::{parse_hex, parse_hex_spec};
use crate::version::RpaVersion;

verus! {

/// The versions that archives can be written in.
#[derive(Clone, Copy, Debug, PartialEq, Eq, Structural)]
pub enum WriteVersion {
    /// Version 3.0.
    V3,
    /// Version 2.0.
    V2,
}

impl WriteVersion {
    /// `"3"` or `"2"`; any other text is refused with a message.
    pub fn parse(s: &str) -> (r: Result<WriteVersion, String>)
        ensures
            s@ == seq!['3'] ==> r == Ok::<WriteVersion, String>(WriteVersion::V3),
            s@ == seq!['2'] ==> r == Ok::<WriteVersion, String>(WriteVersion::V2),
            s@ != seq!['3'] && s@ != seq!['2'] ==> r is Err,
    {
        if s.unicode_len() == 1 {
            let c = s.get_char(0);
            if c == '3' {
                assert(s@ =~= seq!['3']);
                return Ok(WriteVersion::V3);
            } else if c == '2' {
                assert(s@ =~= seq!['2']);
                return Ok(WriteVersion::V2);
            }
        }
        let mut message = String::from_str("'");
        message.append(s);
        message.append("' not recognized or supported as a write version.");
        Err(message)
    }

    /// The version as it is written on the command line.
    pub fn as_str(&self) -> (r: &'static str) {
        match self {
            WriteVersion::V3 => "3",
            WriteVersion::V2 => "2",
        }
    }

    /// The archive version this stands for.
    pub fn rpa_version(&self) -> (r: RpaVersion)
        ensures
            *self == WriteVersion::V3 ==> r == RpaVersion::V3_0,
            *self == WriteVersion::V2 ==> r == RpaVersion::V2_0,
    {
        match self {
            WriteVersion::V3 => RpaVersion::V3_0,
            WriteVersion::V2 => RpaVersion::V2_0,
        }
    }
}

impl Default for WriteVersion {
    fn default() -> (r: WriteVersion)
        ensures
            r == WriteVersion::V3,
    {
        WriteVersion::V3
    }
}

impl std::str::FromStr for WriteVersion {
    type Err = String;

    fn from_str(s: &str) -> Result<WriteVersion, String> {
        WriteVersion::parse(s)
    }
}

/// What paths given on the command line are relative to.
#[derive(Clone, Copy, Debug, PartialEq, Eq, Structural)]
pub enum RelativeTo {
    /// The archive's directory.
    Archive,
    /// The working directory.
    Current,
}

fn str_is(s: &str, word: &str) -> (r: bool)
    ensures
        r == (s@ == word@),
{
    let n = s.unicode_len();
    if n != word.unicode_len() {
        return false;
    }
    let mut i: usize = 0;
    while i < n
        invariant
            n == s@.len(),
            n == word@.len(),
            0 <= i <= n,
            forall|j: int| 0 <= j < i ==> s@[j] == word@[j],
        decreases n - i,
    {
        if s.get_char(i) != word.get_char(i) {
            return false;
        }
        i = i + 1;
    }
    assert(s@ =~= word@);
    true
}

impl RelativeTo {
    /// `"archive"` or `"current"`; any other text is refused with a message.
    pub fn parse(s: &str) -> (r: Result<RelativeTo, String>)
        ensures
            s@ == "archive"@ ==> r == Ok::<RelativeTo, String>(RelativeTo::Archive),
            s@ == "current"@ ==> r == Ok::<RelativeTo, String>(RelativeTo::Current),
            s@ != "archive"@ && s@ != "current"@ ==> r is Err,
    {
        proof {
            reveal_strlit("archive");
            reveal_strlit("current");
            assert("archive"@[0] != "current"@[0]);
        }
        if str_is(s, "archive") {
            Ok(RelativeTo::Archive)
        } else if str_is(s, "current") {
            Ok(RelativeTo::Current)
        } else {
            let mut message = String::from_str("unrecognised relative format '");
            message.append(s);
            message.append("'.");
            Err(message)
        }
    }
}

impl std::str::FromStr for RelativeTo {
    type Err = String;

    fn from_str(s: &str) -> Result<RelativeTo, String> {
        RelativeTo::parse(s)
    }
}

/// An obfuscation key given in hexadecimal.
#[derive(Clone, Copy, Debug, PartialEq, Eq, Structural)]
pub struct HexKey(pub u64);

impl HexKey {
    /// The key that `s` writes in hexadecimal, as `u64::from_str_radix` with
    /// radix 16 reads it.
    pub fn parse(s: &str) -> (r: Result<HexKey, String>)
        ensures
            r is Ok <==> parse_hex_spec(s.spec_bytes()) is Some,
            r matches Ok(k) ==> Some(k.0) == parse_hex_spec(s.spec_bytes()),
    {
        match parse_hex(s.as_bytes()) {
            Some(k) => Ok(HexKey(k)),
            None => {
                let mut message = String::from_str("'");
                message.append(s);
                message.append("' is not a hexadecimal key.");
                Err(message)
            },
        }
    }
}

impl std::str::FromStr for HexKey {
    type Err = String;

    fn from_str(s: &str) -> Result<HexKey, String> {
        HexKey::parse(s)
    }
}

/// A path in the archive and, when it differs, the file that it is read from.
#[derive(Clone, Debug, PartialEq, Eq)]
pub struct MappedPath {
    /// The path in the archive.
    pub key: String,
    /// The file, when it is not the archive path itself.
    pub value: Option<String>,
}

/// The index of the first `c` in `s`, if any.
pub open spec fn first_index_of(s: Seq<char>, c: char) -> Option<int> {
    if exists|i: int| 0 <= i < s.len() && s[i] == c {
        Some(choose|i: int| 0 <= i < s.len() && s[i] == c && forall|j: int| 0 <= j < i ==> s[j] != c)
    } else {
        None
    }
}

impl MappedPath {
    /// `archive_path=file_path`, split at the first `=`, or a path alone.
    pub fn parse(s: &str) -> (r: MappedPath)
        ensures
            match first_index_of(s@, '=') {
                Some(i) => r.key@ == s@.subrange(0, i) && (r.value matches Some(v) && v@
                    == s@.subrange(i + 1, s@.len() as int)),
                None => r.key@ == s@ && r.value is None,
            },
    {
        let n = s.unicode_len();
        let mut i: usize = 0;
        while i < n
            invariant
                n == s@.len(),
                0 <= i <= n,
                forall|j: int| 0 <= j < i ==> s@[j] != '=',
            decreases n - i,
        {
            if s.get_char(i) == '=' {
                let ghost w = i as int;
                assert(0 <= w < s@.len() && s@[w] == '=' && forall|j: int| 0 <= j < w ==> s@[j] != '=');
                let ghost f = first_index_of(s@, '=')->Some_0;
                assert(f == w) by {
                    if f < w {
                        assert(s@[f] != '=');
                    } else if f > w {
                        assert(s@[w] != '=');
                    }
                }
                let key = s.substring_char(0, i).to_owned();
                let value = s.substring_char(i + 1, n).to_owned();
                return MappedPath { key, value: Some(value) };
            }
            i = i + 1;
        }
        MappedPath { key: s.to_owned(), value: None }
    }

    /// The archive path and the file path.
    pub fn into_pair(self) -> (r: (String, String))
        ensures
            r.0@ == self.key@,
            self.value matches Some(v) ==> r.1@ == v@,
            self.value is None ==> r.1@ == self.key@,
    {
        match self.value {
            Some(v) => (self.key, v),
            None => {
                let k = self.key.clone();
                (self.key, k)
            },
        }
    }

    /// The text form: `key=value`, or the key alone.
    pub fn to_text(&self) -> (r: String)
        ensures
            self.value matches Some(v) ==> r@ == self.key@ + seq!['='] + v@,
            self.value is None ==> r@ == self.key@,
    {
        let mut out = self.key.clone();
        match &self.value {
            Some(v) => {
                out.append("=");
                proof {
                    reveal_strlit("=");
                }
                out.append(v.as_str());
            },
            None => {},
        }
        out
    }
}

impl std::str::FromStr for MappedPath {
    type Err = String;

    fn from_str(s: &str) -> Result<MappedPath, String> {
        Ok(MappedPath::parse(s))
    }
}

} // verus!
