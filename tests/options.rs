use warpalib::{HexKey, RelativeTo, RpaVersion, WriteVersion};

#[test]
fn write_version_parses_and_converts() {
    assert_eq!("3".parse::<WriteVersion>(), Ok(WriteVersion::V3));
    assert_eq!("2".parse::<WriteVersion>(), Ok(WriteVersion::V2));
    assert!("4".parse::<WriteVersion>().is_err());
    assert_eq!(WriteVersion::default(), WriteVersion::V3);
    assert_eq!(WriteVersion::V3.rpa_version(), RpaVersion::V3_0);
    assert_eq!(WriteVersion::V2.rpa_version(), RpaVersion::V2_0);
    assert_eq!(WriteVersion::V2.as_str(), "2");
}

#[test]
fn relative_to_parses() {
    assert_eq!("archive".parse::<RelativeTo>(), Ok(RelativeTo::Archive));
    assert_eq!("current".parse::<RelativeTo>(), Ok(RelativeTo::Current));
    assert_eq!(
        "elsewhere".parse::<RelativeTo>(),
        Err(String::from("unrecognised relative format 'elsewhere'."))
    );
}

#[test]
fn hex_key_parses_like_from_str_radix() {
    assert_eq!("deadbeef".parse::<HexKey>(), Ok(HexKey(0xDEADBEEF)));
    assert_eq!("+FF".parse::<HexKey>(), Ok(HexKey(0xff)));
    assert_eq!("ffffffffffffffff".parse::<HexKey>(), Ok(HexKey(u64::MAX)));
    assert!("10000000000000000".parse::<HexKey>().is_err());
    assert!("".parse::<HexKey>().is_err());
    assert!("+".parse::<HexKey>().is_err());
    assert!("12g".parse::<HexKey>().is_err());
}
