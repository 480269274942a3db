use gnrt::crates::ChromiumVendoredCrate;
use gnrt::crates::Epoch;
use gnrt::crates::EpochParseError;
use gnrt::crates::NormalizedName;
use gnrt::crates::Version;
use gnrt::crates::VersionReqError;

fn v(major: u64, minor: u64, patch: u64) -> Version {
    Version { major, minor, patch }
}

#[test]
fn epoch_from_str() {
    assert_eq!(Epoch::from_str("v1"), Ok(Epoch::Major(1)));
    assert_eq!(Epoch::from_str("v2"), Ok(Epoch::Major(2)));
    assert_eq!(Epoch::from_str("v0_3"), Ok(Epoch::Minor(3)));
    assert_eq!(Epoch::from_str("0_1"), Err(EpochParseError::BadFormat));
    assert_eq!(Epoch::from_str("v1_9"), Err(EpochParseError::BadVersion));
    assert_eq!(Epoch::from_str("v0_0"), Err(EpochParseError::BadVersion));
    assert_eq!(Epoch::from_str("v0_1_2"), Err(EpochParseError::BadFormat));
    assert_eq!(Epoch::from_str("v1_0"), Err(EpochParseError::BadVersion));
    assert!(matches!(Epoch::from_str("v1_0foo"), Err(EpochParseError::InvalidInt)));
    assert!(matches!(Epoch::from_str("vx_1"), Err(EpochParseError::InvalidInt)));
    assert_eq!(Epoch::from_str("v0"), Err(EpochParseError::BadVersion));
    assert_eq!(Epoch::from_str(""), Err(EpochParseError::BadFormat));
    assert_eq!(Epoch::from_str("v"), Err(EpochParseError::BadFormat));
    assert_eq!(Epoch::from_str("v1v2"), Err(EpochParseError::BadFormat));
}

#[test]
fn epoch_numeral_limits() {
    assert_eq!(
        Epoch::from_str("v18446744073709551615"),
        Ok(Epoch::Major(18446744073709551615))
    );
    assert!(matches!(
        Epoch::from_str("v18446744073709551616"),
        Err(EpochParseError::InvalidInt)
    ));
}

#[test]
fn epoch_to_string() {
    assert_eq!(Epoch::Major(1).to_string(), "v1");
    assert_eq!(Epoch::Major(2).to_string(), "v2");
    assert_eq!(Epoch::Minor(3).to_string(), "v0_3");
    assert_eq!(Epoch::Major(142).to_string(), "v142");
}

#[test]
fn epoch_round_trip() {
    for s in ["v1", "v2", "v12", "v0_3", "v0_57", "v100", "v0_100"] {
        let e = Epoch::from_str(s).unwrap();
        assert_eq!(e.to_string(), s);
    }
}

#[test]
fn epoch_to_version_string() {
    assert_eq!(Epoch::Major(1).to_version_string(), "1");
    assert_eq!(Epoch::Major(2).to_version_string(), "2");
    assert_eq!(Epoch::Minor(3).to_version_string(), "0.3");
}

#[test]
fn epoch_from_version() {
    assert_eq!(Epoch::from_version(&v(0, 1, 0)), Some(Epoch::Minor(1)));
    assert_eq!(Epoch::from_version(&v(1, 2, 0)), Some(Epoch::Major(1)));
    assert_eq!(Epoch::from_version(&v(0, 0, 5)), None);
}

#[test]
fn epoch_from_version_req_str() {
    assert_eq!(Epoch::from_version_req_str("0.1.0"), Ok(Epoch::Minor(1)));
    assert_eq!(Epoch::from_version_req_str("1.0.0"), Ok(Epoch::Major(1)));
    assert_eq!(Epoch::from_version_req_str("2.3.0"), Ok(Epoch::Major(2)));
    assert_eq!(
        Epoch::from_version_req_str("not a req"),
        Err(VersionReqError::Parse)
    );
    assert_eq!(
        Epoch::from_version_req_str(">=1.0, <2.0"),
        Err(VersionReqError::NotOneComparator)
    );
    assert_eq!(
        Epoch::from_version_req_str("=1.2.3"),
        Err(VersionReqError::NotDefault)
    );
    assert_eq!(
        Epoch::from_version_req_str("0.0.1"),
        Err(VersionReqError::NoEpoch)
    );
}

#[test]
fn epoch_ordering() {
    // Epochs order as (major, minor) tuples: every major-zero epoch sorts
    // before every nonzero-major epoch.
    assert!(Epoch::Minor(5) < Epoch::Major(1));
    assert!(Epoch::Minor(1) < Epoch::Minor(2));
    assert!(Epoch::Major(1) < Epoch::Major(2));
    assert!(v(0, 9, 9) < v(1, 0, 0));
    assert!(v(1, 2, 3) < v(1, 2, 4));
}

#[test]
fn normalized_names() {
    assert_eq!(NormalizedName::from_crate_name("foo-bar.baz").as_str(), "foo_bar_baz");
    assert_eq!(NormalizedName::from_crate_name("plain").as_str(), "plain");
    assert!(NormalizedName::new("ok_name").is_some());
    assert!(NormalizedName::new("bad-name").is_none());
    assert!(NormalizedName::new("bad.name").is_none());
}

#[test]
fn vendored_crate_paths() {
    let c = ChromiumVendoredCrate { name: String::from("foo-bar"), epoch: Epoch::Major(1) };
    assert_eq!(c.normalized_name().as_str(), "foo_bar");
    assert_eq!(c.build_path(), "foo_bar/v1");
    assert_eq!(c.crate_path(), "foo_bar/v1/crate");
    assert_eq!(c.patch_name(), "foo-bar_v1");
    let c2 = ChromiumVendoredCrate { name: String::from("baz"), epoch: Epoch::Minor(7) };
    assert_eq!(c2.build_path(), "baz/v0_7");
    assert_eq!(c2.crate_path(), "baz/v0_7/crate");
    assert_eq!(c2.patch_name(), "baz_v0_7");
}
