use krates::errors::Error;
use krates::pkgspec::PkgSpec;
use krates::version::Version;

#[test]
fn name() {
    let spec: PkgSpec = "bitflags".parse().unwrap();

    assert_eq!("bitflags", spec.name);
    assert!(spec.version.is_none());
    assert!(spec.url.is_none());
}

#[test]
fn name_and_version() {
    let spec: PkgSpec = "bitflags:1.0.4".parse().unwrap();

    assert_eq!("bitflags", spec.name);
    assert_eq!(Version::parse("1.0.4").unwrap(), spec.version.unwrap());
    assert!(spec.url.is_none());
}

#[test]
fn url() {
    let spec: PkgSpec = "https://github.com/rust-lang/cargo".parse().unwrap();

    assert_eq!("cargo", spec.name);
    assert!(spec.version.is_none());
    assert_eq!("https://github.com/rust-lang/cargo", spec.url.unwrap());
}

#[test]
fn url_and_version() {
    let spec: PkgSpec = "https://github.com/rust-lang/cargo#0.33.0".parse().unwrap();

    assert_eq!("cargo", spec.name);
    assert_eq!(Version::parse("0.33.0").unwrap(), spec.version.unwrap());
    assert_eq!("https://github.com/rust-lang/cargo", spec.url.unwrap());
}

#[test]
fn url_and_name() {
    let spec: PkgSpec = "https://github.com/rust-lang/crates.io-index#bitflags"
        .parse()
        .unwrap();

    assert_eq!("bitflags", spec.name);
    assert!(spec.version.is_none());
    assert_eq!(
        "https://github.com/rust-lang/crates.io-index",
        spec.url.unwrap()
    );
}

#[test]
fn url_and_name_and_version() {
    let spec: PkgSpec = "https://github.com/rust-lang/cargo#crates-io:0.21.0"
        .parse()
        .unwrap();

    assert_eq!("crates-io", spec.name);
    assert_eq!(Version::parse("0.21.0").unwrap(), spec.version.unwrap());
    assert_eq!("https://github.com/rust-lang/cargo", spec.url.unwrap());
}

#[test]
fn no_proto() {
    let spec: PkgSpec = "crates.io/foo".parse().unwrap();

    assert_eq!("foo", spec.name);
    assert!(spec.version.is_none());
    assert_eq!("cargo://crates.io/foo", spec.url.unwrap());
}

#[test]
fn no_proto_and_version() {
    let spec: PkgSpec = "crates.io/foo#1.2.3".parse().unwrap();

    assert_eq!("foo", spec.name);
    assert_eq!(Version::parse("1.2.3").unwrap(), spec.version.unwrap());
    assert_eq!("cargo://crates.io/foo", spec.url.unwrap());
}

#[test]
fn no_proto_and_name_and_version() {
    let spec: PkgSpec = "crates.io/foo#1.2.3".parse().unwrap();

    assert_eq!("foo", spec.name);
    assert_eq!(Version::parse("1.2.3").unwrap(), spec.version.unwrap());
    assert_eq!("cargo://crates.io/foo", spec.url.unwrap());
}

#[test]
fn disallow_no_path() {
    let nopes = [
        "https://crates.io#1.2.3",
        "https://crates.io",
        "https://crates.io#foo",
    ];

    for nope in &nopes {
        match nope.parse::<PkgSpec>().unwrap_err() {
            Error::InvalidPkgSpec(err) => assert_eq!(err, "path required for urls"),
            nope => panic!("didn't expect {:?}", nope),
        }
    }

    for nope in &["https://crates.io/", "crates.io/#1.2.3"] {
        match nope.parse::<PkgSpec>().unwrap_err() {
            Error::InvalidPkgSpec(err) => assert_eq!(err, "url ends with /"),
            nope => panic!("didn't expect {:?}", nope),
        }
    }

    for nope in &["crates.io#foo", "crates.io#1.2.3"] {
        match nope.parse::<PkgSpec>().unwrap_err() {
            Error::InvalidPkgSpec(err) => {
                assert_eq!(err, "found an invalid character for the package name");
            }
            nope => panic!("didn't expect {:?}", nope),
        }
    }
}

#[test]
fn invalid_spec_message() {
    let err = "crates.io#foo".parse::<PkgSpec>().unwrap_err();
    assert_eq!(
        err.message(),
        "package spec was invalid: found an invalid character for the package name"
    );
    assert_eq!(Error::NoRootKrates.message(), "no root crates available");
    assert_eq!(Error::NoResolveGraph.message(), "no resolution graph was provided");
}

#[test]
fn name_with_version_and_bad_version() {
    assert!("bitflags:1.x".parse::<PkgSpec>().is_err());
    let spec: PkgSpec = "foo_bar-2".parse().unwrap();
    assert_eq!("foo_bar-2", spec.name);
}
