use dep_catalog::epoch::Epoch;
use dep_catalog::error::MalformedVersion;
use dep_catalog::version::parse_version;
use dep_catalog::version::CoreVersion;

fn exact(text: &str) -> Epoch {
    Epoch::Exact(text.to_string())
}

#[test]
fn classifies_major_versions() {
    assert_eq!(Epoch::from_version("1.0.0"), Ok(Epoch::Major(1)));
    assert_eq!(Epoch::from_version("1.2.3"), Ok(Epoch::Major(1)));
    assert_eq!(Epoch::from_version("12.0.7"), Ok(Epoch::Major(12)));
    assert_eq!(Epoch::from_version("2.0.0-rc.1"), Ok(Epoch::Major(2)));
    assert_eq!(Epoch::from_version("1.99.99-rc.1+build.5"), Ok(Epoch::Major(1)));
}

#[test]
fn major_epoch_ignores_minor_and_patch() {
    let texts = ["3.0.0", "3.0.1", "3.1.0", "3.14.15", "3.0.0-alpha", "3.9.9+meta"];
    for text in texts {
        assert_eq!(Epoch::from_version(text), Ok(Epoch::Major(3)), "{}", text);
    }
}

#[test]
fn classifies_minor_versions() {
    assert_eq!(Epoch::from_version("0.3.0"), Ok(Epoch::Minor(3)));
    assert_eq!(Epoch::from_version("0.3.14"), Ok(Epoch::Minor(3)));
    assert_eq!(Epoch::from_version("0.10.2-alpha"), Ok(Epoch::Minor(10)));
    assert_eq!(Epoch::from_version("0.1.0+build"), Ok(Epoch::Minor(1)));
}

#[test]
fn zero_zero_versions_are_their_own_bucket() {
    assert_eq!(Epoch::from_version("0.0.1"), Ok(exact("0.0.1")));
    assert_eq!(Epoch::from_version("0.0.2"), Ok(exact("0.0.2")));
    assert_eq!(Epoch::from_version("0.0.0"), Ok(exact("0.0.0")));
    assert_eq!(Epoch::from_version("0.0.1-alpha"), Ok(exact("0.0.1-alpha")));
    assert_ne!(Epoch::from_version("0.0.1"), Epoch::from_version("0.0.2"));
    assert_ne!(Epoch::from_version("0.0.1"), Epoch::from_version("0.0.1-alpha"));
    assert_eq!(Epoch::from_version("0.0.7"), Epoch::from_version("0.0.7"));
}

#[test]
fn rejects_malformed_versions() {
    let texts = [
        "",
        "1",
        "1.2",
        "1.2.3.4",
        "01.2.3",
        "1.02.3",
        "1.2.03",
        "00.0.0",
        "a.b.c",
        "1.q.r",
        "1.2.3-",
        "1.2.3+",
        "1.2.3-+x",
        "1.2.3-01",
        "1.2.3-a..b",
        "1.2.3-a.",
        "1.2.3-.a",
        "1.2.3+a..b",
        "1.2.3+a+b",
        "1.2.3-a_b",
        " 1.2.3",
        "1.2.3 ",
        "v1.2.3",
        "1.2.3-\u{e9}",
        "\u{661}.2.3",
        "18446744073709551616.0.0",
        "1.18446744073709551616.0",
        "1.0.99999999999999999999",
        "1..3",
        ".1.2",
        "1.2.",
        "-1.2.3",
        "+1.2.3",
        "1.2-3",
        "1.2+3",
        "1-2.3",
    ];
    for text in texts {
        assert_eq!(Epoch::from_version(text), Err(MalformedVersion), "{:?}", text);
        assert_eq!(parse_version(text), None, "{:?}", text);
    }
}

#[test]
fn accepts_the_largest_numbers() {
    assert_eq!(Epoch::from_version("18446744073709551615.0.0"), Ok(Epoch::Major(u64::MAX)));
    assert_eq!(Epoch::from_version("0.18446744073709551615.0"), Ok(Epoch::Minor(u64::MAX)));
    assert_eq!(
        parse_version("0.0.18446744073709551615"),
        Some(CoreVersion { major: 0, minor: 0, patch: u64::MAX })
    );
}

#[test]
fn parse_version_reads_three_numbers() {
    assert_eq!(parse_version("10.20.30"), Some(CoreVersion { major: 10, minor: 20, patch: 30 }));
    assert_eq!(
        parse_version("10.20.30-x.7.z-1+y.007"),
        Some(CoreVersion { major: 10, minor: 20, patch: 30 })
    );
    assert_eq!(parse_version("0.0.0"), Some(CoreVersion { major: 0, minor: 0, patch: 0 }));
    assert_eq!(parse_version("1.0.0-0"), Some(CoreVersion { major: 1, minor: 0, patch: 0 }));
    assert_eq!(parse_version("1.0.0-0a"), Some(CoreVersion { major: 1, minor: 0, patch: 0 }));
    assert_eq!(parse_version("1.0.0--"), Some(CoreVersion { major: 1, minor: 0, patch: 0 }));
    assert_eq!(parse_version("1.0.0+01"), Some(CoreVersion { major: 1, minor: 0, patch: 0 }));
    assert_eq!(parse_version("1.0.0+a-b"), Some(CoreVersion { major: 1, minor: 0, patch: 0 }));
    assert_eq!(parse_version("1.0.0-a-b+c-d"), Some(CoreVersion { major: 1, minor: 0, patch: 0 }));
    assert_eq!(
        parse_version("0.9.0+wasi-snapshot-preview1"),
        Some(CoreVersion { major: 0, minor: 9, patch: 0 })
    );
}

#[test]
fn agrees_with_the_semver_grammar() {
    let texts = [
        "1.0.0",
        "0.1.0",
        "0.0.1",
        "1.2.3-alpha",
        "1.2.3-alpha.1",
        "1.2.3-0.3.7",
        "1.2.3-x.7.z.92",
        "1.2.3-x-y-z.--",
        "1.2.3+20130313144700",
        "1.2.3-beta+exp.sha.5114f85",
        "1.2.3+21AF26D3----117B344092BD",
        "1.2.3-00",
        "1.2.3-0.00",
        "1.2.3-0.0a",
        "1.2.3+0.00",
        "1.2.3-a+",
        "1.2.3-+",
        "1.2.3+-",
        "1.2.3--",
        "1.2.3-a.b.c+d.e.f",
        "1.2.3-a+b-c",
        "1.2.3+b-c.d",
        "1.2.3-a+b+c",
        "01.2.3",
        "1.2",
        "1.2.3.4",
        "",
        ".",
        "..",
        "0.0.0",
        "0.0.00",
        "1.2.3-a b",
        "1.2.3\n",
        "1.2.3-\u{df}",
        "18446744073709551615.18446744073709551615.18446744073709551615",
        "18446744073709551616.0.0",
        "1.2.3-18446744073709551616",
        "9999999999999999999999.1.1",
        "1.0.0-alpha.beta.1",
        "1.0.0-rc.1+build.1",
        "2.0.0-rc.1+build.123",
        "1.0.0-alpha..",
        "1.0.0+.",
        "1.0.0-.",
        "=1.2.3",
        "*",
        "1.x.0",
        "1.2.3-A.B-c",
    ];
    for text in texts {
        let theirs = semver::Version::parse(text).ok();
        let ours = parse_version(text);
        match (&theirs, &ours) {
            (Some(v), Some(c)) => {
                assert_eq!((v.major, v.minor, v.patch), (c.major, c.minor, c.patch), "{:?}", text);
            }
            (None, None) => {}
            _ => panic!("{:?}: {:?} against {:?}", text, theirs, ours),
        }
        let epoch = Epoch::from_version(text).ok();
        let expected = theirs.map(|v| {
            if v.major > 0 {
                Epoch::Major(v.major)
            } else if v.minor > 0 {
                Epoch::Minor(v.minor)
            } else {
                Epoch::Exact(text.to_string())
            }
        });
        assert_eq!(epoch, expected, "{:?}", text);
    }
}

#[test]
fn epochs_are_ordered_by_variant_then_value() {
    let ascending = [
        exact("0.0.1"),
        exact("0.0.1-alpha"),
        exact("0.0.2"),
        Epoch::Minor(1),
        Epoch::Minor(2),
        Epoch::Minor(u64::MAX),
        Epoch::Major(1),
        Epoch::Major(7),
    ];
    for i in 0..ascending.len() {
        for j in 0..ascending.len() {
            let a = &ascending[i];
            let b = &ascending[j];
            assert_eq!(a.precedes(b), i < j, "{:?} {:?}", a, b);
            assert_eq!(a.precedes(b), a < b, "{:?} {:?}", a, b);
            assert_eq!(a.same(b), i == j, "{:?} {:?}", a, b);
            assert_eq!(a.same(b), a == b, "{:?} {:?}", a, b);
        }
    }
}

#[test]
fn cloned_epoch_is_the_same_epoch() {
    for e in [exact("0.0.9"), Epoch::Minor(4), Epoch::Major(2)] {
        let copy = e.clone();
        assert_eq!(copy, e);
        assert!(copy.same(&e));
    }
}
