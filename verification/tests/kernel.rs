use memtrack::kernel::{kernel_release, KernelBtf, KernelError, KernelVersion, VersionError};

#[test]
fn parses_release_strings() {
    for (release, expected) in [
        ("6.8", KernelVersion::new(6, 8)),
        ("6.8.0-51-generic\n", KernelVersion::new(6, 8)),
        ("5.15.0-1234-aws", KernelVersion::new(5, 15)),
        ("6.15.0-rc3", KernelVersion::new(6, 15)),
        ("7.1.5-arch1-1", KernelVersion::new(7, 1)),
    ] {
        assert_eq!(
            KernelVersion::parse(release).unwrap(),
            expected,
            "{release}"
        );
    }

    assert!(KernelVersion::parse("6").is_err());
    assert!(KernelVersion::parse("").is_err());
    assert!(KernelVersion::parse("linux").is_err());
}

/// Minor versions must compare numerically: a lexical comparison would put
/// 6.15 before 6.9 and misjudge every floor between them.
#[test]
fn orders_by_major_then_minor() {
    assert!(KernelVersion::new(6, 9) < KernelVersion::new(6, 15));
    assert!(KernelVersion::new(5, 15) < KernelVersion::new(6, 8));
    assert!(KernelVersion::new(7, 0) > KernelVersion::new(6, 15));
}

/// The format must match a host's, or every version check reads as an error
/// instead of a version.
#[test]
fn reads_running_kernel() {
    KernelVersion::current(Some("6.8.0-51-generic\n")).unwrap();
}

#[test]
fn a_release_that_lacks_a_number_is_an_error() {
    assert_eq!(KernelVersion::parse("linux"), Err(VersionError::NoMajor));
    assert_eq!(KernelVersion::parse(".8"), Err(VersionError::NoMajor));
    assert_eq!(KernelVersion::parse("6"), Err(VersionError::NoMinor));
    assert_eq!(KernelVersion::parse("6.x"), Err(VersionError::NoMinor));
    assert_eq!(KernelVersion::parse("6.12+"), Ok(KernelVersion::new(6, 12)));
    assert_eq!(
        KernelVersion::parse("4294967296.1"),
        Err(VersionError::NoMajor)
    );
    assert_eq!(KernelVersion::parse(" 6-8 "), Ok(KernelVersion::new(6, 8)));
}

#[test]
fn an_unknown_kernel_is_an_error() {
    assert_eq!(KernelVersion::current(None), Err(KernelError::ReadRelease));
    assert_eq!(
        KernelVersion::current(Some("linux\n")),
        Err(KernelError::ParseRelease {
            release: "linux".to_string(),
            cause: VersionError::NoMajor
        })
    );
}

#[test]
fn a_version_is_written_with_a_dot() {
    assert_eq!(KernelVersion::new(6, 15).to_string(), "6.15");
    assert_eq!(KernelVersion::new(0, u32::MAX).to_string(), "0.4294967295");
    assert_eq!(
        KernelVersion::parse(&KernelVersion::new(10, 0).to_string()),
        Ok(KernelVersion::new(10, 0))
    );
}

#[test]
fn the_release_is_trimmed() {
    assert_eq!(kernel_release(" 6.12.8+\n"), "6.12.8+");
    assert_eq!(kernel_release("\u{2003}6\u{a0}"), "6");
}

#[test]
fn a_kernel_without_btf_is_refused_by_name() {
    assert_eq!(KernelBtf::ensure_available(true, None), Ok(()));
    let message = |release: &str| {
        format!(
            "Memory profiling is not supported on this runner: its kernel ({release}) was built \
             without BTF, so /sys/kernel/btf/vmlinux does not exist. Use a runner whose kernel is \
             built with CONFIG_DEBUG_INFO_BTF=y."
        )
    };
    assert_eq!(
        KernelBtf::ensure_available(false, Some("6.12.8+\n")),
        Err(message("6.12.8+"))
    );
    assert_eq!(
        KernelBtf::ensure_available(false, None),
        Err(message("unknown"))
    );
}

#[test]
fn whatever_follows_the_minor_number_is_ignored() {
    for release in ["6.12+", "6.12_custom", "6.12 ", "6-12rc1.3", "6.12.8+\n", "6.+12x"] {
        assert_eq!(
            KernelVersion::parse(release),
            Ok(KernelVersion::new(6, 12)),
            "{release}"
        );
    }
    assert_eq!(KernelVersion::parse("6.+"), Err(VersionError::NoMinor));
    assert_eq!(KernelVersion::parse("6.4294967296"), Err(VersionError::NoMinor));
    assert_eq!(KernelVersion::parse("6+.12"), Err(VersionError::NoMajor));
}
