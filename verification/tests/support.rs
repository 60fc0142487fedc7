use memtrack::kernel::KernelVersion;
use memtrack::support::{bpf_lsm_active, MappingSupport};

/// `bpf_lsm_mmap_file` has been in the sleepable hook set since 5.11, and
/// 6.12 is the first release carrying `bpf_path_d_path`.
#[test]
fn maps_releases_to_support_levels() {
    for (major, minor, expected) in [
        (5, 4, MappingSupport::Unsupported),
        (5, 10, MappingSupport::Unsupported),
        (5, 11, MappingSupport::Legacy),
        (6, 11, MappingSupport::Legacy),
        (6, 12, MappingSupport::Kfunc),
        (7, 1, MappingSupport::Kfunc),
    ] {
        let version = KernelVersion::new(major, minor);
        assert_eq!(
            MappingSupport::for_version(version),
            expected,
            "{}",
            version.to_string()
        );
    }
}

#[test]
fn finds_bpf_in_the_lsm_list() {
    assert!(bpf_lsm_active("lockdown,capability,bpf\n"));
    assert!(bpf_lsm_active("bpf"));
    assert!(!bpf_lsm_active("lockdown,capability,landlock"));
    assert!(!bpf_lsm_active("ebpf,bpf2"));
    assert!(!bpf_lsm_active("lockdown, bpf"));
    assert!(!bpf_lsm_active(""));
}

#[test]
fn detects_support_from_lsm_list_and_release() {
    let lsm = Some("capability,bpf\n");
    assert_eq!(
        MappingSupport::detect(lsm, Some("6.12.8+\n")),
        MappingSupport::Kfunc
    );
    assert_eq!(
        MappingSupport::detect(lsm, Some("6.12+\n")),
        MappingSupport::Kfunc
    );
    assert_eq!(
        MappingSupport::detect(lsm, Some("5.15.0-1234-aws\n")),
        MappingSupport::Legacy
    );
    assert_eq!(
        MappingSupport::detect(lsm, Some("5.4.0\n")),
        MappingSupport::Unsupported
    );
    assert_eq!(
        MappingSupport::detect(lsm, None),
        MappingSupport::Unsupported
    );
    assert_eq!(
        MappingSupport::detect(lsm, Some("linux")),
        MappingSupport::Unsupported
    );
    assert_eq!(
        MappingSupport::detect(None, Some("6.12.8+\n")),
        MappingSupport::Unsupported
    );
    assert_eq!(
        MappingSupport::detect(Some("capability"), Some("6.12.8+\n")),
        MappingSupport::Unsupported
    );
}
