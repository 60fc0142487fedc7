//! How far mapped files can be named inside BPF.

use crate::kernel::{older, release_version, KernelVersion};
use crate::text::{
    chars_of, is_white_space, law_trimming_takes_off_white_space_only, lemma_already_trimmed,
    lemma_part_stands_between, lemma_trimmed_twice, same_chars, split, split_parts, stands_between,
    trim, trimmed, views,
};
use vstd::prelude::*;

verus! {

/// How the running kernel can resolve a mapped file's path inside BPF.
///
/// Only a BPF LSM program can do it at all: `bpf_d_path()` is restricted to
/// `BPF_TRACE_ITER` programs, sleepable LSM hooks and a fixed fentry allowlist
/// that contains no mmap path (`bpf_d_path_allowed()` in
/// `kernel/trace/bpf_trace.c`), and the `bpf_path_d_path()` kfunc that replaces
/// it rejects every program type but LSM (`bpf_fs_kfuncs_filter()` in
/// `fs/bpf_fs_kfuncs.c`).
#[derive(Debug, Copy, Clone, PartialEq, Eq)]
pub enum MappingSupport {
    /// Paths cannot be resolved, so allocation stacks could not be attributed to
    /// modules and are not worth capturing.
    Unsupported,
    /// Sleepable LSM hook calling `bpf_d_path()` (kernel >= 5.11).
    Legacy,
    /// LSM hook calling the `bpf_path_d_path()` kfunc (kernel >= 6.12).
    Kfunc,
}

/// What a kernel of this version provides.
pub open spec fn support_for(version: (u32, u32)) -> MappingSupport {
    if older(version, (5, 11)) {
        MappingSupport::Unsupported
    } else if older(version, (6, 12)) {
        MappingSupport::Legacy
    } else {
        MappingSupport::Kfunc
    }
}

/// Whether the comma-separated list `active` names `bpf`.
pub open spec fn lists_bpf(active: Seq<char>) -> bool {
    split(trimmed(active), seq![',']).contains(seq!['b', 'p', 'f'])
}

/// What a kernel provides, by its list of active LSMs and its release, each as
/// far as it can be read.
pub open spec fn detected(lsm: Option<Seq<char>>, osrelease: Option<Seq<char>>) -> MappingSupport {
    match (lsm, osrelease) {
        (Some(active), Some(content)) => match release_version(trimmed(content)) {
            Ok(version) => if lists_bpf(active) {
                support_for(version)
            } else {
                MappingSupport::Unsupported
            },
            Err(_) => MappingSupport::Unsupported,
        },
        _ => MappingSupport::Unsupported,
    }
}

impl MappingSupport {
    /// What the running kernel and its boot configuration provide. `lsm` is
    /// what `/sys/kernel/security/lsm` holds and `osrelease` what
    /// `/proc/sys/kernel/osrelease` holds, if they can be read.
    ///
    /// The kernel release is only half the condition: `bpf` must also be in the
    /// active LSM list, which is fixed at boot by `CONFIG_LSM`/`lsm=` and cannot
    /// be inferred from the version.
    pub fn detect(lsm: Option<&str>, osrelease: Option<&str>) -> (r: MappingSupport)
        ensures
            r == detected(
                match lsm {
                    Some(active) => Some(active@),
                    None => None,
                },
                match osrelease {
                    Some(content) => Some(content@),
                    None => None,
                },
            ),
    {
        let active = match lsm {
            Some(active) => bpf_lsm_active(active),
            None => false,
        };
        if !active {
            return MappingSupport::Unsupported;
        }
        match KernelVersion::current(osrelease) {
            Ok(version) => MappingSupport::for_version(version),
            Err(_) => MappingSupport::Unsupported,
        }
    }

    /// What a kernel of this version provides.
    pub fn for_version(version: KernelVersion) -> (r: MappingSupport)
        ensures
            r == support_for(version.numbers()),
    {
        if version < KernelVersion::new(5, 11) {
            return MappingSupport::Unsupported;
        }
        if version < KernelVersion::new(6, 12) {
            return MappingSupport::Legacy;
        }
        MappingSupport::Kfunc
    }
}

/// Whether `bpf` is one of the LSMs the running kernel initialized. An
/// unreadable list means securityfs is not mounted, in which case no LSM program
/// will attach either.
pub fn bpf_lsm_active(active: &str) -> (r: bool)
    ensures
        r == lists_bpf(active@),
{
    let chars = chars_of(active);
    let separators: [char; 1] = [','];
    let bpf: [char; 3] = ['b', 'p', 'f'];
    let parts = split_parts(trim(chars.as_slice()), &separators);
    let ghost all = split(trimmed(active@), seq![',']);
    assert(separators@ =~= seq![',']);
    assert(bpf@ =~= seq!['b', 'p', 'f']);
    for i in 0..parts.len()
        invariant
            bpf@ == seq!['b', 'p', 'f'],
            views(parts@) == all,
            all == split(trimmed(active@), seq![',']),
            forall|j: int| 0 <= j < i ==> all[j] != seq!['b', 'p', 'f'],
    {
        assert(all[i as int] == parts@[i as int]@);
        if same_chars(parts[i], &bpf) {
            return true;
        }
    }
    false
}

/// A newer kernel never provides less.
pub proof fn law_support_only_grows(a: (u32, u32), b: (u32, u32))
    requires
        !older(b, a),
    ensures
        support_for(a) is Legacy ==> !(support_for(b) is Unsupported),
        support_for(a) is Kfunc ==> support_for(b) is Kfunc,
{
}

/// Without the bpf LSM nothing can be resolved, whatever the kernel.
pub proof fn law_no_support_without_the_bpf_lsm(
    lsm: Option<Seq<char>>,
    osrelease: Option<Seq<char>>,
)
    requires
        lsm matches Some(active) ==> !lists_bpf(active),
    ensures
        detected(lsm, osrelease) is Unsupported,
{
}

/// Paths cannot be resolved before 5.11, need the older helper before 6.12, and
/// have the kfunc from 6.12 on, whatever the numbers.
pub proof fn law_support_by_release(major: u32, minor: u32)
    ensures
        support_for((major, minor)) is Unsupported <==> major < 5 || (major == 5 && minor < 11),
        support_for((major, minor)) is Legacy <==> (major == 5 && minor >= 11) || (major == 6
            && minor < 12),
        support_for((major, minor)) is Kfunc <==> major > 6 || (major == 6 && minor >= 12),
{
}

/// A list names `bpf` where these three letters stand alone between commas or
/// ends of the list, and nowhere else.
pub proof fn law_bpf_stands_alone(active: Seq<char>)
    requires
        active.len() > 0 ==> !is_white_space(active[0]) && !is_white_space(
            active[active.len() - 1],
        ),
    ensures
        lists_bpf(active) <==> exists|i: int|
            {
                &&& 0 <= i <= active.len() - 3
                &&& #[trigger] active[i] == 'b'
                &&& active[i + 1] == 'p'
                &&& active[i + 2] == 'f'
                &&& i == 0 || active[i - 1] == ','
                &&& i + 3 == active.len() || active[i + 3] == ','
            },
{
    let bpf = seq!['b', 'p', 'f'];
    lemma_already_trimmed(active);
    lemma_part_stands_between(active, ',', bpf);
    if exists|i: int| #[trigger] stands_between(active, ',', bpf, i) {
        let i = choose|i: int| #[trigger] stands_between(active, ',', bpf, i);
        let found = active.subrange(i, i + 3);
        assert(found[0] == active[i] && found[1] == active[i + 1] && found[2] == active[i + 2]);
        assert(active[i] == 'b');
    }
    if exists|i: int|
        {
            &&& 0 <= i <= active.len() - 3
            &&& #[trigger] active[i] == 'b'
            &&& active[i + 1] == 'p'
            &&& active[i + 2] == 'f'
            &&& i == 0 || active[i - 1] == ','
            &&& i + 3 == active.len() || active[i + 3] == ','
        } {
        let i = choose|i: int|
            {
                &&& 0 <= i <= active.len() - 3
                &&& #[trigger] active[i] == 'b'
                &&& active[i + 1] == 'p'
                &&& active[i + 2] == 'f'
                &&& i == 0 || active[i - 1] == ','
                &&& i + 3 == active.len() || active[i + 3] == ','
            };
        assert(active.subrange(i, i + 3) =~= bpf);
        assert(stands_between(active, ',', bpf, i));
    }
}

/// White space around the list of LSMs has no bearing on what it names.
pub proof fn law_space_around_the_list_is_ignored(
    before: Seq<char>,
    active: Seq<char>,
    after: Seq<char>,
)
    requires
        forall|i: int| 0 <= i < before.len() ==> is_white_space(#[trigger] before[i]),
        forall|i: int| 0 <= i < after.len() ==> is_white_space(#[trigger] after[i]),
        active.len() > 0 ==> !is_white_space(active[0]) && !is_white_space(
            active[active.len() - 1],
        ),
    ensures
        lists_bpf(before + active + after) == lists_bpf(active),
{
    law_trimming_takes_off_white_space_only(before, active, after);
    lemma_already_trimmed(active);
}

/// Where the list names `bpf` and the release can be read, the release decides;
/// where it cannot be read, nothing is supported.
pub proof fn law_the_release_decides(active: Seq<char>, content: Seq<char>)
    requires
        lists_bpf(active),
    ensures
        release_version(content) matches Ok((major, minor)) ==> {
            let support = detected(Some(active), Some(content));
            &&& support is Unsupported <==> major < 5 || (major == 5 && minor < 11)
            &&& support is Kfunc <==> major > 6 || (major == 6 && minor >= 12)
        },
        release_version(content) is Err ==> detected(Some(active), Some(content)) is Unsupported,
        detected(Some(active), None) is Unsupported,
{
    lemma_trimmed_twice(content);
}

} // verus!
