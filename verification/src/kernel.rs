//! What the running kernel is, as far as it decides what can be tracked.

use crate::text::{
    chars_of, decimal, is_digit, is_white_space, law_decimal_reads_back,
    law_trimming_takes_off_white_space_only, law_u32_reads_back, leading_number,
    lemma_already_trimmed, lemma_first_part, lemma_first_part_ends, lemma_number_len,
    lemma_split_is_nonempty, lemma_split_join, lemma_split_whole, number_len, parse_leading_u32,
    parse_u32, push_decimal, split, split_parts, string_of, trim, trimmed, u32_from_text, views,
};
use core::cmp::Ordering;
use vstd::prelude::*;
use vstd::std_specs::cmp::{PartialOrdSpec, PartialOrdSpecImpl};
use vstd::string::StringExecFns;

verus! {

/// The running kernel's full release, e.g. `6.12.8+`; `content` is what
/// `/proc/sys/kernel/osrelease` holds.
pub fn kernel_release(content: &str) -> (r: String)
    ensures
        r@ == trimmed(content@),
{
    let chars = chars_of(content);
    string_of(trim(chars.as_slice()))
}

/// A kernel release, ordered by `(major, minor)`. The patch level is ignored:
/// features are introduced in merge windows, never in a stable point release.
#[derive(Debug, Copy, Clone, PartialEq, Eq, Structural, Ord)]
pub struct KernelVersion {
    major: u32,
    minor: u32,
}

/// What a release string lacks.
#[derive(Debug, Copy, Clone, PartialEq, Eq)]
pub enum VersionError {
    /// No major version.
    NoMajor,
    /// No minor version.
    NoMinor,
}

/// Why the running kernel's version is not known.
#[derive(Debug, Clone, PartialEq, Eq)]
pub enum KernelError {
    /// The release could not be read.
    ReadRelease,
    /// The release could not be parsed.
    ParseRelease { release: String, cause: VersionError },
}

/// The leading `<major>.<minor>` of a release string; whatever follows the
/// digits of the minor number is ignored.
pub open spec fn release_version(release: Seq<char>) -> Result<(u32, u32), VersionError> {
    let parts = split(trimmed(release), seq!['.', '-']);
    match u32_from_text(parts[0]) {
        None => Err(VersionError::NoMajor),
        Some(major) => if parts.len() < 2 {
            Err(VersionError::NoMinor)
        } else {
            match leading_number(parts[1]) {
                None => Err(VersionError::NoMinor),
                Some(minor) => Ok((major, minor)),
            }
        },
    }
}

/// Whether release `a` is older than release `b`.
pub open spec fn older(a: (u32, u32), b: (u32, u32)) -> bool {
    a.0 < b.0 || (a.0 == b.0 && a.1 < b.1)
}

impl KernelVersion {
    /// The major and the minor number.
    pub closed spec fn numbers(&self) -> (u32, u32) {
        (self.major, self.minor)
    }

    pub fn new(major: u32, minor: u32) -> (r: KernelVersion)
        ensures
            r.numbers() == (major, minor),
    {
        KernelVersion { major, minor }
    }

    /// The running kernel's release; `osrelease` is what
    /// `/proc/sys/kernel/osrelease` holds, if it can be read.
    pub fn current(osrelease: Option<&str>) -> (r: Result<KernelVersion, KernelError>)
        ensures
            match osrelease {
                None => r == Err::<KernelVersion, KernelError>(KernelError::ReadRelease),
                Some(content) => match (release_version(trimmed(content@)), r) {
                    (Ok(numbers), Ok(version)) => version.numbers() == numbers,
                    (Err(e), Err(KernelError::ParseRelease { release, cause })) => cause == e
                        && release@ == trimmed(content@),
                    _ => false,
                },
            },
    {
        match osrelease {
            None => Err(KernelError::ReadRelease),
            Some(content) => {
                let release = kernel_release(content);
                match KernelVersion::parse(release.as_str()) {
                    Ok(version) => Ok(version),
                    Err(cause) => Err(KernelError::ParseRelease { release, cause }),
                }
            },
        }
    }

    /// Parse the leading `<major>.<minor>` of a release string, ignoring
    /// whatever follows it (patch level, `-rc`, distro suffix).
    pub fn parse(release: &str) -> (r: Result<KernelVersion, VersionError>)
        ensures
            match r {
                Ok(version) => release_version(release@) == Ok::<(u32, u32), VersionError>(
                    version.numbers(),
                ),
                Err(e) => release_version(release@) == Err::<(u32, u32), VersionError>(e),
            },
    {
        let chars = chars_of(release);
        let separators: [char; 2] = ['.', '-'];
        let parts = split_parts(trim(chars.as_slice()), &separators);
        proof {
            assert(separators@ =~= seq!['.', '-']);
            lemma_split_is_nonempty(trimmed(release@), separators@);
            assert(views(parts@).len() == parts@.len());
            assert(views(parts@)[0] == parts@[0]@);
        }
        match parse_u32(parts[0]) {
            None => Err(VersionError::NoMajor),
            Some(major) => {
                if parts.len() < 2 {
                    return Err(VersionError::NoMinor);
                }
                assert(views(parts@)[1] == parts@[1]@);
                match parse_leading_u32(parts[1]) {
                    None => Err(VersionError::NoMinor),
                    Some(minor) => Ok(KernelVersion::new(major, minor)),
                }
            },
        }
    }

    /// The version as `<major>.<minor>`.
    pub fn to_string(&self) -> (r: String)
        ensures
            r@ == version_text(self.numbers()),
            r@ == decimal(self.numbers().0 as nat) + seq!['.'] + decimal(self.numbers().1 as nat),
    {
        let mut text = String::new();
        push_decimal(&mut text, self.major);
        text.push('.');
        push_decimal(&mut text, self.minor);
        assert(text@ =~= version_text(self.numbers()));
        assert(text@ =~= decimal(self.numbers().0 as nat) + seq!['.'] + decimal(
            self.numbers().1 as nat,
        ));
        text
    }
}

/// A version as `<major>.<minor>`.
pub open spec fn version_text(numbers: (u32, u32)) -> Seq<char> {
    decimal(numbers.0 as nat).push('.') + decimal(numbers.1 as nat)
}

impl PartialOrdSpecImpl for KernelVersion {
    open spec fn obeys_partial_cmp_spec() -> bool {
        true
    }

    open spec fn partial_cmp_spec(&self, other: &KernelVersion) -> Option<Ordering> {
        if older(self.numbers(), other.numbers()) {
            Some(Ordering::Less)
        } else if older(other.numbers(), self.numbers()) {
            Some(Ordering::Greater)
        } else {
            Some(Ordering::Equal)
        }
    }
}

impl PartialOrd for KernelVersion {
    fn partial_cmp(&self, other: &KernelVersion) -> (r: Option<Ordering>) {
        if self.major < other.major || (self.major == other.major && self.minor < other.minor) {
            Some(Ordering::Less)
        } else if self.major == other.major && self.minor == other.minor {
            Some(Ordering::Equal)
        } else {
            Some(Ordering::Greater)
        }
    }
}

/// Of two releases one is older than the other unless they are the same, and
/// being older carries over.
pub proof fn law_releases_are_ordered(a: (u32, u32), b: (u32, u32), c: (u32, u32))
    ensures
        older(a, b) || older(b, a) || a == b,
        !(older(a, b) && older(b, a)),
        !older(a, a),
        older(a, b) && older(b, c) ==> older(a, c),
{
}

/// What stands behind a version is trimmed at its end only.
proof fn lemma_trimmed_behind(front: Seq<char>, rest: Seq<char>) -> (kept: Seq<char>)
    requires
        front.len() > 0,
        !is_white_space(front[0]),
        !is_white_space(front.last()),
    ensures
        trimmed(front + rest) == front + kept,
        kept.is_prefix_of(rest),
    decreases rest.len(),
{
    let s = front + rest;
    if rest.len() > 0 && is_white_space(rest.last()) {
        let kept = lemma_trimmed_behind(front, rest.drop_last());
        assert(s.drop_last() =~= front + rest.drop_last());
        kept
    } else {
        if rest.len() == 0 {
            assert(s =~= front);
        }
        lemma_already_trimmed(s);
        rest
    }
}

/// Whatever follows the minor version is ignored: patch level, `-rc`, distro
/// suffix, line end.
pub proof fn law_what_follows_is_ignored(numbers: (u32, u32), rest: Seq<char>)
    requires
        rest.len() == 0 || !is_digit(rest[0]),
    ensures
        release_version(version_text(numbers) + rest) == Ok::<(u32, u32), VersionError>(numbers),
{
    let separators = seq!['.', '-'];
    let major = decimal(numbers.0 as nat);
    let minor = decimal(numbers.1 as nat);
    let text = version_text(numbers);
    law_u32_reads_back(numbers.0);
    law_u32_reads_back(numbers.1);
    law_decimal_reads_back(numbers.0 as nat);
    law_decimal_reads_back(numbers.1 as nat);
    assert forall|i: int| 0 <= i < major.len() implies !separators.contains(
        #[trigger] major[i],
    ) by {
        assert(is_digit(major[i]));
    }
    assert forall|i: int| 0 <= i < minor.len() implies !separators.contains(
        #[trigger] minor[i],
    ) by {
        assert(is_digit(minor[i]));
    }
    assert(separators[0] == '.');
    assert(is_digit(major[0]) && text[0] == major[0]);
    assert(is_digit(minor[minor.len() - 1]) && text.last() == minor[minor.len() - 1]);
    let kept = lemma_trimmed_behind(text, rest);
    assert(text + kept =~= major.push('.') + (minor + kept));
    lemma_split_join(major, '.', minor + kept, separators);
    lemma_split_whole(major, separators);
    lemma_split_is_nonempty(minor + kept, separators);
    lemma_first_part(minor, kept, separators);
    let part = split(minor + kept, separators)[0];
    assert(part.take(minor.len() as int) =~= minor);
    if minor.len() < part.len() {
        assert(part[minor.len() as int] == kept[0] && kept[0] == rest[0]);
    }
    lemma_number_len(minor, part, 0);
}

/// A version reads back as what was written.
pub proof fn law_version_reads_back(numbers: (u32, u32))
    ensures
        release_version(version_text(numbers)) == Ok::<(u32, u32), VersionError>(numbers),
{
    law_what_follows_is_ignored(numbers, Seq::empty());
    assert(version_text(numbers) + Seq::<char>::empty() =~= version_text(numbers));
}

proof fn lemma_leading_number_of_part(rest: Seq<char>, separators: Seq<char>)
    requires
        separators == seq!['.', '-'],
    ensures
        leading_number(split(rest, separators)[0]) == leading_number(rest),
{
    let part = split(rest, separators)[0];
    lemma_first_part_ends(rest, separators);
    lemma_same_number_len(part, rest, separators, 0);
    let n = number_len(rest, 0);
    lemma_number_len_bounds(part, 0);
    assert(part.take(n) =~= rest.take(n));
}

proof fn lemma_number_len_bounds(s: Seq<char>, at: int)
    requires
        0 <= at <= s.len(),
    ensures
        at <= number_len(s, at) <= s.len(),
    decreases s.len() - at,
{
    if at < s.len() {
        lemma_number_len_bounds(s, at + 1);
    }
}

proof fn lemma_same_number_len(part: Seq<char>, s: Seq<char>, separators: Seq<char>, at: int)
    requires
        separators == seq!['.', '-'],
        0 <= at <= part.len() <= s.len(),
        part == s.take(part.len() as int),
        part.len() < s.len() ==> separators.contains(s[part.len() as int]),
    ensures
        number_len(part, at) == number_len(s, at),
    decreases part.len() - at,
{
    if at < part.len() {
        assert(part[at] == s[at]);
        lemma_same_number_len(part, s, separators, at + 1);
    }
}

/// A release is read from what stands before its first `.` or `-` and from the
/// number right behind it: both must be there, and nothing else decides.
pub proof fn law_a_release_is_two_numbers(major: Seq<char>, separator: char, rest: Seq<char>)
    requires
        separator == '.' || separator == '-',
        forall|i: int| 0 <= i < major.len() ==> (#[trigger] major[i]) != '.' && major[i] != '-',
        major.len() > 0 ==> !is_white_space(major[0]),
        rest.len() > 0 ==> !is_white_space(rest[rest.len() - 1]),
    ensures
        release_version(major.push(separator) + rest) == match (
            u32_from_text(major),
            leading_number(rest),
        ) {
            (Some(a), Some(b)) => Ok((a, b)),
            (Some(_), None) => Err(VersionError::NoMinor),
            (None, _) => Err(VersionError::NoMajor),
        },
{
    let separators = seq!['.', '-'];
    let text = major.push(separator) + rest;
    assert(separators[0] == '.' && separators[1] == '-');
    assert(text[0] == if major.len() > 0 {
        major[0]
    } else {
        separator
    });
    assert(text.last() == if rest.len() > 0 {
        rest[rest.len() - 1]
    } else {
        separator
    });
    lemma_already_trimmed(text);
    lemma_split_join(major, separator, rest, separators);
    lemma_split_whole(major, separators);
    lemma_split_is_nonempty(rest, separators);
    lemma_leading_number_of_part(rest, separators);
}

/// A release without a `.` and a `-` has no minor number, and where it is no
/// number, no major number either.
pub proof fn law_a_release_needs_a_separator(release: Seq<char>)
    requires
        forall|i: int|
            0 <= i < release.len() ==> (#[trigger] release[i]) != '.' && release[i] != '-',
        release.len() > 0 ==> !is_white_space(release[0]) && !is_white_space(
            release[release.len() - 1],
        ),
    ensures
        release_version(release) == if u32_from_text(release) is Some {
            Err::<(u32, u32), VersionError>(VersionError::NoMinor)
        } else {
            Err(VersionError::NoMajor)
        },
{
    lemma_already_trimmed(release);
    lemma_split_whole(release, seq!['.', '-']);
}

/// White space around a release has no bearing on its version.
pub proof fn law_space_around_a_release_is_ignored(
    before: Seq<char>,
    release: Seq<char>,
    after: Seq<char>,
)
    requires
        forall|i: int| 0 <= i < before.len() ==> is_white_space(#[trigger] before[i]),
        forall|i: int| 0 <= i < after.len() ==> is_white_space(#[trigger] after[i]),
        release.len() > 0 ==> !is_white_space(release[0]) && !is_white_space(
            release[release.len() - 1],
        ),
    ensures
        release_version(before + release + after) == release_version(release),
{
    law_trimming_takes_off_white_space_only(before, release, after);
    lemma_already_trimmed(release);
}

/// A release is older if its major number is smaller, or if that is the same and
/// its minor number is smaller; and versions compare accordingly.
pub proof fn law_major_decides_before_minor(a: KernelVersion, b: KernelVersion)
    ensures
        ({
            let (x, y) = (a.numbers(), b.numbers());
            &&& x.0 < y.0 ==> older(x, y)
            &&& x.0 > y.0 ==> !older(x, y)
            &&& x.0 == y.0 ==> older(x, y) == (x.1 < y.1)
            &&& PartialOrdSpec::partial_cmp_spec(&a, &b) == Some(Ordering::Less) <==> x.0 < y.0 || (x.0 == y.0 && x.1
                < y.1)
            &&& PartialOrdSpec::partial_cmp_spec(&a, &b) == Some(Ordering::Equal) <==> x.0 == y.0 && x.1 == y.1
            &&& PartialOrdSpec::partial_cmp_spec(&a, &b) == Some(Ordering::Greater) <==> x.0 > y.0 || (x.0 == y.0
                && x.1 > y.1)
        }),
{
}

/// Present only on a kernel built with `CONFIG_DEBUG_INFO_BTF`.
pub const BTF_PATH: &'static str = "/sys/kernel/btf/vmlinux";

/// Whether the running kernel exposes its own BTF.
///
/// libbpf needs it to resolve CO-RE relocations, and the kernel resolves the
/// attach target of every `fentry`/`tp_btf` program against it, so a kernel
/// without BTF cannot load the programs at all. Detecting it up front replaces
/// libbpf's bare `-ESRCH` with something the reader can act on.
///
/// Minimal kernels built for fast boot, microVM images in particular, commonly
/// drop `CONFIG_DEBUG_INFO_BTF`, so the message has to name the option.
pub struct KernelBtf;

/// What is said of a kernel without BTF.
pub open spec fn missing_btf_message(release: Seq<char>) -> Seq<char> {
    "Memory profiling is not supported on this runner: its kernel ("@ + release
        + ") was built without BTF, so "@ + BTF_PATH@
        + " does not exist. Use a runner whose kernel is built with CONFIG_DEBUG_INFO_BTF=y."@
}

impl KernelBtf {
    /// Fails with a message for the reader unless BTF is there. `available`
    /// says whether [`BTF_PATH`] exists, `osrelease` is what
    /// `/proc/sys/kernel/osrelease` holds, if it can be read.
    pub fn ensure_available(available: bool, osrelease: Option<&str>) -> (r: Result<(), String>)
        ensures
            r is Ok <==> available,
            r matches Err(message) ==> message@
                == "Memory profiling is not supported on this runner: its kernel ("@ + (
            match osrelease {
                Some(content) => trimmed(content@),
                None => "unknown"@,
            }) + ") was built without BTF, so "@ + "/sys/kernel/btf/vmlinux"@
                + " does not exist. Use a runner whose kernel is built with CONFIG_DEBUG_INFO_BTF=y."@,
            r matches Err(message) ==> message@ == missing_btf_message(
                match osrelease {
                    Some(content) => trimmed(content@),
                    None => "unknown"@,
                },
            ),
    {
        if available {
            return Ok(());
        }
        let release = match osrelease {
            Some(content) => kernel_release(content),
            None => "unknown".to_owned(),
        };
        let mut message =
            "Memory profiling is not supported on this runner: its kernel (".to_owned();
        message.append(release.as_str());
        message.append(") was built without BTF, so ");
        message.append(BTF_PATH);
        message.append(
            " does not exist. Use a runner whose kernel is built with CONFIG_DEBUG_INFO_BTF=y.",
        );
        Err(message)
    }
}

} // verus!
