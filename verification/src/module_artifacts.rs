//! From the recorded mappings to the modules whose artifacts have to be saved.

use crate::artifacts::{
    event_views, mapping_views, EventView, MappingView, MemtrackEvent, ProcessMapping,
};
use crate::perf_mappings::s_dev;
use crate::replay::{read_mappings_from_artifact, replay, timeline};
use crate::sort::{
    distinct_keys, is_sorted, keys, law_order_is_irrelevant, law_sorted_is_in_order,
    law_sorted_keeps_the_items, lemma_sort_commutes, sort, sorted_by, SortOrder,
};
use crate::text::{chars_of, same_chars};
use vstd::prelude::*;
use vstd::slice::slice_subrange;

verus! {

/// What the names of the files that hold an event stream end in.
pub const ARTIFACT_SUFFIX: &'static str = ".MemtrackArtifact.msgpack";

/// Whether `s` ends in `suffix`.
pub open spec fn ends_with(s: Seq<char>, suffix: Seq<char>) -> bool {
    suffix.len() <= s.len() && s.skip(s.len() - suffix.len()) == suffix
}

/// Whether a file of the results folder holds an event stream, by its name.
pub fn is_mapping_artifact(file_name: &str) -> (r: bool)
    ensures
        r == ends_with(file_name@, ARTIFACT_SUFFIX@),
        r == ends_with(file_name@, ".MemtrackArtifact.msgpack"@),
{
    let name = chars_of(file_name);
    let suffix = chars_of(ARTIFACT_SUFFIX);
    if name.len() < suffix.len() {
        return false;
    }
    let tail = slice_subrange(name.as_slice(), name.len() - suffix.len(), name.len());
    assert(tail@ =~= name@.skip(name@.len() - suffix@.len()));
    same_chars(tail, suffix.as_slice())
}

/// The mappings of several event streams, stream after stream.
pub open spec fn all_mappings(artifacts: Seq<Seq<EventView>>) -> Seq<MappingView>
    decreases artifacts.len(),
{
    if artifacts.len() == 0 {
        Seq::empty()
    } else {
        all_mappings(artifacts.drop_last()) + replay(timeline(artifacts.last())).made
    }
}

/// What a list of event streams holds.
pub open spec fn artifact_views(artifacts: Seq<Vec<MemtrackEvent>>) -> Seq<Seq<EventView>> {
    artifacts.map_values(|events: Vec<MemtrackEvent>| event_views(events@))
}

/// The key that orders mappings: process, then time.
pub open spec fn mapping_key() -> spec_fn(MappingView) -> (int, int) {
    |m: MappingView| (m.pid as int, m.timestamp as int)
}

/// Orders mappings by process, then time.
pub struct ByProcessAndTime;

impl SortOrder<ProcessMapping> for ByProcessAndTime {
    open spec fn key(item: ProcessMapping) -> (int, int) {
        (item.pid as int, item.timestamp as int)
    }

    fn in_order(a: &ProcessMapping, b: &ProcessMapping) -> (r: bool) {
        a.pid < b.pid || (a.pid == b.pid && a.timestamp <= b.timestamp)
    }
}

/// The mappings of every event stream in a results folder, by process and time.
/// One stream is written per tracked root process, so a run with several of
/// them contributes several.
pub fn read_mappings(artifacts: Vec<Vec<MemtrackEvent>>) -> (r: Vec<ProcessMapping>)
    ensures
        mapping_views(r@) == sorted_by(all_mappings(artifact_views(artifacts@)), mapping_key()),
{
    let ghost all = artifact_views(artifacts@);
    let ghost streams = artifacts@;
    let mut mappings: Vec<ProcessMapping> = Vec::new();
    assert(mapping_views(mappings@) =~= Seq::empty());
    for events in it: artifacts
        invariant
            it.seq() == streams,
            all == artifact_views(streams),
            mapping_views(mappings@) == all_mappings(all.take(it.index())),
    {
        let ghost i = it.index();
        let ghost before = mappings@;
        let ghost views = event_views(events@);
        let mut found = read_mappings_from_artifact(events);
        let ghost found0 = found@;
        mappings.append(&mut found);
        proof {
            assert(mapping_views(mappings@) =~= mapping_views(before) + mapping_views(found0));
            assert(all.take(i + 1).drop_last() =~= all.take(i));
            assert(all.take(i + 1).last() == views);
        }
    }
    assert(all.take(all.len() as int) =~= all);
    proof {
        lemma_sort_commutes(
            mappings@,
            |m: ProcessMapping| m@,
            keys::<ProcessMapping, ByProcessAndTime>(),
            mapping_key(),
        );
    }
    sort::<ProcessMapping, ByProcessAndTime>(mappings)
}

/// Which file a path names: the `st_dev` and `st_ino` of its metadata.
#[derive(Debug, Clone, Copy, PartialEq, Eq)]
pub struct FileId {
    pub dev: u64,
    pub ino: u64,
}

/// The major number in an `st_dev`: bits 8 to 19 and 44 to 63.
pub open spec fn device_major(dev: u64) -> u64 {
    ((dev & 0xf_ff00) >> 8) | ((dev & 0xffff_f000_0000_0000) >> 32)
}

/// The minor number in an `st_dev`: bits 0 to 7 and 20 to 43.
pub open spec fn device_minor(dev: u64) -> u64 {
    (dev & 0xff) | ((dev & 0xfff_fff0_0000) >> 12)
}

/// `libc::major` on Linux.
#[verifier::external_body]
fn major(dev: u64) -> (r: u32)
    ensures
        r as u64 == device_major(dev),
{
    libc::major(dev)
}

/// `libc::minor` on Linux.
#[verifier::external_body]
fn minor(dev: u64) -> (r: u32)
    ensures
        r as u64 == device_minor(dev),
{
    libc::minor(dev)
}

/// The recorded `dev` and `ino` of a mapping stand for the file `file`. The
/// recorded `dev` is the kernel's `s_dev` encoding, `st_dev` glibc's, so only
/// the decomposed major/minor pair is comparable.
pub open spec fn is_mapped_file(dev: u64, ino: u64, file: FileId) -> bool {
    &&& dev >> 20 == device_major(file.dev)
    &&& dev & 0xf_ffff == device_minor(file.dev)
    &&& ino == file.ino
}

/// Whether the path still names the file that was mapped; `file` is what the
/// path names now, if it can be read.
///
/// The mapping records the inode the kernel resolved the path from; a file
/// rebuilt or replaced since then is a different inode, and reading unwind data
/// out of it would bind eh_frame from the wrong binary to those addresses.
pub fn names_mapped_file(mapping: &ProcessMapping, file: Option<FileId>) -> (r: bool)
    ensures
        r == (file matches Some(f) && is_mapped_file(mapping.dev, mapping.ino, f)),
{
    match file {
        Some(f) => {
            mapping.dev >> 20 == major(f.dev) as u64 && mapping.dev & 0xf_ffff == minor(f.dev) as u64
                && mapping.ino == f.ino
        },
        None => false,
    }
}

/// A file is recognised by the device and inode that the kernel reported of it,
/// and no other file is taken for it. The kernel's device numbers have minor
/// numbers of 20 bits.
pub proof fn law_the_mapped_file_is_recognised(major: u32, minor: u32, ino: u64, file: FileId)
    requires
        minor < 0x10_0000,
    ensures
        is_mapped_file(s_dev(major, minor), ino, file) <==> (device_major(file.dev) == major
            && device_minor(file.dev) == minor && file.ino == ino),
{
    let a = major as u64;
    let b = minor as u64;
    assert(((a << 20) | b) >> 20 == a && ((a << 20) | b) & 0xf_ffff == b) by (bit_vector)
        requires
            a <= 0xffff_ffff,
            b < 0x10_0000,
    ;
}

/// The mappings that are read are in the order of process and time, and they
/// are the mappings of all artifacts, none lost and none added.
pub proof fn law_mappings_are_read_in_order(artifacts: Seq<Seq<EventView>>)
    ensures
        ({
            let all = all_mappings(artifacts);
            let read = sorted_by(all, mapping_key());
            &&& is_sorted(read, mapping_key())
            &&& read.to_multiset() == all.to_multiset()
            &&& read.len() == all.len()
            &&& forall|i: int, j: int|
                0 <= i < j < read.len() ==> {
                    let (a, b) = (#[trigger] read[i], #[trigger] read[j]);
                    a.pid < b.pid || (a.pid == b.pid && a.timestamp <= b.timestamp)
                }
        }),
{
    law_sorted_is_in_order(all_mappings(artifacts), mapping_key());
    law_sorted_keeps_the_items(all_mappings(artifacts), mapping_key());
}

proof fn lemma_all_mappings_split(a: Seq<Seq<EventView>>, b: Seq<Seq<EventView>>)
    ensures
        all_mappings(a + b) == all_mappings(a) + all_mappings(b),
    decreases b.len(),
{
    if b.len() == 0 {
        assert(a + b =~= a);
        assert(all_mappings(a) + all_mappings(b) =~= all_mappings(a));
    } else {
        assert((a + b).drop_last() =~= a + b.drop_last());
        lemma_all_mappings_split(a, b.drop_last());
        assert(all_mappings(a + b) =~= all_mappings(a) + all_mappings(b));
    }
}

proof fn lemma_same_artifacts(a: Seq<Seq<EventView>>, b: Seq<Seq<EventView>>)
    requires
        a.to_multiset() == b.to_multiset(),
    ensures
        all_mappings(a).to_multiset() == all_mappings(b).to_multiset(),
    decreases a.len(),
{
    broadcast use vstd::seq_lib::group_to_multiset_ensures;

    vstd::seq_lib::to_multiset_len(a);
    vstd::seq_lib::to_multiset_len(b);
    if a.len() == 0 {
        assert(a =~= b);
    } else {
        let front = a.drop_last();
        let x = a.last();
        assert(a =~= front.push(x));
        assert(a.contains(x)) by {
            assert(a[a.len() - 1] == x);
        }
        assert(a.to_multiset().count(x) > 0);
        assert(b.contains(x));
        let j = choose|j: int| 0 <= j < b.len() && b[j] == x;
        let (left, right) = (b.take(j), b.skip(j + 1));
        assert(b =~= left + (seq![x] + right));
        vstd::seq_lib::lemma_multiset_commutative(left, seq![x] + right);
        vstd::seq_lib::lemma_multiset_commutative(seq![x], right);
        vstd::seq_lib::lemma_multiset_commutative(left, right);
        vstd::seq_lib::lemma_multiset_commutative(front, seq![x]);
        assert(a =~= front + seq![x]);
        assert(front.to_multiset() =~= a.to_multiset().sub(seq![x].to_multiset()));
        assert((left + right).to_multiset() =~= b.to_multiset().sub(seq![x].to_multiset()));
        lemma_same_artifacts(front, left + right);
        lemma_all_mappings_split(front, seq![x]);
        lemma_all_mappings_split(left, seq![x] + right);
        lemma_all_mappings_split(seq![x], right);
        lemma_all_mappings_split(left, right);
        let (l, m, r) = (all_mappings(left), all_mappings(seq![x]), all_mappings(right));
        vstd::seq_lib::lemma_multiset_commutative(all_mappings(front), m);
        vstd::seq_lib::lemma_multiset_commutative(l, m + r);
        vstd::seq_lib::lemma_multiset_commutative(m, r);
        vstd::seq_lib::lemma_multiset_commutative(l, r);
        assert(all_mappings(a).to_multiset() =~= all_mappings(b).to_multiset());
    }
}

/// The order in which the artifacts are found does not matter, as long as no
/// process has two mappings of one time: the same artifacts in any other order
/// give the same mappings.
pub proof fn law_artifact_order_is_irrelevant(a: Seq<Seq<EventView>>, b: Seq<Seq<EventView>>)
    requires
        a.to_multiset() == b.to_multiset(),
        distinct_keys(all_mappings(a), mapping_key()),
    ensures
        sorted_by(all_mappings(a), mapping_key()) == sorted_by(all_mappings(b), mapping_key()),
{
    lemma_same_artifacts(a, b);
    law_order_is_irrelevant(all_mappings(a), all_mappings(b), mapping_key());
}

/// The mappings of all artifacts are those of the first ones and then those of
/// the others; one artifact gives what its own replay makes.
pub proof fn law_every_artifact_counts(
    first: Seq<Seq<EventView>>,
    others: Seq<Seq<EventView>>,
    events: Seq<EventView>,
)
    ensures
        all_mappings(Seq::empty()).len() == 0,
        all_mappings(seq![events]) == replay(timeline(events)).made,
        all_mappings(first + others) == all_mappings(first) + all_mappings(others),
{
    lemma_all_mappings_split(first, others);
    let one = seq![events];
    assert(one.drop_last() =~= Seq::empty());
    assert(all_mappings(one.drop_last()) =~= Seq::empty());
    assert(all_mappings(one) =~= replay(timeline(events)).made);
}

/// A recorded device stands for a file by its upper bits, which are the major
/// number, and its lower 20 bits, which are the minor number; the inode must be
/// the same, too.
pub proof fn law_device_and_inode_must_agree(dev: u64, ino: u64, file: FileId)
    ensures
        is_mapped_file(dev, ino, file) <==> {
            &&& dev as int / 0x10_0000 == device_major(file.dev)
            &&& dev as int % 0x10_0000 == device_minor(file.dev)
            &&& ino == file.ino
        },
{
    assert(dev >> 20 == dev / 0x10_0000) by (bit_vector);
    assert(dev & 0xf_ffff == dev % 0x10_0000) by (bit_vector);
}

/// A name ends in a suffix where the suffix stands at its end, character by
/// character.
pub proof fn law_a_suffix_stands_at_the_end(name: Seq<char>, suffix: Seq<char>)
    ensures
        ends_with(name, suffix) <==> suffix.len() <= name.len() && forall|i: int|
            0 <= i < suffix.len() ==> #[trigger] suffix[i] == name[name.len() - suffix.len() + i],
{
    if suffix.len() <= name.len() {
        let tail = name.skip(name.len() - suffix.len());
        if forall|i: int|
            0 <= i < suffix.len() ==> #[trigger] suffix[i] == name[name.len() - suffix.len() + i] {
            assert(tail =~= suffix);
        }
        if tail == suffix {
            assert forall|i: int| 0 <= i < suffix.len() implies #[trigger] suffix[i]
                == name[name.len() - suffix.len() + i] by {
                assert(tail[i] == suffix[i]);
            }
        }
    }
}

/// A list of event streams shows each of them at its place, whole.
pub proof fn law_artifacts_show_every_stream(artifacts: Seq<Vec<MemtrackEvent>>, i: int)
    requires
        0 <= i < artifacts.len(),
    ensures
        artifact_views(artifacts).len() == artifacts.len(),
        artifact_views(artifacts)[i] == event_views(artifacts[i]@),
{
}

} // verus!
