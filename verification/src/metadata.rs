//! The metadata that describes a profile's modules.

use crate::text::{chars_of, i32_from_text, law_i32_reads_back, parse_i32, signed_decimal};
use std::collections::HashMap;
use std::ops::Range;
use vstd::prelude::*;

verus! {

broadcast use vstd::std_specs::hash::group_hash_axioms;

/// One symbol with its place in the source.
#[derive(Debug)]
pub struct DebugInfo {
    pub addr: u64,
    pub size: u64,
    pub name: String,
    pub file: String,
    pub line: Option<u32>,
}

/// The debug info of one module.
#[derive(Debug)]
pub struct ModuleDebugInfo {
    pub object_path: String,
    pub addr_bounds: (u64, u64),
    pub load_bias: u64,
    pub debug_infos: Vec<DebugInfo>,
}

/// A process's reference to the debug info of a module it mounted.
#[derive(Debug)]
pub struct MappedProcessDebugInfo {
    pub debug_info_key: String,
    pub load_bias: u64,
}

/// Where a process mapped a module, as unwinding needs it.
#[derive(Debug, PartialEq, Eq)]
pub struct ProcessUnwindData {
    pub timestamp: Option<u64>,
    pub avma_range: Range<u64>,
    pub base_avma: u64,
}

/// A process's reference to the unwind data of a module it mounted.
#[derive(Debug)]
pub struct MappedProcessUnwindData {
    pub unwind_data_key: String,
    pub inner: ProcessUnwindData,
}

/// A process's reference to the symbols of a module it mounted.
#[derive(Debug)]
pub struct MappedProcessModuleSymbols {
    pub perf_map_key: String,
    pub load_bias: u64,
}

/// The per-profile module artifacts: the deduplicated debug info, unwind data
/// and symbol tables extracted from the ELF modules the profiled processes
/// mapped, plus the per-pid references into them.
#[derive(Debug)]
pub struct ModuleArtifacts {
    /// Deduplicated debug info entries, keyed by semantic key
    pub debug_info: HashMap<String, ModuleDebugInfo>,
    /// Per-pid debug info references, mapping PID to mounted modules' debug info
    pub mapped_process_debug_info_by_pid: HashMap<i32, Vec<MappedProcessDebugInfo>>,
    /// Per-pid unwind data references, mapping PID to mounted modules' unwind data
    pub mapped_process_unwind_data_by_pid: HashMap<i32, Vec<MappedProcessUnwindData>>,
    /// Per-pid symbol references, mapping PID to its mounted modules' symbols
    pub mapped_process_module_symbols: HashMap<i32, Vec<MappedProcessModuleSymbols>>,
    /// Mapping from semantic `path_key` to original binary path on host disk
    pub path_key_to_path: HashMap<String, String>,
}

impl Default for ModuleArtifacts {
    fn default() -> (r: ModuleArtifacts)
        ensures
            r.debug_info@ == Map::<String, ModuleDebugInfo>::empty(),
            r.mapped_process_debug_info_by_pid@ == Map::<i32, Vec<MappedProcessDebugInfo>>::empty(),
            r.mapped_process_unwind_data_by_pid@ == Map::<
                i32,
                Vec<MappedProcessUnwindData>,
            >::empty(),
            r.mapped_process_module_symbols@ == Map::<i32, Vec<MappedProcessModuleSymbols>>::empty(),
            r.path_key_to_path@ == Map::<String, String>::empty(),
    {
        ModuleArtifacts {
            debug_info: HashMap::new(),
            mapped_process_debug_info_by_pid: HashMap::new(),
            mapped_process_unwind_data_by_pid: HashMap::new(),
            mapped_process_module_symbols: HashMap::new(),
            path_key_to_path: HashMap::new(),
        }
    }
}

/// Companion to the memtrack event stream: the modules its allocation stacks
/// resolve against.
#[derive(Debug)]
pub struct MemtrackMetadata {
    /// The version of this metadata format.
    pub version: u64,
    /// Name and version of the integration
    pub integration: (String, String),
    pub artifacts: ModuleArtifacts,
}

impl Default for MemtrackMetadata {
    fn default() -> (r: MemtrackMetadata)
        ensures
            r.version == 0,
            r.integration.0@ == Seq::<char>::empty(),
            r.integration.1@ == Seq::<char>::empty(),
            r.artifacts.debug_info@ == Map::<String, ModuleDebugInfo>::empty(),
            r.artifacts.mapped_process_debug_info_by_pid@ == Map::<
                i32,
                Vec<MappedProcessDebugInfo>,
            >::empty(),
            r.artifacts.mapped_process_unwind_data_by_pid@ == Map::<
                i32,
                Vec<MappedProcessUnwindData>,
            >::empty(),
            r.artifacts.mapped_process_module_symbols@ == Map::<
                i32,
                Vec<MappedProcessModuleSymbols>,
            >::empty(),
            r.artifacts.path_key_to_path@ == Map::<String, String>::empty(),
    {
        MemtrackMetadata {
            version: 0,
            integration: (String::new(), String::new()),
            artifacts: ModuleArtifacts::default(),
        }
    }
}

impl MemtrackMetadata {
    pub const CURRENT_VERSION: u64 = 1;

    /// Metadata of the current version.
    pub fn new(integration: (String, String), artifacts: ModuleArtifacts) -> (r: MemtrackMetadata)
        ensures
            r == (MemtrackMetadata {
                version: MemtrackMetadata::CURRENT_VERSION,
                integration,
                artifacts,
            }),
            MemtrackMetadata::CURRENT_VERSION == 1,
    {
        MemtrackMetadata { version: MemtrackMetadata::CURRENT_VERSION, integration, artifacts }
    }
}

/// A key of a pid-keyed map that is no pid.
#[derive(Debug, Clone, PartialEq, Eq)]
pub struct InvalidPidKey {
    pub key: String,
}

/// The pid-keyed map that `entries` spell out, or the first key that is no pid.
/// Of two entries for one pid the later stands.
pub open spec fn pid_map<V>(entries: Seq<(String, V)>) -> Result<Map<i32, V>, Seq<char>>
    decreases entries.len(),
{
    if entries.len() == 0 {
        Ok(Map::empty())
    } else {
        match pid_map(entries.drop_last()) {
            Err(key) => Err(key),
            Ok(map) => match i32_from_text(entries.last().0@) {
                Some(pid) => Ok(map.insert(pid, entries.last().1)),
                None => Err(entries.last().0@),
            },
        }
    }
}

proof fn lemma_bad_key_stays<V>(entries: Seq<(String, V)>, i: int)
    requires
        0 <= i <= entries.len(),
        pid_map(entries.take(i)) is Err,
    ensures
        pid_map(entries) == pid_map(entries.take(i)),
    decreases entries.len() - i,
{
    if i < entries.len() {
        assert(entries.take(i + 1).drop_last() =~= entries.take(i));
        lemma_bad_key_stays(entries, i + 1);
    } else {
        assert(entries.take(i) =~= entries);
    }
}

/// Reads a pid-keyed map whose keys arrive as strings.
pub fn pid_keys_from_strings<V>(entries: Vec<(String, V)>) -> (r: Result<
    HashMap<i32, V>,
    InvalidPidKey,
>)
    ensures
        match r {
            Ok(map) => pid_map(entries@) == Ok::<Map<i32, V>, Seq<char>>(map@),
            Err(e) => pid_map(entries@) == Err::<Map<i32, V>, Seq<char>>(e.key@),
        },
{
    let ghost all = entries@;
    let mut map: HashMap<i32, V> = HashMap::new();
    assert(all.take(0) =~= Seq::empty());
    for entry in it: entries
        invariant
            it.seq() == all,
            all == entries@,
            pid_map(all.take(it.index())) == Ok::<Map<i32, V>, Seq<char>>(map@),
    {
        let ghost i = it.index();
        let (key, value) = entry;
        proof {
            assert(all.take(i + 1).drop_last() =~= all.take(i));
            assert(all.take(i + 1).last() == all[i]);
        }
        let chars = chars_of(key.as_str());
        match parse_i32(chars.as_slice()) {
            Some(pid) => {
                map.insert(pid, value);
            },
            None => {
                proof {
                    lemma_bad_key_stays(all, i + 1);
                }
                return Err(InvalidPidKey { key });
            },
        }
    }
    assert(all.take(all.len() as int) =~= all);
    Ok(map)
}

/// The map that has, for each pid, the value at the same place; of two values
/// for one pid the later stands.
pub open spec fn keyed<V>(pids: Seq<i32>, values: Seq<V>) -> Map<i32, V>
    decreases pids.len(),
{
    if pids.len() == 0 {
        Map::empty()
    } else {
        keyed(pids.drop_last(), values).insert(pids.last(), values[pids.len() - 1])
    }
}

/// A map whose keys were written out in decimal is read back: its keys are the
/// pids, and every pid finds the last value that stands at its place.
pub proof fn law_pid_keys_read_back<V>(entries: Seq<(String, V)>, pids: Seq<i32>, values: Seq<V>)
    requires
        entries.len() == pids.len(),
        entries.len() == values.len(),
        forall|i: int|
            0 <= i < entries.len() ==> (#[trigger] entries[i]).0@ == signed_decimal(pids[i])
                && entries[i].1 == values[i],
    ensures
        pid_map(entries) == Ok::<Map<i32, V>, Seq<char>>(keyed(pids, values)),
        keyed(pids, values).dom() == pids.to_set(),
        forall|i: int|
            0 <= i < pids.len() && (forall|j: int| i < j < pids.len() ==> pids[j] != pids[i])
                ==> keyed(pids, values)[#[trigger] pids[i]] == values[i],
    decreases entries.len(),
{
    lemma_keyed(pids, values);
    if entries.len() > 0 {
        let front = entries.drop_last();
        let n = entries.len() - 1;
        assert(forall|i: int| 0 <= i < front.len() ==> #[trigger] front[i] == entries[i]);
        assert(entries[n] == entries.last());
        law_pid_keys_read_back(front, pids.drop_last(), values.drop_last());
        lemma_keyed_prefix(pids.drop_last(), values);
        law_i32_reads_back(pids[n]);
    }
}

proof fn lemma_keyed<V>(pids: Seq<i32>, values: Seq<V>)
    ensures
        keyed(pids, values).dom() == pids.to_set(),
        forall|i: int|
            0 <= i < pids.len() && (forall|j: int| i < j < pids.len() ==> pids[j] != pids[i])
                ==> keyed(pids, values)[#[trigger] pids[i]] == values[i],
    decreases pids.len(),
{
    if pids.len() > 0 {
        let front = pids.drop_last();
        let n = pids.len() - 1;
        lemma_keyed(front, values);
        assert forall|pid: i32| pids.contains(pid) <==> front.contains(pid) || pid == pids[n] by {
            if front.contains(pid) {
                let i = choose|i: int| 0 <= i < front.len() && front[i] == pid;
                assert(pids[i] == pid);
            }
            if pids.contains(pid) && pid != pids[n] {
                let i = choose|i: int| 0 <= i < pids.len() && pids[i] == pid;
                assert(front[i] == pid);
            }
        }
        assert(keyed(pids, values).dom() =~= pids.to_set());
        assert forall|i: int|
            0 <= i < pids.len() && (forall|j: int| i < j < pids.len() ==> pids[j]
                != pids[i]) implies keyed(pids, values)[#[trigger] pids[i]] == values[i] by {
            if i < n {
                assert(pids[n] != pids[i]);
                assert(front[i] == pids[i]);
                assert(forall|j: int| i < j < front.len() ==> front[j] == pids[j]);
            }
        }
    } else {
        assert(keyed(pids, values).dom() =~= pids.to_set());
    }
}

proof fn lemma_keyed_prefix<V>(pids: Seq<i32>, values: Seq<V>)
    requires
        pids.len() < values.len(),
    ensures
        keyed(pids, values) == keyed(pids, values.drop_last()),
    decreases pids.len(),
{
    if pids.len() > 0 {
        lemma_keyed_prefix(pids.drop_last(), values);
    }
}

/// A pid-keyed map is read entry by entry, for maps of every size: a key that is
/// a pid puts its value in place of what the pid had and leaves all others, the
/// first key that is none is the error, and nothing behind it matters.
pub proof fn law_pid_keys_are_read_entry_by_entry<V>(
    entries: Seq<(String, V)>,
    key: String,
    value: V,
)
    ensures
        pid_map(Seq::<(String, V)>::empty()) == Ok::<Map<i32, V>, Seq<char>>(Map::empty()),
        pid_map(entries.push((key, value))) == match pid_map(entries) {
            Err(bad) => Err(bad),
            Ok(map) => match i32_from_text(key@) {
                Some(pid) => Ok(map.insert(pid, value)),
                None => Err(key@),
            },
        },
{
    assert(entries.push((key, value)).drop_last() =~= entries);
}

} // verus!
