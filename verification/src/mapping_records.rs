//! Mappings as the BPF recorder writes them, and their paths.

use crate::artifacts::{mapping_views, MappingView, ProcessMapping};
use crate::bindings::{
    MAPPING_DEV, MAPPING_END, MAPPING_FILE_OFFSET, MAPPING_INO, MAPPING_PID, MAPPING_RECORD_SIZE,
    MAPPING_START, MAPPING_TIMESTAMP,
};
use crate::bytes::{
    get_u32, get_u64, law_u32_reads_back, law_u64_reads_back, lemma_stored_len, ne_bytes, u32_at,
    u64_at,
};
use std::collections::HashMap;
use vstd::prelude::*;

verus! {

/// One executable file mapping as the BPF recorder saw it. The path is resolved
/// separately, per inode.
#[derive(Debug, Clone, Copy, PartialEq, Eq)]
pub struct MappingRecord {
    pub pid: u32,
    pub dev: u64,
    pub ino: u64,
    pub file_offset: u64,
    pub start: u64,
    pub end: u64,
    pub timestamp: u64,
}

impl MappingRecord {
    /// The mapping in the bytes of a mapping record.
    pub open spec fn decoded(data: Seq<u8>) -> MappingRecord {
        MappingRecord {
            pid: u32_at(data, MAPPING_PID as int),
            dev: u64_at(data, MAPPING_DEV as int),
            ino: u64_at(data, MAPPING_INO as int),
            file_offset: u64_at(data, MAPPING_FILE_OFFSET as int),
            start: u64_at(data, MAPPING_START as int),
            end: u64_at(data, MAPPING_END as int),
            timestamp: u64_at(data, MAPPING_TIMESTAMP as int),
        }
    }

    /// Parse a mapping record from raw bytes. Bytes behind the record are
    /// ignored.
    pub fn parse(data: &[u8]) -> (r: Option<MappingRecord>)
        ensures
            r == (if data@.len() >= MAPPING_RECORD_SIZE {
                Some(MappingRecord::decoded(data@))
            } else {
                None
            }),
    {
        if data.len() < MAPPING_RECORD_SIZE {
            return None;
        }
        Some(
            MappingRecord {
                pid: get_u32(data, MAPPING_PID),
                dev: get_u64(data, MAPPING_DEV),
                ino: get_u64(data, MAPPING_INO),
                file_offset: get_u64(data, MAPPING_FILE_OFFSET),
                start: get_u64(data, MAPPING_START),
                end: get_u64(data, MAPPING_END),
                timestamp: get_u64(data, MAPPING_TIMESTAMP),
            },
        )
    }

    /// The mapping, with the path of its file.
    pub open spec fn with_path(self, path: Seq<char>) -> MappingView {
        MappingView {
            pid: self.pid as i32,
            path,
            dev: self.dev,
            ino: self.ino,
            file_offset: self.file_offset,
            start: self.start,
            end: self.end,
            timestamp: self.timestamp,
        }
    }
}

/// `std`'s `HashMap::get`, for the path table: what the table holds under
/// `(dev, ino)`.
#[verifier::external_body]
fn path_of(paths: &HashMap<(u64, u64), String>, dev: u64, ino: u64) -> (r: Option<&String>)
    ensures
        match r {
            Some(path) => paths@.contains_key((dev, ino)) && *path == paths@[(dev, ino)],
            None => !paths@.contains_key((dev, ino)),
        },
{
    paths.get(&(dev, ino))
}

/// The mappings of those records whose file has a path, in the order of the
/// records.
pub open spec fn resolved(
    records: Seq<MappingRecord>,
    paths: Map<(u64, u64), String>,
) -> Seq<MappingView>
    decreases records.len(),
{
    if records.len() == 0 {
        Seq::empty()
    } else {
        let front = resolved(records.drop_last(), paths);
        let last = records.last();
        if paths.contains_key((last.dev, last.ino)) {
            front.push(last.with_path(paths[(last.dev, last.ino)]@))
        } else {
            front
        }
    }
}

/// Records without a path are dropped because their unwind data and symbols
/// cannot be read.
pub fn resolve_mappings(
    records: Vec<MappingRecord>,
    paths: &HashMap<(u64, u64), String>,
) -> (r: Vec<ProcessMapping>)
    ensures
        mapping_views(r@) == resolved(records@, paths@),
{
    let mut mappings: Vec<ProcessMapping> = Vec::new();
    assert(mapping_views(mappings@) =~= Seq::empty());
    for i in 0..records.len()
        invariant
            mapping_views(mappings@) == resolved(records@.take(i as int), paths@),
    {
        let record = records[i];
        let ghost before = mappings@;
        proof {
            assert(records@.take(i + 1).drop_last() =~= records@.take(i as int));
        }
        if let Some(path) = path_of(paths, record.dev, record.ino) {
            let mapping = ProcessMapping {
                pid: record.pid as i32,
                path: path.clone(),
                dev: record.dev,
                ino: record.ino,
                file_offset: record.file_offset,
                avma_range: record.start..record.end,
                timestamp: record.timestamp,
            };
            mappings.push(mapping);
            assert(mapping_views(mappings@) =~= mapping_views(before).push(
                record.with_path(paths@[(record.dev, record.ino)]@),
            ));
        }
    }
    assert(records@.take(records@.len() as int) =~= records@);
    mappings
}

impl MappingRecord {
    /// The bytes of a mapping record that holds this mapping.
    pub open spec fn encoded(self) -> Seq<u8> {
        ne_bytes(self.dev as nat, 8) + ne_bytes(self.ino as nat, 8) + ne_bytes(
            self.file_offset as nat,
            8,
        ) + ne_bytes(self.start as nat, 8) + ne_bytes(self.end as nat, 8) + ne_bytes(
            self.timestamp as nat,
            8,
        ) + ne_bytes(self.pid as nat, 4) + ne_bytes(0, 4)
    }
}

/// A mapping record is read back field by field, whatever stands behind it.
pub proof fn law_mapping_record_reads_back(record: MappingRecord, rest: Seq<u8>)
    ensures
        record.encoded().len() == MAPPING_RECORD_SIZE,
        MappingRecord::decoded(record.encoded() + rest) == record,
{
    let data = record.encoded() + rest;
    lemma_stored_len(record.dev, record.pid, 0);
    lemma_stored_len(record.ino, 0, 0);
    lemma_stored_len(record.file_offset, 0, 0);
    lemma_stored_len(record.start, 0, 0);
    lemma_stored_len(record.end, 0, 0);
    lemma_stored_len(record.timestamp, 0, 0);
    assert(data.subrange(0, 8) =~= ne_bytes(record.dev as nat, 8));
    assert(data.subrange(8, 16) =~= ne_bytes(record.ino as nat, 8));
    assert(data.subrange(16, 24) =~= ne_bytes(record.file_offset as nat, 8));
    assert(data.subrange(24, 32) =~= ne_bytes(record.start as nat, 8));
    assert(data.subrange(32, 40) =~= ne_bytes(record.end as nat, 8));
    assert(data.subrange(40, 48) =~= ne_bytes(record.timestamp as nat, 8));
    assert(data.subrange(48, 52) =~= ne_bytes(record.pid as nat, 4));
    law_u64_reads_back(data, 0, record.dev);
    law_u64_reads_back(data, 8, record.ino);
    law_u64_reads_back(data, 16, record.file_offset);
    law_u64_reads_back(data, 24, record.start);
    law_u64_reads_back(data, 32, record.end);
    law_u64_reads_back(data, 40, record.timestamp);
    law_u32_reads_back(data, 48, record.pid);
}

/// Resolving two lists one after the other is resolving both at once: each
/// record is kept or dropped by itself, and the order stays.
pub proof fn law_resolving_is_record_by_record(
    first: Seq<MappingRecord>,
    second: Seq<MappingRecord>,
    paths: Map<(u64, u64), String>,
)
    ensures
        resolved(first + second, paths) == resolved(first, paths) + resolved(second, paths),
    decreases second.len(),
{
    if second.len() == 0 {
        assert(first + second =~= first);
        assert(resolved(first, paths) + resolved(second, paths) =~= resolved(first, paths));
    } else {
        assert((first + second).drop_last() =~= first + second.drop_last());
        law_resolving_is_record_by_record(first, second.drop_last(), paths);
        assert(resolved(first + second, paths) =~= resolved(first, paths) + resolved(
            second,
            paths,
        ));
    }
}

/// Where every file has a path, every record gives a mapping; where none has,
/// none does.
pub proof fn law_only_unnamed_files_are_dropped(
    records: Seq<MappingRecord>,
    paths: Map<(u64, u64), String>,
)
    ensures
        (forall|i: int|
            0 <= i < records.len() ==> paths.contains_key(
                ((#[trigger] records[i]).dev, records[i].ino),
            )) ==> resolved(records, paths) == records.map_values(
            |r: MappingRecord| r.with_path(paths[(r.dev, r.ino)]@),
        ),
        (forall|i: int|
            0 <= i < records.len() ==> !paths.contains_key(
                ((#[trigger] records[i]).dev, records[i].ino),
            )) ==> resolved(records, paths).len() == 0,
    decreases records.len(),
{
    if records.len() > 0 {
        let front = records.drop_last();
        assert(forall|i: int| 0 <= i < front.len() ==> front[i] == #[trigger] records[i]);
        assert(records.last() == records[records.len() - 1]);
        law_only_unnamed_files_are_dropped(front, paths);
        let named = |r: MappingRecord| r.with_path(paths[(r.dev, r.ino)]@);
        if forall|i: int|
            0 <= i < records.len() ==> paths.contains_key(
                ((#[trigger] records[i]).dev, records[i].ino),
            ) {
            assert forall|i: int| 0 <= i < front.len() implies paths.contains_key(
                ((#[trigger] front[i]).dev, front[i].ino),
            ) by {
                assert(front[i] == records[i]);
            }
            assert(resolved(records, paths) =~= records.map_values(named));
        }
        if forall|i: int|
            0 <= i < records.len() ==> !paths.contains_key(
                ((#[trigger] records[i]).dev, records[i].ino),
            ) {
            assert forall|i: int| 0 <= i < front.len() implies !paths.contains_key(
                ((#[trigger] front[i]).dev, front[i].ino),
            ) by {
                assert(front[i] == records[i]);
            }
        }
    }
}

/// Where the fields of a mapping record are.
pub proof fn law_where_the_fields_of_a_record_are(data: Seq<u8>)
    ensures
        MappingRecord::decoded(data).dev == u64_at(data, 0),
        MappingRecord::decoded(data).ino == u64_at(data, 8),
        MappingRecord::decoded(data).file_offset == u64_at(data, 16),
        MappingRecord::decoded(data).start == u64_at(data, 24),
        MappingRecord::decoded(data).end == u64_at(data, 32),
        MappingRecord::decoded(data).timestamp == u64_at(data, 40),
        MappingRecord::decoded(data).pid == u32_at(data, 48),
        MAPPING_RECORD_SIZE == 56,
{
}

/// A record by itself gives one mapping with its own fields and the path of its
/// file, if the file has one, and none otherwise.
pub proof fn law_one_record_is_one_mapping(record: MappingRecord, paths: Map<(u64, u64), String>)
    ensures
        ({
            let mappings = resolved(seq![record], paths);
            let file = (record.dev, record.ino);
            &&& !paths.contains_key(file) ==> mappings.len() == 0
            &&& paths.contains_key(file) ==> {
                &&& mappings.len() == 1
                &&& mappings[0].pid == record.pid as i32
                &&& mappings[0].path == paths[file]@
                &&& mappings[0].dev == record.dev
                &&& mappings[0].ino == record.ino
                &&& mappings[0].file_offset == record.file_offset
                &&& mappings[0].start == record.start
                &&& mappings[0].end == record.end
                &&& mappings[0].timestamp == record.timestamp
            }
        }),
{
    let one = seq![record];
    assert(one.drop_last() =~= Seq::empty());
    assert(resolved(one.drop_last(), paths).len() == 0);
}

} // verus!
