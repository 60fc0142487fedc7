//! The ring buffer through which the kernel hands over perf records.

use crate::artifacts::{event_views, EventKindView, EventView, MemtrackEvent};
use crate::bytes::{get_u16, get_u32, get_u64, u16_at, u32_at, u64_at};
use crate::perf_mappings::{
    mmap2_event, parse_mmap2, perf_record_lost, perf_record_mmap2, record_lost, record_mmap2,
};
use vstd::arithmetic::div_mod::{
    lemma_add_mod_noop, lemma_fundamental_div_mod, lemma_mod_multiples_vanish,
    lemma_mod_sub_multiples_vanish, lemma_small_mod, lemma_truncate_middle,
};
use vstd::arithmetic::power2::is_pow2;
use vstd::prelude::*;

verus! {

/// Pages of record data in one ring; one page of metadata stands in front.
pub const DATA_PAGES: usize = 64;

/// The length of the header that starts every record.
pub open spec fn header_len() -> int {
    8
}

/// The length of the metadata at the start of the mapping.
pub open spec fn metadata_len() -> int {
    1088
}

/// The size of `perf_event_open_sys::bindings::perf_event_header`.
#[verifier::external_body]
fn perf_event_header_size() -> (r: usize)
    ensures
        r == header_len(),
{
    std::mem::size_of::<perf_event_open_sys::bindings::perf_event_header>()
}

/// The size of `perf_event_open_sys::bindings::perf_event_mmap_page`.
#[verifier::external_body]
fn perf_event_mmap_page_size() -> (r: usize)
    ensures
        r == metadata_len(),
{
    std::mem::size_of::<perf_event_open_sys::bindings::perf_event_mmap_page>()
}

/// Why a ring cannot be used.
#[derive(Debug, Clone, Copy, PartialEq, Eq)]
pub enum RingError {
    /// The length of the mapping does not fit in a `usize`.
    MappingSizeOverflow,
    /// The mapping is smaller than its metadata page.
    MappingTooSmall,
    /// The kernel returned an invalid data offset.
    InvalidDataOffset,
    /// The kernel returned an invalid data size.
    InvalidDataSize,
    /// The end of the data does not fit in a `usize`.
    DataRangeOverflow,
    /// The kernel returned a ring outside the mapped area.
    OutsideMapping,
}

/// The length of the mapping of one ring.
pub open spec fn mapping_len_for(page_size: int) -> Result<int, RingError> {
    let len = page_size * (DATA_PAGES + 1);
    if len > usize::MAX {
        Err(RingError::MappingSizeOverflow)
    } else if len < metadata_len() {
        Err(RingError::MappingTooSmall)
    } else {
        Ok(len)
    }
}

/// The length of the mapping of one ring.
pub fn ring_mapping_len(page_size: usize) -> (r: Result<usize, RingError>)
    ensures
        match r {
            Ok(len) => mapping_len_for(page_size as int) == Ok::<int, RingError>(len as int),
            Err(e) => mapping_len_for(page_size as int) == Err::<int, RingError>(e),
        },
{
    match page_size.checked_mul(DATA_PAGES + 1) {
        Some(len) => if len < perf_event_mmap_page_size() {
            Err(RingError::MappingTooSmall)
        } else {
            Ok(len)
        },
        None => Err(RingError::MappingSizeOverflow),
    }
}

/// Where the record data lies in the mapping of one ring.
#[derive(Debug, Clone, Copy, PartialEq, Eq)]
pub struct RingGeometry {
    data_offset: usize,
    data_size: usize,
}

/// Why the data range that the kernel announced cannot be used, if so.
pub open spec fn geometry_error(
    page_size: int,
    mapping_len: int,
    data_offset: int,
    data_size: int,
) -> Option<RingError> {
    if data_offset > usize::MAX {
        Some(RingError::InvalidDataOffset)
    } else if data_size > usize::MAX {
        Some(RingError::InvalidDataSize)
    } else if data_offset < page_size || data_offset % page_size != 0 {
        Some(RingError::InvalidDataOffset)
    } else if data_size < header_len() || data_size % page_size != 0 || !is_pow2(data_size) {
        Some(RingError::InvalidDataSize)
    } else if data_offset + data_size > usize::MAX {
        Some(RingError::DataRangeOverflow)
    } else if data_offset + data_size > mapping_len {
        Some(RingError::OutsideMapping)
    } else {
        None
    }
}

/// Whether `n` is a power of two.
fn power_of_two(n: usize) -> (r: bool)
    ensures
        r == is_pow2(n as int),
{
    reveal(is_pow2);
    if n == 0 {
        return false;
    }
    let mut rest: usize = n;
    while rest % 2 == 0
        invariant
            rest > 0,
            is_pow2(rest as int) == is_pow2(n as int),
        decreases rest,
    {
        reveal(is_pow2);
        rest = rest / 2;
    }
    rest == 1
}

impl RingGeometry {
    pub closed spec fn offset(&self) -> usize {
        self.data_offset
    }

    pub closed spec fn size(&self) -> usize {
        self.data_size
    }

    /// Checks the data range that the kernel announced for a mapping of
    /// `mapping_len` bytes.
    pub fn new(page_size: usize, mapping_len: usize, data_offset: u64, data_size: u64) -> (r: Result<
        RingGeometry,
        RingError,
    >)
        requires
            page_size > 0,
        ensures
            match r {
                Ok(ring) => geometry_error(
                    page_size as int,
                    mapping_len as int,
                    data_offset as int,
                    data_size as int,
                ) is None && ring.offset() == data_offset && ring.size() == data_size,
                Err(e) => geometry_error(
                    page_size as int,
                    mapping_len as int,
                    data_offset as int,
                    data_size as int,
                ) == Some(e),
            },
    {
        if data_offset > usize::MAX as u64 {
            return Err(RingError::InvalidDataOffset);
        }
        if data_size > usize::MAX as u64 {
            return Err(RingError::InvalidDataSize);
        }
        let offset: usize = data_offset as usize;
        let size: usize = data_size as usize;
        if offset < page_size || offset % page_size != 0 {
            return Err(RingError::InvalidDataOffset);
        }
        if size < perf_event_header_size() || size % page_size != 0 || !power_of_two(size) {
            return Err(RingError::InvalidDataSize);
        }
        match offset.checked_add(size) {
            Some(end) => if end > mapping_len {
                Err(RingError::OutsideMapping)
            } else {
                Ok(RingGeometry { data_offset: offset, data_size: size })
            },
            None => Err(RingError::DataRangeOverflow),
        }
    }

    /// Where the record data starts in the mapping.
    pub fn data_offset(&self) -> (r: usize)
        ensures
            r == self.offset(),
    {
        self.data_offset
    }

    /// How many bytes of record data the ring has.
    pub fn data_size(&self) -> (r: usize)
        ensures
            r == self.size(),
    {
        self.data_size
    }
}

/// The `len` bytes of a ring from position `at` on. Positions count up without
/// end; the ring holds position `p` at `p` modulo its size.
pub open spec fn ring_bytes(data: Seq<u8>, at: int, len: nat) -> Seq<u8> {
    Seq::new(len, |i: int| data[(at + i) % (data.len() as int)])
}

/// Copies `len` bytes out of the ring, around its end where need be.
pub fn copy_from_ring(data: &[u8], offset: u64, len: usize) -> (r: Vec<u8>)
    requires
        0 < data@.len(),
        len <= data@.len(),
    ensures
        r@ == ring_bytes(data@, offset as int, len as nat),
{
    let size: usize = data.len();
    let start: usize = (offset % (size as u64)) as usize;
    let mut out: Vec<u8> = Vec::new();
    for i in 0..len
        invariant
            size == data@.len(),
            start == offset as int % (size as int),
            start < size,
            len <= size,
            out@ == ring_bytes(data@, offset as int, i as nat),
    {
        let at: usize = if i < size - start {
            start + i
        } else {
            i - (size - start)
        };
        proof {
            let n = size as int;
            lemma_add_mod_noop(offset as int, i as int, n);
            lemma_small_mod(i as nat, n as nat);
            if start + i < n {
                lemma_small_mod((start + i) as nat, n as nat);
            } else {
                lemma_mod_sub_multiples_vanish(start + i, n);
                lemma_small_mod((start + i - n) as nat, n as nat);
            }
            assert(at == (offset + i) % n);
        }
        out.push(data[at]);
        assert(out@ =~= ring_bytes(data@, offset as int, (i + 1) as nat));
    }
    out
}

/// How many records one record reports as lost. A loss record too short to
/// hold its count stands for one.
pub open spec fn record_losses(record: Seq<u8>) -> nat {
    if record.len() >= 4 && u32_at(record, 0) == record_lost() {
        if record.len() >= 24 {
            u64_at(record, 16) as nat
        } else {
            1
        }
    } else {
        0
    }
}

/// A loss counter after `more` further losses; it wraps like the 64-bit
/// counter it is.
pub open spec fn counted(lost: u64, more: nat) -> u64 {
    ((lost + more) % 0x1_0000_0000_0000_0000) as u64
}

/// The list `events`, and behind it `event` if there is one.
pub open spec fn with_event(events: Seq<EventView>, event: Option<EventView>) -> Seq<EventView> {
    match event {
        Some(e) => events.push(e),
        None => events,
    }
}

/// Takes in one record: an executable mapping is kept, a loss is counted, and
/// any other record is passed over.
pub fn handle_record(record: &[u8], mappings: &mut Vec<MemtrackEvent>, lost: &mut u64)
    ensures
        event_views(final(mappings)@) == with_event(
            event_views(old(mappings)@),
            mmap2_event(record@),
        ),
        *final(lost) == counted(*old(lost), record_losses(record@)),
        match mmap2_event(record@) {
            Some(event) => event_views(final(mappings)@) == event_views(old(mappings)@).push(event),
            None => event_views(final(mappings)@) == event_views(old(mappings)@),
        },
{
    let ghost mappings0 = mappings@;
    if record.len() < 4 {
        return;
    }
    let kind = get_u32(record, 0);
    if kind == perf_record_mmap2() {
        if let Some(event) = parse_mmap2(record) {
            mappings.push(event);
            assert(event_views(mappings@) =~= event_views(mappings0).push(event@));
        }
    } else if kind == perf_record_lost() {
        let count: u64 = if record.len() >= 24 {
            get_u64(record, 16)
        } else {
            1
        };
        *lost = lost.wrapping_add(count);
    }
}

/// How far `head` is ahead of `tail`. Both count bytes and wrap at 64 bits.
pub open spec fn available(head: u64, tail: u64) -> int {
    if head >= tail {
        head - tail
    } else {
        head - tail + 0x1_0000_0000_0000_0000
    }
}

/// The position `size` bytes behind `tail`.
pub open spec fn advanced(tail: u64, size: int) -> u64 {
    ((tail + size) % 0x1_0000_0000_0000_0000) as u64
}

/// What a pass over a ring finds.
#[verifier::ext_equal]
pub struct Drained {
    pub events: Seq<EventView>,
    pub lost: nat,
}

/// The size that the record at `tail` announces.
pub open spec fn record_size(data: Seq<u8>, tail: u64) -> int {
    u16_at(ring_bytes(data, tail as int, header_len() as nat), 6) as int
}

/// Whether the record at `tail` cannot be read: the bytes that are there do not
/// hold a header, or the announced size is no size that a record can have.
pub open spec fn is_corrupt(data: Seq<u8>, head: u64, tail: u64) -> bool {
    ||| available(head, tail) < header_len()
    ||| record_size(data, tail) < header_len()
    ||| record_size(data, tail) > data.len()
    ||| record_size(data, tail) > available(head, tail)
}

/// The records of a ring from `tail` up to `head`. Everything from a corrupt
/// record on is given up and counts as one loss.
pub open spec fn records_between(data: Seq<u8>, head: u64, tail: u64) -> Drained
    decreases available(head, tail),
{
    if head == tail {
        Drained { events: Seq::empty(), lost: 0 }
    } else if is_corrupt(data, head, tail) {
        Drained { events: Seq::empty(), lost: 1 }
    } else {
        let size = record_size(data, tail);
        let record = ring_bytes(data, tail as int, size as nat);
        let rest = records_between(data, head, advanced(tail, size));
        Drained {
            events: with_event(Seq::empty(), mmap2_event(record)) + rest.events,
            lost: record_losses(record) + rest.lost,
        }
    }
}

/// What a pass over a ring finds. Once the producer has lapped the consumer,
/// the beginning of the stream no longer has a record boundary, so all of it is
/// given up and counts as one loss.
pub open spec fn drained(data: Seq<u8>, head: u64, tail: u64) -> Drained {
    if available(head, tail) > data.len() {
        Drained { events: Seq::empty(), lost: 1 }
    } else {
        records_between(data, head, tail)
    }
}

proof fn lemma_counted_twice(lost: u64, a: nat, b: nat)
    ensures
        counted(counted(lost, a), b) == counted(lost, a + b),
{
    let m = 0x1_0000_0000_0000_0000int;
    lemma_add_mod_noop(lost + a, b as int, m);
    lemma_add_mod_noop((lost + a) % m, b as int, m);
    lemma_small_mod(((lost + a) % m) as nat, m as nat);
}

/// Takes in everything that the kernel wrote between `tail` and `head` into the
/// ring whose data is `data`, and returns the new tail.
pub fn drain(
    data: &[u8],
    head: u64,
    tail: u64,
    mappings: &mut Vec<MemtrackEvent>,
    lost: &mut u64,
) -> (r: u64)
    ensures
        r == head,
        event_views(final(mappings)@) == event_views(old(mappings)@) + drained(
            data@,
            head,
            tail,
        ).events,
        *final(lost) == counted(*old(lost), drained(data@, head, tail).lost),
{
    let ghost whole = drained(data@, head, tail);
    let ghost mappings0 = event_views(mappings@);
    let ghost lost0 = *lost;
    if head.wrapping_sub(tail) > data.len() as u64 {
        *lost = lost.wrapping_add(1);
        assert(mappings0 + whole.events =~= mappings0);
        return head;
    }
    let mut at: u64 = tail;
    let header_size: usize = perf_event_header_size();
    assert(mappings0 + whole.events =~= mappings0 + records_between(data@, head, at).events);
    while at != head
        invariant
            header_size == header_len(),
            whole == drained(data@, head, tail),
            mappings0 == event_views(old(mappings)@),
            lost0 == *old(lost),
            available(head, at) <= data@.len(),
            event_views(mappings@) + records_between(data@, head, at).events == mappings0
                + whole.events,
            counted(*lost, records_between(data@, head, at).lost) == counted(lost0, whole.lost),
        decreases available(head, at),
    {
        let ghost now = records_between(data@, head, at);
        let ahead: u64 = head.wrapping_sub(at);
        if ahead < header_size as u64 {
            *lost = lost.wrapping_add(1);
            assert(event_views(mappings@) + now.events =~= event_views(mappings@));
            return head;
        }
        let header = copy_from_ring(data, at, header_size);
        let size: usize = get_u16(header.as_slice(), 6) as usize;
        if size < header_size || size > data.len() || size as u64 > ahead {
            *lost = lost.wrapping_add(1);
            assert(event_views(mappings@) + now.events =~= event_views(mappings@));
            return head;
        }
        let record = copy_from_ring(data, at, size);
        let ghost before = event_views(mappings@);
        let ghost lost_before = *lost;
        handle_record(record.as_slice(), mappings, lost);
        let ghost before_at = at;
        at = at.wrapping_add(size as u64);
        proof {
            let rest = records_between(data@, head, at);
            assert(at == advanced(before_at, size as int));
            assert(event_views(mappings@) + rest.events =~= before + now.events);
            lemma_counted_twice(lost_before, record_losses(record@), rest.lost);
        }
    }
    assert(event_views(mappings@) + records_between(data@, head, at).events =~= event_views(
        mappings@,
    ));
    head
}

/// Where the unread bytes of a ring lie: `first` bytes from `start` on, and
/// then `second` bytes from the beginning on.
#[derive(Debug, Clone, Copy, PartialEq, Eq)]
pub struct UnreadSpans {
    pub start: usize,
    pub first: usize,
    pub second: usize,
}

/// Where the bytes between `tail` and `head` lie in a ring of `data_size` bytes.
/// The kernel may write to all the others at any time. Of a ring whose consumer
/// has been lapped, no byte can be relied on.
pub fn unread_spans(data_size: usize, head: u64, tail: u64) -> (r: UnreadSpans)
    requires
        data_size > 0,
    ensures
        r.start == tail as int % (data_size as int),
        r.start + r.first <= data_size,
        r.second <= data_size,
        r.first + r.second == if available(head, tail) <= data_size {
            available(head, tail)
        } else {
            0
        },
        forall|i: int|
            0 <= i < r.first + r.second ==> #[trigger] slot(data_size as int, tail, i) == if i
                < r.first {
                r.start + i
            } else {
                i - r.first
            },
{
    let start: usize = (tail % (data_size as u64)) as usize;
    let ahead: u64 = head.wrapping_sub(tail);
    let spans = if ahead > data_size as u64 {
        UnreadSpans { start, first: 0, second: 0 }
    } else {
        let len: usize = ahead as usize;
        if len <= data_size - start {
            UnreadSpans { start, first: len, second: 0 }
        } else {
            UnreadSpans { start, first: data_size - start, second: len - (data_size - start) }
        }
    };
    proof {
        let n = data_size as int;
        assert forall|i: int| 0 <= i < spans.first + spans.second implies #[trigger] slot(
            n,
            tail,
            i,
        ) == if i < spans.first {
            spans.start + i
        } else {
            i - spans.first
        } by {
            lemma_add_mod_noop(tail as int, i, n);
            lemma_small_mod(start as nat, n as nat);
            lemma_add_mod_noop(start as int, i, n);
            if start + i < n {
                lemma_small_mod((start + i) as nat, n as nat);
            } else {
                lemma_mod_sub_multiples_vanish(start + i, n);
                lemma_small_mod((start + i - n) as nat, n as nat);
            }
        }
    }
    spans
}

/// The place in a ring of `n` bytes of the byte `i` behind `tail`.
pub open spec fn slot(n: int, tail: u64, i: int) -> int {
    (tail + i) % n
}

/// What is found depends on the unread bytes only: two rings that agree there
/// are drained alike, whatever their other bytes hold.
pub proof fn law_only_unread_bytes_matter(a: Seq<u8>, b: Seq<u8>, head: u64, tail: u64)
    requires
        a.len() == b.len(),
        a.len() <= u64::MAX,
        is_pow2(a.len() as int),
        forall|i: int|
            0 <= i < available(head, tail) ==> a[#[trigger] slot(a.len() as int, tail, i)]
                == b[slot(a.len() as int, tail, i)],
    ensures
        drained(a, head, tail) == drained(b, head, tail),
{
    let len = available(head, tail) as nat;
    let x = ring_bytes(a, tail as int, len);
    let y = ring_bytes(b, tail as int, len);
    assert forall|i: int| 0 <= i < len implies x[i] == y[i] by {
        let place = slot(a.len() as int, tail, i);
        assert(x[i] == a[place] && y[i] == b[place]);
    }
    assert(x =~= y);
    if available(head, tail) <= a.len() {
        lemma_same_records(a, b, head, tail);
    }
}

proof fn lemma_same_records(a: Seq<u8>, b: Seq<u8>, head: u64, tail: u64)
    requires
        a.len() == b.len(),
        a.len() <= u64::MAX,
        is_pow2(a.len() as int),
        ring_bytes(a, tail as int, available(head, tail) as nat) == ring_bytes(
            b,
            tail as int,
            available(head, tail) as nat,
        ),
    ensures
        records_between(a, head, tail) == records_between(b, head, tail),
    decreases available(head, tail),
{
    let len = available(head, tail);
    let x = ring_bytes(a, tail as int, len as nat);
    if head != tail && len >= header_len() {
        let h = header_len();
        assert(ring_bytes(a, tail as int, h as nat) =~= x.take(h));
        assert(ring_bytes(b, tail as int, h as nat) =~= ring_bytes(b, tail as int, len as nat).take(
            h,
        ));
        if !is_corrupt(a, head, tail) {
            let size = record_size(a, tail);
            assert(ring_bytes(a, tail as int, size as nat) =~= x.take(size));
            assert(ring_bytes(b, tail as int, size as nat) =~= ring_bytes(
                b,
                tail as int,
                len as nat,
            ).take(size));
            let next = advanced(tail, size);
            assert(available(head, next) == len - size);
            lemma_ring_goes_on(a, tail, size as nat, (len - size) as nat);
            lemma_ring_goes_on(b, tail, size as nat, (len - size) as nat);
            lemma_same_records(a, b, head, next);
        }
    }
}

/// Where nothing was written, nothing is found and nothing is lost.
pub proof fn law_an_empty_ring_yields_nothing(data: Seq<u8>, position: u64)
    ensures
        drained(data, position, position) == (Drained { events: Seq::empty(), lost: 0 }),
{
}

proof fn lemma_mapping_events(record: Seq<u8>)
    ensures
        mmap2_event(record) matches Some(e) ==> {
            &&& e.kind matches EventKindView::Mapping { path, .. }
            &&& path.len() > 0
            &&& path[0] == '/'
        },
{
}

/// Every event that is found is an executable mapping of a file with an absolute
/// path.
pub proof fn law_only_absolute_mappings_are_found(data: Seq<u8>, head: u64, tail: u64)
    ensures
        forall|i: int|
            0 <= i < drained(data, head, tail).events.len() ==> {
                &&& (#[trigger] drained(
                    data,
                    head,
                    tail,
                ).events[i]).kind matches EventKindView::Mapping { path, .. }
                &&& path.len() > 0
                &&& path[0] == '/'
            },
    decreases available(head, tail),
{
    if available(head, tail) <= data.len() && head != tail && !is_corrupt(data, head, tail) {
        let size = record_size(data, tail);
        let record = ring_bytes(data, tail as int, size as nat);
        let next = advanced(tail, size);
        lemma_mapping_events(record);
        law_only_absolute_mappings_are_found(data, head, next);
        let first = with_event(Seq::empty(), mmap2_event(record));
        let rest = drained(data, head, next).events;
        assert(available(head, next) <= data.len());
        assert(drained(data, head, tail).events == first + rest);
        assert forall|i: int| 0 <= i < (first + rest).len() implies {
            &&& (#[trigger] (first + rest)[i]).kind matches EventKindView::Mapping { path, .. }
            &&& path.len() > 0
            &&& path[0] == '/'
        } by {
            if i >= first.len() {
                assert((first + rest)[i] == rest[i - first.len()]);
            }
        }
    }
}

/// Whether `record` is framed as the kernel frames records: a header, with the
/// size of the whole in it.
pub open spec fn is_framed(record: Seq<u8>) -> bool {
    header_len() <= record.len() <= u16::MAX && u16_at(record, 6) == record.len()
}

/// The records, one behind the other.
pub open spec fn stream(records: Seq<Seq<u8>>) -> Seq<u8>
    decreases records.len(),
{
    if records.len() == 0 {
        Seq::empty()
    } else {
        records[0] + stream(records.skip(1))
    }
}

/// What the records report.
pub open spec fn reported(records: Seq<Seq<u8>>) -> Drained
    decreases records.len(),
{
    if records.len() == 0 {
        Drained { events: Seq::empty(), lost: 0 }
    } else {
        let rest = reported(records.skip(1));
        Drained {
            events: with_event(Seq::empty(), mmap2_event(records[0])) + rest.events,
            lost: record_losses(records[0]) + rest.lost,
        }
    }
}

proof fn lemma_powers_divide(n: int, m: int)
    requires
        is_pow2(n),
        is_pow2(m),
        n <= m,
    ensures
        m % n == 0,
    decreases n,
{
    reveal(is_pow2);
    if n != 1 {
        lemma_powers_divide(n / 2, m / 2);
        lemma_truncate_middle(m / 2, 2, n / 2);
    }
}

proof fn lemma_position_range_is_pow2()
    ensures
        is_pow2(0x1_0000_0000_0000_0000),
{
    reveal_with_fuel(is_pow2, 66);
}

/// A position that wrapped at 64 bits stands in the same slot of the ring.
proof fn lemma_same_slot(n: int, tail: u64, skip: int, i: int)
    requires
        is_pow2(n),
        n <= 0x1_0000_0000_0000_0000,
        0 <= skip,
    ensures
        (advanced(tail, skip) + i) % n == (tail + (skip + i)) % n,
{
    let m = 0x1_0000_0000_0000_0000int;
    let next = advanced(tail, skip) as int;
    let q = (tail + skip) / m;
    let k = m / n;
    reveal(is_pow2);
    lemma_position_range_is_pow2();
    lemma_powers_divide(n, m);
    lemma_fundamental_div_mod(m, n);
    lemma_fundamental_div_mod(tail + skip, m);
    assert(n * (k * q) + (next + i) == tail + (skip + i)) by (nonlinear_arith)
        requires
            m == n * k,
            tail + skip == m * q + next,
    ;
    lemma_mod_multiples_vanish(k * q, next + i, n);
}

/// Where the positions wrap at 64 bits, the ring goes on without a break.
proof fn lemma_ring_goes_on(data: Seq<u8>, tail: u64, skip: nat, len: nat)
    requires
        is_pow2(data.len() as int),
        data.len() <= 0x1_0000_0000_0000_0000,
    ensures
        ring_bytes(data, advanced(tail, skip as int) as int, len) == ring_bytes(
            data,
            tail as int,
            skip + len,
        ).skip(skip as int),
{
    let next = advanced(tail, skip as int) as int;
    let here = ring_bytes(data, next, len);
    let whole = ring_bytes(data, tail as int, skip + len).skip(skip as int);
    assert forall|i: int| 0 <= i < len implies #[trigger] here[i] == whole[i] by {
        lemma_same_slot(data.len() as int, tail, skip as int, i);
    }
    assert(here =~= whole);
}

/// Records that the kernel has written one behind the other, and that the
/// consumer has not been lapped on, are all found, in their order, and no loss
/// is counted but those that the records themselves report.
pub proof fn law_ring_delivers_every_record(data: Seq<u8>, tail: u64, records: Seq<Seq<u8>>)
    requires
        is_pow2(data.len() as int),
        data.len() <= u64::MAX,
        forall|i: int| 0 <= i < records.len() ==> is_framed(#[trigger] records[i]),
        stream(records).len() <= data.len(),
        ring_bytes(data, tail as int, stream(records).len()) == stream(records),
    ensures
        drained(data, advanced(tail, stream(records).len() as int), tail) == reported(records),
    decreases records.len(),
{
    let total = stream(records).len();
    let head = advanced(tail, total as int);
    lemma_small_distance(tail, total as int);
    if records.len() > 0 {
        let first = records[0];
        let rest = records.skip(1);
        let size = first.len();
        let next = advanced(tail, size as int);
        assert(is_framed(first));
        assert(total == size + stream(rest).len());
        assert(stream(records).take(size as int) =~= first);
        assert(ring_bytes(data, tail as int, size) =~= ring_bytes(data, tail as int, total).take(
            size as int,
        ));
        let header = ring_bytes(data, tail as int, header_len() as nat);
        assert(header =~= first.take(header_len()));
        assert(header.subrange(6, 8) =~= first.subrange(6, 8));
        assert(record_size(data, tail) == size);
        lemma_ring_goes_on(data, tail, size, stream(rest).len());
        assert(stream(records).skip(size as int) =~= stream(rest));
        assert forall|i: int| 0 <= i < rest.len() implies is_framed(#[trigger] rest[i]) by {
            assert(rest[i] == records[i + 1]);
        }
        law_ring_delivers_every_record(data, next, rest);
        lemma_advanced_twice(tail, size as int, stream(rest).len() as int);
        lemma_small_distance(next, stream(rest).len() as int);
        assert(!is_corrupt(data, head, tail));
    }
}

/// What records report in one pass is what they report in two: first those of
/// the first pass, then those of the second, and all their losses.
pub proof fn law_passes_add_up(first: Seq<Seq<u8>>, second: Seq<Seq<u8>>)
    ensures
        reported(first + second) == (Drained {
            events: reported(first).events + reported(second).events,
            lost: reported(first).lost + reported(second).lost,
        }),
        stream(first + second) == stream(first) + stream(second),
    decreases first.len(),
{
    if first.len() == 0 {
        assert(first + second =~= second);
        assert(reported(first).events + reported(second).events =~= reported(second).events);
        assert(stream(first) + stream(second) =~= stream(second));
    } else {
        law_passes_add_up(first.skip(1), second);
        assert((first + second).skip(1) =~= first.skip(1) + second);
        assert((first + second)[0] == first[0]);
        assert(reported(first + second).events =~= reported(first).events + reported(
            second,
        ).events);
        assert(stream(first + second) =~= stream(first) + stream(second));
    }
}

/// How far a position is ahead after it advanced.
proof fn lemma_small_distance(tail: u64, size: int)
    requires
        0 <= size <= u64::MAX,
    ensures
        available(advanced(tail, size), tail) == size,
{
    let m = 0x1_0000_0000_0000_0000int;
    if tail + size < m {
        lemma_small_mod((tail + size) as nat, m as nat);
    } else {
        lemma_mod_sub_multiples_vanish(tail + size, m);
        lemma_small_mod((tail + size - m) as nat, m as nat);
    }
}

proof fn lemma_advanced_twice(tail: u64, a: int, b: int)
    requires
        0 <= a,
        0 <= b,
    ensures
        advanced(advanced(tail, a), b) == advanced(tail, a + b),
{
    let m = 0x1_0000_0000_0000_0000int;
    lemma_add_mod_noop(tail + a, b, m);
    lemma_add_mod_noop((tail + a) % m, b, m);
    lemma_small_mod(((tail + a) % m) as nat, m as nat);
}

/// The mapping of a ring is one page of metadata and 64 pages of data, for every
/// page size that leaves room for the metadata and fits the address space.
pub proof fn law_a_ring_is_sixty_five_pages(page_size: int)
    requires
        page_size >= 0,
    ensures
        65 * page_size > usize::MAX ==> mapping_len_for(page_size) == Err::<int, RingError>(
            RingError::MappingSizeOverflow,
        ),
        65 * page_size < 1088 ==> mapping_len_for(page_size) == Err::<int, RingError>(
            RingError::MappingTooSmall,
        ),
        1088 <= 65 * page_size <= usize::MAX ==> mapping_len_for(page_size) == Ok::<int, RingError>(
            65 * page_size,
        ),
{
}

/// A ring can be used if and only if its data starts on a page behind the first,
/// is whole pages and a power of two of them that holds a record header, and
/// lies inside the mapping.
pub proof fn law_a_usable_ring_lies_in_its_mapping(
    page_size: int,
    mapping_len: int,
    data_offset: int,
    data_size: int,
)
    requires
        page_size > 0,
        0 <= mapping_len <= usize::MAX,
        0 <= data_offset,
        0 <= data_size,
    ensures
        geometry_error(page_size, mapping_len, data_offset, data_size) is None <==> {
            &&& page_size <= data_offset
            &&& data_offset % page_size == 0
            &&& 8 <= data_size
            &&& data_size % page_size == 0
            &&& is_pow2(data_size)
            &&& data_offset + data_size <= mapping_len
        },
        geometry_error(page_size, mapping_len, data_offset, data_size) == Some(
            RingError::InvalidDataOffset,
        ) <==> data_offset > usize::MAX || (data_size <= usize::MAX && (data_offset < page_size
            || data_offset % page_size != 0)),
        geometry_error(page_size, mapping_len, data_offset, data_size) == Some(
            RingError::InvalidDataSize,
        ) <==> data_offset <= usize::MAX && (data_size > usize::MAX || (page_size <= data_offset
            && data_offset % page_size == 0 && (data_size < 8 || data_size % page_size != 0
            || !is_pow2(data_size)))),
        page_size <= data_offset && data_offset % page_size == 0 && 8 <= data_size && data_size
            % page_size == 0 && is_pow2(data_size) && data_offset <= usize::MAX && data_size
            <= usize::MAX ==> {
            let error = geometry_error(page_size, mapping_len, data_offset, data_size);
            let end = data_offset + data_size;
            &&& error == Some(RingError::DataRangeOverflow) <==> end > usize::MAX
            &&& error == Some(RingError::OutsideMapping) <==> mapping_len < end <= usize::MAX
        },
        geometry_error(page_size, mapping_len, data_offset, data_size) != Some(
            RingError::MappingSizeOverflow,
        ),
        geometry_error(page_size, mapping_len, data_offset, data_size) != Some(
            RingError::MappingTooSmall,
        ),
{
}

/// Bytes of a ring are taken one by one from their places, which start over at
/// the end of the ring.
pub proof fn law_ring_bytes_wrap_around(data: Seq<u8>, at: int, len: nat, i: int)
    requires
        0 < data.len(),
        0 <= at,
        0 <= i < len,
    ensures
        ring_bytes(data, at, len).len() == len,
        ring_bytes(data, at, len)[i] == data[(at + i) % (data.len() as int)],
{
}

/// A record counts as lost records only if it is a loss record: then as the
/// count it holds, or as one if it is too short to hold a count.
pub proof fn law_loss_records_carry_their_count(record: Seq<u8>)
    ensures
        record.len() >= 24 && u32_at(record, 0) == 2 ==> record_losses(record) == u64_at(
            record,
            16,
        ),
        4 <= record.len() < 24 && u32_at(record, 0) == 2 ==> record_losses(record) == 1,
        record.len() < 4 || u32_at(record, 0) != 2 ==> record_losses(record) == 0,
{
}

/// Losses add up, but for a carry out of 64 bits.
pub proof fn law_losses_add_up(lost: u64, more: nat)
    ensures
        (lost + more - counted(lost, more)) % 0x1_0000_0000_0000_0000 == 0,
        lost + more <= 0xffff_ffff_ffff_ffff ==> counted(lost, more) == lost + more,
{
    let m = 0x1_0000_0000_0000_0000int;
    lemma_fundamental_div_mod(lost + more, m);
    let q = (lost + more) / m;
    assert(lost + more - counted(lost, more) == m * q + 0);
    lemma_mod_multiples_vanish(q, 0, m);
    if lost + more < m {
        lemma_small_mod((lost + more) as nat, m as nat);
    }
}

/// The unread distance takes the tail to the head, modulo 64 bits.
pub proof fn law_the_distance_takes_tail_to_head(head: u64, tail: u64)
    ensures
        0 <= available(head, tail) <= 0xffff_ffff_ffff_ffff,
        tail + available(head, tail) == head || tail + available(head, tail) == head
            + 0x1_0000_0000_0000_0000,
{
}

/// Once the kernel has lapped the consumer, nothing is found, and that is one
/// loss.
pub proof fn law_a_lapped_ring_is_one_loss(data: Seq<u8>, head: u64, tail: u64)
    requires
        available(head, tail) > data.len(),
    ensures
        drained(data, head, tail).events.len() == 0,
        drained(data, head, tail).lost == 1,
{
}

/// Whether `bytes` cannot start with a record: too few for a header, or with a
/// size in it that is smaller than a header or larger than what is there.
pub open spec fn is_junk(bytes: Seq<u8>) -> bool {
    bytes.len() > 0 && (bytes.len() < 8 || u16_at(bytes, 6) < 8 || u16_at(bytes, 6) > bytes.len())
}

/// Records that are followed by bytes that cannot start with a record are all
/// found, and what follows is given up as one loss. With that of the records
/// alone, this says what is found in every ring that has not been lapped.
pub proof fn law_junk_behind_records_is_one_loss(
    data: Seq<u8>,
    tail: u64,
    records: Seq<Seq<u8>>,
    junk: Seq<u8>,
)
    requires
        is_pow2(data.len() as int),
        data.len() <= u64::MAX,
        forall|i: int| 0 <= i < records.len() ==> is_framed(#[trigger] records[i]),
        is_junk(junk),
        stream(records).len() + junk.len() <= data.len(),
        ring_bytes(data, tail as int, stream(records).len() + junk.len()) == stream(records) + junk,
    ensures
        ({
            let found = drained(
                data,
                advanced(tail, (stream(records).len() + junk.len()) as int),
                tail,
            );
            &&& found.events == reported(records).events
            &&& found.lost == reported(records).lost + 1
        }),
    decreases records.len(),
{
    let total = stream(records).len() + junk.len();
    let whole = stream(records) + junk;
    let head = advanced(tail, total as int);
    lemma_small_distance(tail, total as int);
    let header = ring_bytes(data, tail as int, header_len() as nat);
    if total >= header_len() {
        assert(header =~= whole.take(header_len()));
        assert(header.subrange(6, 8) =~= whole.subrange(6, 8));
    }
    if records.len() == 0 {
        assert(whole =~= junk);
        assert(is_corrupt(data, head, tail));
        assert(head != tail);
    } else {
        let first = records[0];
        let rest = records.skip(1);
        let size = first.len();
        let next = advanced(tail, size as int);
        assert(is_framed(first));
        assert(whole.take(size as int) =~= first);
        assert(ring_bytes(data, tail as int, size) =~= whole.take(size as int));
        assert(whole.subrange(6, 8) =~= first.subrange(6, 8));
        assert(record_size(data, tail) == size);
        lemma_ring_goes_on(data, tail, size, stream(rest).len() + junk.len());
        assert(whole.skip(size as int) =~= stream(rest) + junk);
        assert forall|i: int| 0 <= i < rest.len() implies is_framed(#[trigger] rest[i]) by {
            assert(rest[i] == records[i + 1]);
        }
        law_junk_behind_records_is_one_loss(data, next, rest, junk);
        lemma_advanced_twice(tail, size as int, (stream(rest).len() + junk.len()) as int);
        lemma_small_distance(next, (stream(rest).len() + junk.len()) as int);
        assert(!is_corrupt(data, head, tail));
    }
}

/// A position advances by what was read, modulo 64 bits, and stands in the ring
/// at its remainder by the size of the ring.
pub proof fn law_positions_count_on(n: int, tail: u64, size: int, i: int)
    requires
        0 <= size <= 0xffff_ffff_ffff_ffff,
    ensures
        advanced(tail, size) == tail + size || advanced(tail, size) == tail + size
            - 0x1_0000_0000_0000_0000,
        slot(n, tail, i) == (tail + i) % n,
{
    lemma_small_distance(tail, size);
}

} // verus!
