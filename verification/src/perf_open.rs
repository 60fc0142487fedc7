//! How the perf rings that report executable mappings are opened.

use crate::cpus::{
    cpus_of_list, law_a_cpu_list_names_a_cpu, online_cpus, CpuListError, CpuListErrorView,
};
use crate::perf_mappings::SAMPLE_ID_SIZE;
use crate::text::trimmed;
use vstd::prelude::*;

verus! {

/// The constant `perf_event_open_sys::bindings::PERF_TYPE_SOFTWARE`.
#[verifier::external_body]
fn perf_type_software() -> (r: u32)
    ensures
        r == 1,
{
    perf_event_open_sys::bindings::PERF_TYPE_SOFTWARE
}

/// The constant `perf_event_open_sys::bindings::PERF_COUNT_SW_DUMMY`.
#[verifier::external_body]
fn perf_count_sw_dummy() -> (r: u32)
    ensures
        r == 9,
{
    perf_event_open_sys::bindings::PERF_COUNT_SW_DUMMY
}

/// The sample-format bit of process and thread ids.
pub open spec fn sample_tid() -> u32 {
    2
}

/// The sample-format bit of timestamps.
pub open spec fn sample_time() -> u32 {
    4
}

/// The constant `perf_event_open_sys::bindings::PERF_SAMPLE_TID`.
#[verifier::external_body]
fn perf_sample_tid() -> (r: u32)
    ensures
        r == sample_tid(),
{
    perf_event_open_sys::bindings::PERF_SAMPLE_TID
}

/// The constant `perf_event_open_sys::bindings::PERF_SAMPLE_TIME`.
#[verifier::external_body]
fn perf_sample_time() -> (r: u32)
    ensures
        r == sample_time(),
{
    perf_event_open_sys::bindings::PERF_SAMPLE_TIME
}

/// The constant `libc::CLOCK_MONOTONIC`, as on Linux.
#[verifier::external_body]
fn clock_monotonic() -> (r: i32)
    ensures
        r == 1,
{
    libc::CLOCK_MONOTONIC
}

/// What a ring asks of the kernel: the fields of a `perf_event_attr` that are
/// not zero, and `read_format`.
#[derive(Debug, Clone, Copy, PartialEq, Eq)]
pub struct RingAttr {
    pub type_: u32,
    pub config: u64,
    pub sample_type: u64,
    pub read_format: u64,
    pub wakeup_events: u32,
    pub clockid: i32,
    pub disabled: bool,
    pub inherit: bool,
    pub mmap: bool,
    pub sample_id_all: bool,
    pub mmap2: bool,
    pub use_clockid: bool,
}

/// What a ring asks of the kernel: a software event that never fires, whose
/// side band reports mappings of the process and its children with process,
/// thread and monotonic time, and which starts disabled.
pub open spec fn mapping_attr() -> RingAttr {
    RingAttr {
        type_: 1,
        config: 9,
        sample_type: 6,
        read_format: 0,
        wakeup_events: 1,
        clockid: 1,
        disabled: true,
        inherit: true,
        mmap: true,
        sample_id_all: true,
        mmap2: true,
        use_clockid: true,
    }
}

/// What a ring asks of the kernel.
pub fn ring_attr() -> (r: RingAttr)
    ensures
        r == mapping_attr(),
        r.type_ == 1,
        r.config == 9,
        r.sample_type == 6,
        r.read_format == 0,
        r.wakeup_events == 1,
        r.clockid == 1,
        r.disabled && r.inherit && r.mmap && r.sample_id_all && r.mmap2 && r.use_clockid,
{
    assert(2u32 | 4u32 == 6u32) by (bit_vector);
    RingAttr {
        type_: perf_type_software(),
        config: perf_count_sw_dummy() as u64,
        sample_type: (perf_sample_tid() | perf_sample_time()) as u64,
        // PERF_FORMAT_LOST cannot account for inherited child events from this
        // parent fd, so PERF_RECORD_LOST remains the complete loss signal.
        read_format: 0,
        wakeup_events: 1,
        clockid: clock_monotonic(),
        disabled: true,
        inherit: true,
        mmap: true,
        sample_id_all: true,
        mmap2: true,
        use_clockid: true,
    }
}

/// How many bytes of sample id stand at the end of a record under `attr`: eight
/// for the ids and eight for the time, where they are asked for.
pub open spec fn sample_id_len(attr: RingAttr) -> int {
    if attr.sample_id_all {
        (if attr.sample_type & sample_tid() as u64 != 0 {
            8int
        } else {
            0
        }) + (if attr.sample_type & sample_time() as u64 != 0 {
            8int
        } else {
            0
        })
    } else {
        0
    }
}

/// The trailer that the rings ask for is the trailer that the parser of mmap2
/// records leaves out of the path.
pub proof fn law_trailer_fits_the_parser()
    ensures
        sample_id_len(mapping_attr()) == SAMPLE_ID_SIZE,
{
    assert(6u64 & 2u64 != 0) by (bit_vector);
    assert(6u64 & 4u64 != 0) by (bit_vector);
}

/// The steps in which one ring is opened.
#[derive(Debug, Clone, Copy, PartialEq, Eq)]
pub enum OpenStep {
    /// Open the perf event.
    OpenEvent,
    /// Map its ring.
    MapRing,
    /// Check where the kernel put the data.
    CheckRing,
    Ready,
    /// Unmap the ring of a failed opening.
    UnmapRing,
    /// Close the event of a failed opening.
    CloseEvent,
    Failed,
}

/// What follows `step`, which succeeded or not.
pub open spec fn open_next(step: OpenStep, ok: bool) -> OpenStep {
    match step {
        OpenStep::OpenEvent => if ok {
            OpenStep::MapRing
        } else {
            OpenStep::Failed
        },
        OpenStep::MapRing => if ok {
            OpenStep::CheckRing
        } else {
            OpenStep::CloseEvent
        },
        OpenStep::CheckRing => if ok {
            OpenStep::Ready
        } else {
            OpenStep::UnmapRing
        },
        OpenStep::UnmapRing => OpenStep::CloseEvent,
        OpenStep::CloseEvent => OpenStep::Failed,
        OpenStep::Ready => OpenStep::Ready,
        OpenStep::Failed => OpenStep::Failed,
    }
}

impl OpenStep {
    /// The step that follows this one, which succeeded or not.
    pub fn next(self, ok: bool) -> (r: OpenStep)
        ensures
            r == open_next(self, ok),
    {
        match self {
            OpenStep::OpenEvent => if ok {
                OpenStep::MapRing
            } else {
                OpenStep::Failed
            },
            OpenStep::MapRing => if ok {
                OpenStep::CheckRing
            } else {
                OpenStep::CloseEvent
            },
            OpenStep::CheckRing => if ok {
                OpenStep::Ready
            } else {
                OpenStep::UnmapRing
            },
            OpenStep::UnmapRing => OpenStep::CloseEvent,
            OpenStep::CloseEvent => OpenStep::Failed,
            OpenStep::Ready => OpenStep::Ready,
            OpenStep::Failed => OpenStep::Failed,
        }
    }
}

/// What an opening holds.
pub struct Held {
    pub event: bool,
    pub mapping: bool,
}

/// What is held after `step`, which succeeded or not.
pub open spec fn held_after(held: Held, step: OpenStep, ok: bool) -> Held {
    match step {
        OpenStep::OpenEvent => Held { event: ok, ..held },
        OpenStep::MapRing => Held { mapping: ok, ..held },
        OpenStep::UnmapRing => Held { mapping: false, ..held },
        OpenStep::CloseEvent => Held { event: false, ..held },
        _ => held,
    }
}

/// An opening: the step that comes next, and what is held.
pub struct Opening {
    pub step: OpenStep,
    pub held: Held,
}

/// The opening whose steps so far went as `oks` says.
pub open spec fn opening(oks: Seq<bool>) -> Opening
    decreases oks.len(),
{
    if oks.len() == 0 {
        Opening { step: OpenStep::OpenEvent, held: Held { event: false, mapping: false } }
    } else {
        let before = opening(oks.drop_last());
        Opening {
            step: open_next(before.step, oks.last()),
            held: held_after(before.held, before.step, oks.last()),
        }
    }
}

/// An opening that fails, at whichever step, holds neither the event nor the
/// mapping any more. A ring that is ready holds both. The mapping is never held
/// without the event.
pub proof fn law_a_failed_opening_leaks_nothing(oks: Seq<bool>)
    ensures
        ({
            let o = opening(oks);
            &&& o.step is Failed ==> !o.held.event && !o.held.mapping
            &&& o.step is Ready ==> o.held.event && o.held.mapping
            &&& o.held.mapping ==> o.held.event
            &&& o.held.event == !(o.step is OpenEvent || o.step is Failed)
            &&& o.held.mapping == (o.step is CheckRing || o.step is UnmapRing || o.step is Ready)
        }),
    decreases oks.len(),
{
    if oks.len() > 0 {
        law_a_failed_opening_leaks_nothing(oks.drop_last());
    }
}

/// Why the rings cannot be opened at all.
#[derive(Debug, Clone, PartialEq, Eq)]
pub enum StartError {
    /// Failed to read the system page size.
    PageSize,
    /// Failed to read the online CPUs.
    OnlineCpus,
    /// The list of online CPUs cannot be understood.
    CpuList(CpuListError),
    /// No online CPUs were reported by the kernel.
    NoCpus,
}

/// What a [`StartError`] says.
#[verifier::ext_equal]
pub enum StartErrorView {
    PageSize,
    OnlineCpus,
    CpuList(CpuListErrorView),
    NoCpus,
}

impl View for StartError {
    type V = StartErrorView;

    open spec fn view(&self) -> StartErrorView {
        match *self {
            StartError::PageSize => StartErrorView::PageSize,
            StartError::OnlineCpus => StartErrorView::OnlineCpus,
            StartError::CpuList(e) => StartErrorView::CpuList(e@),
            StartError::NoCpus => StartErrorView::NoCpus,
        }
    }
}

/// The rings to open: one on each CPU, in pages of `page_size` bytes.
#[derive(Debug, Clone, PartialEq, Eq)]
pub struct RingPlan {
    pub page_size: usize,
    pub cpus: Vec<u32>,
}

/// The CPUs to open rings on, given the page size that the system reports and
/// the list of online CPUs, where that could be read.
pub open spec fn ring_cpus(page_size: isize, online: Option<&str>) -> Result<
    Seq<u32>,
    StartErrorView,
> {
    if page_size <= 0 {
        Err(StartErrorView::PageSize)
    } else {
        match online {
            None => Err(StartErrorView::OnlineCpus),
            Some(list) => match cpus_of_list(trimmed(list@)) {
                Err(e) => Err(StartErrorView::CpuList(e)),
                Ok(cpus) => if cpus.len() == 0 {
                    Err(StartErrorView::NoCpus)
                } else {
                    Ok(cpus)
                },
            },
        }
    }
}

/// The rings to open, given the page size that the system reports and the list
/// of online CPUs, where that could be read.
pub fn ring_plan(page_size: isize, online: Option<&str>) -> (r: Result<RingPlan, StartError>)
    ensures
        match r {
            Ok(plan) => ring_cpus(page_size, online) == Ok::<Seq<u32>, StartErrorView>(plan.cpus@)
                && plan.page_size == page_size,
            Err(e) => ring_cpus(page_size, online) == Err::<Seq<u32>, StartErrorView>(e@),
        },
{
    if page_size <= 0 {
        return Err(StartError::PageSize);
    }
    match online {
        None => Err(StartError::OnlineCpus),
        Some(list) => match online_cpus(list) {
            Err(e) => Err(StartError::CpuList(e)),
            Ok(cpus) => if cpus.len() == 0 {
                Err(StartError::NoCpus)
            } else {
                Ok(RingPlan { page_size: page_size as usize, cpus })
            },
        },
    }
}

/// The steps in which the rings of a plan are brought up: all are opened before
/// the first is enabled.
#[derive(Debug, Clone, Copy, PartialEq, Eq)]
pub enum StartStep {
    /// Open the ring on the CPU at this place of the plan.
    Open(usize),
    /// Enable the ring at this place.
    Enable(usize),
    Running,
    Failed,
}

/// What follows `step` for a plan of `rings` rings, which succeeded or not.
pub open spec fn start_next(step: StartStep, rings: int, ok: bool) -> StartStep {
    match step {
        StartStep::Open(i) => if !ok {
            StartStep::Failed
        } else if i + 1 < rings {
            StartStep::Open((i + 1) as usize)
        } else {
            StartStep::Enable(0)
        },
        StartStep::Enable(i) => if !ok {
            StartStep::Failed
        } else if i + 1 < rings {
            StartStep::Enable((i + 1) as usize)
        } else {
            StartStep::Running
        },
        StartStep::Running => StartStep::Running,
        StartStep::Failed => StartStep::Failed,
    }
}

impl StartStep {
    /// The step that follows this one, which succeeded or not, for a plan of
    /// `rings` rings.
    pub fn next(self, rings: usize, ok: bool) -> (r: StartStep)
        ensures
            r == start_next(self, rings as int, ok),
    {
        match self {
            StartStep::Open(i) => if !ok {
                StartStep::Failed
            } else if i < rings && i < rings - 1 {
                StartStep::Open(i + 1)
            } else {
                StartStep::Enable(0)
            },
            StartStep::Enable(i) => if !ok {
                StartStep::Failed
            } else if i < rings && i < rings - 1 {
                StartStep::Enable(i + 1)
            } else {
                StartStep::Running
            },
            StartStep::Running => StartStep::Running,
            StartStep::Failed => StartStep::Failed,
        }
    }
}

/// Where a start stands whose steps so far went as `oks` says.
pub open spec fn starting(rings: usize, oks: Seq<bool>) -> StartStep
    decreases oks.len(),
{
    if oks.len() == 0 {
        StartStep::Open(0)
    } else {
        start_next(starting(rings, oks.drop_last()), rings as int, oks.last())
    }
}

/// A start opens every ring, in the order of the CPUs, then enables every ring
/// in the same order, and then runs, if and only if all of that succeeds. The
/// first failure ends it.
pub proof fn law_one_bad_ring_fails_the_start(rings: usize, oks: Seq<bool>)
    requires
        rings > 0,
    ensures
        ({
            let needed = if oks.len() < 2 * rings {
                oks
            } else {
                oks.take(2 * rings)
            };
            starting(rings, oks) == if needed.contains(false) {
                StartStep::Failed
            } else if oks.len() < rings {
                StartStep::Open(oks.len() as usize)
            } else if oks.len() < 2 * rings {
                StartStep::Enable((oks.len() - rings) as usize)
            } else {
                StartStep::Running
            }
        }),
    decreases oks.len(),
{
    if oks.len() > 0 {
        let front = oks.drop_last();
        law_one_bad_ring_fails_the_start(rings, front);
        let n = if oks.len() < 2 * rings {
            oks.len() as int
        } else {
            2 * rings
        };
        let needed = oks.take(n);
        assert(oks.len() < 2 * rings ==> needed =~= oks);
        if front.len() < 2 * rings {
            assert(needed =~= front.push(oks.last()));
            if front.contains(false) {
                let i = choose|i: int| 0 <= i < front.len() && front[i] == false;
                assert(needed[i] == false);
            } else if needed.contains(false) {
                let i = choose|i: int| 0 <= i < needed.len() && needed[i] == false;
                assert(i < front.len() ==> front[i] == false);
            }
            if !oks.last() {
                assert(needed[needed.len() - 1] == false);
            }
        } else {
            assert(needed =~= front.take(2 * rings));
        }
    }
}

/// Rings are planned for exactly the CPUs of the list, in its order; they are
/// not where the page size is not positive, the list cannot be read or
/// understood, or names none.
pub proof fn law_rings_are_planned_for_the_listed_cpus(page_size: isize, online: Option<&str>)
    ensures
        page_size <= 0 ==> ring_cpus(page_size, online) == Err::<Seq<u32>, StartErrorView>(
            StartErrorView::PageSize,
        ),
        page_size > 0 && online is None ==> ring_cpus(page_size, online) == Err::<
            Seq<u32>,
            StartErrorView,
        >(StartErrorView::OnlineCpus),
        page_size > 0 && online is Some ==> match cpus_of_list(trimmed(online->0@)) {
            Ok(cpus) => cpus.len() > 0 && ring_cpus(page_size, online) == Ok::<
                Seq<u32>,
                StartErrorView,
            >(cpus),
            Err(e) => ring_cpus(page_size, online) == Err::<Seq<u32>, StartErrorView>(
                StartErrorView::CpuList(e),
            ),
        },
{
    if let Some(list) = online {
        law_a_cpu_list_names_a_cpu(trimmed(list@));
    }
}

/// An opening is ready if and only if its first three steps succeed; where one
/// fails, it comes to an end within the steps that release what is held.
pub proof fn law_an_opening_is_ready_if_every_step_succeeds(oks: Seq<bool>)
    ensures
        opening(oks).step is Ready <==> oks.len() >= 3 && oks[0] && oks[1] && oks[2],
        oks.len() >= 1 && !oks[0] ==> opening(oks).step is Failed,
        oks.len() == 2 && oks[0] && !oks[1] ==> opening(oks).step is CloseEvent,
        oks.len() >= 3 && oks[0] && !oks[1] ==> opening(oks).step is Failed,
        oks.len() == 3 && oks[0] && oks[1] && !oks[2] ==> opening(oks).step is UnmapRing,
        oks.len() == 4 && oks[0] && oks[1] && !oks[2] ==> opening(oks).step is CloseEvent,
        oks.len() >= 5 && oks[0] && oks[1] && !oks[2] ==> opening(oks).step is Failed,
        oks.len() == 0 ==> opening(oks).step is OpenEvent,
        oks.len() == 1 && oks[0] ==> opening(oks).step is MapRing,
        oks.len() == 2 && oks[0] && oks[1] ==> opening(oks).step is CheckRing,
    decreases oks.len(),
{
    if oks.len() > 0 {
        let front = oks.drop_last();
        assert(forall|i: int| 0 <= i < front.len() ==> front[i] == #[trigger] oks[i]);
        law_an_opening_is_ready_if_every_step_succeeds(front);
    }
}

/// An error shows which it is, and what is wrong with the list.
pub proof fn law_a_start_error_shows_what_it_says(e: StartError)
    ensures
        e is PageSize ==> e@ is PageSize,
        e is OnlineCpus ==> e@ is OnlineCpus,
        e is NoCpus ==> e@ is NoCpus,
        e matches StartError::CpuList(list) ==> e@ == StartErrorView::CpuList(list@),
{
}

} // verus!
