//! The kernel's notation for sets of CPUs, such as `0-2,5`.

use crate::text::{
    chars_of, decimal, is_white_space, law_trimming_takes_off_white_space_only, law_u32_reads_back,
    lemma_already_trimmed, lemma_decimal_is_plain, lemma_no_split_once, lemma_split_is_nonempty,
    lemma_split_join, lemma_split_once_at, lemma_split_whole, parse_u32, split, split_at_first,
    split_once, split_parts, string_of, trim, trimmed, u32_from_text, views,
};
use vstd::prelude::*;

verus! {

/// Why a CPU list cannot be read.
#[derive(Debug, Clone, PartialEq, Eq)]
pub enum CpuListError {
    /// Nothing stands between two commas, or at one end of the list.
    EmptyRange,
    /// The bound of a range is no CPU number.
    InvalidNumber,
    /// The range, as written, ends before it starts.
    InvalidRange(String),
}

/// What a [`CpuListError`] says.
#[verifier::ext_equal]
pub enum CpuListErrorView {
    EmptyRange,
    InvalidNumber,
    InvalidRange(Seq<char>),
}

impl View for CpuListError {
    type V = CpuListErrorView;

    open spec fn view(&self) -> CpuListErrorView {
        match *self {
            CpuListError::EmptyRange => CpuListErrorView::EmptyRange,
            CpuListError::InvalidNumber => CpuListErrorView::InvalidNumber,
            CpuListError::InvalidRange(range) => CpuListErrorView::InvalidRange(range@),
        }
    }
}

/// The CPUs from `first` to `last`.
pub open spec fn cpu_range(first: u32, last: u32) -> Seq<u32> {
    Seq::new((last - first + 1) as nat, |i: int| (first + i) as u32)
}

/// The CPUs that one part of a list stands for: a number, or two numbers with a
/// `-` in between.
pub open spec fn cpus_of_part(part: Seq<char>) -> Result<Seq<u32>, CpuListErrorView> {
    let part = trimmed(part);
    if part.len() == 0 {
        Err(CpuListErrorView::EmptyRange)
    } else {
        let (first, last) = match split_once(part, '-') {
            Some((first, last)) => (u32_from_text(first), u32_from_text(last)),
            None => (u32_from_text(part), u32_from_text(part)),
        };
        if first is None || last is None {
            Err(CpuListErrorView::InvalidNumber)
        } else if first->0 > last->0 {
            Err(CpuListErrorView::InvalidRange(part))
        } else {
            Ok(cpu_range(first->0, last->0))
        }
    }
}

/// The CPUs that the parts of a list stand for, one part after the other; the
/// first part that cannot be read decides the error.
pub open spec fn cpus_of_parts(parts: Seq<Seq<char>>) -> Result<Seq<u32>, CpuListErrorView>
    decreases parts.len(),
{
    if parts.len() == 0 {
        Ok(Seq::empty())
    } else {
        match cpus_of_parts(parts.drop_last()) {
            Ok(front) => match cpus_of_part(parts.last()) {
                Ok(cpus) => Ok(front + cpus),
                Err(e) => Err(e),
            },
            Err(e) => Err(e),
        }
    }
}

/// The CPUs that a list stands for.
pub open spec fn cpus_of_list(spec: Seq<char>) -> Result<Seq<u32>, CpuListErrorView> {
    cpus_of_parts(split(spec, seq![',']))
}

/// One part that cannot be read spoils the list.
proof fn lemma_error_stays(parts: Seq<Seq<char>>, i: int)
    requires
        0 <= i <= parts.len(),
        cpus_of_parts(parts.take(i)) is Err,
    ensures
        cpus_of_parts(parts) == cpus_of_parts(parts.take(i)),
    decreases parts.len() - i,
{
    if i < parts.len() {
        assert(parts.take(i + 1).drop_last() =~= parts.take(i));
        lemma_error_stays(parts, i + 1);
    } else {
        assert(parts.take(i) =~= parts);
    }
}

/// Appends the CPUs of one part of a list.
fn push_part(cpus: &mut Vec<u32>, part: &[char]) -> (r: Result<(), CpuListError>)
    ensures
        match r {
            Ok(()) => cpus_of_part(part@) is Ok && final(cpus)@ == old(cpus)@ + cpus_of_part(
                part@,
            )->Ok_0,
            Err(e) => cpus_of_part(part@) == Err::<Seq<u32>, CpuListErrorView>(e@),
        },
{
    let part = trim(part);
    if part.len() == 0 {
        return Err(CpuListError::EmptyRange);
    }
    let (first, last) = match split_at_first(part, '-') {
        Some((first, last)) => (parse_u32(first), parse_u32(last)),
        None => (parse_u32(part), parse_u32(part)),
    };
    match (first, last) {
        (Some(first), Some(last)) => {
            if first > last {
                return Err(CpuListError::InvalidRange(string_of(part)));
            }
            let ghost before = cpus@;
            let mut cpu: u32 = first;
            while cpu < last
                invariant
                    first <= cpu <= last,
                    cpus@ == before + cpu_range(first, last).take(cpu - first),
                decreases last - cpu,
            {
                cpus.push(cpu);
                assert(cpus@ =~= before + cpu_range(first, last).take(cpu - first + 1));
                cpu = cpu + 1;
            }
            cpus.push(last);
            assert(cpus@ =~= before + cpu_range(first, last));
            Ok(())
        },
        _ => Err(CpuListError::InvalidNumber),
    }
}

/// Reads a CPU list.
pub fn parse_cpu_list(spec: &str) -> (r: Result<Vec<u32>, CpuListError>)
    ensures
        match r {
            Ok(cpus) => cpus_of_list(spec@) == Ok::<Seq<u32>, CpuListErrorView>(cpus@),
            Err(e) => cpus_of_list(spec@) == Err::<Seq<u32>, CpuListErrorView>(e@),
        },
{
    let chars = chars_of(spec);
    let separators: [char; 1] = [','];
    let parts = split_parts(chars.as_slice(), &separators);
    let ghost all = split(spec@, seq![',']);
    assert(separators@ =~= seq![',']);
    let mut cpus: Vec<u32> = Vec::new();
    assert(cpus@ =~= Seq::empty());
    for i in 0..parts.len()
        invariant
            views(parts@) == all,
            all == split(spec@, seq![',']),
            cpus_of_parts(all.take(i as int)) == Ok::<Seq<u32>, CpuListErrorView>(cpus@),
    {
        proof {
            assert(all.take(i + 1).drop_last() =~= all.take(i as int));
            assert(all.take(i + 1).last() == parts@[i as int]@);
        }
        match push_part(&mut cpus, parts[i]) {
            Ok(()) => {},
            Err(e) => {
                proof {
                    lemma_error_stays(all, i + 1);
                }
                return Err(e);
            },
        }
    }
    assert(all.take(all.len() as int) =~= all);
    Ok(cpus)
}

/// The CPUs that the kernel reports as online; `content` is what
/// `/sys/devices/system/cpu/online` holds.
pub fn online_cpus(content: &str) -> (r: Result<Vec<u32>, CpuListError>)
    ensures
        match r {
            Ok(cpus) => cpus_of_list(trimmed(content@)) == Ok::<Seq<u32>, CpuListErrorView>(cpus@),
            Err(e) => cpus_of_list(trimmed(content@)) == Err::<Seq<u32>, CpuListErrorView>(e@),
        },
{
    let chars = chars_of(content);
    let spec = string_of(trim(chars.as_slice()));
    parse_cpu_list(spec.as_str())
}

proof fn lemma_parts_name_cpus(parts: Seq<Seq<char>>)
    requires
        parts.len() > 0,
    ensures
        cpus_of_parts(parts) matches Ok(cpus) ==> cpus.len() > 0,
{
}

/// A list of CPUs that can be read names at least one.
pub proof fn law_a_cpu_list_names_a_cpu(spec: Seq<char>)
    ensures
        cpus_of_list(spec) matches Ok(cpus) ==> cpus.len() > 0,
{
    lemma_split_is_nonempty(spec, seq![',']);
    lemma_parts_name_cpus(split(spec, seq![',']));
}

proof fn lemma_parts_join(a: Seq<Seq<char>>, b: Seq<Seq<char>>)
    ensures
        cpus_of_parts(a + b) == match (cpus_of_parts(a), cpus_of_parts(b)) {
            (Ok(first), Ok(second)) => Ok(first + second),
            (Ok(_), Err(e)) => Err(e),
            (Err(e), _) => Err(e),
        },
    decreases b.len(),
{
    if b.len() == 0 {
        assert(a + b =~= a);
        if let Ok(first) = cpus_of_parts(a) {
            assert(first + Seq::<u32>::empty() =~= first);
        }
    } else {
        let front = b.drop_last();
        lemma_parts_join(a, front);
        assert((a + b).drop_last() =~= a + front);
        assert((a + b).last() == b.last());
        if let (Ok(first), Ok(second)) = (cpus_of_parts(a), cpus_of_parts(front)) {
            if let Ok(third) = cpus_of_part(b.last()) {
                assert((first + second) + third =~= first + (second + third));
            }
        }
    }
}

/// Two lists with a comma between them stand for the CPUs of the first and then
/// those of the second, or for the first error.
pub proof fn law_cpu_lists_join(a: Seq<char>, b: Seq<char>)
    ensures
        cpus_of_list(a.push(',') + b) == match (cpus_of_list(a), cpus_of_list(b)) {
            (Ok(first), Ok(second)) => Ok(first + second),
            (Ok(_), Err(e)) => Err(e),
            (Err(e), _) => Err(e),
        },
{
    assert(seq![','][0] == ',');
    lemma_split_join(a, ',', b, seq![',']);
    lemma_parts_join(split(a, seq![',']), split(b, seq![',']));
}

proof fn lemma_single_part(s: Seq<char>)
    requires
        !s.contains(','),
    ensures
        cpus_of_list(s) == cpus_of_part(s),
{
    assert forall|i: int| 0 <= i < s.len() implies !seq![','].contains(#[trigger] s[i]) by {
        assert(s.contains(s[i]));
    }
    lemma_split_whole(s, seq![',']);
    let parts = seq![s];
    assert(parts.drop_last() =~= Seq::empty());
    assert(cpus_of_parts(parts.drop_last()) == Ok::<Seq<u32>, CpuListErrorView>(Seq::empty()));
    assert(parts.last() == s);
    if let Ok(cpus) = cpus_of_part(s) {
        assert(Seq::<u32>::empty() + cpus =~= cpus);
    }
}

/// The number of a CPU stands for that CPU.
pub proof fn law_a_number_is_one_cpu(cpu: u32)
    ensures
        cpus_of_list(decimal(cpu as nat)) == Ok::<Seq<u32>, CpuListErrorView>(seq![cpu]),
{
    let s = decimal(cpu as nat);
    lemma_decimal_is_plain(cpu as nat, ',');
    lemma_decimal_is_plain(cpu as nat, '-');
    lemma_single_part(s);
    lemma_already_trimmed(s);
    lemma_no_split_once(s, '-');
    law_u32_reads_back(cpu);
    assert(cpu_range(cpu, cpu) =~= seq![cpu]);
}

/// Two numbers with a `-` between them stand for the CPUs from the first to the
/// second; where the second is the smaller, they are an error.
pub proof fn law_a_range_is_its_cpus(first: u32, last: u32)
    ensures
        ({
            let range = decimal(first as nat).push('-') + decimal(last as nat);
            if first <= last {
                &&& cpus_of_list(range) matches Ok(cpus)
                &&& cpus == cpu_range(first, last)
                &&& cpus.len() == last - first + 1
                &&& forall|i: int| 0 <= i < cpus.len() ==> #[trigger] cpus[i] == first + i
                &&& forall|cpu: u32| cpus.contains(cpu) <==> first <= cpu <= last
            } else {
                cpus_of_list(range) == Err::<Seq<u32>, CpuListErrorView>(
                    CpuListErrorView::InvalidRange(range),
                )
            }
        }),
{
    let a = decimal(first as nat);
    let b = decimal(last as nat);
    let s = a.push('-') + b;
    lemma_decimal_is_plain(first as nat, ',');
    lemma_decimal_is_plain(last as nat, ',');
    lemma_decimal_is_plain(first as nat, '-');
    assert forall|i: int| 0 <= i < s.len() implies s[i] != ',' by {
        if i < a.len() {
            assert(s[i] == a[i]);
        } else if i > a.len() {
            assert(s[i] == b[i - a.len() - 1]);
        }
    }
    lemma_single_part(s);
    assert(s[0] == a[0] && s.last() == b.last());
    lemma_already_trimmed(s);
    lemma_split_once_at(a, '-', b);
    law_u32_reads_back(first);
    law_u32_reads_back(last);
    if first <= last {
        let cpus = cpu_range(first, last);
        assert forall|cpu: u32| cpus.contains(cpu) <==> first <= cpu <= last by {
            if first <= cpu <= last {
                assert(cpus[cpu - first] == cpu);
            }
        }
    }
}

/// What an item of a list with a `-` in it is read as: the numbers before and
/// behind the first `-` bound the CPUs, which come one by one, all of them, from
/// the first to the last; where one is no number, or the second is the smaller,
/// the item is an error.
pub proof fn law_a_range_counts_up(first: Seq<char>, last: Seq<char>)
    requires
        !first.contains('-'),
        !first.contains(','),
        !last.contains(','),
        first.len() > 0 ==> !is_white_space(first[0]),
        last.len() > 0 ==> !is_white_space(last[last.len() - 1]),
    ensures
        ({
            let item = first.push('-') + last;
            match (u32_from_text(first), u32_from_text(last)) {
                (Some(a), Some(b)) => if a <= b {
                    &&& cpus_of_list(item) matches Ok(cpus)
                    &&& cpus.len() == b - a + 1
                    &&& forall|i: int| 0 <= i < cpus.len() ==> #[trigger] cpus[i] == a + i
                } else {
                    cpus_of_list(item) == Err::<Seq<u32>, CpuListErrorView>(
                        CpuListErrorView::InvalidRange(item),
                    )
                },
                _ => cpus_of_list(item) == Err::<Seq<u32>, CpuListErrorView>(
                    CpuListErrorView::InvalidNumber,
                ),
            }
        }),
{
    let item = first.push('-') + last;
    assert forall|i: int| 0 <= i < item.len() implies item[i] != ',' by {
        if i < first.len() {
            assert(item[i] == first[i]);
        } else if i > first.len() {
            assert(item[i] == last[i - first.len() - 1]);
        }
    }
    lemma_single_part(item);
    assert(item[0] == if first.len() > 0 {
        first[0]
    } else {
        '-'
    });
    assert(item.last() == if last.len() > 0 {
        last[last.len() - 1]
    } else {
        '-'
    });
    lemma_already_trimmed(item);
    lemma_split_once_at(first, '-', last);
}

/// What an item of a list without a `-` is read as: the one CPU of that number,
/// or an error; nothing at all is an error of its own.
pub proof fn law_an_item_without_a_dash_is_one_cpu(item: Seq<char>)
    requires
        !item.contains('-'),
        !item.contains(','),
        item.len() > 0 ==> !is_white_space(item[0]) && !is_white_space(item[item.len() - 1]),
    ensures
        item.len() == 0 ==> cpus_of_list(item) == Err::<Seq<u32>, CpuListErrorView>(
            CpuListErrorView::EmptyRange,
        ),
        item.len() > 0 ==> cpus_of_list(item) == match u32_from_text(item) {
            Some(cpu) => Ok(seq![cpu]),
            None => Err(CpuListErrorView::InvalidNumber),
        },
{
    lemma_single_part(item);
    lemma_already_trimmed(item);
    lemma_no_split_once(item, '-');
    if let Some(cpu) = u32_from_text(item) {
        assert(cpu_range(cpu, cpu) =~= seq![cpu]);
    }
}

/// White space around an item of a list has no bearing on what it is read as.
pub proof fn law_space_around_an_item_is_ignored(
    before: Seq<char>,
    item: Seq<char>,
    after: Seq<char>,
)
    requires
        forall|i: int| 0 <= i < before.len() ==> is_white_space(#[trigger] before[i]),
        forall|i: int| 0 <= i < after.len() ==> is_white_space(#[trigger] after[i]),
        !item.contains(','),
        item.len() > 0 ==> !is_white_space(item[0]) && !is_white_space(item[item.len() - 1]),
    ensures
        cpus_of_list(before + item + after) == cpus_of_list(item),
{
    let s = before + item + after;
    assert forall|i: int| 0 <= i < s.len() implies s[i] != ',' by {
        if i < before.len() {
            assert(s[i] == before[i]);
        } else if i < before.len() + item.len() {
            assert(s[i] == item[i - before.len()]);
        } else {
            assert(s[i] == after[i - before.len() - item.len()]);
        }
    }
    lemma_single_part(s);
    lemma_single_part(item);
    law_trimming_takes_off_white_space_only(before, item, after);
    lemma_already_trimmed(item);
}

/// An error shows which it is, and the range as it is written.
pub proof fn law_a_list_error_shows_what_it_says(e: CpuListError)
    ensures
        e is EmptyRange ==> e@ is EmptyRange,
        e is InvalidNumber ==> e@ is InvalidNumber,
        e matches CpuListError::InvalidRange(range) ==> e@ == CpuListErrorView::InvalidRange(range@),
{
}

} // verus!
