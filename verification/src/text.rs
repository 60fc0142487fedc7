//! The small pieces of text handling that the `/proc` and `/sys` readers, the
//! environment and the pid keys need, over the characters of a string.

use vstd::prelude::*;
use vstd::slice::slice_subrange;

verus! {

/// Unicode's `White_Space` property.
pub open spec fn is_white_space(c: char) -> bool {
    let u = c as u32;
    ||| 0x9 <= u <= 0xd
    ||| u == 0x20
    ||| u == 0x85
    ||| u == 0xa0
    ||| u == 0x1680
    ||| 0x2000 <= u <= 0x200a
    ||| 0x2028 <= u <= 0x2029
    ||| u == 0x202f
    ||| u == 0x205f
    ||| u == 0x3000
}

/// `s` from its first character that is no white space.
pub open spec fn trim_start(s: Seq<char>) -> Seq<char>
    decreases s.len(),
{
    if s.len() > 0 && is_white_space(s[0]) {
        trim_start(s.skip(1))
    } else {
        s
    }
}

/// `s` up to its last character that is no white space.
pub open spec fn trim_end(s: Seq<char>) -> Seq<char>
    decreases s.len(),
{
    if s.len() > 0 && is_white_space(s.last()) {
        trim_end(s.drop_last())
    } else {
        s
    }
}

/// `s` without the white space at its two ends.
pub open spec fn trimmed(s: Seq<char>) -> Seq<char> {
    trim_end(trim_start(s))
}

/// The parts of `s` between the characters that occur in `separators`. There
/// is one part more than there are separators in `s`, and parts can be empty.
pub open spec fn split(s: Seq<char>, separators: Seq<char>) -> Seq<Seq<char>>
    decreases s.len(),
{
    if s.len() == 0 {
        seq![Seq::empty()]
    } else {
        let parts = split(s.drop_last(), separators);
        if separators.contains(s.last()) {
            parts.push(Seq::empty())
        } else {
            parts.drop_last().push(parts.last().push(s.last()))
        }
    }
}

/// What stands before and after the first `c` in `s`.
pub open spec fn split_once(s: Seq<char>, c: char) -> Option<(Seq<char>, Seq<char>)>
    decreases s.len(),
{
    if s.len() == 0 {
        None
    } else if s[0] == c {
        Some((Seq::empty(), s.skip(1)))
    } else {
        match split_once(s.skip(1), c) {
            Some((before, after)) => Some((seq![s[0]] + before, after)),
            None => None,
        }
    }
}

pub open spec fn is_digit(c: char) -> bool {
    '0' <= c <= '9'
}

pub open spec fn all_digits(s: Seq<char>) -> bool {
    forall|i: int| 0 <= i < s.len() ==> is_digit(#[trigger] s[i])
}

/// The number that the decimal digits `s` stand for.
pub open spec fn decimal_value(s: Seq<char>) -> nat
    decreases s.len(),
{
    if s.len() == 0 {
        0
    } else {
        (10 * decimal_value(s.drop_last()) + (s.last() as u32 - '0' as u32)) as nat
    }
}

/// The number that `s` writes in decimal, if `s` is one or more digits and the
/// number is at most `max`.
pub open spec fn bounded_decimal(s: Seq<char>, max: nat) -> Option<nat> {
    if s.len() > 0 && all_digits(s) && decimal_value(s) <= max {
        Some(decimal_value(s))
    } else {
        None
    }
}

/// The `u32` that `s` writes: decimal digits, with an optional `+` in front.
pub open spec fn u32_from_text(s: Seq<char>) -> Option<u32> {
    let digits = if s.len() > 0 && s[0] == '+' { s.skip(1) } else { s };
    match bounded_decimal(digits, u32::MAX as nat) {
        Some(n) => Some(n as u32),
        None => None,
    }
}

/// Where the run of digits from `at` on ends; a `+` may stand at position 0.
pub open spec fn number_len(s: Seq<char>, at: int) -> int
    decreases s.len() - at,
{
    if 0 <= at < s.len() && (is_digit(s[at]) || (at == 0 && s[at] == '+')) {
        number_len(s, at + 1)
    } else {
        at
    }
}

/// The `u32` that `s` starts with, whatever stands behind its digits.
pub open spec fn leading_number(s: Seq<char>) -> Option<u32> {
    u32_from_text(s.take(number_len(s, 0)))
}

/// The `i32` that `s` writes: decimal digits, with an optional sign in front.
pub open spec fn i32_from_text(s: Seq<char>) -> Option<i32> {
    if s.len() > 0 && s[0] == '-' {
        match bounded_decimal(s.skip(1), 0x8000_0000) {
            Some(n) => Some((0 - n) as i32),
            None => None,
        }
    } else {
        let digits = if s.len() > 0 && s[0] == '+' { s.skip(1) } else { s };
        match bounded_decimal(digits, i32::MAX as nat) {
            Some(n) => Some(n as i32),
            None => None,
        }
    }
}

/// The decimal digit for `d`.
pub open spec fn digit_char(d: nat) -> char {
    ('0' as u32 + d) as char
}

/// `n` in decimal, without leading zeros.
pub open spec fn decimal(n: nat) -> Seq<char>
    decreases n,
{
    if n < 10 {
        seq![digit_char(n)]
    } else {
        decimal(n / 10).push(digit_char(n % 10))
    }
}

/// `std`'s `String::push`: one character more at the end.
pub assume_specification[ String::push ](s: &mut String, ch: char)
    ensures
        final(s)@ == old(s)@.push(ch),
;

/// The characters of `s`.
pub(crate) fn chars_of(s: &str) -> (r: Vec<char>)
    ensures
        r@ == s@,
{
    let mut r: Vec<char> = Vec::new();
    for c in it: s.chars()
        invariant
            it.seq() == s@,
            r@ == s@.take(it.index()),
    {
        r.push(c);
    }
    r
}

/// The string made of `chars`.
pub(crate) fn string_of(chars: &[char]) -> (r: String)
    ensures
        r@ == chars@,
{
    let mut r = String::new();
    for i in 0..chars.len()
        invariant
            r@ == chars@.take(i as int),
    {
        r.push(chars[i]);
    }
    r
}

fn white_space(c: char) -> (r: bool)
    ensures
        r == is_white_space(c),
{
    let u = c as u32;
    (0x9 <= u && u <= 0xd) || u == 0x20 || u == 0x85 || u == 0xa0 || u == 0x1680 || (0x2000 <= u
        && u <= 0x200a) || u == 0x2028 || u == 0x2029 || u == 0x202f || u == 0x205f || u == 0x3000
}

/// `s` without the white space at its two ends.
pub(crate) fn trim<'a>(s: &'a [char]) -> (r: &'a [char])
    ensures
        r@ == trimmed(s@),
{
    let mut start: usize = 0;
    assert(s@.skip(0) =~= s@);
    while start < s.len() && white_space(s[start])
        invariant
            start <= s@.len(),
            trim_start(s@) == trim_start(s@.skip(start as int)),
        decreases s@.len() - start,
    {
        assert(s@.skip(start as int).skip(1) =~= s@.skip(start + 1));
        start = start + 1;
    }
    let mut end: usize = s.len();
    let ghost tail = s@.skip(start as int);
    while end > start && white_space(s[end - 1])
        invariant
            start <= end <= s@.len(),
            tail == s@.skip(start as int),
            trim_end(tail) == trim_end(s@.subrange(start as int, end as int)),
        decreases end,
    {
        assert(s@.subrange(start as int, end as int).drop_last() =~= s@.subrange(
            start as int,
            end - 1,
        ));
        end = end - 1;
    }
    slice_subrange(s, start, end)
}

/// The views of a list of character slices.
pub open spec fn views(parts: Seq<&[char]>) -> Seq<Seq<char>> {
    parts.map_values(|p: &[char]| p@)
}

fn contains_char(set: &[char], c: char) -> (r: bool)
    ensures
        r == set@.contains(c),
{
    for i in 0..set.len()
        invariant
            forall|j: int| 0 <= j < i ==> set@[j] != c,
    {
        if set[i] == c {
            return true;
        }
    }
    false
}

/// The parts of `s` between the characters of `separators`.
pub(crate) fn split_parts<'a>(s: &'a [char], separators: &[char]) -> (r: Vec<&'a [char]>)
    ensures
        views(r@) == split(s@, separators@),
{
    let mut parts: Vec<&'a [char]> = Vec::new();
    let mut start: usize = 0;
    proof {
        assert(s@.take(0) =~= Seq::empty());
        assert(views(parts@).push(s@.subrange(0, 0)) =~= seq![Seq::<char>::empty()]);
    }
    for i in 0..s.len()
        invariant
            start <= i,
            i <= s@.len(),
            views(parts@).push(s@.subrange(start as int, i as int)) == split(
                s@.take(i as int),
                separators@,
            ),
    {
        let ghost before = views(parts@).push(s@.subrange(start as int, i as int));
        proof {
            assert(s@.take(i + 1).drop_last() =~= s@.take(i as int));
            assert(before.drop_last() =~= views(parts@));
            assert(s@.subrange(start as int, i + 1) =~= s@.subrange(start as int, i as int).push(
                s@[i as int],
            ));
        }
        if contains_char(separators, s[i]) {
            parts.push(slice_subrange(s, start, i));
            start = i + 1;
            proof {
                assert(views(parts@) =~= before);
                assert(s@.subrange(start as int, i + 1) =~= Seq::empty());
            }
        }
    }
    parts.push(slice_subrange(s, start, s.len()));
    proof {
        assert(s@.take(s@.len() as int) =~= s@);
        assert(views(parts@) =~= views(parts@.drop_last()).push(parts@.last()@));
    }
    parts
}

/// What stands before and after the first `c` in `s`.
pub(crate) fn split_at_first<'a>(s: &'a [char], c: char) -> (r: Option<(&'a [char], &'a [char])>)
    ensures
        r is Some <==> split_once(s@, c) is Some,
        r matches Some((before, after)) ==> split_once(s@, c) == Some((before@, after@)),
{
    proof {
        assert(s@.skip(0) =~= s@);
        assert forall|b: Seq<char>| #[trigger] (s@.take(0) + b) == b by {
            assert(s@.take(0) + b =~= b);
        }
    }
    for i in 0..s.len()
        invariant
            i <= s@.len(),
            split_once(s@, c) is Some <==> split_once(s@.skip(i as int), c) is Some,
            split_once(s@.skip(i as int), c) matches Some((b, a)) ==> split_once(s@, c) == Some(
                (s@.take(i as int) + b, a),
            ),
    {
        let ghost rest = s@.skip(i as int);
        assert(rest[0] == s@[i as int]);
        assert(rest.skip(1) =~= s@.skip(i + 1));
        if s[i] == c {
            assert(s@.take(i as int) + Seq::<char>::empty() =~= s@.take(i as int));
            return Some((slice_subrange(s, 0, i), slice_subrange(s, i + 1, s.len())));
        }
        assert forall|b: Seq<char>|
            s@.take(i as int) + (seq![s@[i as int]] + b) == #[trigger] (s@.take(i + 1) + b) by {
            assert(s@.take(i as int) + (seq![s@[i as int]] + b) =~= s@.take(i + 1) + b);
        }
    }
    None
}

/// A longer run of digits stands for a number that is at least as large.
proof fn lemma_decimal_prefix(s: Seq<char>, i: int)
    requires
        all_digits(s),
        0 <= i <= s.len(),
    ensures
        decimal_value(s.take(i)) <= decimal_value(s),
    decreases s.len() - i,
{
    if i < s.len() {
        lemma_decimal_prefix(s, i + 1);
        assert(s.take(i + 1).drop_last() =~= s.take(i));
        assert(is_digit(s[i]));
    } else {
        assert(s.take(i) =~= s);
    }
}

/// The number that `s` writes in decimal, if it is at most `max`.
fn parse_decimal(s: &[char], max: u32) -> (r: Option<u32>)
    ensures
        match r {
            Some(n) => bounded_decimal(s@, max as nat) == Some(n as nat),
            None => bounded_decimal(s@, max as nat) is None,
        },
{
    if s.len() == 0 {
        return None;
    }
    let mut value: u64 = 0;
    for i in 0..s.len()
        invariant
            i <= s@.len(),
            value <= max,
            value as nat == decimal_value(s@.take(i as int)),
            all_digits(s@.take(i as int)),
    {
        let c = s[i];
        proof {
            assert(s@.take(i + 1).drop_last() =~= s@.take(i as int));
        }
        if c < '0' || c > '9' {
            assert(!is_digit(s@[i as int]));
            return None;
        }
        value = 10 * value + (c as u32 - '0' as u32) as u64;
        assert(all_digits(s@.take(i + 1)));
        if value > max as u64 {
            proof {
                if all_digits(s@) {
                    lemma_decimal_prefix(s@, i + 1);
                }
            }
            return None;
        }
    }
    assert(s@.take(s@.len() as int) =~= s@);
    Some(value as u32)
}

/// The `u32` that `s` writes.
pub(crate) fn parse_u32(s: &[char]) -> (r: Option<u32>)
    ensures
        r == u32_from_text(s@),
{
    if s.len() > 0 && s[0] == '+' {
        parse_decimal(slice_subrange(s, 1, s.len()), u32::MAX)
    } else {
        parse_decimal(s, u32::MAX)
    }
}

/// The `u32` that `s` starts with.
pub(crate) fn parse_leading_u32(s: &[char]) -> (r: Option<u32>)
    ensures
        r == leading_number(s@),
{
    let mut end: usize = 0;
    while end < s.len() && (('0' <= s[end] && s[end] <= '9') || (end == 0 && s[end] == '+'))
        invariant
            end <= s@.len(),
            number_len(s@, 0) == number_len(s@, end as int),
        decreases s@.len() - end,
    {
        end = end + 1;
    }
    assert(s@.subrange(0, end as int) =~= s@.take(end as int));
    parse_u32(slice_subrange(s, 0, end))
}

/// The `i32` that `s` writes.
pub(crate) fn parse_i32(s: &[char]) -> (r: Option<i32>)
    ensures
        r == i32_from_text(s@),
{
    if s.len() > 0 && s[0] == '-' {
        match parse_decimal(slice_subrange(s, 1, s.len()), 0x8000_0000) {
            Some(n) => Some((0 - n as i64) as i32),
            None => None,
        }
    } else {
        let digits = if s.len() > 0 && s[0] == '+' {
            slice_subrange(s, 1, s.len())
        } else {
            s
        };
        match parse_decimal(digits, 0x7fff_ffff) {
            Some(n) => Some(n as i32),
            None => None,
        }
    }
}

/// Appends `n` in decimal.
pub(crate) fn push_decimal(out: &mut String, n: u32)
    ensures
        final(out)@ == old(out)@ + decimal(n as nat),
    decreases n,
{
    let ghost start = out@;
    if n >= 10 {
        push_decimal(out, n / 10);
    }
    let d: u8 = (n % 10) as u8;
    out.push((0x30 + d) as char);
    assert(out@ =~= start + decimal(n as nat));
}

/// Whether two strings are the same.
pub(crate) fn same_text(a: &str, b: &str) -> (r: bool)
    ensures
        r == (a@ == b@),
{
    let left = chars_of(a);
    let right = chars_of(b);
    same_chars(left.as_slice(), right.as_slice())
}

/// Whether two runs of characters are the same.
pub(crate) fn same_chars(a: &[char], b: &[char]) -> (r: bool)
    ensures
        r == (a@ == b@),
{
    if a.len() != b.len() {
        return false;
    }
    for i in 0..a.len()
        invariant
            a@.len() == b@.len(),
            forall|j: int| 0 <= j < i ==> a@[j] == b@[j],
    {
        if a[i] != b[i] {
            return false;
        }
    }
    assert(a@ =~= b@);
    true
}

/// A number in decimal is a non-empty run of digits that stands for it.
pub proof fn law_decimal_reads_back(n: nat)
    ensures
        decimal(n).len() > 0,
        all_digits(decimal(n)),
        decimal_value(decimal(n)) == n,
    decreases n,
{
    if n < 10 {
        let text = decimal(n);
        assert(text.drop_last() =~= Seq::empty());
        assert(is_digit(text[0]));
        assert(decimal_value(text.drop_last()) == 0);
    } else {
        law_decimal_reads_back(n / 10);
        let front = decimal(n / 10);
        let text = decimal(n);
        assert(text.drop_last() =~= front);
        assert(is_digit(digit_char(n % 10)));
        assert forall|i: int| 0 <= i < text.len() implies is_digit(#[trigger] text[i]) by {
            if i < front.len() {
                assert(text[i] == front[i]);
            }
        }
    }
}

/// Reading a `u32` in decimal gives back the number that was written.
pub proof fn law_u32_reads_back(n: u32)
    ensures
        u32_from_text(decimal(n as nat)) == Some(n),
{
    law_decimal_reads_back(n as nat);
    assert(is_digit(decimal(n as nat)[0]));
}

/// `n` in decimal, with a `-` in front if it is negative.
pub open spec fn signed_decimal(n: i32) -> Seq<char> {
    if n < 0 {
        seq!['-'] + decimal((0 - n) as nat)
    } else {
        decimal(n as nat)
    }
}

/// Reading an `i32` in decimal gives back the number that was written.
pub proof fn law_i32_reads_back(n: i32)
    ensures
        i32_from_text(signed_decimal(n)) == Some(n),
{
    if n < 0 {
        law_decimal_reads_back((0 - n) as nat);
        assert(signed_decimal(n).skip(1) =~= decimal((0 - n) as nat));
    } else {
        law_decimal_reads_back(n as nat);
        assert(is_digit(decimal(n as nat)[0]));
    }
}

/// Text splits at its first `c`.
pub proof fn lemma_split_once_at(before: Seq<char>, c: char, after: Seq<char>)
    requires
        !before.contains(c),
    ensures
        split_once(before.push(c) + after, c) == Some((before, after)),
    decreases before.len(),
{
    let s = before.push(c) + after;
    if before.len() == 0 {
        assert(s.skip(1) =~= after);
        assert(before =~= Seq::empty());
    } else {
        let rest = before.skip(1);
        assert forall|i: int| 0 <= i < rest.len() implies rest[i] != c by {
            assert(rest[i] == before[i + 1]);
        }
        lemma_split_once_at(rest, c, after);
        assert(s.skip(1) =~= rest.push(c) + after);
        assert(s[0] == before[0] && before[0] != c);
        assert(seq![before[0]] + rest =~= before);
    }
}

/// Text without `c` does not split at it.
pub proof fn lemma_no_split_once(s: Seq<char>, c: char)
    requires
        !s.contains(c),
    ensures
        split_once(s, c) is None,
    decreases s.len(),
{
    if s.len() > 0 {
        assert(s[0] != c);
        let rest = s.skip(1);
        assert forall|i: int| 0 <= i < rest.len() implies rest[i] != c by {
            assert(rest[i] == s[i + 1]);
        }
        lemma_no_split_once(rest, c);
    }
}

/// Text with a separator in it splits into the parts before and after it.
pub proof fn lemma_split_join(a: Seq<char>, c: char, b: Seq<char>, separators: Seq<char>)
    requires
        separators.contains(c),
    ensures
        split(a.push(c) + b, separators) == split(a, separators) + split(b, separators),
    decreases b.len(),
{
    let s = a.push(c) + b;
    lemma_split_is_nonempty(b, separators);
    if b.len() == 0 {
        assert(s =~= a.push(c));
        assert(s.drop_last() =~= a);
        assert(split(s, separators) =~= split(a, separators) + split(b, separators));
    } else {
        let front = b.drop_last();
        lemma_split_join(a, c, front, separators);
        lemma_split_is_nonempty(front, separators);
        assert(s.drop_last() =~= a.push(c) + front);
        assert(s.last() == b.last());
        assert(split(s, separators) =~= split(a, separators) + split(b, separators));
    }
}

/// What stands before the first separator is the first part, and it starts
/// with all the text before that holds none.
pub proof fn lemma_first_part(a: Seq<char>, b: Seq<char>, separators: Seq<char>)
    requires
        forall|i: int| 0 <= i < a.len() ==> !separators.contains(#[trigger] a[i]),
    ensures
        ({
            let part = split(a + b, separators)[0];
            &&& a.len() <= part.len() <= a.len() + b.len()
            &&& part == (a + b).take(part.len() as int)
        }),
    decreases b.len(),
{
    let s = a + b;
    if b.len() == 0 {
        assert(s =~= a);
        lemma_split_whole(a, separators);
        assert(s.take(s.len() as int) =~= s);
    } else {
        let front = b.drop_last();
        lemma_first_part(a, front, separators);
        lemma_split_is_nonempty(a + front, separators);
        assert(s.drop_last() =~= a + front);
        let parts = split(a + front, separators);
        let part = parts[0];
        assert(s.take(part.len() as int) =~= (a + front).take(part.len() as int));
        if !separators.contains(s.last()) && parts.len() == 1 {
            lemma_only_part(a + front, separators);
            assert(part.push(s.last()) =~= s);
            assert(s.take(s.len() as int) =~= s);
        }
    }
}

/// The first part holds no separator, and ends where the text does or a
/// separator stands.
pub proof fn lemma_first_part_ends(s: Seq<char>, separators: Seq<char>)
    ensures
        ({
            let part = split(s, separators)[0];
            &&& part.len() <= s.len()
            &&& part == s.take(part.len() as int)
            &&& forall|i: int| 0 <= i < part.len() ==> !separators.contains(#[trigger] part[i])
            &&& part.len() < s.len() ==> separators.contains(s[part.len() as int])
        }),
    decreases s.len(),
{
    lemma_first_part(Seq::empty(), s, separators);
    assert(Seq::<char>::empty() + s =~= s);
    if s.len() > 0 {
        let front = s.drop_last();
        lemma_first_part_ends(front, separators);
        lemma_split_is_nonempty(front, separators);
        let before = split(front, separators)[0];
        let part = split(s, separators)[0];
        if split(front, separators).len() == 1 {
            lemma_only_part(front, separators);
            if !separators.contains(s.last()) {
                assert(part =~= s);
                assert forall|i: int| 0 <= i < part.len() implies !separators.contains(
                    #[trigger] part[i],
                ) by {
                    if i < front.len() {
                        assert(part[i] == before[i]);
                    }
                }
            }
        } else if before.len() == front.len() {
            assert(before =~= front);
            lemma_split_whole(front, separators);
        }
    }
}

/// Text with a `c` in it is the text before the first one, and what is behind.
proof fn lemma_split_at_first(s: Seq<char>, c: char) -> (r: (Seq<char>, Seq<char>))
    requires
        s.contains(c),
    ensures
        !r.0.contains(c),
        s == r.0.push(c) + r.1,
        split(s, seq![c]) == seq![r.0] + split(r.1, seq![c]),
{
    let separators = seq![c];
    assert(separators[0] == c);
    let first = split(s, separators)[0];
    let n = first.len() as int;
    lemma_first_part_ends(s, separators);
    assert forall|i: int| 0 <= i < first.len() implies first[i] != c by {
        assert(!separators.contains(first[i]));
    }
    let k = choose|k: int| 0 <= k < s.len() && s[k] == c;
    assert(n < s.len()) by {
        if n == s.len() {
            assert(first =~= s);
            assert(first[k] != c);
        }
    }
    let rest = s.skip(n + 1);
    assert(s[n] == c);
    assert(s =~= first.push(c) + rest);
    lemma_split_join(first, c, rest, separators);
    lemma_split_whole(first, separators);
    (first, rest)
}

proof fn lemma_whole_is_only_part(s: Seq<char>, c: char)
    requires
        !s.contains(c),
    ensures
        split(s, seq![c]) == seq![s],
{
    assert forall|i: int| 0 <= i < s.len() implies !seq![c].contains(#[trigger] s[i]) by {
        assert(s.contains(s[i]));
    }
    lemma_split_whole(s, seq![c]);
}

proof fn lemma_part_stands(s: Seq<char>, c: char, part: Seq<char>) -> (i: int)
    requires
        split(s, seq![c]).contains(part),
    ensures
        stands_between(s, c, part, i),
    decreases s.len(),
{
    if s.contains(c) {
        let (first, rest) = lemma_split_at_first(s, c);
        let n = first.len() as int;
        let parts = split(rest, seq![c]);
        let all = seq![first] + parts;
        let j = choose|j: int| 0 <= j < all.len() && all[j] == part;
        if j == 0 {
            assert(s.subrange(0, n) =~= part);
            assert(s[n] == c);
            0
        } else {
            assert(parts[j - 1] == part);
            let i = lemma_part_stands(rest, c, part);
            assert(s.subrange(n + 1 + i, n + 1 + i + part.len()) =~= rest.subrange(
                i,
                i + part.len(),
            ));
            assert(s[n] == c);
            assert(i > 0 ==> s[n + i] == rest[i - 1]);
            assert(i + part.len() < rest.len() ==> s[n + 1 + i + part.len()] == rest[i
                + part.len()]);
            n + 1 + i
        }
    } else {
        lemma_whole_is_only_part(s, c);
        assert(part == s);
        assert(s.subrange(0, s.len() as int) =~= s);
        0
    }
}

proof fn lemma_standing_is_a_part(s: Seq<char>, c: char, part: Seq<char>, i: int)
    requires
        !part.contains(c),
        stands_between(s, c, part, i),
    ensures
        split(s, seq![c]).contains(part),
    decreases s.len(),
{
    let end = i + part.len();
    if s.contains(c) {
        let (first, rest) = lemma_split_at_first(s, c);
        let n = first.len() as int;
        let parts = split(rest, seq![c]);
        let all = seq![first] + parts;
        assert(s[n] == c);
        if i <= n {
            assert(end <= n) by {
                if n < end {
                    assert(s.subrange(i, end)[n - i] == c);
                    assert(part.contains(part[n - i]));
                }
            }
            assert(i == 0) by {
                if i > 0 {
                    assert(s[i - 1] == first[i - 1]);
                    assert(first.contains(first[i - 1]));
                }
            }
            assert(end == n) by {
                if end < n {
                    assert(s[end] == first[end]);
                    assert(first.contains(first[end]));
                }
            }
            assert(first =~= s.subrange(0, n));
            assert(all[0] == part);
        } else {
            let k = i - n - 1;
            assert(rest.subrange(k, k + part.len()) =~= s.subrange(i, end));
            assert(k > 0 ==> rest[k - 1] == s[i - 1]);
            assert(end < s.len() ==> rest[k + part.len()] == s[end]);
            lemma_standing_is_a_part(rest, c, part, k);
            let j = choose|j: int| 0 <= j < parts.len() && parts[j] == part;
            assert(all[j + 1] == part);
        }
    } else {
        lemma_whole_is_only_part(s, c);
        assert(i == 0 && end == s.len()) by {
            if i > 0 {
                assert(s.contains(s[i - 1]));
            }
            if end < s.len() {
                assert(s.contains(s[end]));
            }
        }
        assert(part =~= s);
        assert(seq![s][0] == part);
    }
}

/// A part of a text that is split at `c` is what stands between two of them, or
/// between one and an end of the text.
pub proof fn lemma_part_stands_between(s: Seq<char>, c: char, part: Seq<char>)
    requires
        !part.contains(c),
    ensures
        split(s, seq![c]).contains(part) <==> exists|i: int| #[trigger]
            stands_between(s, c, part, i),
{
    if split(s, seq![c]).contains(part) {
        let i = lemma_part_stands(s, c, part);
        assert(stands_between(s, c, part, i));
    }
    if exists|i: int| #[trigger] stands_between(s, c, part, i) {
        let i = choose|i: int| #[trigger] stands_between(s, c, part, i);
        lemma_standing_is_a_part(s, c, part, i);
    }
}

/// Whether `part` stands in `s` at `i`, with a `c` or an end of the text on
/// either side.
pub open spec fn stands_between(s: Seq<char>, c: char, part: Seq<char>, i: int) -> bool {
    &&& 0 <= i <= s.len() - part.len()
    &&& s.subrange(i, i + part.len()) == part
    &&& i == 0 || s[i - 1] == c
    &&& i + part.len() == s.len() || s[i + part.len()] == c
}

/// Text with a single part is that part.
proof fn lemma_only_part(s: Seq<char>, separators: Seq<char>)
    requires
        split(s, separators).len() == 1,
    ensures
        split(s, separators)[0] == s,
    decreases s.len(),
{
    if s.len() > 0 {
        lemma_split_is_nonempty(s.drop_last(), separators);
        if !separators.contains(s.last()) {
            lemma_only_part(s.drop_last(), separators);
            assert(s.drop_last().push(s.last()) =~= s);
        }
    } else {
        assert(s =~= Seq::empty());
    }
}

/// The run of digits at the start of a text ends where the digits do.
pub proof fn lemma_number_len(digits: Seq<char>, s: Seq<char>, at: int)
    requires
        0 <= at <= digits.len() <= s.len(),
        digits.len() > 0,
        all_digits(digits),
        s.take(digits.len() as int) == digits,
        digits.len() < s.len() ==> !is_digit(s[digits.len() as int]),
    ensures
        number_len(s, at) == digits.len(),
    decreases digits.len() - at,
{
    if at < digits.len() {
        assert(s[at] == s.take(digits.len() as int)[at]);
        assert(is_digit(digits[at]));
        lemma_number_len(digits, s, at + 1);
    }
}

/// Text that neither starts nor ends with white space is trimmed.
pub proof fn lemma_already_trimmed(s: Seq<char>)
    requires
        s.len() > 0 ==> !is_white_space(s[0]) && !is_white_space(s.last()),
    ensures
        trimmed(s) == s,
{
}

/// What has been trimmed stays as it is.
pub proof fn lemma_trimmed_twice(s: Seq<char>)
    ensures
        trimmed(trimmed(s)) == trimmed(s),
{
    lemma_trim_start_ends(s);
    lemma_trim_end_ends(trim_start(s));
    lemma_already_trimmed(trimmed(s));
}

proof fn lemma_trim_start_ends(s: Seq<char>)
    ensures
        trim_start(s).len() > 0 ==> !is_white_space(trim_start(s)[0]),
    decreases s.len(),
{
    if s.len() > 0 && is_white_space(s[0]) {
        lemma_trim_start_ends(s.skip(1));
    }
}

proof fn lemma_trim_end_ends(s: Seq<char>)
    ensures
        trim_end(s).len() > 0 ==> !is_white_space(trim_end(s).last()) && trim_end(s)[0] == s[0],
    decreases s.len(),
{
    if s.len() > 0 && is_white_space(s.last()) {
        lemma_trim_end_ends(s.drop_last());
    }
}

/// There is always a part, if only an empty one.
pub proof fn lemma_split_is_nonempty(s: Seq<char>, separators: Seq<char>)
    ensures
        split(s, separators).len() > 0,
    decreases s.len(),
{
    if s.len() > 0 {
        lemma_split_is_nonempty(s.drop_last(), separators);
    }
}

/// Text without a separator is one part.
pub proof fn lemma_split_whole(s: Seq<char>, separators: Seq<char>)
    requires
        forall|i: int| 0 <= i < s.len() ==> !separators.contains(#[trigger] s[i]),
    ensures
        split(s, separators) == seq![s],
    decreases s.len(),
{
    if s.len() > 0 {
        let front = s.drop_last();
        assert forall|i: int| 0 <= i < front.len() implies !separators.contains(
            #[trigger] front[i],
        ) by {
            assert(front[i] == s[i]);
        }
        lemma_split_whole(front, separators);
        assert(s.last() == s[s.len() - 1]);
        assert(seq![front].last().push(s.last()) =~= s);
        assert(split(s, separators) =~= seq![s]);
    } else {
        assert(s =~= Seq::empty());
    }
}

/// A number in decimal holds neither white space nor a given sign.
pub proof fn lemma_decimal_is_plain(n: nat, sign: char)
    requires
        !is_digit(sign),
    ensures
        decimal(n).len() > 0,
        !decimal(n).contains(sign),
        !is_white_space(decimal(n)[0]),
        !is_white_space(decimal(n).last()),
{
    law_decimal_reads_back(n);
    assert(is_digit(decimal(n)[0]));
    assert(is_digit(decimal(n)[decimal(n).len() - 1]));
}

/// White space is what Unicode calls so, and nothing else: the control
/// characters from tab to carriage return, the space, and the spaces and line
/// ends beyond ASCII.
pub proof fn law_white_space_is_unicodes(c: char)
    ensures
        is_white_space(c) <==> {
            ||| c == '\t'
            ||| c == '\n'
            ||| c == '\u{b}'
            ||| c == '\u{c}'
            ||| c == '\r'
            ||| c == ' '
            ||| c == '\u{85}'
            ||| c == '\u{a0}'
            ||| c == '\u{1680}'
            ||| '\u{2000}' <= c <= '\u{200a}'
            ||| c == '\u{2028}'
            ||| c == '\u{2029}'
            ||| c == '\u{202f}'
            ||| c == '\u{205f}'
            ||| c == '\u{3000}'
        },
{
}

proof fn lemma_trim_start_off(before: Seq<char>, rest: Seq<char>)
    requires
        forall|i: int| 0 <= i < before.len() ==> is_white_space(#[trigger] before[i]),
    ensures
        trim_start(before + rest) == trim_start(rest),
    decreases before.len(),
{
    let s = before + rest;
    if before.len() == 0 {
        assert(s =~= rest);
    } else {
        let later = before.skip(1);
        assert forall|i: int| 0 <= i < later.len() implies is_white_space(#[trigger] later[i]) by {
            assert(later[i] == before[i + 1]);
        }
        lemma_trim_start_off(later, rest);
        assert(is_white_space(before[0]) && s[0] == before[0]);
        assert(s.skip(1) =~= later + rest);
    }
}

proof fn lemma_trim_end_off(rest: Seq<char>, after: Seq<char>)
    requires
        forall|i: int| 0 <= i < after.len() ==> is_white_space(#[trigger] after[i]),
    ensures
        trim_end(rest + after) == trim_end(rest),
    decreases after.len(),
{
    let s = rest + after;
    if after.len() == 0 {
        assert(s =~= rest);
    } else {
        let sooner = after.drop_last();
        assert forall|i: int| 0 <= i < sooner.len() implies is_white_space(
            #[trigger] sooner[i],
        ) by {
            assert(sooner[i] == after[i]);
        }
        lemma_trim_end_off(rest, sooner);
        assert(is_white_space(after[after.len() - 1]) && s.last() == after[after.len() - 1]);
        assert(s.drop_last() =~= rest + sooner);
    }
}

/// Trimming takes off the white space at the two ends, all of it and nothing
/// else: what starts and ends with another character stays as it is.
pub proof fn law_trimming_takes_off_white_space_only(
    before: Seq<char>,
    text: Seq<char>,
    after: Seq<char>,
)
    requires
        forall|i: int| 0 <= i < before.len() ==> is_white_space(#[trigger] before[i]),
        forall|i: int| 0 <= i < after.len() ==> is_white_space(#[trigger] after[i]),
        text.len() > 0 ==> !is_white_space(text[0]) && !is_white_space(text[text.len() - 1]),
    ensures
        trimmed(before + text + after) == text,
{
    assert(before + text + after =~= before + (text + after));
    lemma_trim_start_off(before, text + after);
    if text.len() == 0 {
        assert(text + after =~= after);
        assert(after + Seq::<char>::empty() =~= after);
        lemma_trim_start_off(after, Seq::empty());
        assert(text =~= Seq::empty());
    } else {
        assert((text + after)[0] == text[0]);
        lemma_trim_end_off(text, after);
        assert(text.last() == text[text.len() - 1]);
    }
}

/// The digits of a text, behind its sign.
spec fn digits_of(s: Seq<char>, sign: char) -> Seq<char> {
    if s.len() > 0 && s[0] == sign {
        s.skip(1)
    } else {
        s
    }
}

proof fn lemma_digits_grow(s: Seq<char>, c: char, sign: char)
    requires
        s.len() > 0,
    ensures
        digits_of(s.push(c), sign) == digits_of(s, sign).push(c),
{
    assert(s.push(c)[0] == s[0]);
    assert(digits_of(s.push(c), sign) =~= digits_of(s, sign).push(c));
}

proof fn lemma_bounded_grows(d: Seq<char>, c: char, max: nat)
    ensures
        bounded_decimal(d.push(c), max) == {
            let before = if d.len() == 0 {
                Some(0nat)
            } else {
                bounded_decimal(d, max)
            };
            if before is Some && '0' <= c <= '9' && 10 * before->0 + (c as u32 - 48) <= max {
                Some((10 * before->0 + (c as u32 - 48)) as nat)
            } else {
                None
            }
        },
{
    let longer = d.push(c);
    assert(longer.drop_last() =~= d);
    assert(longer.last() == c);
    assert('0' as u32 == 48);
    if is_digit(c) {
        assert(decimal_value(longer) == 10 * decimal_value(d) + (c as u32 - 48));
    }
    assert(d.len() == 0 ==> decimal_value(d) == 0 && all_digits(d));
    assert(all_digits(longer) <==> all_digits(d) && is_digit(c)) by {
        if all_digits(longer) {
            assert forall|i: int| 0 <= i < d.len() implies is_digit(#[trigger] d[i]) by {
                assert(longer[i] == d[i]);
            }
            assert(is_digit(longer[d.len() as int]));
        }
        if all_digits(d) && is_digit(c) {
            assert forall|i: int| 0 <= i < longer.len() implies is_digit(#[trigger] longer[i]) by {
                if i < d.len() {
                    assert(longer[i] == d[i]);
                }
            }
        }
    }
}

/// A `u32` is read digit by digit, for texts of every length: nothing and a
/// lone `+` are no number, a further digit makes ten times the number plus that
/// digit as long as it fits, and any other further character, or a number that
/// no longer fits, makes the text no number for good.
pub proof fn law_u32_is_read_digit_by_digit(s: Seq<char>, c: char)
    ensures
        u32_from_text(Seq::empty()) is None,
        u32_from_text(s.push(c)) == {
            let before = if s.len() == 0 || s == seq!['+'] {
                Some(0u32)
            } else {
                u32_from_text(s)
            };
            if before is Some && '0' <= c <= '9' && 10 * before->0 + (c as u32 - 48) <= 0xffff_ffff {
                Some((10 * before->0 + (c as u32 - 48)) as u32)
            } else {
                None
            }
        },
{
    let max = u32::MAX as nat;
    let longer = s.push(c);
    if s.len() == 0 {
        assert(s =~= Seq::empty());
        if c == '+' {
            assert(longer.skip(1) =~= Seq::empty());
        } else {
            lemma_bounded_grows(s, c, max);
        }
    } else {
        lemma_digits_grow(s, c, '+');
        lemma_bounded_grows(digits_of(s, '+'), c, max);
        if s == seq!['+'] {
            assert(s.skip(1) =~= Seq::empty());
        }
        if s[0] == '+' && s.len() == 1 {
            assert(s =~= seq!['+']);
        }
    }
}

/// An `i32` is read digit by digit, for texts of every length: nothing and a
/// lone sign are no number, a further digit makes ten times the number plus
/// that digit, or minus it behind a `-`, as long as it fits, and any other
/// further character, or a number that no longer fits, makes the text no number
/// for good.
pub proof fn law_i32_is_read_digit_by_digit(s: Seq<char>, c: char)
    ensures
        i32_from_text(Seq::empty()) is None,
        i32_from_text(s.push(c)) == {
            let before = if s.len() == 0 || s == seq!['+'] || s == seq!['-'] {
                Some(0i32)
            } else {
                i32_from_text(s)
            };
            let digit = c as u32 - 48;
            let number = if s.len() > 0 && s[0] == '-' {
                10 * before->0 - digit
            } else {
                10 * before->0 + digit
            };
            if before is Some && '0' <= c <= '9' && -0x8000_0000 <= number <= 0x7fff_ffff {
                Some(number as i32)
            } else {
                None
            }
        },
{
    let longer = s.push(c);
    if s.len() == 0 {
        assert(s =~= Seq::empty());
        if c == '+' || c == '-' {
            assert(longer.skip(1) =~= Seq::empty());
        } else {
            lemma_bounded_grows(s, c, i32::MAX as nat);
        }
    } else {
        assert(longer[0] == s[0]);
        if s[0] == '-' {
            lemma_digits_grow(s, c, '-');
            lemma_bounded_grows(digits_of(s, '-'), c, 0x8000_0000);
        } else {
            lemma_digits_grow(s, c, '+');
            lemma_bounded_grows(digits_of(s, '+'), c, i32::MAX as nat);
        }
        if s == seq!['+'] || s == seq!['-'] {
            assert(s.skip(1) =~= Seq::empty());
        }
        if s.len() == 1 {
            assert(s =~= seq![s[0]]);
        }
    }
}

/// The number that a text starts with is that of its run of digits, with or
/// without a `+` in front, whatever stands behind; a text that starts otherwise
/// starts with no number.
pub proof fn law_the_leading_digits_are_the_number(digits: Seq<char>, rest: Seq<char>)
    requires
        forall|i: int| 0 <= i < digits.len() ==> '0' <= (#[trigger] digits[i]) <= '9',
        rest.len() > 0 ==> !('0' <= rest[0] <= '9'),
    ensures
        digits.len() > 0 ==> leading_number(digits + rest) == u32_from_text(digits),
        leading_number(seq!['+'] + digits + rest) == u32_from_text(digits),
        digits.len() == 0 && !(rest.len() > 0 && rest[0] == '+') ==> leading_number(rest) is None,
{
    let plain = digits + rest;
    let n = digits.len() as int;
    assert(all_digits(digits));
    if n > 0 {
        assert(plain.take(n) =~= digits);
        if rest.len() > 0 {
            assert(plain[n] == rest[0]);
        }
        lemma_number_len(digits, plain, 0);
    }
    let signed = seq!['+'] + digits + rest;
    lemma_signed_number_len(digits, rest, 1);
    assert(number_len(signed, 0) == n + 1);
    assert(signed.take(n + 1) =~= seq!['+'] + digits);
    let text = seq!['+'] + digits;
    assert(text.skip(1) =~= digits);
    if n > 0 {
        assert('0' <= digits[0] <= '9');
        assert(digits[0] != '+');
    }
    if n == 0 && !(rest.len() > 0 && rest[0] == '+') {
        assert(number_len(rest, 0) == 0);
        assert(rest.take(0) =~= Seq::empty());
    }
}

proof fn lemma_signed_number_len(digits: Seq<char>, rest: Seq<char>, at: int)
    requires
        all_digits(digits),
        rest.len() > 0 ==> !is_digit(rest[0]),
        1 <= at <= digits.len() + 1,
    ensures
        number_len(seq!['+'] + digits + rest, at) == digits.len() + 1,
    decreases digits.len() + 1 - at,
{
    let s = seq!['+'] + digits + rest;
    if at <= digits.len() {
        assert(s[at] == digits[at - 1] && is_digit(digits[at - 1]));
        lemma_signed_number_len(digits, rest, at + 1);
    } else if rest.len() > 0 {
        assert(s[at] == rest[0]);
    }
}

/// A number below ten is written as one digit, and any other as the tenth part
/// of it and its last digit behind; a negative one with a `-` in front.
pub proof fn law_numbers_are_written_digit_by_digit(n: nat, i: i32)
    ensures
        n < 10 ==> decimal(n).len() == 1 && decimal(n)[0] as u32 == 48 + n,
        n >= 10 ==> {
            let text = decimal(n);
            &&& text.len() == decimal(n / 10).len() + 1
            &&& text.take(text.len() - 1) == decimal(n / 10)
            &&& text[text.len() - 1] as u32 == 48 + n % 10
        },
        i >= 0 ==> signed_decimal(i) == decimal(i as nat),
        i < 0 ==> signed_decimal(i) == seq!['-'] + decimal((0 - i) as nat),
{
    if n >= 10 {
        assert(decimal(n).take(decimal(n).len() - 1) =~= decimal(n / 10));
    }
}

} // verus!
