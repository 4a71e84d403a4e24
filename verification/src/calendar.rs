//! Working-day specifications: a person's working-day string is a
//! comma-separated list of three-letter English weekday abbreviations.
//!
//! [`parse_working_days`] keeps the recognized weekdays and silently drops
//! unrecognized tokens; [`count_working_days`] counts every non-empty token,
//! recognized or not. The asymmetry is deliberate: the hours-per-day split
//! is taken over everything the user listed, while only recognized names
//! can match a calendar day.

use vstd::prelude::*;
use vstd::string::StrSliceExecFns;

use crate::dates::Date;
use crate::dates::Weekday;
use crate::dates::weekday_of_index_math;

verus! {

/// A subset of the seven weekdays.
#[derive(Clone, Copy, PartialEq, Eq, Structural, Debug)]
pub struct WorkingDaySet {
    pub monday: bool,
    pub tuesday: bool,
    pub wednesday: bool,
    pub thursday: bool,
    pub friday: bool,
    pub saturday: bool,
    pub sunday: bool,
}

impl WorkingDaySet {
    pub open spec fn contains(self, weekday: Weekday) -> bool {
        match weekday {
            Weekday::Monday => self.monday,
            Weekday::Tuesday => self.tuesday,
            Weekday::Wednesday => self.wednesday,
            Weekday::Thursday => self.thursday,
            Weekday::Friday => self.friday,
            Weekday::Saturday => self.saturday,
            Weekday::Sunday => self.sunday,
        }
    }
}

pub open spec fn wd_empty() -> WorkingDaySet {
    WorkingDaySet {
        monday: false,
        tuesday: false,
        wednesday: false,
        thursday: false,
        friday: false,
        saturday: false,
        sunday: false,
    }
}

pub open spec fn wd_add(set: WorkingDaySet, weekday: Weekday) -> WorkingDaySet {
    match weekday {
        Weekday::Monday => WorkingDaySet { monday: true, ..set },
        Weekday::Tuesday => WorkingDaySet { tuesday: true, ..set },
        Weekday::Wednesday => WorkingDaySet { wednesday: true, ..set },
        Weekday::Thursday => WorkingDaySet { thursday: true, ..set },
        Weekday::Friday => WorkingDaySet { friday: true, ..set },
        Weekday::Saturday => WorkingDaySet { saturday: true, ..set },
        Weekday::Sunday => WorkingDaySet { sunday: true, ..set },
    }
}

pub open spec fn wd_add_opt(set: WorkingDaySet, weekday: Option<Weekday>) -> WorkingDaySet {
    match weekday {
        Some(w) => wd_add(set, w),
        None => set,
    }
}

pub open spec fn is_space(c: char) -> bool {
    c == ' ' || c == '\t' || c == '\r' || c == '\n'
}

pub open spec fn trim_start_math(s: Seq<char>) -> Seq<char>
    decreases s.len(),
{
    if s.len() > 0 && is_space(s[0]) {
        trim_start_math(s.drop_first())
    } else {
        s
    }
}

pub open spec fn trim_end_math(s: Seq<char>) -> Seq<char>
    decreases s.len(),
{
    if s.len() > 0 && is_space(s.last()) {
        trim_end_math(s.drop_last())
    } else {
        s
    }
}

/// A token with its surrounding whitespace removed.
pub open spec fn trim_math(s: Seq<char>) -> Seq<char> {
    trim_end_math(trim_start_math(s))
}

/// The weekday named by an exact three-letter abbreviation, if any.
pub open spec fn weekday_of_token(t: Seq<char>) -> Option<Weekday> {
    if t.len() == 3 {
        if t[0] == 'M' && t[1] == 'o' && t[2] == 'n' {
            Some(Weekday::Monday)
        } else if t[0] == 'T' && t[1] == 'u' && t[2] == 'e' {
            Some(Weekday::Tuesday)
        } else if t[0] == 'W' && t[1] == 'e' && t[2] == 'd' {
            Some(Weekday::Wednesday)
        } else if t[0] == 'T' && t[1] == 'h' && t[2] == 'u' {
            Some(Weekday::Thursday)
        } else if t[0] == 'F' && t[1] == 'r' && t[2] == 'i' {
            Some(Weekday::Friday)
        } else if t[0] == 'S' && t[1] == 'a' && t[2] == 't' {
            Some(Weekday::Saturday)
        } else if t[0] == 'S' && t[1] == 'u' && t[2] == 'n' {
            Some(Weekday::Sunday)
        } else {
            None
        }
    } else {
        None
    }
}

/// Index of the first comma, or the length when there is none.
pub open spec fn first_comma_index(s: Seq<char>) -> nat
    decreases s.len(),
{
    if s.len() == 0 {
        0
    } else if s[0] == ',' {
        0
    } else {
        1 + first_comma_index(s.drop_first())
    }
}

/// The set of weekdays named by the recognized tokens of a comma-separated
/// list; unrecognized tokens contribute nothing.
pub open spec fn working_day_set_math(s: Seq<char>) -> WorkingDaySet
    decreases s.len(),
{
    let i = first_comma_index(s) as int;
    if i >= s.len() {
        wd_add_opt(wd_empty(), weekday_of_token(trim_math(s)))
    } else {
        wd_add_opt(
            working_day_set_math(s.subrange(i + 1, s.len() as int)),
            weekday_of_token(trim_math(s.subrange(0, i))),
        )
    }
}

/// The number of non-empty trimmed tokens of a comma-separated list,
/// recognized or not.
pub open spec fn count_working_days_math(s: Seq<char>) -> int
    decreases s.len(),
{
    let i = first_comma_index(s) as int;
    if i >= s.len() {
        if trim_math(s).len() > 0 {
            1
        } else {
            0
        }
    } else {
        let c: int = if trim_math(s.subrange(0, i)).len() > 0 {
            1
        } else {
            0
        };
        c + count_working_days_math(s.subrange(i + 1, s.len() as int))
    }
}

proof fn lemma_first_comma_in_range(s: Seq<char>)
    ensures
        first_comma_index(s) <= s.len(),
        first_comma_index(s) < s.len() ==> s[first_comma_index(s) as int] == ',',
        forall|j: int| 0 <= j < first_comma_index(s) ==> s[j] != ',',
    decreases s.len(),
{
    if s.len() > 0 && s[0] != ',' {
        lemma_first_comma_in_range(s.drop_first());
        assert forall|j: int| 0 <= j < first_comma_index(s) implies s[j] != ',' by {
            if j > 0 {
                assert(s.drop_first()[j - 1] == s[j]);
            }
        }
    }
}

proof fn lemma_first_comma_characterize(s: Seq<char>, i: int)
    requires
        0 <= i <= s.len(),
        forall|j: int| 0 <= j < i ==> s[j] != ',',
        i < s.len() ==> s[i] == ',',
    ensures
        first_comma_index(s) == i,
    decreases s.len(),
{
    if s.len() == 0 {
    } else if s[0] == ',' {
    } else {
        lemma_first_comma_characterize(s.drop_first(), i - 1);
    }
}

proof fn lemma_trim_start_at(s: Seq<char>, lo: int)
    requires
        0 <= lo <= s.len(),
        forall|j: int| 0 <= j < lo ==> is_space(s[j]),
        lo < s.len() ==> !is_space(s[lo]),
    ensures
        trim_start_math(s) =~= s.subrange(lo, s.len() as int),
    decreases lo,
{
    if lo == 0 {
        assert(s =~= s.subrange(0, s.len() as int));
    } else {
        lemma_trim_start_at(s.drop_first(), lo - 1);
        assert(s.drop_first().subrange(lo - 1, s.drop_first().len() as int)
            =~= s.subrange(lo, s.len() as int));
    }
}

proof fn lemma_trim_end_at(s: Seq<char>, hi: int)
    requires
        0 <= hi <= s.len(),
        forall|j: int| hi <= j < s.len() ==> is_space(s[j]),
        hi > 0 ==> !is_space(s[hi - 1]),
    ensures
        trim_end_math(s) =~= s.subrange(0, hi),
    decreases s.len(),
{
    if s.len() == 0 {
    } else if is_space(s.last()) {
        lemma_trim_end_at(s.drop_last(), hi);
    } else {
        assert(hi == s.len());
        assert(s =~= s.subrange(0, s.len() as int));
    }
}

/// The trimmed content of `s[start..end]` is `s[lo..hi]` when everything
/// outside `[lo, hi)` inside the token is whitespace and the boundary
/// characters are not.
proof fn lemma_trim_is_subrange(s: Seq<char>, start: int, end: int, lo: int, hi: int)
    requires
        0 <= start <= lo <= hi <= end <= s.len(),
        forall|j: int| start <= j < lo ==> is_space(s[j]),
        forall|j: int| hi <= j < end ==> is_space(s[j]),
        lo < hi ==> !is_space(s[lo]) && !is_space(s[hi - 1]),
        lo == hi ==> lo == end,
    ensures
        trim_math(s.subrange(start, end)) =~= s.subrange(lo, hi),
{
    let t = s.subrange(start, end);
    lemma_trim_start_at(t, lo - start);
    let u = t.subrange(lo - start, t.len() as int);
    assert(u =~= s.subrange(lo, end));
    lemma_trim_end_at(u, hi - lo);
    assert(u.subrange(0, hi - lo) =~= s.subrange(lo, hi));
}

/// Finds the first comma at or after the start of `s`; returns the length of
/// `s` when there is none.
fn find_first_comma(s: &str) -> (i: usize)
    ensures
        i == first_comma_index(s@),
{
    let n = s.unicode_len();
    let mut i: usize = 0;
    loop
        invariant
            0 <= i <= n,
            n == s@.len(),
            forall|j: int| 0 <= j < i ==> s@[j] != ',',
        ensures
            i <= n,
            forall|j: int| 0 <= j < i ==> s@[j] != ',',
            i < n ==> s@[i as int] == ',',
        decreases n - i,
    {
        if i >= n {
            break;
        }
        if s.get_char(i) == ',' {
            break;
        }
        i = i + 1;
    }
    proof {
        lemma_first_comma_characterize(s@, i as int);
    }
    i
}

/// Looks up the weekday named by `s[start..end]` after trimming whitespace.
fn trimmed_weekday(s: &str, start: usize, end: usize) -> (weekday: Option<Weekday>)
    requires
        start <= end <= s@.len(),
    ensures
        weekday == weekday_of_token(trim_math(s@.subrange(start as int, end as int))),
{
    let (lo, hi) = trimmed_bounds(s, start, end);
    if hi - lo != 3 {
        return None;
    }
    let c0 = s.get_char(lo);
    let c1 = s.get_char(lo + 1);
    let c2 = s.get_char(lo + 2);
    proof {
        assert(trim_math(s@.subrange(start as int, end as int))
            =~= s@.subrange(lo as int, hi as int));
    }
    if c0 == 'M' && c1 == 'o' && c2 == 'n' {
        Some(Weekday::Monday)
    } else if c0 == 'T' && c1 == 'u' && c2 == 'e' {
        Some(Weekday::Tuesday)
    } else if c0 == 'W' && c1 == 'e' && c2 == 'd' {
        Some(Weekday::Wednesday)
    } else if c0 == 'T' && c1 == 'h' && c2 == 'u' {
        Some(Weekday::Thursday)
    } else if c0 == 'F' && c1 == 'r' && c2 == 'i' {
        Some(Weekday::Friday)
    } else if c0 == 'S' && c1 == 'a' && c2 == 't' {
        Some(Weekday::Saturday)
    } else if c0 == 'S' && c1 == 'u' && c2 == 'n' {
        Some(Weekday::Sunday)
    } else {
        None
    }
}

/// Bounds of the non-whitespace content of `s[start..end]`.
fn trimmed_bounds(s: &str, start: usize, end: usize) -> (bounds: (usize, usize))
    requires
        start <= end <= s@.len(),
    ensures
        start <= bounds.0 <= bounds.1 <= end,
        trim_math(s@.subrange(start as int, end as int))
            =~= s@.subrange(bounds.0 as int, bounds.1 as int),
        bounds.1 - bounds.0 == trim_math(s@.subrange(start as int, end as int)).len(),
{
    let mut lo: usize = start;
    loop
        invariant
            start <= lo <= end <= s@.len(),
            forall|j: int| start <= j < lo ==> is_space(s@[j]),
        ensures
            start <= lo <= end,
            forall|j: int| start <= j < lo ==> is_space(s@[j]),
            lo < end ==> !is_space(s@[lo as int]),
        decreases end - lo,
    {
        if lo >= end {
            break;
        }
        let c = s.get_char(lo);
        if !(c == ' ' || c == '\t' || c == '\r' || c == '\n') {
            break;
        }
        lo = lo + 1;
    }
    if lo == end {
        proof {
            lemma_trim_is_subrange(s@, start as int, end as int, end as int, end as int);
        }
        return (end, end);
    }
    let mut hi: usize = end;
    loop
        invariant
            lo < hi <= end <= s@.len(),
            forall|j: int| hi <= j < end ==> is_space(s@[j]),
            !is_space(s@[lo as int]),
        ensures
            lo < hi <= end,
            forall|j: int| hi <= j < end ==> is_space(s@[j]),
            !is_space(s@[(hi - 1) as int]),
        decreases hi,
    {
        let c = s.get_char(hi - 1);
        if !(c == ' ' || c == '\t' || c == '\r' || c == '\n') {
            break;
        }
        if hi - 1 == lo {
            break;
        }
        hi = hi - 1;
    }
    proof {
        lemma_trim_is_subrange(s@, start as int, end as int, lo as int, hi as int);
    }
    (lo, hi)
}

/// Parses a comma-separated working-day list into the set of recognized
/// weekdays; unrecognized tokens are dropped, and an empty or entirely
/// unrecognized list yields the empty set.
pub fn parse_working_days(s: &str) -> (set: WorkingDaySet)
    ensures
        set == working_day_set_math(s@),
    decreases s@.len(),
{
    let n = s.unicode_len();
    let i = find_first_comma(s);
    proof {
        lemma_first_comma_in_range(s@);
    }
    if i >= n {
        proof {
            assert(s@.subrange(0, n as int) =~= s@);
        }
        let w = trimmed_weekday(s, 0, n);
        add_weekday(empty_working_day_set(), w)
    } else {
        let w = trimmed_weekday(s, 0, i);
        let rest = s.substring_char(i + 1, n);
        let rest_set = parse_working_days(rest);
        add_weekday(rest_set, w)
    }
}

/// The set with no working days.
pub fn empty_working_day_set() -> (set: WorkingDaySet)
    ensures
        set == wd_empty(),
{
    WorkingDaySet {
        monday: false,
        tuesday: false,
        wednesday: false,
        thursday: false,
        friday: false,
        saturday: false,
        sunday: false,
    }
}

fn add_weekday(set: WorkingDaySet, weekday: Option<Weekday>) -> (r: WorkingDaySet)
    ensures
        r == wd_add_opt(set, weekday),
{
    match weekday {
        Some(Weekday::Monday) => WorkingDaySet { monday: true, ..set },
        Some(Weekday::Tuesday) => WorkingDaySet { tuesday: true, ..set },
        Some(Weekday::Wednesday) => WorkingDaySet { wednesday: true, ..set },
        Some(Weekday::Thursday) => WorkingDaySet { thursday: true, ..set },
        Some(Weekday::Friday) => WorkingDaySet { friday: true, ..set },
        Some(Weekday::Saturday) => WorkingDaySet { saturday: true, ..set },
        Some(Weekday::Sunday) => WorkingDaySet { sunday: true, ..set },
        None => set,
    }
}

/// Counts the non-empty trimmed tokens of a comma-separated working-day
/// list, whether or not they name a weekday. This deliberately differs from
/// [`parse_working_days`], which keeps only recognized names.
pub fn count_working_days(s: &str) -> (count: u64)
    requires
        s@.len() < usize::MAX,
    ensures
        count == count_working_days_math(s@),
    decreases s@.len(),
{
    proof {
        lemma_count_working_days_bound(s@);
    }
    let n = s.unicode_len();
    let i = find_first_comma(s);
    proof {
        lemma_first_comma_in_range(s@);
    }
    if i >= n {
        proof {
            assert(s@.subrange(0, n as int) =~= s@);
        }
        let (lo, hi) = trimmed_bounds(s, 0, n);
        if hi > lo {
            1
        } else {
            0
        }
    } else {
        let (lo, hi) = trimmed_bounds(s, 0, i);
        let rest = s.substring_char(i + 1, n);
        let rest_count = count_working_days(rest);
        if hi > lo {
            rest_count + 1
        } else {
            rest_count
        }
    }
}

/// A comma-separated list never counts more tokens than characters plus one.
proof fn lemma_count_working_days_bound(s: Seq<char>)
    ensures
        0 <= count_working_days_math(s) <= s.len() + 1,
    decreases s.len(),
{
    let i = first_comma_index(s) as int;
    lemma_first_comma_in_range(s);
    if i < s.len() {
        lemma_count_working_days_bound(s.subrange(i + 1, s.len() as int));
    }
}

/// Whether a date is one of a person's working days; on the empty set this
/// is false for every date.
pub fn is_working_day(date: &Date, set: &WorkingDaySet) -> (working: bool)
    requires
        date.valid(),
    ensures
        working == set.contains(weekday_of_index_math(date.index_math())),
        *set == wd_empty() ==> !working,
{
    let weekday = date.weekday();
    match weekday {
        Weekday::Monday => set.monday,
        Weekday::Tuesday => set.tuesday,
        Weekday::Wednesday => set.wednesday,
        Weekday::Thursday => set.thursday,
        Weekday::Friday => set.friday,
        Weekday::Saturday => set.saturday,
        Weekday::Sunday => set.sunday,
    }
}

/// No weekday is a member of the empty working-day set.
pub proof fn lemma_empty_set_has_no_working_day(weekday: Weekday)
    ensures
        !wd_empty().contains(weekday),
{
}

} // verus!
