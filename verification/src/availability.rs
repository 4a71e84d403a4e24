//! Net availability: a person's working-hour budget for a planning period
//! after absences, country holidays and job overhead tasks are deducted.

use vstd::prelude::*;
use vstd::arithmetic::div_mod::lemma_fundamental_div_mod;
use vstd::arithmetic::div_mod::lemma_mod_bound;
use vstd::arithmetic::div_mod::lemma_div_is_ordered;
use vstd::arithmetic::div_mod::lemma_div_nonincreasing;
use vstd::arithmetic::div_mod::lemma_div_pos_is_pos;
use vstd::arithmetic::div_mod::lemma_div_multiples_vanish;
use vstd::arithmetic::mul::lemma_mul_inequality;
use vstd::arithmetic::mul::lemma_mul_nonnegative;
use vstd::string::StrSliceExecFns;

use crate::calendar::WorkingDaySet;
use crate::calendar::count_working_days;
use crate::calendar::count_working_days_math;
use crate::calendar::parse_working_days;
use crate::calendar::working_day_set_math;
use crate::dates::Date;
use crate::dates::MAX_DAY_INDEX;
use crate::dates::parse_date;
use crate::dates::parse_date_math;
use crate::dates::weekday_of_index_math;
use crate::dates::weekday_of_index;
use crate::hours::FACTOR_SCALE;
use crate::hours::available_hours_math;
use crate::hours::calculate_available_hours;
use crate::models::Absence;
use crate::models::EngineError;
use crate::models::Holiday;
use crate::models::OverheadTask;
use crate::models::Person;
use crate::models::PlanningPeriod;

verus! {

/// Net available hours for one person and period, decomposed into the
/// quantities the deduction walked through. All hour fields are milli-hours.
#[derive(Clone, Copy, PartialEq, Eq, Structural, Debug)]
pub struct Breakdown {
    pub available_hours_mh: u64,
    pub base_hours_mh: u64,
    pub absence_days: u64,
    pub absence_hours_mh: u64,
    pub holiday_days: u64,
    pub holiday_hours_mh: u64,
    pub overhead_hours_mh: u64,
    pub optional_overhead_hours_mh: u64,
}

pub open spec fn date_parses(s: Seq<char>) -> bool {
    parse_date_math(s) is Some
}

/// Day index of a date string; meaningful only when the string parses.
pub open spec fn date_index_of(s: Seq<char>) -> int {
    parse_date_math(s).unwrap().index_math()
}

pub open spec fn period_parses(period: PlanningPeriod) -> bool {
    date_parses(period.start_date@) && date_parses(period.end_date@)
}

/// Planning periods run forward: start on or before end. Holds vacuously of
/// a period whose dates do not parse.
pub open spec fn period_ordered(period: PlanningPeriod) -> bool {
    period_parses(period) ==> date_index_of(period.start_date@) <= date_index_of(
        period.end_date@,
    )
}

/// Days in the inclusive span of the period.
pub open spec fn total_days_math(period: PlanningPeriod) -> int {
    date_index_of(period.end_date@) - date_index_of(period.start_date@) + 1
}

pub open spec fn absences_parse(absences: Seq<Absence>) -> bool {
    forall|k: int|
        0 <= k < absences.len() ==> date_parses(#[trigger] absences[k].start_date@) && date_parses(
            absences[k].end_date@,
        )
}

pub open spec fn holidays_parse(holidays: Seq<Holiday>) -> bool {
    forall|k: int|
        0 <= k < holidays.len() ==> date_parses(#[trigger] holidays[k].start_date@) && date_parses(
            holidays[k].end_date@,
        )
}

/// Every date string the computation reads parses: the period's bounds, the
/// absences' bounds, and — only when the person has a country — the
/// holidays' bounds.
pub open spec fn availability_dates_parse(
    person: Person,
    period: PlanningPeriod,
    absences: Seq<Absence>,
    holidays: Seq<Holiday>,
) -> bool {
    &&& period_parses(period)
    &&& absences_parse(absences)
    &&& person.country_id is Some ==> holidays_parse(holidays)
}

/// Caller-supplied absence day counts summed as given.
pub open spec fn total_absence_days_math(absences: Seq<Absence>) -> int
    decreases absences.len(),
{
    if absences.len() == 0 {
        0
    } else {
        total_absence_days_math(absences.drop_last()) + absences.last().days
    }
}

/// Milli-hours of one nominal working day: the weekly hours spread over the
/// counted working-day tokens; zero when there are none.
pub open spec fn hours_per_day_math(wdc: int, weekly_mh: int) -> int {
    if wdc == 0 {
        0
    } else {
        weekly_mh / wdc
    }
}

/// Base capacity: fractional weeks times working days per week times hours
/// per day, floored once at the end.
pub open spec fn base_hours_math(td: int, wdc: int, weekly_mh: int) -> int {
    td * wdc * hours_per_day_math(wdc, weekly_mh) / 7
}

/// Whether day `d` falls inside one of the person's absences.
pub open spec fn in_absence_math(d: int, absences: Seq<Absence>) -> bool {
    exists|k: int|
        0 <= k < absences.len() && date_index_of(#[trigger] absences[k].start_date@) <= d
            <= date_index_of(absences[k].end_date@)
}

/// A holiday day is deducted only when it is a working day for this person
/// and no absence already covers it.
pub open spec fn countable_holiday_day(d: int, set: WorkingDaySet, absences: Seq<Absence>) -> bool {
    set.contains(weekday_of_index_math(d)) && !in_absence_math(d, absences)
}

/// Deductible days in the inclusive index range `[lo, hi]`.
pub open spec fn countable_days_in_range(
    lo: int,
    hi: int,
    set: WorkingDaySet,
    absences: Seq<Absence>,
) -> int
    decreases hi + 1 - lo,
{
    if lo > hi {
        0
    } else {
        (if countable_holiday_day(lo, set, absences) {
            1int
        } else {
            0int
        }) + countable_days_in_range(lo + 1, hi, set, absences)
    }
}

pub open spec fn max_int(a: int, b: int) -> int {
    if a >= b {
        a
    } else {
        b
    }
}

pub open spec fn min_int(a: int, b: int) -> int {
    if a <= b {
        a
    } else {
        b
    }
}

/// Deductible days contributed by one holiday: its overlap with the period,
/// walked day by day.
pub open spec fn holiday_days_math(
    h: Holiday,
    ps: int,
    pe: int,
    set: WorkingDaySet,
    absences: Seq<Absence>,
) -> int {
    countable_days_in_range(
        max_int(date_index_of(h.start_date@), ps),
        min_int(date_index_of(h.end_date@), pe),
        set,
        absences,
    )
}

/// Deductible days summed over all holidays.
pub open spec fn total_holiday_days_math(
    holidays: Seq<Holiday>,
    ps: int,
    pe: int,
    set: WorkingDaySet,
    absences: Seq<Absence>,
) -> int
    decreases holidays.len(),
{
    if holidays.len() == 0 {
        0
    } else {
        total_holiday_days_math(holidays.drop_last(), ps, pe, set, absences)
            + holiday_days_math(holidays.last(), ps, pe, set, absences)
    }
}

/// Milli-hours one overhead task costs over the period: weekly efforts scale
/// with fractional weeks, daily efforts with working days, anything else
/// costs nothing.
pub open spec fn task_hours_math(t: OverheadTask, td: int, wdc: int) -> int {
    if t.effort_period@ == "weekly"@ {
        t.effort_hours_mh * td / 7
    } else if t.effort_period@ == "daily"@ {
        t.effort_hours_mh * td * wdc / 7
    } else {
        0
    }
}

/// An optional task's weight; half when unspecified.
pub open spec fn task_weight_pm(t: OverheadTask) -> int {
    match t.optional_weight_pm {
        Some(w) => w as int,
        None => 500,
    }
}

/// Required overhead, deducted at full weight.
pub open spec fn required_overhead_total_math(ts: Seq<OverheadTask>, td: int, wdc: int) -> int
    decreases ts.len(),
{
    if ts.len() == 0 {
        0
    } else {
        required_overhead_total_math(ts.drop_last(), td, wdc) + if !ts.last().is_optional {
            task_hours_math(ts.last(), td, wdc)
        } else {
            0
        }
    }
}

/// Optional overhead at face value, reported for display only.
pub open spec fn optional_overhead_total_math(ts: Seq<OverheadTask>, td: int, wdc: int) -> int
    decreases ts.len(),
{
    if ts.len() == 0 {
        0
    } else {
        optional_overhead_total_math(ts.drop_last(), td, wdc) + if ts.last().is_optional {
            task_hours_math(ts.last(), td, wdc)
        } else {
            0
        }
    }
}

/// Optional overhead weighted per task, the figure actually deducted.
pub open spec fn weighted_optional_total_math(ts: Seq<OverheadTask>, td: int, wdc: int) -> int
    decreases ts.len(),
{
    if ts.len() == 0 {
        0
    } else {
        weighted_optional_total_math(ts.drop_last(), td, wdc) + if ts.last().is_optional {
            task_hours_math(ts.last(), td, wdc) * task_weight_pm(ts.last()) / FACTOR_SCALE as int
        } else {
            0
        }
    }
}

/// Semantic input assumptions: absence day counts are not negative, task
/// weights are probabilities, and the period runs forward.
pub open spec fn availability_inputs_valid(
    period: PlanningPeriod,
    absences: Seq<Absence>,
    tasks: Seq<OverheadTask>,
) -> bool {
    &&& period_ordered(period)
    &&& forall|k: int| 0 <= k < absences.len() ==> 0 <= (#[trigger] absences[k]).days
    &&& forall|k: int|
        0 <= k < tasks.len() ==> match (#[trigger] tasks[k]).optional_weight_pm {
            Some(w) => w <= FACTOR_SCALE,
            None => true,
        }
}

/// Machine limits: every summed quantity fits a `u64`. Trivially true of
/// real-world data; stated only so the fixed-point sums cannot overflow.
pub open spec fn availability_sums_fit(
    person: Person,
    period: PlanningPeriod,
    absences: Seq<Absence>,
    holidays: Seq<Holiday>,
    tasks: Seq<OverheadTask>,
) -> bool {
    availability_dates_parse(person, period, absences, holidays) ==> {
        let td = total_days_math(period);
        let wdc = count_working_days_math(person.working_days@);
        let hpd = hours_per_day_math(wdc, person.available_hours_per_week_mh as int);
        let set = working_day_set_math(person.working_days@);
        let ps = date_index_of(period.start_date@);
        let pe = date_index_of(period.end_date@);
        let holiday_days = total_holiday_days_math(holidays, ps, pe, set, absences);
        &&& total_absence_days_math(absences) <= u64::MAX
        &&& total_absence_days_math(absences) * hpd <= u64::MAX
        &&& (person.country_id is Some ==> holiday_days <= u64::MAX)
        &&& (person.country_id is Some ==> holiday_days * hpd <= u64::MAX)
        &&& required_overhead_total_math(tasks, td, wdc) <= u64::MAX
        &&& optional_overhead_total_math(tasks, td, wdc) <= u64::MAX
    }
}

/// Deducted holiday days: zero without a country.
pub open spec fn holiday_days_total_spec(
    person: Person,
    period: PlanningPeriod,
    absences: Seq<Absence>,
    holidays: Seq<Holiday>,
) -> int {
    if person.country_id is Some {
        total_holiday_days_math(
            holidays,
            date_index_of(period.start_date@),
            date_index_of(period.end_date@),
            working_day_set_math(person.working_days@),
            absences,
        )
    } else {
        0
    }
}

/// Net available hours for a person in a planning period.
///
/// The caller hands over the person's absences overlapping the period, the
/// holidays of the person's country overlapping the period (ignored when the
/// person has no country), and the overhead tasks of the person's jobs in
/// the period. Fails with `InvalidDate` exactly when one of the date strings
/// the computation reads does not parse; never returns a negative budget.
pub fn calculate_person_available_hours(
    person: &Person,
    period: &PlanningPeriod,
    absences: &Vec<Absence>,
    holidays: &Vec<Holiday>,
    tasks: &Vec<OverheadTask>,
) -> (result: Result<Breakdown, EngineError>)
    requires
        person.working_days@.len() < usize::MAX,
        availability_inputs_valid(*period, absences@, tasks@),
        availability_sums_fit(*person, *period, absences@, holidays@, tasks@),
    ensures
        match result {
            Ok(b) => {
                let td = total_days_math(*period);
                let wdc = count_working_days_math(person.working_days@);
                let weekly = person.available_hours_per_week_mh as int;
                let hpd = hours_per_day_math(wdc, weekly);
                &&& availability_dates_parse(*person, *period, absences@, holidays@)
                &&& b.base_hours_mh == base_hours_math(td, wdc, weekly)
                &&& b.absence_days == total_absence_days_math(absences@)
                &&& b.absence_hours_mh == total_absence_days_math(absences@) * hpd
                &&& b.holiday_days == holiday_days_total_spec(*person, *period, absences@, holidays@)
                &&& b.holiday_hours_mh == b.holiday_days * hpd
                &&& b.overhead_hours_mh == required_overhead_total_math(tasks@, td, wdc)
                &&& b.optional_overhead_hours_mh == optional_overhead_total_math(tasks@, td, wdc)
                &&& b.available_hours_mh == available_hours_math(
                    b.base_hours_mh as int,
                    b.absence_hours_mh as int,
                    b.holiday_hours_mh as int,
                    b.overhead_hours_mh as int,
                    weighted_optional_total_math(tasks@, td, wdc),
                    FACTOR_SCALE as int,
                )
                &&& b.available_hours_mh <= b.base_hours_mh
                &&& b.base_hours_mh <= (MAX_DAY_INDEX + 1) * weekly
            },
            Err(e) => {
                &&& e == EngineError::InvalidDate
                &&& !availability_dates_parse(*person, *period, absences@, holidays@)
            },
        },
{
    // Parse every date up front: period bounds, absence bounds, and, when
    // the person has a country, holiday bounds.
    let start = match parse_date(period.start_date.as_str()) {
        Some(d) => d,
        None => {
            return Err(EngineError::InvalidDate);
        },
    };
    let end = match parse_date(period.end_date.as_str()) {
        Some(d) => d,
        None => {
            return Err(EngineError::InvalidDate);
        },
    };
    let ps = start.day_index();
    let pe = end.day_index();
    let absence_ranges = match parse_absence_ranges(absences) {
        Some(v) => v,
        None => {
            return Err(EngineError::InvalidDate);
        },
    };
    let has_country = person.country_id.is_some();
    let holiday_ranges: Vec<(u64, u64)> = if has_country {
        match parse_holiday_ranges(holidays) {
            Some(v) => v,
            None => {
                return Err(EngineError::InvalidDate);
            },
        }
    } else {
        Vec::new()
    };

    let total_days: u64 = pe - ps + 1;
    let wdc: u64 = count_working_days(person.working_days.as_str());
    let weekly: u64 = person.available_hours_per_week_mh as u64;
    let hpd: u64 = if wdc == 0 {
        0
    } else {
        weekly / wdc
    };
    proof {
        if wdc != 0 {
            lemma_div_nonincreasing(weekly as int, wdc as int);
            lemma_div_pos_is_pos(weekly as int, wdc as int);
        }
    }

    let base_mh: u64 = base_hours(total_days, wdc, hpd, person.available_hours_per_week_mh);

    let absence_days: u64 = sum_absence_days(absences);
    proof {
        lemma_mul_nonnegative(absence_days as int, hpd as int);
    }
    let absence_mh: u64 = (absence_days as u128 * hpd as u128) as u64;

    let set = parse_working_days(person.working_days.as_str());
    let holiday_days: u64 = if has_country {
        count_total_holiday_days(
            &holiday_ranges,
            ps,
            pe,
            &set,
            &absence_ranges,
            Ghost(holidays@),
            Ghost(absences@),
        )
    } else {
        0
    };
    proof {
        lemma_mul_nonnegative(holiday_days as int, hpd as int);
    }
    let holiday_mh: u64 = (holiday_days as u128 * hpd as u128) as u64;

    let (required_mh, optional_mh, weighted_mh) = overhead_totals(tasks, total_days, wdc);

    let available_mh = calculate_available_hours(
        base_mh,
        absence_mh,
        holiday_mh,
        required_mh,
        weighted_mh,
        FACTOR_SCALE as u32,
    );
    proof {
        lemma_div_multiples_vanish(weighted_mh as int, FACTOR_SCALE as int);
    }

    Ok(
        Breakdown {
            available_hours_mh: available_mh,
            base_hours_mh: base_mh,
            absence_days,
            absence_hours_mh: absence_mh,
            holiday_days,
            holiday_hours_mh: holiday_mh,
            overhead_hours_mh: required_mh,
            optional_overhead_hours_mh: optional_mh,
        },
    )
}

/// Parses the date bounds of every absence into day-index ranges.
fn parse_absence_ranges(absences: &Vec<Absence>) -> (result: Option<Vec<(u64, u64)>>)
    ensures
        match result {
            Some(v) => {
                &&& absences_parse(absences@)
                &&& v@.len() == absences@.len()
                &&& forall|k: int|
                    0 <= k < v@.len() ==> (#[trigger] v@[k]).0 == date_index_of(
                        absences@[k].start_date@,
                    ) && v@[k].1 == date_index_of(absences@[k].end_date@) && v@[k].0
                        <= MAX_DAY_INDEX && v@[k].1 <= MAX_DAY_INDEX
            },
            None => !absences_parse(absences@),
        },
{
    let mut v: Vec<(u64, u64)> = Vec::new();
    let n = absences.len();
    let mut i: usize = 0;
    while i < n
        invariant
            0 <= i <= n,
            n == absences@.len(),
            v@.len() == i,
            forall|k: int|
                0 <= k < i ==> date_parses(#[trigger] absences@[k].start_date@) && date_parses(
                    absences@[k].end_date@,
                ),
            forall|k: int|
                0 <= k < i ==> (#[trigger] v@[k]).0 == date_index_of(absences@[k].start_date@)
                    && v@[k].1 == date_index_of(absences@[k].end_date@) && v@[k].0 <= MAX_DAY_INDEX
                    && v@[k].1 <= MAX_DAY_INDEX,
        decreases n - i,
    {
        let a = &absences[i];
        let s = match parse_date(a.start_date.as_str()) {
            Some(d) => d,
            None => {
                return None;
            },
        };
        let e = match parse_date(a.end_date.as_str()) {
            Some(d) => d,
            None => {
                return None;
            },
        };
        v.push((s.day_index(), e.day_index()));
        i = i + 1;
    }
    Some(v)
}

/// Parses the date bounds of every holiday into day-index ranges.
fn parse_holiday_ranges(holidays: &Vec<Holiday>) -> (result: Option<Vec<(u64, u64)>>)
    ensures
        match result {
            Some(v) => {
                &&& holidays_parse(holidays@)
                &&& v@.len() == holidays@.len()
                &&& forall|k: int|
                    0 <= k < v@.len() ==> (#[trigger] v@[k]).0 == date_index_of(
                        holidays@[k].start_date@,
                    ) && v@[k].1 == date_index_of(holidays@[k].end_date@) && v@[k].0
                        <= MAX_DAY_INDEX && v@[k].1 <= MAX_DAY_INDEX
            },
            None => !holidays_parse(holidays@),
        },
{
    let mut v: Vec<(u64, u64)> = Vec::new();
    let n = holidays.len();
    let mut i: usize = 0;
    while i < n
        invariant
            0 <= i <= n,
            n == holidays@.len(),
            v@.len() == i,
            forall|k: int|
                0 <= k < i ==> date_parses(#[trigger] holidays@[k].start_date@) && date_parses(
                    holidays@[k].end_date@,
                ),
            forall|k: int|
                0 <= k < i ==> (#[trigger] v@[k]).0 == date_index_of(holidays@[k].start_date@)
                    && v@[k].1 == date_index_of(holidays@[k].end_date@) && v@[k].0 <= MAX_DAY_INDEX
                    && v@[k].1 <= MAX_DAY_INDEX,
        decreases n - i,
    {
        let h = &holidays[i];
        let s = match parse_date(h.start_date.as_str()) {
            Some(d) => d,
            None => {
                return None;
            },
        };
        let e = match parse_date(h.end_date.as_str()) {
            Some(d) => d,
            None => {
                return None;
            },
        };
        v.push((s.day_index(), e.day_index()));
        i = i + 1;
    }
    Some(v)
}

/// Prefixes of the absence-day sum never exceed the whole when all counts
/// are non-negative.
proof fn lemma_absence_days_prefix(absences: Seq<Absence>, i: int)
    requires
        0 <= i <= absences.len(),
        forall|k: int| 0 <= k < absences.len() ==> 0 <= (#[trigger] absences[k]).days,
    ensures
        0 <= total_absence_days_math(absences.subrange(0, i)) <= total_absence_days_math(absences),
    decreases absences.len(),
{
    if i == absences.len() {
        assert(absences.subrange(0, i) =~= absences);
        lemma_absence_days_nonneg(absences);
    } else {
        lemma_absence_days_prefix(absences.drop_last(), i);
        assert(absences.drop_last().subrange(0, i) =~= absences.subrange(0, i));
    }
}

proof fn lemma_absence_days_nonneg(absences: Seq<Absence>)
    requires
        forall|k: int| 0 <= k < absences.len() ==> 0 <= (#[trigger] absences[k]).days,
    ensures
        0 <= total_absence_days_math(absences),
    decreases absences.len(),
{
    if absences.len() > 0 {
        lemma_absence_days_nonneg(absences.drop_last());
    }
}

/// Sums the caller-supplied `days` field of every absence.
fn sum_absence_days(absences: &Vec<Absence>) -> (total: u64)
    requires
        forall|k: int| 0 <= k < absences@.len() ==> 0 <= (#[trigger] absences@[k]).days,
        total_absence_days_math(absences@) <= u64::MAX,
    ensures
        total == total_absence_days_math(absences@),
{
    let mut acc: u64 = 0;
    let n = absences.len();
    let mut i: usize = 0;
    while i < n
        invariant
            0 <= i <= n,
            n == absences@.len(),
            forall|k: int| 0 <= k < n ==> 0 <= (#[trigger] absences@[k]).days,
            total_absence_days_math(absences@) <= u64::MAX,
            acc == total_absence_days_math(absences@.subrange(0, i as int)),
        decreases n - i,
    {
        proof {
            lemma_absence_days_prefix(absences@, i + 1);
            assert(absences@.subrange(0, i + 1).drop_last() =~= absences@.subrange(0, i as int));
        }
        acc = acc + absences[i].days as u64;
        i = i + 1;
    }
    proof {
        assert(absences@.subrange(0, n as int) =~= absences@);
    }
    acc
}

/// Whether day `d` falls inside one of the parsed absence ranges.
fn in_absence_ranges(d: u64, ranges: &Vec<(u64, u64)>, Ghost(absences): Ghost<Seq<Absence>>) -> (hit:
    bool)
    requires
        ranges@.len() == absences.len(),
        forall|k: int|
            0 <= k < ranges@.len() ==> (#[trigger] ranges@[k]).0 == date_index_of(
                absences[k].start_date@,
            ) && ranges@[k].1 == date_index_of(absences[k].end_date@),
    ensures
        hit == in_absence_math(d as int, absences),
{
    let n = ranges.len();
    let mut i: usize = 0;
    while i < n
        invariant
            0 <= i <= n,
            n == ranges@.len(),
            ranges@.len() == absences.len(),
            forall|k: int|
                0 <= k < ranges@.len() ==> (#[trigger] ranges@[k]).0 == date_index_of(
                    absences[k].start_date@,
                ) && ranges@[k].1 == date_index_of(absences[k].end_date@),
            forall|k: int|
                0 <= k < i ==> !(date_index_of(#[trigger] absences[k].start_date@) <= d as int
                    <= date_index_of(absences[k].end_date@)),
        decreases n - i,
    {
        let (lo, hi) = ranges[i];
        if lo <= d && d <= hi {
            return true;
        }
        i = i + 1;
    }
    false
}

/// Checks whether the weekday of day index `d` is in the working-day set.
fn working_day_at_index(set: &WorkingDaySet, index: u64) -> (working: bool)
    ensures
        working == set.contains(weekday_of_index_math(index as int)),
{
    let weekday = weekday_of_index(index);
    match weekday {
        crate::dates::Weekday::Monday => set.monday,
        crate::dates::Weekday::Tuesday => set.tuesday,
        crate::dates::Weekday::Wednesday => set.wednesday,
        crate::dates::Weekday::Thursday => set.thursday,
        crate::dates::Weekday::Friday => set.friday,
        crate::dates::Weekday::Saturday => set.saturday,
        crate::dates::Weekday::Sunday => set.sunday,
    }
}

/// Walks the overlap of one holiday range with the period and counts the
/// days that are working days not already covered by an absence.
fn count_holiday_overlap_days(
    h_start: u64,
    h_end: u64,
    ps: u64,
    pe: u64,
    set: &WorkingDaySet,
    ranges: &Vec<(u64, u64)>,
    Ghost(absences): Ghost<Seq<Absence>>,
) -> (count: u64)
    requires
        pe <= MAX_DAY_INDEX,
        h_end <= MAX_DAY_INDEX,
        ranges@.len() == absences.len(),
        forall|k: int|
            0 <= k < ranges@.len() ==> (#[trigger] ranges@[k]).0 == date_index_of(
                absences[k].start_date@,
            ) && ranges@[k].1 == date_index_of(absences[k].end_date@),
    ensures
        count == countable_days_in_range(
            max_int(h_start as int, ps as int),
            min_int(h_end as int, pe as int),
            *set,
            absences,
        ),
        count <= MAX_DAY_INDEX + 1,
{
    let lo: u64 = if h_start >= ps {
        h_start
    } else {
        ps
    };
    let hi: u64 = if h_end <= pe {
        h_end
    } else {
        pe
    };
    if lo > hi {
        return 0;
    }
    let mut count: u64 = 0;
    let mut d: u64 = lo;
    while d <= hi
        invariant
            lo <= d <= hi + 1,
            hi <= MAX_DAY_INDEX,
            ranges@.len() == absences.len(),
            forall|k: int|
                0 <= k < ranges@.len() ==> (#[trigger] ranges@[k]).0 == date_index_of(
                    absences[k].start_date@,
                ) && ranges@[k].1 == date_index_of(absences[k].end_date@),
            count + countable_days_in_range(d as int, hi as int, *set, absences)
                == countable_days_in_range(lo as int, hi as int, *set, absences),
            count <= d - lo,
        decreases hi + 1 - d,
    {
        let working = working_day_at_index(set, d);
        if working {
            let absent = in_absence_ranges(d, ranges, Ghost(absences));
            if !absent {
                count = count + 1;
            }
        }
        d = d + 1;
    }
    proof {
        lemma_countable_days_nonneg(hi as int + 1, hi as int, *set, absences);
    }
    count
}

proof fn lemma_countable_days_nonneg(lo: int, hi: int, set: WorkingDaySet, absences: Seq<Absence>)
    ensures
        0 <= countable_days_in_range(lo, hi, set, absences),
    decreases hi + 1 - lo,
{
    if lo <= hi {
        lemma_countable_days_nonneg(lo + 1, hi, set, absences);
    }
}

/// Holiday-day prefix sums never exceed the whole.
proof fn lemma_holiday_days_prefix(
    holidays: Seq<Holiday>,
    i: int,
    ps: int,
    pe: int,
    set: WorkingDaySet,
    absences: Seq<Absence>,
)
    requires
        0 <= i <= holidays.len(),
    ensures
        0 <= total_holiday_days_math(holidays.subrange(0, i), ps, pe, set, absences)
            <= total_holiday_days_math(holidays, ps, pe, set, absences),
    decreases holidays.len(),
{
    if i == holidays.len() {
        assert(holidays.subrange(0, i) =~= holidays);
        lemma_holiday_days_nonneg(holidays, ps, pe, set, absences);
    } else {
        lemma_holiday_days_prefix(holidays.drop_last(), i, ps, pe, set, absences);
        assert(holidays.drop_last().subrange(0, i) =~= holidays.subrange(0, i));
        lemma_countable_days_nonneg(
            max_int(date_index_of(holidays.last().start_date@), ps),
            min_int(date_index_of(holidays.last().end_date@), pe),
            set,
            absences,
        );
    }
}

proof fn lemma_holiday_days_nonneg(
    holidays: Seq<Holiday>,
    ps: int,
    pe: int,
    set: WorkingDaySet,
    absences: Seq<Absence>,
)
    ensures
        0 <= total_holiday_days_math(holidays, ps, pe, set, absences),
    decreases holidays.len(),
{
    if holidays.len() > 0 {
        lemma_holiday_days_nonneg(holidays.drop_last(), ps, pe, set, absences);
        lemma_countable_days_nonneg(
            max_int(date_index_of(holidays.last().start_date@), ps),
            min_int(date_index_of(holidays.last().end_date@), pe),
            set,
            absences,
        );
    }
}

/// Sums deductible holiday days over all holidays.
fn count_total_holiday_days(
    holiday_ranges: &Vec<(u64, u64)>,
    ps: u64,
    pe: u64,
    set: &WorkingDaySet,
    absence_ranges: &Vec<(u64, u64)>,
    Ghost(holidays): Ghost<Seq<Holiday>>,
    Ghost(absences): Ghost<Seq<Absence>>,
) -> (total: u64)
    requires
        pe <= MAX_DAY_INDEX,
        holiday_ranges@.len() == holidays.len(),
        forall|k: int|
            0 <= k < holiday_ranges@.len() ==> (#[trigger] holiday_ranges@[k]).0 == date_index_of(
                holidays[k].start_date@,
            ) && holiday_ranges@[k].1 == date_index_of(holidays[k].end_date@)
                && holiday_ranges@[k].1 <= MAX_DAY_INDEX,
        absence_ranges@.len() == absences.len(),
        forall|k: int|
            0 <= k < absence_ranges@.len() ==> (#[trigger] absence_ranges@[k]).0 == date_index_of(
                absences[k].start_date@,
            ) && absence_ranges@[k].1 == date_index_of(absences[k].end_date@),
        total_holiday_days_math(holidays, ps as int, pe as int, working_set(set), absences)
            <= u64::MAX,
    ensures
        total == total_holiday_days_math(holidays, ps as int, pe as int, working_set(set), absences),
{
    let n = holiday_ranges.len();
    let mut acc: u64 = 0;
    let mut i: usize = 0;
    while i < n
        invariant
            0 <= i <= n,
            n == holiday_ranges@.len(),
            pe <= MAX_DAY_INDEX,
            holiday_ranges@.len() == holidays.len(),
            forall|k: int|
                0 <= k < holiday_ranges@.len() ==> (#[trigger] holiday_ranges@[k]).0
                    == date_index_of(holidays[k].start_date@) && holiday_ranges@[k].1
                    == date_index_of(holidays[k].end_date@) && holiday_ranges@[k].1
                    <= MAX_DAY_INDEX,
            absence_ranges@.len() == absences.len(),
            forall|k: int|
                0 <= k < absence_ranges@.len() ==> (#[trigger] absence_ranges@[k]).0
                    == date_index_of(absences[k].start_date@) && absence_ranges@[k].1
                    == date_index_of(absences[k].end_date@),
            total_holiday_days_math(holidays, ps as int, pe as int, working_set(set), absences)
                <= u64::MAX,
            acc == total_holiday_days_math(
                holidays.subrange(0, i as int),
                ps as int,
                pe as int,
                working_set(set),
                absences,
            ),
        decreases n - i,
    {
        let (hs, he) = holiday_ranges[i];
        let c = count_holiday_overlap_days(hs, he, ps, pe, set, absence_ranges, Ghost(absences));
        proof {
            lemma_holiday_days_prefix(
                holidays,
                i + 1,
                ps as int,
                pe as int,
                working_set(set),
                absences,
            );
            assert(holidays.subrange(0, i + 1).drop_last() =~= holidays.subrange(0, i as int));
        }
        acc = acc + c;
        i = i + 1;
    }
    proof {
        assert(holidays.subrange(0, n as int) =~= holidays);
    }
    acc
}

/// The working-day set a reference points at.
pub open spec fn working_set(set: &WorkingDaySet) -> WorkingDaySet {
    *set
}

/// Overhead totals never fall below zero, and prefixes never exceed the
/// whole.
proof fn lemma_overhead_prefix(ts: Seq<OverheadTask>, i: int, td: int, wdc: int)
    requires
        0 <= i <= ts.len(),
        td >= 0,
        wdc >= 0,
        forall|k: int|
            0 <= k < ts.len() ==> match (#[trigger] ts[k]).optional_weight_pm {
                Some(w) => w <= FACTOR_SCALE,
                None => true,
            },
    ensures
        0 <= required_overhead_total_math(ts.subrange(0, i), td, wdc)
            <= required_overhead_total_math(ts, td, wdc),
        0 <= optional_overhead_total_math(ts.subrange(0, i), td, wdc)
            <= optional_overhead_total_math(ts, td, wdc),
        0 <= weighted_optional_total_math(ts.subrange(0, i), td, wdc)
            <= weighted_optional_total_math(ts, td, wdc),
        weighted_optional_total_math(ts.subrange(0, i), td, wdc)
            <= optional_overhead_total_math(ts.subrange(0, i), td, wdc),
    decreases ts.len(),
{
    if i == ts.len() {
        assert(ts.subrange(0, i) =~= ts);
        lemma_overhead_nonneg(ts, td, wdc);
    } else {
        lemma_overhead_prefix(ts.drop_last(), i, td, wdc);
        assert(ts.drop_last().subrange(0, i) =~= ts.subrange(0, i));
        lemma_task_hours_nonneg(ts.last(), td, wdc);
    }
}

proof fn lemma_task_hours_nonneg(t: OverheadTask, td: int, wdc: int)
    requires
        td >= 0,
        wdc >= 0,
    ensures
        0 <= task_hours_math(t, td, wdc),
        (match t.optional_weight_pm {
            Some(w) => w <= FACTOR_SCALE,
            None => true,
        }) ==> 0 <= task_hours_math(t, td, wdc) * task_weight_pm(t) / FACTOR_SCALE as int
            <= task_hours_math(t, td, wdc),
{
    lemma_mul_nonnegative(t.effort_hours_mh as int, td);
    lemma_mul_nonnegative(t.effort_hours_mh as int * td, wdc);
    lemma_div_pos_is_pos(t.effort_hours_mh as int * td, 7);
    lemma_div_pos_is_pos(t.effort_hours_mh as int * td * wdc, 7);
    let h = task_hours_math(t, td, wdc);
    let w = task_weight_pm(t);
    if (match t.optional_weight_pm {
        Some(w0) => w0 <= FACTOR_SCALE,
        None => true,
    }) {
        lemma_mul_nonnegative(h, w);
        lemma_div_pos_is_pos(h * w, FACTOR_SCALE as int);
        lemma_mul_inequality(w, FACTOR_SCALE as int, h);
        assert(h * w == w * h) by (nonlinear_arith);
        assert(FACTOR_SCALE as int * h == h * FACTOR_SCALE as int) by (nonlinear_arith);
        lemma_div_is_ordered(h * w, h * FACTOR_SCALE as int, FACTOR_SCALE as int);
        lemma_div_multiples_vanish(h, FACTOR_SCALE as int);
    }
}

proof fn lemma_overhead_nonneg(ts: Seq<OverheadTask>, td: int, wdc: int)
    requires
        td >= 0,
        wdc >= 0,
        forall|k: int|
            0 <= k < ts.len() ==> match (#[trigger] ts[k]).optional_weight_pm {
                Some(w) => w <= FACTOR_SCALE,
                None => true,
            },
    ensures
        0 <= required_overhead_total_math(ts, td, wdc),
        0 <= optional_overhead_total_math(ts, td, wdc),
        0 <= weighted_optional_total_math(ts, td, wdc) <= optional_overhead_total_math(
            ts,
            td,
            wdc,
        ),
    decreases ts.len(),
{
    if ts.len() > 0 {
        lemma_overhead_nonneg(ts.drop_last(), td, wdc);
        lemma_task_hours_nonneg(ts.last(), td, wdc);
    }
}

/// Computes one task's milli-hour cost over the period.
fn task_hours(t: &OverheadTask, td: u64, wdc: u64) -> (hours: u128)
    requires
        td <= MAX_DAY_INDEX + 1,
    ensures
        hours == task_hours_math(*t, td as int, wdc as int),
{
    proof {
        crate::hours::lemma_mul_le(t.effort_hours_mh as int, u32::MAX as int, td as int, MAX_DAY_INDEX as int + 1);
        crate::hours::lemma_mul_le(
            t.effort_hours_mh as int * td as int,
            u32::MAX as int * (MAX_DAY_INDEX as int + 1),
            wdc as int,
            u64::MAX as int,
        );
    }
    let weekly: String = "weekly".to_owned();
    let daily: String = "daily".to_owned();
    if t.effort_period == weekly {
        (t.effort_hours_mh as u128 * td as u128) / 7
    } else if t.effort_period == daily {
        (t.effort_hours_mh as u128 * td as u128 * wdc as u128) / 7
    } else {
        0
    }
}

/// Sums required, raw-optional and weighted-optional overhead over the
/// person's tasks.
fn overhead_totals(tasks: &Vec<OverheadTask>, td: u64, wdc: u64) -> (totals: (u64, u64, u64))
    requires
        td <= MAX_DAY_INDEX + 1,
        forall|k: int|
            0 <= k < tasks@.len() ==> match (#[trigger] tasks@[k]).optional_weight_pm {
                Some(w) => w <= FACTOR_SCALE,
                None => true,
            },
        required_overhead_total_math(tasks@, td as int, wdc as int) <= u64::MAX,
        optional_overhead_total_math(tasks@, td as int, wdc as int) <= u64::MAX,
    ensures
        totals.0 == required_overhead_total_math(tasks@, td as int, wdc as int),
        totals.1 == optional_overhead_total_math(tasks@, td as int, wdc as int),
        totals.2 == weighted_optional_total_math(tasks@, td as int, wdc as int),
        totals.2 <= totals.1,
{
    let mut required: u64 = 0;
    let mut optional: u64 = 0;
    let mut weighted: u64 = 0;
    let n = tasks.len();
    let mut i: usize = 0;
    while i < n
        invariant
            0 <= i <= n,
            n == tasks@.len(),
            td <= MAX_DAY_INDEX + 1,
            forall|k: int|
                0 <= k < tasks@.len() ==> match (#[trigger] tasks@[k]).optional_weight_pm {
                    Some(w) => w <= FACTOR_SCALE,
                    None => true,
                },
            required_overhead_total_math(tasks@, td as int, wdc as int) <= u64::MAX,
            optional_overhead_total_math(tasks@, td as int, wdc as int) <= u64::MAX,
            required == required_overhead_total_math(tasks@.subrange(0, i as int), td as int, wdc as int),
            optional == optional_overhead_total_math(tasks@.subrange(0, i as int), td as int, wdc as int),
            weighted == weighted_optional_total_math(tasks@.subrange(0, i as int), td as int, wdc as int),
        decreases n - i,
    {
        let t = &tasks[i];
        let hours: u128 = task_hours(t, td, wdc);
        proof {
            lemma_overhead_prefix(tasks@, i + 1, td as int, wdc as int);
            lemma_overhead_prefix(tasks@, i as int, td as int, wdc as int);
            assert(tasks@.subrange(0, i + 1).drop_last() =~= tasks@.subrange(0, i as int));
            assert(tasks@.subrange(0, i + 1).last() == tasks@[i as int]);
            lemma_task_hours_nonneg(tasks@[i as int], td as int, wdc as int);
        }
        if t.is_optional {
            let weight: u32 = match t.optional_weight_pm {
                Some(w) => w,
                None => 500,
            };
            optional = optional + hours as u64;
            weighted = weighted + ((hours * weight as u128) / FACTOR_SCALE as u128) as u64;
        } else {
            required = required + hours as u64;
        }
        i = i + 1;
    }
    proof {
        assert(tasks@.subrange(0, n as int) =~= tasks@);
        lemma_overhead_prefix(tasks@, n as int, td as int, wdc as int);
    }
    (required, optional, weighted)
}

/// Base capacity from the span, the counted working days and the hours per
/// day.
fn base_hours(td: u64, wdc: u64, hpd: u64, weekly_mh: u32) -> (base: u64)
    requires
        td <= MAX_DAY_INDEX + 1,
        hpd == hours_per_day_math(wdc as int, weekly_mh as int),
    ensures
        base == base_hours_math(td as int, wdc as int, weekly_mh as int),
        base <= (MAX_DAY_INDEX + 1) * weekly_mh,
{
    proof {
        lemma_base_hours_bound(td as int, wdc as int, weekly_mh as int);
        if wdc != 0 {
            lemma_div_nonincreasing(weekly_mh as int, wdc as int);
            lemma_div_pos_is_pos(weekly_mh as int, wdc as int);
        }
        crate::hours::lemma_mul_le(td as int, MAX_DAY_INDEX as int + 1, wdc as int, u64::MAX as int);
        crate::hours::lemma_mul_le(
            td as int * wdc as int,
            (MAX_DAY_INDEX as int + 1) * u64::MAX as int,
            hpd as int,
            u32::MAX as int,
        );
        crate::hours::lemma_mul_le(
            MAX_DAY_INDEX as int + 1,
            MAX_DAY_INDEX as int + 1,
            weekly_mh as int,
            u32::MAX as int,
        );
    }
    ((td as u128 * wdc as u128 * hpd as u128) / 7) as u64
}

/// Base hours stay under the span times the weekly hours.
pub proof fn lemma_base_hours_bound(td: int, wdc: int, weekly_mh: int)
    requires
        0 <= td <= MAX_DAY_INDEX + 1,
        0 <= wdc,
        0 <= weekly_mh,
    ensures
        0 <= base_hours_math(td, wdc, weekly_mh) <= (MAX_DAY_INDEX + 1) * weekly_mh,
        td * wdc * hours_per_day_math(wdc, weekly_mh) <= td * weekly_mh,
{
    let hpd = hours_per_day_math(wdc, weekly_mh);
    if wdc == 0 {
        assert(td * wdc == 0) by (nonlinear_arith)
            requires
                wdc == 0,
        ;
        lemma_mul_nonnegative(td, weekly_mh);
    } else {
        lemma_fundamental_div_mod(weekly_mh, wdc);
        lemma_mod_bound(weekly_mh, wdc);
        assert(wdc * hpd <= weekly_mh);
        assert(td * wdc * hpd == td * (wdc * hpd)) by (nonlinear_arith);
        lemma_mul_nonnegative(wdc, hpd);
        lemma_mul_nonnegative(td, wdc * hpd);
        lemma_mul_inequality(wdc * hpd, weekly_mh, td);
        assert(td * (wdc * hpd) == (wdc * hpd) * td) by (nonlinear_arith);
        assert(td * weekly_mh == weekly_mh * td) by (nonlinear_arith);
    }
    lemma_div_pos_is_pos(td * wdc * hpd, 7);
    lemma_div_nonincreasing(td * wdc * hpd, 7);
    lemma_mul_nonnegative(td, weekly_mh);
    lemma_mul_inequality(td, MAX_DAY_INDEX as int + 1, weekly_mh);
    assert(td * weekly_mh == weekly_mh * td) by (nonlinear_arith);
    assert((MAX_DAY_INDEX + 1) * weekly_mh == weekly_mh * (MAX_DAY_INDEX + 1)) by (nonlinear_arith);
    lemma_mul_inequality(td, MAX_DAY_INDEX as int + 1, weekly_mh);
}

} // verus!
