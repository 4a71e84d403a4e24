//! Referential validation the command layer runs before writing entities:
//! assignment dates inside their period, holiday ranges that run forward and
//! do not collide, and the duplicate filter of the holiday import.

use vstd::prelude::*;
use vstd::string::StrSliceExecFns;

use crate::availability::date_index_of;
use crate::availability::date_parses;
use crate::dates::parse_date;
use crate::models::Holiday;
use crate::models::NagerDateHoliday;

verus! {

/// Why an assignment's dates were rejected.
#[derive(Clone, Copy, PartialEq, Eq, Structural, Debug)]
pub enum AssignmentDateError {
    /// A date string is not a valid calendar date.
    InvalidDate,
    /// The start date falls outside the planning period.
    StartOutsidePeriod,
    /// The end date falls outside the planning period.
    EndOutsidePeriod,
    /// The start date comes after the end date.
    StartAfterEnd,
}

/// The date an assignment bound defaults to: the given one, or the period's.
pub open spec fn defaulted_date(given: Option<String>, period_bound: Seq<char>) -> Seq<char> {
    match given {
        Some(d) => d@,
        None => period_bound,
    }
}

/// Whether a pair of defaulted assignment dates is accepted against the
/// period: every date parses, both lie inside the period, and they run
/// forward.
pub open spec fn assignment_dates_accepted(
    period_start: Seq<char>,
    period_end: Seq<char>,
    start: Seq<char>,
    end: Seq<char>,
) -> bool {
    &&& date_parses(period_start)
    &&& date_parses(period_end)
    &&& date_parses(start)
    &&& date_parses(end)
    &&& date_index_of(period_start) <= date_index_of(start) <= date_index_of(period_end)
    &&& date_index_of(period_start) <= date_index_of(end) <= date_index_of(period_end)
    &&& date_index_of(start) <= date_index_of(end)
}

/// Validates an assignment's dates against its planning period, defaulting a
/// missing bound to the period's bound. Returns the defaulted dates, or the
/// first failing check: unparseable dates, then a start outside the period,
/// then an end outside the period, then a reversed range.
pub fn validate_assignment_dates(
    period_start: &String,
    period_end: &String,
    start: &Option<String>,
    end: &Option<String>,
) -> (result: Result<(String, String), AssignmentDateError>)
    ensures
        match result {
            Ok((s, e)) => {
                &&& s@ == defaulted_date(*start, period_start@)
                &&& e@ == defaulted_date(*end, period_end@)
                &&& assignment_dates_accepted(period_start@, period_end@, s@, e@)
            },
            Err(AssignmentDateError::InvalidDate) => !(date_parses(period_start@) && date_parses(
                period_end@,
            ) && date_parses(defaulted_date(*start, period_start@)) && date_parses(
                defaulted_date(*end, period_end@),
            )),
            Err(e) => {
                let ps = date_index_of(period_start@);
                let pe = date_index_of(period_end@);
                let s = date_index_of(defaulted_date(*start, period_start@));
                let en = date_index_of(defaulted_date(*end, period_end@));
                &&& date_parses(period_start@)
                &&& date_parses(period_end@)
                &&& date_parses(defaulted_date(*start, period_start@))
                &&& date_parses(defaulted_date(*end, period_end@))
                &&& match e {
                    AssignmentDateError::StartOutsidePeriod => !(ps <= s <= pe),
                    AssignmentDateError::EndOutsidePeriod => ps <= s <= pe && !(ps <= en <= pe),
                    AssignmentDateError::StartAfterEnd => ps <= s <= pe && ps <= en <= pe && s
                        > en,
                    AssignmentDateError::InvalidDate => false,
                }
            },
        },
{
    let start_str: String = match start {
        Some(d) => d.clone(),
        None => period_start.clone(),
    };
    let end_str: String = match end {
        Some(d) => d.clone(),
        None => period_end.clone(),
    };
    let ps = match parse_date(period_start.as_str()) {
        Some(d) => d.day_index(),
        None => {
            return Err(AssignmentDateError::InvalidDate);
        },
    };
    let pe = match parse_date(period_end.as_str()) {
        Some(d) => d.day_index(),
        None => {
            return Err(AssignmentDateError::InvalidDate);
        },
    };
    let s = match parse_date(start_str.as_str()) {
        Some(d) => d.day_index(),
        None => {
            return Err(AssignmentDateError::InvalidDate);
        },
    };
    let e = match parse_date(end_str.as_str()) {
        Some(d) => d.day_index(),
        None => {
            return Err(AssignmentDateError::InvalidDate);
        },
    };
    if s < ps || s > pe {
        return Err(AssignmentDateError::StartOutsidePeriod);
    }
    if e < ps || e > pe {
        return Err(AssignmentDateError::EndOutsidePeriod);
    }
    if s > e {
        return Err(AssignmentDateError::StartAfterEnd);
    }
    Ok((start_str, end_str))
}

/// Whether two inclusive date ranges intersect:
/// `a.start <= b.end && a.end >= b.start`.
pub open spec fn ranges_overlap(a_start: int, a_end: int, b_start: int, b_end: int) -> bool {
    a_start <= b_end && a_end >= b_start
}

/// Whether some existing holiday's range intersects the given range;
/// existing holidays whose dates do not parse are skipped.
pub open spec fn holiday_overlap_exists(
    existing: Seq<Holiday>,
    start_idx: int,
    end_idx: int,
) -> bool {
    exists|k: int|
        0 <= k < existing.len() && date_parses(#[trigger] existing[k].start_date@) && date_parses(
            existing[k].end_date@,
        ) && ranges_overlap(
            date_index_of(existing[k].start_date@),
            date_index_of(existing[k].end_date@),
            start_idx,
            end_idx,
        )
}

/// Validates a new holiday's range and checks it against the country's
/// existing holidays: the range must parse, run forward, and intersect no
/// existing holiday. Returns whether an overlap was found.
pub fn check_holiday_range(start_date: &String, end_date: &String, existing: &Vec<Holiday>) -> (
    result: Result<bool, AssignmentDateError>)
    ensures
        match result {
            Ok(overlaps) => {
                &&& date_parses(start_date@)
                &&& date_parses(end_date@)
                &&& date_index_of(start_date@) <= date_index_of(end_date@)
                &&& overlaps == holiday_overlap_exists(
                    existing@,
                    date_index_of(start_date@),
                    date_index_of(end_date@),
                )
            },
            Err(AssignmentDateError::InvalidDate) => !(date_parses(start_date@) && date_parses(
                end_date@,
            )),
            Err(AssignmentDateError::StartAfterEnd) => {
                &&& date_parses(start_date@)
                &&& date_parses(end_date@)
                &&& date_index_of(start_date@) > date_index_of(end_date@)
            },
            Err(_) => false,
        },
{
    let s = match parse_date(start_date.as_str()) {
        Some(d) => d.day_index(),
        None => {
            return Err(AssignmentDateError::InvalidDate);
        },
    };
    let e = match parse_date(end_date.as_str()) {
        Some(d) => d.day_index(),
        None => {
            return Err(AssignmentDateError::InvalidDate);
        },
    };
    if s > e {
        return Err(AssignmentDateError::StartAfterEnd);
    }
    let n = existing.len();
    let mut i: usize = 0;
    while i < n
        invariant
            0 <= i <= n,
            n == existing@.len(),
            date_parses(start_date@),
            date_parses(end_date@),
            s == date_index_of(start_date@),
            e == date_index_of(end_date@),
            s <= e,
            forall|k: int|
                0 <= k < i ==> !(date_parses(#[trigger] existing@[k].start_date@) && date_parses(
                    existing@[k].end_date@,
                ) && ranges_overlap(
                    date_index_of(existing@[k].start_date@),
                    date_index_of(existing@[k].end_date@),
                    s as int,
                    e as int,
                )),
        decreases n - i,
    {
        let h = &existing[i];
        let hs = parse_date(h.start_date.as_str());
        let he = parse_date(h.end_date.as_str());
        match (hs, he) {
            (Some(hs), Some(he)) => {
                if hs.day_index() <= e && he.day_index() >= s {
                    proof {
                        assert(date_parses(existing@[i as int].start_date@) && date_parses(
                            existing@[i as int].end_date@,
                        ) && ranges_overlap(
                            date_index_of(existing@[i as int].start_date@),
                            date_index_of(existing@[i as int].end_date@),
                            s as int,
                            e as int,
                        ));
                    }
                    return Ok(true);
                }
            },
            _ => {},
        }
        i = i + 1;
    }
    Ok(false)
}

/// Whether a single-day holiday date already exists in the store.
pub open spec fn date_is_duplicate(date: Seq<char>, existing: Seq<String>) -> bool {
    exists|k: int| 0 <= k < existing.len() && (#[trigger] existing[k])@ == date
}

fn is_duplicate_date(date: &String, existing: &Vec<String>) -> (dup: bool)
    ensures
        dup == date_is_duplicate(date@, existing@),
{
    let n = existing.len();
    let mut i: usize = 0;
    while i < n
        invariant
            0 <= i <= n,
            n == existing@.len(),
            forall|k: int| 0 <= k < i ==> (#[trigger] existing@[k])@ != date@,
        decreases n - i,
    {
        if existing[i].eq(date) {
            proof {
                assert((existing@[i as int])@ == date@);
            }
            return true;
        }
        i = i + 1;
    }
    false
}

/// One holiday of the import preview.
#[derive(Clone, Debug)]
pub struct HolidayPreviewItem {
    pub date: String,
    pub name: String,
    pub local_name: String,
    pub is_duplicate: bool,
}

/// What a holiday import would do for one country and year.
#[derive(Clone, Debug)]
pub struct HolidayImportPreview {
    pub country_code: String,
    pub country_name: String,
    pub year: i32,
    pub holidays: Vec<HolidayPreviewItem>,
    pub total_count: usize,
    pub duplicate_count: usize,
    pub new_count: usize,
}

/// How many of the fetched holidays are already in the store.
pub open spec fn count_duplicates(fetched: Seq<NagerDateHoliday>, existing: Seq<String>) -> int
    decreases fetched.len(),
{
    if fetched.len() == 0 {
        0
    } else {
        count_duplicates(fetched.drop_last(), existing) + {
            if date_is_duplicate(fetched.last().date@, existing) {
                1int
            } else {
                0int
            }
        }
    }
}

proof fn lemma_count_duplicates_bound(fetched: Seq<NagerDateHoliday>, existing: Seq<String>)
    ensures
        0 <= count_duplicates(fetched, existing) <= fetched.len(),
    decreases fetched.len(),
{
    if fetched.len() > 0 {
        lemma_count_duplicates_bound(fetched.drop_last(), existing);
    }
}

/// Builds the preview of a holiday import: one row per fetched holiday,
/// marked as a duplicate when its date is already stored, with the totals.
pub fn preview_holiday_import(
    country_code: String,
    country_name: String,
    year: i32,
    fetched: &Vec<NagerDateHoliday>,
    existing_dates: &Vec<String>,
) -> (preview: HolidayImportPreview)
    ensures
        preview.country_code@ == country_code@,
        preview.country_name@ == country_name@,
        preview.year == year,
        preview.holidays@.len() == fetched@.len(),
        forall|k: int|
            0 <= k < fetched@.len() ==> {
                let item = #[trigger] preview.holidays@[k];
                &&& item.date@ == fetched@[k].date@
                &&& item.name@ == fetched@[k].name@
                &&& item.local_name@ == fetched@[k].local_name@
                &&& item.is_duplicate == date_is_duplicate(fetched@[k].date@, existing_dates@)
            },
        preview.total_count == fetched@.len(),
        preview.duplicate_count == count_duplicates(fetched@, existing_dates@),
        preview.new_count == fetched@.len() - count_duplicates(fetched@, existing_dates@),
{
    let n = fetched.len();
    let mut items: Vec<HolidayPreviewItem> = Vec::new();
    let mut duplicates: usize = 0;
    let mut i: usize = 0;
    proof {
        assert(fetched@.subrange(0, 0) =~= Seq::<NagerDateHoliday>::empty());
    }
    while i < n
        invariant
            0 <= i <= n,
            n == fetched@.len(),
            items@.len() == i,
            forall|k: int|
                0 <= k < i ==> {
                    let item = #[trigger] items@[k];
                    &&& item.date@ == fetched@[k].date@
                    &&& item.name@ == fetched@[k].name@
                    &&& item.local_name@ == fetched@[k].local_name@
                    &&& item.is_duplicate == date_is_duplicate(fetched@[k].date@, existing_dates@)
                },
            duplicates == count_duplicates(fetched@.subrange(0, i as int), existing_dates@),
            duplicates <= i,
        decreases n - i,
    {
        proof {
            assert(fetched@.subrange(0, i + 1).drop_last() =~= fetched@.subrange(0, i as int));
            assert(fetched@.subrange(0, i + 1).last() == fetched@[i as int]);
        }
        let h = &fetched[i];
        let dup = is_duplicate_date(&h.date, existing_dates);
        if dup {
            duplicates = duplicates + 1;
        }
        items.push(
            HolidayPreviewItem {
                date: h.date.clone(),
                name: h.name.clone(),
                local_name: h.local_name.clone(),
                is_duplicate: dup,
            },
        );
        i = i + 1;
    }
    proof {
        assert(fetched@.subrange(0, n as int) =~= fetched@);
        lemma_count_duplicates_bound(fetched@, existing_dates@);
    }
    HolidayImportPreview {
        country_code,
        country_name,
        year,
        holidays: items,
        total_count: n,
        duplicate_count: duplicates,
        new_count: n - duplicates,
    }
}

/// The `(local_name, date)` rows an import run inserts: the fetched
/// holidays whose date is not yet stored, in fetch order. Duplicates within
/// the fetched batch itself are not collapsed.
pub open spec fn rows_to_import(fetched: Seq<NagerDateHoliday>, existing: Seq<String>) -> Seq<
    (Seq<char>, Seq<char>),
>
    decreases fetched.len(),
{
    if fetched.len() == 0 {
        Seq::empty()
    } else {
        rows_to_import(fetched.drop_last(), existing) + {
            if date_is_duplicate(fetched.last().date@, existing) {
                Seq::empty()
            } else {
                seq![(fetched.last().local_name@, fetched.last().date@)]
            }
        }
    }
}

proof fn lemma_rows_to_import_len(fetched: Seq<NagerDateHoliday>, existing: Seq<String>)
    ensures
        rows_to_import(fetched, existing).len() == fetched.len() - count_duplicates(
            fetched,
            existing,
        ),
    decreases fetched.len(),
{
    if fetched.len() > 0 {
        lemma_rows_to_import_len(fetched.drop_last(), existing);
    }
}

/// Filters a fetched batch down to the single-day holiday rows to insert:
/// local name and date of every holiday whose date is not yet stored.
pub fn select_holidays_to_import(
    fetched: &Vec<NagerDateHoliday>,
    existing_dates: &Vec<String>,
) -> (rows: Vec<(String, String)>)
    ensures
        rows@.len() == rows_to_import(fetched@, existing_dates@).len(),
        forall|k: int|
            0 <= k < rows@.len() ==> ((#[trigger] rows@[k]).0@, rows@[k].1@) == rows_to_import(
                fetched@,
                existing_dates@,
            )[k],
        rows@.len() == fetched@.len() - count_duplicates(fetched@, existing_dates@),
{
    let n = fetched.len();
    let mut rows: Vec<(String, String)> = Vec::new();
    let mut i: usize = 0;
    proof {
        assert(fetched@.subrange(0, 0) =~= Seq::<NagerDateHoliday>::empty());
    }
    while i < n
        invariant
            0 <= i <= n,
            n == fetched@.len(),
            rows@.len() == rows_to_import(fetched@.subrange(0, i as int), existing_dates@).len(),
            forall|k: int|
                0 <= k < rows@.len() ==> ((#[trigger] rows@[k]).0@, rows@[k].1@) == rows_to_import(
                    fetched@.subrange(0, i as int),
                    existing_dates@,
                )[k],
        decreases n - i,
    {
        proof {
            assert(fetched@.subrange(0, i + 1).drop_last() =~= fetched@.subrange(0, i as int));
            assert(fetched@.subrange(0, i + 1).last() == fetched@[i as int]);
        }
        let h = &fetched[i];
        let dup = is_duplicate_date(&h.date, existing_dates);
        if !dup {
            rows.push((h.local_name.clone(), h.date.clone()));
            proof {
                let old_rows = rows_to_import(fetched@.subrange(0, i as int), existing_dates@);
                let new_rows = rows_to_import(fetched@.subrange(0, i + 1), existing_dates@);
                assert forall|k: int| 0 <= k < rows@.len() implies (
                    (#[trigger] rows@[k]).0@,
                    rows@[k].1@,
                ) == new_rows[k] by {
                    if k < old_rows.len() {
                        assert(new_rows[k] == old_rows[k]);
                    }
                }
            }
        } else {
            proof {
                let old_rows = rows_to_import(fetched@.subrange(0, i as int), existing_dates@);
                let new_rows = rows_to_import(fetched@.subrange(0, i + 1), existing_dates@);
                assert(new_rows =~= old_rows + Seq::<(Seq<char>, Seq<char>)>::empty());
                assert(new_rows =~= old_rows);
            }
        }
        i = i + 1;
    }
    proof {
        assert(fetched@.subrange(0, n as int) =~= fetched@);
        lemma_rows_to_import_len(fetched@, existing_dates@);
    }
    rows
}

} // verus!
