//! Purging audit archives: which log files are dated archives, and which of
//! them are older than the retention period.

use vstd::prelude::*;
use crate::text::{str_eq, ends_with, occurs_at, opt_view};

verus! {

/// The task archive kept out of the daily purge.
pub open spec fn task_archive_name() -> Seq<char> {
    "ai-todo-archive.jsonl"@
}

/// Whether `s` ends with `p`.
pub open spec fn has_suffix(s: Seq<char>, p: Seq<char>) -> bool {
    p.len() <= s.len() && occurs_at(s, p, s.len() - p.len())
}

/// `s` with every trailing `.jsonl` removed (`str::trim_end_matches`).
pub open spec fn strip_jsonl(s: Seq<char>) -> Seq<char>
    decreases s.len(),
{
    if 6 <= s.len() && has_suffix(s, ".jsonl"@) {
        strip_jsonl(s.take(s.len() - 6))
    } else {
        s
    }
}

/// The date text of a daily archive: for a `.jsonl` file other than the
/// task archive, its name without the trailing `.jsonl`s.
pub open spec fn spec_archive_date(file_name: Seq<char>) -> Option<Seq<char>> {
    if has_suffix(file_name, ".jsonl"@) && file_name != task_archive_name() {
        Some(strip_jsonl(file_name))
    } else {
        None
    }
}

/// The date text of a daily archive (see `spec_archive_date`).
pub fn archive_date(file_name: &str) -> (r: Option<String>)
    ensures
        opt_view(r) == spec_archive_date(file_name@),
{
    proof {
        reveal_strlit(".jsonl");
    }
    if !ends_with(file_name, ".jsonl") || str_eq(file_name, "ai-todo-archive.jsonl") {
        return None;
    }
    let mut end: usize = file_name.unicode_len();
    assert(file_name@.take(end as int) =~= file_name@);
    loop
        invariant
            end <= file_name@.len(),
            strip_jsonl(file_name@) == strip_jsonl(file_name@.take(end as int)),
        ensures
            end <= file_name@.len(),
            strip_jsonl(file_name@) == file_name@.take(end as int),
        decreases end,
    {
        let cur = file_name.substring_char(0, end);
        assert(cur@ =~= file_name@.take(end as int));
        if end >= 6 && ends_with(cur, ".jsonl") {
            assert(file_name@.take(end as int).take(end - 6) =~= file_name@.take(end - 6));
            end = end - 6;
        } else {
            break;
        }
    }
    let s = file_name.substring_char(0, end);
    assert(s@ =~= file_name@.take(end as int));
    Some(String::from_str(s))
}

/// What `chrono::NaiveDate::parse_from_str(s, "%Y-%m-%d")` reads from a
/// text: the date as its day number counted from the Common Era
/// (`Datelike::num_days_from_ce`), or none when the text is not a date.
pub uninterp spec fn ce_day_of(s: Seq<char>) -> Option<int>;

/// `chrono::NaiveDate::parse_from_str(s, "%Y-%m-%d")` and then
/// `num_days_from_ce`: the day number of the date, named `ce_day_of`.
#[verifier::external_body]
fn parse_ce_day(s: &str) -> (r: Option<i32>)
    ensures
        match r {
            Some(d) => ce_day_of(s@) == Some(d as int),
            None => ce_day_of(s@) is None,
        },
{
    match chrono::NaiveDate::parse_from_str(s, "%Y-%m-%d") {
        Ok(d) => Some(chrono::Datelike::num_days_from_ce(&d)),
        Err(_) => None,
    }
}

/// An archive dated `file_day` is purged on day `today` when it is more
/// than `days` days old; an archive without a readable date never is.
pub open spec fn spec_expired(file_day: Option<i32>, today: i32, days: i64) -> bool {
    match file_day {
        Some(d) => (today as int) - (d as int) > days as int,
        None => false,
    }
}

/// Whether an archive is past retention (see `spec_expired`).
pub fn expired(file_day: Option<i32>, today: i32, days: i64) -> (r: bool)
    ensures
        r == spec_expired(file_day, today, days),
{
    match file_day {
        Some(d) => (today as i64) - (d as i64) > days,
        None => false,
    }
}

/// Whether a file in the archive directory is purged on day `today`: a
/// daily archive (see `spec_archive_date`) whose date is past retention.
pub open spec fn spec_purged(file_name: Seq<char>, today: i32, days: i64) -> bool {
    match spec_archive_date(file_name) {
        Some(date) => match ce_day_of(date) {
            Some(d) => (today as int) - d > days as int,
            None => false,
        },
        None => false,
    }
}

/// Whether a file in the archive directory is purged (see `spec_purged`).
pub fn purged(file_name: &str, today: i32, days: i64) -> (r: bool)
    ensures
        r == spec_purged(file_name@, today, days),
{
    match archive_date(file_name) {
        Some(date) => {
            let day = parse_ce_day(date.as_str());
            expired(day, today, days)
        },
        None => false,
    }
}

} // verus!
