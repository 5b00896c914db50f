//! Recurring plans: rules that block the same hours on every matching day.

use crate::calendar::{
    civil_instant, civil_is_read, day_after, day_start, in_calendar, parse_civil, utc_date,
    utc_date_text, MAX_INSTANT, MIN_INSTANT,
};
use crate::interval::Interval;
use crate::plans::{
    lemma_overridden_descriptions, overridden, overridden_all, PlanEntryView, Plans,
};
use crate::text::{begins_with, pieces, split, trim, trimmed};
use vstd::prelude::*;
use vstd::string::StringExecFns;

verus! {

/// `croner::errors::CronError`: why a pattern could not be read or
/// followed.
#[verifier::external_type_specification]
#[verifier::external_body]
pub struct ExCronError(croner::errors::CronError);

/// A recurrence rule with the hours that it blocks on each day it matches:
/// pairs of a range of clock times, written `HH:MM-HH:MM`, and a
/// description.
pub struct PlanRule {
    pub recurrence: String,
    pub ranges: Vec<(String, String)>,
}

/// Why a plan set could not be made of a list of rules.
#[derive(Clone, Copy, Debug, PartialEq, Eq, Structural)]
pub enum PlanError {
    /// A recurrence rule could not be read.
    Rule,
    /// A range is not two clock times with one dash between them.
    Range,
    /// A clock time could not be read.
    Clock,
    /// A range ends before it starts.
    Inverted,
    /// The calendar cannot hold an instant that a rule leads to.
    Calendar,
}

/// Whether `pattern` is read as a recurrence pattern: whether
/// `croner::Cron::parse` takes it.
pub uninterp spec fn pattern_is_read(pattern: Seq<char>) -> bool;

/// The first instant at or after `from` that `pattern` matches in universal
/// time, as `croner::Cron::find_next_occurrence` finds it with the start
/// included, if it finds one.
pub uninterp spec fn occurrence(pattern: Seq<char>, from: int) -> Option<int>;

/// Reads the pattern with `croner::Cron::new` and `croner::Cron::parse`,
/// and calls `croner::Cron::find_next_occurrence` on it, in universal time
/// and with the start included. It is an error where the pattern is not
/// read, and only there. The search only ever moves forward, so an instant
/// that is found is not before `from`. The search is only asked to start at
/// an instant that the calendar can hold: at the far ends of the dates that
/// it works with, it may fail to come back.
#[verifier::external_body]
fn next_occurrence(pattern: &str, from: i64) -> (r: Result<
    Option<i64>,
    croner::errors::CronError,
>)
    requires
        in_calendar(from as int),
    ensures
        match r {
            Ok(Some(found)) => pattern_is_read(pattern@) && occurrence(pattern@, from as int)
                == Some(found as int) && found >= from,
            Ok(None) => pattern_is_read(pattern@) && occurrence(pattern@, from as int) is None,
            Err(_) => !pattern_is_read(pattern@),
        },
{
    let cron = croner::Cron::new(pattern).parse()?;
    let start = match chrono::DateTime::from_timestamp(from, 0) {
        Some(start) => start,
        None => return Ok(None),
    };
    Ok(cron.find_next_occurrence(&start, true).ok().map(|found| found.timestamp()))
}

/// The instants, in order, at which `pattern` matches from `from` on and
/// before `until`: each is the first occurrence after the one before it.
/// The search goes no further than the calendar does.
pub open spec fn days_between(pattern: Seq<char>, from: int, until: int) -> Seq<int>
    decreases until - from,
{
    if !in_calendar(from) {
        Seq::empty()
    } else {
        match occurrence(pattern, from) {
            Some(day) if from <= day < until => seq![day] + days_between(
                pattern,
                day + 1,
                until,
            ),
            _ => Seq::empty(),
        }
    }
}

/// The instants as numbers.
pub open spec fn instants(days: Seq<i64>) -> Seq<int> {
    days.map_values(|day: i64| day as int)
}

/// What the clock gives for `clock` on the day of `day`. Where the calendar
/// cannot hold the day, that is the error. Otherwise the date of the day in
/// universal time, a space and `clock` are read as a date with hours and
/// minutes: where they are not read, the clock time is the error; where
/// they are, the result is the instant that the machine's time zone gives
/// them, which the calendar can hold, or the calendar is the error.
pub open spec fn clock_outcome(day: i64, clock: Seq<char>, r: Result<i64, PlanError>) -> bool {
    match utc_date(day as int) {
        None => r == Err::<i64, PlanError>(PlanError::Calendar),
        Some(date) => if civil_is_read(date + seq![' '] + clock) {
            match r {
                Ok(instant) => in_calendar(instant as int),
                Err(e) => e == PlanError::Calendar,
            }
        } else {
            r == Err::<i64, PlanError>(PlanError::Clock)
        },
    }
}

/// The text of a range is two clock times with one dash between them.
pub open spec fn range_is_split(text: Seq<char>) -> bool {
    pieces(text, '-').len() == 2
}

/// The texts of a list of ranges.
pub open spec fn range_views(ranges: Seq<(String, String)>) -> Seq<(Seq<char>, Seq<char>)> {
    Seq::new(ranges.len(), |k: int| (ranges[k].0@, ranges[k].1@))
}

/// The texts of a list of rules: each recurrence with its ranges, and each
/// range with its description.
pub open spec fn rule_views(rules: Seq<PlanRule>) -> Seq<(Seq<char>, Seq<(Seq<char>, Seq<char>)>)> {
    Seq::new(rules.len(), |r: int| (rules[r].recurrence@, range_views(rules[r].ranges@)))
}

/// Every range of every rule is two clock times with one dash between them.
pub open spec fn ranges_are_split(rules: Seq<(Seq<char>, Seq<(Seq<char>, Seq<char>)>)>) -> bool {
    forall|r: int, k: int|
        0 <= r < rules.len() && 0 <= k < rules[r].1.len() ==> range_is_split(
            (#[trigger] rules[r].1[k]).0,
        )
}

/// The clock time is read: the date of the epoch, a space and the clock
/// time are read as a date with hours and minutes.
pub open spec fn clock_is_read(clock: Seq<char>) -> bool {
    utc_date(0) matches Some(date) && civil_is_read(date + seq![' '] + clock)
}

/// Both clock times of the range are read; an end that begins with `24`
/// stands for midnight and is not read.
pub open spec fn range_is_read(text: Seq<char>) -> bool {
    &&& clock_is_read(trimmed(pieces(text, '-')[0]))
    &&& begins_with(trimmed(pieces(text, '-')[1]), seq!['2', '4']) || clock_is_read(
        trimmed(pieces(text, '-')[1]),
    )
}

/// Both clock times of every range of every rule are read.
pub open spec fn clocks_are_read(rules: Seq<(Seq<char>, Seq<(Seq<char>, Seq<char>)>)>) -> bool {
    forall|r: int, k: int|
        0 <= r < rules.len() && 0 <= k < rules[r].1.len() ==> range_is_read(
            (#[trigger] rules[r].1[k]).0,
        )
}

/// The pattern that a recurrence stands for: it fires at midnight on the
/// days that the recurrence names.
pub open spec fn rule_pattern(recurrence: Seq<char>) -> Seq<char> {
    seq!['0', ' ', '0', ' '] + recurrence
}

/// Every rule has a pattern that is read.
pub open spec fn rules_are_read(rules: Seq<(Seq<char>, Seq<(Seq<char>, Seq<char>)>)>) -> bool {
    forall|r: int| 0 <= r < rules.len() ==> pattern_is_read(rule_pattern((#[trigger] rules[r]).0))
}

/// What is wrong with the texts of the rules, if anything is: a range that
/// is not split in two comes first, then a clock time that is not read, then
/// a recurrence that is not read.
pub open spec fn text_error(rules: Seq<(Seq<char>, Seq<(Seq<char>, Seq<char>)>)>) -> Option<
    PlanError,
> {
    if !ranges_are_split(rules) {
        Some(PlanError::Range)
    } else if !clocks_are_read(rules) {
        Some(PlanError::Clock)
    } else if !rules_are_read(rules) {
        Some(PlanError::Rule)
    } else {
        None
    }
}

/// `description` is one that the rules give.
pub open spec fn described(
    rules: Seq<(Seq<char>, Seq<(Seq<char>, Seq<char>)>)>,
    description: Seq<char>,
) -> bool {
    exists|r: int, k: int|
        0 <= r < rules.len() && 0 <= k < rules[r].1.len() && (#[trigger] rules[r].1[k]).1
            == description
}

/// `blocks` is a run of blocks that the rules lay down, in the order of the
/// rules: each block is well formed and comes from a range of a rule, named
/// by its place in `origins`, whose description it carries; and no block
/// comes from an earlier rule, or from an earlier range of the same rule,
/// than a block before it.
pub open spec fn laid_down(
    rules: Seq<(Seq<char>, Seq<(Seq<char>, Seq<char>)>)>,
    blocks: Seq<PlanEntryView>,
    origins: Seq<(int, int)>,
) -> bool {
    &&& origins.len() == blocks.len()
    &&& forall|b: int|
        0 <= b < blocks.len() ==> {
            let (r, k) = #[trigger] origins[b];
            &&& 0 <= r < rules.len()
            &&& 0 <= k < rules[r].1.len()
            &&& blocks[b].description == rules[r].1[k].1
            &&& blocks[b].interval.wf()
        }
    &&& forall|a: int, b: int|
        0 <= a < b < blocks.len() ==> (#[trigger] origins[a]).0 < (#[trigger] origins[b]).0 || (
        origins[a].0 == origins[b].0 && origins[a].1 <= origins[b].1)
}

/// `origin`, `count` times.
pub open spec fn repeated(origin: (int, int), count: int) -> Seq<(int, int)> {
    Seq::new(count as nat, |i: int| origin)
}

/// The origins of the blocks of the first `ranges` ranges of rule `rule`:
/// each range once for each of `days` days.
pub open spec fn range_origins(rule: int, ranges: int, days: int) -> Seq<(int, int)>
    decreases ranges,
{
    if ranges <= 0 {
        Seq::empty()
    } else {
        range_origins(rule, ranges - 1, days) + repeated((rule, ranges - 1), days)
    }
}

/// The origins of the blocks that the first `upto` rules lay down from the
/// day that starts at `from` on and before `until`: rule after rule, range
/// after range, each range once for each day that the rule matches.
pub open spec fn rule_origins(
    rules: Seq<(Seq<char>, Seq<(Seq<char>, Seq<char>)>)>,
    from: int,
    until: int,
    upto: int,
) -> Seq<(int, int)>
    decreases upto,
{
    if upto <= 0 {
        Seq::empty()
    } else {
        rule_origins(rules, from, until, upto - 1) + range_origins(
            upto - 1,
            rules[upto - 1].1.len() as int,
            days_between(rule_pattern(rules[upto - 1].0), from, until).len() as int,
        )
    }
}

/// `plans` is what the rules make from the day that starts at `from` on and
/// before `until`: the blocks, one for each range of each rule on each day
/// that the rule matches, in the order rule, range, day, inserted with
/// overriding one after the other.
pub open spec fn made_of(
    rules: Seq<(Seq<char>, Seq<(Seq<char>, Seq<char>)>)>,
    from: int,
    until: int,
    blocks: Seq<PlanEntryView>,
    origins: Seq<(int, int)>,
    plans: Seq<PlanEntryView>,
) -> bool {
    &&& laid_down(rules, blocks, origins)
    &&& origins == rule_origins(rules, from, until, rules.len() as int)
    &&& plans == overridden_all(blocks)
}

/// The two clock times of a range, without the white space around them.
pub fn split_range(text: &str) -> (r: Result<(String, String), PlanError>)
    ensures
        match r {
            Ok((start, end)) => {
                &&& range_is_split(text@)
                &&& start@ == trimmed(pieces(text@, '-')[0])
                &&& end@ == trimmed(pieces(text@, '-')[1])
            },
            Err(e) => e == PlanError::Range && !range_is_split(text@),
        },
{
    let parts = split(text, '-');
    if parts.len() != 2 {
        return Err(PlanError::Range);
    }
    assert(crate::text::string_views(parts@)[0] == parts@[0]@);
    assert(crate::text::string_views(parts@)[1] == parts@[1]@);
    Ok((trim(parts[0].as_str()), trim(parts[1].as_str())))
}

/// Whether the clock time stands for the midnight that ends the day: it
/// begins with `24`.
pub fn ends_at_midnight(clock: &str) -> (r: bool)
    ensures
        r == begins_with(clock@, seq!['2', '4']),
{
    let chars = crate::text::chars_of(clock);
    if chars.len() < 2 {
        return false;
    }
    let r = chars[0] == '2' && chars[1] == '4';
    proof {
        let head = seq!['2', '4'];
        if r {
            assert(clock@.take(2) =~= head);
        } else {
            assert(clock@.take(2)[0] == clock@[0]);
            assert(clock@.take(2)[1] == clock@[1]);
            assert(head[0] == '2' && head[1] == '4');
        }
    }
    r
}

/// Blocks `[start, end)` in `plans`, with overriding, unless the range ends
/// before it starts.
pub fn place(plans: &mut Plans, start: i64, end: i64, description: String) -> (r: Result<
    (),
    PlanError,
>)
    ensures
        final(plans).wf(),
        match r {
            Ok(_) => start <= end && final(plans)@ == overridden(
                old(plans)@,
                Interval { start, end },
                description@,
            ),
            Err(e) => e == PlanError::Inverted && start > end && final(plans)@ == old(plans)@,
        },
{
    proof {
        use_type_invariant(&*plans);
    }
    if start > end {
        return Err(PlanError::Inverted);
    }
    plans.insert_with_overriding(Interval::new(start, end), description);
    Ok(())
}

/// The instant at which the clock shows `clock` on the day of `day`.
fn clock_instant(day: i64, clock: &str) -> (r: Result<i64, PlanError>)
    ensures
        clock_outcome(day, clock@, r),
        r matches Err(e) ==> e == PlanError::Clock || e == PlanError::Calendar,
{
    let date = match utc_date_text(day) {
        Ok(date) => date,
        Err(_) => {
            return Err(PlanError::Calendar);
        },
    };
    proof {
        reveal_strlit(" ");
        assert(" "@ =~= seq![' ']);
    }
    let text = date.concat(" ").concat(clock);
    let civil = match parse_civil(text.as_str()) {
        Ok(civil) => civil,
        Err(_) => {
            return Err(PlanError::Clock);
        },
    };
    match civil_instant(civil) {
        Ok(instant) => Ok(instant),
        Err(_) => Err(PlanError::Calendar),
    }
}

/// The instant at which the range ends on the day of `day`: the midnight
/// that ends the day where the clock time begins with `24`, and what the
/// clock gives for the clock time otherwise.
fn end_instant(day: i64, clock: &str) -> (r: Result<i64, PlanError>)
    ensures
        if begins_with(clock@, seq!['2', '4']) {
            match r {
                Ok(instant) => in_calendar(day as int) && in_calendar(instant as int),
                Err(e) => e == PlanError::Calendar,
            }
        } else {
            clock_outcome(day, clock@, r)
        },
        r matches Err(e) ==> e == PlanError::Clock || e == PlanError::Calendar,
{
    if ends_at_midnight(clock) {
        let next = match day_after(day) {
            Ok(next) => next,
            Err(_) => {
                return Err(PlanError::Calendar);
            },
        };
        match day_start(next) {
            Ok(instant) => Ok(instant),
            Err(_) => Err(PlanError::Calendar),
        }
    } else {
        clock_instant(day, clock)
    }
}

/// Whether the calendar can hold `instant`.
pub fn is_in_calendar(instant: i64) -> (r: bool)
    ensures
        r == in_calendar(instant as int),
{
    MIN_INSTANT <= instant && instant <= MAX_INSTANT
}

/// The days of the window that the rule matches: the instants, in order,
/// at which the pattern matches from `from` on and before `until`, as far as
/// the calendar goes. A pattern that is not read is an error.
fn matching_days(pattern: &str, from: i64, until: i64) -> (r: Result<Vec<i64>, PlanError>)
    ensures
        match r {
            Ok(days) => {
                &&& pattern_is_read(pattern@)
                &&& instants(days@) == days_between(pattern@, from as int, until as int)
                &&& forall|i: int| 0 <= i < days@.len() ==> from <= #[trigger] days@[i] < until
                &&& forall|i: int, j: int| 0 <= i < j < days@.len() ==> days@[i] < days@[j]
            },
            Err(e) => e == PlanError::Rule && !pattern_is_read(pattern@),
        },
{
    // The pattern is read once at the epoch, whatever the window is.
    match next_occurrence(pattern, 0) {
        Ok(_) => {},
        Err(_) => {
            return Err(PlanError::Rule);
        },
    }
    let mut days: Vec<i64> = Vec::new();
    let mut cursor: i64 = from;
    assert(instants(days@) + days_between(pattern@, cursor as int, until as int)
        =~= days_between(pattern@, from as int, until as int));
    while cursor < until && is_in_calendar(cursor)
        invariant
            pattern_is_read(pattern@),
            from <= cursor,
            instants(days@) + days_between(pattern@, cursor as int, until as int) == days_between(
                pattern@,
                from as int,
                until as int,
            ),
            forall|i: int| 0 <= i < days@.len() ==> from <= #[trigger] days@[i] < cursor,
            forall|i: int| 0 <= i < days@.len() ==> #[trigger] days@[i] < until,
            forall|i: int, j: int| 0 <= i < j < days@.len() ==> days@[i] < days@[j],
        ensures
            instants(days@) == days_between(pattern@, from as int, until as int),
            forall|i: int| 0 <= i < days@.len() ==> from <= #[trigger] days@[i] < until,
            forall|i: int, j: int| 0 <= i < j < days@.len() ==> days@[i] < days@[j],
        decreases until - cursor,
    {
        let found: i64 = match next_occurrence(pattern, cursor) {
            Ok(Some(found)) => found,
            _ => {
                assert(instants(days@) + Seq::<int>::empty() =~= instants(days@));
                break ;
            },
        };
        if found >= until {
            assert(instants(days@) + Seq::<int>::empty() =~= instants(days@));
            break ;
        }
        let ghost held = instants(days@);
        let ghost rest = days_between(pattern@, found as int + 1, until as int);
        days.push(found);
        proof {
            assert(instants(days@) =~= held.push(found as int));
            assert(held.push(found as int) + rest =~= held + (seq![found as int] + rest));
        }
        cursor = found + 1;
    }
    Ok(days)
}

/// Whether the clock time is read.
pub fn clock_reads(clock: &str) -> (r: bool)
    ensures
        r == clock_is_read(clock@),
{
    let date = match utc_date_text(0) {
        Ok(date) => date,
        Err(_) => {
            return false;
        },
    };
    proof {
        reveal_strlit(" ");
        assert(" "@ =~= seq![' ']);
    }
    let text = date.concat(" ").concat(clock);
    parse_civil(text.as_str()).is_ok()
}

/// Whether the recurrence is read.
pub fn recurrence_reads(recurrence: &str) -> (r: bool)
    ensures
        r == pattern_is_read(rule_pattern(recurrence@)),
{
    proof {
        reveal_strlit("0 0 ");
        assert("0 0 "@ =~= seq!['0', ' ', '0', ' ']);
    }
    let pattern = String::from_str("0 0 ").concat(recurrence);
    next_occurrence(pattern.as_str(), 0).is_ok()
}

/// Looks the texts of the rules over before anything is laid down: the
/// ranges, then the clock times, then the recurrences.
pub fn check_rules(rules: &Vec<PlanRule>) -> (r: Result<(), PlanError>)
    ensures
        match r {
            Ok(_) => text_error(rule_views(rules@)) is None,
            Err(e) => text_error(rule_views(rules@)) == Some(e),
        },
{
    let ghost texts = rule_views(rules@);
    let mut r: usize = 0;
    while r < rules.len()
        invariant
            r <= rules.len(),
            texts == rule_views(rules@),
            forall|a: int, k: int|
                0 <= a < r && 0 <= k < texts[a].1.len() ==> range_is_split(
                    (#[trigger] texts[a].1[k]).0,
                ),
        decreases rules.len() - r,
    {
        let ranges = &rules[r].ranges;
        assert(texts[r as int].1 == range_views(ranges@));
        let mut k: usize = 0;
        while k < ranges.len()
            invariant
                r < rules.len(),
                texts == rule_views(rules@),
                texts[r as int].1 == range_views(ranges@),
                k <= ranges.len(),
                forall|b: int| 0 <= b < k ==> range_is_split((#[trigger] texts[r as int].1[b]).0),
            decreases ranges.len() - k,
        {
            assert(texts[r as int].1[k as int].0 == ranges@[k as int].0@);
            if split_range(ranges[k].0.as_str()).is_err() {
                return Err(PlanError::Range);
            }
            k += 1;
        }
        r += 1;
    }
    let mut r: usize = 0;
    while r < rules.len()
        invariant
            r <= rules.len(),
            texts == rule_views(rules@),
            ranges_are_split(texts),
            forall|a: int, k: int|
                0 <= a < r && 0 <= k < texts[a].1.len() ==> range_is_read(
                    (#[trigger] texts[a].1[k]).0,
                ),
        decreases rules.len() - r,
    {
        let ranges = &rules[r].ranges;
        assert(texts[r as int].1 == range_views(ranges@));
        let mut k: usize = 0;
        while k < ranges.len()
            invariant
                r < rules.len(),
                texts == rule_views(rules@),
                ranges_are_split(texts),
                texts[r as int].1 == range_views(ranges@),
                k <= ranges.len(),
                forall|b: int| 0 <= b < k ==> range_is_read((#[trigger] texts[r as int].1[b]).0),
            decreases ranges.len() - k,
        {
            assert(texts[r as int].1[k as int].0 == ranges@[k as int].0@);
            assert(range_is_split(texts[r as int].1[k as int].0));
            let (start, end) = match split_range(ranges[k].0.as_str()) {
                Ok(texts) => texts,
                Err(e) => {
                    return Err(e);
                },
            };
            if !clock_reads(start.as_str()) {
                return Err(PlanError::Clock);
            }
            if !ends_at_midnight(end.as_str()) && !clock_reads(end.as_str()) {
                return Err(PlanError::Clock);
            }
            k += 1;
        }
        r += 1;
    }
    let mut r: usize = 0;
    while r < rules.len()
        invariant
            r <= rules.len(),
            texts == rule_views(rules@),
            ranges_are_split(texts),
            clocks_are_read(texts),
            forall|a: int| 0 <= a < r ==> pattern_is_read(rule_pattern((#[trigger] texts[a]).0)),
        decreases rules.len() - r,
    {
        assert(texts[r as int].0 == rules@[r as int].recurrence@);
        if !recurrence_reads(rules[r].recurrence.as_str()) {
            return Err(PlanError::Rule);
        }
        r += 1;
    }
    Ok(())
}

impl Plans {
    /// The plan set that the rules make from the day that starts at `day` on
    /// and before `until`.
    ///
    /// Each rule blocks its ranges on every day that its recurrence
    /// matches. The rules are laid down in order, so that a later rule wins
    /// over an earlier one where they overlap. A range that ends with a
    /// clock time that begins with `24` ends at the midnight that ends the
    /// day.
    ///
    /// The texts are looked over before anything is laid down: a range that
    /// is not two clock times with one dash between them is refused first,
    /// then a clock time that is not read, then a recurrence that is not
    /// read. No rules make the empty plan set. Otherwise the window needs
    /// its first day: without one the calendar is the error. Which instants
    /// the clock times stand for on a day is for the calendar to say.
    /// Whatever it says, the result is what comes of inserting blocks with
    /// overriding, one after the other: one block for each range of each
    /// rule on each day that the rule matches, in the order rule, range, day.
    pub fn from_day(day: Option<i64>, until: i64, value: Vec<PlanRule>) -> (r: Result<
        Plans,
        PlanError,
    >)
        ensures
            match r {
                Ok(plans) => {
                    &&& text_error(rule_views(value@)) is None
                    &&& plans.wf()
                    &&& value@.len() == 0 ==> plans@.len() == 0
                    &&& value@.len() > 0 ==> day is Some && exists|
                        blocks: Seq<PlanEntryView>,
                        origins: Seq<(int, int)>,
                    |
                        #![trigger made_of(rule_views(value@), day->0 as int, until as int, blocks, origins, plans@)]
                        made_of(
                            rule_views(value@),
                            day->0 as int,
                            until as int,
                            blocks,
                            origins,
                            plans@,
                        )
                    &&& forall|i: int|
                        0 <= i < plans@.len() ==> described(
                            rule_views(value@),
                            (#[trigger] plans@[i]).description,
                        )
                },
                Err(e) => match text_error(rule_views(value@)) {
                    Some(wrong) => e == wrong,
                    None => {
                        &&& value@.len() > 0
                        &&& e == PlanError::Clock || e == PlanError::Inverted || e
                            == PlanError::Calendar
                        &&& day is None ==> e == PlanError::Calendar
                    },
                },
            },
    {
        match check_rules(&value) {
            Ok(_) => {},
            Err(e) => {
                return Err(e);
            },
        }
        let ghost texts = rule_views(value@);
        let mut plans = Plans::new();
        let ghost mut blocks: Seq<PlanEntryView> = Seq::empty();
        let ghost mut origins: Seq<(int, int)> = Seq::empty();
        if value.len() == 0 {
            return Ok(plans);
        }
        let from: i64 = match day {
            Some(from) => from,
            None => {
                return Err(PlanError::Calendar);
            },
        };
        let mut r: usize = 0;
        while r < value.len()
            invariant
                r <= value.len(),
                texts == rule_views(value@),
                text_error(texts) is None,
                day == Some(from),
                plans.wf(),
                plans@ == overridden_all(blocks),
                laid_down(texts, blocks, origins),
                forall|b: int| 0 <= b < origins.len() ==> (#[trigger] origins[b]).0 < r,
                forall|i: int|
                    0 <= i < plans@.len() ==> described(texts, (#[trigger] plans@[i]).description),
                origins == rule_origins(texts, from as int, until as int, r as int),
            decreases value.len() - r,
        {
            let rule = &value[r];
            proof {
                reveal_strlit("0 0 ");
                assert("0 0 "@ =~= seq!['0', ' ', '0', ' ']);
                assert(texts[r as int].0 == rule.recurrence@);
                assert(texts[r as int].1 == range_views(rule.ranges@));
            }
            let pattern = String::from_str("0 0 ").concat(rule.recurrence.as_str());
            assert(pattern@ == rule_pattern(texts[r as int].0));
            let days = match matching_days(pattern.as_str(), from, until) {
                Ok(days) => days,
                Err(e) => {
                    assert(pattern_is_read(rule_pattern(texts[r as int].0)));
                    return Err(PlanError::Calendar);
                },
            };
            let ghost so_far = origins;
            let ghost count = days@.len() as int;
            proof {
                assert(instants(days@).len() == days@.len());
                assert(so_far + range_origins(r as int, 0, count) =~= so_far);
            }
            let mut k: usize = 0;
            while k < rule.ranges.len()
                invariant
                    r < value.len(),
                    rule == &value@[r as int],
                    texts == rule_views(value@),
                    texts[r as int].1 == range_views(rule.ranges@),
                    text_error(texts) is None,
                    day == Some(from),
                    k <= rule.ranges@.len(),
                    plans.wf(),
                    plans@ == overridden_all(blocks),
                    laid_down(texts, blocks, origins),
                    forall|b: int|
                        0 <= b < origins.len() ==> (#[trigger] origins[b]).0 < r || (origins[b].0
                            == r && origins[b].1 < k),
                    forall|i: int|
                        0 <= i < plans@.len() ==> described(
                            texts,
                            (#[trigger] plans@[i]).description,
                        ),
                    count == days@.len(),
                    origins == so_far + range_origins(r as int, k as int, count),
                decreases rule.ranges@.len() - k,
            {
                let range = &rule.ranges[k];
                proof {
                    assert(texts[r as int].1[k as int] == (range.0@, range.1@));
                    assert(range_is_split(texts[r as int].1[k as int].0));
                }
                let (start_text, end_text) = match split_range(range.0.as_str()) {
                    Ok(texts) => texts,
                    Err(e) => {
                        return Err(PlanError::Calendar);
                    },
                };
                let ghost upto_range = origins;
                proof {
                    assert(upto_range + repeated((r as int, k as int), 0) =~= upto_range);
                }
                let mut d: usize = 0;
                while d < days.len()
                    invariant
                        r < value.len(),
                        k < value@[r as int].ranges@.len(),
                        range == &value@[r as int].ranges@[k as int],
                        texts == rule_views(value@),
                        texts[r as int].1[k as int] == (range.0@, range.1@),
                        text_error(texts) is None,
                        day == Some(from),
                        d <= days.len(),
                        plans.wf(),
                        plans@ == overridden_all(blocks),
                        laid_down(texts, blocks, origins),
                        forall|b: int|
                            0 <= b < origins.len() ==> (#[trigger] origins[b]).0 < r || (
                            origins[b].0 == r && origins[b].1 <= k),
                        forall|i: int|
                            0 <= i < plans@.len() ==> described(
                                texts,
                                (#[trigger] plans@[i]).description,
                            ),
                        count == days@.len(),
                        origins == upto_range + repeated((r as int, k as int), d as int),
                    decreases days.len() - d,
                {
                    let on: i64 = days[d];
                    let start: i64 = match clock_instant(on, start_text.as_str()) {
                        Ok(start) => start,
                        Err(e) => {
                            return Err(e);
                        },
                    };
                    let end: i64 = match end_instant(on, end_text.as_str()) {
                        Ok(end) => end,
                        Err(e) => {
                            return Err(e);
                        },
                    };
                    let ghost before = plans@;
                    match place(&mut plans, start, end, range.1.clone()) {
                        Ok(_) => {},
                        Err(e) => {
                            return Err(e);
                        },
                    }
                    proof {
                        let block = PlanEntryView {
                            interval: Interval { start, end },
                            description: range.1@,
                        };
                        let held = blocks;
                        let from_where = origins;
                        blocks = blocks.push(block);
                        origins = origins.push((r as int, k as int));
                        assert(blocks.drop_last() =~= held);
                        assert(origins =~= upto_range + repeated(
                            (r as int, k as int),
                            d as int + 1,
                        ));
                        assert forall|b: int| 0 <= b < blocks.len() implies {
                            let (r0, k0) = #[trigger] origins[b];
                            &&& 0 <= r0 < texts.len()
                            &&& 0 <= k0 < texts[r0].1.len()
                            &&& blocks[b].description == texts[r0].1[k0].1
                            &&& blocks[b].interval.wf()
                        } by {
                            if b < held.len() {
                                assert(origins[b] == from_where[b]);
                                assert(blocks[b] == held[b]);
                            }
                        }
                        assert forall|a: int, b: int| 0 <= a < b < blocks.len() implies (
                        #[trigger] origins[a]).0 < (#[trigger] origins[b]).0 || (origins[a].0
                            == origins[b].0 && origins[a].1 <= origins[b].1) by {
                            assert(origins[a] == from_where[a]);
                            if b < held.len() {
                                assert(origins[b] == from_where[b]);
                            }
                        }
                        lemma_overridden_descriptions(
                            before,
                            Interval { start, end },
                            range.1@,
                        );
                        assert(described(texts, texts[r as int].1[k as int].1));
                        assert forall|i: int| 0 <= i < plans@.len() implies described(
                            texts,
                            (#[trigger] plans@[i]).description,
                        ) by {
                            if plans@[i].description != range.1@ {
                                let j = choose|j: int|
                                    0 <= j < before.len() && before[j].description
                                        == plans@[i].description;
                                assert(described(texts, before[j].description));
                            }
                        }
                    }
                    d += 1;
                }
                proof {
                    assert(origins =~= so_far + (range_origins(r as int, k as int, count)
                        + repeated((r as int, k as int), count)));
                }
                k += 1;
            }
            proof {
                assert(instants(days@) == days_between(
                    rule_pattern(texts[r as int].0),
                    from as int,
                    until as int,
                ));
            }
            r += 1;
        }
        proof {
            assert(made_of(texts, from as int, until as int, blocks, origins, plans@));
        }
        Ok(plans)
    }

    /// The plan set that the rules make within the window `interval`.
    ///
    /// The window begins with the day of its start: the calendar gives the
    /// instant at which that day starts, and the rules are laid down from
    /// there on, as [`Plans::from_day`] has it.
    pub fn try_from(interval: &Interval, value: Vec<PlanRule>) -> (r: Result<Plans, PlanError>)
        ensures
            match r {
                Ok(plans) => {
                    &&& text_error(rule_views(value@)) is None
                    &&& plans.wf()
                    &&& value@.len() == 0 ==> plans@.len() == 0
                    &&& value@.len() > 0 ==> exists|
                        from: int,
                        blocks: Seq<PlanEntryView>,
                        origins: Seq<(int, int)>,
                    |
                        #![trigger made_of(rule_views(value@), from, interval.end as int, blocks, origins, plans@)]
                        in_calendar(from) && from <= interval.start && made_of(
                            rule_views(value@),
                            from,
                            interval.end as int,
                            blocks,
                            origins,
                            plans@,
                        )
                    &&& forall|i: int|
                        0 <= i < plans@.len() ==> described(
                            rule_views(value@),
                            (#[trigger] plans@[i]).description,
                        )
                },
                Err(e) => match text_error(rule_views(value@)) {
                    Some(wrong) => e == wrong,
                    None => {
                        &&& value@.len() > 0
                        &&& e == PlanError::Clock || e == PlanError::Inverted || e
                            == PlanError::Calendar
                        &&& !in_calendar(interval.start as int) ==> e == PlanError::Calendar
                    },
                },
            },
    {
        let day: Option<i64> = match day_start(interval.start) {
            Ok(day) => Some(
                if day <= interval.start {
                    day
                } else {
                    interval.start
                },
            ),
            Err(_) => None,
        };
        let ghost texts = rule_views(value@);
        let until: i64 = interval.end;
        let r = Plans::from_day(day, until, value);
        proof {
            if r is Ok && texts.len() > 0 {
                let from = day->0 as int;
                let (blocks, origins) = choose|
                    blocks: Seq<PlanEntryView>,
                    origins: Seq<(int, int)>,
                | #[trigger]
                    made_of(texts, from, until as int, blocks, origins, r->Ok_0@);
                assert(made_of(texts, from, interval.end as int, blocks, origins, r->Ok_0@));
            }
        }
        r
    }
}

} // verus!
