//! The plan set: blocks of time that are already taken.
//!
//! The entries are kept in order of their start and never overlap. A new
//! entry wins over the entries it meets: what it covers of them is cut away.

use crate::interval::Interval;
use vstd::prelude::*;

verus! {

/// A blocked interval and what it is blocked for.
pub struct PlanEntry {
    pub interval: Interval,
    pub description: String,
}

/// The mathematical value of a [`PlanEntry`].
pub struct PlanEntryView {
    pub interval: Interval,
    pub description: Seq<char>,
}

impl View for PlanEntry {
    type V = PlanEntryView;

    open spec fn view(&self) -> PlanEntryView {
        PlanEntryView { interval: self.interval, description: self.description@ }
    }
}

/// The values of a run of entries, in the same order.
pub open spec fn entry_views(entries: Seq<PlanEntry>) -> Seq<PlanEntryView> {
    Seq::new(entries.len(), |i: int| entries[i]@)
}

/// A sequence of entries is well formed when every interval is well formed,
/// the entries stand in strict order of start and then end, and no two of
/// them intersect.
pub open spec fn well_formed(s: Seq<PlanEntryView>) -> bool {
    &&& forall|i: int| 0 <= i < s.len() ==> (#[trigger] s[i]).interval.wf()
    &&& forall|i: int, j: int|
        #![trigger s[i], s[j]]
        0 <= i < j < s.len() ==> s[i].interval.spec_precedes(&s[j].interval)
            && !s[i].interval.spec_intercepts(&s[j].interval)
}

/// `piece` neither overlaps `by` nor lies within it.
pub open spec fn apart(piece: Interval, by: Interval) -> bool {
    !piece.spec_intercepts(&by) && !by.spec_contains(&piece)
}

/// What is left of `entry` once `by` has been laid over it: nothing where
/// `by` covers it wholly, the part before `by` and the part after `by` where
/// the two overlap, and the entry itself where they do not meet.
pub open spec fn remainders(entry: PlanEntryView, by: Interval) -> Seq<PlanEntryView> {
    if by.spec_contains(&entry.interval) {
        Seq::empty()
    } else if entry.interval.spec_intercepts(&by) {
        let before = if entry.interval.start < by.start {
            seq![
                PlanEntryView {
                    interval: Interval { start: entry.interval.start, end: by.start },
                    description: entry.description,
                },
            ]
        } else {
            Seq::empty()
        };
        let after = if by.end < entry.interval.end {
            seq![
                PlanEntryView {
                    interval: Interval { start: by.end, end: entry.interval.end },
                    description: entry.description,
                },
            ]
        } else {
            Seq::empty()
        };
        before + after
    } else {
        seq![entry]
    }
}

/// The remainders of every entry of `s`, in order.
pub open spec fn carved(s: Seq<PlanEntryView>, by: Interval) -> Seq<PlanEntryView>
    decreases s.len(),
{
    if s.len() == 0 {
        Seq::empty()
    } else {
        carved(s.drop_last(), by) + remainders(s.last(), by)
    }
}

/// The number of leading entries of `s` that come before `interval`.
pub open spec fn rank(s: Seq<PlanEntryView>, interval: Interval) -> int
    decreases s.len(),
{
    if s.len() == 0 {
        0
    } else if s[0].interval.spec_precedes(&interval) {
        1 + rank(s.drop_first(), interval)
    } else {
        0
    }
}

/// The plan set `s` after `interval` has been inserted with overriding:
/// every entry is cut down to what `interval` leaves of it, and the new
/// entry takes its place in the order.
pub open spec fn overridden(
    s: Seq<PlanEntryView>,
    interval: Interval,
    description: Seq<char>,
) -> Seq<PlanEntryView> {
    let rest = carved(s, interval);
    rest.insert(rank(rest, interval), PlanEntryView { interval, description })
}

/// The plan set after each entry of `inserts` has been inserted with
/// overriding, first to last, into the empty set.
pub open spec fn overridden_all(inserts: Seq<PlanEntryView>) -> Seq<PlanEntryView>
    decreases inserts.len(),
{
    if inserts.len() == 0 {
        Seq::empty()
    } else {
        overridden(
            overridden_all(inserts.drop_last()),
            inserts.last().interval,
            inserts.last().description,
        )
    }
}

/// The first `n` entries of a well-formed sequence are well formed.
pub proof fn lemma_prefix_wf(s: Seq<PlanEntryView>, n: int)
    requires
        well_formed(s),
        0 <= n <= s.len(),
    ensures
        well_formed(s.take(n)),
{
    let head = s.take(n);
    assert forall|i: int, j: int|
        #![trigger head[i], head[j]]
        0 <= i < j < head.len() implies head[i].interval.spec_precedes(&head[j].interval)
        && !head[i].interval.spec_intercepts(&head[j].interval) by {
        assert(head[i] == s[i] && head[j] == s[j]);
    }
    assert forall|i: int| 0 <= i < head.len() implies (#[trigger] head[i]).interval.wf() by {
        assert(head[i] == s[i]);
    }
}

/// Every remainder is well formed, apart from `by`, and within its entry.
proof fn lemma_remainders(entry: PlanEntryView, by: Interval)
    requires
        entry.interval.wf(),
        by.wf(),
    ensures
        remainders(entry, by).len() <= 2,
        forall|j: int|
            0 <= j < remainders(entry, by).len() ==> {
                let piece = (#[trigger] remainders(entry, by)[j]).interval;
                &&& piece.wf()
                &&& apart(piece, by)
                &&& entry.interval.start <= piece.start
                &&& piece.end <= entry.interval.end
                &&& (piece.start < piece.end || piece == entry.interval)
                &&& remainders(entry, by)[j].description == entry.description
            },
        well_formed(remainders(entry, by)),
{
}

/// The remainders of entries that all lie before `upper` lie before it too.
proof fn lemma_carved_below(s: Seq<PlanEntryView>, by: Interval, upper: Interval)
    requires
        well_formed(s),
        by.wf(),
        upper.wf(),
        forall|i: int|
            0 <= i < s.len() ==> (#[trigger] s[i]).interval.spec_precedes(&upper)
                && !s[i].interval.spec_intercepts(&upper),
    ensures
        forall|j: int|
            0 <= j < carved(s, by).len() ==> {
                let piece = (#[trigger] carved(s, by)[j]).interval;
                &&& piece.wf()
                &&& apart(piece, by)
                &&& piece.end <= upper.start
                &&& (piece.start < piece.end || piece.spec_precedes(&upper))
            },
    decreases s.len(),
{
    if s.len() > 0 {
        let head = s.drop_last();
        assert forall|i: int| 0 <= i < head.len() implies (#[trigger] head[i]).interval.spec_precedes(
            &upper,
        ) && !head[i].interval.spec_intercepts(&upper) by {
            assert(head[i] == s[i]);
        }
        assert(head =~= s.take(s.len() - 1));
        lemma_prefix_wf(s, s.len() - 1);
        lemma_carved_below(head, by, upper);
        lemma_remainders(s.last(), by);
        let low = carved(head, by);
        let high = remainders(s.last(), by);
        assert(s[s.len() - 1] == s.last());
        assert forall|j: int| 0 <= j < carved(s, by).len() implies {
            let piece = (#[trigger] carved(s, by)[j]).interval;
            &&& piece.wf()
            &&& apart(piece, by)
            &&& piece.end <= upper.start
            &&& (piece.start < piece.end || piece.spec_precedes(&upper))
        } by {
            if j < low.len() {
                assert(carved(s, by)[j] == low[j]);
            } else {
                assert(carved(s, by)[j] == high[j - low.len()]);
            }
        }
    }
}

/// Cutting a well-formed plan set leaves a well-formed plan set.
proof fn lemma_carved_wf(s: Seq<PlanEntryView>, by: Interval)
    requires
        well_formed(s),
        by.wf(),
    ensures
        well_formed(carved(s, by)),
        forall|j: int|
            0 <= j < carved(s, by).len() ==> apart((#[trigger] carved(s, by)[j]).interval, by),
    decreases s.len(),
{
    if s.len() > 0 {
        let head = s.drop_last();
        let top = s.last();
        assert(s[s.len() - 1] == top);
        assert(head =~= s.take(s.len() - 1));
        lemma_prefix_wf(s, s.len() - 1);
        assert forall|i: int| 0 <= i < head.len() implies (#[trigger] head[i]).interval.spec_precedes(
            &top.interval,
        ) && !head[i].interval.spec_intercepts(&top.interval) by {
            assert(head[i] == s[i]);
            assert(s[i].interval.spec_precedes(&s[s.len() - 1].interval));
        }
        lemma_carved_wf(head, by);
        lemma_carved_below(head, by, top.interval);
        lemma_remainders(top, by);
        let low = carved(head, by);
        let high = remainders(top, by);
        let all = carved(s, by);
        assert(all == low + high);
        assert forall|i: int| 0 <= i < all.len() implies (#[trigger] all[i]).interval.wf() && apart(
            all[i].interval,
            by,
        ) by {
            if i < low.len() {
                assert(all[i] == low[i]);
            } else {
                assert(all[i] == high[i - low.len()]);
            }
        }
        assert forall|i: int, j: int|
            #![trigger all[i], all[j]]
            0 <= i < j < all.len() implies all[i].interval.spec_precedes(&all[j].interval)
            && !all[i].interval.spec_intercepts(&all[j].interval) by {
            if j < low.len() {
                assert(all[i] == low[i] && all[j] == low[j]);
            } else if i < low.len() {
                assert(all[i] == low[i]);
                assert(all[j] == high[j - low.len()]);
            } else {
                assert(all[i] == high[i - low.len()]);
                assert(all[j] == high[j - low.len()]);
            }
        }
    }
}

/// The rank of `interval` is the place where the entries stop coming before it.
proof fn lemma_rank(s: Seq<PlanEntryView>, interval: Interval, place: int)
    requires
        0 <= place <= s.len(),
        forall|j: int| 0 <= j < place ==> (#[trigger] s[j]).interval.spec_precedes(&interval),
        place < s.len() ==> !s[place].interval.spec_precedes(&interval),
    ensures
        rank(s, interval) == place,
    decreases s.len(),
{
    if s.len() > 0 && place > 0 {
        let tail = s.drop_first();
        assert(s[0].interval.spec_precedes(&interval));
        assert forall|j: int| 0 <= j < place - 1 implies (#[trigger] tail[j]).interval.spec_precedes(
            &interval,
        ) by {
            assert(tail[j] == s[j + 1]);
        }
        if place - 1 < tail.len() {
            assert(tail[place - 1] == s[place]);
        }
        lemma_rank(tail, interval, place - 1);
    }
}

/// The rank lies within the sequence, with the entries before it coming
/// before `interval` and the entry at it, if any, not.
proof fn lemma_rank_bounds(s: Seq<PlanEntryView>, interval: Interval)
    ensures
        0 <= rank(s, interval) <= s.len(),
        forall|j: int|
            0 <= j < rank(s, interval) ==> (#[trigger] s[j]).interval.spec_precedes(&interval),
        rank(s, interval) < s.len() ==> !s[rank(s, interval)].interval.spec_precedes(&interval),
    decreases s.len(),
{
    if s.len() > 0 && s[0].interval.spec_precedes(&interval) {
        let tail = s.drop_first();
        lemma_rank_bounds(tail, interval);
        assert forall|j: int| 0 <= j < rank(s, interval) implies (#[trigger] s[j]).interval.spec_precedes(
            &interval,
        ) by {
            if j > 0 {
                assert(tail[j - 1] == s[j]);
            }
        }
        if rank(s, interval) < s.len() {
            assert(tail[rank(tail, interval)] == s[rank(s, interval)]);
        }
    }
}

/// Putting an entry at its rank into a well-formed set whose entries are all
/// apart from it gives a well-formed set.
proof fn lemma_place_wf(rest: Seq<PlanEntryView>, entry: PlanEntryView)
    requires
        well_formed(rest),
        entry.interval.wf(),
        forall|j: int| 0 <= j < rest.len() ==> apart((#[trigger] rest[j]).interval, entry.interval),
    ensures
        well_formed(rest.insert(rank(rest, entry.interval), entry)),
{
    let place = rank(rest, entry.interval);
    lemma_rank_bounds(rest, entry.interval);
    rest.insert_ensures(place, entry);
    let all = rest.insert(place, entry);
    assert forall|j: int| place <= j < rest.len() implies !(#[trigger] rest[j]).interval.spec_precedes(
        &entry.interval,
    ) by {
        if j > place {
            assert(rest[place].interval.spec_precedes(&rest[j].interval));
        }
    }
    assert forall|i: int| 0 <= i < all.len() implies (#[trigger] all[i]).interval.wf() by {
        if i < place {
            assert(all[i] == rest[i]);
        } else if i > place {
            assert(all[i] == rest[i - 1]);
        }
    }
    assert forall|i: int, j: int|
        #![trigger all[i], all[j]]
        0 <= i < j < all.len() implies all[i].interval.spec_precedes(&all[j].interval)
        && !all[i].interval.spec_intercepts(&all[j].interval) by {
        if j < place {
            assert(all[i] == rest[i] && all[j] == rest[j]);
        } else if j == place {
            assert(all[i] == rest[i]);
        } else if i < place {
            assert(all[i] == rest[i] && all[j] == rest[j - 1]);
        } else if i == place {
            assert(all[j] == rest[j - 1]);
        } else {
            assert(all[i] == rest[i - 1] && all[j] == rest[j - 1]);
        }
    }
}

/// Inserting with overriding keeps a plan set well formed.
pub proof fn lemma_overridden_wf(s: Seq<PlanEntryView>, interval: Interval, description: Seq<char>)
    requires
        well_formed(s),
        interval.wf(),
    ensures
        well_formed(overridden(s, interval, description)),
{
    lemma_carved_wf(s, interval);
    lemma_place_wf(carved(s, interval), PlanEntryView { interval, description });
}

/// Whatever is inserted, in whatever order, the plan set stays well formed:
/// its entries are in order and no two of them intersect.
pub proof fn lemma_overridden_all_wf(inserts: Seq<PlanEntryView>)
    requires
        forall|k: int| 0 <= k < inserts.len() ==> (#[trigger] inserts[k]).interval.wf(),
    ensures
        well_formed(overridden_all(inserts)),
    decreases inserts.len(),
{
    if inserts.len() > 0 {
        let head = inserts.drop_last();
        assert forall|k: int| 0 <= k < head.len() implies (#[trigger] head[k]).interval.wf() by {
            assert(head[k] == inserts[k]);
        }
        lemma_overridden_all_wf(head);
        assert(inserts[inserts.len() - 1].interval.wf());
        lemma_overridden_wf(
            overridden_all(head),
            inserts.last().interval,
            inserts.last().description,
        );
    }
}

/// Two intervals are disjoint when they do not overlap and neither lies
/// within the other.
pub open spec fn disjoint(a: Interval, b: Interval) -> bool {
    !a.spec_intercepts(&b) && !a.spec_contains(&b) && !b.spec_contains(&a)
}

/// Cutting goes through a sequence piece by piece.
proof fn lemma_carved_concat(a: Seq<PlanEntryView>, b: Seq<PlanEntryView>, by: Interval)
    ensures
        carved(a + b, by) == carved(a, by) + carved(b, by),
    decreases b.len(),
{
    if b.len() == 0 {
        assert(a + b =~= a);
        assert(carved(a, by) + carved(b, by) =~= carved(a, by));
    } else {
        assert((a + b).drop_last() =~= a + b.drop_last());
        assert((a + b).last() == b.last());
        lemma_carved_concat(a, b.drop_last(), by);
        assert(carved(a, by) + (carved(b.drop_last(), by) + remainders(b.last(), by)) =~= (carved(
            a,
            by,
        ) + carved(b.drop_last(), by)) + remainders(b.last(), by));
    }
}

/// Entries that are all apart from `by` are left as they are.
proof fn lemma_carved_apart(s: Seq<PlanEntryView>, by: Interval)
    requires
        forall|j: int| 0 <= j < s.len() ==> apart((#[trigger] s[j]).interval, by),
    ensures
        carved(s, by) == s,
    decreases s.len(),
{
    if s.len() > 0 {
        let head = s.drop_last();
        assert forall|j: int| 0 <= j < head.len() implies apart(
            (#[trigger] head[j]).interval,
            by,
        ) by {
            assert(head[j] == s[j]);
        }
        lemma_carved_apart(head, by);
        assert(apart(s[s.len() - 1].interval, by));
        assert(remainders(s.last(), by) =~= seq![s.last()]);
        assert(head + seq![s.last()] =~= s);
    }
}

/// Inserting the same entry a second time changes nothing.
pub proof fn lemma_overridden_twice(s: Seq<PlanEntryView>, interval: Interval, description: Seq<char>)
    requires
        well_formed(s),
        interval.wf(),
    ensures
        overridden(overridden(s, interval, description), interval, description) == overridden(
            s,
            interval,
            description,
        ),
{
    let rest = carved(s, interval);
    let place = rank(rest, interval);
    let entry = PlanEntryView { interval, description };
    let once = rest.insert(place, entry);
    lemma_carved_wf(s, interval);
    lemma_rank_bounds(rest, interval);
    let low = rest.subrange(0, place);
    let high = rest.subrange(place, rest.len() as int);
    assert(once == low.push(entry) + high);
    assert(low.push(entry) =~= low + seq![entry]);
    lemma_carved_concat(low + seq![entry], high, interval);
    lemma_carved_concat(low, seq![entry], interval);
    assert forall|j: int| 0 <= j < low.len() implies apart((#[trigger] low[j]).interval, interval) by {
        assert(low[j] == rest[j]);
    }
    assert forall|j: int| 0 <= j < high.len() implies apart(
        (#[trigger] high[j]).interval,
        interval,
    ) by {
        assert(high[j] == rest[j + place]);
    }
    lemma_carved_apart(low, interval);
    lemma_carved_apart(high, interval);
    let alone = seq![entry];
    assert(carved(alone, interval) =~= Seq::<PlanEntryView>::empty()) by {
        assert(alone.len() == 1);
        assert(alone.drop_last() =~= Seq::<PlanEntryView>::empty());
        assert(alone.last() == entry);
        assert(carved(alone.drop_last(), interval) =~= Seq::<PlanEntryView>::empty());
        assert(remainders(entry, interval) =~= Seq::<PlanEntryView>::empty());
        assert(carved(alone, interval) == carved(alone.drop_last(), interval) + remainders(
            alone.last(),
            interval,
        ));
    }
    assert(carved(once, interval) =~= rest);
}

/// Inserting mutually disjoint intervals into the empty plan set leaves
/// exactly the inserted entries.
pub proof fn lemma_disjoint_inserts(inserts: Seq<PlanEntryView>)
    requires
        forall|k: int| 0 <= k < inserts.len() ==> (#[trigger] inserts[k]).interval.wf(),
        forall|a: int, b: int|
            #![trigger inserts[a], inserts[b]]
            0 <= a < b < inserts.len() ==> disjoint(inserts[a].interval, inserts[b].interval),
    ensures
        well_formed(overridden_all(inserts)),
        overridden_all(inserts).to_set() == inserts.to_set(),
    decreases inserts.len(),
{
    if inserts.len() == 0 {
        assert(overridden_all(inserts).to_set() =~= inserts.to_set());
    } else {
        let head = inserts.drop_last();
        let top = inserts.last();
        assert forall|k: int| 0 <= k < head.len() implies (#[trigger] head[k]).interval.wf() by {
            assert(head[k] == inserts[k]);
        }
        assert forall|a: int, b: int|
            #![trigger head[a], head[b]]
            0 <= a < b < head.len() implies disjoint(head[a].interval, head[b].interval) by {
            assert(head[a] == inserts[a] && head[b] == inserts[b]);
        }
        lemma_disjoint_inserts(head);
        let held = overridden_all(head);
        assert(inserts[inserts.len() - 1] == top);
        assert forall|j: int| 0 <= j < held.len() implies apart(
            (#[trigger] held[j]).interval,
            top.interval,
        ) by {
            assert(held.to_set().contains(held[j]));
            assert(head.contains(held[j]));
            let k = choose|k: int| 0 <= k < head.len() && head[k] == held[j];
            assert(head[k] == inserts[k]);
        }
        lemma_carved_apart(held, top.interval);
        lemma_rank_bounds(held, top.interval);
        lemma_overridden_wf(held, top.interval, top.description);
        let place = rank(held, top.interval);
        let all = held.insert(place, top);
        held.insert_ensures(place, top);
        assert(overridden_all(inserts) == all);
        assert forall|e: PlanEntryView| all.to_set().contains(e) <==> inserts.to_set().contains(
            e,
        ) by {
            if all.contains(e) {
                let i = choose|i: int| 0 <= i < all.len() && all[i] == e;
                if i == place {
                    assert(inserts[inserts.len() - 1] == e);
                } else {
                    let j = if i < place { i } else { i - 1 };
                    assert(held[j] == e);
                    assert(held.to_set().contains(e));
                    assert(head.contains(e));
                    let k = choose|k: int| 0 <= k < head.len() && head[k] == e;
                    assert(inserts[k] == e);
                }
            }
            if inserts.contains(e) {
                let k = choose|k: int| 0 <= k < inserts.len() && inserts[k] == e;
                if k == inserts.len() - 1 {
                    assert(all[place] == e);
                } else {
                    assert(head[k] == e);
                    assert(head.to_set().contains(e));
                    assert(held.contains(e));
                    let j = choose|j: int| 0 <= j < held.len() && held[j] == e;
                    if j < place {
                        assert(all[j] == e);
                    } else {
                        assert(all[j + 1] == e);
                    }
                }
            }
        }
        assert(all.to_set() =~= inserts.to_set());
    }
}

/// Every remainder of a sequence carries the description of one of its
/// entries.
proof fn lemma_carved_descriptions(s: Seq<PlanEntryView>, by: Interval)
    ensures
        forall|i: int|
            0 <= i < carved(s, by).len() ==> exists|j: int|
                0 <= j < s.len() && (#[trigger] s[j]).description == (#[trigger] carved(
                    s,
                    by,
                )[i]).description,
    decreases s.len(),
{
    if s.len() > 0 {
        let head = s.drop_last();
        lemma_carved_descriptions(head, by);
        let low = carved(head, by);
        let high = remainders(s.last(), by);
        assert forall|i: int| 0 <= i < carved(s, by).len() implies exists|j: int|
            0 <= j < s.len() && (#[trigger] s[j]).description == (#[trigger] carved(
                s,
                by,
            )[i]).description by {
            if i < low.len() {
                assert(carved(s, by)[i] == low[i]);
                let j = choose|j: int|
                    0 <= j < head.len() && (#[trigger] head[j]).description == low[i].description;
                assert(head[j] == s[j]);
            } else {
                assert(carved(s, by)[i] == high[i - low.len()]);
                assert(s[s.len() - 1].description == high[i - low.len()].description);
            }
        }
    }
}

/// An insert with overriding brings in no description but its own: every
/// entry of the result carries the new description or that of an entry that
/// was there before.
pub proof fn lemma_overridden_descriptions(
    s: Seq<PlanEntryView>,
    interval: Interval,
    description: Seq<char>,
)
    ensures
        forall|i: int|
            0 <= i < overridden(s, interval, description).len() ==> (#[trigger] overridden(
                s,
                interval,
                description,
            )[i]).description == description || exists|j: int|
                0 <= j < s.len() && (#[trigger] s[j]).description == overridden(
                    s,
                    interval,
                    description,
                )[i].description,
{
    let rest = carved(s, interval);
    let place = rank(rest, interval);
    lemma_rank_bounds(rest, interval);
    lemma_carved_descriptions(s, interval);
    let entry = PlanEntryView { interval, description };
    rest.insert_ensures(place, entry);
    let all = rest.insert(place, entry);
    assert forall|i: int| 0 <= i < all.len() implies (#[trigger] all[i]).description == description
        || exists|j: int| 0 <= j < s.len() && (#[trigger] s[j]).description == all[i].description by {
        if i < place {
            assert(all[i] == rest[i]);
        } else if i > place {
            assert(all[i] == rest[i - 1]);
        }
    }
}

/// An ordered set of blocked intervals, no two of which intersect.
pub struct Plans {
    entries: Vec<PlanEntry>,
}

impl View for Plans {
    type V = Seq<PlanEntryView>;

    closed spec fn view(&self) -> Seq<PlanEntryView> {
        entry_views(self.entries@)
    }
}

impl Plans {
    /// The entries are in order and no two of them intersect. This holds of
    /// every plan set.
    #[verifier::type_invariant]
    pub open spec fn wf(&self) -> bool {
        well_formed(self@)
    }

    /// The empty plan set.
    pub fn new() -> (r: Self)
        ensures
            r@ == Seq::<PlanEntryView>::empty(),
            r.wf(),
    {
        let r = Plans { entries: Vec::new() };
        assert(r@ =~= Seq::<PlanEntryView>::empty());
        r
    }

    /// The number of entries.
    pub fn len(&self) -> (r: usize)
        ensures
            r == self@.len(),
    {
        self.entries.len()
    }

    /// The entries in order of their start.
    pub fn entries(&self) -> (r: &Vec<PlanEntry>)
        ensures
            entry_views(r@) == self@,
    {
        &self.entries
    }

    /// The interval of the entry at `index`.
    pub fn interval_at(&self, index: usize) -> (r: Interval)
        requires
            index < self@.len(),
        ensures
            r == self@[index as int].interval,
    {
        self.entries[index].interval
    }

    /// Inserts `interval` so that it wins over every entry it meets: entries
    /// within it are removed, an entry around it is split in two, and an
    /// entry that overlaps one of its ends is cut back.
    pub fn insert_with_overriding(&mut self, interval: Interval, description: String)
        requires
            interval.wf(),
        ensures
            final(self).wf(),
            final(self)@ == overridden(old(self)@, interval, description@),
    {
        proof {
            use_type_invariant(&*self);
        }
        let ghost before = self@;
        let mut rest: Vec<PlanEntry> = Vec::new();
        let mut index: usize = 0;
        assert(before.take(0) =~= Seq::<PlanEntryView>::empty());
        while index < self.entries.len()
            invariant
                index <= self.entries.len(),
                self@ == before,
                entry_views(rest@) == carved(before.take(index as int), interval),
            decreases self.entries.len() - index,
        {
            let entry = &self.entries[index];
            let taken = entry.interval;
            let ghost earlier = rest@;
            proof {
                let upto = before.take(index as int + 1);
                assert(upto.drop_last() =~= before.take(index as int));
                assert(upto.last() == entry@);
            }
            if interval.contains(&taken) {
            } else if taken.intercepts(&interval) {
                if taken.start < interval.start {
                    rest.push(
                        PlanEntry {
                            interval: Interval::new(taken.start, interval.start),
                            description: entry.description.clone(),
                        },
                    );
                }
                if interval.end < taken.end {
                    rest.push(
                        PlanEntry {
                            interval: Interval::new(interval.end, taken.end),
                            description: entry.description.clone(),
                        },
                    );
                }
            } else {
                rest.push(PlanEntry { interval: taken, description: entry.description.clone() });
            }
            assert(entry_views(rest@) =~= entry_views(earlier) + remainders(entry@, interval));
            index += 1;
        }
        assert(before.take(index as int) =~= before);
        let mut place: usize = 0;
        while place < rest.len() && rest[place].interval.precedes(&interval)
            invariant
                place <= rest.len(),
                forall|j: int|
                    0 <= j < place ==> (#[trigger] entry_views(rest@)[j]).interval.spec_precedes(
                        &interval,
                    ),
            decreases rest.len() - place,
        {
            place += 1;
        }
        let ghost cut = entry_views(rest@);
        let ghost added = PlanEntryView { interval, description: description@ };
        proof {
            lemma_rank(cut, interval, place as int);
            lemma_overridden_wf(before, interval, description@);
        }
        rest.insert(place, PlanEntry { interval, description });
        assert(entry_views(rest@) =~= cut.insert(place as int, added));
        self.entries = rest;
    }
}

} // verus!
