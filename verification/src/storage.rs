//! The event store: an ordered mapping from dates to sets of event
//! payloads, held as a date-sorted vector of entries whose event lists are
//! sorted and duplicate-free. Its abstract value is a `Map` from dates to
//! sets of character sequences.

use vstd::prelude::*;

use crate::command::Command;
use crate::date::{date_lt, Date};
use crate::text::{
    lemma_str_lt_irrefl, lemma_str_lt_trans, lemma_str_lt_trichotomy, str_eq, str_lt, str_lt_exec,
    views_of,
};

verus! {

/// One date of the table together with its events, in ascending order.
#[derive(Debug)]
pub struct Entry {
    pub date: Date,
    pub events: Vec<String>,
}

/// The payload set that an event list denotes.
pub open spec fn events_set(evs: Seq<String>) -> Set<Seq<char>> {
    views_of(evs).to_set()
}

/// Event payloads in strictly ascending lexicographic order, hence
/// duplicate-free.
pub open spec fn events_sorted(evs: Seq<String>) -> bool {
    forall|i: int, j: int| 0 <= i < j < evs.len() ==> str_lt(evs[i]@, evs[j]@)
}

/// Entries in strictly ascending date order, each event list sorted.
pub open spec fn entries_sorted(t: Seq<Entry>) -> bool {
    &&& forall|i: int, j: int|
        0 <= i < j < t.len() ==> date_lt(#[trigger] t[i].date, #[trigger] t[j].date)
    &&& forall|i: int| 0 <= i < t.len() ==> events_sorted(#[trigger] t[i].events@)
}

/// The mapping that an entry sequence denotes; later entries win, which
/// is moot once dates are distinct.
pub open spec fn table_map(t: Seq<Entry>) -> Map<Date, Set<Seq<char>>>
    decreases t.len(),
{
    if t.len() == 0 {
        Map::empty()
    } else {
        table_map(t.drop_last()).insert(t.last().date, events_set(t.last().events@))
    }
}

/// All entries carry pairwise distinct dates.
pub open spec fn dates_distinct(t: Seq<Entry>) -> bool {
    forall|i: int, j: int|
        0 <= i < t.len() && 0 <= j < t.len() && i != j ==> #[trigger] t[i].date
            != #[trigger] t[j].date
}

/// Strict date order leaves no room for equal dates.
proof fn lemma_sorted_dates_distinct(t: Seq<Entry>)
    requires
        entries_sorted(t),
    ensures
        dates_distinct(t),
{
    assert forall|i: int, j: int|
        0 <= i < t.len() && 0 <= j < t.len() && i != j implies #[trigger] t[i].date
        != #[trigger] t[j].date by {
        if i < j {
            assert(date_lt(t[i].date, t[j].date));
        } else {
            assert(date_lt(t[j].date, t[i].date));
        }
    }
}

/// A date is a key of the denoted map exactly when some entry carries it.
proof fn lemma_table_map_contains(t: Seq<Entry>, d: Date)
    ensures
        table_map(t).contains_key(d) <==> exists|i: int| 0 <= i < t.len() && t[i].date == d,
    decreases t.len(),
{
    if t.len() > 0 {
        lemma_table_map_contains(t.drop_last(), d);
        if t.last().date == d {
            assert(t[t.len() - 1].date == d);
        } else {
            if exists|i: int| 0 <= i < t.drop_last().len() && t.drop_last()[i].date == d {
                let i = choose|i: int| 0 <= i < t.drop_last().len() && t.drop_last()[i].date == d;
                assert(t[i].date == d);
            }
            if exists|i: int| 0 <= i < t.len() && t[i].date == d {
                let i = choose|i: int| 0 <= i < t.len() && t[i].date == d;
                assert(t.drop_last()[i].date == d);
            }
        }
    }
}

/// With distinct dates, the map sends an entry's date to its payload set.
proof fn lemma_table_map_value(t: Seq<Entry>, i: int)
    requires
        0 <= i < t.len(),
        dates_distinct(t),
    ensures
        table_map(t).contains_key(t[i].date),
        table_map(t)[t[i].date] == events_set(t[i].events@),
    decreases t.len(),
{
    if i == t.len() - 1 {
    } else {
        assert(t.drop_last()[i] == t[i]);
        lemma_table_map_value(t.drop_last(), i);
        assert(t.last().date != t[i].date);
    }
}

/// Replacing an entry's events replaces its date's payload set.
proof fn lemma_table_map_update(t: Seq<Entry>, i: int, e: Entry)
    requires
        0 <= i < t.len(),
        e.date == t[i].date,
        dates_distinct(t),
    ensures
        table_map(t.update(i, e)) == table_map(t).insert(e.date, events_set(e.events@)),
    decreases t.len(),
{
    if i == t.len() - 1 {
        assert(t.update(i, e).drop_last() =~= t.drop_last());
        assert(t.update(i, e).last() == e);
        assert(table_map(t.drop_last()).insert(t.last().date, events_set(t.last().events@)).insert(
            e.date,
            events_set(e.events@),
        ) =~= table_map(t.drop_last()).insert(e.date, events_set(e.events@)));
    } else {
        assert(t.update(i, e).drop_last() =~= t.drop_last().update(i, e));
        assert(t.update(i, e).last() == t.last());
        assert(t.drop_last()[i] == t[i]);
        lemma_table_map_update(t.drop_last(), i, e);
        assert(t.last().date != e.date);
        assert(table_map(t.drop_last()).insert(e.date, events_set(e.events@)).insert(
            t.last().date,
            events_set(t.last().events@),
        ) =~= table_map(t.drop_last()).insert(
            t.last().date,
            events_set(t.last().events@),
        ).insert(e.date, events_set(e.events@)));
    }
}

/// Inserting an entry under a fresh date inserts a key into the map.
proof fn lemma_table_map_insert(t: Seq<Entry>, i: int, e: Entry)
    requires
        0 <= i <= t.len(),
        forall|j: int| 0 <= j < t.len() ==> (#[trigger] t[j].date) != e.date,
    ensures
        table_map(t.insert(i, e)) == table_map(t).insert(e.date, events_set(e.events@)),
    decreases t.len(),
{
    if i == t.len() {
        assert(t.insert(i, e).drop_last() =~= t);
        assert(t.insert(i, e).last() == e);
    } else {
        assert(t.insert(i, e).drop_last() =~= t.drop_last().insert(i, e));
        assert(t.insert(i, e).last() == t.last());
        lemma_table_map_insert(t.drop_last(), i, e);
        assert(t.last().date != e.date);
        assert(table_map(t.drop_last()).insert(e.date, events_set(e.events@)).insert(
            t.last().date,
            events_set(t.last().events@),
        ) =~= table_map(t.drop_last()).insert(
            t.last().date,
            events_set(t.last().events@),
        ).insert(e.date, events_set(e.events@)));
    }
}

/// Removing an entry removes its date from the map.
proof fn lemma_table_map_remove(t: Seq<Entry>, i: int)
    requires
        0 <= i < t.len(),
        dates_distinct(t),
    ensures
        table_map(t.remove(i)) == table_map(t).remove(t[i].date),
    decreases t.len(),
{
    if i == t.len() - 1 {
        assert(t.remove(i) =~= t.drop_last());
        lemma_table_map_contains(t.drop_last(), t[i].date);
        assert(forall|j: int|
            0 <= j < t.drop_last().len() ==> (#[trigger] t.drop_last()[j].date) != t[i].date);
        assert(table_map(t.drop_last()).insert(
            t.last().date,
            events_set(t.last().events@),
        ).remove(t[i].date) =~= table_map(t.drop_last()));
    } else {
        assert(t.remove(i).drop_last() =~= t.drop_last().remove(i));
        assert(t.remove(i).last() == t.last());
        assert(t.drop_last()[i] == t[i]);
        lemma_table_map_remove(t.drop_last(), i);
        assert(t.last().date != t[i].date);
        assert(table_map(t.drop_last()).remove(t[i].date).insert(
            t.last().date,
            events_set(t.last().events@),
        ) =~= table_map(t.drop_last()).insert(
            t.last().date,
            events_set(t.last().events@),
        ).remove(t[i].date));
    }
}

/// Entry sequences that agree on dates and payload sets denote one map.
proof fn lemma_table_map_congruent(t1: Seq<Entry>, t2: Seq<Entry>)
    requires
        t1.len() == t2.len(),
        forall|i: int|
            0 <= i < t1.len() ==> ((#[trigger] t1[i]).date == t2[i].date && events_set(
                t1[i].events@,
            ) == events_set(t2[i].events@)),
    ensures
        table_map(t1) == table_map(t2),
    decreases t1.len(),
{
    if t1.len() > 0 {
        assert forall|i: int|
            0 <= i < t1.drop_last().len() implies ((#[trigger] t1.drop_last()[i]).date
            == t2.drop_last()[i].date && events_set(t1.drop_last()[i].events@) == events_set(
            t2.drop_last()[i].events@,
        )) by {
            assert(t1.drop_last()[i] == t1[i]);
            assert(t2.drop_last()[i] == t2[i]);
        }
        lemma_table_map_congruent(t1.drop_last(), t2.drop_last());
        assert(t1[t1.len() - 1].date == t2[t1.len() - 1].date);
        assert(events_set(t1[t1.len() - 1].events@) == events_set(t2[t1.len() - 1].events@));
        assert(t1.last() == t1[t1.len() - 1]);
        assert(t2.last() == t2[t1.len() - 1]);
    }
}

/// Membership in a payload set is membership of some event's text.
proof fn lemma_events_set_contains(evs: Seq<String>, x: Seq<char>)
    ensures
        events_set(evs).contains(x) <==> exists|i: int| 0 <= i < evs.len() && evs[i]@ == x,
{
    if events_set(evs).contains(x) {
        assert(views_of(evs).contains(x));
        let i = choose|i: int| 0 <= i < views_of(evs).len() && views_of(evs)[i] == x;
        assert(evs[i]@ == x);
    }
    if exists|i: int| 0 <= i < evs.len() && evs[i]@ == x {
        let i = choose|i: int| 0 <= i < evs.len() && evs[i]@ == x;
        assert(views_of(evs)[i] == x);
        assert(views_of(evs).contains(x));
    }
}

/// A sorted event list has as many entries as its payload set has members.
proof fn lemma_events_count(evs: Seq<String>)
    requires
        events_sorted(evs),
    ensures
        events_set(evs).finite(),
        events_set(evs).len() == evs.len(),
{
    broadcast use vstd::seq_lib::seq_to_set_is_finite;

    let vs = views_of(evs);
    assert forall|i: int, j: int|
        0 <= i < vs.len() && 0 <= j < vs.len() && i != j implies vs[i] != vs[j] by {
        if i < j {
            assert(str_lt(evs[i]@, evs[j]@));
            lemma_str_lt_irrefl(evs[i]@);
        } else {
            assert(str_lt(evs[j]@, evs[i]@));
            lemma_str_lt_irrefl(evs[j]@);
        }
    }
    assert(vs.no_duplicates());
    vs.unique_seq_to_set();
}

/// Recording the same payload under the same date twice changes nothing
/// after the first time: addition is idempotent on the stored map.
pub proof fn lemma_add_idempotent(m: Map<Date, Set<Seq<char>>>, d: Date, p: Seq<char>)
    ensures
        spec_add(spec_add(m, d, p), d, p) == spec_add(m, d, p),
{
    let m1 = spec_add(m, d, p);
    assert(m1[d].insert(p) =~= m1[d]);
    assert(spec_add(m1, d, p) =~= m1);
}

/// Dropping the last event of a sorted list removes exactly its payload
/// from the denoted set.
proof fn lemma_events_set_drop_last(e: Seq<String>)
    requires
        events_sorted(e),
        e.len() > 0,
    ensures
        events_sorted(e.drop_last()),
        events_set(e.drop_last()) == events_set(e).remove(e.last()@),
{
    let x = e.last()@;
    assert forall|j: int| 0 <= j < e.len() - 1 implies (#[trigger] e[j])@ != x by {
        assert(str_lt(e[j]@, e[e.len() - 1]@));
        lemma_str_lt_irrefl(x);
    }
    assert forall|y: Seq<char>| true implies (events_set(e.drop_last()).contains(y) == events_set(
        e,
    ).remove(x).contains(y)) by {
        lemma_events_set_contains(e.drop_last(), y);
        lemma_events_set_contains(e, y);
        if events_set(e.drop_last()).contains(y) {
            let k = choose|k: int| 0 <= k < e.drop_last().len() && e.drop_last()[k]@ == y;
            assert(e[k]@ == y);
            assert(y != x);
        }
        if events_set(e).contains(y) && y != x {
            let k = choose|k: int| 0 <= k < e.len() && e[k]@ == y;
            assert(k != e.len() - 1);
            assert(e.drop_last()[k]@ == y);
        }
    }
    assert(events_set(e.drop_last()) =~= events_set(e).remove(x));
}

/// Sorted event lists with the same payload set are the same list: the
/// ascending order of a date's events is unique.
pub proof fn lemma_sorted_events_unique(e1: Seq<String>, e2: Seq<String>)
    requires
        events_sorted(e1),
        events_sorted(e2),
        events_set(e1) == events_set(e2),
    ensures
        views_of(e1) == views_of(e2),
    decreases e1.len(),
{
    if e1.len() == 0 && e2.len() == 0 {
        assert(views_of(e1) =~= views_of(e2));
    } else if e1.len() == 0 {
        lemma_events_set_contains(e2, e2[0]@);
        lemma_events_set_contains(e1, e2[0]@);
        assert(false);
    } else if e2.len() == 0 {
        lemma_events_set_contains(e1, e1[0]@);
        lemma_events_set_contains(e2, e1[0]@);
        assert(false);
    } else {
        let x1 = e1.last()@;
        let x2 = e2.last()@;
        lemma_events_set_contains(e1, x1);
        lemma_events_set_contains(e2, x1);
        lemma_events_set_contains(e1, x2);
        lemma_events_set_contains(e2, x2);
        assert(e1[e1.len() - 1]@ == x1);
        assert(e2[e2.len() - 1]@ == x2);
        if x1 != x2 {
            let k1 = choose|k: int| 0 <= k < e2.len() && e2[k]@ == x1;
            assert(k1 < e2.len() - 1);
            assert(str_lt(x1, x2));
            let k2 = choose|k: int| 0 <= k < e1.len() && e1[k]@ == x2;
            assert(k2 < e1.len() - 1);
            assert(str_lt(x2, x1));
            lemma_str_lt_trans(x1, x2, x1);
            lemma_str_lt_irrefl(x1);
            assert(false);
        }
        lemma_events_set_drop_last(e1);
        lemma_events_set_drop_last(e2);
        lemma_sorted_events_unique(e1.drop_last(), e2.drop_last());
        assert(views_of(e1.drop_last()).len() == e1.drop_last().len());
        assert(views_of(e2.drop_last()).len() == e2.drop_last().len());
        assert(e1.len() == e2.len());
        assert(views_of(e1).len() == views_of(e2).len());
        assert forall|i: int| 0 <= i < e1.len() implies views_of(e1)[i] == views_of(e2)[i] by {
            if i < e1.len() - 1 {
                assert(views_of(e1.drop_last())[i] == views_of(e2.drop_last())[i]);
                assert(views_of(e1.drop_last())[i] == e1.drop_last()[i]@);
                assert(e1.drop_last()[i] == e1[i]);
                assert(e2.drop_last()[i] == e2[i]);
            }
        }
        assert(views_of(e1) =~= views_of(e2));
    }
}

/// Date-sorted tables that denote the same map are the same table: the
/// ascending snapshot that a full listing returns is unique, whatever
/// order the dates were recorded in.
pub proof fn lemma_print_unique(t1: Seq<Entry>, t2: Seq<Entry>)
    requires
        entries_sorted(t1),
        entries_sorted(t2),
        table_map(t1) == table_map(t2),
    ensures
        t1.len() == t2.len(),
        forall|i: int|
            0 <= i < t1.len() ==> ((#[trigger] t1[i]).date == t2[i].date && views_of(t1[i].events@)
                == views_of(t2[i].events@)),
    decreases t1.len(),
{
    lemma_sorted_dates_distinct(t1);
    lemma_sorted_dates_distinct(t2);
    if t1.len() == 0 && t2.len() == 0 {
    } else if t1.len() == 0 {
        lemma_table_map_contains(t1, t2[t2.len() - 1].date);
        lemma_table_map_contains(t2, t2[t2.len() - 1].date);
        assert(false);
    } else if t2.len() == 0 {
        lemma_table_map_contains(t1, t1[t1.len() - 1].date);
        lemma_table_map_contains(t2, t1[t1.len() - 1].date);
        assert(false);
    } else {
        let d1 = t1[t1.len() - 1].date;
        let d2 = t2[t2.len() - 1].date;
        lemma_table_map_contains(t1, d1);
        lemma_table_map_contains(t2, d1);
        lemma_table_map_contains(t1, d2);
        lemma_table_map_contains(t2, d2);
        if d1 != d2 {
            let k1 = choose|k: int| 0 <= k < t2.len() && t2[k].date == d1;
            assert(k1 < t2.len() - 1);
            assert(date_lt(d1, d2));
            let k2 = choose|k: int| 0 <= k < t1.len() && t1[k].date == d2;
            assert(k2 < t1.len() - 1);
            assert(date_lt(d2, d1));
            assert(false);
        }
        lemma_table_map_value(t1, t1.len() - 1);
        lemma_table_map_value(t2, t2.len() - 1);
        assert(events_set(t1[t1.len() - 1].events@) == events_set(t2[t2.len() - 1].events@));
        lemma_sorted_events_unique(t1[t1.len() - 1].events@, t2[t2.len() - 1].events@);
        lemma_table_map_remove(t1, t1.len() - 1);
        lemma_table_map_remove(t2, t2.len() - 1);
        assert(t1.remove(t1.len() - 1) =~= t1.drop_last());
        assert(t2.remove(t2.len() - 1) =~= t2.drop_last());
        assert(table_map(t1.drop_last()) == table_map(t2.drop_last()));
        assert forall|a: int, b: int| 0 <= a < b < t1.drop_last().len() implies date_lt(
            (#[trigger] t1.drop_last()[a]).date,
            (#[trigger] t1.drop_last()[b]).date,
        ) by {
            assert(t1.drop_last()[a] == t1[a]);
            assert(t1.drop_last()[b] == t1[b]);
        }
        assert forall|k: int| 0 <= k < t1.drop_last().len() implies events_sorted(
            (#[trigger] t1.drop_last()[k]).events@,
        ) by {
            assert(t1.drop_last()[k] == t1[k]);
        }
        assert forall|a: int, b: int| 0 <= a < b < t2.drop_last().len() implies date_lt(
            (#[trigger] t2.drop_last()[a]).date,
            (#[trigger] t2.drop_last()[b]).date,
        ) by {
            assert(t2.drop_last()[a] == t2[a]);
            assert(t2.drop_last()[b] == t2[b]);
        }
        assert forall|k: int| 0 <= k < t2.drop_last().len() implies events_sorted(
            (#[trigger] t2.drop_last()[k]).events@,
        ) by {
            assert(t2.drop_last()[k] == t2[k]);
        }
        lemma_print_unique(t1.drop_last(), t2.drop_last());
        assert forall|i: int|
            0 <= i < t1.len() implies ((#[trigger] t1[i]).date == t2[i].date && views_of(
            t1[i].events@,
        ) == views_of(t2[i].events@)) by {
            if i < t1.len() - 1 {
                assert(t1.drop_last()[i] == t1[i]);
                assert(t2.drop_last()[i] == t2[i]);
                assert(t1.drop_last()[i].date == t2.drop_last()[i].date);
            }
        }
    }
}

/// Position of the first event not below `p`, scanning left to right.
fn event_lower_bound(evs: &Vec<String>, p: &String) -> (r: usize)
    ensures
        r <= evs@.len(),
        forall|j: int| 0 <= j < r ==> str_lt((#[trigger] evs@[j])@, p@),
        r < evs@.len() ==> !str_lt(evs@[r as int]@, p@),
{
    let n = evs.len();
    let mut i: usize = 0;
    while i < n
        invariant
            0 <= i <= n,
            n == evs@.len(),
            forall|j: int| 0 <= j < i ==> str_lt((#[trigger] evs@[j])@, p@),
        decreases n - i,
    {
        if !str_lt_exec(evs[i].as_str(), p.as_str()) {
            return i;
        }
        i += 1;
    }
    i
}

/// Inserts `p` into a sorted event list; already-present payloads leave
/// the list unchanged.
fn insert_event(evs: &mut Vec<String>, p: String)
    requires
        events_sorted(old(evs)@),
    ensures
        events_sorted(final(evs)@),
        events_set(final(evs)@) == events_set(old(evs)@).insert(p@),
{
    let ghost t0 = evs@;
    let i = event_lower_bound(evs, &p);
    if i < evs.len() && str_eq(evs[i].as_str(), p.as_str()) {
        proof {
            lemma_events_set_contains(t0, p@);
            assert(events_set(t0).contains(p@));
            assert(events_set(t0).insert(p@) =~= events_set(t0));
        }
    } else {
        proof {
            if i < t0.len() {
                lemma_str_lt_trichotomy(p@, t0[i as int]@);
                assert(str_lt(p@, t0[i as int]@));
            }
        }
        evs.insert(i, p);
        proof {
            let t1 = evs@;
            assert(t1 == t0.insert(i as int, p));
            assert forall|a: int, b: int| 0 <= a < b < t1.len() implies str_lt(
                (#[trigger] t1[a])@,
                (#[trigger] t1[b])@,
            ) by {
                if b < i {
                    assert(t1[a] == t0[a] && t1[b] == t0[b]);
                } else if b == i {
                    assert(t1[a] == t0[a]);
                    assert(str_lt(t0[a]@, p@));
                } else if a < i {
                    assert(t1[a] == t0[a] && t1[b] == t0[b - 1]);
                    if a == b - 1 {
                    } else {
                        if i <= b - 1 && i < t0.len() && a < i {
                            if a < b - 1 {
                                assert(str_lt(t0[a]@, t0[b - 1]@));
                            }
                        }
                    }
                } else if a == i {
                    assert(t1[a]@ == p@ && t1[b] == t0[b - 1]);
                    assert(b - 1 >= i);
                    if b - 1 == i {
                        assert(str_lt(p@, t0[i as int]@));
                    } else {
                        assert(str_lt(t0[i as int]@, t0[b - 1]@));
                        lemma_str_lt_trans(p@, t0[i as int]@, t0[b - 1]@);
                    }
                } else {
                    assert(t1[a] == t0[a - 1] && t1[b] == t0[b - 1]);
                }
            }
            assert forall|x: Seq<char>| true implies (events_set(t1).contains(x) == events_set(
                t0,
            ).insert(p@).contains(x)) by {
                lemma_events_set_contains(t1, x);
                lemma_events_set_contains(t0, x);
                if events_set(t1).contains(x) {
                    let k = choose|k: int| 0 <= k < t1.len() && t1[k]@ == x;
                    if k < i {
                        assert(t0[k]@ == x);
                    } else if k == i {
                        assert(x == p@);
                    } else {
                        assert(t0[k - 1]@ == x);
                    }
                }
                if events_set(t0).contains(x) {
                    let k = choose|k: int| 0 <= k < t0.len() && t0[k]@ == x;
                    if k < i {
                        assert(t1[k]@ == x);
                    } else {
                        assert(t1[k + 1]@ == x);
                    }
                }
                if x == p@ {
                    assert(t1[i as int]@ == x);
                }
            }
            assert(events_set(t1) =~= events_set(t0).insert(p@));
        }
    }
}

/// Removes `p` from a sorted event list; reports whether it was present.
fn remove_event(evs: &mut Vec<String>, p: &String) -> (found: bool)
    requires
        events_sorted(old(evs)@),
    ensures
        events_sorted(final(evs)@),
        found ==> events_set(old(evs)@).contains(p@) && events_set(final(evs)@) == events_set(
            old(evs)@,
        ).remove(p@),
        !found ==> final(evs)@ == old(evs)@ && !events_set(old(evs)@).contains(p@),
{
    let ghost t0 = evs@;
    let i = event_lower_bound(evs, p);
    if i < evs.len() && str_eq(evs[i].as_str(), p.as_str()) {
        evs.remove(i);
        proof {
            let t1 = evs@;
            assert(t1 == t0.remove(i as int));
            assert(t0[i as int]@ == p@);
            lemma_events_set_contains(t0, p@);
            assert forall|a: int, b: int| 0 <= a < b < t1.len() implies str_lt(
                (#[trigger] t1[a])@,
                (#[trigger] t1[b])@,
            ) by {
                if a < i && b < i {
                    assert(t1[a] == t0[a] && t1[b] == t0[b]);
                } else if a < i {
                    assert(t1[a] == t0[a] && t1[b] == t0[b + 1]);
                } else {
                    assert(t1[a] == t0[a + 1] && t1[b] == t0[b + 1]);
                }
            }
            assert forall|j: int| 0 <= j < t0.len() && j != i implies (#[trigger] t0[j])@
                != p@ by {
                if j < i {
                    assert(str_lt(t0[j]@, p@));
                    lemma_str_lt_irrefl(p@);
                } else {
                    assert(str_lt(t0[i as int]@, t0[j]@));
                    lemma_str_lt_irrefl(p@);
                }
            }
            assert forall|x: Seq<char>| true implies (events_set(t1).contains(x) == events_set(
                t0,
            ).remove(p@).contains(x)) by {
                lemma_events_set_contains(t1, x);
                lemma_events_set_contains(t0, x);
                if events_set(t1).contains(x) {
                    let k = choose|k: int| 0 <= k < t1.len() && t1[k]@ == x;
                    if k < i {
                        assert(t0[k]@ == x);
                        assert(x != p@);
                    } else {
                        assert(t0[k + 1]@ == x);
                        assert(x != p@);
                    }
                }
                if events_set(t0).contains(x) && x != p@ {
                    let k = choose|k: int| 0 <= k < t0.len() && t0[k]@ == x;
                    if k < i {
                        assert(t1[k]@ == x);
                    } else {
                        assert(k != i);
                        assert(t1[k - 1]@ == x);
                    }
                }
            }
            assert(events_set(t1) =~= events_set(t0).remove(p@));
        }
        true
    } else {
        proof {
            assert forall|j: int| 0 <= j < t0.len() implies (#[trigger] t0[j])@ != p@ by {
                lemma_str_lt_irrefl(p@);
                if j < i {
                    assert(str_lt(t0[j]@, p@));
                } else {
                    lemma_str_lt_trichotomy(p@, t0[i as int]@);
                    assert(str_lt(p@, t0[i as int]@));
                    if j > i {
                        assert(str_lt(t0[i as int]@, t0[j]@));
                        lemma_str_lt_trans(p@, t0[i as int]@, t0[j]@);
                    }
                }
            }
            lemma_events_set_contains(t0, p@);
        }
        false
    }
}

/// A fresh event list with the same payload texts.
fn clone_events(evs: &Vec<String>) -> (r: Vec<String>)
    ensures
        views_of(r@) == views_of(evs@),
{
    let n = evs.len();
    let mut r: Vec<String> = Vec::new();
    let mut i: usize = 0;
    while i < n
        invariant
            0 <= i <= n,
            n == evs@.len(),
            views_of(r@) == views_of(evs@).subrange(0, i as int),
        decreases n - i,
    {
        let x = evs[i].clone();
        let ghost r0 = r@;
        r.push(x);
        proof {
            assert(r@ == r0.push(x));
            assert(views_of(r@) =~= views_of(r0).push(x@));
            assert(views_of(r@) =~= views_of(evs@).subrange(0, i + 1));
        }
        i += 1;
    }
    proof {
        assert(views_of(evs@).subrange(0, n as int) =~= views_of(evs@));
    }
    r
}

/// A fresh table with the same dates and payload texts.
fn clone_table(t: &Vec<Entry>) -> (r: Vec<Entry>)
    ensures
        r@.len() == t@.len(),
        forall|i: int|
            0 <= i < t@.len() ==> ((#[trigger] r@[i]).date == t@[i].date && views_of(
                r@[i].events@,
            ) == views_of(t@[i].events@)),
{
    let n = t.len();
    let mut r: Vec<Entry> = Vec::new();
    let mut i: usize = 0;
    while i < n
        invariant
            0 <= i <= n,
            n == t@.len(),
            r@.len() == i,
            forall|j: int|
                0 <= j < i ==> ((#[trigger] r@[j]).date == t@[j].date && views_of(r@[j].events@)
                    == views_of(t@[j].events@)),
        decreases n - i,
    {
        let events = clone_events(&t[i].events);
        r.push(Entry { date: t[i].date, events });
        i += 1;
    }
    r
}

/// Position of the first entry whose date is not below `d`.
fn date_lower_bound(t: &Vec<Entry>, d: &Date) -> (r: usize)
    ensures
        r <= t@.len(),
        forall|j: int| 0 <= j < r ==> date_lt((#[trigger] t@[j]).date, *d),
        r < t@.len() ==> !date_lt(t@[r as int].date, *d),
{
    let n = t.len();
    let mut i: usize = 0;
    while i < n
        invariant
            0 <= i <= n,
            n == t@.len(),
            forall|j: int| 0 <= j < i ==> date_lt((#[trigger] t@[j]).date, *d),
        decreases n - i,
    {
        if !t[i].date.lt(d) {
            return i;
        }
        i += 1;
    }
    i
}

/// What a command did, as a structured value for the caller to render.
#[derive(Debug)]
pub enum ExecutionStatus {
    /// A deletion named a date that holds no entry.
    NoDate,
    /// A deletion named an event that its date does not hold.
    NoEvent,
    /// A deletion succeeded; whole-date deletion carries the event count.
    Deleted(Option<usize>),
    /// The events under the looked-up date, in ascending order.
    Found(Vec<String>),
    /// A snapshot of the whole table in ascending date order.
    Printed(Vec<Entry>),
    /// Nothing to report.
    Done,
}

/// The map after an event payload is recorded under a date.
pub open spec fn spec_add(m: Map<Date, Set<Seq<char>>>, d: Date, p: Seq<char>) -> Map<
    Date,
    Set<Seq<char>>,
> {
    let s = if m.contains_key(d) {
        m[d]
    } else {
        Set::<Seq<char>>::empty()
    };
    m.insert(d, s.insert(p))
}

/// The ordered date-to-events table.
#[derive(Debug)]
pub struct Storage {
    table: Vec<Entry>,
}

impl View for Storage {
    type V = Map<Date, Set<Seq<char>>>;

    closed spec fn view(&self) -> Map<Date, Set<Seq<char>>> {
        table_map(self.table@)
    }
}

impl Storage {
    /// Internal well-formedness: entries strictly sorted by date, each
    /// event list strictly sorted.
    pub closed spec fn wf(&self) -> bool {
        entries_sorted(self.table@)
    }

    /// An empty store.
    pub fn new() -> (s: Storage)
        ensures
            s.wf(),
            s@ == Map::<Date, Set<Seq<char>>>::empty(),
    {
        Storage { table: Vec::new() }
    }

    /// Dispatches one command against the table and reports the outcome.
    ///
    /// Whole-date deletion drops the date's entry; deleting the last
    /// event of a date by name keeps the date with an empty event set,
    /// and a lookup of an absent date answers `Ok`, not a dedicated
    /// not-found value: both quirks are preserved deliberately. `Exit`
    /// is never routed here by the run loop and leaves the table as it
    /// is.
    pub fn execute(&mut self, cmd: Command) -> (r: ExecutionStatus)
        requires
            old(self).wf(),
        ensures
            final(self).wf(),
            ({
                let m = old(self)@;
                match cmd {
                    Command::Add(d, p) => final(self)@ == spec_add(m, d, p@) && r is Done,
                    Command::Delete(d, opt) => match opt {
                        Some(p) => {
                            if !m.contains_key(d) {
                                final(self)@ == m && r is NoDate
                            } else if m[d].contains(p@) {
                                final(self)@ == m.insert(d, m[d].remove(p@)) && r
                                    == ExecutionStatus::Deleted(None)
                            } else {
                                final(self)@ == m && r is NoEvent
                            }
                        },
                        None => {
                            if !m.contains_key(d) {
                                final(self)@ == m && r is NoDate
                            } else {
                                final(self)@ == m.remove(d) && (r matches ExecutionStatus::Deleted(
                                    Some(n),
                                ) && n == m[d].len())
                            }
                        },
                    },
                    Command::Find(d) => final(self)@ == m && (if m.contains_key(d) {
                        r matches ExecutionStatus::Found(evs) && events_sorted(evs@) && events_set(
                            evs@,
                        ) == m[d]
                    } else {
                        r is Done
                    }),
                    Command::Print => final(self)@ == m && (r matches ExecutionStatus::Printed(t)
                        && entries_sorted(t@) && table_map(t@) == m),
                    Command::Exit => final(self)@ == m && r is Done,
                }
            }),
    {
        let ghost t0 = self.table@;
        proof {
            lemma_sorted_dates_distinct(t0);
        }
        match cmd {
            Command::Add(d, p) => {
                let i = date_lower_bound(&self.table, &d);
                if i < self.table.len() && self.table[i].date == d {
                    let mut entry = self.table.remove(i);
                    insert_event(&mut entry.events, p);
                    let ghost e2 = entry;
                    self.table.insert(i, entry);
                    proof {
                        assert(self.table@ =~= t0.update(i as int, e2));
                        lemma_table_map_value(t0, i as int);
                        lemma_table_map_update(t0, i as int, e2);
                        assert forall|a: int, b: int|
                            0 <= a < b < self.table@.len() implies date_lt(
                            (#[trigger] self.table@[a]).date,
                            (#[trigger] self.table@[b]).date,
                        ) by {
                            assert(self.table@[a].date == t0[a].date);
                            assert(self.table@[b].date == t0[b].date);
                        }
                        assert(final(self).wf());
                        assert(final(self)@ =~= spec_add(old(self)@, d, p@));
                    }
                    ExecutionStatus::Done
                } else {
                    proof {
                        assert forall|j: int| 0 <= j < t0.len() implies (#[trigger] t0[j]).date
                            != d by {
                            if j > i {
                                assert(date_lt(t0[i as int].date, t0[j].date));
                            }
                        }
                        lemma_table_map_contains(t0, d);
                    }
                    let mut events: Vec<String> = Vec::new();
                    events.push(p);
                    let ghost e = Entry { date: d, events: events };
                    proof {
                        assert(events_sorted(e.events@));
                        assert forall|x: Seq<char>| true implies (events_set(e.events@).contains(x)
                            == Set::<Seq<char>>::empty().insert(p@).contains(x)) by {
                            lemma_events_set_contains(e.events@, x);
                            if x == p@ {
                                assert(e.events@[0]@ == x);
                            }
                        }
                        assert(events_set(e.events@) =~= Set::<Seq<char>>::empty().insert(p@));
                    }
                    self.table.insert(i, Entry { date: d, events });
                    proof {
                        assert(self.table@ == t0.insert(i as int, self.table@[i as int]));
                        assert(self.table@[i as int] == e);
                        lemma_table_map_insert(t0, i as int, e);
                        let t1 = self.table@;
                        assert forall|a: int, b: int| 0 <= a < b < t1.len() implies date_lt(
                            (#[trigger] t1[a]).date,
                            (#[trigger] t1[b]).date,
                        ) by {
                            if b < i {
                                assert(t1[a] == t0[a] && t1[b] == t0[b]);
                            } else if b == i {
                                assert(t1[a] == t0[a]);
                            } else if a < i {
                                assert(t1[a] == t0[a] && t1[b] == t0[b - 1]);
                                if a < b - 1 {
                                    assert(date_lt(t0[a].date, t0[b - 1].date));
                                }
                            } else if a == i {
                                assert(t1[b] == t0[b - 1]);
                                assert(!date_lt(t0[i as int].date, d));
                                if b - 1 > i {
                                    assert(date_lt(t0[i as int].date, t0[b - 1].date));
                                }
                            } else {
                                assert(t1[a] == t0[a - 1] && t1[b] == t0[b - 1]);
                            }
                        }
                        assert forall|k: int| 0 <= k < t1.len() implies events_sorted(
                            (#[trigger] t1[k]).events@,
                        ) by {
                            if k < i {
                                assert(t1[k] == t0[k]);
                            } else if k > i {
                                assert(t1[k] == t0[k - 1]);
                            }
                        }
                        assert(final(self).wf());
                        assert(final(self)@ =~= spec_add(old(self)@, d, p@));
                    }
                    ExecutionStatus::Done
                }
            },
            Command::Delete(d, opt) => {
                let i = date_lower_bound(&self.table, &d);
                if !(i < self.table.len() && self.table[i].date == d) {
                    proof {
                        assert forall|j: int| 0 <= j < t0.len() implies (#[trigger] t0[j]).date
                            != d by {
                            if j > i {
                                assert(date_lt(t0[i as int].date, t0[j].date));
                            }
                        }
                        lemma_table_map_contains(t0, d);
                    }
                    ExecutionStatus::NoDate
                } else {
                    proof {
                        lemma_table_map_value(t0, i as int);
                    }
                    match opt {
                        Some(p) => {
                            let mut entry = self.table.remove(i);
                            let found = remove_event(&mut entry.events, &p);
                            let ghost e2 = entry;
                            self.table.insert(i, entry);
                            proof {
                                assert(self.table@ =~= t0.update(i as int, e2));
                                lemma_table_map_update(t0, i as int, e2);
                                assert forall|a: int, b: int|
                                    0 <= a < b < self.table@.len() implies date_lt(
                                    (#[trigger] self.table@[a]).date,
                                    (#[trigger] self.table@[b]).date,
                                ) by {
                                    assert(self.table@[a].date == t0[a].date);
                                    assert(self.table@[b].date == t0[b].date);
                                }
                                assert(final(self).wf());
                                if !found {
                                    assert(events_set(e2.events@) == events_set(
                                        t0[i as int].events@,
                                    ));
                                    assert(old(self)@.insert(d, events_set(e2.events@)) =~= old(
                                        self,
                                    )@);
                                }
                            }
                            if found {
                                ExecutionStatus::Deleted(None)
                            } else {
                                ExecutionStatus::NoEvent
                            }
                        },
                        None => {
                            let entry = self.table.remove(i);
                            proof {
                                lemma_table_map_remove(t0, i as int);
                                lemma_events_count(entry.events@);
                                assert forall|a: int, b: int|
                                    0 <= a < b < self.table@.len() implies date_lt(
                                    (#[trigger] self.table@[a]).date,
                                    (#[trigger] self.table@[b]).date,
                                ) by {
                                    if a < i {
                                        assert(self.table@[a] == t0[a]);
                                    } else {
                                        assert(self.table@[a] == t0[a + 1]);
                                    }
                                    if b < i {
                                        assert(self.table@[b] == t0[b]);
                                    } else {
                                        assert(self.table@[b] == t0[b + 1]);
                                    }
                                }
                                assert forall|k: int| 0 <= k < self.table@.len() implies
                                    events_sorted((#[trigger] self.table@[k]).events@) by {
                                    if k < i {
                                        assert(self.table@[k] == t0[k]);
                                    } else {
                                        assert(self.table@[k] == t0[k + 1]);
                                    }
                                }
                                assert(final(self).wf());
                            }
                            ExecutionStatus::Deleted(Some(entry.events.len()))
                        },
                    }
                }
            },
            Command::Find(d) => {
                let i = date_lower_bound(&self.table, &d);
                if i < self.table.len() && self.table[i].date == d {
                    proof {
                        lemma_table_map_value(t0, i as int);
                    }
                    let evs = clone_events(&self.table[i].events);
                    proof {
                        assert(views_of(evs@).len() == evs@.len());
                        assert(views_of(t0[i as int].events@).len() == t0[i as int].events@.len());
                        assert(evs@.len() == t0[i as int].events@.len());
                        assert forall|a: int, b: int| 0 <= a < b < evs@.len() implies str_lt(
                            (#[trigger] evs@[a])@,
                            (#[trigger] evs@[b])@,
                        ) by {
                            assert(evs@[a]@ == views_of(evs@)[a]);
                            assert(evs@[b]@ == views_of(evs@)[b]);
                            assert(t0[i as int].events@[a]@ == views_of(t0[i as int].events@)[a]);
                            assert(t0[i as int].events@[b]@ == views_of(t0[i as int].events@)[b]);
                            assert(str_lt(t0[i as int].events@[a]@, t0[i as int].events@[b]@));
                        }
                        assert(events_set(evs@) == events_set(t0[i as int].events@));
                    }
                    ExecutionStatus::Found(evs)
                } else {
                    proof {
                        assert forall|j: int| 0 <= j < t0.len() implies (#[trigger] t0[j]).date
                            != d by {
                            if j > i {
                                assert(date_lt(t0[i as int].date, t0[j].date));
                            }
                        }
                        lemma_table_map_contains(t0, d);
                    }
                    ExecutionStatus::Done
                }
            },
            Command::Print => {
                let snapshot = clone_table(&self.table);
                proof {
                    let t1 = snapshot@;
                    assert forall|a: int, b: int| 0 <= a < b < t1.len() implies date_lt(
                        (#[trigger] t1[a]).date,
                        (#[trigger] t1[b]).date,
                    ) by {
                        assert(t1[a].date == t0[a].date);
                        assert(t1[b].date == t0[b].date);
                    }
                    assert forall|k: int| 0 <= k < t1.len() implies events_sorted(
                        (#[trigger] t1[k]).events@,
                    ) by {
                        assert forall|a: int, b: int|
                            0 <= a < b < t1[k].events@.len() implies str_lt(
                            (#[trigger] t1[k].events@[a])@,
                            (#[trigger] t1[k].events@[b])@,
                        ) by {
                            assert(views_of(t1[k].events@).len() == t1[k].events@.len());
                            assert(views_of(t0[k].events@).len() == t0[k].events@.len());
                            assert(t1[k].events@.len() == t0[k].events@.len());
                            assert(t1[k].events@[a]@ == views_of(t1[k].events@)[a]);
                            assert(t1[k].events@[b]@ == views_of(t1[k].events@)[b]);
                            assert(t0[k].events@[a]@ == views_of(t0[k].events@)[a]);
                            assert(t0[k].events@[b]@ == views_of(t0[k].events@)[b]);
                            assert(str_lt(t0[k].events@[a]@, t0[k].events@[b]@));
                        }
                    }
                    assert forall|k: int|
                        0 <= k < t1.len() implies ((#[trigger] t1[k]).date == t0[k].date
                        && events_set(t1[k].events@) == events_set(t0[k].events@)) by {}
                    lemma_table_map_congruent(t1, t0);
                }
                ExecutionStatus::Printed(snapshot)
            },
            Command::Exit => ExecutionStatus::Done,
        }
    }
}

} // verus!
