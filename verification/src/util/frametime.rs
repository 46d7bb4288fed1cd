use std::time::{Duration, Instant};
use vstd::prelude::*;

verus! {

#[verifier::external_type_specification]
#[verifier::external_body]
pub struct ExInstant(Instant);

/// `std::time::Instant::now`: the current time; nothing is stated of it, as
/// it depends on the clock.
#[verifier::external_body]
fn instant_now() -> Instant {
    Instant::now()
}

/// The time from `earlier` to `later`, as `Instant - Instant` gives it.
pub uninterp spec fn elapsed(later: Instant, earlier: Instant) -> Duration;

/// The whole nanoseconds of a duration, as `Duration::as_nanos` gives them.
pub uninterp spec fn nanos_of(d: Duration) -> u128;

/// `Instant - Instant` (`Sub` for `Instant`): the time from `earlier` to
/// `later` (zero when `earlier` is later; it does not panic). Claimed: the
/// result depends on the two instants alone (named `elapsed`).
#[verifier::external_body]
fn instant_sub(later: Instant, earlier: Instant) -> (d: Duration)
    ensures
        d == elapsed(later, earlier),
{
    later - earlier
}

/// `std::time::Duration::as_nanos`: the whole nanoseconds of a duration.
/// Claimed: the result depends on the duration alone (named `nanos_of`).
#[verifier::external_body]
fn duration_as_nanos(d: &Duration) -> (r: u128)
    ensures
        r == nanos_of(*d),
{
    d.as_nanos()
}

/// The view of a list of named timings: names as character sequences.
pub open spec fn named_view(entries: Seq<(String, u128)>) -> Seq<(Seq<char>, u128)> {
    entries.map_values(|e: (String, u128)| (e.0@, e.1))
}

/// Index of the entry named `name`, or -1.
pub open spec fn entry_index(entries: Seq<(Seq<char>, u128)>, name: Seq<char>) -> int
    decreases entries.len(),
{
    if entries.len() == 0 {
        -1
    } else if entries.last().0 == name {
        entries.len() - 1
    } else {
        entry_index(entries.drop_last(), name)
    }
}

/// `entries` with the timing of `name` set to `nanos`: replaced in place
/// when `name` has an entry, appended otherwise.
pub open spec fn upsert(entries: Seq<(Seq<char>, u128)>, name: Seq<char>, nanos: u128) -> Seq<(Seq<char>, u128)> {
    let i = entry_index(entries, name);
    if i >= 0 {
        entries.update(i, (name, nanos))
    } else {
        entries.push((name, nanos))
    }
}

/// No two entries share a name.
pub open spec fn names_distinct(entries: Seq<(Seq<char>, u128)>) -> bool {
    forall|i: int, j: int| 0 <= i < j < entries.len() ==> #[trigger] entries[i].0 != #[trigger] entries[j].0
}

/// The sum over `entries` of their whole milliseconds.
pub open spec fn total_millis_of(entries: Seq<(Seq<char>, u128)>) -> int
    decreases entries.len(),
{
    if entries.len() == 0 {
        0
    } else {
        total_millis_of(entries.drop_last()) + entries.last().1 / 1_000_000
    }
}

proof fn lemma_entry_index_found(entries: Seq<(Seq<char>, u128)>, name: Seq<char>, j: int)
    requires
        0 <= j < entries.len(),
        entries[j].0 == name,
        forall|k: int| j < k < entries.len() ==> entries[k].0 != name,
    ensures
        entry_index(entries, name) == j,
    decreases entries.len(),
{
    if j < entries.len() - 1 {
        lemma_entry_index_found(entries.drop_last(), name, j);
    }
}

proof fn lemma_entry_index_absent(entries: Seq<(Seq<char>, u128)>, name: Seq<char>)
    requires
        forall|k: int| 0 <= k < entries.len() ==> entries[k].0 != name,
    ensures
        entry_index(entries, name) == -1,
    decreases entries.len(),
{
    if entries.len() > 0 {
        lemma_entry_index_absent(entries.drop_last(), name);
    }
}

/// Timings of the named segments of a frame.
///
/// `deltas` holds, per segment name, the nanoseconds between the previous
/// mark and the mark of that segment, in the order the names first appeared.
pub struct Frametime {
    pub deltas: Vec<(String, u128)>,
    pub start_time: Instant,
    pub last_time: Instant,
}

impl Frametime {
    /// The timings, names as character sequences.
    pub open spec fn entries(&self) -> Seq<(Seq<char>, u128)> {
        named_view(self.deltas@)
    }

    pub open spec fn wf(&self) -> bool {
        names_distinct(self.entries())
    }

    /// A frame timer with no timings, started now.
    pub fn new() -> (f: Frametime)
        ensures
            f.wf(),
            f.entries() == Seq::<(Seq<char>, u128)>::empty(),
    {
        let start_time = instant_now();
        let last_time = instant_now();
        let f = Frametime { deltas: Vec::new(), start_time, last_time };
        assert(f.entries() =~= Seq::<(Seq<char>, u128)>::empty());
        f
    }

    /// Restarts the timer now and forgets all timings.
    pub fn refresh(&mut self)
        ensures
            final(self).wf(),
            final(self).entries() == Seq::<(Seq<char>, u128)>::empty(),
    {
        self.start_time = instant_now();
        self.last_time = instant_now();
        self.deltas.clear();
        assert(self.entries() =~= Seq::<(Seq<char>, u128)>::empty());
    }

    /// Marks the end of segment `s` now: its timing becomes the nanoseconds
    /// from the previous mark to now, and now becomes the previous mark.
    pub fn set(&mut self, s: &str)
        requires
            old(self).wf(),
        ensures
            final(self).wf(),
            exists|now: Instant|
                {
                    &&& final(self).last_time == now
                    &&& final(self).entries() == upsert(
                        old(self).entries(),
                        s@,
                        nanos_of(elapsed(now, old(self).last_time)),
                    )
                },
            final(self).start_time == old(self).start_time,
    {
        let time_cur = instant_now();
        let delta = instant_sub(time_cur, self.last_time);
        let nanos = duration_as_nanos(&delta);
        self.record(s, nanos, time_cur);
    }

    /// Sets the timing of segment `s` to `nanos` and makes `time` the
    /// previous mark.
    pub fn record(&mut self, s: &str, nanos: u128, time: Instant)
        requires
            old(self).wf(),
        ensures
            final(self).wf(),
            final(self).entries() == upsert(old(self).entries(), s@, nanos),
            final(self).last_time == time,
            final(self).start_time == old(self).start_time,
    {
        let ghost e0 = self.entries();
        let key = s.to_owned();
        let mut i = self.deltas.len();
        while i > 0
            invariant
                i <= self.deltas@.len(),
                key@ == s@,
                self.deltas@ == old(self).deltas@,
                self.start_time == old(self).start_time,
                names_distinct(e0),
                e0 == named_view(self.deltas@),
                forall|k: int| i <= k < e0.len() ==> e0[k].0 != s@,
            decreases i,
        {
            i = i - 1;
            if self.deltas[i].0 == key {
                proof { lemma_entry_index_found(e0, s@, i as int); }
                self.deltas.set(i, (key, nanos));
                self.last_time = time;
                assert(self.entries() =~= upsert(e0, s@, nanos));
                assert forall|a: int, b: int| 0 <= a < b < self.entries().len() implies #[trigger] self.entries()[a].0
                    != #[trigger] self.entries()[b].0 by {
                    if a != i && b != i {
                        assert(self.entries()[a] == e0[a] && self.entries()[b] == e0[b]);
                    } else if a == i {
                        assert(self.entries()[b] == e0[b]);
                    } else {
                        assert(self.entries()[a] == e0[a]);
                    }
                }
                return;
            }
        }
        proof { lemma_entry_index_absent(e0, s@); }
        self.deltas.push((key, nanos));
        self.last_time = time;
        assert(self.entries() =~= upsert(e0, s@, nanos));
        assert forall|a: int, b: int| 0 <= a < b < self.entries().len() implies #[trigger] self.entries()[a].0
            != #[trigger] self.entries()[b].0 by {
            assert(self.entries()[a] == e0[a]);
            if b < e0.len() {
                assert(self.entries()[b] == e0[b]);
            }
        }
    }

    /// The sum over all timings of their whole milliseconds, or `None` when
    /// it does not fit in a `u128`.
    pub fn total_millis(&self) -> (t: Option<u128>)
        ensures
            match t {
                Some(v) => v == total_millis_of(self.entries()),
                None => total_millis_of(self.entries()) > u128::MAX,
            },
    {
        let ghost e = self.entries();
        let mut sum: u128 = 0;
        let mut i: usize = 0;
        while i < self.deltas.len()
            invariant
                i <= self.deltas@.len(),
                e == named_view(self.deltas@),
                sum == total_millis_of(e.take(i as int)),
            decreases self.deltas@.len() - i,
        {
            assert(e.take(i + 1).drop_last() =~= e.take(i as int));
            let ms = self.deltas[i].1 / 1_000_000;
            if sum > u128::MAX - ms {
                proof { lemma_total_millis_monotone(e, i + 1); }
                return None;
            }
            sum = sum + ms;
            i = i + 1;
        }
        assert(e.take(i as int) =~= e);
        Some(sum)
    }
}

proof fn lemma_total_millis_monotone(e: Seq<(Seq<char>, u128)>, n: int)
    requires
        0 <= n <= e.len(),
    ensures
        total_millis_of(e.take(n)) <= total_millis_of(e),
    decreases e.len(),
{
    if n < e.len() {
        assert(e.drop_last().take(n) =~= e.take(n));
        lemma_total_millis_monotone(e.drop_last(), n);
    } else {
        assert(e.take(n) =~= e);
    }
}

/// Law: after a segment's timing is set, the segment has exactly that timing,
/// every other segment keeps its timing, and names stay distinct; a new
/// segment is added at the end.
pub proof fn upsert_then_lookup(entries: Seq<(Seq<char>, u128)>, name: Seq<char>, nanos: u128, other: Seq<char>)
    requires
        names_distinct(entries),
    ensures
        names_distinct(upsert(entries, name, nanos)),
        entry_index(upsert(entries, name, nanos), name) >= 0,
        upsert(entries, name, nanos)[entry_index(upsert(entries, name, nanos), name)] == (name, nanos),
        other != name ==> entry_index(upsert(entries, name, nanos), other) == entry_index(entries, other),
        other != name && entry_index(entries, other) >= 0 ==> upsert(entries, name, nanos)[entry_index(
            entries,
            other,
        )] == entries[entry_index(entries, other)],
        upsert(entries, name, nanos).len() == entries.len() + if entry_index(entries, name) >= 0 {
            0int
        } else {
            1int
        },
{
    lemma_entry_index_bounds(entries, name);
    lemma_entry_index_bounds(entries, other);
    let u = upsert(entries, name, nanos);
    let i = entry_index(entries, name);
    if i >= 0 {
        assert forall|a: int, b: int| 0 <= a < b < u.len() implies #[trigger] u[a].0 != #[trigger] u[b].0 by {
            if a != i && b != i {
                assert(u[a] == entries[a] && u[b] == entries[b]);
            } else if a == i {
                assert(u[b] == entries[b]);
            } else {
                assert(u[a] == entries[a]);
            }
        }
        lemma_entry_index_found_distinct(u, name, i);
        if other != name {
            lemma_entry_index_update(entries, i, (name, nanos), other);
        }
    } else {
        lemma_entry_index_absent_inv(entries, name);
        assert forall|a: int, b: int| 0 <= a < b < u.len() implies #[trigger] u[a].0 != #[trigger] u[b].0 by {
            assert(u[a] == entries[a]);
            if b < entries.len() {
                assert(u[b] == entries[b]);
            }
        }
        assert(u.drop_last() =~= entries);
    }
}

proof fn lemma_entry_index_bounds(entries: Seq<(Seq<char>, u128)>, name: Seq<char>)
    ensures
        -1 <= entry_index(entries, name) < entries.len(),
        entry_index(entries, name) >= 0 ==> entries[entry_index(entries, name)].0 == name,
    decreases entries.len(),
{
    if entries.len() > 0 {
        lemma_entry_index_bounds(entries.drop_last(), name);
    }
}

proof fn lemma_entry_index_absent_inv(entries: Seq<(Seq<char>, u128)>, name: Seq<char>)
    requires
        entry_index(entries, name) == -1,
    ensures
        forall|k: int| 0 <= k < entries.len() ==> entries[k].0 != name,
    decreases entries.len(),
{
    if entries.len() > 0 {
        lemma_entry_index_absent_inv(entries.drop_last(), name);
        assert forall|k: int| 0 <= k < entries.len() implies entries[k].0 != name by {
            if k < entries.len() - 1 {
                assert(entries.drop_last()[k] == entries[k]);
            }
        }
    }
}

proof fn lemma_entry_index_found_distinct(entries: Seq<(Seq<char>, u128)>, name: Seq<char>, j: int)
    requires
        names_distinct(entries),
        0 <= j < entries.len(),
        entries[j].0 == name,
    ensures
        entry_index(entries, name) == j,
{
    assert forall|k: int| j < k < entries.len() implies entries[k].0 != name by {
        assert(entries[j].0 != entries[k].0);
    }
    lemma_entry_index_found(entries, name, j);
}

proof fn lemma_entry_index_update(entries: Seq<(Seq<char>, u128)>, i: int, e: (Seq<char>, u128), other: Seq<char>)
    requires
        0 <= i < entries.len(),
        entries[i].0 != other,
        e.0 != other,
    ensures
        entry_index(entries.update(i, e), other) == entry_index(entries, other),
    decreases entries.len(),
{
    let u = entries.update(i, e);
    if i < entries.len() - 1 {
        assert(u.drop_last() =~= entries.drop_last().update(i, e));
        assert(u.last() == entries.last());
        lemma_entry_index_update(entries.drop_last(), i, e, other);
    } else {
        assert(u.drop_last() =~= entries.drop_last());
    }
}

} // verus!
