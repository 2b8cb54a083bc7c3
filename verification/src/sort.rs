//! A stable sort of scheduled events by beat, specified as repeated
//! ordered insertion, together with the laws the scheduler's contracts
//! rest on: the output is beat-ordered, and sorting commutes with
//! restricting the timeline to one track.

use vstd::prelude::*;

verus! {

use crate::command::spec_command_track;
use crate::scheduler::ScheduledEvent;

/// Every pair of events appears in beat order.
pub open spec fn spec_sorted_by_beat(s: Seq<ScheduledEvent>) -> bool {
    forall|i: int, j: int| 0 <= i <= j < s.len() ==> s[i].beat <= s[j].beat
}

/// Insert one event after every event with an equal or smaller beat:
/// the stable insertion position.
pub open spec fn spec_stable_insert(s: Seq<ScheduledEvent>, e: ScheduledEvent) -> Seq<
    ScheduledEvent,
>
    decreases s.len(),
{
    if s.len() == 0 {
        seq![e]
    } else if s.last().beat <= e.beat {
        s.push(e)
    } else {
        spec_stable_insert(s.drop_last(), e).push(s.last())
    }
}

/// Stable insertion sort: insert the events left to right, so events
/// with equal beats keep their original relative order.
pub open spec fn spec_stable_sort(s: Seq<ScheduledEvent>) -> Seq<ScheduledEvent>
    decreases s.len(),
{
    if s.len() == 0 {
        Seq::empty()
    } else {
        spec_stable_insert(spec_stable_sort(s.drop_last()), s.last())
    }
}

/// The events of one track, in order of appearance.
pub open spec fn spec_filter_track(s: Seq<ScheduledEvent>, t: int) -> Seq<ScheduledEvent>
    decreases s.len(),
{
    if s.len() == 0 {
        Seq::empty()
    } else if spec_command_track(s.last().command) == t {
        spec_filter_track(s.drop_last(), t).push(s.last())
    } else {
        spec_filter_track(s.drop_last(), t)
    }
}

/// If every beat in the input is at most a bound, so is every beat
/// after an insertion of an event within the bound.
proof fn lemma_stable_insert_beat_bound(s: Seq<ScheduledEvent>, e: ScheduledEvent, bound: u64)
    requires
        forall|i: int| 0 <= i < s.len() ==> s[i].beat <= bound,
        e.beat <= bound,
    ensures
        forall|i: int|
            0 <= i < spec_stable_insert(s, e).len() ==> spec_stable_insert(s, e)[i].beat <= bound,
    decreases s.len(),
{
    if s.len() != 0 && s.last().beat > e.beat {
        assert(forall|i: int| 0 <= i < s.drop_last().len() ==> s.drop_last()[i].beat <= bound);
        lemma_stable_insert_beat_bound(s.drop_last(), e, bound);
    }
}

/// Ordered insertion into an ordered sequence stays ordered.
pub proof fn lemma_stable_insert_sorted(s: Seq<ScheduledEvent>, e: ScheduledEvent)
    requires
        spec_sorted_by_beat(s),
    ensures
        spec_sorted_by_beat(spec_stable_insert(s, e)),
    decreases s.len(),
{
    if s.len() == 0 {
    } else if s.last().beat <= e.beat {
        assert(forall|i: int| 0 <= i < s.len() ==> s[i].beat <= e.beat);
    } else {
        assert(spec_sorted_by_beat(s.drop_last()));
        lemma_stable_insert_sorted(s.drop_last(), e);
        assert(forall|i: int| 0 <= i < s.drop_last().len() ==> s.drop_last()[i].beat
            <= s.last().beat);
        lemma_stable_insert_beat_bound(s.drop_last(), e, s.last().beat);
    }
}

/// The output of the stable sort is ordered by beat.
pub proof fn lemma_stable_sort_sorted(s: Seq<ScheduledEvent>)
    ensures
        spec_sorted_by_beat(spec_stable_sort(s)),
    decreases s.len(),
{
    if s.len() != 0 {
        lemma_stable_sort_sorted(s.drop_last());
        lemma_stable_insert_sorted(spec_stable_sort(s.drop_last()), s.last());
    }
}

/// Restricting to one track commutes with concatenation.
pub proof fn lemma_filter_track_concat(a: Seq<ScheduledEvent>, b: Seq<ScheduledEvent>, t: int)
    ensures
        spec_filter_track(a + b, t) == spec_filter_track(a, t) + spec_filter_track(b, t),
    decreases b.len(),
{
    if b.len() == 0 {
        assert(a + b =~= a);
        assert(spec_filter_track(a, t) + spec_filter_track(b, t) =~= spec_filter_track(a, t));
    } else {
        assert((a + b).drop_last() =~= a + b.drop_last());
        assert((a + b).last() == b.last());
        lemma_filter_track_concat(a, b.drop_last(), t);
        if spec_command_track(b.last().command) == t {
            assert(spec_filter_track(a, t) + spec_filter_track(b, t) =~= (spec_filter_track(a, t)
                + spec_filter_track(b.drop_last(), t)).push(b.last()));
        }
    }
}

/// Restricting to a track that every event belongs to changes nothing.
pub proof fn lemma_filter_track_all(s: Seq<ScheduledEvent>, t: int)
    requires
        forall|i: int| 0 <= i < s.len() ==> spec_command_track(s[i].command) == t,
    ensures
        spec_filter_track(s, t) == s,
    decreases s.len(),
{
    if s.len() != 0 {
        assert(forall|i: int| 0 <= i < s.drop_last().len() ==> spec_command_track(
            s.drop_last()[i].command,
        ) == t);
        lemma_filter_track_all(s.drop_last(), t);
        assert(s.drop_last().push(s.last()) =~= s);
    }
}

/// Restricting to a track that no event belongs to leaves nothing.
pub proof fn lemma_filter_track_none(s: Seq<ScheduledEvent>, t: int)
    requires
        forall|i: int| 0 <= i < s.len() ==> spec_command_track(s[i].command) != t,
    ensures
        spec_filter_track(s, t) == Seq::<ScheduledEvent>::empty(),
    decreases s.len(),
{
    if s.len() != 0 {
        assert(forall|i: int| 0 <= i < s.drop_last().len() ==> spec_command_track(
            s.drop_last()[i].command,
        ) != t);
        lemma_filter_track_none(s.drop_last(), t);
    }
}

/// On an ordered sequence, restricting to one track commutes with the
/// stable insertion of one event.
proof fn lemma_filter_track_stable_insert(s: Seq<ScheduledEvent>, e: ScheduledEvent, t: int)
    requires
        spec_sorted_by_beat(s),
    ensures
        spec_filter_track(spec_stable_insert(s, e), t) == if spec_command_track(e.command) == t {
            spec_stable_insert(spec_filter_track(s, t), e)
        } else {
            spec_filter_track(s, t)
        },
    decreases s.len(),
{
    if s.len() == 0 {
        assert(spec_stable_insert(s, e) =~= seq![e]);
        assert(seq![e].drop_last() =~= Seq::<ScheduledEvent>::empty());
        assert(Seq::<ScheduledEvent>::empty().push(e) =~= seq![e]);
        assert(s =~= Seq::<ScheduledEvent>::empty());
        assert(spec_filter_track(s, t) =~= Seq::<ScheduledEvent>::empty());
        assert(spec_stable_insert(spec_filter_track(s, t), e) =~= seq![e]);
        assert(seq![e].last() == e);
        if spec_command_track(e.command) == t {
            assert(spec_filter_track(seq![e], t) =~= seq![e]);
        } else {
            assert(spec_filter_track(seq![e], t) =~= Seq::<ScheduledEvent>::empty());
        }
    } else if s.last().beat <= e.beat {
        // insertion at the very end
        assert(spec_stable_insert(s, e) == s.push(e));
        assert(s.push(e).drop_last() =~= s);
        assert(s.push(e).last() == e);
        if spec_command_track(e.command) == t {
            let fs = spec_filter_track(s, t);
            assert(spec_filter_track(s.push(e), t) == fs.push(e));
            assert(forall|i: int| 0 <= i < s.len() ==> s[i].beat <= e.beat);
            lemma_filter_track_beat_bound(s, t, e.beat);
            if fs.len() == 0 {
                assert(spec_stable_insert(fs, e) =~= fs.push(e));
            } else {
                assert(fs[fs.len() - 1].beat <= e.beat);
                assert(fs.last().beat <= e.beat);
                assert(spec_stable_insert(fs, e) == fs.push(e));
            }
        } else {
            assert(spec_filter_track(s.push(e), t) == spec_filter_track(s, t));
        }
    } else {
        assert(spec_sorted_by_beat(s.drop_last()));
        lemma_filter_track_stable_insert(s.drop_last(), e, t);
        let ins = spec_stable_insert(s.drop_last(), e);
        assert(spec_stable_insert(s, e) == ins.push(s.last()));
        assert(ins.push(s.last()).drop_last() =~= ins);
        if spec_command_track(e.command) == t {
            if spec_command_track(s.last().command) == t {
                // both sides end by pushing s.last() after inserting e
                let fd = spec_filter_track(s.drop_last(), t);
                assert(spec_filter_track(s, t) == fd.push(s.last()));
                assert(fd.push(s.last()).drop_last() =~= fd);
                assert(fd.push(s.last()).last() == s.last());
                assert(spec_stable_insert(fd.push(s.last()), e) == spec_stable_insert(fd, e).push(
                    s.last(),
                ));
            }
        }
    }
}

/// If every beat of the input is within a bound, so is every beat of
/// its restriction to one track.
proof fn lemma_filter_track_beat_bound(s: Seq<ScheduledEvent>, t: int, bound: u64)
    requires
        forall|i: int| 0 <= i < s.len() ==> s[i].beat <= bound,
    ensures
        forall|i: int|
            0 <= i < spec_filter_track(s, t).len() ==> spec_filter_track(s, t)[i].beat <= bound,
    decreases s.len(),
{
    if s.len() != 0 {
        assert(forall|i: int| 0 <= i < s.drop_last().len() ==> s.drop_last()[i].beat <= bound);
        lemma_filter_track_beat_bound(s.drop_last(), t, bound);
    }
}

/// Restricting the sorted timeline to one track is the same as sorting
/// that track's own events: the sort never reorders one track's events
/// relative to each other.
pub proof fn lemma_filter_track_stable_sort(s: Seq<ScheduledEvent>, t: int)
    ensures
        spec_filter_track(spec_stable_sort(s), t) == spec_stable_sort(spec_filter_track(s, t)),
    decreases s.len(),
{
    if s.len() != 0 {
        lemma_filter_track_stable_sort(s.drop_last(), t);
        lemma_stable_sort_sorted(s.drop_last());
        lemma_filter_track_stable_insert(spec_stable_sort(s.drop_last()), s.last(), t);
        if spec_command_track(s.last().command) == t {
            let fd = spec_filter_track(s.drop_last(), t);
            assert(spec_filter_track(s, t) == fd.push(s.last()));
            assert(fd.push(s.last()).drop_last() =~= fd);
        }
    }
}

/// Where the stable insertion point lies: before position `p`, every
/// beat is at most the new event's; from `p` on, every beat is greater.
proof fn lemma_stable_insert_at(s: Seq<ScheduledEvent>, e: ScheduledEvent, p: int)
    requires
        0 <= p <= s.len(),
        forall|k: int| p <= k < s.len() ==> s[k].beat > e.beat,
        p > 0 ==> s[p - 1].beat <= e.beat,
    ensures
        spec_stable_insert(s, e) == s.subrange(0, p) + seq![e] + s.subrange(p, s.len() as int),
    decreases s.len(),
{
    if p == s.len() {
        if s.len() == 0 {
            assert(s.subrange(0, 0) + seq![e] + s.subrange(0, 0) =~= seq![e]);
        } else {
            assert(s.last().beat <= e.beat);
            assert(s.subrange(0, p) + seq![e] + s.subrange(p, s.len() as int) =~= s.push(e));
        }
    } else {
        assert(s.last().beat > e.beat);
        assert(forall|k: int| p <= k < s.drop_last().len() ==> s.drop_last()[k].beat > e.beat);
        lemma_stable_insert_at(s.drop_last(), e, p);
        assert((s.drop_last().subrange(0, p) + seq![e] + s.drop_last().subrange(
            p,
            s.drop_last().len() as int,
        )).push(s.last()) =~= s.subrange(0, p) + seq![e] + s.subrange(p, s.len() as int));
    }
}

/// Insert one event at its stable position: after every event with an
/// equal or smaller beat.
fn insert_event(acc: Vec<ScheduledEvent>, e: ScheduledEvent) -> (r: Vec<ScheduledEvent>)
    ensures
        r@ == spec_stable_insert(acc@, e),
{
    let mut acc = acc;
    let mut p: usize = acc.len();
    while p > 0 && acc[p - 1].beat > e.beat
        invariant
            0 <= p <= acc@.len(),
            forall|k: int| p <= k < acc@.len() ==> acc@[k].beat > e.beat,
        decreases p,
    {
        p = p - 1;
    }
    let ghost orig = acc@;
    proof {
        lemma_stable_insert_at(orig, e, p as int);
    }
    acc.insert(p, e);
    proof {
        assert(acc@ =~= orig.subrange(0, p as int) + seq![e] + orig.subrange(
            p as int,
            orig.len() as int,
        ));
    }
    acc
}

/// Sort the accumulated events by beat, keeping the relative order of
/// events with equal beats (a stable sort).
pub fn stable_sort_by_beat(v: Vec<ScheduledEvent>) -> (r: Vec<ScheduledEvent>)
    ensures
        r@ == spec_stable_sort(v@),
{
    let mut out: Vec<ScheduledEvent> = Vec::new();
    let mut i: usize = 0;
    while i < v.len()
        invariant
            0 <= i <= v@.len(),
            out@ == spec_stable_sort(v@.take(i as int)),
        decreases v@.len() - i,
    {
        proof {
            assert(v@.take(i + 1).drop_last() =~= v@.take(i as int));
            assert(v@.take(i + 1).last() == v@[i as int]);
        }
        out = insert_event(out, v[i]);
        i = i + 1;
    }
    proof {
        assert(v@.take(v@.len() as int) =~= v@);
    }
    out
}

} // verus!
