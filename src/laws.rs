//! Laws of the calendar and the request queue that relate several operations.

use crate::calendar::{
    booked, booking_done, candidate, freed, slots_wf, DoctorCalendar,
};
use crate::models::{rank, Appointment, AppointmentRequest, TimeSlot};
use crate::scheduler::is_next;
use vstd::prelude::*;

verus! {

/// Slots drawn from one set of well-formed, available, pairwise disjoint
/// slots with distinct identifiers never conflict: a member of the set is
/// accepted by `add_time_slot` on a calendar that holds only other members of
/// the set, so adding the whole set, in any order, succeeds at every step.
pub proof fn lemma_disjoint_slots_accepted(set: Seq<TimeSlot>, stored: Seq<TimeSlot>, k: int)
    requires
        0 <= k < set.len(),
        forall|i: int| 0 <= i < set.len() ==> (#[trigger] set[i]).wf() && set[i].is_available,
        forall|i: int, j: int|
            #![trigger set[i], set[j]]
            0 <= i < set.len() && 0 <= j < set.len() && i != j ==> !set[i].overlaps(&set[j])
                && set[i].slot_id@ != set[j].slot_id@,
        forall|m: int|
            0 <= m < stored.len() ==> exists|i: int|
                0 <= i < set.len() && i != k && #[trigger] stored[m] == set[i],
    ensures
        set[k].wf(),
        set[k].is_available,
        forall|m: int|
            0 <= m < stored.len() ==> !set[k].overlaps(&#[trigger] stored[m]) && stored[m].slot_id@
                != set[k].slot_id@,
{
    assert forall|m: int| 0 <= m < stored.len() implies !set[k].overlaps(&#[trigger] stored[m])
        && stored[m].slot_id@ != set[k].slot_id@ by {
        let i = choose|i: int| 0 <= i < set.len() && i != k && #[trigger] stored[m] == set[i];
        assert(!set[k].overlaps(&set[i]) && set[k].slot_id@ != set[i].slot_id@);
    }
}

/// Booking slot `i` leaves it unavailable, so a second booking of the same
/// slot is refused as unavailable; exactly one appointment is added.
pub proof fn lemma_booked_slot_unavailable(
    s: Seq<TimeSlot>,
    a: Seq<Appointment>,
    s2: Seq<TimeSlot>,
    a2: Seq<Appointment>,
    i: int,
    ap: Appointment,
)
    requires
        0 <= i < s.len(),
        booking_done(s, a, s2, a2, i, ap),
    ensures
        !s2[i].is_available,
        s2[i].slot_id@ == s[i].slot_id@,
        s2.len() == s.len(),
        a2.len() == a.len() + 1,
        exists|q: int| 0 <= q < a2.len() && #[trigger] a2[q] == ap,
{
    let q = choose|q: int| 0 <= q <= a.len() && a2 == a.insert(q, ap);
    assert(a2[q] == ap);
}

/// Cancelling the appointment that a booking of an available slot created
/// restores the calendar exactly as it was before the booking.
pub proof fn lemma_cancel_undoes_booking(
    s: Seq<TimeSlot>,
    a: Seq<Appointment>,
    s2: Seq<TimeSlot>,
    a2: Seq<Appointment>,
    i: int,
    ap: Appointment,
    k: int,
)
    requires
        0 <= i < s.len(),
        s[i].is_available,
        booking_done(s, a, s2, a2, i, ap),
        forall|x: int, y: int|
            #![trigger a2[x], a2[y]]
            0 <= x < y < a2.len() ==> a2[x].appointment_id@ != a2[y].appointment_id@,
        0 <= k < a2.len(),
        a2[k].appointment_id@ == ap.appointment_id@,
    ensures
        a2.remove(k) == a,
        s2.update(i, freed(s2[i])) == s,
{
    let q = choose|q: int| 0 <= q <= a.len() && a2 == a.insert(q, ap);
    assert(a2[q] == ap);
    if k < q {
        assert(a2[k].appointment_id@ != a2[q].appointment_id@);
    } else if k > q {
        assert(a2[q].appointment_id@ != a2[k].appointment_id@);
    }
    assert(a2.remove(k) =~= a);
    assert(freed(booked(s[i])) == s[i]);
    assert(s2.update(i, freed(s2[i])) =~= s);
}

/// With no flexibility, a slot qualifies only if it starts exactly at the
/// preferred time.
pub proof fn lemma_zero_flexibility_exact(t: TimeSlot, preferred: int)
    requires
        candidate(t, preferred, 0),
    ensures
        t.start_time == preferred,
{
}

/// The slots of a well-formed calendar are in strictly increasing order of
/// start time, whatever order they were added in.
pub proof fn lemma_slots_sorted(c: DoctorCalendar)
    requires
        c.wf(),
    ensures
        forall|i: int, j: int|
            #![trigger c.slots()[i], c.slots()[j]]
            0 <= i < j < c.slots().len() ==> c.slots()[i].start_time < c.slots()[j].start_time,
{
    let s = c.slots();
    assert(slots_wf(s));
    assert forall|i: int, j: int| #![trigger s[i], s[j]] 0 <= i < j < s.len() implies s[i].start_time
        < s[j].start_time by {
        assert(s[i].wf());
        assert(s[i].end_time <= s[j].start_time);
    }
}


/// The request served next has the highest priority in the queue, and among
/// requests of that priority the earliest creation time: priority always
/// outweighs the order of submission.
pub proof fn lemma_next_has_top_priority(q: Seq<AppointmentRequest>, i: int)
    requires
        is_next(q, i),
    ensures
        forall|j: int|
            0 <= j < q.len() ==> rank((#[trigger] q[j]).priority) <= rank(q[i].priority) && (rank(
                q[j].priority,
            ) == rank(q[i].priority) ==> q[i].created_at <= q[j].created_at),
{
    assert forall|j: int| 0 <= j < q.len() implies rank((#[trigger] q[j]).priority) <= rank(
        q[i].priority,
    ) && (rank(q[j].priority) == rank(q[i].priority) ==> q[i].created_at <= q[j].created_at) by {
        assert(!crate::models::served_before(q[j], q[i]));
    }
}

} // verus!
