//! One doctor's calendar: its time slots and the appointments booked on them.
//!
//! Slots are kept in order of start time, pairwise disjoint, with distinct
//! identifiers. Every appointment refers, by identifier, to a stored slot
//! that is marked unavailable and starts when the appointment does;
//! appointments are kept in order of start time, which also means that no
//! two of them share a slot.

use crate::clock::minute_text;
use crate::ids::new_id;
use crate::models::{
    in_window, intervals_overlap, window_end_of, window_start_of, Appointment, Patient, Priority, TimeSlot,
    MSG_BAD_SLOT_ORDER, MSG_EMPTY_REASON, MSG_TIME_OUT_OF_RANGE, time_text,
};
use crate::clock::{day_number, day_of, now, weekday_number, weekday_of, MAX_TIME, MIN_TIME};
use crate::text::{concat, decimal, decimal_of};
use vstd::prelude::*;

verus! {

pub const MSG_EMPTY_DOCTOR_NAME: &'static str = "Doctor name cannot be empty";
pub const MSG_BAD_DURATION: &'static str = "Slot duration must be positive";
pub const MSG_OVERLAP_HEAD: &'static str = "Time slot overlaps with existing slot: ";
pub const MSG_OVERLAP_SEP: &'static str = " - ";
pub const MSG_DUPLICATE_SLOT_ID: &'static str = "Time slot id is already in use";
pub const MSG_SLOT_NOT_FOUND: &'static str = "Time slot not found in calendar";
pub const MSG_SLOT_UNAVAILABLE: &'static str = "Time slot is not available";
pub const MSG_DUPLICATE_APPOINTMENT_ID: &'static str = "Appointment id is already in use";
pub const MSG_SLOT_NOT_FREE: &'static str = "A new time slot must be available";

/// Slots in order of start time, disjoint, each well formed, with distinct ids.
pub open spec fn slots_wf(s: Seq<TimeSlot>) -> bool {
    &&& forall|i: int| 0 <= i < s.len() ==> (#[trigger] s[i]).wf()
    &&& forall|i: int, j: int| #![trigger s[i], s[j]] 0 <= i < j < s.len() ==> s[i].end_time <= s[j].start_time
    &&& forall|i: int, j: int|
        #![trigger s[i], s[j]]
        0 <= i < j < s.len() ==> s[i].slot_id@ != s[j].slot_id@
}

/// The appointment occupies slot `i` of `s`.
pub open spec fn occupies(a: Appointment, s: Seq<TimeSlot>, i: int) -> bool {
    &&& 0 <= i < s.len()
    &&& s[i].slot_id@ == a.time_slot.slot_id@
    &&& !s[i].is_available
    &&& s[i].start_time == a.time_slot.start_time
    &&& s[i].end_time == a.time_slot.end_time
}

/// The appointment occupies some slot of `s`.
pub open spec fn has_slot(a: Appointment, s: Seq<TimeSlot>) -> bool {
    exists|i: int| occupies(a, s, i)
}

/// Appointments that each occupy a slot of `s`, in order of start time, with
/// distinct ids and non-empty reasons.
pub open spec fn appts_wf(a: Seq<Appointment>, s: Seq<TimeSlot>) -> bool {
    &&& forall|k: int| 0 <= k < a.len() ==> has_slot(#[trigger] a[k], s)
    &&& forall|k: int, l: int|
        #![trigger a[k], a[l]]
        0 <= k < l < a.len() ==> a[k].time_slot.start_time < a[l].time_slot.start_time
    &&& forall|k: int, l: int|
        #![trigger a[k], a[l]]
        0 <= k < l < a.len() ==> a[k].appointment_id@ != a[l].appointment_id@
    &&& forall|k: int| 0 <= k < a.len() ==> (#[trigger] a[k]).reason@.len() > 0
}

/// The available slots of `s`, in the order of `s`.
pub open spec fn available_of(s: Seq<TimeSlot>) -> Seq<TimeSlot>
    decreases s.len(),
{
    if s.len() == 0 {
        s
    } else if s.last().is_available {
        available_of(s.drop_last()).push(s.last())
    } else {
        available_of(s.drop_last())
    }
}

/// The available slots of `s` that start on day `d`, in the order of `s`.
pub open spec fn available_on(s: Seq<TimeSlot>, d: int) -> Seq<TimeSlot>
    decreases s.len(),
{
    if s.len() == 0 {
        s
    } else if s.last().is_available && day_of(s.last().start_time as int) == d {
        available_on(s.drop_last(), d).push(s.last())
    } else {
        available_on(s.drop_last(), d)
    }
}

/// The appointments of `a` whose slot starts on day `d`, in the order of `a`.
pub open spec fn appointments_on(a: Seq<Appointment>, d: int) -> Seq<Appointment>
    decreases a.len(),
{
    if a.len() == 0 {
        a
    } else if day_of(a.last().time_slot.start_time as int) == d {
        appointments_on(a.drop_last(), d).push(a.last())
    } else {
        appointments_on(a.drop_last(), d)
    }
}

/// A slot `[st, en)` of the day that starts at `ds` meets the break
/// `[break_start, break_end)` (seconds after midnight), when both are given.
pub open spec fn meets_break(
    st: int,
    en: int,
    ds: int,
    break_start: Option<i64>,
    break_end: Option<i64>,
) -> bool {
    match (break_start, break_end) {
        (Some(bs), Some(be)) => st - ds < be && en - ds > bs,
        _ => false,
    }
}

/// The slot length, in minutes, that a generator uses.
pub open spec fn chosen_duration(given: Option<i64>, default_minutes: int) -> int {
    match given {
        Some(d) => d as int,
        None => default_minutes,
    }
}

/// The start of slot `g` of a grid that begins at `first` with slots
/// `step` seconds long.
pub open spec fn grid_point(first: int, step: int, g: int) -> int {
    first + g * step
}

/// Every slot of `r` is stored in `s`.
pub open spec fn all_stored(r: Seq<TimeSlot>, s: Seq<TimeSlot>) -> bool {
    forall|k: int| 0 <= k < r.len() ==> s.contains(#[trigger] r[k])
}

/// What is stored stays stored when a slot is inserted.
proof fn lemma_stored_after_insert(r: Seq<TimeSlot>, before: Seq<TimeSlot>, p: int, x: TimeSlot)
    requires
        all_stored(r, before),
        0 <= p <= before.len(),
    ensures
        all_stored(r, before.insert(p, x)),
{
    let after = before.insert(p, x);
    assert forall|k: int| 0 <= k < r.len() implies after.contains(#[trigger] r[k]) by {
        assert(before.contains(r[k]));
        let w = choose|w: int| 0 <= w < before.len() && before[w] == r[k];
        if w < p {
            assert(after[w] == before[w]);
        } else {
            assert(after[w + 1] == before[w]);
        }
    }
}

/// Every sequence is stored in itself.
proof fn lemma_stored_in_itself(s: Seq<TimeSlot>)
    ensures
        all_stored(s, s),
{
    assert forall|k: int| 0 <= k < s.len() implies s.contains(#[trigger] s[k]) by {
        assert(s[k] == s[k]);
    }
}

/// Day `w` of the week (Monday being 0) is a working day: one of `days`, or
/// Monday to Friday when none are given.
pub open spec fn working_day(days: Option<Vec<u32>>, w: int) -> bool {
    match days {
        Some(v) => exists|j: int| 0 <= j < v@.len() && #[trigger] v@[j] as int == w,
        None => 0 <= w < 5,
    }
}

/// Day `w` of the week is one of `days`.
fn lists_day(days: &Vec<u32>, w: u32) -> (r: bool)
    ensures
        r == exists|j: int| 0 <= j < days@.len() && #[trigger] days@[j] as int == w as int,
{
    let mut j: usize = 0;
    while j < days.len()
        invariant
            j <= days@.len(),
            forall|i: int| 0 <= i < j ==> days@[i] != w,
        decreases days@.len() - j,
    {
        if days[j] == w {
            assert(days@[j as int] as int == w as int);
            return true;
        }
        j += 1;
    }
    false
}

/// Day `w` of the week is a working day.
fn is_working_day(days: &Option<Vec<u32>>, w: u32) -> (r: bool)
    ensures
        r == working_day(*days, w as int),
{
    if let Some(v) = days {
        lists_day(v, w)
    } else {
        w < 5
    }
}

/// An appointment identifier that no appointment of `taken` has: `candidate`
/// when it is free, otherwise `candidate` lengthened past every stored one.
pub fn fresh_id(candidate: String, taken: &Vec<Appointment>) -> (r: String)
    ensures
        !id_in_use(taken@, r@),
        !id_in_use(taken@, candidate@) ==> r == candidate,
{
    let mut longest: usize = 0;
    let mut in_use = false;
    let mut k: usize = 0;
    while k < taken.len()
        invariant
            k <= taken@.len(),
            forall|j: int| 0 <= j < k ==> (#[trigger] taken@[j]).appointment_id@.len() <= longest,
            in_use == exists|j: int| 0 <= j < k && (#[trigger] taken@[j]).appointment_id@ == candidate@,
        decreases taken@.len() - k,
    {
        let n = taken[k].appointment_id.as_str().unicode_len();
        if n > longest {
            longest = n;
        }
        if taken[k].appointment_id == candidate {
            in_use = true;
        }
        k += 1;
    }
    if !in_use {
        return candidate;
    }
    let mut r = candidate;
    while r.as_str().unicode_len() <= longest
        invariant
            forall|j: int| 0 <= j < taken@.len() ==> (#[trigger] taken@[j]).appointment_id@.len() <= longest,
        decreases longest + 1 - r@.len(),
    {
        proof {
            reveal_strlit("-");
        }
        r = concat(r, "-");
    }
    proof {
        assert forall|j: int| 0 <= j < taken@.len() implies (#[trigger] taken@[j]).appointment_id@ != r@ by {
            assert(taken@[j].appointment_id@.len() < r@.len());
        }
    }
    r
}

/// A slot identifier that no slot of `taken` has: `candidate` when it is
/// free, otherwise `candidate` lengthened past every stored one.
pub fn fresh_slot_id(candidate: String, taken: &Vec<TimeSlot>) -> (r: String)
    ensures
        !slot_known(taken@, r@),
        !slot_known(taken@, candidate@) ==> r == candidate,
{
    let mut longest: usize = 0;
    let mut in_use = false;
    let mut k: usize = 0;
    while k < taken.len()
        invariant
            k <= taken@.len(),
            forall|j: int| 0 <= j < k ==> (#[trigger] taken@[j]).slot_id@.len() <= longest,
            in_use == exists|j: int| 0 <= j < k && (#[trigger] taken@[j]).slot_id@ == candidate@,
        decreases taken@.len() - k,
    {
        let n = taken[k].slot_id.as_str().unicode_len();
        if n > longest {
            longest = n;
        }
        if taken[k].slot_id == candidate {
            in_use = true;
        }
        k += 1;
    }
    if !in_use {
        return candidate;
    }
    let mut r = candidate;
    while r.as_str().unicode_len() <= longest
        invariant
            forall|j: int| 0 <= j < taken@.len() ==> (#[trigger] taken@[j]).slot_id@.len() <= longest,
        decreases longest + 1 - r@.len(),
    {
        proof {
            reveal_strlit("-");
        }
        r = concat(r, "-");
    }
    proof {
        assert forall|j: int| 0 <= j < taken@.len() implies (#[trigger] taken@[j]).slot_id@ != r@ by {
            assert(taken@[j].slot_id@.len() < r@.len());
        }
    }
    r
}

/// The grid slot `[st, en)` of the day that starts at `ds` is free: inside
/// the accepted range, clear of the break, and overlapping no slot of `s`.
pub open spec fn grid_free(
    s: Seq<TimeSlot>,
    st: int,
    en: int,
    ds: int,
    break_start: Option<i64>,
    break_end: Option<i64>,
) -> bool {
    &&& MIN_TIME <= st
    &&& en <= MAX_TIME
    &&& !meets_break(st, en, ds, break_start, break_end)
    &&& forall|i: int|
        0 <= i < s.len() ==> !intervals_overlap(
            st,
            en,
            (#[trigger] s[i]).start_time as int,
            s[i].end_time as int,
        )
}

/// The error text for a slot that overlaps the stored slot `t`.
pub open spec fn overlap_message(t: TimeSlot) -> Seq<char> {
    MSG_OVERLAP_HEAD@ + minute_text(t.start_time as int) + MSG_OVERLAP_SEP@ + minute_text(
        t.end_time as int,
    )
}

/// Distance in seconds between two times.
pub open spec fn distance(a: int, b: int) -> int {
    if a >= b {
        a - b
    } else {
        b - a
    }
}

/// Slot `t` may serve a request for `preferred ± flexibility minutes`.
pub open spec fn candidate(t: TimeSlot, preferred: int, flexibility_minutes: int) -> bool {
    t.is_available && in_window(t.start_time as int, preferred, flexibility_minutes)
}

/// Candidate `t` is at least as good as candidate `u`: nearer to the
/// preferred time, or as near and not later.
pub open spec fn no_worse(t: TimeSlot, u: TimeSlot, preferred: int) -> bool {
    distance(t.start_time as int, preferred) < distance(u.start_time as int, preferred) || (
    distance(t.start_time as int, preferred) == distance(u.start_time as int, preferred)
        && t.start_time <= u.start_time)
}

/// The slot `t`, made unavailable.
pub open spec fn booked(t: TimeSlot) -> TimeSlot {
    TimeSlot { is_available: false, ..t }
}

/// The slot `t`, made available.
pub open spec fn freed(t: TimeSlot) -> TimeSlot {
    TimeSlot { is_available: true, ..t }
}

/// Some appointment of `a` has identifier `id`.
pub open spec fn id_in_use(a: Seq<Appointment>, id: Seq<char>) -> bool {
    exists|k: int| 0 <= k < a.len() && (#[trigger] a[k]).appointment_id@ == id
}

/// Some appointment of `a` refers to slot `id`.
pub open spec fn referenced(a: Seq<Appointment>, id: Seq<char>) -> bool {
    exists|k: int| 0 <= k < a.len() && (#[trigger] a[k]).time_slot.slot_id@ == id
}

/// Every unavailable slot of `s` is held by an appointment of `a`.
pub open spec fn booked_slots_held(s: Seq<TimeSlot>, a: Seq<Appointment>) -> bool {
    forall|i: int| 0 <= i < s.len() && !(#[trigger] s[i]).is_available ==> referenced(a, s[i].slot_id@)
}

/// Some slot of `s` has identifier `id`.
pub open spec fn slot_known(s: Seq<TimeSlot>, id: Seq<char>) -> bool {
    exists|i: int| 0 <= i < s.len() && (#[trigger] s[i]).slot_id@ == id
}

/// After booking slot `i` as appointment `ap`: the slot is unavailable and
/// the appointment is stored in its place in time.
pub open spec fn booking_done(
    old_s: Seq<TimeSlot>,
    old_a: Seq<Appointment>,
    new_s: Seq<TimeSlot>,
    new_a: Seq<Appointment>,
    i: int,
    ap: Appointment,
) -> bool {
    &&& new_s == old_s.update(i, booked(old_s[i]))
    &&& exists|q: int| 0 <= q <= old_a.len() && new_a == old_a.insert(q, ap)
}

/// One day of slot generation: `after` is `before` with the slots `r` added,
/// and `r` is every free position of the day's grid, in order.
pub open spec fn daily_done(
    before: DoctorCalendar,
    after: DoctorCalendar,
    date: i64,
    start_hour: u32,
    end_hour: u32,
    slot_duration_minutes: Option<i64>,
    break_start: Option<i64>,
    break_end: Option<i64>,
    r: Seq<TimeSlot>,
) -> bool {
    &&& (after.wf())
    &&& (after.appts() == before.appts())
    &&& (after.slot_duration_view() == before.slot_duration_view())
    &&& (after.slots().len() == before.slots().len() + r.len())
    &&& (all_stored(before.slots(), after.slots()))
    &&& (all_stored(r, after.slots()))
    &&& (forall|k: int, l: int| #![trigger r[k], r[l]] 0 <= k < l < r.len() ==> r[k].end_time <= r[l].start_time)
    &&& (forall|k: int| 0 <= k < r.len() ==> !slot_known(before.slots(), (#[trigger] r[k]).slot_id@))
    &&& (forall|k: int|
        0 <= k < r.len() ==> exists|g: int|
        0 <= g && (#[trigger] r[k]).start_time == #[trigger] grid_point(
        day_of(date as int) * 86400 + start_hour * 3600,
        chosen_duration(slot_duration_minutes, before.slot_duration_view()) * 60,
        g,
        ))
    &&& (forall|g: int|
        0 <= g && #[trigger] grid_point(
        day_of(date as int) * 86400 + start_hour * 3600,
        chosen_duration(slot_duration_minutes, before.slot_duration_view()) * 60,
        g,
        ) + chosen_duration(slot_duration_minutes, before.slot_duration_view()) * 60
        <= day_of(date as int) * 86400 + end_hour * 3600 && grid_free(
        before.slots(),
        grid_point(
        day_of(date as int) * 86400 + start_hour * 3600,
        chosen_duration(slot_duration_minutes, before.slot_duration_view()) * 60,
        g,
        ),
        grid_point(
        day_of(date as int) * 86400 + start_hour * 3600,
        chosen_duration(slot_duration_minutes, before.slot_duration_view()) * 60,
        g,
        ) + chosen_duration(slot_duration_minutes, before.slot_duration_view()) * 60,
        day_of(date as int) * 86400,
        break_start,
        break_end,
        ) ==> exists|k: int|
        0 <= k < r.len() && r[k].start_time == grid_point(
        day_of(date as int) * 86400 + start_hour * 3600,
        chosen_duration(slot_duration_minutes, before.slot_duration_view()) * 60,
        g,
        ))
    &&& (forall|k: int|
        0 <= k < r.len() ==> {
        let t = #[trigger] r[k];
        let ds = day_of(date as int) * 86400;
        &&& t.wf()
        &&& t.is_available
        &&& t.end_time - t.start_time == chosen_duration(
        slot_duration_minutes,
        before.slot_duration_view(),
        ) * 60
        &&& ds + start_hour * 3600 <= t.start_time
        &&& t.end_time <= ds + end_hour * 3600
        &&& !meets_break(
        t.start_time as int,
        t.end_time as int,
        ds,
        break_start,
        break_end,
        )
        })
}

/// The slots of `days`, one day after the other.
pub open spec fn concat_days(days: Seq<Seq<TimeSlot>>) -> Seq<TimeSlot>
    decreases days.len(),
{
    if days.len() == 0 {
        Seq::empty()
    } else {
        concat_days(days.drop_last()) + days.last()
    }
}

/// Day `date` of a weekly generation: on a working day the daily generation
/// takes `before` to `after` adding `r`; on another day nothing changes.
pub open spec fn day_generated(
    before: DoctorCalendar,
    after: DoctorCalendar,
    date: i64,
    working_days: Option<Vec<u32>>,
    start_hour: u32,
    end_hour: u32,
    slot_duration_minutes: Option<i64>,
    break_start: Option<i64>,
    break_end: Option<i64>,
    r: Seq<TimeSlot>,
) -> bool {
    if working_day(working_days, weekday_of(date as int)) {
        daily_done(before, after, date, start_hour, end_hour, slot_duration_minutes, break_start, break_end, r)
    } else {
        after == before && r.len() == 0
    }
}

/// Days `0 .. days.len()` from `start_date` on: day `d` takes `cals[d]` to
/// `cals[d + 1]`, adding `days[d]`.
pub open spec fn weekly_done(
    cals: Seq<DoctorCalendar>,
    days: Seq<Seq<TimeSlot>>,
    start_date: i64,
    working_days: Option<Vec<u32>>,
    start_hour: u32,
    end_hour: u32,
    slot_duration_minutes: Option<i64>,
    break_start: Option<i64>,
    break_end: Option<i64>,
) -> bool {
    &&& cals.len() == days.len() + 1
    &&& forall|d: int|
        0 <= d < days.len() ==> day_generated(
            cals[d],
            cals[d + 1],
            (start_date + d * 86400) as i64,
            working_days,
            start_hour,
            end_hour,
            slot_duration_minutes,
            break_start,
            break_end,
            #[trigger] days[d],
        )
}

/// The time slots and appointments of one doctor.
#[derive(Clone)]
pub struct DoctorCalendar {
    pub doctor_name: String,
    pub doctor_id: String,
    pub default_slot_duration: i64,
    time_slots: Vec<TimeSlot>,
    appointments: Vec<Appointment>,
}

impl DoctorCalendar {
    /// The stored slots, in order of start time.
    pub closed spec fn slots(&self) -> Seq<TimeSlot> {
        self.time_slots@
    }

    /// The stored appointments, in order of start time.
    pub closed spec fn appts(&self) -> Seq<Appointment> {
        self.appointments@
    }

    /// The doctor's name.
    pub closed spec fn name_view(&self) -> Seq<char> {
        self.doctor_name@
    }

    /// The default slot length in minutes.
    pub closed spec fn slot_duration_view(&self) -> int {
        self.default_slot_duration as int
    }

    pub open spec fn wf(&self) -> bool {
        &&& slots_wf(self.slots())
        &&& appts_wf(self.appts(), self.slots())
        &&& booked_slots_held(self.slots(), self.appts())
    }

    /// An empty calendar; the name must be non-empty and the default slot
    /// duration positive.
    pub fn new(doctor_name: String, default_slot_duration: i64) -> (r: Result<DoctorCalendar, String>)
        ensures
            doctor_name@.len() == 0 ==> (r matches Err(e) && e@ == MSG_EMPTY_DOCTOR_NAME@),
            doctor_name@.len() > 0 && default_slot_duration <= 0 ==> (r matches Err(e) && e@
                == MSG_BAD_DURATION@),
            doctor_name@.len() > 0 && default_slot_duration > 0 ==> (r matches Ok(c) && c.wf()
                && c.slots().len() == 0 && c.appts().len() == 0 && c.name_view() == doctor_name@
                && c.slot_duration_view() == default_slot_duration),
    {
        if doctor_name.as_str().is_empty() {
            return Err(MSG_EMPTY_DOCTOR_NAME.to_owned());
        }
        if default_slot_duration <= 0 {
            return Err(MSG_BAD_DURATION.to_owned());
        }
        Ok(
            DoctorCalendar {
                doctor_name,
                doctor_id: new_id(),
                default_slot_duration,
                time_slots: Vec::new(),
                appointments: Vec::new(),
            },
        )
    }

    /// All slots, in order of start time.
    pub fn time_slots(&self) -> (r: Vec<TimeSlot>)
        ensures
            r@ == self.slots(),
    {
        let mut r: Vec<TimeSlot> = Vec::new();
        let mut i: usize = 0;
        while i < self.time_slots.len()
            invariant
                i <= self.time_slots.len(),
                r@ == self.time_slots@.take(i as int),
            decreases self.time_slots.len() - i,
        {
            r.push(self.time_slots[i].snapshot());
            i += 1;
            assert(r@ =~= self.time_slots@.take(i as int));
        }
        assert(self.time_slots@.take(i as int) =~= self.time_slots@);
        r
    }

    /// The available slots, in order of start time.
    pub fn available_slots(&self) -> (r: Vec<TimeSlot>)
        requires
            self.wf(),
        ensures
            r@ == available_of(self.slots()),
            forall|k: int| 0 <= k < r@.len() ==> (#[trigger] r@[k]).is_available,
            forall|k: int, l: int| #![trigger r@[k], r@[l]] 0 <= k < l < r@.len() ==> r@[k].start_time < r@[l].start_time,
    {
        let ghost s = self.time_slots@;
        let mut r: Vec<TimeSlot> = Vec::new();
        let mut i: usize = 0;
        while i < self.time_slots.len()
            invariant
                s == self.time_slots@,
                slots_wf(s),
                i <= s.len(),
                r@ == available_of(s.take(i as int)),
                forall|k: int| 0 <= k < r@.len() ==> (#[trigger] r@[k]).is_available,
                forall|k: int, l: int| #![trigger r@[k], r@[l]] 0 <= k < l < r@.len() ==> r@[k].start_time < r@[l].start_time,
                forall|k: int, j: int| #![trigger r@[k], s[j]] 0 <= k < r@.len() && i <= j < s.len() ==> r@[k].start_time < s[j].start_time,
            decreases s.len() - i,
        {
            assert(s.take(i + 1).drop_last() =~= s.take(i as int));
            assert(s.take(i + 1).last() == s[i as int]);
            if self.time_slots[i].is_available {
                r.push(self.time_slots[i].snapshot());
                assert forall|k: int, j: int| #![trigger r@[k], s[j]] 0 <= k < r@.len() && i + 1 <= j < s.len() implies r@[k].start_time < s[j].start_time by {
                    assert(s[i as int].start_time < s[i as int].end_time);
                    assert(s[i as int].end_time <= s[j].start_time);
                }
            }
            i += 1;
        }
        assert(s.take(i as int) =~= s);
        r
    }

    /// Index of the stored slot with identifier `id`, if there is one.
    fn slot_index(&self, id: &String) -> (r: Option<usize>)
        ensures
            r matches Some(i) ==> i < self.slots().len() && self.slots()[i as int].slot_id@ == id@,
            r is None ==> forall|i: int|
                0 <= i < self.slots().len() ==> (#[trigger] self.slots()[i]).slot_id@ != id@,
    {
        let mut i: usize = 0;
        while i < self.time_slots.len()
            invariant
                i <= self.time_slots@.len(),
                forall|j: int| 0 <= j < i ==> (#[trigger] self.time_slots@[j]).slot_id@ != id@,
            decreases self.time_slots@.len() - i,
        {
            if self.time_slots[i].slot_id == *id {
                return Some(i);
            }
            i += 1;
        }
        None
    }

    /// Index of the stored appointment with identifier `id`, if there is one.
    fn appointment_index(&self, id: &String) -> (r: Option<usize>)
        ensures
            r matches Some(k) ==> k < self.appts().len() && self.appts()[k as int].appointment_id@
                == id@,
            r is None ==> forall|k: int|
                0 <= k < self.appts().len() ==> (#[trigger] self.appts()[k]).appointment_id@ != id@,
    {
        let mut k: usize = 0;
        while k < self.appointments.len()
            invariant
                k <= self.appointments@.len(),
                forall|j: int| 0 <= j < k ==> (#[trigger] self.appointments@[j]).appointment_id@ != id@,
            decreases self.appointments@.len() - k,
        {
            if self.appointments[k].appointment_id == *id {
                return Some(k);
            }
            k += 1;
        }
        None
    }

    /// Adds a slot. It is refused if it is not well formed, if it overlaps a
    /// stored slot (the first one in time is named), or if its identifier is
    /// taken; otherwise it is stored in its place in time.
    #[verifier::rlimit(30)]
    pub fn add_time_slot(&mut self, slot: TimeSlot) -> (r: Result<(), String>)
        requires
            old(self).wf(),
        ensures
            final(self).wf(),
            r is Err ==> *final(self) == *old(self),
            final(self).slot_duration_view() == old(self).slot_duration_view(),
            final(self).name_view() == old(self).name_view(),
            slot.end_time <= slot.start_time ==> (r matches Err(e) && e@ == MSG_BAD_SLOT_ORDER@),
            slot.start_time < slot.end_time && !slot.wf() ==> (r matches Err(e) && e@
                == MSG_TIME_OUT_OF_RANGE@),
            slot.wf() && !slot.is_available ==> (r matches Err(e) && e@ == MSG_SLOT_NOT_FREE@),
            slot.wf() && slot.is_available && (exists|i: int|
                0 <= i < old(self).slots().len() && slot.overlaps(&#[trigger] old(self).slots()[i]))
                ==> (r matches Err(e) && exists|i: int|
                0 <= i < old(self).slots().len() && slot.overlaps(&#[trigger] old(self).slots()[i])
                && e@ == overlap_message(old(self).slots()[i]) && forall|j: int|
                0 <= j < i ==> !slot.overlaps(&#[trigger] old(self).slots()[j])),
            slot.wf() && slot.is_available && (forall|i: int|
                0 <= i < old(self).slots().len() ==> !slot.overlaps(&#[trigger] old(self).slots()[i]))
                && (exists|i: int|
                0 <= i < old(self).slots().len() && (#[trigger] old(self).slots()[i]).slot_id@
                == slot.slot_id@) ==> (r matches Err(e) && e@ == MSG_DUPLICATE_SLOT_ID@),
            r is Ok <==> slot.wf() && slot.is_available && (forall|i: int|
                0 <= i < old(self).slots().len() ==> !slot.overlaps(&#[trigger] old(self).slots()[i]))
                && (forall|i: int|
                0 <= i < old(self).slots().len() ==> (#[trigger] old(self).slots()[i]).slot_id@
                != slot.slot_id@),
            r is Ok ==> final(self).appts() == old(self).appts() && exists|p: int|
                0 <= p <= old(self).slots().len() && final(self).slots() == old(self).slots().insert(
                    p,
                    slot,
                ),
    {
        if slot.end_time <= slot.start_time {
            return Err(MSG_BAD_SLOT_ORDER.to_owned());
        }
        if slot.start_time < MIN_TIME || slot.end_time > MAX_TIME {
            return Err(MSG_TIME_OUT_OF_RANGE.to_owned());
        }
        if !slot.is_available {
            return Err(MSG_SLOT_NOT_FREE.to_owned());
        }
        let ghost s = self.time_slots@;
        let mut i: usize = 0;
        while i < self.time_slots.len()
            invariant
                s == self.time_slots@,
                *self == *old(self),
                self.wf(),
                slot.wf(),
                slot.is_available,
                i <= s.len(),
                forall|j: int| 0 <= j < i ==> !slot.overlaps(&#[trigger] s[j]),
            decreases s.len() - i,
        {
            if slot.overlaps_with(&self.time_slots[i]) {
                let existing = &self.time_slots[i];
                let head = concat(MSG_OVERLAP_HEAD.to_owned(), time_text(existing.start_time).as_str());
                let head = concat(head, MSG_OVERLAP_SEP);
                return Err(concat(head, time_text(existing.end_time).as_str()));
            }
            i += 1;
        }
        if self.slot_index(&slot.slot_id).is_some() {
            return Err(MSG_DUPLICATE_SLOT_ID.to_owned());
        }
        let mut p: usize = 0;
        while p < self.time_slots.len() && self.time_slots[p].start_time < slot.start_time
            invariant
                s == self.time_slots@,
                *self == *old(self),
                self.wf(),
                slot.wf(),
                slot.is_available,
                forall|j: int| 0 <= j < s.len() ==> !slot.overlaps(&#[trigger] s[j]),
                forall|j: int| 0 <= j < s.len() ==> (#[trigger] s[j]).slot_id@ != slot.slot_id@,
                p <= s.len(),
                forall|j: int| 0 <= j < p ==> (#[trigger] s[j]).start_time < slot.start_time,
            decreases s.len() - p,
        {
            p += 1;
        }
        let ghost a = self.appointments@;
        self.time_slots.insert(p, slot);
        proof {
            let n = self.time_slots@;
            assert(n == s.insert(p as int, slot));
            assert forall|j: int| 0 <= j < p implies (#[trigger] s[j]).end_time <= slot.start_time by {
                assert(!slot.overlaps(&s[j]));
            }
            assert forall|j: int| p <= j < s.len() implies slot.end_time <= (#[trigger] s[j]).start_time by {
                assert(!slot.overlaps(&s[j]));
                if j > p {
                    assert(s[p as int].start_time < s[p as int].end_time);
                    assert(s[p as int].end_time <= s[j].start_time);
                }
            }
            assert forall|x: int, y: int| #![trigger n[x], n[y]] 0 <= x < y < n.len()
                implies n[x].end_time <= n[y].start_time by {
                if y < p {
                } else if y == p {
                    assert(n[x] == s[x]);
                } else if x < p {
                    assert(n[y] == s[y - 1]);
                    assert(s[x].end_time <= slot.start_time);
                    assert(slot.start_time < slot.end_time);
                    assert(slot.end_time <= s[y - 1].start_time);
                } else if x == p {
                    assert(n[y] == s[y - 1]);
                } else {
                    assert(n[x] == s[x - 1]);
                    assert(n[y] == s[y - 1]);
                }
            }
            assert forall|x: int, y: int| #![trigger n[x], n[y]] 0 <= x < y < n.len()
                implies n[x].slot_id@ != n[y].slot_id@ by {
                if y < p {
                } else if y == p {
                    assert(n[x] == s[x]);
                } else if x < p {
                    assert(n[y] == s[y - 1]);
                } else if x == p {
                    assert(n[y] == s[y - 1]);
                } else {
                    assert(n[x] == s[x - 1]);
                    assert(n[y] == s[y - 1]);
                }
            }
            assert forall|x: int| 0 <= x < n.len() implies (#[trigger] n[x]).wf() by {
                if x < p {
                } else if x == p {
                } else {
                    assert(n[x] == s[x - 1]);
                }
            }
            assert forall|k: int| 0 <= k < a.len() implies has_slot(#[trigger] a[k], n) by {
                let i = choose|i: int| occupies(a[k], s, i);
                if i < p {
                    assert(occupies(a[k], n, i));
                } else {
                    assert(n[i + 1] == s[i]);
                    assert(occupies(a[k], n, i + 1));
                }
            }
            assert(slots_wf(n));
            assert(self.appointments@ == a);

        }
        Ok(())
    }

    /// Among the available slots that start within `preferred_time ±
    /// flexibility_minutes` (ends included), the one nearest to the preferred
    /// time; of two equally near, the earlier.
    pub fn find_available_slot(&self, preferred_time: i64, flexibility_minutes: i64) -> (r: Option<TimeSlot>)
        requires
            self.wf(),
        ensures
            r is None <==> forall|i: int|
                0 <= i < self.slots().len() ==> !candidate(
                    #[trigger] self.slots()[i],
                    preferred_time as int,
                    flexibility_minutes as int,
                ),
            r matches Some(t) ==> (exists|i: int|
                0 <= i < self.slots().len() && #[trigger] self.slots()[i] == t) && candidate(
                t,
                preferred_time as int,
                flexibility_minutes as int,
            ) && forall|j: int|
                0 <= j < self.slots().len() && candidate(
                    #[trigger] self.slots()[j],
                    preferred_time as int,
                    flexibility_minutes as int,
                ) ==> no_worse(t, self.slots()[j], preferred_time as int),
    {
        let lo = window_start_of(preferred_time, flexibility_minutes);
        let hi = window_end_of(preferred_time, flexibility_minutes);
        let pref = preferred_time as i128;
        let ghost p = preferred_time as int;
        let ghost f = flexibility_minutes as int;
        let ghost s = self.time_slots@;
        let mut best: Option<usize> = None;
        let mut best_dist: i128 = 0;
        let mut i: usize = 0;
        while i < self.time_slots.len()
            invariant
                s == self.time_slots@,
                slots_wf(s),
                i <= s.len(),
                lo == crate::models::window_start(p, f),
                hi == crate::models::window_end(p, f),
                pref == p,
                best is None ==> forall|j: int| 0 <= j < i ==> !candidate(#[trigger] s[j], p, f),
                best matches Some(b) ==> b < i && candidate(s[b as int], p, f) && best_dist
                    == distance(s[b as int].start_time as int, p) && forall|j: int|
                    0 <= j < i && candidate(#[trigger] s[j], p, f) ==> no_worse(s[b as int], s[j], p),
            decreases s.len() - i,
        {
            let st = self.time_slots[i].start_time as i128;
            if self.time_slots[i].is_available && lo <= st && st <= hi {
                let d: i128 = if st >= pref {
                    st - pref
                } else {
                    pref - st
                };
                match best {
                    None => {
                        best = Some(i);
                        best_dist = d;
                    },
                    Some(b) => {
                        if d < best_dist {
                            best = Some(i);
                            best_dist = d;
                        } else {
                            proof {
                                assert(s[b as int].start_time < s[b as int].end_time);
                                assert(s[b as int].end_time <= s[i as int].start_time);
                            }
                        }
                    },
                }
            }
            i += 1;
        }
        match best {
            None => None,
            Some(b) => Some(self.time_slots[b].snapshot()),
        }
    }

    /// The earliest available slot that starts at or after `after`.
    pub fn find_next_available_slot(&self, after: i64) -> (r: Option<TimeSlot>)
        requires
            self.wf(),
        ensures
            r is None <==> forall|i: int|
                0 <= i < self.slots().len() ==> !((#[trigger] self.slots()[i]).is_available
                    && self.slots()[i].start_time >= after),
            r matches Some(t) ==> (exists|i: int|
                0 <= i < self.slots().len() && #[trigger] self.slots()[i] == t) && t.is_available
                && t.start_time >= after && forall|j: int|
                0 <= j < self.slots().len() && (#[trigger] self.slots()[j]).is_available
                    && self.slots()[j].start_time >= after ==> t.start_time <= self.slots()[j].start_time,
    {
        let ghost s = self.time_slots@;
        let mut i: usize = 0;
        while i < self.time_slots.len()
            invariant
                s == self.time_slots@,
                slots_wf(s),
                i <= s.len(),
                forall|j: int| 0 <= j < i ==> !((#[trigger] s[j]).is_available && s[j].start_time >= after),
            decreases s.len() - i,
        {
            if self.time_slots[i].is_available && self.time_slots[i].start_time >= after {
                proof {
                    assert forall|j: int| 0 <= j < s.len() && (#[trigger] s[j]).is_available
                        && s[j].start_time >= after implies s[i as int].start_time <= s[j].start_time by {
                        if j > i {
                            assert(s[i as int].start_time < s[i as int].end_time);
                            assert(s[i as int].end_time <= s[j].start_time);
                        }
                    }
                }
                let t = self.time_slots[i].snapshot();
                assert(self.slots()[i as int] == t);
                assert(!(forall|j: int| 0 <= j < s.len() ==> !((#[trigger] s[j]).is_available && s[j].start_time >= after)));
                return Some(t);
            }
            i += 1;
        }
        None
    }

    /// Books slot `slot_id` as appointment `appointment_id`, made at
    /// `created_at`. Refused, with nothing changed, if the slot is unknown,
    /// unavailable, the reason empty or the appointment id taken (checked in
    /// that order); otherwise the slot becomes unavailable and the
    /// appointment, a snapshot of the booked slot, is stored.
    #[verifier::rlimit(50)]
    pub fn book_slot_with(
        &mut self,
        slot_id: &String,
        patient: Patient,
        priority: Priority,
        reason: String,
        appointment_id: String,
        created_at: i64,
    ) -> (r: Result<Appointment, String>)
        requires
            old(self).wf(),
        ensures
            final(self).wf(),
            r is Err ==> *final(self) == *old(self),
            !slot_known(old(self).slots(), slot_id@) ==> (r matches Err(e) && e@ == MSG_SLOT_NOT_FOUND@),
            forall|i: int|
                0 <= i < old(self).slots().len() && (#[trigger] old(self).slots()[i]).slot_id@
                    == slot_id@ ==> {
                    &&& !old(self).slots()[i].is_available ==> (r matches Err(e) && e@
                        == MSG_SLOT_UNAVAILABLE@)
                    &&& old(self).slots()[i].is_available && reason@.len() == 0 ==> (r matches Err(
                        e,
                    ) && e@ == MSG_EMPTY_REASON@)
                    &&& old(self).slots()[i].is_available && reason@.len() > 0 && id_in_use(
                        old(self).appts(),
                        appointment_id@,
                    ) ==> (r matches Err(e) && e@ == MSG_DUPLICATE_APPOINTMENT_ID@)
                    &&& old(self).slots()[i].is_available && reason@.len() > 0 && !id_in_use(
                        old(self).appts(),
                        appointment_id@,
                    ) ==> (r == Ok::<Appointment, String>(
                        Appointment {
                            appointment_id,
                            patient,
                            time_slot: booked(old(self).slots()[i]),
                            priority,
                            reason,
                            created_at,
                            confirmed: true,
                        },
                    ) && booking_done(
                        old(self).slots(),
                        old(self).appts(),
                        final(self).slots(),
                        final(self).appts(),
                        i,
                        r->Ok_0,
                    ))
                },
    {
        let ghost s = self.time_slots@;
        let ghost a = self.appointments@;
        let i = match self.slot_index(slot_id) {
            None => return Err(MSG_SLOT_NOT_FOUND.to_owned()),
            Some(i) => i,
        };
        proof {
            assert forall|j: int| 0 <= j < s.len() && (#[trigger] s[j]).slot_id@ == slot_id@ implies j == i by {
                if j < i {
                    assert(s[j].slot_id@ != s[i as int].slot_id@);
                } else if j > i {
                    assert(s[i as int].slot_id@ != s[j].slot_id@);
                }
            }
        }
        if !self.time_slots[i].is_available {
            return Err(MSG_SLOT_UNAVAILABLE.to_owned());
        }
        if reason.as_str().is_empty() {
            return Err(MSG_EMPTY_REASON.to_owned());
        }
        if self.appointment_index(&appointment_id).is_some() {
            return Err(MSG_DUPLICATE_APPOINTMENT_ID.to_owned());
        }
        let start = self.time_slots[i].start_time;
        let updated = TimeSlot {
            start_time: start,
            end_time: self.time_slots[i].end_time,
            is_available: false,
            slot_id: self.time_slots[i].slot_id.clone(),
        };
        let mut q: usize = 0;
        while q < self.appointments.len() && self.appointments[q].time_slot.start_time < start
            invariant
                a == self.appointments@,
                q <= a.len(),
                forall|j: int| 0 <= j < q ==> (#[trigger] a[j]).time_slot.start_time < start,
            decreases a.len() - q,
        {
            q += 1;
        }
        let appointment = Appointment {
            appointment_id,
            patient,
            time_slot: updated.snapshot(),
            priority,
            reason,
            created_at,
            confirmed: true,
        };
        let result = appointment.snapshot();
        self.time_slots.set(i, updated);
        self.appointments.insert(q, appointment);
        proof {
            let n = self.time_slots@;
            let na = self.appointments@;
            let ii = i as int;
            assert(updated == booked(s[ii]));
            assert forall|x: int| 0 <= x < n.len() implies #[trigger] n[x].start_time == s[x].start_time
                && n[x].end_time == s[x].end_time && n[x].slot_id@ == s[x].slot_id@ && n[x].wf() == s[x].wf() by {
            }
            assert(slots_wf(n));
            assert forall|j: int| q <= j < a.len() implies (#[trigger] a[j]).time_slot.start_time > start by {
                let w = choose|w: int| occupies(a[j], s, w);
                assert(w != ii);
                if q < j {
                    assert(a[q as int].time_slot.start_time < a[j].time_slot.start_time);
                }
                assert(a[q as int].time_slot.start_time >= start);
                if w < ii {
                    assert(s[w].start_time < s[w].end_time);
                    assert(s[w].end_time <= s[ii].start_time);
                } else {
                    assert(s[ii].start_time < s[ii].end_time);
                    assert(s[ii].end_time <= s[w].start_time);
                }
            }
            assert forall|k: int| 0 <= k < na.len() implies has_slot(#[trigger] na[k], n) by {
                if k < q {
                    assert(na[k] == a[k]);
                    let w = choose|w: int| occupies(a[k], s, w);
                    assert(w != ii);
                    assert(occupies(na[k], n, w));
                } else if k == q {
                    assert(occupies(na[k], n, ii));
                } else {
                    let kp = k - 1;
                    assert(na[k] == a[kp]);
                    let w = choose|w: int| occupies(a[kp], s, w);
                    assert(w != ii);
                    assert(occupies(na[k], n, w));
                }
            }
            assert forall|x: int, y: int| #![trigger na[x], na[y]] 0 <= x < y < na.len()
                implies na[x].time_slot.start_time < na[y].time_slot.start_time by {
                if y < q {
                } else if y == q {
                    assert(na[x] == a[x]);
                } else if x < q {
                    assert(na[y] == a[y - 1]);
                    assert(na[x] == a[x]);
                } else if x == q {
                    assert(na[y] == a[y - 1]);
                } else {
                    assert(na[x] == a[x - 1]);
                    assert(na[y] == a[y - 1]);
                }
            }
            assert forall|x: int, y: int| #![trigger na[x], na[y]] 0 <= x < y < na.len()
                implies na[x].appointment_id@ != na[y].appointment_id@ by {
                if y < q {
                } else if y == q {
                    assert(na[x] == a[x]);
                } else if x < q {
                    assert(na[y] == a[y - 1]);
                    assert(na[x] == a[x]);
                } else if x == q {
                    assert(na[y] == a[y - 1]);
                } else {
                    assert(na[x] == a[x - 1]);
                    assert(na[y] == a[y - 1]);
                }
            }
            assert forall|k: int| 0 <= k < na.len() implies (#[trigger] na[k]).reason@.len() > 0 by {
                if k < q {
                    assert(na[k] == a[k]);
                } else if k > q {
                    assert(na[k] == a[k - 1]);
                }
            }
            assert(appts_wf(na, n));
            assert(booking_done(s, a, n, na, ii, result));
            assert forall|x: int| 0 <= x < n.len() && !(#[trigger] n[x]).is_available implies referenced(na, n[x].slot_id@) by {
                if x == ii {
                    assert(na[q as int].time_slot.slot_id@ == n[x].slot_id@);
                } else {
                    assert(n[x] == s[x]);
                    let k = choose|k: int| 0 <= k < a.len() && (#[trigger] a[k]).time_slot.slot_id@ == s[x].slot_id@;
                    if k < q {
                        assert(na[k] == a[k]);
                    } else {
                        assert(na[k + 1] == a[k]);
                    }
                }
            }
        }
        Ok(result)
    }

    /// Books `slot` for a patient: `book_slot_with` under a fresh identifier,
    /// made now. The identifier is a new UUID, lengthened should it already
    /// be in use, so the booking succeeds whenever the slot is known,
    /// available and the reason non-empty.
    pub fn book_slot(&mut self, slot: &TimeSlot, patient: Patient, priority: Priority, reason: String) -> (r: Result<Appointment, String>)
        requires
            old(self).wf(),
        ensures
            final(self).wf(),
            r is Err ==> *final(self) == *old(self),
            !slot_known(old(self).slots(), slot.slot_id@) ==> (r matches Err(e) && e@ == MSG_SLOT_NOT_FOUND@),
            forall|i: int|
                0 <= i < old(self).slots().len() && (#[trigger] old(self).slots()[i]).slot_id@
                    == slot.slot_id@ ==> {
                    &&& !old(self).slots()[i].is_available ==> (r matches Err(e) && e@
                        == MSG_SLOT_UNAVAILABLE@)
                    &&& old(self).slots()[i].is_available && reason@.len() == 0 ==> (r matches Err(
                        e,
                    ) && e@ == MSG_EMPTY_REASON@)
                    &&& old(self).slots()[i].is_available && reason@.len() > 0 ==> (r matches Ok(ap)
                        && ap.patient == patient && ap.time_slot == booked(old(self).slots()[i])
                        && ap.priority == priority && ap.reason == reason && ap.confirmed
                        && !id_in_use(old(self).appts(), ap.appointment_id@) && booking_done(
                        old(self).slots(),
                        old(self).appts(),
                        final(self).slots(),
                        final(self).appts(),
                        i,
                        ap,
                    ))
                },
    {
        let appointment_id = fresh_id(new_id(), &self.appointments);
        let created_at = now();
        self.book_slot_with(&slot.slot_id, patient, priority, reason, appointment_id, created_at)
    }

    /// Cancels appointment `appointment_id` and makes its slot available
    /// again. Returns whether the appointment was stored; if it was not,
    /// nothing changes.
    #[verifier::rlimit(30)]
    pub fn cancel_appointment(&mut self, appointment_id: &str) -> (r: bool)
        requires
            old(self).wf(),
        ensures
            final(self).wf(),
            r == id_in_use(old(self).appts(), appointment_id@),
            !r ==> *final(self) == *old(self),
            forall|k: int|
                0 <= k < old(self).appts().len() && (#[trigger] old(self).appts()[k]).appointment_id@
                    == appointment_id@ ==> final(self).appts() == old(self).appts().remove(k)
                    && forall|i: int|
                    occupies(old(self).appts()[k], old(self).slots(), i) ==> final(self).slots()
                        == old(self).slots().update(i, freed(old(self).slots()[i])),
    {
        let ghost s = self.time_slots@;
        let ghost a = self.appointments@;
        let id = appointment_id.to_owned();
        let k = match self.appointment_index(&id) {
            None => return false,
            Some(k) => k,
        };
        let ghost kk = k as int;
        proof {
            assert forall|j: int| 0 <= j < a.len() && (#[trigger] a[j]).appointment_id@ == appointment_id@ implies j == kk by {
                if j < kk {
                    assert(a[j].appointment_id@ != a[kk].appointment_id@);
                } else if j > kk {
                    assert(a[kk].appointment_id@ != a[j].appointment_id@);
                }
            }
        }
        let removed = self.appointments.remove(k);
        let ghost w = choose|w: int| occupies(a[kk], s, w);
        proof {
            assert forall|i: int| occupies(a[kk], s, i) implies i == w by {
                if i < w {
                    assert(s[i].slot_id@ != s[w].slot_id@);
                } else if i > w {
                    assert(s[w].slot_id@ != s[i].slot_id@);
                }
            }
        }
        match self.slot_index(&removed.time_slot.slot_id) {
            Some(i) => {
                proof {
                    assert(occupies(a[kk], s, i as int));
                }
                let freed_slot = TimeSlot {
                    start_time: self.time_slots[i].start_time,
                    end_time: self.time_slots[i].end_time,
                    is_available: true,
                    slot_id: self.time_slots[i].slot_id.clone(),
                };
                self.time_slots.set(i, freed_slot);
            },
            None => {},
        }
        proof {
            let n = self.time_slots@;
            let na = self.appointments@;
            assert(n == s.update(w, freed(s[w])));
            assert forall|x: int| 0 <= x < n.len() implies #[trigger] n[x].start_time == s[x].start_time
                && n[x].end_time == s[x].end_time && n[x].slot_id@ == s[x].slot_id@ && n[x].wf() == s[x].wf() by {
            }
            assert(slots_wf(n));
            assert forall|x: int| 0 <= x < na.len() implies has_slot(#[trigger] na[x], n) by {
                let y = if x < kk { x } else { x + 1 };
                assert(na[x] == a[y]);
                let v = choose|v: int| occupies(a[y], s, v);
                if y < kk {
                    assert(a[y].time_slot.start_time < a[kk].time_slot.start_time);
                } else {
                    assert(a[kk].time_slot.start_time < a[y].time_slot.start_time);
                }
                assert(v != w);
                assert(occupies(na[x], n, v));
            }
            assert forall|x: int, y: int| #![trigger na[x], na[y]] 0 <= x < y < na.len()
                implies na[x].time_slot.start_time < na[y].time_slot.start_time
                && na[x].appointment_id@ != na[y].appointment_id@ by {
                let x2 = if x < kk { x } else { x + 1 };
                let y2 = if y < kk { y } else { y + 1 };
                assert(na[x] == a[x2]);
                assert(na[y] == a[y2]);
            }
            assert forall|x: int| 0 <= x < na.len() implies (#[trigger] na[x]).reason@.len() > 0 by {
                let x2 = if x < kk { x } else { x + 1 };
                assert(na[x] == a[x2]);
            }
            assert(appts_wf(na, n));
            assert forall|x: int| 0 <= x < n.len() && !(#[trigger] n[x]).is_available implies referenced(na, n[x].slot_id@) by {
                assert(x != w);
                assert(n[x] == s[x]);
                let k = choose|k: int| 0 <= k < a.len() && (#[trigger] a[k]).time_slot.slot_id@ == s[x].slot_id@;
                if k == kk {
                    if x < w {
                        assert(s[x].slot_id@ != s[w].slot_id@);
                    } else {
                        assert(s[w].slot_id@ != s[x].slot_id@);
                    }
                }
                if k < kk {
                    assert(na[k] == a[k]);
                } else {
                    assert(na[k - 1] == a[k]);
                }
            }
        }
        true
    }

    /// The appointment with identifier `appointment_id`, if it is stored.
    pub fn get_appointment_by_id(&self, appointment_id: &str) -> (r: Option<Appointment>)
        ensures
            r is None <==> !id_in_use(self.appts(), appointment_id@),
            r matches Some(ap) ==> ap.appointment_id@ == appointment_id@ && exists|k: int|
                0 <= k < self.appts().len() && #[trigger] self.appts()[k] == ap,
    {
        let id = appointment_id.to_owned();
        match self.appointment_index(&id) {
            None => None,
            Some(k) => Some(self.appointments[k].snapshot()),
        }
    }

    /// All appointments, in order of start time.
    pub fn appointments(&self) -> (r: Vec<Appointment>)
        ensures
            r@ == self.appts(),
    {
        let mut r: Vec<Appointment> = Vec::new();
        let mut k: usize = 0;
        while k < self.appointments.len()
            invariant
                k <= self.appointments.len(),
                r@ == self.appointments@.take(k as int),
            decreases self.appointments.len() - k,
        {
            r.push(self.appointments[k].snapshot());
            k += 1;
            assert(r@ =~= self.appointments@.take(k as int));
        }
        assert(self.appointments@.take(k as int) =~= self.appointments@);
        r
    }

    /// Removes slot `slot_id`, unless an appointment refers to it. Returns
    /// whether a slot was removed.
    #[verifier::rlimit(30)]
    pub fn remove_time_slot(&mut self, slot_id: &str) -> (r: bool)
        requires
            old(self).wf(),
        ensures
            final(self).wf(),
            final(self).appts() == old(self).appts(),
            r == (slot_known(old(self).slots(), slot_id@) && !referenced(old(self).appts(), slot_id@)),
            !r ==> *final(self) == *old(self),
            r ==> forall|i: int|
                0 <= i < old(self).slots().len() && (#[trigger] old(self).slots()[i]).slot_id@
                    == slot_id@ ==> final(self).slots() == old(self).slots().remove(i),
    {
        let ghost s = self.time_slots@;
        let ghost a = self.appointments@;
        let id = slot_id.to_owned();
        let i = match self.slot_index(&id) {
            None => return false,
            Some(i) => i,
        };
        proof {
            assert forall|j: int| 0 <= j < s.len() && (#[trigger] s[j]).slot_id@ == slot_id@ implies j == i by {
                if j < i {
                    assert(s[j].slot_id@ != s[i as int].slot_id@);
                } else if j > i {
                    assert(s[i as int].slot_id@ != s[j].slot_id@);
                }
            }
        }
        let mut k: usize = 0;
        while k < self.appointments.len()
            invariant
                a == self.appointments@,
                *self == *old(self),
                self.wf(),
                id@ == slot_id@,
                k <= a.len(),
                forall|j: int| 0 <= j < k ==> (#[trigger] a[j]).time_slot.slot_id@ != slot_id@,
            decreases a.len() - k,
        {
            if self.appointments[k].time_slot.slot_id == id {
                assert(a[k as int].time_slot.slot_id@ == slot_id@);
                return false;
            }
            k += 1;
        }
        self.time_slots.remove(i);
        proof {
            let n = self.time_slots@;
            let ii = i as int;
            assert forall|x: int, y: int| #![trigger n[x], n[y]] 0 <= x < y < n.len()
                implies n[x].end_time <= n[y].start_time && n[x].slot_id@ != n[y].slot_id@ by {
                let x2 = if x < ii { x } else { x + 1 };
                let y2 = if y < ii { y } else { y + 1 };
                assert(n[x] == s[x2]);
                assert(n[y] == s[y2]);
            }
            assert forall|x: int| 0 <= x < n.len() implies (#[trigger] n[x]).wf() by {
                let x2 = if x < ii { x } else { x + 1 };
                assert(n[x] == s[x2]);
            }
            assert forall|k: int| 0 <= k < a.len() implies has_slot(#[trigger] a[k], n) by {
                let w = choose|w: int| occupies(a[k], s, w);
                assert(w != ii);
                if w < ii {
                    assert(occupies(a[k], n, w));
                } else {
                    assert(n[w - 1] == s[w]);
                    assert(occupies(a[k], n, w - 1));
                }
            }
        }
        true
    }

    /// The available slots that start on the day on which `date` falls, in
    /// order of start time.
    pub fn find_available_slots_on_date(&self, date: i64) -> (r: Vec<TimeSlot>)
        ensures
            r@ == available_on(self.slots(), day_of(date as int)),
    {
        let ghost s = self.time_slots@;
        let day = day_number(date);
        let mut r: Vec<TimeSlot> = Vec::new();
        let mut i: usize = 0;
        while i < self.time_slots.len()
            invariant
                s == self.time_slots@,
                i <= s.len(),
                day == day_of(date as int),
                r@ == available_on(s.take(i as int), day as int),
            decreases s.len() - i,
        {
            assert(s.take(i + 1).drop_last() =~= s.take(i as int));
            assert(s.take(i + 1).last() == s[i as int]);
            if self.time_slots[i].is_available && day_number(self.time_slots[i].start_time) == day {
                r.push(self.time_slots[i].snapshot());
            }
            i += 1;
        }
        assert(s.take(i as int) =~= s);
        r
    }

    /// The appointments whose slot starts on the day on which `date` falls,
    /// in order of start time.
    pub fn get_appointments_on_date(&self, date: i64) -> (r: Vec<Appointment>)
        ensures
            r@ == appointments_on(self.appts(), day_of(date as int)),
    {
        let ghost a = self.appointments@;
        let day = day_number(date);
        let mut r: Vec<Appointment> = Vec::new();
        let mut k: usize = 0;
        while k < self.appointments.len()
            invariant
                a == self.appointments@,
                k <= a.len(),
                day == day_of(date as int),
                r@ == appointments_on(a.take(k as int), day as int),
            decreases a.len() - k,
        {
            assert(a.take(k + 1).drop_last() =~= a.take(k as int));
            assert(a.take(k + 1).last() == a[k as int]);
            if day_number(self.appointments[k].time_slot.start_time) == day {
                r.push(self.appointments[k].snapshot());
            }
            k += 1;
        }
        assert(a.take(k as int) =~= a);
        r
    }

    /// Adds the slots of one working day: from `start_hour` to `end_hour` on
    /// the day on which `date` falls, back to back, each `slot_duration_minutes`
    /// long (the calendar's default when not given), skipping those that meet
    /// the break and those the calendar refuses. Returns the slots added.
    #[verifier::rlimit(30)]
    pub fn generate_daily_slots(
        &mut self,
        date: i64,
        start_hour: u32,
        end_hour: u32,
        slot_duration_minutes: Option<i64>,
        break_start: Option<i64>,
        break_end: Option<i64>,
    ) -> (r: Vec<TimeSlot>)
        requires
            old(self).wf(),
            start_hour < 24,
            end_hour < 24,
            chosen_duration(slot_duration_minutes, old(self).slot_duration_view()) > 0,
        ensures
            daily_done(
                *old(self),
                *final(self),
                date,
                start_hour,
                end_hour,
                slot_duration_minutes,
                break_start,
                break_end,
                r@,
            ),
    {
        let dur: i64 = match slot_duration_minutes {
            Some(d) => d,
            None => self.default_slot_duration,
        };
        let step: i128 = dur as i128 * 60;
        let day_start: i128 = day_number(date) as i128 * 86400;
        let first: i128 = day_start + start_hour as i128 * 3600;
        let end: i128 = day_start + end_hour as i128 * 3600;
        let mut current: i128 = first;
        let mut out: Vec<TimeSlot> = Vec::new();
        let ghost s0 = self.time_slots@;
        let ghost mut n: int = 0;
        proof {
            lemma_stored_in_itself(s0);
        }
        while current + step <= end
            invariant
                n >= 0,
                forall|i: int|
                    0 <= i < self.time_slots@.len() ==> s0.contains(#[trigger] self.time_slots@[i])
                        || out@.contains(self.time_slots@[i]),
                forall|h: int|
                    0 <= h < n && #[trigger] grid_point(first as int, step as int, h) + step <= end
                        && grid_free(
                        s0,
                        grid_point(first as int, step as int, h),
                        grid_point(first as int, step as int, h) + step,
                        day_start as int,
                        break_start,
                        break_end,
                    ) ==> exists|k: int|
                        0 <= k < out@.len() && out@[k].start_time == grid_point(first as int, step as int, h),
                current == grid_point(first as int, step as int, n),
                forall|k: int| 0 <= k < out@.len() ==> !slot_known(s0, (#[trigger] out@[k]).slot_id@),
                forall|k: int| 0 <= k < out@.len() ==> exists|g: int| 0 <= g && (#[trigger] out@[k]).start_time == #[trigger] grid_point(first as int, step as int, g),
                self.wf(),
                self.appointments@ == old(self).appointments@,
                self.default_slot_duration == old(self).default_slot_duration,
                self.time_slots@.len() == s0.len() + out@.len(),
                s0 == old(self).time_slots@,
                step == dur * 60,
                dur == chosen_duration(slot_duration_minutes, old(self).slot_duration_view()),
                dur > 0,
                day_start == day_of(date as int) * 86400,
                first == day_start + start_hour * 3600,
                end == day_start + end_hour * 3600,
                first <= current,
                current == first || current <= end,
                -10_000_000_000_000_000_000_000_000 <= day_start <= 10_000_000_000_000_000_000_000_000,
                -10_000_000_000_000_000_000_000_000 <= current <= 10_000_000_000_000_000_000_000_000,
                all_stored(out@, self.time_slots@),
                all_stored(s0, self.time_slots@),
                forall|k: int| 0 <= k < out@.len() ==> (#[trigger] out@[k]).end_time <= current,
                forall|k: int, l: int| #![trigger out@[k], out@[l]] 0 <= k < l < out@.len() ==> out@[k].end_time <= out@[l].start_time,
                forall|k: int|
                    0 <= k < out@.len() ==> {
                        let t = #[trigger] out@[k];
                        &&& t.wf()
                        &&& t.is_available
                        &&& t.end_time - t.start_time == dur * 60
                        &&& first <= t.start_time
                        &&& t.end_time <= end
                        &&& !meets_break(t.start_time as int, t.end_time as int, day_start as int, break_start, break_end)
                    },
            decreases end - current,
        {
            let slot_end = current + step;
            let mut skip = false;
            if let Some(bs) = break_start {
                if let Some(be) = break_end {
                    if current - day_start < be as i128 && slot_end - day_start > bs as i128 {
                        skip = true;
                    }
                }
            }
            if !skip && MIN_TIME as i128 <= current && slot_end <= MAX_TIME as i128 {
                let slot = TimeSlot {
                    start_time: current as i64,
                    end_time: slot_end as i64,
                    is_available: true,
                    slot_id: fresh_slot_id(new_id(), &self.time_slots),
                };
                let copy = slot.snapshot();
                let ghost before = self.time_slots@;
                let ghost out0 = out@;
                let added = self.add_time_slot(slot);
                proof {
                    if grid_free(s0, current as int, slot_end as int, day_start as int, break_start, break_end) {
                        assert forall|i: int| 0 <= i < before.len() implies !copy.overlaps(&#[trigger] before[i]) by {
                            if s0.contains(before[i]) {
                                let j = choose|j: int| 0 <= j < s0.len() && s0[j] == before[i];
                                assert(!intervals_overlap(current as int, slot_end as int, s0[j].start_time as int, s0[j].end_time as int));
                            } else {
                                assert(out0.contains(before[i]));
                                let j = choose|j: int| 0 <= j < out0.len() && out0[j] == before[i];
                                assert(out0[j].end_time <= current);
                            }
                        }
                        assert(added is Ok);
                    }
                }
                if let Ok(()) = added {
                    proof {
                        let after = self.time_slots@;
                        let p = choose|p: int| 0 <= p <= before.len() && after == before.insert(p, copy);
                        lemma_stored_after_insert(out@, before, p, copy);
                        lemma_stored_after_insert(s0, before, p, copy);
                        assert(after[p] == copy);
                        assert(after.contains(copy));
                        assert forall|j: int| 0 <= j < s0.len() implies (#[trigger] s0[j]).slot_id@ != copy.slot_id@ by {
                            assert(before.contains(s0[j]));
                        }
                        assert(copy.start_time == grid_point(first as int, step as int, n));
                    }
                    out.push(copy);
                    proof {
                        let after = self.time_slots@;
                        let p = choose|p: int| 0 <= p <= before.len() && after == before.insert(p, copy);
                        assert(out@[out@.len() - 1] == copy);
                        assert forall|i: int| 0 <= i < after.len() implies s0.contains(#[trigger] after[i])
                            || out@.contains(after[i]) by {
                            if i == p {
                                assert(out@[out@.len() - 1] == after[i]);
                            } else {
                                let i2 = if i < p { i } else { i - 1 };
                                assert(after[i] == before[i2]);
                                if out0.contains(before[i2]) {
                                    let j = choose|j: int| 0 <= j < out0.len() && out0[j] == before[i2];
                                    assert(out@[j] == out0[j]);
                                }
                            }
                        }
                        assert forall|h: int|
                            0 <= h <= n && #[trigger] grid_point(first as int, step as int, h) + step <= end
                                && grid_free(
                                s0,
                                grid_point(first as int, step as int, h),
                                grid_point(first as int, step as int, h) + step,
                                day_start as int,
                                break_start,
                                break_end,
                            ) implies exists|k: int|
                                0 <= k < out@.len() && out@[k].start_time == grid_point(first as int, step as int, h) by {
                            if h < n {
                                let k = choose|k: int| 0 <= k < out0.len() && out0[k].start_time == grid_point(first as int, step as int, h);
                                assert(out@[k] == out0[k]);
                            } else {
                                assert(out@[out@.len() - 1].start_time == grid_point(first as int, step as int, h));
                            }
                        }
                    }
                }
            }
            current = slot_end;
            proof {
                assert(first + (n + 1) * step == first + n * step + step) by (nonlinear_arith);
                n = n + 1;
            }
        }
        proof {
            assert forall|h: int| h >= n implies #[trigger] grid_point(first as int, step as int, h) + step > end by {
                assert(h * step >= n * step) by (nonlinear_arith)
                    requires
                        h >= n,
                        step > 0,
                ;
            }
        }
        out
    }

    /// Adds the slots of `weeks` weeks of working days, starting on the day
    /// on which `start_date` falls: `generate_daily_slots` on each working
    /// day (Monday to Friday when `working_days` is not given). Returns the
    /// slots added.
    #[verifier::rlimit(30)]
    pub fn generate_weekly_slots(
        &mut self,
        start_date: i64,
        weeks: usize,
        working_days: Option<Vec<u32>>,
        start_hour: u32,
        end_hour: u32,
        slot_duration_minutes: Option<i64>,
        break_start: Option<i64>,
        break_end: Option<i64>,
    ) -> (r: Vec<TimeSlot>)
        requires
            old(self).wf(),
            start_hour < 24,
            end_hour < 24,
            chosen_duration(slot_duration_minutes, old(self).slot_duration_view()) > 0,
            start_date + weeks * 7 * 86400 <= i64::MAX,
        ensures
            final(self).wf(),
            exists|cals: Seq<DoctorCalendar>, days: Seq<Seq<TimeSlot>>|
                #[trigger] weekly_done(
                    cals,
                    days,
                    start_date,
                    working_days,
                    start_hour,
                    end_hour,
                    slot_duration_minutes,
                    break_start,
                    break_end,
                ) && days.len() == weeks * 7 && cals[0] == *old(self) && cals.last() == *final(self)
                    && r@ == concat_days(days),
            final(self).appts() == old(self).appts(),
            final(self).slots().len() == old(self).slots().len() + r@.len(),
            all_stored(old(self).slots(), final(self).slots()),
            all_stored(r@, final(self).slots()),
            forall|k: int| 0 <= k < r@.len() ==> !slot_known(old(self).slots(), (#[trigger] r@[k]).slot_id@),
            forall|k: int|
                0 <= k < r@.len() ==> {
                    let t = #[trigger] r@[k];
                    &&& t.wf()
                    &&& t.is_available
                    &&& t.end_time - t.start_time == chosen_duration(
                        slot_duration_minutes,
                        old(self).slot_duration_view(),
                    ) * 60
                    &&& working_day(working_days, weekday_of(t.start_time as int))
                },
    {
        let total: u64 = weeks as u64 * 7;
        let mut d: u64 = 0;
        let mut current_date: i64 = start_date;
        let mut all: Vec<TimeSlot> = Vec::new();
        let ghost s0 = self.time_slots@;
        let ghost dur = chosen_duration(slot_duration_minutes, old(self).slot_duration_view());
        let ghost mut cals: Seq<DoctorCalendar> = seq![*self];
        let ghost mut days: Seq<Seq<TimeSlot>> = Seq::empty();
        proof {
            lemma_stored_in_itself(s0);
        }
        while d < total
            invariant
                weekly_done(
                    cals,
                    days,
                    start_date,
                    working_days,
                    start_hour,
                    end_hour,
                    slot_duration_minutes,
                    break_start,
                    break_end,
                ),
                days.len() == d,
                cals[0] == *old(self),
                cals.last() == *self,
                all@ == concat_days(days),
                self.wf(),
                self.appointments@ == old(self).appointments@,
                self.default_slot_duration == old(self).default_slot_duration,
                s0 == old(self).time_slots@,
                self.time_slots@.len() == s0.len() + all@.len(),
                dur == chosen_duration(slot_duration_minutes, old(self).slot_duration_view()),
                dur > 0,
                start_hour < 24,
                end_hour < 24,
                total == weeks * 7,
                d <= total,
                current_date == start_date + d * 86400,
                start_date + total * 86400 <= i64::MAX,
                all_stored(s0, self.time_slots@),
                all_stored(all@, self.time_slots@),
                forall|k: int| 0 <= k < all@.len() ==> !slot_known(s0, (#[trigger] all@[k]).slot_id@),
                forall|k: int|
                    0 <= k < all@.len() ==> {
                        let t = #[trigger] all@[k];
                        &&& t.wf()
                        &&& t.is_available
                        &&& t.end_time - t.start_time == dur * 60
                        &&& working_day(working_days, weekday_of(t.start_time as int))
                    },
            decreases total - d,
        {
            let w = weekday_number(current_date);
            let ghost cb = *self;
            let ghost today: Seq<TimeSlot> = Seq::empty();
            if is_working_day(&working_days, w) {
                let ghost before = self.time_slots@;
                let daily = self.generate_daily_slots(
                    current_date,
                    start_hour,
                    end_hour,
                    slot_duration_minutes,
                    break_start,
                    break_end,
                );
                let ghost mid = all@;
                let mut j: usize = 0;
                while j < daily.len()
                    invariant
                        j <= daily@.len(),
                        all@ == mid + daily@.take(j as int),
                        all_stored(mid, self.time_slots@),
                        all_stored(daily@, self.time_slots@),
                        all_stored(s0, before),
                        forall|k: int| 0 <= k < daily@.len() ==> !slot_known(before, (#[trigger] daily@[k]).slot_id@),
                        forall|k: int| 0 <= k < all@.len() ==> !slot_known(s0, (#[trigger] all@[k]).slot_id@),
                        forall|k: int|
                            0 <= k < daily@.len() ==> {
                                let t = #[trigger] daily@[k];
                                let ds = day_of(current_date as int) * 86400;
                                &&& t.wf()
                                &&& t.is_available
                                &&& t.end_time - t.start_time == dur * 60
                                &&& ds + start_hour * 3600 <= t.start_time
                                &&& t.end_time <= ds + end_hour * 3600
                            },
                        working_day(working_days, weekday_of(current_date as int)),
                        start_hour < 24,
                        end_hour < 24,
                        forall|k: int|
                            0 <= k < all@.len() ==> {
                                let t = #[trigger] all@[k];
                                &&& t.wf()
                                &&& t.is_available
                                &&& t.end_time - t.start_time == dur * 60
                                &&& working_day(working_days, weekday_of(t.start_time as int))
                            },
                    decreases daily@.len() - j,
                {
                    proof {
                        let t = daily@[j as int];
                        let ds = day_of(current_date as int) * 86400;
                        vstd::arithmetic::div_mod::lemma_fundamental_div_mod_converse(
                            t.start_time as int,
                            86400,
                            day_of(current_date as int),
                            t.start_time - ds,
                        );
                        assert(weekday_of(t.start_time as int) == weekday_of(current_date as int));
                        assert forall|m: int| 0 <= m < s0.len() implies (#[trigger] s0[m]).slot_id@ != t.slot_id@ by {
                            assert(before.contains(s0[m]));
                            let x = choose|x: int| 0 <= x < before.len() && before[x] == s0[m];
                            assert(before[x].slot_id@ == s0[m].slot_id@);
                        }
                    }
                    all.push(daily[j].snapshot());
                    j += 1;
                    proof {
                        assert(all@ =~= mid + daily@.take(j as int));
                    }
                }
                proof {
                    assert(daily@.take(j as int) =~= daily@);
                    assert forall|k: int| 0 <= k < all@.len() implies self.time_slots@.contains(#[trigger] all@[k]) by {
                        if k < mid.len() {
                            assert(all@[k] == mid[k]);
                        } else {
                            assert(all@[k] == daily@[k - mid.len()]);
                        }
                    }
                    assert forall|k: int| 0 <= k < s0.len() implies self.time_slots@.contains(#[trigger] s0[k]) by {
                        assert(before.contains(s0[k]));
                        let w1 = choose|w1: int| 0 <= w1 < before.len() && before[w1] == s0[k];
                        assert(self.time_slots@.contains(before[w1]));
                    }
                    today = daily@;
                }
            }
            proof {
                let days2 = days.push(today);
                let cals2 = cals.push(*self);
                assert(days2.drop_last() =~= days);
                assert(all@ =~= concat_days(days2));
                assert forall|e: int| 0 <= e < days2.len() implies day_generated(
                    cals2[e],
                    cals2[e + 1],
                    (start_date + e * 86400) as i64,
                    working_days,
                    start_hour,
                    end_hour,
                    slot_duration_minutes,
                    break_start,
                    break_end,
                    #[trigger] days2[e],
                ) by {
                    if e < days.len() {
                        assert(days2[e] == days[e]);
                        assert(cals2[e] == cals[e]);
                        assert(cals2[e + 1] == cals[e + 1]);
                    } else {
                        assert(cals2[e] == cb);
                        assert((start_date + e * 86400) as i64 == current_date);
                    }
                }
                days = days2;
                cals = cals2;
            }
            d += 1;
            current_date = current_date + 86400;
        }
        proof {
            assert(weekly_done(cals, days, start_date, working_days, start_hour, end_hour, slot_duration_minutes, break_start, break_end));
        }
        all
    }

    /// A one-line summary: the doctor's name and how many slots and
    /// appointments are stored.
    pub fn describe(&self) -> (r: String)
        ensures
            r@ == "DoctorCalendar("@ + self.name_view() + ", slots="@ + decimal_of(
                self.slots().len(),
            ) + ", appointments="@ + decimal_of(self.appts().len()) + ")"@,
    {
        let t = concat("DoctorCalendar(".to_owned(), self.doctor_name.as_str());
        let t = concat(t, ", slots=");
        let t = concat(t, decimal(self.time_slots.len()).as_str());
        let t = concat(t, ", appointments=");
        let t = concat(t, decimal(self.appointments.len()).as_str());
        concat(t, ")")
    }
}

} // verus!
