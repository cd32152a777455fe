//! The scheduler: a queue of pending requests, served by priority and then by
//! creation time, each matched to a slot of the calendar and booked.

use crate::calendar::{
    booked, booking_done, candidate, freed, id_in_use, no_worse, occupies, DoctorCalendar,
};
use crate::clock::{clock_text, format_clock, is_time, minute_text, now, MAX_TIME, MIN_TIME};
use crate::ids::new_id;
use crate::models::{
    in_window, served_before, time_text, Appointment, AppointmentRequest, Patient, Priority,
    TimeSlot, MSG_EMPTY_REASON, MSG_TIME_OUT_OF_RANGE,
};
use crate::text::concat;
use vstd::prelude::*;

verus! {

pub const MSG_NO_SLOTS: &'static str = "No available time slots found";
pub const MSG_PREFERRED_HEAD: &'static str = "Scheduled at preferred time: ";
pub const MSG_ALTERNATIVE_HEAD: &'static str = "Scheduled at alternative time: ";
pub const MSG_ALTERNATIVE_MID: &'static str = " (preferred was ";
pub const MSG_ALTERNATIVE_TAIL: &'static str = ")";
pub const MSG_APPOINTMENT_NOT_FOUND: &'static str = "Original appointment not found";
pub const MSG_NO_SLOTS_AT_TIME: &'static str = "No available slots at the requested time";
pub const MSG_RESCHEDULED_HEAD: &'static str = "Rescheduled to ";
pub const MSG_RESCHEDULE_FAILED_HEAD: &'static str = "Failed to reschedule: ";

/// Outcome of one scheduling attempt.
#[derive(Debug, Clone)]
pub struct SchedulingResult {
    pub request: AppointmentRequest,
    pub appointment: Option<Appointment>,
    pub success: bool,
    pub message: String,
}

/// Outcome of draining the queue.
#[derive(Debug)]
pub struct BatchSchedulingResult {
    pub confirmed: Vec<Appointment>,
    pub failed: Vec<SchedulingResult>,
    pub total_requests: usize,
}

/// Request `i` of `q` is served next: nothing in `q` goes before it, and it
/// goes before every request submitted earlier.
pub open spec fn is_next(q: Seq<AppointmentRequest>, i: int) -> bool {
    &&& 0 <= i < q.len()
    &&& forall|j: int| 0 <= j < q.len() ==> !served_before(#[trigger] q[j], q[i])
    &&& forall|j: int| 0 <= j < i ==> served_before(q[i], #[trigger] q[j])
}

/// The index of the request served next, for a non-empty queue.
pub open spec fn next_index(q: Seq<AppointmentRequest>) -> int {
    choose|i: int| is_next(q, i)
}

/// A non-empty queue has a request that is served next.
proof fn lemma_next_exists(q: Seq<AppointmentRequest>)
    requires
        q.len() > 0,
    ensures
        exists|i: int| is_next(q, i),
    decreases q.len(),
{
    if q.len() == 1 {
        assert(is_next(q, 0));
    } else {
        let p = q.drop_last();
        lemma_next_exists(p);
        let b = choose|b: int| is_next(p, b);
        let l = q.len() - 1;
        assert forall|j: int| 0 <= j < l implies q[j] == p[j] by {}
        if served_before(q[l], q[b]) {
            assert(is_next(q, l));
        } else {
            assert(is_next(q, b));
        }
    }
}

/// A non-empty queue has exactly one request that is served next.
pub proof fn lemma_next_unique(q: Seq<AppointmentRequest>, i: int)
    requires
        q.len() > 0 || is_next(q, i),
    ensures
        is_next(q, next_index(q)),
        is_next(q, i) ==> i == next_index(q),
{
    lemma_next_exists(q);
    let n = next_index(q);
    if is_next(q, i) && i != n {
        if i < n {
            assert(served_before(q[n], q[i]));
        } else {
            assert(served_before(q[i], q[n]));
        }
    }
}

/// Serving the requests of `served`, one after the other, each the next of
/// the queue at its turn, takes queue `q` to queue `rest`.
pub open spec fn drains_to(
    q: Seq<AppointmentRequest>,
    served: Seq<AppointmentRequest>,
    rest: Seq<AppointmentRequest>,
) -> bool
    decreases served.len(),
{
    if served.len() == 0 {
        rest == q
    } else {
        &&& q.len() > 0
        &&& served[0] == q[next_index(q)]
        &&& drains_to(q.remove(next_index(q)), served.drop_first(), rest)
    }
}

/// Serving one more request, the next of what is left, extends a drain.
pub proof fn lemma_drain_step(
    q: Seq<AppointmentRequest>,
    served: Seq<AppointmentRequest>,
    rest: Seq<AppointmentRequest>,
    i: int,
)
    requires
        drains_to(q, served, rest),
        is_next(rest, i),
    ensures
        drains_to(q, served.push(rest[i]), rest.remove(i)),
    decreases served.len(),
{
    let longer = served.push(rest[i]);
    lemma_next_unique(rest, i);
    if served.len() == 0 {
        assert(rest == q);
        assert(longer.drop_first() =~= Seq::<AppointmentRequest>::empty());
        assert(drains_to(q.remove(i), longer.drop_first(), rest.remove(i)));
    } else {
        let j = next_index(q);
        lemma_drain_step(q.remove(j), served.drop_first(), rest, i);
        assert(longer.drop_first() =~= served.drop_first().push(rest[i]));
    }
}

/// Slot `i` of `s` is the nearest candidate for `p ± f minutes`.
pub open spec fn nearest(s: Seq<TimeSlot>, i: int, p: int, f: int) -> bool {
    &&& 0 <= i < s.len()
    &&& candidate(s[i], p, f)
    &&& forall|j: int| 0 <= j < s.len() && candidate(#[trigger] s[j], p, f) ==> no_worse(s[i], s[j], p)
}

/// Slot `i` of `s` is the earliest available one starting at or after `t`.
pub open spec fn next_after(s: Seq<TimeSlot>, i: int, t: int) -> bool {
    &&& 0 <= i < s.len()
    &&& s[i].is_available
    &&& s[i].start_time >= t
    &&& forall|j: int|
        0 <= j < s.len() && (#[trigger] s[j]).is_available && s[j].start_time >= t
            ==> s[i].start_time <= s[j].start_time
}

/// Some slot of `s` is a candidate for `p ± f minutes`.
pub open spec fn has_candidate(s: Seq<TimeSlot>, p: int, f: int) -> bool {
    exists|i: int| 0 <= i < s.len() && candidate(#[trigger] s[i], p, f)
}

/// Some available slot of `s` starts at or after `t`.
pub open spec fn has_next_after(s: Seq<TimeSlot>, t: int) -> bool {
    exists|i: int| 0 <= i < s.len() && (#[trigger] s[i]).is_available && s[i].start_time >= t
}

/// The slot that serves `req`: the nearest candidate in its window or, when
/// there is none and fallback is on, the earliest available slot from its
/// preferred time on.
pub open spec fn serving_slot(s: Seq<TimeSlot>, i: int, req: AppointmentRequest, fallback: bool) -> bool {
    ||| nearest(s, i, req.preferred_time as int, req.flexibility_minutes as int)
    ||| (fallback && !has_candidate(s, req.preferred_time as int, req.flexibility_minutes as int)
        && next_after(s, i, req.preferred_time as int))
}

/// Some slot can serve `req`.
pub open spec fn servable(s: Seq<TimeSlot>, req: AppointmentRequest, fallback: bool) -> bool {
    ||| has_candidate(s, req.preferred_time as int, req.flexibility_minutes as int)
    ||| (fallback && has_next_after(s, req.preferred_time as int))
}

/// The message for a request booked at a slot starting at `t`.
pub open spec fn success_message(t: int, req: AppointmentRequest) -> Seq<char> {
    if in_window(t, req.preferred_time as int, req.flexibility_minutes as int) {
        MSG_PREFERRED_HEAD@ + minute_text(t)
    } else {
        MSG_ALTERNATIVE_HEAD@ + minute_text(t) + MSG_ALTERNATIVE_MID@ + clock_text(
            req.preferred_time as int,
        ) + MSG_ALTERNATIVE_TAIL@
    }
}

/// One scheduling attempt: `r` is what serving `req` on calendar `before`
/// (with fallback on or off) gives, and `after` the calendar it leaves.
/// A request that some slot can serve is booked unless its reason is empty.
pub open spec fn single_step(
    before: DoctorCalendar,
    req: AppointmentRequest,
    fallback: bool,
    r: SchedulingResult,
    after: DoctorCalendar,
) -> bool {
    &&& (after.wf())
    &&& (r.request == req)
    &&& (r.success <==> r.appointment is Some)
    &&& (!r.success ==> after == before)
    &&& (!is_time(req.preferred_time as int) ==> !r.success && r.message@ == MSG_TIME_OUT_OF_RANGE@)
    &&& (is_time(req.preferred_time as int) && !servable( before.slots(), req, fallback, ) ==> !r.success && r.message@ == MSG_NO_SLOTS@)
    &&& (is_time(req.preferred_time as int) && servable(before.slots(), req, fallback)
        && req.reason@.len() == 0 ==> !r.success && r.message@ == MSG_EMPTY_REASON@)
    &&& (is_time(req.preferred_time as int) && servable(before.slots(), req, fallback)
        && req.reason@.len() > 0 ==> r.success)
    &&& (r.success ==> (r.appointment matches Some(ap) && ap.patient == req.patient && ap.priority == req.priority && ap.reason == req.reason && ap.confirmed && r.message@ == success_message(ap.time_slot.start_time as int, req) && exists|i: int| serving_slot(before.slots(), i, req, fallback) && ap.time_slot == booked(before.slots()[i]) && booking_done( before.slots(), before.appts(), after.slots(), after.appts(), i, ap, )))
}

/// The appointments of the successful results of `res`, in order.
pub open spec fn confirmed_of(res: Seq<SchedulingResult>) -> Seq<Appointment>
    decreases res.len(),
{
    if res.len() == 0 {
        Seq::empty()
    } else if res.last().success {
        confirmed_of(res.drop_last()).push(res.last().appointment->Some_0)
    } else {
        confirmed_of(res.drop_last())
    }
}

/// The failed results of `res`, in order.
pub open spec fn failed_of(res: Seq<SchedulingResult>) -> Seq<SchedulingResult>
    decreases res.len(),
{
    if res.len() == 0 {
        Seq::empty()
    } else if !res.last().success {
        failed_of(res.drop_last()).push(res.last())
    } else {
        failed_of(res.drop_last())
    }
}

/// Serving `order[k]` on calendar `cals[k]` gives result `res[k]` and leaves
/// calendar `cals[k + 1]`, for every turn `k`.
pub open spec fn steps_ok(
    cals: Seq<DoctorCalendar>,
    order: Seq<AppointmentRequest>,
    fallback: bool,
    res: Seq<SchedulingResult>,
) -> bool {
    &&& cals.len() == order.len() + 1
    &&& res.len() == order.len()
    &&& forall|k: int|
        0 <= k < res.len() ==> single_step(cals[k], order[k], fallback, #[trigger] res[k], cals[k + 1])
}

/// Draining queue `q` from calendar `before`: the requests are served in the
/// queue's order `order`, each by one scheduling step on the calendar the
/// step before left, ending at `after`; `confirmed` and `failed` are the
/// successful appointments and the failed results, in serving order.
pub open spec fn batch_outcome(
    q: Seq<AppointmentRequest>,
    fallback: bool,
    before: DoctorCalendar,
    after: DoctorCalendar,
    confirmed: Seq<Appointment>,
    failed: Seq<SchedulingResult>,
    order: Seq<AppointmentRequest>,
    res: Seq<SchedulingResult>,
    cals: Seq<DoctorCalendar>,
) -> bool {
    &&& drains_to(q, order, Seq::<AppointmentRequest>::empty())
    &&& steps_ok(cals, order, fallback, res)
    &&& cals[0] == before
    &&& cals.last() == after
    &&& confirmed == confirmed_of(res)
    &&& failed == failed_of(res)
}

/// After a move: slot `i` of `before` is booked, slot `w` is freed, and all
/// other slots are unchanged.
pub open spec fn slots_moved(before: Seq<TimeSlot>, after: Seq<TimeSlot>, i: int, w: int) -> bool {
    after == before.update(i, booked(before[i])).update(w, freed(before[w]))
}

/// Priority-driven scheduler over one calendar.
pub struct AppointmentScheduler {
    pub calendar: DoctorCalendar,
    pub allow_fallback: bool,
    request_queue: Vec<AppointmentRequest>,
}

impl AppointmentScheduler {
    /// The pending requests, in order of submission.
    pub closed spec fn pending(&self) -> Seq<AppointmentRequest> {
        self.request_queue@
    }

    /// The calendar booked against.
    pub closed spec fn cal(&self) -> DoctorCalendar {
        self.calendar
    }

    /// Whether fallback beyond the window is on.
    pub closed spec fn fallback(&self) -> bool {
        self.allow_fallback
    }

    /// A scheduler with an empty queue.
    pub fn new(calendar: DoctorCalendar, allow_fallback: bool) -> (r: AppointmentScheduler)
        ensures
            r.cal() == calendar,
            r.fallback() == allow_fallback,
            r.pending().len() == 0,
    {
        AppointmentScheduler { calendar, allow_fallback, request_queue: Vec::new() }
    }

    /// Queues a request.
    pub fn add_request(&mut self, request: AppointmentRequest)
        ensures
            final(self).pending() == old(self).pending().push(request),
            final(self).cal() == old(self).cal(),
            final(self).fallback() == old(self).fallback(),
    {
        self.request_queue.push(request);
    }

    /// Queues requests in the order given.
    pub fn add_requests(&mut self, requests: Vec<AppointmentRequest>)
        ensures
            final(self).pending() == old(self).pending() + requests@,
            final(self).cal() == old(self).cal(),
            final(self).fallback() == old(self).fallback(),
    {
        let ghost start = self.request_queue@;
        let mut i: usize = 0;
        while i < requests.len()
            invariant
                i <= requests@.len(),
                self.request_queue@ == start + requests@.take(i as int),
                self.calendar == old(self).calendar,
                self.allow_fallback == old(self).allow_fallback,
            decreases requests@.len() - i,
        {
            self.request_queue.push(requests[i].snapshot());
            i += 1;
            assert(self.request_queue@ =~= start + requests@.take(i as int));
        }
        assert(requests@.take(i as int) =~= requests@);
    }

    /// Takes the request that is served next out of the queue.
    fn pop_next(&mut self) -> (r: Option<AppointmentRequest>)
        ensures
            final(self).cal() == old(self).cal(),
            final(self).fallback() == old(self).fallback(),
            r is None <==> old(self).pending().len() == 0,
            r is None ==> final(self).pending() == old(self).pending(),
            r matches Some(x) ==> exists|i: int|
                is_next(old(self).pending(), i) && x == old(self).pending()[i] && final(self).pending()
                    == old(self).pending().remove(i),
    {
        if self.request_queue.len() == 0 {
            return None;
        }
        let ghost q = self.request_queue@;
        let mut b: usize = 0;
        let mut i: usize = 1;
        while i < self.request_queue.len()
            invariant
                q == self.request_queue@,
                1 <= i <= q.len(),
                b < i,
                forall|j: int| 0 <= j < i ==> !served_before(#[trigger] q[j], q[b as int]),
                forall|j: int| 0 <= j < b ==> served_before(q[b as int], #[trigger] q[j]),
            decreases q.len() - i,
        {
            if self.request_queue[i].goes_before(&self.request_queue[b]) {
                b = i;
            }
            i += 1;
        }
        let x = self.request_queue.remove(b);
        proof {
            assert(is_next(q, b as int));
            assert(x == q[b as int]);
            assert(self.request_queue@ == q.remove(b as int));
        }
        Some(x)
    }

    /// Tries to place one request: the nearest available slot in its window,
    /// else (with fallback on) the earliest available slot from its preferred
    /// time on, is booked. A preferred time outside the accepted range fails
    /// at once. On failure the calendar is unchanged.
    pub fn schedule_single(&mut self, request: AppointmentRequest) -> (r: SchedulingResult)
        requires
            old(self).cal().wf(),
        ensures
            final(self).pending() == old(self).pending(),
            final(self).fallback() == old(self).fallback(),
            single_step(old(self).cal(), request, old(self).fallback(), r, final(self).cal()),
    {
        let ghost s = self.calendar.slots();
        let ghost p = request.preferred_time as int;
        let ghost f = request.flexibility_minutes as int;
        if request.preferred_time < MIN_TIME || request.preferred_time > MAX_TIME {
            return SchedulingResult {
                request,
                appointment: None,
                success: false,
                message: MSG_TIME_OUT_OF_RANGE.to_owned(),
            };
        }
        let near = self.calendar.find_available_slot(request.preferred_time, request.flexibility_minutes);
        let found = match near {
            Some(t) => Some(t),
            None => {
                if self.allow_fallback {
                    self.calendar.find_next_available_slot(request.preferred_time)
                } else {
                    None
                }
            },
        };
        let slot = match found {
            Some(t) => t,
            None => {
                proof {
                    assert(!has_candidate(s, p, f));
                    assert(self.allow_fallback ==> !has_next_after(s, p));
                }
                return SchedulingResult {
                    request,
                    appointment: None,
                    success: false,
                    message: MSG_NO_SLOTS.to_owned(),
                };
            },
        };
        let ghost i = choose|i: int| 0 <= i < s.len() && s[i] == slot;
        proof {
            assert(s[i] == slot);
            assert(serving_slot(s, i, request, self.allow_fallback));
            assert(slot.wf());
            assert(crate::calendar::slot_known(s, slot.slot_id@));
        }
        let was_preferred = request.is_time_acceptable(&slot);
        match self.calendar.book_slot(
            &slot,
            request.patient.snapshot(),
            request.priority,
            request.reason.clone(),
        ) {
            Ok(ap) => {
                proof {
                    assert(s[i].slot_id@ == slot.slot_id@);
                    assert(s[i].is_available);
                    assert(ap.time_slot == booked(s[i]));
                    assert(ap.time_slot.start_time == slot.start_time);
                }
                let message = if was_preferred {
                    concat(MSG_PREFERRED_HEAD.to_owned(), time_text(slot.start_time).as_str())
                } else {
                    let m = concat(MSG_ALTERNATIVE_HEAD.to_owned(), time_text(slot.start_time).as_str());
                    let m = concat(m, MSG_ALTERNATIVE_MID);
                    let m = concat(m, format_clock(request.preferred_time).as_str());
                    concat(m, MSG_ALTERNATIVE_TAIL)
                };
                proof {
                    assert(message@ == success_message(ap.time_slot.start_time as int, request));
                    assert(serving_slot(s, i, request, self.allow_fallback));
                    assert(booking_done(s, old(self).calendar.appts(), self.calendar.slots(), self.calendar.appts(), i, ap));
                    assert(ap.patient == request.patient);
                    assert(ap.reason == request.reason);
                    assert(ap.confirmed);
                    assert(s == old(self).cal().slots());
                    assert(self.allow_fallback == old(self).fallback());
                    assert(serving_slot(old(self).cal().slots(), i, request, old(self).fallback()));
                    assert(booking_done(old(self).cal().slots(), old(self).cal().appts(), self.cal().slots(), self.cal().appts(), i, ap));
                }
                SchedulingResult { request, appointment: Some(ap), success: true, message }
            },
            Err(e) => SchedulingResult { request, appointment: None, success: false, message: e },
        }
    }

    /// Serves every queued request, in queue order, until the queue is empty:
    /// each is handed to `schedule_single` on the calendar as the earlier ones
    /// left it. A failure never stops the rest.
    pub fn process_queue(&mut self) -> (r: BatchSchedulingResult)
        requires
            old(self).cal().wf(),
        ensures
            final(self).cal().wf(),
            final(self).pending().len() == 0,
            final(self).fallback() == old(self).fallback(),
            r.total_requests == old(self).pending().len(),
            r.confirmed@.len() + r.failed@.len() == r.total_requests,
            forall|k: int| 0 <= k < r.failed@.len() ==> !(#[trigger] r.failed@[k]).success,
            forall|k: int|
                0 <= k < r.confirmed@.len() ==> final(self).cal().appts().contains(
                    #[trigger] r.confirmed@[k],
                ),
            exists|order: Seq<AppointmentRequest>, res: Seq<SchedulingResult>, cals: Seq<DoctorCalendar>|
                batch_outcome(
                    old(self).pending(),
                    old(self).fallback(),
                    old(self).cal(),
                    final(self).cal(),
                    r.confirmed@,
                    r.failed@,
                    order,
                    res,
                    cals,
                ),
    {
        let total = self.request_queue.len();
        let ghost order: Seq<AppointmentRequest> = Seq::empty();
        let ghost res: Seq<SchedulingResult> = Seq::empty();
        let ghost cals: Seq<DoctorCalendar> = seq![self.cal()];
        let mut confirmed: Vec<Appointment> = Vec::new();
        let mut failed: Vec<SchedulingResult> = Vec::new();
        while self.request_queue.len() > 0
            invariant
                self.cal().wf(),
                self.allow_fallback == old(self).allow_fallback,
                confirmed@.len() + failed@.len() + self.request_queue@.len() == total,
                total == old(self).pending().len(),
                forall|k: int| 0 <= k < failed@.len() ==> !(#[trigger] failed@[k]).success,
                forall|k: int|
                    0 <= k < confirmed@.len() ==> self.cal().appts().contains(
                        #[trigger] confirmed@[k],
                    ),
                drains_to(old(self).pending(), order, self.pending()),
                steps_ok(cals, order, old(self).fallback(), res),
                cals[0] == old(self).cal(),
                cals.last() == self.cal(),
                confirmed@ == confirmed_of(res),
                failed@ == failed_of(res),
            decreases self.request_queue@.len(),
        {
            let ghost rest = self.pending();
            if let Some(request) = self.pop_next() {
                proof {
                    let i = choose|i: int|
                        is_next(rest, i) && request == rest[i] && self.pending() == rest.remove(i);
                    lemma_drain_step(old(self).pending(), order, rest, i);
                    order = order.push(request);
                }
                let ghost cal_before = self.cal();
                let ghost before = self.cal().appts();
                let result = self.schedule_single(request);
                let ghost rc = result;
                proof {
                    let n = res.len();
                    let res2 = res.push(rc);
                    let cals2 = cals.push(self.cal());
                    assert(res2.drop_last() =~= res);
                    assert forall|k: int| 0 <= k < res2.len() implies single_step(
                        cals2[k],
                        order[k],
                        old(self).fallback(),
                        #[trigger] res2[k],
                        cals2[k + 1],
                    ) by {
                        if k < n {
                            assert(res2[k] == res[k]);
                            assert(cals2[k] == cals[k]);
                            assert(cals2[k + 1] == cals[k + 1]);
                        } else {
                            assert(cals2[k] == cal_before);
                        }
                    }
                    res = res2;
                    cals = cals2;
                }
                if result.success {
                    match result.appointment {
                        Some(ap) => {
                            proof {
                                let after = self.cal().appts();
                                let q = choose|q: int| 0 <= q <= before.len() && after == before.insert(q, ap);
                                assert(after[q] == ap);
                                assert forall|k: int| 0 <= k < confirmed@.len() implies after.contains(
                                    #[trigger] confirmed@[k],
                                ) by {
                                    let m = choose|m: int| 0 <= m < before.len() && before[m] == confirmed@[k];
                                    if m < q {
                                        assert(after[m] == before[m]);
                                    } else {
                                        assert(after[m + 1] == before[m]);
                                    }
                                }
                            }
                            confirmed.push(ap);
                            proof {
                                let after = self.cal().appts();
                                let q = choose|q: int| 0 <= q <= before.len() && after == before.insert(q, ap);
                                assert(after[q] == ap);
                                assert(after.contains(ap));
                            }
                        },
                        None => {},
                    }
                } else {
                    failed.push(result);
                }
            }
        }
        proof {
            assert(self.pending() =~= Seq::<AppointmentRequest>::empty());
            assert(batch_outcome(
                old(self).pending(),
                old(self).fallback(),
                old(self).cal(),
                self.cal(),
                confirmed@,
                failed@,
                order,
                res,
                cals,
            ));
        }
        BatchSchedulingResult { confirmed, failed, total_requests: total }
    }

    /// Queues `requests`, then serves the whole queue as `process_queue` does.
    pub fn schedule_batch(&mut self, requests: Vec<AppointmentRequest>) -> (r: BatchSchedulingResult)
        requires
            old(self).cal().wf(),
        ensures
            final(self).cal().wf(),
            final(self).pending().len() == 0,
            final(self).fallback() == old(self).fallback(),
            r.total_requests == old(self).pending().len() + requests@.len(),
            r.confirmed@.len() + r.failed@.len() == r.total_requests,
            forall|k: int| 0 <= k < r.failed@.len() ==> !(#[trigger] r.failed@[k]).success,
            forall|k: int|
                0 <= k < r.confirmed@.len() ==> final(self).cal().appts().contains(
                    #[trigger] r.confirmed@[k],
                ),
            exists|order: Seq<AppointmentRequest>, res: Seq<SchedulingResult>, cals: Seq<DoctorCalendar>|
                batch_outcome(
                    old(self).pending() + requests@,
                    old(self).fallback(),
                    old(self).cal(),
                    final(self).cal(),
                    r.confirmed@,
                    r.failed@,
                    order,
                    res,
                    cals,
                ),
    {
        self.add_requests(requests);
        self.process_queue()
    }

    /// Number of pending requests.
    pub fn get_pending_count(&self) -> (r: usize)
        ensures
            r == self.pending().len(),
    {
        self.request_queue.len()
    }

    /// Drops every pending request; returns how many there were.
    pub fn clear_queue(&mut self) -> (r: usize)
        ensures
            r == old(self).pending().len(),
            final(self).pending().len() == 0,
            final(self).cal() == old(self).cal(),
            final(self).fallback() == old(self).fallback(),
    {
        let count = self.request_queue.len();
        self.request_queue = Vec::new();
        count
    }

    /// Moves appointment `appointment_id` to the nearest available slot within
    /// `new_preferred_time ± flexibility_minutes`. The new slot is booked
    /// before the old appointment is cancelled, so on any failure the calendar
    /// is left as it was and the existing appointment stands.
    #[verifier::rlimit(100)]
    pub fn reschedule_appointment(
        &mut self,
        appointment_id: &str,
        new_preferred_time: i64,
        flexibility_minutes: i64,
    ) -> (r: SchedulingResult)
        requires
            old(self).cal().wf(),
        ensures
            final(self).cal().wf(),
            final(self).pending() == old(self).pending(),
            final(self).fallback() == old(self).fallback(),
            r.success <==> r.appointment is Some,
            !r.success ==> final(self).cal() == old(self).cal(),
            !id_in_use(old(self).cal().appts(), appointment_id@) ==> !r.success && r.message@
                == MSG_APPOINTMENT_NOT_FOUND@,
            id_in_use(old(self).cal().appts(), appointment_id@) && !has_candidate(
                old(self).cal().slots(),
                new_preferred_time as int,
                flexibility_minutes as int,
            ) ==> !r.success && r.message@ == MSG_NO_SLOTS_AT_TIME@,
            id_in_use(old(self).cal().appts(), appointment_id@) && has_candidate(
                old(self).cal().slots(),
                new_preferred_time as int,
                flexibility_minutes as int,
            ) ==> r.success,
            r.success ==> (r.appointment matches Some(ap) && !id_in_use(
                final(self).cal().appts(),
                appointment_id@,
            ) && (exists|k: int|
                0 <= k < final(self).cal().appts().len() && #[trigger] final(self).cal().appts()[k]
                    == ap) && (forall|k: int|
                0 <= k < old(self).cal().appts().len() && (#[trigger] old(
                    self,
                ).cal().appts()[k]).appointment_id@ == appointment_id@ ==> ap.patient == old(
                    self,
                ).cal().appts()[k].patient && ap.priority == old(self).cal().appts()[k].priority
                    && ap.reason == old(self).cal().appts()[k].reason)
                && final(self).cal().appts().len() == old(self).cal().appts().len() && (exists|
                i: int,
                w: int,
            |
                nearest(
                    old(self).cal().slots(),
                    i,
                    new_preferred_time as int,
                    flexibility_minutes as int,
                ) && ap.time_slot == booked(old(self).cal().slots()[i]) && (forall|k: int|
                    0 <= k < old(self).cal().appts().len() && (#[trigger] old(
                        self,
                    ).cal().appts()[k]).appointment_id@ == appointment_id@ ==> occupies(
                        old(self).cal().appts()[k],
                        old(self).cal().slots(),
                        w,
                    )) && #[trigger] slots_moved(
                    old(self).cal().slots(),
                    final(self).cal().slots(),
                    i,
                    w,
                )) && r.message@ == MSG_RESCHEDULED_HEAD@ + minute_text(
                ap.time_slot.start_time as int,
            )),
    {
        let ghost s = self.calendar.slots();
        let ghost a = self.calendar.appts();
        let existing = match self.calendar.get_appointment_by_id(appointment_id) {
            Some(x) => x,
            None => {
                let request = AppointmentRequest {
                    request_id: new_id(),
                    patient: Patient {
                        patient_id: "unknown".to_owned(),
                        name: "Unknown".to_owned(),
                        contact: "unknown".to_owned(),
                    },
                    priority: Priority::Routine,
                    preferred_time: new_preferred_time,
                    reason: "Reschedule".to_owned(),
                    flexibility_minutes,
                    created_at: now(),
                };
                return SchedulingResult {
                    request,
                    appointment: None,
                    success: false,
                    message: MSG_APPOINTMENT_NOT_FOUND.to_owned(),
                };
            },
        };
        let ghost k0 = choose|k: int| 0 <= k < a.len() && a[k] == existing;
        proof {
            assert(a[k0] == existing);
            assert forall|k: int| 0 <= k < a.len() && (#[trigger] a[k]).appointment_id@ == appointment_id@ implies k == k0 by {
                if k < k0 {
                    assert(a[k].appointment_id@ != a[k0].appointment_id@);
                } else if k > k0 {
                    assert(a[k0].appointment_id@ != a[k].appointment_id@);
                }
            }
            assert(existing.reason@.len() > 0);
        }
        let request = AppointmentRequest {
            request_id: new_id(),
            patient: existing.patient.snapshot(),
            priority: existing.priority,
            preferred_time: new_preferred_time,
            reason: existing.reason.clone(),
            flexibility_minutes,
            created_at: now(),
        };
        let slot = match self.calendar.find_available_slot(new_preferred_time, flexibility_minutes) {
            Some(t) => t,
            None => {
                return SchedulingResult {
                    request,
                    appointment: None,
                    success: false,
                    message: MSG_NO_SLOTS_AT_TIME.to_owned(),
                };
            },
        };
        let ghost i = choose|i: int| 0 <= i < s.len() && s[i] == slot;
        proof {
            assert(s[i] == slot);
            assert(slot.wf());
            assert(crate::calendar::slot_known(s, slot.slot_id@));
            assert(s[i].slot_id@ == slot.slot_id@);
        }
        match self.calendar.book_slot(&slot, existing.patient, existing.priority, existing.reason) {
            Ok(ap) => {
                let ghost a2 = self.calendar.appts();
                proof {
                    assert(ap.time_slot == booked(s[i]));
                    assert(a[k0].appointment_id@ == appointment_id@);
                    assert(ap.appointment_id@ != appointment_id@);
                    let q = choose|q: int| 0 <= q <= a.len() && a2 == a.insert(q, ap);
                    assert(a2[q] == ap);
                    if k0 < q {
                        assert(a2[k0] == a[k0]);
                    } else {
                        assert(a2[k0 + 1] == a[k0]);
                    }
                }
                let ghost s2 = self.calendar.slots();
                let ghost w = choose|w: int| occupies(a[k0], s, w);
                proof {
                    assert(booking_done(s, a, s2, a2, i, ap));
                    assert(s[w].is_available == false);
                    assert(w != i);
                    assert(s2[w] == s[w]);
                    let q = choose|q: int| 0 <= q <= a.len() && a2 == a.insert(q, ap);
                    let k2 = if k0 < q { k0 } else { k0 + 1 };
                    assert(a2[k2] == a[k0]);
                    assert(occupies(a2[k2], s2, w));
                }
                let _ = self.calendar.cancel_appointment(appointment_id);
                proof {
                    let q = choose|q: int| 0 <= q <= a.len() && a2 == a.insert(q, ap);
                    let k2 = if k0 < q { k0 } else { k0 + 1 };
                    assert(self.calendar.slots() == s2.update(w, freed(s2[w])));
                    assert(slots_moved(s, self.calendar.slots(), i, w));
                    assert forall|k: int| 0 <= k < a.len() && (#[trigger] a[k]).appointment_id@ == appointment_id@
                        implies occupies(a[k], s, w) by {
                        assert(k == k0);
                    }
                }
                proof {
                    let a3 = self.calendar.appts();
                    let q = choose|q: int| 0 <= q <= a.len() && a2 == a.insert(q, ap);
                    let k2 = if k0 < q { k0 } else { k0 + 1 };
                    assert(a2[k2].appointment_id@ == appointment_id@);
                    assert(a3 == a2.remove(k2));
                    assert forall|x: int| 0 <= x < a3.len() implies (#[trigger] a3[x]).appointment_id@ != appointment_id@ by {
                        let y = if x < k2 { x } else { x + 1 };
                        assert(a3[x] == a2[y]);
                        if y < k2 {
                            assert(a2[y].appointment_id@ != a2[k2].appointment_id@);
                        } else {
                            assert(a2[k2].appointment_id@ != a2[y].appointment_id@);
                        }
                    }
                    if q < k2 {
                        assert(a3[q] == ap);
                    } else {
                        assert(a3[q - 1] == ap);
                    }
                }
                let message = concat(MSG_RESCHEDULED_HEAD.to_owned(), time_text(slot.start_time).as_str());
                proof {
                    assert(s == old(self).cal().slots());
                    assert(a == old(self).cal().appts());
                    assert(nearest(s, i, new_preferred_time as int, flexibility_minutes as int));
                    assert(ap.patient == a[k0].patient);
                    assert(ap.time_slot.start_time == slot.start_time);
                    assert(message@ == MSG_RESCHEDULED_HEAD@ + minute_text(ap.time_slot.start_time as int));
                    assert(exists|k: int| 0 <= k < self.cal().appts().len() && #[trigger] self.cal().appts()[k] == ap);
                }
                SchedulingResult { request, appointment: Some(ap), success: true, message }
            },
            Err(e) => {
                let message = concat(MSG_RESCHEDULE_FAILED_HEAD.to_owned(), e.as_str());
                SchedulingResult { request, appointment: None, success: false, message }
            },
        }
    }
}

} // verus!
