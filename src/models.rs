//! The records of the scheduling system: priorities, patients, time slots,
//! appointments and appointment requests.

use crate::clock::{format_minute, is_time, minute_text, now, MAX_TIME, MIN_TIME, SECONDS_PER_MINUTE};
use crate::ids::new_id;
use crate::text::{concat, lower_of, lowercase, trim, trim_of};
use vstd::prelude::*;

verus! {

pub const MSG_EMPTY_PATIENT_ID: &'static str = "Patient ID cannot be empty";
pub const MSG_EMPTY_PATIENT_NAME: &'static str = "Patient name cannot be empty";
pub const MSG_EMPTY_CONTACT: &'static str = "Patient contact cannot be empty";
pub const MSG_BAD_SLOT_ORDER: &'static str = "End time must be after start time";
pub const MSG_TIME_OUT_OF_RANGE: &'static str = "Time is outside the supported range";
pub const MSG_EMPTY_REASON: &'static str = "Appointment reason cannot be empty";
pub const MSG_NEGATIVE_FLEXIBILITY: &'static str = "Flexibility minutes cannot be negative";
pub const MSG_INVALID_PRIORITY_HEAD: &'static str = "Invalid priority: '";
pub const MSG_INVALID_PRIORITY_TAIL: &'static str = "'. Must be one of: routine, urgent, emergency";

/// Urgency of an appointment: `Routine < Urgent < Emergency`.
#[derive(Debug, Clone, Copy, PartialEq, Eq, Structural, PartialOrd, Ord, Hash)]
pub enum Priority {
    Routine,
    Urgent,
    Emergency,
}

/// The rank of a priority; a higher rank is served first.
pub open spec fn rank(p: Priority) -> int {
    match p {
        Priority::Routine => 1,
        Priority::Urgent => 2,
        Priority::Emergency => 3,
    }
}

/// The priority that a normalised token names, if any.
pub open spec fn token_priority(t: Seq<char>) -> Option<Priority> {
    if t == "routine"@ {
        Some(Priority::Routine)
    } else if t == "urgent"@ {
        Some(Priority::Urgent)
    } else if t == "emergency"@ {
        Some(Priority::Emergency)
    } else {
        None
    }
}

/// The error text for a priority token that names no priority.
pub open spec fn invalid_priority_message(value: Seq<char>) -> Seq<char> {
    MSG_INVALID_PRIORITY_HEAD@ + value + MSG_INVALID_PRIORITY_TAIL@
}

/// The display name of a priority.
pub open spec fn priority_name(p: Priority) -> Seq<char> {
    match p {
        Priority::Routine => "ROUTINE"@,
        Priority::Urgent => "URGENT"@,
        Priority::Emergency => "EMERGENCY"@,
    }
}

/// The priority that an already lower-cased and trimmed token names.
pub fn priority_from_token(token: &str) -> (r: Option<Priority>)
    ensures
        r == token_priority(token@),
{
    let t = token.to_owned();
    if t == "routine".to_owned() {
        Some(Priority::Routine)
    } else if t == "urgent".to_owned() {
        Some(Priority::Urgent)
    } else if t == "emergency".to_owned() {
        Some(Priority::Emergency)
    } else {
        None
    }
}

impl Priority {
    /// Reads a priority from a token, ignoring case and surrounding white space.
    pub fn from_string(value: &str) -> (r: Result<Priority, String>)
        ensures
            match token_priority(trim_of(lower_of(value@))) {
                Some(p) => r == Ok::<Priority, String>(p),
                None => (r matches Err(e) && e@ == invalid_priority_message(value@)),
            },
    {
        let lowered = lowercase(value);
        let token = trim(lowered.as_str());
        match priority_from_token(token) {
            Some(p) => Ok(p),
            None => {
                let msg = concat(MSG_INVALID_PRIORITY_HEAD.to_owned(), value);
                Err(concat(msg, MSG_INVALID_PRIORITY_TAIL))
            },
        }
    }

    pub fn name(&self) -> (r: &str)
        ensures
            r@ == priority_name(*self),
    {
        match self {
            Priority::Routine => "ROUTINE",
            Priority::Urgent => "URGENT",
            Priority::Emergency => "EMERGENCY",
        }
    }
}

/// A patient; every field is non-empty.
#[derive(Debug, Clone, PartialEq, Eq)]
pub struct Patient {
    pub patient_id: String,
    pub name: String,
    pub contact: String,
}

impl Patient {
    pub open spec fn wf(&self) -> bool {
        &&& self.patient_id@.len() > 0
        &&& self.name@.len() > 0
        &&& self.contact@.len() > 0
    }

    /// A patient from its three fields, each of which must be non-empty.
    pub fn new(patient_id: String, name: String, contact: String) -> (r: Result<Patient, String>)
        ensures
            patient_id@.len() == 0 ==> (r matches Err(e) && e@ == MSG_EMPTY_PATIENT_ID@),
            patient_id@.len() > 0 && name@.len() == 0 ==> (r matches Err(e) && e@
                == MSG_EMPTY_PATIENT_NAME@),
            patient_id@.len() > 0 && name@.len() > 0 && contact@.len() == 0 ==> (r matches Err(e)
                && e@ == MSG_EMPTY_CONTACT@),
            patient_id@.len() > 0 && name@.len() > 0 && contact@.len() > 0 ==> r == Ok::<
                Patient,
                String,
            >(Patient { patient_id, name, contact }),
    {
        if patient_id.as_str().is_empty() {
            return Err(MSG_EMPTY_PATIENT_ID.to_owned());
        }
        if name.as_str().is_empty() {
            return Err(MSG_EMPTY_PATIENT_NAME.to_owned());
        }
        if contact.as_str().is_empty() {
            return Err(MSG_EMPTY_CONTACT.to_owned());
        }
        Ok(Patient { patient_id, name, contact })
    }

    /// A field-by-field copy.
    pub fn snapshot(&self) -> (r: Patient)
        ensures
            r == *self,
    {
        Patient {
            patient_id: self.patient_id.clone(),
            name: self.name.clone(),
            contact: self.contact.clone(),
        }
    }
}

/// A half-open interval `[start_time, end_time)` of the calendar.
#[derive(Debug, Clone, PartialEq, Eq)]
pub struct TimeSlot {
    pub start_time: i64,
    pub end_time: i64,
    pub is_available: bool,
    pub slot_id: String,
}

/// Two half-open intervals intersect.
pub open spec fn intervals_overlap(s1: int, e1: int, s2: int, e2: int) -> bool {
    s1 < e2 && e1 > s2
}

impl TimeSlot {
    /// Both ends are accepted times and the slot is not empty.
    pub open spec fn wf(&self) -> bool {
        &&& is_time(self.start_time as int)
        &&& is_time(self.end_time as int)
        &&& self.start_time < self.end_time
    }

    pub open spec fn overlaps(&self, other: &TimeSlot) -> bool {
        intervals_overlap(
            self.start_time as int,
            self.end_time as int,
            other.start_time as int,
            other.end_time as int,
        )
    }

    /// A fresh, available slot with a new identifier.
    pub fn new(start_time: i64, end_time: i64) -> (r: Result<TimeSlot, String>)
        ensures
            end_time <= start_time ==> (r matches Err(e) && e@ == MSG_BAD_SLOT_ORDER@),
            start_time < end_time && !(is_time(start_time as int) && is_time(end_time as int))
                ==> (r matches Err(e) && e@ == MSG_TIME_OUT_OF_RANGE@),
            start_time < end_time && is_time(start_time as int) && is_time(end_time as int)
                ==> (r matches Ok(s) && s.start_time == start_time && s.end_time == end_time
                && s.is_available && s.wf() && s.slot_id@.len() > 0),
    {
        if end_time <= start_time {
            return Err(MSG_BAD_SLOT_ORDER.to_owned());
        }
        if start_time < MIN_TIME || end_time > MAX_TIME {
            return Err(MSG_TIME_OUT_OF_RANGE.to_owned());
        }
        Ok(TimeSlot { start_time, end_time, is_available: true, slot_id: new_id() })
    }

    /// Length of the slot in seconds.
    pub fn duration(&self) -> (r: i64)
        requires
            self.wf(),
        ensures
            r == self.end_time - self.start_time,
    {
        self.end_time - self.start_time
    }

    /// Length of the slot in whole minutes.
    pub fn duration_minutes(&self) -> (r: i64)
        requires
            self.wf(),
        ensures
            r == (self.end_time - self.start_time) / (SECONDS_PER_MINUTE as int),
    {
        self.duration() / SECONDS_PER_MINUTE
    }

    /// The two slots share some instant.
    pub fn overlaps_with(&self, other: &TimeSlot) -> (r: bool)
        ensures
            r == self.overlaps(other),
    {
        self.start_time < other.end_time && self.end_time > other.start_time
    }

    /// The instant `t` lies in the slot.
    pub fn contains(&self, t: i64) -> (r: bool)
        ensures
            r == (self.start_time <= t && t < self.end_time),
    {
        self.start_time <= t && t < self.end_time
    }

    /// A field-by-field copy.
    pub fn snapshot(&self) -> (r: TimeSlot)
        ensures
            r == *self,
    {
        TimeSlot {
            start_time: self.start_time,
            end_time: self.end_time,
            is_available: self.is_available,
            slot_id: self.slot_id.clone(),
        }
    }
}

/// A confirmed booking of one slot.
#[derive(Debug, Clone)]
pub struct Appointment {
    pub appointment_id: String,
    pub patient: Patient,
    pub time_slot: TimeSlot,
    pub priority: Priority,
    pub reason: String,
    /// Creation stamp, in microseconds of local wall-clock time.
    pub created_at: i64,
    pub confirmed: bool,
}

impl Appointment {
    /// A confirmed appointment with a new identifier, made now.
    pub fn new(patient: Patient, time_slot: TimeSlot, priority: Priority, reason: String) -> (r:
        Result<Appointment, String>)
        ensures
            reason@.len() == 0 ==> (r matches Err(e) && e@ == MSG_EMPTY_REASON@),
            reason@.len() > 0 ==> (r matches Ok(a) && a.patient == patient && a.time_slot
                == time_slot && a.priority == priority && a.reason == reason && a.confirmed
                && a.appointment_id@.len() > 0),
    {
        if reason.as_str().is_empty() {
            return Err(MSG_EMPTY_REASON.to_owned());
        }
        Ok(
            Appointment {
                appointment_id: new_id(),
                patient,
                time_slot,
                priority,
                reason,
                created_at: now(),
                confirmed: true,
            },
        )
    }

    /// A field-by-field copy.
    pub fn snapshot(&self) -> (r: Appointment)
        ensures
            r == *self,
    {
        Appointment {
            appointment_id: self.appointment_id.clone(),
            patient: self.patient.snapshot(),
            time_slot: self.time_slot.snapshot(),
            priority: self.priority,
            reason: self.reason.clone(),
            created_at: self.created_at,
            confirmed: self.confirmed,
        }
    }
}

/// A patient's request for an appointment near a preferred time.
#[derive(Debug, Clone)]
pub struct AppointmentRequest {
    pub request_id: String,
    pub patient: Patient,
    pub priority: Priority,
    pub preferred_time: i64,
    pub reason: String,
    pub flexibility_minutes: i64,
    /// Creation stamp, in microseconds of local wall-clock time.
    pub created_at: i64,
}

/// The first instant of the window `preferred ± flexibility minutes`.
pub open spec fn window_start(preferred: int, flexibility_minutes: int) -> int {
    preferred - flexibility_minutes * (SECONDS_PER_MINUTE as int)
}

/// The last instant of the window `preferred ± flexibility minutes`.
pub open spec fn window_end(preferred: int, flexibility_minutes: int) -> int {
    preferred + flexibility_minutes * (SECONDS_PER_MINUTE as int)
}

/// `t` lies in the window `preferred ± flexibility minutes`, ends included.
pub open spec fn in_window(t: int, preferred: int, flexibility_minutes: int) -> bool {
    window_start(preferred, flexibility_minutes) <= t <= window_end(
        preferred,
        flexibility_minutes,
    )
}

/// `a` is served before `b`: higher priority first, then earlier creation.
pub open spec fn served_before(a: AppointmentRequest, b: AppointmentRequest) -> bool {
    rank(a.priority) > rank(b.priority) || (rank(a.priority) == rank(b.priority) && a.created_at
        < b.created_at)
}

/// Lower end of a window, computed without overflow.
pub fn window_start_of(preferred: i64, flexibility_minutes: i64) -> (r: i128)
    ensures
        r == window_start(preferred as int, flexibility_minutes as int),
{
    (preferred as i128) - (flexibility_minutes as i128) * 60
}

/// Upper end of a window, computed without overflow.
pub fn window_end_of(preferred: i64, flexibility_minutes: i64) -> (r: i128)
    ensures
        r == window_end(preferred as int, flexibility_minutes as int),
{
    (preferred as i128) + (flexibility_minutes as i128) * 60
}

impl AppointmentRequest {
    /// A request made now: the preferred time is an accepted time, the
    /// reason non-empty and the flexibility non-negative.
    pub fn new(
        patient: Patient,
        priority: Priority,
        preferred_time: i64,
        reason: String,
        flexibility_minutes: i64,
    ) -> (r: Result<AppointmentRequest, String>)
        ensures
            reason@.len() == 0 ==> (r matches Err(e) && e@ == MSG_EMPTY_REASON@),
            reason@.len() > 0 && flexibility_minutes < 0 ==> (r matches Err(e) && e@
                == MSG_NEGATIVE_FLEXIBILITY@),
            reason@.len() > 0 && flexibility_minutes >= 0 && !is_time(preferred_time as int)
                ==> (r matches Err(e) && e@ == MSG_TIME_OUT_OF_RANGE@),
            reason@.len() > 0 && flexibility_minutes >= 0 && is_time(preferred_time as int)
                ==> (r matches Ok(q) && q.patient == patient && q.priority == priority
                && q.preferred_time == preferred_time && q.reason == reason
                && q.flexibility_minutes == flexibility_minutes && q.request_id@.len() > 0),
    {
        if reason.as_str().is_empty() {
            return Err(MSG_EMPTY_REASON.to_owned());
        }
        if flexibility_minutes < 0 {
            return Err(MSG_NEGATIVE_FLEXIBILITY.to_owned());
        }
        if preferred_time < MIN_TIME || preferred_time > MAX_TIME {
            return Err(MSG_TIME_OUT_OF_RANGE.to_owned());
        }
        Ok(
            AppointmentRequest {
                request_id: new_id(),
                patient,
                priority,
                preferred_time,
                reason,
                flexibility_minutes,
                created_at: now(),
            },
        )
    }

    /// The preferred time is accepted and the flexibility non-negative.
    pub open spec fn wf(&self) -> bool {
        &&& is_time(self.preferred_time as int)
        &&& self.flexibility_minutes >= 0
    }

    /// The earliest acceptable start time.
    pub fn earliest_acceptable(&self) -> (r: i128)
        ensures
            r == window_start(self.preferred_time as int, self.flexibility_minutes as int),
    {
        window_start_of(self.preferred_time, self.flexibility_minutes)
    }

    /// The latest acceptable start time.
    pub fn latest_acceptable(&self) -> (r: i128)
        ensures
            r == window_end(self.preferred_time as int, self.flexibility_minutes as int),
    {
        window_end_of(self.preferred_time, self.flexibility_minutes)
    }

    /// The slot starts inside the request's window.
    pub fn is_time_acceptable(&self, slot: &TimeSlot) -> (r: bool)
        ensures
            r == in_window(
                slot.start_time as int,
                self.preferred_time as int,
                self.flexibility_minutes as int,
            ),
    {
        let t = slot.start_time as i128;
        self.earliest_acceptable() <= t && t <= self.latest_acceptable()
    }

    /// The queue order: `self` is served before `other`.
    pub fn goes_before(&self, other: &AppointmentRequest) -> (r: bool)
        ensures
            r == served_before(*self, *other),
    {
        let a = rank_of(self.priority);
        let b = rank_of(other.priority);
        a > b || (a == b && self.created_at < other.created_at)
    }

    /// A field-by-field copy.
    pub fn snapshot(&self) -> (r: AppointmentRequest)
        ensures
            r == *self,
    {
        AppointmentRequest {
            request_id: self.request_id.clone(),
            patient: self.patient.snapshot(),
            priority: self.priority,
            preferred_time: self.preferred_time,
            reason: self.reason.clone(),
            flexibility_minutes: self.flexibility_minutes,
            created_at: self.created_at,
        }
    }
}

/// The rank of a priority.
pub fn rank_of(p: Priority) -> (r: u8)
    ensures
        r == rank(p),
{
    match p {
        Priority::Routine => 1,
        Priority::Urgent => 2,
        Priority::Emergency => 3,
    }
}

/// Builds a request from plain fields: the patient, then the priority token,
/// then the request itself are checked, and the first error is returned.
pub fn create_appointment_request(
    patient_id: String,
    patient_name: String,
    patient_contact: String,
    priority: &str,
    preferred_time: i64,
    reason: String,
    flexibility_minutes: i64,
) -> (r: Result<AppointmentRequest, String>)
    ensures
        patient_id@.len() == 0 ==> (r matches Err(e) && e@ == MSG_EMPTY_PATIENT_ID@),
        patient_id@.len() > 0 && patient_name@.len() == 0 ==> (r matches Err(e) && e@
            == MSG_EMPTY_PATIENT_NAME@),
        patient_id@.len() > 0 && patient_name@.len() > 0 && patient_contact@.len() == 0 ==> (r matches Err(
            e,
        ) && e@ == MSG_EMPTY_CONTACT@),
        patient_id@.len() > 0 && patient_name@.len() > 0 && patient_contact@.len() > 0
            && token_priority(trim_of(lower_of(priority@))) is None ==> (r matches Err(e) && e@
            == invalid_priority_message(priority@)),
        patient_id@.len() > 0 && patient_name@.len() > 0 && patient_contact@.len() > 0
            && token_priority(trim_of(lower_of(priority@))) is Some ==> {
            &&& reason@.len() == 0 ==> (r matches Err(e) && e@ == MSG_EMPTY_REASON@)
            &&& reason@.len() > 0 && flexibility_minutes < 0 ==> (r matches Err(e) && e@
                == MSG_NEGATIVE_FLEXIBILITY@)
            &&& reason@.len() > 0 && flexibility_minutes >= 0 && !is_time(preferred_time as int)
                ==> (r matches Err(e) && e@ == MSG_TIME_OUT_OF_RANGE@)
            &&& reason@.len() > 0 && flexibility_minutes >= 0 && is_time(preferred_time as int)
                ==> r is Ok
        },
        r matches Ok(q) ==> q.patient == (Patient {
            patient_id,
            name: patient_name,
            contact: patient_contact,
        }) && Some(q.priority) == token_priority(trim_of(lower_of(priority@)))
            && q.preferred_time == preferred_time && q.reason == reason
            && q.flexibility_minutes == flexibility_minutes && q.wf(),
{
    let patient = match Patient::new(patient_id, patient_name, patient_contact) {
        Ok(p) => p,
        Err(e) => return Err(e),
    };
    let priority_enum = match Priority::from_string(priority) {
        Ok(p) => p,
        Err(e) => return Err(e),
    };
    AppointmentRequest::new(patient, priority_enum, preferred_time, reason, flexibility_minutes)
}

/// Text of a time as chrono prints it, for an accepted time.
pub fn time_text(t: i64) -> (r: String)
    requires
        is_time(t as int),
    ensures
        r@ == minute_text(t as int),
{
    format_minute(t)
}

} // verus!
