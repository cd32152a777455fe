use appointment_scheduler::calendar::DoctorCalendar;
use appointment_scheduler::models::{
    create_appointment_request, AppointmentRequest, Patient, Priority, TimeSlot,
};
use appointment_scheduler::scheduler::AppointmentScheduler;

/// 2024-01-15 at `h:m`, in seconds.
fn at(h: i64, m: i64) -> i64 {
    1_705_276_800 + h * 3600 + m * 60
}

fn patient(name: &str) -> Patient {
    Patient::new("p-".to_string() + name, name.to_string(), "555-0100".to_string()).unwrap()
}

fn request(name: &str, p: Priority, preferred: i64, flex: i64, created_at: i64) -> AppointmentRequest {
    let mut r = AppointmentRequest::new(patient(name), p, preferred, "Visit".to_string(), flex).unwrap();
    r.created_at = created_at;
    r
}

fn scheduler_with(slots: &[(i64, i64)], fallback: bool) -> AppointmentScheduler {
    let mut c = DoctorCalendar::new("Dr. Smith".to_string(), 30).unwrap();
    for &(h, m) in slots {
        c.add_time_slot(TimeSlot::new(at(h, m), at(h, m) + 1800).unwrap()).unwrap();
    }
    AppointmentScheduler::new(c, fallback)
}

fn rate(confirmed: usize, total: usize) -> f64 {
    if total == 0 {
        0.0
    } else {
        confirmed as f64 / total as f64 * 100.0
    }
}

#[test]
fn emergency_beats_earlier_routine() {
    let mut s = scheduler_with(&[(9, 0), (9, 30)], false);
    s.add_request(request("R1", Priority::Routine, at(9, 0), 0, 100));
    s.add_request(request("R2", Priority::Emergency, at(9, 0), 30, 200));
    let r = s.process_queue();
    assert_eq!(r.total_requests, 2);
    let r2 = r.confirmed.iter().find(|a| a.patient.name == "R2").unwrap();
    assert_eq!(r2.time_slot.start_time, at(9, 0));
    assert!(r.confirmed.iter().all(|a| a.patient.name != "R1"));
    assert_eq!(r.failed.len(), 1);
    assert_eq!(r.failed[0].request.patient.name, "R1");
}

#[test]
fn emergency_beats_routine_with_alternative() {
    let mut s = scheduler_with(&[(9, 0), (9, 30)], false);
    s.add_request(request("R1", Priority::Routine, at(9, 0), 30, 100));
    s.add_request(request("R2", Priority::Emergency, at(9, 0), 30, 200));
    let r = s.process_queue();
    let r2 = r.confirmed.iter().find(|a| a.patient.name == "R2").unwrap();
    let r1 = r.confirmed.iter().find(|a| a.patient.name == "R1").unwrap();
    assert_eq!(r2.time_slot.start_time, at(9, 0));
    assert_eq!(r1.time_slot.start_time, at(9, 30));
}

#[test]
fn earlier_created_routine_wins_tie() {
    let mut s = scheduler_with(&[(9, 0)], false);
    s.add_request(request("Late", Priority::Routine, at(9, 0), 0, 500));
    s.add_request(request("Early", Priority::Routine, at(9, 0), 0, 100));
    let r = s.process_queue();
    assert_eq!(r.confirmed.len(), 1);
    assert_eq!(r.confirmed[0].patient.name, "Early");
    assert_eq!(r.failed[0].request.patient.name, "Late");
}

#[test]
fn same_key_served_in_submission_order() {
    let mut s = scheduler_with(&[(9, 0)], false);
    s.add_request(request("First", Priority::Urgent, at(9, 0), 0, 100));
    s.add_request(request("Second", Priority::Urgent, at(9, 0), 0, 100));
    let r = s.process_queue();
    assert_eq!(r.confirmed[0].patient.name, "First");
}

#[test]
fn queue_order_comparator() {
    let a = request("A", Priority::Urgent, at(9, 0), 0, 300);
    let b = request("B", Priority::Routine, at(9, 0), 0, 100);
    let c = request("C", Priority::Urgent, at(9, 0), 0, 200);
    assert!(a.goes_before(&b));
    assert!(!b.goes_before(&a));
    assert!(c.goes_before(&a));
    assert!(!a.goes_before(&a));
}

#[test]
fn two_slot_scenario_full_success() {
    let mut s = scheduler_with(&[(9, 0), (9, 30)], true);
    s.add_request(request("A", Priority::Routine, at(9, 0), 0, 100));
    s.add_request(request("B", Priority::Emergency, at(9, 0), 60, 200));
    let r = s.process_queue();
    let b = r.confirmed.iter().find(|a| a.patient.name == "B").unwrap();
    let a = r.confirmed.iter().find(|a| a.patient.name == "A").unwrap();
    assert_eq!(b.time_slot.start_time, at(9, 0));
    assert_eq!(a.time_slot.start_time, at(9, 30));
    assert_eq!(r.total_requests, 2);
    assert!(r.failed.is_empty());
    assert_eq!(rate(r.confirmed.len(), r.total_requests), 100.0);
}

#[test]
fn empty_batch_has_zero_rate() {
    let mut s = scheduler_with(&[(9, 0)], true);
    let r = s.process_queue();
    assert_eq!(r.total_requests, 0);
    assert!(r.confirmed.is_empty());
    assert_eq!(rate(r.confirmed.len(), r.total_requests), 0.0);
}

#[test]
fn schedule_single_preferred_message() {
    let mut s = scheduler_with(&[(9, 0)], false);
    let r = s.schedule_single(request("A", Priority::Routine, at(9, 10), 15, 1));
    assert!(r.success);
    assert_eq!(r.message, "Scheduled at preferred time: 2024-01-15 09:00");
    assert_eq!(r.appointment.unwrap().time_slot.start_time, at(9, 0));
}

#[test]
fn schedule_single_fallback_message() {
    let mut s = scheduler_with(&[(14, 0)], true);
    let r = s.schedule_single(request("A", Priority::Routine, at(9, 0), 30, 1));
    assert!(r.success);
    assert_eq!(
        r.message,
        "Scheduled at alternative time: 2024-01-15 14:00 (preferred was 09:00)"
    );
}

#[test]
fn schedule_single_without_fallback_fails() {
    let mut s = scheduler_with(&[(14, 0)], false);
    let r = s.schedule_single(request("A", Priority::Routine, at(9, 0), 30, 1));
    assert!(!r.success);
    assert!(r.appointment.is_none());
    assert_eq!(r.message, "No available time slots found");
    assert_eq!(s.calendar.available_slots().len(), 1);
}

#[test]
fn fallback_does_not_look_backwards() {
    let mut s = scheduler_with(&[(8, 0)], true);
    let r = s.schedule_single(request("A", Priority::Routine, at(9, 0), 30, 1));
    assert!(!r.success);
    assert_eq!(r.message, "No available time slots found");
}

#[test]
fn schedule_single_empty_reason_fails() {
    let mut s = scheduler_with(&[(9, 0)], false);
    let mut q = request("A", Priority::Routine, at(9, 0), 0, 1);
    q.reason = String::new();
    let r = s.schedule_single(q);
    assert!(!r.success);
    assert_eq!(r.message, "Appointment reason cannot be empty");
    assert_eq!(s.calendar.available_slots().len(), 1);
}

#[test]
fn failures_do_not_stop_the_batch() {
    let mut s = scheduler_with(&[(9, 0)], false);
    let reqs = vec![
        request("A", Priority::Routine, at(12, 0), 0, 1),
        request("B", Priority::Routine, at(9, 0), 0, 2),
    ];
    let r = s.schedule_batch(reqs);
    assert_eq!(r.total_requests, 2);
    assert_eq!(r.confirmed.len(), 1);
    assert_eq!(r.failed.len(), 1);
    assert_eq!(r.confirmed[0].patient.name, "B");
    assert_eq!(s.get_pending_count(), 0);
}

#[test]
fn pending_count_and_clear() {
    let mut s = scheduler_with(&[(9, 0)], false);
    s.add_requests(vec![
        request("A", Priority::Routine, at(9, 0), 0, 1),
        request("B", Priority::Routine, at(9, 0), 0, 2),
    ]);
    assert_eq!(s.get_pending_count(), 2);
    assert_eq!(s.clear_queue(), 2);
    assert_eq!(s.get_pending_count(), 0);
}

#[test]
fn reschedule_without_free_slot_keeps_original() {
    let mut s = scheduler_with(&[(9, 0), (10, 0)], false);
    let r = s.schedule_single(request("A", Priority::Routine, at(9, 0), 0, 1));
    let id = r.appointment.unwrap().appointment_id;
    let rr = s.reschedule_appointment(&id, at(16, 0), 30);
    assert!(!rr.success);
    assert_eq!(rr.message, "No available slots at the requested time");
    assert!(s.calendar.get_appointment_by_id(&id).is_some());
    assert_eq!(s.calendar.appointments().len(), 1);
}

#[test]
fn reschedule_moves_appointment() {
    let mut s = scheduler_with(&[(9, 0), (10, 0)], false);
    let r = s.schedule_single(request("A", Priority::Urgent, at(9, 0), 0, 1));
    let id = r.appointment.unwrap().appointment_id;
    let rr = s.reschedule_appointment(&id, at(10, 0), 0);
    assert!(rr.success);
    assert_eq!(rr.message, "Rescheduled to 2024-01-15 10:00");
    let moved = rr.appointment.unwrap();
    assert_eq!(moved.patient.name, "A");
    assert_eq!(moved.priority, Priority::Urgent);
    assert!(s.calendar.get_appointment_by_id(&id).is_none());
    assert!(s.calendar.get_appointment_by_id(&moved.appointment_id).is_some());
    let free: Vec<i64> = s.calendar.available_slots().iter().map(|t| t.start_time).collect();
    assert_eq!(free, vec![at(9, 0)]);
}

#[test]
fn reschedule_unknown_appointment() {
    let mut s = scheduler_with(&[(9, 0)], false);
    let rr = s.reschedule_appointment("missing", at(9, 0), 0);
    assert!(!rr.success);
    assert_eq!(rr.message, "Original appointment not found");
    assert_eq!(rr.request.patient.name, "Unknown");
}

#[test]
fn create_request_validates_in_order() {
    let e = create_appointment_request(
        String::new(), "Ann".to_string(), "x".to_string(), "routine", at(9, 0), "R".to_string(), 0,
    );
    assert_eq!(e.err().unwrap(), "Patient ID cannot be empty");
    let e = create_appointment_request(
        "1".to_string(), "Ann".to_string(), "x".to_string(), "soon", at(9, 0), "R".to_string(), 0,
    );
    assert_eq!(
        e.err().unwrap(),
        "Invalid priority: 'soon'. Must be one of: routine, urgent, emergency"
    );
    let e = create_appointment_request(
        "1".to_string(), "Ann".to_string(), "x".to_string(), "urgent", at(9, 0), "R".to_string(), -1,
    );
    assert_eq!(e.err().unwrap(), "Flexibility minutes cannot be negative");
    let q = create_appointment_request(
        "1".to_string(), "Ann".to_string(), "x".to_string(), " Urgent ", at(9, 0), "R".to_string(), 15,
    )
    .unwrap();
    assert_eq!(q.priority, Priority::Urgent);
    assert_eq!(q.flexibility_minutes, 15);
    assert_eq!(q.request_id.len(), 36);
}
