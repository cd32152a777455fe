use appointment_scheduler::calendar::{fresh_id, DoctorCalendar};
use appointment_scheduler::clock::{day_number, weekday_number};
use appointment_scheduler::models::{time_text, Patient, Priority, TimeSlot};

/// 2024-01-15 (a Monday) at `h:m`, in seconds.
fn at(h: i64, m: i64) -> i64 {
    1_705_276_800 + h * 3600 + m * 60
}

fn patient(name: &str) -> Patient {
    Patient::new("p-".to_string() + name, name.to_string(), "555-0100".to_string()).unwrap()
}

fn calendar() -> DoctorCalendar {
    DoctorCalendar::new("Dr. Smith".to_string(), 30).unwrap()
}

fn slot(h: i64, m: i64) -> TimeSlot {
    TimeSlot::new(at(h, m), at(h, m) + 30 * 60).unwrap()
}

#[test]
fn calendar_rejects_empty_name() {
    let e = DoctorCalendar::new(String::new(), 30).err().unwrap();
    assert_eq!(e, "Doctor name cannot be empty");
}

#[test]
fn calendar_rejects_non_positive_duration() {
    let e = DoctorCalendar::new("Dr. Smith".to_string(), 0).err().unwrap();
    assert_eq!(e, "Slot duration must be positive");
    assert!(DoctorCalendar::new("Dr. Smith".to_string(), -5).is_err());
}

#[test]
fn disjoint_slots_are_all_accepted() {
    let mut c = calendar();
    for h in [9, 10, 11, 14] {
        assert!(c.add_time_slot(slot(h, 0)).is_ok());
    }
    assert!(c.add_time_slot(slot(9, 30)).is_ok());
    assert_eq!(c.time_slots().len(), 5);
}

#[test]
fn overlapping_slot_is_refused_and_count_unchanged() {
    let mut c = calendar();
    c.add_time_slot(slot(9, 0)).unwrap();
    let before = c.time_slots().len();
    let e = c.add_time_slot(slot(9, 15)).err().unwrap();
    assert_eq!(e, "Time slot overlaps with existing slot: 2024-01-15 09:00 - 2024-01-15 09:30");
    assert_eq!(c.time_slots().len(), before);
}

#[test]
fn touching_slots_do_not_overlap() {
    let a = slot(9, 0);
    let b = slot(9, 30);
    assert!(!a.overlaps_with(&b));
    assert!(!b.overlaps_with(&a));
    assert!(a.overlaps_with(&slot(9, 15)));
}

#[test]
fn slot_with_taken_id_is_refused() {
    let mut c = calendar();
    let a = slot(9, 0);
    let mut b = slot(10, 0);
    b.slot_id = a.slot_id.clone();
    c.add_time_slot(a).unwrap();
    assert_eq!(c.add_time_slot(b).err().unwrap(), "Time slot id is already in use");
}

#[test]
fn malformed_slot_is_refused_by_calendar() {
    let mut c = calendar();
    let mut s = slot(9, 0);
    s.end_time = s.start_time;
    assert_eq!(c.add_time_slot(s).err().unwrap(), "End time must be after start time");
}

#[test]
fn time_slot_new_validates() {
    assert_eq!(TimeSlot::new(at(10, 0), at(9, 0)).err().unwrap(), "End time must be after start time");
    assert_eq!(TimeSlot::new(at(10, 0), at(10, 0)).err().unwrap(), "End time must be after start time");
    let s = TimeSlot::new(at(9, 0), at(9, 45)).unwrap();
    assert!(s.is_available);
    assert_eq!(s.duration_minutes(), 45);
    assert_eq!(s.duration(), 45 * 60);
    assert!(s.contains(at(9, 0)));
    assert!(!s.contains(at(9, 45)));
}

#[test]
fn slot_ids_are_fresh_uuids() {
    let a = slot(9, 0);
    let b = slot(9, 0);
    assert_eq!(a.slot_id.len(), 36);
    assert_ne!(a.slot_id, b.slot_id);
}

#[test]
fn available_slots_sorted_whatever_insertion_order() {
    let mut c = calendar();
    for h in [15, 9, 12, 10] {
        c.add_time_slot(slot(h, 0)).unwrap();
    }
    let s10 = c.time_slots()[1].clone();
    c.book_slot(&s10, patient("Ann"), Priority::Routine, "Checkup".to_string()).unwrap();
    let avail = c.available_slots();
    let starts: Vec<i64> = avail.iter().map(|s| s.start_time).collect();
    assert_eq!(starts, vec![at(9, 0), at(12, 0), at(15, 0)]);
    assert!(avail.iter().all(|s| s.is_available));
}

#[test]
fn booking_flips_slot_and_creates_one_appointment() {
    let mut c = calendar();
    c.add_time_slot(slot(9, 0)).unwrap();
    let s = c.time_slots()[0].clone();
    let a = c.book_slot(&s, patient("Ann"), Priority::Urgent, "Fever".to_string()).unwrap();
    assert!(a.confirmed);
    assert_eq!(a.time_slot.slot_id, s.slot_id);
    assert!(!a.time_slot.is_available);
    assert_eq!(a.priority, Priority::Urgent);
    assert_eq!(a.appointment_id.len(), 36);
    assert!(!c.time_slots()[0].is_available);
    assert_eq!(c.appointments().len(), 1);
    assert!(c.available_slots().is_empty());
}

#[test]
fn booking_same_slot_twice_fails() {
    let mut c = calendar();
    c.add_time_slot(slot(9, 0)).unwrap();
    let s = c.time_slots()[0].clone();
    c.book_slot(&s, patient("Ann"), Priority::Routine, "Checkup".to_string()).unwrap();
    let e = c.book_slot(&s, patient("Bob"), Priority::Routine, "Checkup".to_string()).err().unwrap();
    assert_eq!(e, "Time slot is not available");
    assert_eq!(c.appointments().len(), 1);
}

#[test]
fn booking_unknown_slot_fails() {
    let mut c = calendar();
    c.add_time_slot(slot(9, 0)).unwrap();
    let other = slot(9, 0);
    let e = c.book_slot(&other, patient("Ann"), Priority::Routine, "Checkup".to_string()).err().unwrap();
    assert_eq!(e, "Time slot not found in calendar");
}

#[test]
fn booking_with_empty_reason_changes_nothing() {
    let mut c = calendar();
    c.add_time_slot(slot(9, 0)).unwrap();
    let s = c.time_slots()[0].clone();
    let e = c.book_slot(&s, patient("Ann"), Priority::Routine, String::new()).err().unwrap();
    assert_eq!(e, "Appointment reason cannot be empty");
    assert!(c.time_slots()[0].is_available);
    assert!(c.appointments().is_empty());
}

#[test]
fn booking_with_taken_appointment_id_changes_nothing() {
    let mut c = calendar();
    c.add_time_slot(slot(9, 0)).unwrap();
    c.add_time_slot(slot(10, 0)).unwrap();
    let slots = c.time_slots();
    let id = "fixed-id".to_string();
    c.book_slot_with(&slots[0].slot_id, patient("Ann"), Priority::Routine, "A".to_string(), id.clone(), 7).unwrap();
    let e = c
        .book_slot_with(&slots[1].slot_id, patient("Bob"), Priority::Routine, "B".to_string(), id, 8)
        .err()
        .unwrap();
    assert_eq!(e, "Appointment id is already in use");
    assert!(c.time_slots()[1].is_available);
}

#[test]
fn cancel_restores_slot_and_removes_appointment() {
    let mut c = calendar();
    c.add_time_slot(slot(9, 0)).unwrap();
    let s = c.time_slots()[0].clone();
    let a = c.book_slot(&s, patient("Ann"), Priority::Routine, "Checkup".to_string()).unwrap();
    assert!(c.get_appointment_by_id(&a.appointment_id).is_some());
    assert!(c.cancel_appointment(&a.appointment_id));
    assert!(c.time_slots()[0].is_available);
    assert!(c.get_appointment_by_id(&a.appointment_id).is_none());
    assert!(c.appointments().is_empty());
}

#[test]
fn cancel_unknown_id_returns_false() {
    let mut c = calendar();
    c.add_time_slot(slot(9, 0)).unwrap();
    let s = c.time_slots()[0].clone();
    c.book_slot(&s, patient("Ann"), Priority::Routine, "Checkup".to_string()).unwrap();
    assert!(!c.cancel_appointment("no-such-id"));
    assert_eq!(c.appointments().len(), 1);
    assert!(!c.time_slots()[0].is_available);
}

#[test]
fn appointments_ordered_by_start() {
    let mut c = calendar();
    for h in [11, 9, 10] {
        c.add_time_slot(slot(h, 0)).unwrap();
    }
    let slots = c.time_slots();
    for i in [2usize, 0, 1] {
        c.book_slot(&slots[i], patient("P"), Priority::Routine, "R".to_string()).unwrap();
    }
    let starts: Vec<i64> = c.appointments().iter().map(|a| a.time_slot.start_time).collect();
    assert_eq!(starts, vec![at(9, 0), at(10, 0), at(11, 0)]);
}

#[test]
fn find_available_slot_nearest_in_window() {
    let mut c = calendar();
    for (h, m) in [(9, 0), (10, 0), (11, 30)] {
        c.add_time_slot(slot(h, m)).unwrap();
    }
    let s = c.find_available_slot(at(10, 20), 60).unwrap();
    assert_eq!(s.start_time, at(10, 0));
    let s = c.find_available_slot(at(11, 10), 60).unwrap();
    assert_eq!(s.start_time, at(11, 30));
    assert!(c.find_available_slot(at(13, 0), 60).is_none());
}

#[test]
fn find_available_slot_window_ends_are_inclusive() {
    let mut c = calendar();
    c.add_time_slot(slot(10, 0)).unwrap();
    assert_eq!(c.find_available_slot(at(9, 0), 60).unwrap().start_time, at(10, 0));
    assert!(c.find_available_slot(at(8, 59), 60).is_none());
}

#[test]
fn find_available_slot_tie_goes_to_earlier() {
    let mut c = calendar();
    c.add_time_slot(slot(9, 30)).unwrap();
    c.add_time_slot(slot(10, 30)).unwrap();
    let s = c.find_available_slot(at(10, 0), 30).unwrap();
    assert_eq!(s.start_time, at(9, 30));
}

#[test]
fn zero_flexibility_needs_exact_start() {
    let mut c = calendar();
    c.add_time_slot(slot(9, 0)).unwrap();
    c.add_time_slot(slot(9, 30)).unwrap();
    assert_eq!(c.find_available_slot(at(9, 30), 0).unwrap().start_time, at(9, 30));
    assert!(c.find_available_slot(at(9, 15), 0).is_none());
    assert!(c.find_available_slot(at(9, 31), 0).is_none());
}

#[test]
fn find_available_slot_skips_booked() {
    let mut c = calendar();
    c.add_time_slot(slot(9, 0)).unwrap();
    c.add_time_slot(slot(9, 30)).unwrap();
    let s = c.time_slots()[0].clone();
    c.book_slot(&s, patient("Ann"), Priority::Routine, "R".to_string()).unwrap();
    assert_eq!(c.find_available_slot(at(9, 0), 30).unwrap().start_time, at(9, 30));
}

#[test]
fn find_next_available_slot_from_time() {
    let mut c = calendar();
    for h in [9, 11, 14] {
        c.add_time_slot(slot(h, 0)).unwrap();
    }
    assert_eq!(c.find_next_available_slot(at(10, 0)).unwrap().start_time, at(11, 0));
    assert_eq!(c.find_next_available_slot(at(11, 0)).unwrap().start_time, at(11, 0));
    assert!(c.find_next_available_slot(at(14, 1)).is_none());
}

#[test]
fn remove_time_slot_only_when_free() {
    let mut c = calendar();
    c.add_time_slot(slot(9, 0)).unwrap();
    c.add_time_slot(slot(10, 0)).unwrap();
    let slots = c.time_slots();
    c.book_slot(&slots[0], patient("Ann"), Priority::Routine, "R".to_string()).unwrap();
    assert!(!c.remove_time_slot(&slots[0].slot_id));
    assert!(c.remove_time_slot(&slots[1].slot_id));
    assert!(!c.remove_time_slot("unknown"));
    assert_eq!(c.time_slots().len(), 1);
}

#[test]
fn unavailable_new_slot_is_refused() {
    let mut c = calendar();
    let mut s = slot(9, 0);
    s.is_available = false;
    assert_eq!(c.add_time_slot(s).err().unwrap(), "A new time slot must be available");
    assert!(c.time_slots().is_empty());
}

#[test]
fn slot_freed_by_cancel_can_be_removed() {
    let mut c = calendar();
    c.add_time_slot(slot(9, 0)).unwrap();
    let s = c.time_slots()[0].clone();
    let a = c.book_slot(&s, patient("Ann"), Priority::Routine, "R".to_string()).unwrap();
    assert!(!c.remove_time_slot(&s.slot_id));
    assert!(c.cancel_appointment(&a.appointment_id));
    assert!(c.remove_time_slot(&s.slot_id));
    assert!(c.time_slots().is_empty());
}

#[test]
fn fresh_id_avoids_taken_ids() {
    let mut c = calendar();
    c.add_time_slot(slot(9, 0)).unwrap();
    let s = c.time_slots()[0].clone();
    let a = c.book_slot(&s, patient("Ann"), Priority::Routine, "R".to_string()).unwrap();
    let taken = c.appointments();
    let same = fresh_id(a.appointment_id.clone(), &taken);
    assert_ne!(same, a.appointment_id);
    assert!(same.starts_with(&a.appointment_id));
    assert!(same.len() > a.appointment_id.len());
    assert_eq!(fresh_id("other".to_string(), &taken), "other");
}

#[test]
fn slots_and_appointments_on_date() {
    let mut c = calendar();
    c.add_time_slot(slot(9, 0)).unwrap();
    c.add_time_slot(slot(10, 0)).unwrap();
    c.add_time_slot(slot(24 + 9, 0)).unwrap();
    let s = c.time_slots()[1].clone();
    c.book_slot(&s, patient("Ann"), Priority::Routine, "R".to_string()).unwrap();
    let today = c.find_available_slots_on_date(at(15, 0));
    assert_eq!(today.len(), 1);
    assert_eq!(today[0].start_time, at(9, 0));
    assert_eq!(c.find_available_slots_on_date(at(24 + 1, 0)).len(), 1);
    assert_eq!(c.get_appointments_on_date(at(0, 0)).len(), 1);
    assert!(c.get_appointments_on_date(at(24, 0)).is_empty());
}

#[test]
fn daily_slots_skip_break() {
    let mut c = calendar();
    let made = c.generate_daily_slots(at(7, 45), 9, 14, None, Some(12 * 3600), Some(13 * 3600));
    let starts: Vec<i64> = made.iter().map(|s| s.start_time).collect();
    assert_eq!(
        starts,
        vec![at(9, 0), at(9, 30), at(10, 0), at(10, 30), at(11, 0), at(11, 30), at(13, 0), at(13, 30)]
    );
    assert_eq!(c.time_slots().len(), 8);
}

#[test]
fn daily_slots_with_given_duration_and_existing_slot() {
    let mut c = calendar();
    c.add_time_slot(slot(10, 0)).unwrap();
    let made = c.generate_daily_slots(at(0, 0), 9, 12, Some(60), None, None);
    let starts: Vec<i64> = made.iter().map(|s| s.start_time).collect();
    assert_eq!(starts, vec![at(9, 0), at(11, 0)]);
    assert_eq!(c.time_slots().len(), 3);
}

#[test]
fn weekly_slots_on_working_days() {
    let mut c = calendar();
    let made = c.generate_weekly_slots(at(8, 0), 1, None, 9, 10, Some(60), None, None);
    assert_eq!(made.len(), 5);
    assert!(made.iter().all(|s| weekday_number(s.start_time) < 5));
    let mut c2 = calendar();
    let made2 = c2.generate_weekly_slots(at(8, 0), 2, Some(vec![5, 6]), 9, 11, Some(60), None, None);
    assert_eq!(made2.len(), 8);
    assert!(made2.iter().all(|s| weekday_number(s.start_time) >= 5));
}

#[test]
fn day_and_weekday_numbers() {
    assert_eq!(day_number(0), 0);
    assert_eq!(day_number(86_399), 0);
    assert_eq!(day_number(-1), -1);
    assert_eq!(day_number(-86_400), -1);
    assert_eq!(day_number(-86_401), -2);
    assert_eq!(weekday_number(0), 3);
    assert_eq!(weekday_number(at(9, 0)), 0);
    assert_eq!(weekday_number(-1), 2);
}

#[test]
fn time_text_prints_minutes() {
    assert_eq!(time_text(at(9, 5)), "2024-01-15 09:05");
    assert_eq!(time_text(0), "1970-01-01 00:00");
}

#[test]
fn calendar_summary_text() {
    let mut c = calendar();
    c.add_time_slot(slot(9, 0)).unwrap();
    c.add_time_slot(slot(10, 0)).unwrap();
    let s = c.time_slots()[0].clone();
    c.book_slot(&s, patient("Ann"), Priority::Routine, "R".to_string()).unwrap();
    assert_eq!(c.describe(), "DoctorCalendar(Dr. Smith, slots=2, appointments=1)");
    let copy = c.clone();
    assert_eq!(copy.describe(), c.describe());
}
