use appointment_scheduler::text::decimal;
use appointment_scheduler::models::{
    priority_from_token, Appointment, AppointmentRequest, Patient, Priority, TimeSlot,
};

#[test]
fn priority_parses_ignoring_case_and_space() {
    assert_eq!(Priority::from_string("routine").unwrap(), Priority::Routine);
    assert_eq!(Priority::from_string("URGENT").unwrap(), Priority::Urgent);
    assert_eq!(Priority::from_string("  Emergency\n").unwrap(), Priority::Emergency);
}

#[test]
fn priority_rejects_unknown_token() {
    let e = Priority::from_string("critical").err().unwrap();
    assert_eq!(e, "Invalid priority: 'critical'. Must be one of: routine, urgent, emergency");
    assert!(Priority::from_string("").is_err());
}

#[test]
fn priority_token_is_exact() {
    assert_eq!(priority_from_token("urgent"), Some(Priority::Urgent));
    assert_eq!(priority_from_token("Urgent"), None);
    assert_eq!(priority_from_token(" urgent"), None);
}

#[test]
fn priority_names_and_order() {
    assert_eq!(Priority::Routine.name(), "ROUTINE");
    assert_eq!(Priority::Urgent.name(), "URGENT");
    assert_eq!(Priority::Emergency.name(), "EMERGENCY");
    assert!(Priority::Routine < Priority::Urgent);
    assert!(Priority::Urgent < Priority::Emergency);
}

#[test]
fn patient_fields_must_be_non_empty() {
    let e = Patient::new(String::new(), "A".to_string(), "c".to_string()).err().unwrap();
    assert_eq!(e, "Patient ID cannot be empty");
    let e = Patient::new("1".to_string(), String::new(), "c".to_string()).err().unwrap();
    assert_eq!(e, "Patient name cannot be empty");
    let e = Patient::new("1".to_string(), "A".to_string(), String::new()).err().unwrap();
    assert_eq!(e, "Patient contact cannot be empty");
    let p = Patient::new("1".to_string(), "A".to_string(), "c".to_string()).unwrap();
    assert_eq!(p.name, "A");
}

#[test]
fn appointment_needs_reason() {
    let p = Patient::new("1".to_string(), "A".to_string(), "c".to_string()).unwrap();
    let s = TimeSlot::new(0, 1800).unwrap();
    let e = Appointment::new(p.clone(), s.clone(), Priority::Routine, String::new()).err().unwrap();
    assert_eq!(e, "Appointment reason cannot be empty");
    let a = Appointment::new(p, s, Priority::Routine, "R".to_string()).unwrap();
    assert!(a.confirmed);
    assert_eq!(a.appointment_id.len(), 36);
}

#[test]
fn request_validation_and_window() {
    let p = Patient::new("1".to_string(), "A".to_string(), "c".to_string()).unwrap();
    let e = AppointmentRequest::new(p.clone(), Priority::Routine, 3600, String::new(), 10).err().unwrap();
    assert_eq!(e, "Appointment reason cannot be empty");
    let e = AppointmentRequest::new(p.clone(), Priority::Routine, 3600, "R".to_string(), -1).err().unwrap();
    assert_eq!(e, "Flexibility minutes cannot be negative");
    let e = AppointmentRequest::new(p.clone(), Priority::Routine, i64::MAX, "R".to_string(), 0).err().unwrap();
    assert_eq!(e, "Time is outside the supported range");
    let q = AppointmentRequest::new(p, Priority::Routine, 3600, "R".to_string(), 10).unwrap();
    assert_eq!(q.earliest_acceptable(), 3000);
    assert_eq!(q.latest_acceptable(), 4200);
    assert!(q.is_time_acceptable(&TimeSlot::new(4200, 5000).unwrap()));
    assert!(!q.is_time_acceptable(&TimeSlot::new(4201, 5000).unwrap()));
    assert!(q.is_time_acceptable(&TimeSlot::new(3000, 5000).unwrap()));
}

#[test]
fn decimal_digits() {
    assert_eq!(decimal(0), "0");
    assert_eq!(decimal(7), "7");
    assert_eq!(decimal(10), "10");
    assert_eq!(decimal(12345), "12345");
    assert_eq!(decimal(usize::MAX), usize::MAX.to_string());
}
