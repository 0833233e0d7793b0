use train_tickets::train::{Ticket, Train, TrainMap};
use train_tickets::user::{write_succeeded, Page, User, UserRow};
use std::str::FromStr;

fn train(number: &str, start_time: &str) -> Train {
    Train::new(
        number.to_string(),
        format!("route {}", number),
        "Минск".to_string(),
        "Орша".to_string(),
        start_time.to_string(),
        "23:00".to_string(),
        vec![Ticket::new("Плацкартный".to_string(), 3, 12.5f32.to_bits())],
    )
}

#[test]
fn page_names() {
    assert_eq!(Page::ChooseRoute.as_str(), "ChooseRoute");
    assert_eq!(Page::ChooseTrain.as_str(), "ChooseTrain");
    assert_eq!(Page::Waiting.as_str(), "Waiting");
}

#[test]
fn page_back() {
    assert_eq!(Page::ChooseRoute.back(), Page::ChooseRoute);
    assert_eq!(Page::ChooseTrain.back(), Page::ChooseRoute);
    assert_eq!(Page::Waiting.back(), Page::ChooseTrain);
    for p in [Page::ChooseRoute, Page::ChooseTrain, Page::Waiting] {
        assert_eq!(p.back().back(), Page::ChooseRoute);
    }
}

#[test]
fn page_from_str() {
    assert_eq!(Page::from_str("Waiting"), Ok(Page::Waiting));
    assert_eq!(Page::from_str("ChooseTrain"), Ok(Page::ChooseTrain));
    assert_eq!(Page::from_str("waiting"), Err("Invalid value: waiting for Page".to_string()));
    assert_eq!(Page::from_str(""), Err("Invalid value:  for Page".to_string()));
    for p in [Page::ChooseRoute, Page::ChooseTrain, Page::Waiting] {
        assert_eq!(Page::from_str(p.as_str()), Ok(p));
    }
}

#[test]
fn new_user_waits_for_nothing() {
    let u = User::new(42, Page::ChooseTrain, "2024-05-01".to_string());
    assert_eq!(u.chat_id, 42);
    assert_eq!(u.page, Page::ChooseTrain);
    assert_eq!(u.date, "2024-05-01");
    assert!(u.waiting.is_none());
}

#[test]
fn user_from_row() {
    let row = UserRow {
        chat_id: -7,
        page: "Waiting".to_string(),
        date: "2024-05-02".to_string(),
        train_number: "735Б".to_string(),
        amount: 2,
    };
    let u = User::from_sqlite_row(&row);
    assert_eq!(u.chat_id, -7);
    assert_eq!(u.page, Page::Waiting);
    assert_eq!(u.page.as_str(), row.page);
    assert_eq!(u.date, "2024-05-02");
    let w = u.waiting.unwrap();
    assert_eq!(w.train_number, "735Б");
    assert_eq!(w.amount, 2);
}

#[test]
fn writes_succeed_on_one_row() {
    assert!(write_succeeded(1));
    assert!(!write_succeeded(0));
    assert!(!write_succeeded(2));
}

#[test]
fn default_ticket_and_train() {
    let t = Ticket::with_default();
    assert_eq!(t.seat_type, "");
    assert_eq!(t.amount, 0);
    assert_eq!(f32::from_bits(t.cost), 0.0);
    let tr = Train::with_default();
    assert_eq!(tr.number, "");
    assert_eq!(tr.route, "");
    assert_eq!(tr.start_station, "");
    assert_eq!(tr.end_station, "");
    assert_eq!(tr.start_time, "");
    assert_eq!(tr.end_time, "");
    assert!(tr.tickets.is_empty());
}

#[test]
fn new_ticket_and_train() {
    let t = Ticket::new("Купе".to_string(), 9, 31.25f32.to_bits());
    assert_eq!(t.seat_type, "Купе");
    assert_eq!(t.amount, 9);
    assert_eq!(f32::from_bits(t.cost), 31.25);
    let tr = train("701Б", "06:10");
    assert_eq!(tr.number, "701Б");
    assert_eq!(tr.route, "route 701Б");
    assert_eq!(tr.start_station, "Минск");
    assert_eq!(tr.end_station, "Орша");
    assert_eq!(tr.start_time, "06:10");
    assert_eq!(tr.end_time, "23:00");
    assert_eq!(tr.tickets.len(), 1);
    assert_eq!(tr.tickets[0].amount, 3);
}

#[test]
fn map_read_after_write() {
    let mut m = TrainMap::new();
    assert_eq!(m.len(), 0);
    assert!(m.get("701Б").is_none());
    m.insert(train("701Б", "06:10"));
    m.insert(train("703Б", "07:00"));
    assert_eq!(m.len(), 2);
    assert_eq!(m.get("701Б").unwrap().start_time, "06:10");
    assert_eq!(m.get("703Б").unwrap().start_time, "07:00");
    m.insert(train("701Б", "09:30"));
    assert_eq!(m.len(), 2);
    assert_eq!(m.get("701Б").unwrap().start_time, "09:30");
    assert_eq!(m.get("703Б").unwrap().start_time, "07:00");
    assert!(m.get("705Б").is_none());
}
