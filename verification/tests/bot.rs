use train_tickets::bot::{
    chats_to_alert, choose_train_prompt_text, get_button, next_update, reply_to_message,
    start_hint_text, train_keyboard, MessageReply, UpdateAction, UpdateKind,
};
use train_tickets::train::{Ticket, Train, TrainMap};
use train_tickets::user::{Page, User, Waiting};

fn train(number: &str, start_time: &str) -> Train {
    Train::new(
        number.to_string(),
        "route".to_string(),
        "Минск".to_string(),
        "Орша".to_string(),
        start_time.to_string(),
        "23:00".to_string(),
        vec![Ticket::new("Купе".to_string(), 30, 10.0f32.to_bits())],
    )
}

#[test]
fn button_of_a_train() {
    let b = get_button(&train("701Б", "06:10"));
    assert_eq!(b.text, "701Б Минск(06:10) -- Орша(23:00)");
    assert_eq!(b.callback_data, Some("ChooseAction|701Б".to_string()));
}

#[test]
fn keyboard_in_departure_order() {
    let mut m = TrainMap::new();
    m.insert(train("3", "10:00"));
    m.insert(train("1", "08:00"));
    m.insert(train("2", "09:30"));
    m.insert(train("4", "08:00"));
    let k = train_keyboard(&m);
    assert_eq!(k.len(), 5);
    assert!(k[0].is_empty());
    let numbers: Vec<&str> = k[1..].iter().map(|row| {
        assert_eq!(row.len(), 1);
        row[0].callback_data.as_deref().unwrap()
    }).collect();
    assert_eq!(numbers, vec!["ChooseAction|1", "ChooseAction|4", "ChooseAction|2", "ChooseAction|3"]);
}

#[test]
fn keyboard_of_no_trains() {
    let k = train_keyboard(&TrainMap::new());
    assert_eq!(k.len(), 1);
    assert!(k[0].is_empty());
}

#[test]
fn replies_to_messages() {
    assert_eq!(reply_to_message(Some("/start")), MessageReply::TrainList);
    assert_eq!(reply_to_message(Some("/start now")), MessageReply::StartHint);
    assert_eq!(reply_to_message(Some("")), MessageReply::StartHint);
    assert_eq!(reply_to_message(None), MessageReply::Nothing);
    assert_eq!(start_hint_text(), "Напишите /start, чтобы начать");
    assert_eq!(choose_train_prompt_text(), "Выберите поезд:");
}

#[test]
fn update_offsets() {
    assert_eq!(next_update(0, 41, UpdateKind::Message), (42, UpdateAction::HandleMessage));
    assert_eq!(next_update(42, 50, UpdateKind::CallbackQuery), (42, UpdateAction::HandleCallbackQuery));
    assert_eq!(next_update(42, 51, UpdateKind::Other), (42, UpdateAction::Ignore));
    assert_eq!(next_update(7, u32::MAX - 1, UpdateKind::Message), (u32::MAX as i64, UpdateAction::HandleMessage));
}

#[test]
fn nobody_is_alerted() {
    let mut m = TrainMap::new();
    m.insert(train("701Б", "06:10"));
    let mut waiting = User::new(1, Page::Waiting, "2024-05-01".to_string());
    waiting.waiting = Some(Waiting { train_number: "701Б".to_string(), amount: 0 });
    let mut other = User::new(2, Page::Waiting, "2024-05-01".to_string());
    other.waiting = Some(Waiting { train_number: "999".to_string(), amount: 0 });
    let idle = User::new(3, Page::ChooseRoute, "2024-05-01".to_string());
    assert!(chats_to_alert(&vec![waiting, other, idle], &m).is_empty());
}

#[test]
fn offset_passes_every_handled_message() {
    let batches = vec![
        vec![(3u32, UpdateKind::Message), (4, UpdateKind::CallbackQuery), (5, UpdateKind::Message)],
        vec![(4, UpdateKind::CallbackQuery), (6, UpdateKind::Other), (9, UpdateKind::Message)],
    ];
    let mut offset: i64 = 0;
    let mut handled: Vec<u32> = Vec::new();
    for batch in &batches {
        for &(id, kind) in batch {
            assert!(kind != UpdateKind::Message || i64::from(id) >= offset);
            let (next, action) = next_update(offset, id, kind);
            if action == UpdateAction::HandleMessage {
                handled.push(id);
            }
            offset = next;
        }
        assert!(handled.iter().all(|&id| i64::from(id) < offset));
    }
    assert_eq!(offset, 10);
}
