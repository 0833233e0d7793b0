use train_tickets::timetable::{
    check_rows_complete, cost_texts, text_of_matches, timetable_rows, trains_from_rows, RowCells,
    TicketCells, TimetableError,
};

fn strings(v: &[&str]) -> Vec<String> {
    v.iter().map(|s| s.to_string()).collect()
}

const PAGE: &str = r#"<html><body>
<div class="sch-table__body js-sort-body">
  <div class="sch-table__row">
    <span class="train-number">701Б</span>
    <span class="train-route">Минск —
       Орша</span>
    <div class="sch-table__station train-from-name">Минск-Пассажирский</div>
    <div class="sch-table__station train-to-name">Орша-Центральная</div>
    <div class="sch-table__time train-from-time">06:10</div>
    <div class="sch-table__time train-to-time">08:45</div>
    <div class="sch-table__tickets">
      <div class="sch-table__t-item">
        <div class="sch-table__t-name">Плацкартный</div>
        <a class="sch-table__t-quant js-train-modal dash"><span>12</span></a>
        <span class="ticket-cost">14,50</span>
      </div>
      <div class="sch-table__t-item">
        <div class="sch-table__t-name">Купе</div>
        <a class="sch-table__t-quant js-train-modal dash">много</a>
        <span class="ticket-cost">21,03</span>
      </div>
    </div>
  </div>
  <div class="sch-table__row"><span class="other">no train</span></div>
  <div class="sch-table__row">
    <span class="train-number">655Б</span>
    <div class="sch-table__time train-from-time">05:00</div>
  </div>
</div>
</body></html>"#;

#[test]
fn selection_text_joins_and_trims() {
    let matches = vec![strings(&["  Minsk ", "\n"]), Vec::new(), strings(&["a", "b"])];
    assert_eq!(text_of_matches(&matches), "Minsk   a b");
    assert_eq!(text_of_matches(&Vec::new()), "");
    assert_eq!(text_of_matches(&vec![strings(&[" ", "\t"])]), "");
}

#[test]
fn cost_texts_split_and_use_stops() {
    assert_eq!(cost_texts(" 12,50 7,3 "), strings(&["12.50", "7.3"]));
    assert_eq!(cost_texts(""), strings(&[""]));
    assert_eq!(cost_texts("1,5  2"), strings(&["1.5", "", "2"]));
}

#[test]
fn rows_of_a_page() {
    let rows = timetable_rows(PAGE).unwrap();
    assert_eq!(rows.len(), 2);
    let r = &rows[0];
    assert_eq!(r.number, "701Б");
    assert_eq!(r.route, "Минск —\n       Орша");
    assert_eq!(r.start_station, "Минск-Пассажирский");
    assert_eq!(r.end_station, "Орша-Центральная");
    assert_eq!(r.start_time, "06:10");
    assert_eq!(r.end_time, "08:45");
    assert_eq!(r.ticket_cost, "14,50 21,03");
    let t = r.tickets.as_ref().unwrap();
    assert_eq!(t.len(), 2);
    assert_eq!(t[0].seat_type, "Плацкартный");
    assert_eq!(t[0].available, "12");
    assert_eq!(t[1].seat_type, "Купе");
    assert_eq!(t[1].available, "много");
    let r2 = &rows[1];
    assert_eq!(r2.number, "655Б");
    assert_eq!(r2.start_time, "05:00");
    assert_eq!(r2.route, "");
    assert!(r2.tickets.is_none());
}

#[test]
fn page_without_table() {
    assert_eq!(timetable_rows("<html><body><p>nothing</p></body></html>").err(), Some(TimetableError::NoTable));
}

fn row(number: &str, start_time: &str, tickets: Option<Vec<(&str, &str)>>) -> RowCells {
    RowCells {
        number: number.to_string(),
        route: "R".to_string(),
        start_station: "A".to_string(),
        end_station: "B".to_string(),
        start_time: start_time.to_string(),
        end_time: "E".to_string(),
        ticket_cost: String::new(),
        tickets: tickets.map(|v| {
            v.into_iter()
                .map(|(s, a)| TicketCells { seat_type: s.to_string(), available: a.to_string() })
                .collect()
        }),
    }
}

#[test]
fn trains_of_rows() {
    let rows = vec![
        row("1", "10:00", Some(vec![("x", "5"), ("y", "abc")])),
        row("", "11:00", None),
        row("2", "09:00", Some(vec![])),
        row("1", "12:00", Some(vec![("z", "+255")])),
    ];
    let costs = vec![
        vec![1.5f32.to_bits(), 2.0f32.to_bits(), 9.0f32.to_bits()],
        vec![],
        vec![],
        vec![3.25f32.to_bits()],
    ];
    assert!(check_rows_complete(&rows, &costs));
    let m = trains_from_rows(&rows, &costs);
    assert_eq!(m.len(), 2);
    let one = m.get("1").unwrap();
    assert_eq!(one.start_time, "12:00");
    assert_eq!(one.tickets.len(), 1);
    assert_eq!(one.tickets[0].seat_type, "z");
    assert_eq!(one.tickets[0].amount, 255);
    assert_eq!(f32::from_bits(one.tickets[0].cost), 3.25);
    let two = m.get("2").unwrap();
    assert_eq!(two.route, "R");
    assert!(two.tickets.is_empty());
    assert!(m.get("").is_none());
}

#[test]
fn unknown_seat_counts_read_as_zero() {
    let rows = vec![row("7", "10:00", Some(vec![("x", "5"), ("y", "abc"), ("w", "300")]))];
    let costs = vec![vec![1.0f32.to_bits(), 2.0f32.to_bits(), 0]];
    let m = trains_from_rows(&rows, &costs);
    let t = &m.get("7").unwrap().tickets;
    assert_eq!(t[0].amount, 5);
    assert_eq!(t[1].amount, 0);
    assert_eq!(t[2].amount, 0);
    assert_eq!(f32::from_bits(t[1].cost), 2.0);
}

#[test]
fn incomplete_rows() {
    let missing_list = vec![row("1", "10:00", None)];
    assert!(!check_rows_complete(&missing_list, &vec![vec![]]));
    let too_few_costs = vec![row("1", "10:00", Some(vec![("x", "1"), ("y", "2")]))];
    assert!(!check_rows_complete(&too_few_costs, &vec![vec![0]]));
    assert!(!check_rows_complete(&too_few_costs, &vec![]));
    let blank_number = vec![row("", "10:00", None)];
    assert!(check_rows_complete(&blank_number, &vec![vec![]]));
}

#[test]
fn one_train_page_gives_its_map() {
    let page = "<div class='sch-table__body js-sort-body'><div></div><div><span class='train-number'>701Б</span><div class='sch-table__tickets'><div><div class='sch-table__t-name'>Сидячий</div><a class='sch-table__t-quant js-train-modal dash'>12</a><span class='ticket-cost'>9,48</span></div></div></div></div>";
    let rows = timetable_rows(page).unwrap();
    assert_eq!(rows.len(), 1);
    let costs: Vec<Vec<u32>> = rows
        .iter()
        .map(|r| cost_texts(&r.ticket_cost).iter().map(|t| t.parse::<f32>().unwrap_or(0.0).to_bits()).collect())
        .collect();
    assert!(check_rows_complete(&rows, &costs));
    let m = trains_from_rows(&rows, &costs);
    assert_eq!(m.len(), 1);
    let t = m.get("701Б").unwrap();
    assert_eq!(t.number, "701Б");
    assert_eq!(t.route, "");
    assert_eq!(t.start_time, "");
    assert_eq!(t.tickets.len(), 1);
    assert_eq!(t.tickets[0].seat_type, "Сидячий");
    assert_eq!(t.tickets[0].amount, 12);
    assert_eq!(f32::from_bits(t.tickets[0].cost), 9.48f32);
}
