//! The timetable page: the rows of its train table read through `scraper`,
//! the texts of their cells, and the map of trains the rows describe.

use vstd::prelude::*;
use crate::html::{
    Css, Node, StepView, child_elements, css_accepted, document_match_count, element_child_count,
    element_match_count, element_text_nodes, parse_document, parse_selector, select_in_document,
    select_in_element, text_nodes,
};
use crate::text::{
    joined, join, join_nonblank, nonblank_parts, parse_u8, parsed_u8, split_spaces, split_seq,
    commas_to_stops, replace_seq, trim, trim_seq, views,
};
use crate::train::{Ticket, TicketView, Train, TrainMap, TrainView, map_of_trains, ticket_views};

verus! {

/// The views of a vector of vectors of strings.
pub open spec fn nested_views(v: Seq<Vec<String>>) -> Seq<Seq<Seq<char>>> {
    v.map_values(|m: Vec<String>| views(m@))
}

/// The text of a selection whose matched elements have the text nodes
/// `matches`: each element's non-blank text nodes joined by spaces, those
/// joined by spaces, and the whole trimmed.
pub open spec fn selection_text(matches: Seq<Seq<Seq<char>>>) -> Seq<char> {
    trim_seq(joined(matches.map_values(|m: Seq<Seq<char>>| joined(nonblank_parts(m), " "@)), " "@))
}

/// The text nodes of each descendant that matches `css` under the element
/// at `path` of `document`, in document order.
pub open spec fn matched_text_nodes(
    document: Seq<char>,
    path: Seq<StepView>,
    css: Seq<char>,
) -> Seq<Seq<Seq<char>>> {
    Seq::new(
        element_match_count(document, path, css),
        |m: int| element_text_nodes(document, path.push(StepView::Within { css, index: m as nat })),
    )
}

/// The text the element at `path` of `document` shows for `css`.
pub open spec fn field_text(document: Seq<char>, path: Seq<StepView>, css: Seq<char>) -> Seq<char> {
    selection_text(matched_text_nodes(document, path, css))
}

/// The text of a selection from the text nodes of its matched elements.
pub fn text_of_matches(matches: &Vec<Vec<String>>) -> (r: String)
    ensures
        r@ == selection_text(nested_views(matches@)),
{
    let mut texts: Vec<String> = Vec::new();
    let n: usize = matches.len();
    let mut i: usize = 0;
    let ghost per_match = nested_views(matches@).map_values(
        |m: Seq<Seq<char>>| joined(nonblank_parts(m), " "@),
    );
    while i < n
        invariant
            i <= n,
            n == matches@.len(),
            per_match == nested_views(matches@).map_values(
                |m: Seq<Seq<char>>| joined(nonblank_parts(m), " "@),
            ),
            views(texts@) == per_match.subrange(0, i as int),
        decreases n - i,
    {
        let t = join_nonblank(&matches[i]);
        assert(nested_views(matches@)[i as int] == views(matches@[i as int]@));
        assert(per_match[i as int] == t@);
        let ghost before = views(texts@);
        texts.push(t);
        assert(views(texts@) =~= before.push(per_match[i as int]));
        assert(views(texts@) =~= per_match.subrange(0, i + 1));
        i = i + 1;
    }
    assert(per_match.subrange(0, n as int) =~= per_match);
    let all = join(&texts, " ");
    trim(all.as_str())
}

/// The text `node` shows for `css`.
fn selected_text(node: &Node, css: &Css) -> (r: String)
    ensures
        r@ == field_text(node.source(), node.path(), css.text()),
{
    let found = select_in_element(node, css);
    let mut matches: Vec<Vec<String>> = Vec::new();
    let n: usize = found.len();
    let ghost all = matched_text_nodes(node.source(), node.path(), css.text());
    let mut i: usize = 0;
    while i < n
        invariant
            i <= n,
            n == found@.len(),
            all.len() == n,
            all == matched_text_nodes(node.source(), node.path(), css.text()),
            forall|k: int|
                0 <= k < n ==> (#[trigger] found@[k]).source() == node.source() && found@[k].path()
                    == node.path().push(StepView::Within { css: css.text(), index: k as nat }),
            nested_views(matches@) == all.subrange(0, i as int),
        decreases n - i,
    {
        let texts = text_nodes(&found[i]);
        let ghost before = nested_views(matches@);
        assert(views(texts@) == all[i as int]);
        matches.push(texts);
        assert(nested_views(matches@) =~= before.push(all[i as int]));
        assert(nested_views(matches@) =~= all.subrange(0, i + 1));
        i = i + 1;
    }
    assert(all.subrange(0, n as int) =~= all);
    text_of_matches(&matches)
}

/// The selector of the train table.
pub open spec fn table_css() -> Seq<char> {
    "div.sch-table__body.js-sort-body"@
}

/// The selector of a train's number.
pub open spec fn number_css() -> Seq<char> {
    "span.train-number"@
}

/// The selector of a train's departure station.
pub open spec fn start_station_css() -> Seq<char> {
    "div.sch-table__station.train-from-name"@
}

/// The selector of a train's route.
pub open spec fn route_css() -> Seq<char> {
    "span.train-route"@
}

/// The selector of a train's arrival station.
pub open spec fn end_station_css() -> Seq<char> {
    "div.sch-table__station.train-to-name"@
}

/// The selector of a train's departure time.
pub open spec fn start_time_css() -> Seq<char> {
    "div.sch-table__time.train-from-time"@
}

/// The selector of a train's arrival time.
pub open spec fn end_time_css() -> Seq<char> {
    "div.sch-table__time.train-to-time"@
}

/// The selector of a train's ticket list.
pub open spec fn tickets_css() -> Seq<char> {
    "div.sch-table__tickets"@
}

/// The selector of a ticket entry's seat type.
pub open spec fn seat_type_css() -> Seq<char> {
    "div.sch-table__t-name"@
}

/// The selector of a ticket entry's number of free seats.
pub open spec fn available_css() -> Seq<char> {
    "a.sch-table__t-quant.js-train-modal.dash"@
}

/// The selector of a train's ticket prices.
pub open spec fn cost_css() -> Seq<char> {
    "span.ticket-cost"@
}

/// Whether `Selector::parse` accepts every selector of the timetable page.
pub open spec fn page_selectors_accepted() -> bool {
    &&& css_accepted(table_css())
    &&& css_accepted(number_css())
    &&& css_accepted(start_station_css())
    &&& css_accepted(route_css())
    &&& css_accepted(end_station_css())
    &&& css_accepted(start_time_css())
    &&& css_accepted(end_time_css())
    &&& css_accepted(tickets_css())
    &&& css_accepted(seat_type_css())
    &&& css_accepted(available_css())
    &&& css_accepted(cost_css())
}

/// The CSS selectors of the timetable page.
struct Selectors {
    table_body: Css,
    number: Css,
    start_station: Css,
    route: Css,
    end_station: Css,
    start_time: Css,
    end_time: Css,
    tickets: Css,
    seat_type: Css,
    available: Css,
    cost: Css,
}

impl Selectors {
    /// Every selector is the one of its field.
    spec fn fields_hold_page_selectors(&self) -> bool {
        &&& self.table_body.text() == table_css()
        &&& self.number.text() == number_css()
        &&& self.start_station.text() == start_station_css()
        &&& self.route.text() == route_css()
        &&& self.end_station.text() == end_station_css()
        &&& self.start_time.text() == start_time_css()
        &&& self.end_time.text() == end_time_css()
        &&& self.tickets.text() == tickets_css()
        &&& self.seat_type.text() == seat_type_css()
        &&& self.available.text() == available_css()
        &&& self.cost.text() == cost_css()
    }

    /// The selectors, if `Selector::parse` accepts every one of them.
    fn parse() -> (r: Option<Selectors>)
        ensures
            r is Some <==> page_selectors_accepted(),
            r matches Some(s) ==> s.fields_hold_page_selectors(),
    {
        let table_body = parse_selector("div.sch-table__body.js-sort-body")?;
        let number = parse_selector("span.train-number")?;
        let start_station = parse_selector("div.sch-table__station.train-from-name")?;
        let route = parse_selector("span.train-route")?;
        let end_station = parse_selector("div.sch-table__station.train-to-name")?;
        let start_time = parse_selector("div.sch-table__time.train-from-time")?;
        let end_time = parse_selector("div.sch-table__time.train-to-time")?;
        let tickets = parse_selector("div.sch-table__tickets")?;
        let seat_type = parse_selector("div.sch-table__t-name")?;
        let available = parse_selector("a.sch-table__t-quant.js-train-modal.dash")?;
        let cost = parse_selector("span.ticket-cost")?;
        Some(
            Selectors {
                table_body,
                number,
                start_station,
                route,
                end_station,
                start_time,
                end_time,
                tickets,
                seat_type,
                available,
                cost,
            },
        )
    }
}

/// The texts of one entry of a train's ticket list.
#[derive(Debug)]
pub struct TicketCells {
    pub seat_type: String,
    pub available: String,
}

/// The plain content of [`TicketCells`].
pub struct TicketCellsView {
    pub seat_type: Seq<char>,
    pub available: Seq<char>,
}

impl View for TicketCells {
    type V = TicketCellsView;

    open spec fn view(&self) -> TicketCellsView {
        TicketCellsView { seat_type: self.seat_type@, available: self.available@ }
    }
}

/// The plain content of a sequence of ticket entries.
pub open spec fn ticket_cells_views(v: Seq<TicketCells>) -> Seq<TicketCellsView> {
    v.map_values(|c: TicketCells| c@)
}

/// The texts of one row of the train table. `tickets` is `None` when the
/// row has no ticket list.
#[derive(Debug)]
pub struct RowCells {
    pub number: String,
    pub route: String,
    pub start_station: String,
    pub end_station: String,
    pub start_time: String,
    pub end_time: String,
    pub ticket_cost: String,
    pub tickets: Option<Vec<TicketCells>>,
}

/// The plain content of [`RowCells`].
pub struct RowView {
    pub number: Seq<char>,
    pub route: Seq<char>,
    pub start_station: Seq<char>,
    pub end_station: Seq<char>,
    pub start_time: Seq<char>,
    pub end_time: Seq<char>,
    pub ticket_cost: Seq<char>,
    pub tickets: Option<Seq<TicketCellsView>>,
}

impl View for RowCells {
    type V = RowView;

    open spec fn view(&self) -> RowView {
        RowView {
            number: self.number@,
            route: self.route@,
            start_station: self.start_station@,
            end_station: self.end_station@,
            start_time: self.start_time@,
            end_time: self.end_time@,
            ticket_cost: self.ticket_cost@,
            tickets: match self.tickets {
                Some(t) => Some(ticket_cells_views(t@)),
                None => None,
            },
        }
    }
}

/// The plain content of a sequence of rows.
pub open spec fn row_views(v: Seq<RowCells>) -> Seq<RowView> {
    v.map_values(|r: RowCells| r@)
}

/// The path of the train table: the first element that matches its selector.
pub open spec fn table_path() -> Seq<StepView> {
    seq![StepView::InDocument { css: table_css(), index: 0 }]
}

/// The path of the `k`-th row: the `k`-th child of the table.
pub open spec fn row_path(k: nat) -> Seq<StepView> {
    table_path().push(StepView::Child { index: k })
}

/// The path of the ticket list of the `k`-th row: its first match of the
/// ticket-list selector.
pub open spec fn list_path(k: nat) -> Seq<StepView> {
    row_path(k).push(StepView::Within { css: tickets_css(), index: 0 })
}

/// The path of the `j`-th entry of the ticket list of the `k`-th row.
pub open spec fn entry_path(k: nat, j: nat) -> Seq<StepView> {
    list_path(k).push(StepView::Child { index: j })
}

/// The texts of the `j`-th entry of the ticket list of the `k`-th row.
pub open spec fn entry_at(document: Seq<char>, k: nat, j: nat) -> TicketCellsView {
    TicketCellsView {
        seat_type: field_text(document, entry_path(k, j), seat_type_css()),
        available: field_text(document, entry_path(k, j), available_css()),
    }
}

/// The texts of the `k`-th row of the table of `document`: each field the
/// text the row shows for the field's selector; the entries of its first
/// ticket list, or `None` when it has none.
pub open spec fn row_at(document: Seq<char>, k: nat) -> RowView {
    RowView {
        number: field_text(document, row_path(k), number_css()),
        route: field_text(document, row_path(k), route_css()),
        start_station: field_text(document, row_path(k), start_station_css()),
        end_station: field_text(document, row_path(k), end_station_css()),
        start_time: field_text(document, row_path(k), start_time_css()),
        end_time: field_text(document, row_path(k), end_time_css()),
        ticket_cost: field_text(document, row_path(k), cost_css()),
        tickets: if element_match_count(document, row_path(k), tickets_css()) == 0 {
            None
        } else {
            Some(
                Seq::new(
                    element_child_count(document, list_path(k)),
                    |j: int| entry_at(document, k, j as nat),
                ),
            )
        },
    }
}

/// The rows before the `k`-th that have a train number, in order.
pub open spec fn rows_before(document: Seq<char>, k: nat) -> Seq<RowView>
    decreases k,
{
    if k == 0 {
        Seq::empty()
    } else {
        let earlier = rows_before(document, (k - 1) as nat);
        let row = row_at(document, (k - 1) as nat);
        if row.number.len() > 0 {
            earlier.push(row)
        } else {
            earlier
        }
    }
}

/// The rows of the train table of `document` that have a train number, in order.
pub open spec fn page_rows(document: Seq<char>) -> Seq<RowView> {
    rows_before(document, element_child_count(document, table_path()))
}

/// Why the timetable page could not be read.
#[derive(Debug, PartialEq, Eq, Structural, Clone, Copy)]
pub enum TimetableError {
    /// A selector of the page was refused by `Selector::parse`.
    BadSelector,
    /// The page has no train table.
    NoTable,
}

/// The texts of the entries of the ticket list `list` of the `k`-th row.
fn entries_of_list(list: &Node, selectors: &Selectors, Ghost(k): Ghost<nat>) -> (r: Vec<TicketCells>)
    requires
        selectors.fields_hold_page_selectors(),
        list.path() == list_path(k),
    ensures
        ticket_cells_views(r@) == Seq::new(
            element_child_count(list.source(), list_path(k)),
            |j: int| entry_at(list.source(), k, j as nat),
        ),
{
    let entries = child_elements(list);
    let ghost want = Seq::new(
        element_child_count(list.source(), list_path(k)),
        |j: int| entry_at(list.source(), k, j as nat),
    );
    let mut cells: Vec<TicketCells> = Vec::new();
    let m: usize = entries.len();
    let mut j: usize = 0;
    while j < m
        invariant
            j <= m,
            m == entries@.len(),
            m == want.len(),
            selectors.fields_hold_page_selectors(),
            list.path() == list_path(k),
            want == Seq::new(
                element_child_count(list.source(), list_path(k)),
                |j: int| entry_at(list.source(), k, j as nat),
            ),
            forall|q: int|
                0 <= q < m ==> (#[trigger] entries@[q]).source() == list.source() && entries@[q].path()
                    == list.path().push(StepView::Child { index: q as nat }),
            ticket_cells_views(cells@) == want.subrange(0, j as int),
        decreases m - j,
    {
        let entry = &entries[j];
        assert(entry.path() == entry_path(k, j as nat));
        let seat_type = selected_text(entry, &selectors.seat_type);
        let available = selected_text(entry, &selectors.available);
        let c = TicketCells { seat_type, available };
        let ghost before = ticket_cells_views(cells@);
        assert(c@ == want[j as int]);
        cells.push(c);
        assert(ticket_cells_views(cells@) =~= before.push(want[j as int]));
        assert(ticket_cells_views(cells@) =~= want.subrange(0, j + 1));
        j = j + 1;
    }
    assert(want.subrange(0, m as int) =~= want);
    cells
}

/// The rows of the train table of `document` that carry a train number, in
/// order: the table is the first element that matches its selector, its rows
/// are its children, and each field of a row is the text the row shows for
/// that field's selector (see [`page_rows`]).
pub fn timetable_rows(document: &str) -> (r: Result<Vec<RowCells>, TimetableError>)
    ensures
        r == Err::<Vec<RowCells>, TimetableError>(TimetableError::BadSelector) <==> !page_selectors_accepted(),
        page_selectors_accepted() ==> (r == Err::<Vec<RowCells>, TimetableError>(
            TimetableError::NoTable,
        ) <==> document_match_count(document@, table_css()) == 0),
        r matches Ok(rows) ==> row_views(rows@) == page_rows(document@),
{
    let selectors = match Selectors::parse() {
        Some(s) => s,
        None => return Err(TimetableError::BadSelector),
    };
    let page = parse_document(document);
    let bodies = select_in_document(&page, &selectors.table_body);
    if bodies.len() == 0 {
        return Err(TimetableError::NoTable);
    }
    let body = &bodies[0];
    assert(body.path() == table_path());
    let row_elements = child_elements(body);
    let ghost doc = document@;
    let mut rows: Vec<RowCells> = Vec::new();
    let n: usize = row_elements.len();
    let mut i: usize = 0;
    while i < n
        invariant
            i <= n,
            n == row_elements@.len(),
            n == element_child_count(doc, table_path()),
            doc == document@,
            selectors.fields_hold_page_selectors(),
            forall|q: int|
                0 <= q < n ==> (#[trigger] row_elements@[q]).source() == doc
                    && row_elements@[q].path() == row_path(q as nat),
            row_views(rows@) == rows_before(doc, i as nat),
        decreases n - i,
    {
        let row = &row_elements[i];
        let ghost k = i as nat;
        let ghost want = row_at(doc, k);
        assert(row.path() == row_path(k));
        let number = selected_text(row, &selectors.number);
        let ghost before = row_views(rows@);
        if number.as_str().unicode_len() > 0 {
            let start_station = selected_text(row, &selectors.start_station);
            let route = selected_text(row, &selectors.route);
            let end_station = selected_text(row, &selectors.end_station);
            let start_time = selected_text(row, &selectors.start_time);
            let end_time = selected_text(row, &selectors.end_time);
            let lists = select_in_element(row, &selectors.tickets);
            let ticket_cost = selected_text(row, &selectors.cost);
            let tickets = if lists.len() == 0 {
                None
            } else {
                assert(lists@[0].path() == list_path(k));
                Some(entries_of_list(&lists[0], &selectors, Ghost(k)))
            };
            let cells = RowCells {
                number,
                route,
                start_station,
                end_station,
                start_time,
                end_time,
                ticket_cost,
                tickets,
            };
            assert(cells@ == want);
            rows.push(cells);
            assert(row_views(rows@) =~= before.push(want));
        }
        assert(row_views(rows@) == rows_before(doc, (i + 1) as nat));
        i = i + 1;
    }
    Ok(rows)
}

/// The cost texts of a ticket-cost cell: the trimmed cell split at single
/// spaces, commas turned into full stops.
pub open spec fn cost_pieces(cell: Seq<char>) -> Seq<Seq<char>> {
    split_seq(trim_seq(cell), ' ').map_values(|p: Seq<char>| replace_seq(p, ',', '.'))
}

/// The cost texts of a ticket-cost cell, one per ticket in order.
pub fn cost_texts(cell: &str) -> (r: Vec<String>)
    ensures
        views(r@) == cost_pieces(cell@),
{
    let trimmed = trim(cell);
    let pieces = split_spaces(trimmed.as_str());
    let mut r: Vec<String> = Vec::new();
    let n: usize = pieces.len();
    let mut i: usize = 0;
    while i < n
        invariant
            i <= n,
            n == pieces@.len(),
            views(pieces@) == split_seq(trim_seq(cell@), ' '),
            views(r@) == cost_pieces(cell@).subrange(0, i as int),
        decreases n - i,
    {
        let c = commas_to_stops(pieces[i].as_str());
        let ghost before = views(r@);
        r.push(c);
        assert(views(pieces@)[i as int] == pieces@[i as int]@);
        assert(views(r@) =~= before.push(cost_pieces(cell@)[i as int]));
        assert(views(r@) =~= cost_pieces(cell@).subrange(0, i + 1));
        i = i + 1;
    }
    assert(cost_pieces(cell@).subrange(0, n as int) =~= cost_pieces(cell@));
    r
}


/// The number of seats a ticket entry shows: its text read as a `u8`, or
/// zero when the text is not one.
pub open spec fn seats_shown(available: Seq<char>) -> u8 {
    match parsed_u8(available) {
        Some(a) => a,
        None => 0,
    }
}

/// The ticket an entry of a ticket list describes, with the cost given for it.
pub open spec fn ticket_of_cells(cells: TicketCellsView, cost: u32) -> TicketView {
    TicketView { seat_type: cells.seat_type, amount: seats_shown(cells.available), cost }
}

/// The ticket entries of a row; none when it has no ticket list.
pub open spec fn row_tickets(row: RowView) -> Seq<TicketCellsView> {
    match row.tickets {
        Some(t) => t,
        None => Seq::empty(),
    }
}

/// The train a row describes, its `j`-th ticket costing `costs[j]`.
pub open spec fn train_of_row(row: RowView, costs: Seq<u32>) -> TrainView {
    TrainView {
        number: row.number,
        route: row.route,
        start_station: row.start_station,
        end_station: row.end_station,
        start_time: row.start_time,
        end_time: row.end_time,
        tickets: Seq::new(
            row_tickets(row).len(),
            |j: int| ticket_of_cells(row_tickets(row)[j], costs[j]),
        ),
    }
}

/// A row can be read with the costs `costs`: a row with a train number has
/// a ticket list, and a cost for each of its tickets.
pub open spec fn row_complete(row: RowView, costs: Seq<u32>) -> bool {
    row.number.len() > 0 ==> (row.tickets is Some && row_tickets(row).len() <= costs.len())
}

/// The views of a vector of cost lists.
pub open spec fn cost_views(costs: Seq<Vec<u32>>) -> Seq<Seq<u32>> {
    costs.map_values(|c: Vec<u32>| c@)
}

/// Every row can be read with its costs.
pub open spec fn rows_complete(rows: Seq<RowView>, costs: Seq<Seq<u32>>) -> bool {
    &&& rows.len() == costs.len()
    &&& forall|i: int| 0 <= i < rows.len() ==> row_complete(#[trigger] rows[i], costs[i])
}

/// The trains of the rows that carry a train number, in order.
pub open spec fn listed_trains(rows: Seq<RowView>, costs: Seq<Seq<u32>>) -> Seq<TrainView>
    decreases rows.len(),
{
    if rows.len() == 0 {
        Seq::empty()
    } else {
        let earlier = listed_trains(rows.drop_last(), costs.drop_last());
        if rows.last().number.len() > 0 {
            earlier.push(train_of_row(rows.last(), costs.last()))
        } else {
            earlier
        }
    }
}

/// Whether every row can be read with its costs.
pub fn check_rows_complete(rows: &Vec<RowCells>, costs: &Vec<Vec<u32>>) -> (r: bool)
    ensures
        r == rows_complete(row_views(rows@), cost_views(costs@)),
{
    if rows.len() != costs.len() {
        return false;
    }
    let n: usize = rows.len();
    let mut i: usize = 0;
    while i < n
        invariant
            i <= n,
            n == rows@.len(),
            n == costs@.len(),
            forall|k: int| 0 <= k < i ==> row_complete(#[trigger] row_views(rows@)[k], cost_views(costs@)[k]),
        decreases n - i,
    {
        let row = &rows[i];
        assert(row_views(rows@)[i as int] == rows@[i as int]@);
        assert(cost_views(costs@)[i as int] == costs@[i as int]@);
        if row.number.as_str().unicode_len() > 0 {
            match &row.tickets {
                None => return false,
                Some(t) => {
                    assert(row_tickets(row_views(rows@)[i as int]).len() == t@.len());
                    if t.len() > costs[i].len() {
                        return false;
                    }
                },
            }
        }
        i = i + 1;
    }
    true
}

/// The ticket list of a complete row.
fn tickets_of_row(row: &RowCells, costs: &Vec<u32>) -> (r: Vec<Ticket>)
    requires
        row.tickets is Some,
        row_tickets(row@).len() <= costs@.len(),
    ensures
        ticket_views(r@) == train_of_row(row@, costs@).tickets,
{
    let mut r: Vec<Ticket> = Vec::new();
    match &row.tickets {
        None => r,
        Some(cells) => {
            let m: usize = cells.len();
            let mut j: usize = 0;
            while j < m
                invariant
                    j <= m,
                    m == cells@.len(),
                    ticket_cells_views(cells@) == row_tickets(row@),
                    m <= costs@.len(),
                    ticket_views(r@) == train_of_row(row@, costs@).tickets.subrange(0, j as int),
                decreases m - j,
            {
                let amount = match parse_u8(cells[j].available.as_str()) {
                    Some(a) => a,
                    None => 0,
                };
                let t = Ticket::new(cells[j].seat_type.clone(), amount, costs[j]);
                let ghost before = ticket_views(r@);
                r.push(t);
                assert(ticket_views(r@) =~= before.push(t@));
                assert(ticket_views(r@) =~= train_of_row(row@, costs@).tickets.subrange(0, j + 1));
                j = j + 1;
            }
            assert(train_of_row(row@, costs@).tickets.subrange(0, m as int) =~= train_of_row(
                row@,
                costs@,
            ).tickets);
            r
        },
    }
}

/// The map of the trains of the table: each row with a train number gives
/// the train it describes, its `j`-th ticket costing `costs[i][j]`, keyed by
/// its number; a later row replaces an earlier one with the same number.
pub fn trains_from_rows(rows: &Vec<RowCells>, costs: &Vec<Vec<u32>>) -> (r: TrainMap)
    requires
        rows_complete(row_views(rows@), cost_views(costs@)),
    ensures
        r@ == map_of_trains(listed_trains(row_views(rows@), cost_views(costs@))),
{
    let mut map = TrainMap::new();
    let n: usize = rows.len();
    let mut i: usize = 0;
    let ghost cv = cost_views(costs@);
    let ghost rv = row_views(rows@);
    assert(rv.subrange(0, 0) =~= Seq::<RowView>::empty());
    while i < n
        invariant
            i <= n,
            n == rows@.len(),
            n == costs@.len(),
            cv == cost_views(costs@),
            rv == row_views(rows@),
            rows_complete(rv, cv),
            map@ == map_of_trains(listed_trains(rv.subrange(0, i as int), cv.subrange(0, i as int))),
        decreases n - i,
    {
        let ghost prev_rows = rv.subrange(0, i as int);
        let ghost prev_costs = cv.subrange(0, i as int);
        assert(rv.subrange(0, i + 1).drop_last() =~= prev_rows);
        assert(rv[i as int] == rows@[i as int]@);
        assert(cv.subrange(0, i + 1).drop_last() =~= prev_costs);
        assert(cv[i as int] == costs@[i as int]@);
        let row = &rows[i];
        if row.number.as_str().unicode_len() > 0 {
            assert(row_complete(rv[i as int], cv[i as int]));
            let tickets = tickets_of_row(row, &costs[i]);
            let train = Train::new(
                row.number.clone(),
                row.route.clone(),
                row.start_station.clone(),
                row.end_station.clone(),
                row.start_time.clone(),
                row.end_time.clone(),
                tickets,
            );
            assert(train@ == train_of_row(rv[i as int], cv[i as int]));
            map.insert(train);
            let ghost listed = listed_trains(prev_rows, prev_costs).push(train@);
            assert(listed.drop_last() =~= listed_trains(prev_rows, prev_costs));
        }
        i = i + 1;
    }
    assert(rv.subrange(0, n as int) =~= rv);
    assert(cv.subrange(0, n as int) =~= cv);
    map
}


/// The train map of a table holds one train for each train number of its
/// rows, keyed by that number; the train under a number is the one the last
/// row with that number describes.
#[verifier::spinoff_prover]
#[verifier::rlimit(50)]
pub proof fn lemma_table_map(rows: Seq<RowView>, costs: Seq<Seq<u32>>, k: Seq<char>)
    requires
        rows.len() == costs.len(),
    ensures
        map_of_trains(listed_trains(rows, costs)).dom().contains(k) <==> (k.len() > 0 && exists|i: int|
            0 <= i < rows.len() && (#[trigger] rows[i]).number == k),
        forall|i: int|
            0 <= i < rows.len() && k.len() > 0 && (#[trigger] rows[i]).number == k && (forall|j: int|
                i < j < rows.len() ==> (#[trigger] rows[j]).number != k) ==> map_of_trains(
                listed_trains(rows, costs),
            )[k] == train_of_row(rows[i], costs[i]),
    decreases rows.len(),
{
    if rows.len() > 0 {
        let init = rows.drop_last();
        let cinit = costs.drop_last();
        lemma_table_map(init, cinit, k);
        let last: int = rows.len() - 1;
        let prev = listed_trains(init, cinit);
        let m_prev = map_of_trains(prev);
        let t = train_of_row(rows[last], costs[last]);
        let m = map_of_trains(listed_trains(rows, costs));
        if rows[last].number.len() > 0 {
            assert(listed_trains(rows, costs) == prev.push(t));
            assert(prev.push(t).drop_last() =~= prev);
            assert(m == m_prev.insert(t.number, t));
        } else {
            assert(m == m_prev);
        }
        assert(m.dom().contains(k) <==> (k.len() > 0 && exists|i: int|
            0 <= i < rows.len() && (#[trigger] rows[i]).number == k)) by {
            if exists|i: int| 0 <= i < init.len() && init[i].number == k {
                let i = choose|i: int| 0 <= i < init.len() && init[i].number == k;
                assert(rows[i] == init[i]);
            }
            if k.len() > 0 && exists|i: int| 0 <= i < rows.len() && rows[i].number == k {
                let i = choose|i: int| 0 <= i < rows.len() && rows[i].number == k;
                if i < last {
                    assert(init[i] == rows[i]);
                }
            }
        }
        assert forall|i: int|
            0 <= i < rows.len() && k.len() > 0 && (#[trigger] rows[i]).number == k && (forall|j: int|
                i < j < rows.len() ==> (#[trigger] rows[j]).number != k) implies m[k] == train_of_row(
            rows[i],
            costs[i],
        ) by {
            if i < last {
                assert(init[i] == rows[i]);
                assert(cinit[i] == costs[i]);
                assert(rows[last].number != k);
                assert forall|j: int| i < j < init.len() implies (#[trigger] init[j]).number != k by {
                    assert(init[j] == rows[j]);
                }
            }
        }
    }
}


/// The text of a selection neither starts nor ends with whitespace.
pub proof fn lemma_selection_text_trimmed(matches: Seq<Seq<Seq<char>>>)
    ensures
        trim_seq(selection_text(matches)) == selection_text(matches),
{
    crate::text::lemma_trim_idempotent(
        joined(matches.map_values(|m: Seq<Seq<char>>| joined(nonblank_parts(m), " "@)), " "@),
    );
}


/// The train the table's map holds under a number is built from the last row
/// with that number: every text field is that row's field of the same name,
/// and its tickets are the row's ticket entries in order, each with the
/// entry's seat type, the entry's free-seat count read as a `u8` (zero when
/// the text is not one), and the price given for it.
pub proof fn lemma_table_train_fields(rows: Seq<RowView>, costs: Seq<Seq<u32>>, i: int)
    requires
        rows.len() == costs.len(),
        0 <= i < rows.len(),
        rows[i].number.len() > 0,
        forall|j: int| i < j < rows.len() ==> (#[trigger] rows[j]).number != rows[i].number,
    ensures
        ({
            let m = map_of_trains(listed_trains(rows, costs));
            let k = rows[i].number;
            let row = rows[i];
            let cells = match row.tickets {
                Some(t) => t,
                None => Seq::<TicketCellsView>::empty(),
            };
            &&& m.dom().contains(k)
            &&& m[k].number == row.number
            &&& m[k].route == row.route
            &&& m[k].start_station == row.start_station
            &&& m[k].end_station == row.end_station
            &&& m[k].start_time == row.start_time
            &&& m[k].end_time == row.end_time
            &&& m[k].tickets.len() == cells.len()
            &&& forall|j: int|
                0 <= j < cells.len() ==> {
                    &&& (#[trigger] m[k].tickets[j]).seat_type == cells[j].seat_type
                    &&& m[k].tickets[j].cost == costs[i][j]
                    &&& (parsed_u8(cells[j].available) matches Some(a) ==> m[k].tickets[j].amount == a)
                    &&& (parsed_u8(cells[j].available) is None ==> m[k].tickets[j].amount == 0)
                }
        }),
{
    let k = rows[i].number;
    lemma_table_map(rows, costs, k);
    assert(exists|q: int| 0 <= q < rows.len() && (#[trigger] rows[q]).number == k) by {
        assert(rows[i].number == k);
    }
}

/// Every row of the table with a train number is read, and only those: a
/// child of the table whose number text is not empty is among the page's
/// rows, and each of the page's rows is such a child.
pub proof fn lemma_page_rows_cover_table(document: Seq<char>)
    ensures
        forall|k: nat|
            k < element_child_count(document, table_path()) && (#[trigger] row_at(document, k)).number.len()
                > 0 ==> page_rows(document).contains(row_at(document, k)),
        forall|q: int|
            #![trigger page_rows(document)[q]]
            0 <= q < page_rows(document).len() ==> exists|k: nat|
                k < element_child_count(document, table_path()) && (#[trigger] row_at(document, k))
                    == page_rows(document)[q] && row_at(document, k).number.len() > 0,
{
    lemma_rows_before_cover(document, element_child_count(document, table_path()));
}

proof fn lemma_rows_before_cover(document: Seq<char>, n: nat)
    ensures
        forall|k: nat|
            k < n && (#[trigger] row_at(document, k)).number.len() > 0 ==> rows_before(
                document,
                n,
            ).contains(row_at(document, k)),
        forall|q: int|
            #![trigger rows_before(document, n)[q]]
            0 <= q < rows_before(document, n).len() ==> exists|k: nat|
                k < n && (#[trigger] row_at(document, k)) == rows_before(document, n)[q] && row_at(
                    document,
                    k,
                ).number.len() > 0,
    decreases n,
{
    if n > 0 {
        let m = (n - 1) as nat;
        lemma_rows_before_cover(document, m);
        let earlier = rows_before(document, m);
        let all = rows_before(document, n);
        let last = row_at(document, m);
        assert forall|k: nat|
            k < n && (#[trigger] row_at(document, k)).number.len() > 0 implies all.contains(
            row_at(document, k),
        ) by {
            if k < m {
                let q = choose|q: int| 0 <= q < earlier.len() && earlier[q] == row_at(document, k);
                if last.number.len() > 0 {
                    assert(all[q] == earlier[q]);
                }
            } else {
                assert(all[all.len() - 1] == last);
            }
        }
        assert forall|q: int| #![trigger all[q]] 0 <= q < all.len() implies exists|k: nat|
            k < n && (#[trigger] row_at(document, k)) == all[q] && row_at(document, k).number.len()
                > 0 by {
            if q < earlier.len() {
                assert(all[q] == earlier[q]);
                let k = choose|k: nat|
                    k < m && (#[trigger] row_at(document, k)) == earlier[q] && row_at(
                        document,
                        k,
                    ).number.len() > 0;
                assert(k < n);
            } else {
                assert(all[q] == last);
                assert(row_at(document, m) == all[q]);
            }
        }
    }
}

} // verus!
