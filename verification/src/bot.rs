//! The decisions of the bot: the keyboard of trains it offers, how it answers
//! a message, how it moves through the stream of updates, and whom it alerts.

use vstd::prelude::*;
use crate::text::{chars_le, lemma_chars_le_total, lemma_chars_le_transitive, same_text, str_le};
use crate::train::{
    Train, TrainMap, TrainView, lemma_map_of_trains_lookup, map_of_trains, numbers_distinct,
};
use crate::user::User;

verus! {

/// A button of an inline keyboard: its label and the data it sends back.
#[derive(Debug)]
pub struct Button {
    pub text: String,
    pub callback_data: Option<String>,
}

/// The label of a train's button: number, then departure station and time,
/// then arrival station and time.
pub open spec fn button_text(t: TrainView) -> Seq<char> {
    t.number + " "@ + t.start_station + "("@ + t.start_time + ") -- "@ + t.end_station + "("@
        + t.end_time + ")"@
}

/// The data a train's button sends back: the action and the train number.
pub open spec fn button_data(t: TrainView) -> Seq<char> {
    "ChooseAction|"@ + t.number
}

/// The button that offers `train`.
pub fn get_button(train: &Train) -> (r: Button)
    ensures
        r.text@ == button_text(train@),
        r.callback_data matches Some(d) && d@ == button_data(train@),
{
    let mut text = train.number.clone();
    text.append(" ");
    text.append(train.start_station.as_str());
    text.append("(");
    text.append(train.start_time.as_str());
    text.append(") -- ");
    text.append(train.end_station.as_str());
    text.append("(");
    text.append(train.end_time.as_str());
    text.append(")");
    let mut data = String::from_str("ChooseAction|");
    data.append(train.number.as_str());
    Button { text, callback_data: Some(data) }
}

/// The positions of `order` into `trains` are sorted by departure time.
pub open spec fn sorted_by_start(trains: Seq<TrainView>, order: Seq<int>) -> bool {
    forall|i: int, j: int|
        0 <= i <= j < order.len() ==> chars_le(
            trains[#[trigger] order[i]].start_time,
            trains[#[trigger] order[j]].start_time,
        )
}

/// The positions of `trains` in departure order; trains that leave at the
/// same time keep the order in which the map holds them.
fn departure_order(map: &TrainMap) -> (r: Vec<usize>)
    ensures
        r@.len() == map.entries().len(),
        r@.no_duplicates(),
        forall|i: int| 0 <= i < r@.len() ==> #[trigger] r@[i] < map.entries().len(),
        forall|e: usize| e < map.entries().len() ==> r@.contains(e),
        sorted_by_start(map.entries(), r@.map_values(|x: usize| x as int)),
{
    let n: usize = map.len();
    let ghost trains = map.entries();
    let mut order: Vec<usize> = Vec::new();
    let mut i: usize = 0;
    while i < n
        invariant
            i <= n,
            n == trains.len(),
            trains == map.entries(),
            order@.len() == i,
            order@.no_duplicates(),
            forall|k: int| 0 <= k < order@.len() ==> #[trigger] order@[k] < i,
            forall|e: usize| e < i ==> order@.contains(e),
            sorted_by_start(trains, order@.map_values(|x: usize| x as int)),
        decreases n - i,
    {
        let key = &map.train_at(i).start_time;
        let mut p: usize = 0;
        while p < order.len() && str_le(map.train_at(order[p]).start_time.as_str(), key.as_str())
            invariant
                p <= order@.len(),
                order@.len() == i,
                i < n,
                n == trains.len(),
                trains == map.entries(),
                key@ == trains[i as int].start_time,
                forall|k: int| 0 <= k < order@.len() ==> #[trigger] order@[k] < i,
                forall|q: int|
                    0 <= q < p ==> chars_le(trains[order@[q] as int].start_time, key@),
            decreases order@.len() - p,
        {
            p = p + 1;
        }
        let ghost before = order@;
        order.insert(p, i);
        proof {
            let keyed = order@.map_values(|x: usize| x as int);
            let old_keyed = before.map_values(|x: usize| x as int);
            assert(order@ =~= before.subrange(0, p as int).push(i).add(
                before.subrange(p as int, before.len() as int),
            ));
            if p < before.len() {
                lemma_chars_le_total(trains[before[p as int] as int].start_time, key@);
            }
            assert forall|a: int, b: int| 0 <= a <= b < keyed.len() implies chars_le(
                trains[#[trigger] keyed[a]].start_time,
                trains[#[trigger] keyed[b]].start_time,
            ) by {
                let ka = trains[keyed[a]].start_time;
                let kb = trains[keyed[b]].start_time;
                if a < p && b < p {
                    assert(keyed[a] == old_keyed[a] && keyed[b] == old_keyed[b]);
                } else if a < p && b == p {
                    assert(keyed[a] == old_keyed[a]);
                } else if a < p && b > p {
                    assert(keyed[a] == old_keyed[a] && keyed[b] == old_keyed[b - 1]);
                    assert(chars_le(ka, key@));
                    assert(chars_le(trains[old_keyed[p as int]].start_time, kb));
                    lemma_chars_le_transitive(ka, key@, trains[old_keyed[p as int]].start_time);
                    lemma_chars_le_transitive(ka, trains[old_keyed[p as int]].start_time, kb);
                } else if a == p && b == p {
                    lemma_chars_le_total(ka, ka);
                } else if a == p && b > p {
                    assert(keyed[b] == old_keyed[b - 1]);
                    assert(chars_le(trains[old_keyed[p as int]].start_time, kb));
                    lemma_chars_le_transitive(key@, trains[old_keyed[p as int]].start_time, kb);
                } else {
                    assert(keyed[a] == old_keyed[a - 1] && keyed[b] == old_keyed[b - 1]);
                }
            }
            assert forall|e: usize| e < i + 1 implies order@.contains(e) by {
                if e < i {
                    assert(before.contains(e));
                    let k = choose|k: int| 0 <= k < before.len() && before[k] == e;
                    if k < p {
                        assert(order@[k] == e);
                    } else {
                        assert(order@[k + 1] == e);
                    }
                } else {
                    assert(order@[p as int] == e);
                }
            }
            assert forall|a: int, b: int|
                0 <= a < order@.len() && 0 <= b < order@.len() && a != b implies order@[a]
                != order@[b] by {
                if a != p && b != p {
                    let a0 = if a < p { a } else { a - 1 };
                    let b0 = if b < p { b } else { b - 1 };
                    assert(order@[a] == before[a0] && order@[b] == before[b0]);
                } else if a == p {
                    let b0 = if b < p { b } else { b - 1 };
                    assert(order@[b] == before[b0]);
                } else {
                    let a0 = if a < p { a } else { a - 1 };
                    assert(order@[a] == before[a0]);
                }
            }
        }
        i = i + 1;
    }
    order
}


/// `button` offers the train `t`.
pub open spec fn button_offers(button: Button, t: TrainView) -> bool {
    &&& button.text@ == button_text(t)
    &&& button.callback_data matches Some(d) && d@ == button_data(t)
}

/// The keyboard `rows` offers the trains of `m` in departure order, one per
/// row after an empty first row; `keys` are the train numbers of the rows
/// after the first.
pub open spec fn offers_in_departure_order(
    m: Map<Seq<char>, TrainView>,
    rows: Seq<Vec<Button>>,
    keys: Seq<Seq<char>>,
) -> bool {
    &&& rows.len() == keys.len() + 1
    &&& rows[0]@.len() == 0
    &&& keys.no_duplicates()
    &&& forall|k: Seq<char>| m.dom().contains(k) <==> keys.contains(k)
    &&& forall|i: int|
        0 <= i < keys.len() ==> (#[trigger] rows[i + 1])@.len() == 1 && button_offers(
            rows[i + 1]@[0],
            m[keys[i]],
        )
    &&& forall|i: int, j: int|
        0 <= i <= j < keys.len() ==> chars_le(
            m[#[trigger] keys[i]].start_time,
            m[#[trigger] keys[j]].start_time,
        )
}

/// The keyboard that offers the trains of `map`: an empty first row, then
/// one row per train holding its button, the trains in departure order.
pub fn train_keyboard(map: &TrainMap) -> (r: Vec<Vec<Button>>)
    ensures
        r@.len() == map@.dom().len() + 1,
        exists|keys: Seq<Seq<char>>| offers_in_departure_order(map@, r@, keys),
{
    let n: usize = map.len();
    let ghost trains = map.entries();
    let order = departure_order(map);
    let ghost keys = order@.map_values(|x: usize| trains[x as int].number);
    let mut rows: Vec<Vec<Button>> = Vec::new();
    rows.push(Vec::new());
    let mut i: usize = 0;
    while i < n
        invariant
            i <= n,
            n == trains.len(),
            order@.len() == n,
            trains == map.entries(),
            numbers_distinct(trains),
            map@ == map_of_trains(trains),
            forall|k: int| 0 <= k < order@.len() ==> #[trigger] order@[k] < n,
            keys == order@.map_values(|x: usize| trains[x as int].number),
            rows@.len() == i + 1,
            rows@[0]@.len() == 0,
            forall|k: int|
                0 <= k < i ==> (#[trigger] rows@[k + 1])@.len() == 1 && button_offers(
                    rows@[k + 1]@[0],
                    trains[order@[k] as int],
                ),
        decreases n - i,
    {
        let b = get_button(map.train_at(order[i]));
        rows.push(vec![b]);
        i = i + 1;
    }
    proof {
        assert forall|k: int| 0 <= k < keys.len() implies map@[#[trigger] keys[k]] == trains[order@[k] as int] by {
            lemma_map_of_trains_lookup(trains, keys[k]);
        }
        assert forall|a: int, b: int| 0 <= a < keys.len() && 0 <= b < keys.len() && a != b implies keys[a] != keys[b] by {
            assert(order@[a] != order@[b]);
        }
        assert forall|k: Seq<char>| map@.dom().contains(k) <==> keys.contains(k) by {
            lemma_map_of_trains_lookup(trains, k);
            if map@.dom().contains(k) {
                let e = choose|e: int| 0 <= e < trains.len() && trains[e].number == k;
                assert(order@.contains(e as usize));
                let q = choose|q: int| 0 <= q < order@.len() && order@[q] == e as usize;
                assert(keys[q] == k);
            }
            if keys.contains(k) {
                let q = choose|q: int| 0 <= q < keys.len() && keys[q] == k;
                assert(trains[order@[q] as int].number == k);
            }
        }
        let ordered = order@.map_values(|x: usize| x as int);
        assert forall|a: int, b: int| 0 <= a <= b < keys.len() implies chars_le(
            map@[#[trigger] keys[a]].start_time,
            map@[#[trigger] keys[b]].start_time,
        ) by {
            assert(ordered[a] == order@[a] as int && ordered[b] == order@[b] as int);
        }
        assert(offers_in_departure_order(map@, rows@, keys));
    }
    rows
}


/// The text sent above the keyboard of trains.
pub open spec fn choose_train_prompt() -> Seq<char> {
    "Выберите поезд:"@
}

/// The text sent to a message that is not the start command.
pub open spec fn start_hint() -> Seq<char> {
    "Напишите /start, чтобы начать"@
}

/// The text sent above the keyboard of trains.
pub fn choose_train_prompt_text() -> (r: String)
    ensures
        r@ == choose_train_prompt(),
{
    String::from_str("Выберите поезд:")
}

/// The text sent to a message that is not the start command.
pub fn start_hint_text() -> (r: String)
    ensures
        r@ == start_hint(),
{
    String::from_str("Напишите /start, чтобы начать")
}

/// The text of an alert that tickets have appeared.
pub open spec fn ticket_alert() -> Seq<char> {
    "Появился билет!!"@
}

/// The text of an alert that tickets have appeared.
pub fn ticket_alert_text() -> (r: String)
    ensures
        r@ == ticket_alert(),
{
    String::from_str("Появился билет!!")
}

/// How the bot answers a message.
#[derive(Debug, PartialEq, Eq, Structural, Clone, Copy)]
pub enum MessageReply {
    /// Send the keyboard of trains.
    TrainList,
    /// Send the hint to start.
    StartHint,
    /// Send nothing.
    Nothing,
}

/// The answer to a message with text `text`: the keyboard of trains for the
/// start command, the hint to start for any other text, and nothing for a
/// message without text.
pub open spec fn reply_for(text: Option<Seq<char>>) -> MessageReply {
    match text {
        Some(t) => if t == "/start"@ {
            MessageReply::TrainList
        } else {
            MessageReply::StartHint
        },
        None => MessageReply::Nothing,
    }
}

/// How the bot answers a message with text `text`.
pub fn reply_to_message(text: Option<&str>) -> (r: MessageReply)
    ensures
        r == reply_for(
            match text {
                Some(t) => Some(t@),
                None => None,
            },
        ),
{
    match text {
        Some(t) => if same_text(t, "/start") {
            MessageReply::TrainList
        } else {
            MessageReply::StartHint
        },
        None => MessageReply::Nothing,
    }
}

/// The kinds of update the bot tells apart.
#[derive(Debug, PartialEq, Eq, Structural, Clone, Copy)]
pub enum UpdateKind {
    Message,
    CallbackQuery,
    Other,
}

/// What the bot does with an update.
#[derive(Debug, PartialEq, Eq, Structural, Clone, Copy)]
pub enum UpdateAction {
    HandleMessage,
    HandleCallbackQuery,
    Ignore,
}

/// The offset of the next request for updates and the handling of one
/// update: a message is handled and moves the offset just past its id; a
/// callback query is handled and leaves the offset as it was; any other
/// update is ignored and leaves it too.
pub fn next_update(offset: i64, update_id: u32, kind: UpdateKind) -> (r: (i64, UpdateAction))
    requires
        kind == UpdateKind::Message ==> update_id < u32::MAX,
    ensures
        kind == UpdateKind::Message ==> r.0 == update_id + 1 && r.1 == UpdateAction::HandleMessage,
        kind == UpdateKind::CallbackQuery ==> r == (offset, UpdateAction::HandleCallbackQuery),
        kind == UpdateKind::Other ==> r == (offset, UpdateAction::Ignore),
        r.0 == offset_after(offset as int, seq![(update_id, kind)]),
{
    proof {
        let b = seq![(update_id, kind)];
        assert(b.drop_last() =~= Seq::<(u32, UpdateKind)>::empty());
        assert(offset_after(offset as int, b.drop_last()) == offset as int);
        assert(b.last() == (update_id, kind));
    }
    match kind {
        UpdateKind::Message => ((update_id + 1) as i64, UpdateAction::HandleMessage),
        UpdateKind::CallbackQuery => (offset, UpdateAction::HandleCallbackQuery),
        UpdateKind::Other => (offset, UpdateAction::Ignore),
    }
}

/// The chats to alert that tickets have appeared on the train they wait for.
///
/// A user waiting for a train of `trains` is alerted when the count of that
/// train's tickets exceeds the amount it waits for; the count starts at zero
/// and no ticket is ever added to it, so it never exceeds an amount and no
/// chat is alerted.
pub fn chats_to_alert(users: &Vec<User>, trains: &TrainMap) -> (r: Vec<i64>)
    ensures
        r@ == Seq::<i64>::empty(),
{
    let mut r: Vec<i64> = Vec::new();
    let n: usize = users.len();
    let mut i: usize = 0;
    while i < n
        invariant
            i <= n,
            n == users@.len(),
            r@ == Seq::<i64>::empty(),
        decreases n - i,
    {
        let user = &users[i];
        if let Some(w) = &user.waiting {
            if let Some(_train) = trains.get(w.train_number.as_str()) {
                let counted: u64 = 0;
                if counted > w.amount {
                    r.push(user.chat_id);
                }
            }
        }
        i = i + 1;
    }
    r
}

/// The offset after handling the updates of `batch`, given by id and kind,
/// in order, starting from `offset`: as `next_update` moves it.
pub open spec fn offset_after(offset: int, batch: Seq<(u32, UpdateKind)>) -> int
    decreases batch.len(),
{
    if batch.len() == 0 {
        offset
    } else {
        let earlier = offset_after(offset, batch.drop_last());
        if batch.last().1 == UpdateKind::Message {
            batch.last().0 + 1
        } else {
            earlier
        }
    }
}

/// The updates of `batch` are what a request with `offset` returns: ids no
/// smaller than the offset, in increasing order.
pub open spec fn batch_from(offset: int, batch: Seq<(u32, UpdateKind)>) -> bool {
    &&& forall|i: int| 0 <= i < batch.len() ==> (#[trigger] batch[i]).0 >= offset
    &&& forall|i: int, j: int| 0 <= i < j < batch.len() ==> (#[trigger] batch[i]).0 < (#[trigger] batch[j]).0
}

/// Handling a batch never moves the offset back, and leaves it past the id
/// of every message of the batch.
pub proof fn lemma_batch_offset(offset: int, batch: Seq<(u32, UpdateKind)>)
    requires
        batch_from(offset, batch),
    ensures
        offset_after(offset, batch) >= offset,
        forall|i: int|
            0 <= i < batch.len() && (#[trigger] batch[i]).1 == UpdateKind::Message ==> offset_after(
                offset,
                batch,
            ) > batch[i].0,
    decreases batch.len(),
{
    if batch.len() > 0 {
        let init = batch.drop_last();
        assert(batch_from(offset, init)) by {
            assert forall|i: int, j: int| 0 <= i < j < init.len() implies (#[trigger] init[i]).0 < (
            #[trigger] init[j]).0 by {
                assert(init[i] == batch[i] && init[j] == batch[j]);
            }
            assert forall|i: int| 0 <= i < init.len() implies (#[trigger] init[i]).0 >= offset by {
                assert(init[i] == batch[i]);
            }
        }
        lemma_batch_offset(offset, init);
        let last = batch.len() - 1;
        assert forall|i: int|
            0 <= i < batch.len() && (#[trigger] batch[i]).1 == UpdateKind::Message implies offset_after(
            offset,
            batch,
        ) > batch[i].0 by {
            if i < last {
                assert(init[i] == batch[i]);
                assert(batch[i].0 < batch[last].0);
            }
        }
    }
}

/// The offset after several polls, each handling its batch in turn.
pub open spec fn offset_after_polls(offset: int, batches: Seq<Seq<(u32, UpdateKind)>>) -> int
    decreases batches.len(),
{
    if batches.len() == 0 {
        offset
    } else {
        offset_after(offset_after_polls(offset, batches.drop_last()), batches.last())
    }
}

/// Every batch is what its poll's request returns.
pub open spec fn polls_well_formed(offset: int, batches: Seq<Seq<(u32, UpdateKind)>>) -> bool
    decreases batches.len(),
{
    if batches.len() == 0 {
        true
    } else {
        polls_well_formed(offset, batches.drop_last()) && batch_from(
            offset_after_polls(offset, batches.drop_last()),
            batches.last(),
        )
    }
}

/// Over a run of polls the offset never moves back, and after the polls it
/// is past the id of every message handled so far; so a later request never
/// returns a message already handed on.
pub proof fn lemma_polls_offset(offset: int, batches: Seq<Seq<(u32, UpdateKind)>>)
    requires
        polls_well_formed(offset, batches),
    ensures
        offset_after_polls(offset, batches) >= offset,
        forall|k: int, i: int|
            0 <= k < batches.len() && 0 <= i < batches[k].len() && (#[trigger] batches[k][i]).1
                == UpdateKind::Message ==> offset_after_polls(offset, batches) > batches[k][i].0,
    decreases batches.len(),
{
    if batches.len() > 0 {
        let init = batches.drop_last();
        let last = batches.len() - 1;
        lemma_polls_offset(offset, init);
        let mid = offset_after_polls(offset, init);
        lemma_batch_offset(mid, batches[last]);
        assert forall|k: int, i: int|
            0 <= k < batches.len() && 0 <= i < batches[k].len() && (#[trigger] batches[k][i]).1
                == UpdateKind::Message implies offset_after_polls(offset, batches) > batches[k][i].0 by {
            if k < last {
                assert(init[k] == batches[k]);
                assert(init[k][i] == batches[k][i]);
            }
        }
    }
}


/// Only the exact text `/start` is answered with the keyboard of trains; any
/// other text, the empty text included, is answered with the hint to start,
/// and a message without text is not answered.
pub proof fn lemma_reply_only_start_lists_trains(t: Seq<char>)
    ensures
        reply_for(Some(t)) == MessageReply::TrainList <==> t == "/start"@,
        t != "/start"@ ==> reply_for(Some(t)) == MessageReply::StartHint,
        reply_for(None) == MessageReply::Nothing,
{
}

} // verus!
