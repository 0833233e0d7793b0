//! Trains and their tickets as read from the timetable page, and the map of
//! trains keyed by train number.

use vstd::prelude::*;
use crate::text::same_text;

verus! {

/// A kind of seat on a train: how many seats of it are left and what one costs.
///
/// `cost` is the price as an IEEE 754 single-precision number, held by its bit pattern
/// (`f32::to_bits`).
#[derive(Debug, Clone)]
pub struct Ticket {
    pub seat_type: String,
    pub amount: u8,
    pub cost: u32,
}

/// The plain content of a [`Ticket`].
pub struct TicketView {
    pub seat_type: Seq<char>,
    pub amount: u8,
    pub cost: u32,
}

impl View for Ticket {
    type V = TicketView;

    open spec fn view(&self) -> TicketView {
        TicketView { seat_type: self.seat_type@, amount: self.amount, cost: self.cost }
    }
}

/// The plain content of a sequence of tickets.
pub open spec fn ticket_views(v: Seq<Ticket>) -> Seq<TicketView> {
    v.map_values(|t: Ticket| t@)
}

impl Ticket {
    /// An empty ticket: no seat type, no seats, cost zero (the bits of `0.0`).
    pub fn with_default() -> (r: Ticket)
        ensures
            r@ == (TicketView { seat_type: Seq::empty(), amount: 0, cost: 0 }),
    {
        Ticket { seat_type: String::new(), amount: 0, cost: 0 }
    }

    /// A ticket with the given fields.
    pub fn new(seat_type: String, amount: u8, cost: u32) -> (r: Ticket)
        ensures
            r@ == (TicketView { seat_type: seat_type@, amount, cost }),
    {
        Ticket { seat_type, amount, cost }
    }
}

/// A train of the timetable: its number, route, stations, times and tickets.
#[derive(Debug)]
pub struct Train {
    pub number: String,
    pub route: String,
    pub start_station: String,
    pub end_station: String,
    pub start_time: String,
    pub end_time: String,
    pub tickets: Vec<Ticket>,
}

/// The plain content of a [`Train`].
pub struct TrainView {
    pub number: Seq<char>,
    pub route: Seq<char>,
    pub start_station: Seq<char>,
    pub end_station: Seq<char>,
    pub start_time: Seq<char>,
    pub end_time: Seq<char>,
    pub tickets: Seq<TicketView>,
}

impl View for Train {
    type V = TrainView;

    open spec fn view(&self) -> TrainView {
        TrainView {
            number: self.number@,
            route: self.route@,
            start_station: self.start_station@,
            end_station: self.end_station@,
            start_time: self.start_time@,
            end_time: self.end_time@,
            tickets: ticket_views(self.tickets@),
        }
    }
}

impl Train {
    /// A train with every text empty and no tickets.
    pub fn with_default() -> (r: Train)
        ensures
            r@ == (TrainView {
                number: Seq::empty(),
                route: Seq::empty(),
                start_station: Seq::empty(),
                end_station: Seq::empty(),
                start_time: Seq::empty(),
                end_time: Seq::empty(),
                tickets: Seq::empty(),
            }),
    {
        let r = Train {
            number: String::new(),
            route: String::new(),
            start_station: String::new(),
            end_station: String::new(),
            start_time: String::new(),
            end_time: String::new(),
            tickets: Vec::new(),
        };
        assert(ticket_views(r.tickets@) =~= Seq::empty());
        r
    }

    /// A train with the given fields.
    pub fn new(
        number: String,
        route: String,
        start_station: String,
        end_station: String,
        start_time: String,
        end_time: String,
        tickets: Vec<Ticket>,
    ) -> (r: Train)
        ensures
            r@ == (TrainView {
                number: number@,
                route: route@,
                start_station: start_station@,
                end_station: end_station@,
                start_time: start_time@,
                end_time: end_time@,
                tickets: ticket_views(tickets@),
            }),
    {
        Train { number, route, start_station, end_station, start_time, end_time, tickets }
    }
}

/// The plain content of a sequence of trains.
pub open spec fn train_views(v: Seq<Train>) -> Seq<TrainView> {
    v.map_values(|t: Train| t@)
}

/// No two trains of `s` have the same number.
pub open spec fn numbers_distinct(s: Seq<TrainView>) -> bool {
    forall|i: int, j: int|
        0 <= i < s.len() && 0 <= j < s.len() && i != j ==> #[trigger] s[i].number
            != #[trigger] s[j].number
}

/// The map from train number to train that inserting the trains of `s` in
/// order builds: a later train replaces an earlier one with its number.
pub open spec fn map_of_trains(s: Seq<TrainView>) -> Map<Seq<char>, TrainView>
    decreases s.len(),
{
    if s.len() == 0 {
        Map::empty()
    } else {
        map_of_trains(s.drop_last()).insert(s.last().number, s.last())
    }
}

/// A key of `map_of_trains(s)` is the number of one of its trains; with
/// distinct numbers the value is that train.
pub proof fn lemma_map_of_trains_lookup(s: Seq<TrainView>, k: Seq<char>)
    ensures
        map_of_trains(s).dom().contains(k) <==> exists|i: int| 0 <= i < s.len() && s[i].number == k,
        numbers_distinct(s) ==> forall|i: int|
            0 <= i < s.len() && s[i].number == k ==> map_of_trains(s)[k] == s[i],
    decreases s.len(),
{
    if s.len() > 0 {
        let init = s.drop_last();
        lemma_map_of_trains_lookup(init, k);
        if exists|i: int| 0 <= i < init.len() && init[i].number == k {
            let i = choose|i: int| 0 <= i < init.len() && init[i].number == k;
            assert(s[i].number == k);
        }
        if exists|i: int| 0 <= i < s.len() && s[i].number == k {
            let i = choose|i: int| 0 <= i < s.len() && s[i].number == k;
            if i < s.len() - 1 {
                assert(init[i].number == k);
            }
        }
        if map_of_trains(s).dom().contains(k) && k != s.last().number {
            let i = choose|i: int| 0 <= i < init.len() && init[i].number == k;
            assert(s[i] == init[i]);
        }
        if numbers_distinct(s) {
            assert(numbers_distinct(init)) by {
                assert forall|i: int, j: int|
                    0 <= i < init.len() && 0 <= j < init.len() && i != j implies #[trigger] init[i].number
                    != #[trigger] init[j].number by {
                    assert(init[i] == s[i] && init[j] == s[j]);
                }
            }
            assert forall|i: int| 0 <= i < s.len() && s[i].number == k implies map_of_trains(s)[k]
                == s[i] by {
                if i < s.len() - 1 {
                    assert(init[i] == s[i]);
                    assert(s[i].number != s[s.len() - 1].number);
                }
            }
        }
    }
}

/// With distinct numbers, the map has one key per train.
pub proof fn lemma_map_of_trains_len(s: Seq<TrainView>)
    requires
        numbers_distinct(s),
    ensures
        map_of_trains(s).dom().finite(),
        map_of_trains(s).dom().len() == s.len(),
    decreases s.len(),
{
    if s.len() > 0 {
        let init = s.drop_last();
        assert(numbers_distinct(init)) by {
            assert forall|i: int, j: int|
                0 <= i < init.len() && 0 <= j < init.len() && i != j implies #[trigger] init[i].number
                != #[trigger] init[j].number by {
                assert(init[i] == s[i] && init[j] == s[j]);
            }
        }
        lemma_map_of_trains_len(init);
        lemma_map_of_trains_lookup(init, s.last().number);
        if map_of_trains(init).dom().contains(s.last().number) {
            let i = choose|i: int| 0 <= i < init.len() && init[i].number == s.last().number;
            assert(s[i].number == s[s.len() - 1].number);
        }
    }
}

/// Replacing a train by one with the same number replaces that entry of the map.
pub proof fn lemma_map_of_trains_update(s: Seq<TrainView>, i: int, t: TrainView)
    requires
        numbers_distinct(s),
        0 <= i < s.len(),
        s[i].number == t.number,
    ensures
        map_of_trains(s.update(i, t)) == map_of_trains(s).insert(t.number, t),
    decreases s.len(),
{
    let init = s.drop_last();
    if i == s.len() - 1 {
        assert(s.update(i, t).drop_last() =~= init);
        assert(map_of_trains(s.update(i, t)) =~= map_of_trains(s).insert(t.number, t));
    } else {
        assert(numbers_distinct(init)) by {
            assert forall|a: int, b: int|
                0 <= a < init.len() && 0 <= b < init.len() && a != b implies #[trigger] init[a].number
                != #[trigger] init[b].number by {
                assert(init[a] == s[a] && init[b] == s[b]);
            }
        }
        lemma_map_of_trains_update(init, i, t);
        assert(s.update(i, t).drop_last() =~= init.update(i, t));
        assert(s[i].number != s[s.len() - 1].number);
        assert(map_of_trains(s.update(i, t)) =~= map_of_trains(s).insert(t.number, t));
    }
}

/// Trains keyed by their number; inserting a train replaces the one with its number.
pub struct TrainMap {
    trains: Vec<Train>,
}

impl TrainMap {
    /// The trains in the order they are held.
    pub closed spec fn entries(&self) -> Seq<TrainView> {
        train_views(self.trains@)
    }

    #[verifier::type_invariant]
    spec fn numbers_are_distinct(&self) -> bool {
        numbers_distinct(self.entries())
    }
}

impl View for TrainMap {
    type V = Map<Seq<char>, TrainView>;

    closed spec fn view(&self) -> Map<Seq<char>, TrainView> {
        map_of_trains(self.entries())
    }
}

impl TrainMap {
    /// An empty map.
    pub fn new() -> (r: TrainMap)
        ensures
            r@ == Map::<Seq<char>, TrainView>::empty(),
    {
        let r = TrainMap { trains: Vec::new() };
        assert(r.entries() =~= Seq::empty());
        r
    }

    /// The held trains are the values of the map, one per key.
    proof fn lemma_entries(&self)
        requires
            numbers_distinct(self.entries()),
        ensures
            numbers_distinct(self.entries()),
            self@ == map_of_trains(self.entries()),
            self@.dom().finite(),
            self@.dom().len() == self.entries().len(),
            forall|k: Seq<char>|
                self@.dom().contains(k) <==> exists|i: int|
                    0 <= i < self.entries().len() && (#[trigger] self.entries()[i]).number == k,
            forall|i: int|
                0 <= i < self.entries().len() ==> self@[#[trigger] self.entries()[i].number]
                    == self.entries()[i],
    {
        lemma_map_of_trains_len(self.entries());
        assert forall|k: Seq<char>|
            self@.dom().contains(k) <==> exists|i: int|
                0 <= i < self.entries().len() && (#[trigger] self.entries()[i]).number == k by {
            lemma_map_of_trains_lookup(self.entries(), k);
        }
        assert forall|i: int|
            0 <= i < self.entries().len() implies self@[#[trigger] self.entries()[i].number]
            == self.entries()[i] by {
            lemma_map_of_trains_lookup(self.entries(), self.entries()[i].number);
        }
    }

    /// The number of trains; the held trains have distinct numbers and are the
    /// values of the map.
    pub fn len(&self) -> (r: usize)
        ensures
            r == self@.dom().len(),
            r == self.entries().len(),
            numbers_distinct(self.entries()),
            self@ == map_of_trains(self.entries()),
    {
        proof {
            use_type_invariant(self);
            self.lemma_entries();
        }
        self.trains.len()
    }

    /// The `i`-th held train.
    pub fn train_at(&self, i: usize) -> (r: &Train)
        requires
            i < self.entries().len(),
        ensures
            r@ == self.entries()[i as int],
    {
        &self.trains[i]
    }

    /// The position of the train numbered `number`, if any.
    fn position(&self, number: &str) -> (r: Option<usize>)
        ensures
            match r {
                Some(i) => i < self.entries().len() && self.entries()[i as int].number == number@,
                None => forall|i: int|
                    0 <= i < self.entries().len() ==> self.entries()[i].number != number@,
            },
    {
        let n: usize = self.trains.len();
        let mut i: usize = 0;
        while i < n
            invariant
                i <= n,
                n == self.entries().len(),
                forall|j: int| 0 <= j < i ==> self.entries()[j].number != number@,
            decreases n - i,
        {
            if same_text(self.trains[i].number.as_str(), number) {
                return Some(i);
            }
            i = i + 1;
        }
        None
    }

    /// The train numbered `number`, if the map holds one.
    pub fn get(&self, number: &str) -> (r: Option<&Train>)
        ensures
            r is Some <==> self@.dom().contains(number@),
            r matches Some(t) ==> t@ == self@[number@],
    {
        proof {
            use_type_invariant(self);
            self.lemma_entries();
        }
        match self.position(number) {
            Some(i) => Some(&self.trains[i]),
            None => None,
        }
    }

    /// Keys `train` by its number, replacing the train that had that number.
    pub fn insert(&mut self, train: Train)
        ensures
            final(self)@ == old(self)@.insert(train.number@, train@),
    {
        proof {
            use_type_invariant(&*self);
        }
        let ghost before = self.entries();
        let ghost t = train@;
        let found = self.position(train.number.as_str());
        let mut trains: Vec<Train> = Vec::new();
        std::mem::swap(&mut trains, &mut self.trains);
        assert(train_views(trains@) == before);
        match found {
            Some(i) => {
                trains.set(i, train);
                proof {
                    assert(train_views(trains@) =~= before.update(i as int, t));
                    lemma_map_of_trains_update(before, i as int, t);
                    assert forall|a: int, b: int|
                        0 <= a < trains@.len() && 0 <= b < trains@.len() && a != b implies #[trigger] train_views(trains@)[a].number
                        != #[trigger] train_views(trains@)[b].number by {
                        assert(before[a].number == train_views(trains@)[a].number);
                        assert(before[b].number == train_views(trains@)[b].number);
                    }
                }
            },
            None => {
                trains.push(train);
                proof {
                    assert(train_views(trains@) =~= before.push(t));
                    assert(train_views(trains@).drop_last() =~= before);
                }
            },
        }
        self.trains = trains;
    }
}


/// Every train of the map is keyed by its own number.
pub proof fn lemma_map_of_trains_keys(s: Seq<TrainView>)
    ensures
        forall|k: Seq<char>|
            #[trigger] map_of_trains(s).dom().contains(k) ==> map_of_trains(s)[k].number == k,
    decreases s.len(),
{
    if s.len() > 0 {
        let init = s.drop_last();
        lemma_map_of_trains_keys(init);
        assert forall|k: Seq<char>| #[trigger] map_of_trains(s).dom().contains(k) implies map_of_trains(
            s,
        )[k].number == k by {
            if k != s.last().number {
                assert(map_of_trains(init).dom().contains(k));
            }
        }
    }
}

/// Reading a map after keying a train by its number: the train is found
/// under its number, and every other number keeps what it had.
pub proof fn lemma_read_after_insert(m: Map<Seq<char>, TrainView>, t: TrainView, k: Seq<char>)
    ensures
        m.insert(t.number, t).dom().contains(t.number),
        m.insert(t.number, t)[t.number] == t,
        k != t.number ==> (m.insert(t.number, t).dom().contains(k) == m.dom().contains(k)),
        k != t.number && m.dom().contains(k) ==> m.insert(t.number, t)[k] == m[k],
{
}

} // verus!
