use core::time::Duration;
use ilium::account::PeerAddr;
use ilium::data::UserData;
use ilium::entity::Entity;
use ilium::hub::Hub;
use ilium::model::Place;
use ilium::msg::{route, AsQueue, Msg, MsgType};
use ilium::queue::Queue;
use ilium::send::{signal_of, Inbox, QueueSignal, Signal};
use ilium::state::{Action, ActionState, SharedState, Started, StateView, UserState};
use ilium::time::{tick, AsStopwatch};
use ilium::token::ClientToken;

#[derive(Clone, Copy, Debug, PartialEq)]
enum Table {
    Duel,
    Trio,
    Nowhere,
}

impl AsQueue for Table {
    type Action = Step;
}

impl Queue for Table {
    fn slot(&self) -> usize {
        self.index()
    }

    fn index(&self) -> usize {
        match self {
            Table::Duel => 0,
            Table::Trio => 1,
            Table::Nowhere => 7,
        }
    }
}

#[derive(Clone, Debug, PartialEq)]
struct Anyone;

impl UserData for Anyone {
    fn priority(&self) -> u64 {
        0
    }

    fn accepts(&self, _other: &Self) -> bool {
        true
    }

    fn matchmake_priority(&self) -> u64 {
        0
    }

    fn matchmake_valid(&self, _other: &Self) -> bool {
        true
    }
}

#[derive(Clone, Debug, PartialEq)]
struct Clock {
    elapsed: Duration,
    count: u32,
}

impl SharedState for Clock {
    type Info = u32;
    type User = Score;

    fn seeded(_seed: [u8; 32]) -> Self {
        unreachable!()
    }

    fn shown(_index: u64, _state: StateView<Self, Score>) -> u32 {
        unreachable!()
    }

    fn init(_seed: [u8; 32]) -> Self {
        Clock { elapsed: Duration::ZERO, count: 0 }
    }

    fn info(_index: u64, state: &ActionState<Self, Score>) -> u32 {
        state.shared.count
    }
}

impl AsStopwatch for Clock {
    fn ticked(self, _delta: Duration) -> Self {
        unreachable!()
    }

    fn pause(&mut self) {}

    fn unpause(&mut self) {}

    fn reset(&mut self) {
        self.elapsed = Duration::ZERO;
    }

    fn tick(&mut self, delta: Duration) {
        self.elapsed += delta;
    }
}

#[derive(Clone, Copy, Debug, PartialEq)]
struct Score(u32);

impl UserState for Score {
    type Info = u32;
    type Shared = Clock;

    fn started(_shared: Clock, _users: usize) -> Started<Clock, Self> {
        unreachable!()
    }

    fn shown(_viewer: u64, _owner: u64, _state: StateView<Clock, Self>) -> u32 {
        unreachable!()
    }

    fn init(_shared: &mut Clock, users: usize) -> Vec<Self> {
        vec![Score(0); users]
    }

    fn info(_viewer: u64, owner: u64, state: &ActionState<Clock, Self>) -> u32 {
        state.user(owner).unwrap().0
    }
}

#[derive(Clone, Copy, Debug, PartialEq)]
struct Step(u32);

impl Action for Step {
    type Shared = Clock;
    type User = Score;

    fn updated(_state: StateView<Clock, Score>) -> StateView<Clock, Score> {
        unreachable!()
    }

    fn resolved(self, _index: u64, _state: StateView<Clock, Score>) -> StateView<Clock, Score> {
        unreachable!()
    }

    fn update(state: &mut ActionState<Clock, Score>) {
        *state.shared_mut() = Clock { elapsed: state.shared().elapsed, count: state.shared().count + 1 };
    }

    fn resolve(self, index: u64, state: &mut ActionState<Clock, Score>) {
        if let Some(own) = state.user_mut(index) {
            own.0 += self.0;
        }
    }
}

type Server = Hub<Anyone, Clock, Score, u8, Step>;

fn from(port: u16) -> PeerAddr {
    PeerAddr { v6: false, ip: 1, port, flowinfo: 0, scope_id: 0 }
}

fn msg(queue: Table, msg_type: MsgType<Table>) -> Msg<Table> {
    Msg { token: ClientToken::Guest, queue, msg_type }
}

fn server() -> Server {
    Hub::new(&vec![2, 3])
}

#[test]
fn every_queue_has_its_store() {
    let hub = server();
    assert_eq!(hub.len(), 2);
    assert_eq!(hub.store(0).unwrap().lobby_size(), 2);
    assert_eq!(hub.store(1).unwrap().lobby_size(), 3);
    assert!(hub.store(2).is_none());
    assert!(hub.store(0).unwrap().users().is_empty());
}

#[test]
fn a_message_goes_to_its_queue() {
    let mut hub = server();
    assert!(hub.deliver(route(msg(Table::Trio, MsgType::Join), from(1)), 1, Some(Anyone)));
    assert!(hub.deliver(route(msg(Table::Duel, MsgType::Join), from(2)), 2, Some(Anyone)));
    assert!(hub.deliver(route(msg(Table::Duel, MsgType::Join), from(3)), 3, Some(Anyone)));
    let told = hub.run_tick(Duration::from_millis(16));
    assert_eq!(told.len(), 2);
    assert_eq!(told[0].queued, vec![Entity { bits: 0 }, Entity { bits: 1 }]);
    assert_eq!(told[0].lobbies, vec![vec![Entity { bits: 0 }, Entity { bits: 1 }]]);
    assert_eq!(told[1].queued, vec![Entity { bits: 0 }]);
    assert!(told[1].lobbies.is_empty());
    assert_eq!(hub.store(0).unwrap().users().len(), 2);
    assert_eq!(hub.store(0).unwrap().users()[1].connection, 3);
    assert_eq!(hub.store(1).unwrap().users().len(), 1);
    assert_eq!(hub.store(1).unwrap().users()[0].place, Place::Queue);
}

#[test]
fn what_cannot_be_taken_in_is_dropped() {
    let mut hub = server();
    assert!(!hub.deliver(route(msg(Table::Nowhere, MsgType::Join), from(1)), 1, Some(Anyone)));
    assert!(!hub.deliver(route(msg(Table::Duel, MsgType::Join), from(1)), 1, None));
    assert!(hub.deliver(route(msg(Table::Duel, MsgType::Leave), from(1)), 1, None));
    let told = hub.run_tick(Duration::from_millis(16));
    assert!(told[0].queued.is_empty());
    assert!(hub.store(0).unwrap().users().is_empty());
}

#[test]
fn no_signal_waits_after_a_tick() {
    let mut hub = server();
    assert!(hub.deliver(route(msg(Table::Duel, MsgType::Join), from(1)), 1, Some(Anyone)));
    assert_eq!(hub.run_tick(Duration::from_millis(16))[0].queued.len(), 1);
    assert!(hub.run_tick(Duration::from_millis(16))[0].queued.is_empty());
    assert_eq!(hub.store(0).unwrap().users().len(), 1);
}

#[test]
fn a_game_runs_from_join_to_snapshot() {
    let mut hub = server();
    for n in 1..=2u16 {
        assert!(hub.deliver(route(msg(Table::Duel, MsgType::Join), from(n)), n as u8, Some(Anyone)));
    }
    hub.run_tick(Duration::from_millis(16));
    for n in 1..=2u16 {
        assert!(hub.deliver(route(msg(Table::Duel, MsgType::Accept), from(n)), n as u8, None));
    }
    assert!(hub.deliver(route(msg(Table::Duel, MsgType::Action(Step(4))), from(2)), 2, None));
    assert!(hub.deliver(route(msg(Table::Duel, MsgType::Reconnect), from(1)), 9, None));
    let told = hub.run_tick(Duration::from_millis(16));
    assert_eq!(told[0].started, vec![Entity { bits: 2 }]);
    assert_eq!(told[0].snapshots.len(), 2);
    assert_eq!(told[0].snapshots[0].1.users, vec![(0, 0), (1, 4)]);
    assert_eq!(told[0].snapshots[0].1.shared, 1);
    let store = hub.store(0).unwrap();
    assert_eq!(store.users()[0].connection, 9);
    assert_eq!(store.sessions()[0].state.shared.elapsed, Duration::from_millis(16));
    assert!(hub.deliver(route(msg(Table::Duel, MsgType::Action(Step(1))), from(1)), 9, None));
    let told = hub.run_tick(Duration::from_millis(4));
    assert_eq!(told[0].snapshots[1].1.users, vec![(0, 1), (1, 4)]);
    assert_eq!(told[0].snapshots[1].1.shared, 2);
    assert_eq!(hub.store(0).unwrap().sessions()[0].state.shared.elapsed, Duration::from_millis(20));
}

#[test]
fn a_signal_is_made_of_what_the_message_asks() {
    let join = signal_of::<Table, Anyone, u8>(route(msg(Table::Duel, MsgType::Join), from(1)), 5, Some(Anyone));
    assert!(matches!(join, Some(Signal::Queue(QueueSignal::Join { connection: 5, .. }))));
    let stranger = signal_of::<Table, Anyone, u8>(route(msg(Table::Duel, MsgType::Join), from(1)), 5, None);
    assert!(stranger.is_none());
    let accept = signal_of::<Table, Anyone, u8>(route(msg(Table::Duel, MsgType::Accept), from(1)), 5, None);
    assert!(matches!(accept, Some(Signal::Queue(QueueSignal::Accept { .. }))));
    let leave = signal_of::<Table, Anyone, u8>(route(msg(Table::Duel, MsgType::Leave), from(1)), 5, Some(Anyone));
    assert!(matches!(leave, Some(Signal::Queue(QueueSignal::Leave { .. }))));
    let again = signal_of::<Table, Anyone, u8>(route(msg(Table::Duel, MsgType::Reconnect), from(1)), 6, None);
    match again {
        Some(Signal::Reconnect(s)) => assert_eq!(s.connection, 6),
        _ => panic!("a reconnect travels as a reconnect"),
    }
    let step = signal_of::<Table, Anyone, u8>(route(msg(Table::Duel, MsgType::Action(Step(3))), from(1)), 6, None);
    match step {
        Some(Signal::Action(s)) => assert_eq!(s.action, Step(3)),
        _ => panic!("an action travels as an action"),
    }
}

#[test]
fn an_inbox_keeps_each_kind_in_order() {
    let mut inbox: Inbox<Anyone, u8, Step> = Inbox::new();
    for (n, kind) in [MsgType::Action(Step(1)), MsgType::Leave, MsgType::Action(Step(2)), MsgType::Reconnect].into_iter().enumerate() {
        let signal = signal_of(route(msg(Table::Duel, kind), from(n as u16)), n as u8, None).unwrap();
        inbox.push(signal);
    }
    assert_eq!(inbox.action.iter().map(|s| s.action).collect::<Vec<_>>(), vec![Step(1), Step(2)]);
    assert_eq!(inbox.queue.len(), 1);
    assert_eq!(inbox.reconnect.len(), 1);
    assert_eq!(inbox.reconnect[0].connection, 3);
}

#[test]
fn time_passes_over_every_stopwatch() {
    let mut clocks =
        vec![Clock { elapsed: Duration::ZERO, count: 0 }, Clock { elapsed: Duration::from_secs(1), count: 0 }];
    tick(&mut clocks, Duration::from_millis(500));
    assert_eq!(clocks[0].elapsed, Duration::from_millis(500));
    assert_eq!(clocks[1].elapsed, Duration::from_millis(1500));
    tick(&mut Vec::<Clock>::new(), Duration::from_millis(500));
}
