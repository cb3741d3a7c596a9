use core::time::Duration;
use ilium::account::{Account, PeerAddr};
use ilium::data::UserData;
use ilium::entity::{Entity, EntityId};
use ilium::hidden::private;
use ilium::msg::{AsQueue, Msg};
use ilium::token::ClientToken;
use ilium::ws::{Bridge, OpCode, Reading};
use ilium::matchmaking::{init_session, matchmake, matchmake_with, plan, process_queue, reconnect, MatchmakeError};
use ilium::schedule::{run_tick, run_tick_with};
use ilium::send::{ActionSignal, QueueSignal, ReconnectSignal};
use ilium::state::{Action, ActionState, SharedState, Started, StateView, UserState};
use ilium::model::Place;
use ilium::store::Store;
use ilium::time::AsStopwatch;
use ilium::update::{process_actions, seat_of, snapshot, update_client};

#[derive(Clone, Debug, PartialEq)]
struct Player {
    rank: u64,
    team: u8,
}

impl UserData for Player {
    fn priority(&self) -> u64 {
        self.rank
    }

    fn accepts(&self, other: &Self) -> bool {
        self.team == other.team
    }

    fn matchmake_priority(&self) -> u64 {
        self.rank
    }

    fn matchmake_valid(&self, other: &Self) -> bool {
        self.team == other.team
    }
}

#[derive(Clone, Debug, PartialEq)]
struct Board {
    seed: [u8; 32],
    turns: u32,
    steps: u32,
    elapsed: Duration,
}

#[derive(Clone, Debug, PartialEq)]
struct Hand {
    cards: u32,
    secret: u64,
}

#[derive(Clone, Debug, PartialEq)]
struct HandInfo {
    cards: u32,
    secret: Option<u64>,
}

impl SharedState for Board {
    type Info = u32;
    type User = Hand;

    fn seeded(seed: [u8; 32]) -> Self {
        Board { seed, turns: 0, steps: 0, elapsed: Duration::ZERO }
    }

    fn shown(_index: u64, _state: StateView<Self, Hand>) -> u32 {
        unreachable!()
    }

    fn init(seed: [u8; 32]) -> Self {
        Board { seed, turns: 0, steps: 0, elapsed: Duration::ZERO }
    }

    fn info(_index: u64, state: &ActionState<Self, Hand>) -> u32 {
        state.shared.turns
    }
}

impl AsStopwatch for Board {
    fn ticked(self, _delta: Duration) -> Self {
        unreachable!()
    }

    fn pause(&mut self) {}

    fn unpause(&mut self) {}

    fn reset(&mut self) {
        self.elapsed = Duration::ZERO;
    }

    fn tick(&mut self, delta: Duration) {
        self.elapsed += delta;
    }
}

impl UserState for Hand {
    type Info = HandInfo;
    type Shared = Board;

    fn started(_shared: Board, _users: usize) -> Started<Board, Self> {
        unreachable!()
    }

    fn shown(_viewer: u64, _owner: u64, _state: StateView<Board, Self>) -> HandInfo {
        unreachable!()
    }

    fn init(shared: &mut Board, users: usize) -> Vec<Self> {
        shared.turns = 100;
        (0..users).map(|k| Hand { cards: 5, secret: 1000 + k as u64 }).collect()
    }

    fn info(viewer: u64, owner: u64, state: &ActionState<Board, Self>) -> HandInfo {
        let hand = state.user(owner).unwrap();
        HandInfo { cards: hand.cards, secret: private(viewer, owner, hand.secret) }
    }
}

#[derive(Clone, Copy, Debug)]
enum Move {
    Draw,
}

impl Action for Move {
    type Shared = Board;
    type User = Hand;

    fn updated(_state: StateView<Board, Hand>) -> StateView<Board, Hand> {
        unreachable!()
    }

    fn resolved(self, _index: u64, _state: StateView<Board, Hand>) -> StateView<Board, Hand> {
        unreachable!()
    }

    fn update(state: &mut ActionState<Board, Hand>) {
        state.shared.steps += 1;
    }

    fn resolve(self, index: u64, state: &mut ActionState<Board, Hand>) {
        match self {
            Move::Draw => {
                let hand = state.user(index).unwrap().clone();
                state.set_user(index, Hand { cards: hand.cards + 1, secret: hand.secret });
                state.shared.turns += 1;
            }
        }
    }
}

type Server = Store<Player, Board, Hand, u32>;

fn account(n: u16) -> Account {
    Account::Guest { ip: PeerAddr { v6: false, ip: 0x7f00_0001, port: n, flowinfo: 0, scope_id: 0 } }
}

fn player(rank: u64) -> Player {
    Player { rank, team: 0 }
}

fn seeds(n: usize) -> Vec<[u8; 32]> {
    (0..n).map(|k| [k as u8 + 1; 32]).collect()
}

/// A store of lobby size 2 with A (priority 1), B (2) and C (3) queued.
fn three_queued() -> (Server, Entity, Entity, Entity) {
    let mut store = Server::new(2);
    let a = store.join(account(1), player(1), 10).unwrap();
    let b = store.join(account(2), player(2), 20).unwrap();
    let c = store.join(account(3), player(3), 30).unwrap();
    (store, a, b, c)
}

/// A store of lobby size 2 in which A and B play an active session and C is
/// queued.
fn one_session() -> (Server, Entity, Entity, Entity) {
    let (mut store, a, b, c) = three_queued();
    matchmake_with(&mut store, &seeds(1));
    assert!(store.accept(&account(1)));
    assert!(store.accept(&account(2)));
    assert_eq!(init_session(&mut store).len(), 1);
    (store, a, b, c)
}

#[test]
fn the_first_two_by_priority_form_the_lobby() {
    let (mut store, a, b, c) = three_queued();
    let formed = matchmake_with(&mut store, &seeds(5));
    assert_eq!(formed, vec![vec![a, b]]);
    assert_eq!(store.sessions().len(), 1);
    let session = &store.sessions()[0];
    assert_eq!(session.lobby.entities(), vec![a, b]);
    assert!(!session.accepted);
    assert_eq!(session.state.shared, Board::init([1; 32]));
    assert!(session.state.users.is_empty());
    let at = EntityId(session.entity);
    assert_eq!(store.users()[0].place, Place::Lobby { session: at, accepted: false });
    assert_eq!(store.users()[1].place, Place::Lobby { session: at, accepted: false });
    assert_eq!(store.users()[2].place, Place::Queue);
    assert_eq!(store.users()[2].entity, c);
}

#[test]
fn priority_decides_and_not_the_order_of_joining() {
    let mut store = Server::new(2);
    let late = store.join(account(1), player(9), 0).unwrap();
    let first = store.join(account(2), player(1), 0).unwrap();
    let second = store.join(account(3), player(4), 0).unwrap();
    assert_eq!(plan(&store), vec![vec![first, second]]);
    let formed = matchmake_with(&mut store, &seeds(1));
    assert_eq!(formed, vec![vec![first, second]]);
    assert_eq!(store.users()[0].entity, late);
    assert_eq!(store.users()[0].place, Place::Queue);
}

#[test]
fn equal_priorities_go_by_the_order_of_joining() {
    let mut store = Server::new(2);
    let a = store.join(account(1), player(7), 0).unwrap();
    let b = store.join(account(2), player(7), 0).unwrap();
    let _c = store.join(account(3), player(7), 0).unwrap();
    assert_eq!(plan(&store), vec![vec![a, b]]);
}

#[test]
fn the_anchor_decides_whom_it_accepts() {
    let mut store = Server::new(2);
    let a = store.join(account(1), Player { rank: 1, team: 1 }, 0).unwrap();
    let b = store.join(account(2), Player { rank: 2, team: 2 }, 0).unwrap();
    let c = store.join(account(3), Player { rank: 3, team: 1 }, 0).unwrap();
    let d = store.join(account(4), Player { rank: 4, team: 2 }, 0).unwrap();
    assert_eq!(plan(&store), vec![vec![a, c], vec![b, d]]);
}

#[test]
fn too_few_candidates_leave_everyone_queued() {
    let mut store = Server::new(3);
    store.join(account(1), player(1), 0).unwrap();
    store.join(account(2), player(2), 0).unwrap();
    let formed = matchmake_with(&mut store, &seeds(4));
    assert!(formed.is_empty());
    assert!(store.sessions().is_empty());
    assert_eq!(store.users()[0].place, Place::Queue);
    assert_eq!(store.users()[1].place, Place::Queue);
}

#[test]
fn a_lobby_of_one_forms_for_every_user() {
    let mut store = Server::new(1);
    let a = store.join(account(1), Player { rank: 2, team: 1 }, 0).unwrap();
    let b = store.join(account(2), Player { rank: 1, team: 2 }, 0).unwrap();
    let formed = matchmake_with(&mut store, &seeds(2));
    assert_eq!(formed, vec![vec![b], vec![a]]);
}

#[test]
fn a_lobby_of_no_members_never_forms() {
    let mut store = Server::new(0);
    store.join(account(1), player(1), 0).unwrap();
    assert!(matchmake_with(&mut store, &seeds(2)).is_empty());
}

#[test]
fn no_lobby_forms_without_a_seed() {
    let (mut store, a, b, _c) = three_queued();
    assert!(matchmake_with(&mut store, &Vec::new()).is_empty());
    assert!(store.sessions().is_empty());
    assert_eq!(plan(&store), vec![vec![a, b]]);
}

#[test]
fn as_many_lobbies_form_as_seeds_are_given() {
    let mut store = Server::new(1);
    let a = store.join(account(1), player(1), 0).unwrap();
    let _b = store.join(account(2), player(2), 0).unwrap();
    let formed = matchmake_with(&mut store, &seeds(1));
    assert_eq!(formed, vec![vec![a]]);
    assert_eq!(store.users()[1].place, Place::Queue);
}

#[test]
fn matchmaking_seeds_sessions_from_the_operating_system() {
    let mut store = Server::new(1);
    let a = store.join(account(1), player(1), 0).unwrap();
    let b = store.join(account(2), player(2), 0).unwrap();
    let formed: Result<Vec<Vec<Entity>>, MatchmakeError> = matchmake(&mut store);
    assert_eq!(formed, Ok(vec![vec![a], vec![b]]));
    let first = &store.sessions()[0].state.shared;
    let second = &store.sessions()[1].state.shared;
    assert_eq!(*first, Board::init(first.seed));
    assert_ne!(first.seed, second.seed);
    assert_ne!(first.seed, [0u8; 32]);
}

#[test]
fn no_member_is_in_two_lobbies() {
    let mut store = Server::new(2);
    for n in 0..7u16 {
        store.join(account(n), player(u64::from(n % 3)), 0).unwrap();
    }
    let formed = matchmake_with(&mut store, &seeds(9));
    assert_eq!(formed.len(), 3);
    let mut members: Vec<Entity> = formed.iter().flatten().copied().collect();
    members.sort_by_key(|e| e.bits);
    members.dedup();
    assert_eq!(members.len(), 6);
    let again = matchmake_with(&mut store, &seeds(9));
    assert!(again.is_empty());
}

#[test]
fn a_second_join_of_an_account_spawns_nothing() {
    let mut store = Server::new(2);
    let a = store.join(account(1), player(1), 10);
    assert_eq!(a, Some(Entity { bits: 0 }));
    assert_eq!(store.join(account(1), player(5), 11), None);
    assert_eq!(store.users().len(), 1);
    assert_eq!(store.users()[0].user_data, player(1));
    assert_eq!(store.users()[0].connection, 10);
    assert_eq!(store.lookup(&account(1)), Some(0));
    assert_eq!(store.lookup(&account(2)), None);
}

#[test]
fn entities_are_handed_out_in_turn() {
    let (mut store, a, b, c) = three_queued();
    assert_eq!((a.bits, b.bits, c.bits), (0, 1, 2));
    let formed = matchmake_with(&mut store, &seeds(1));
    assert_eq!(formed.len(), 1);
    assert_eq!(store.sessions()[0].entity, Entity { bits: 3 });
    assert_eq!(store.join(account(4), player(1), 0), Some(Entity { bits: 4 }));
    assert_eq!(store.position_of(Entity { bits: 4 }), Some(3));
    assert_eq!(store.position_of(Entity { bits: 3 }), None);
    assert_eq!(store.session_of(Entity { bits: 3 }), Some(0));
    assert_eq!(store.session_of(Entity { bits: 4 }), None);
}

#[test]
fn a_session_starts_once_when_all_have_consented() {
    let (mut store, a, b, _c) = three_queued();
    matchmake_with(&mut store, &seeds(1));
    let session = store.sessions()[0].entity;
    assert!(store.accept(&account(1)));
    assert!(init_session(&mut store).is_empty());
    assert!(!store.sessions()[0].accepted);
    assert!(store.accept(&account(2)));
    assert_eq!(init_session(&mut store), vec![session]);
    let started = &store.sessions()[0];
    assert!(started.accepted);
    assert_eq!(started.state.shared.turns, 100);
    assert_eq!(
        started.state.users,
        vec![(a.bits, Hand { cards: 5, secret: 1000 }), (b.bits, Hand { cards: 5, secret: 1001 })]
    );
    assert!(init_session(&mut store).is_empty());
    assert_eq!(store.sessions()[0].state.shared.turns, 100);
    assert!(store.is_active(EntityId(session)));
}

#[test]
fn a_second_consent_changes_nothing() {
    let (mut store, _a, _b, _c) = three_queued();
    matchmake_with(&mut store, &seeds(1));
    assert!(store.accept(&account(1)));
    let place = store.users()[0].place;
    assert!(!store.accept(&account(1)));
    assert_eq!(store.users()[0].place, place);
    assert!(store.accept(&account(2)));
    assert_eq!(init_session(&mut store).len(), 1);
    assert!(!store.accept(&account(1)));
    assert!(init_session(&mut store).is_empty());
}

#[test]
fn a_consent_outside_a_lobby_changes_nothing() {
    let (mut store, _a, _b, _c) = three_queued();
    assert!(!store.accept(&account(1)));
    assert!(!store.accept(&account(9)));
    assert_eq!(store.users()[0].place, Place::Queue);
}

#[test]
fn a_reconnect_replaces_the_connection_only() {
    let (mut store, a, _b, _c) = one_session();
    let sessions_before: Vec<_> =
        store.sessions().iter().map(|s| (s.entity, s.lobby.entities(), s.accepted, s.state.shared.clone(), s.state.users.clone())).collect();
    let users_before: Vec<_> =
        store.users().iter().map(|u| (u.entity, u.account, u.user_data.clone(), u.place, u.connection)).collect();
    assert!(store.reconnect(&account(1), 77));
    let sessions_after: Vec<_> =
        store.sessions().iter().map(|s| (s.entity, s.lobby.entities(), s.accepted, s.state.shared.clone(), s.state.users.clone())).collect();
    assert_eq!(sessions_after, sessions_before);
    for (now, before) in store.users().iter().zip(users_before.iter()) {
        assert_eq!((now.entity, now.account, now.user_data.clone(), now.place), (before.0, before.1, before.2.clone(), before.3));
        if now.entity == a {
            assert_eq!(now.connection, 77);
        } else {
            assert_eq!(now.connection, before.4);
        }
    }
}

#[test]
fn a_reconnect_in_a_pending_lobby_replaces_the_connection() {
    let (mut store, _a, _b, _c) = three_queued();
    matchmake_with(&mut store, &seeds(1));
    reconnect(&mut store, vec![ReconnectSignal { connection: 21, account: account(2) }]);
    assert_eq!(store.users()[1].connection, 21);
    assert_eq!(store.users()[0].connection, 10);
}

#[test]
fn a_reconnect_from_the_queue_or_of_a_stranger_changes_nothing() {
    let (mut store, _a, _b, _c) = three_queued();
    assert!(!store.reconnect(&account(1), 77));
    assert!(!store.reconnect(&account(9), 78));
    assert_eq!(store.users()[0].connection, 10);
    assert_eq!(store.users().len(), 3);
}

#[test]
fn a_leave_from_the_queue_frees_the_account() {
    let (mut store, _a, b, c) = three_queued();
    assert!(store.leave(&account(1)));
    assert_eq!(store.users().len(), 2);
    assert_eq!(store.users()[0].entity, b);
    assert_eq!(store.users()[1].entity, c);
    assert_eq!(store.lookup(&account(1)), None);
    assert_eq!(store.lookup(&account(2)), Some(0));
    assert_eq!(store.lookup(&account(3)), Some(1));
    assert!(!store.leave(&account(1)));
    assert_eq!(store.join(account(1), player(1), 12), Some(Entity { bits: 3 }));
}

#[test]
fn a_leave_from_a_pending_lobby_leaves_its_place_empty() {
    let (mut store, a, b, _c) = three_queued();
    matchmake_with(&mut store, &seeds(1));
    assert!(store.accept(&account(1)));
    assert!(store.leave(&account(1)));
    assert_eq!(store.sessions()[0].lobby.entities(), vec![a, b]);
    assert_eq!(store.position_of(a), None);
    assert!(store.accept(&account(2)));
    assert!(init_session(&mut store).is_empty());
    assert!(!store.sessions()[0].accepted);
    assert!(store.leave(&account(2)));
    assert_eq!(store.users().len(), 1);
}

#[test]
fn a_leave_from_an_active_session_is_ignored() {
    let (mut store, a, _b, _c) = one_session();
    assert!(!store.leave(&account(1)));
    assert_eq!(store.users().len(), 3);
    assert_eq!(store.position_of(a), Some(0));
    assert_eq!(store.lookup(&account(1)), Some(0));
}

#[test]
fn signals_to_the_queue_are_applied_in_turn() {
    let mut store = Server::new(2);
    let joined = process_queue(
        &mut store,
        vec![
            QueueSignal::Join { connection: 1, user_data: player(1), account: account(1) },
            QueueSignal::Join { connection: 2, user_data: player(2), account: account(1) },
            QueueSignal::Leave { account: account(1) },
            QueueSignal::Join { connection: 3, user_data: player(3), account: account(1) },
            QueueSignal::Accept { account: account(1) },
            QueueSignal::Join { connection: 4, user_data: player(4), account: account(2) },
        ],
    );
    assert_eq!(joined, vec![Entity { bits: 0 }, Entity { bits: 1 }, Entity { bits: 2 }]);
    assert_eq!(store.users().len(), 2);
    assert_eq!(store.users()[0].user_data, player(3));
    assert_eq!(store.users()[0].connection, 3);
    assert_eq!(store.users()[0].place, Place::Queue);
    assert_eq!(store.users()[1].user_data, player(4));
}

#[test]
fn an_action_changes_the_session_of_its_actor_only() {
    let mut store = Server::new(1);
    let a = store.join(account(1), player(1), 0).unwrap();
    let b = store.join(account(2), player(2), 0).unwrap();
    matchmake_with(&mut store, &seeds(2));
    assert!(store.accept(&account(1)));
    assert!(store.accept(&account(2)));
    assert_eq!(init_session(&mut store).len(), 2);
    assert_eq!(seat_of(&store, &account(2)), Some((1, b.bits)));
    assert_eq!(seat_of(&store, &account(7)), None);
    let other = store.sessions()[0].state.shared.clone();
    process_actions(
        &mut store,
        vec![
            ActionSignal { action: Move::Draw, account: account(2) },
            ActionSignal { action: Move::Draw, account: account(9) },
            ActionSignal { action: Move::Draw, account: account(2) },
        ],
        Duration::from_millis(16),
    );
    let first = &store.sessions()[0];
    assert_eq!(first.state.shared.turns, other.turns);
    assert_eq!(first.state.users, vec![(a.bits, Hand { cards: 5, secret: 1000 })]);
    assert_eq!(first.state.shared.steps, 1);
    let second = &store.sessions()[1];
    assert_eq!(second.state.shared.turns, 102);
    assert_eq!(second.state.users, vec![(b.bits, Hand { cards: 7, secret: 1000 })]);
    assert_eq!(second.state.shared.steps, 1);
    assert_eq!(second.state.shared.elapsed, Duration::from_millis(16));
    assert_eq!(first.state.shared.elapsed, Duration::from_millis(16));
}

#[test]
fn actions_outside_an_active_session_are_dropped() {
    let (mut store, _a, _b, _c) = three_queued();
    matchmake_with(&mut store, &seeds(1));
    let before = store.sessions()[0].state.shared.clone();
    process_actions(
        &mut store,
        vec![
            ActionSignal { action: Move::Draw, account: account(1) },
            ActionSignal { action: Move::Draw, account: account(3) },
        ],
        Duration::from_millis(16),
    );
    assert_eq!(store.sessions()[0].state.shared, before);
    assert!(update_client(&store).is_empty());
}

#[test]
fn every_member_is_shown_its_own_secret_only() {
    let (store, a, b, _c) = one_session();
    let out = update_client(&store);
    assert_eq!(out.len(), 2);
    assert_eq!(out[0].0, a);
    assert_eq!(out[0].1.index, a.bits);
    assert_eq!(out[0].1.shared, 100);
    assert_eq!(
        out[0].1.users,
        vec![(a.bits, HandInfo { cards: 5, secret: Some(1000) }), (b.bits, HandInfo { cards: 5, secret: None })]
    );
    assert_eq!(out[1].0, b);
    assert_eq!(out[1].1.index, b.bits);
    assert_eq!(
        out[1].1.users,
        vec![(a.bits, HandInfo { cards: 5, secret: None }), (b.bits, HandInfo { cards: 5, secret: Some(1001) })]
    );
    let direct = snapshot(&store.sessions()[0].state, b.bits);
    assert_eq!(direct.users, out[1].1.users);
    assert_eq!(direct.shared, 100);
    assert_eq!(direct.index, b.bits);
}

#[test]
fn a_tick_takes_its_steps_in_order() {
    let mut store = Server::new(2);
    let out = run_tick_with::<_, _, _, _, Move>(
        &mut store,
        vec![
            QueueSignal::Join { connection: 1, user_data: player(1), account: account(1) },
            QueueSignal::Join { connection: 2, user_data: player(2), account: account(2) },
        ],
        Vec::new(),
        &seeds(1),
        Vec::new(),
        Duration::from_millis(16),
    );
    let (a, b) = (Entity { bits: 0 }, Entity { bits: 1 });
    assert_eq!(out.queued, vec![a, b]);
    assert_eq!(out.lobbies, vec![vec![a, b]]);
    assert!(out.started.is_empty());
    assert!(out.snapshots.is_empty());
    let out = run_tick_with(
        &mut store,
        vec![QueueSignal::Accept { account: account(1) }, QueueSignal::Accept { account: account(2) }],
        vec![ReconnectSignal { connection: 9, account: account(2) }],
        &seeds(1),
        vec![ActionSignal { action: Move::Draw, account: account(1) }],
        Duration::from_millis(16),
    );
    assert!(out.queued.is_empty());
    assert!(out.lobbies.is_empty());
    assert_eq!(out.started, vec![Entity { bits: 2 }]);
    assert_eq!(out.snapshots.len(), 2);
    assert_eq!(out.snapshots[0].0, a);
    assert_eq!(out.snapshots[0].1.shared, 101);
    assert_eq!(out.snapshots[0].1.users[0], (a.bits, HandInfo { cards: 6, secret: Some(1000) }));
    assert_eq!(store.users()[1].connection, 9);
    assert_eq!(store.sessions()[0].state.shared.steps, 1);
    assert_eq!(store.sessions()[0].state.shared.elapsed, Duration::from_millis(16));
}

#[test]
fn a_tick_with_the_operating_systems_seeds_forms_the_lobbies() {
    let mut store = Server::new(2);
    let out = run_tick::<_, _, _, _, Move>(
        &mut store,
        vec![
            QueueSignal::Join { connection: 1, user_data: player(1), account: account(1) },
            QueueSignal::Join { connection: 2, user_data: player(2), account: account(2) },
            QueueSignal::Join { connection: 3, user_data: player(3), account: account(3) },
        ],
        Vec::new(),
        Vec::new(),
        Duration::from_millis(16),
    );
    assert_eq!(out.queued.len(), 3);
    assert_eq!(out.lobbies, vec![vec![Entity { bits: 0 }, Entity { bits: 1 }]]);
    assert_eq!(store.sessions().len(), 1);
    assert_eq!(store.users()[2].place, Place::Queue);
}

struct Table;

impl AsQueue for Table {
    type Action = Move;
}

#[test]
fn a_frame_that_cannot_be_read_costs_no_session_its_snapshots() {
    let mut store = Server::new(1);
    let a = store.join(account(1), player(1), 0).unwrap();
    let b = store.join(account(2), player(2), 0).unwrap();
    matchmake_with(&mut store, &seeds(2));
    assert!(store.accept(&account(1)));
    assert!(store.accept(&account(2)));
    assert_eq!(init_session(&mut store).len(), 2);
    let mut bridge = Bridge::new();
    assert!(matches!(bridge.read(OpCode::Binary, Some(Msg::join(ClientToken::Guest, Table)), 1), Reading::Forward(_)));
    let mut actions: Vec<ActionSignal<Move>> = Vec::new();
    match bridge.read::<Table>(OpCode::Binary, None, 2) {
        Reading::Forward(msg) => {
            if let ilium::msg::MsgType::Action(action) = msg.msg_type {
                actions.push(ActionSignal { action, account: account(1) });
            }
        }
        Reading::Dropped => {}
        _ => panic!("a frame that cannot be read is dropped"),
    }
    assert!(bridge.is_open());
    assert!(actions.is_empty());
    let out = run_tick_with(&mut store, Vec::new(), Vec::new(), &Vec::new(), actions, Duration::from_millis(16));
    assert_eq!(out.snapshots.len(), 2);
    assert_eq!(out.snapshots[0].0, a);
    assert_eq!(out.snapshots[1].0, b);
    assert_eq!(out.snapshots[0].1.users, vec![(a.bits, HandInfo { cards: 5, secret: Some(1000) })]);
    assert_eq!(out.snapshots[1].1.users, vec![(b.bits, HandInfo { cards: 5, secret: Some(1000) })]);
}

#[test]
fn a_client_that_is_gone_for_good_leaves_its_place_empty() {
    let (mut store, a, b, _c) = one_session();
    let gone = store.remove(&account(1)).unwrap();
    assert_eq!(gone.entity, a);
    assert_eq!(gone.connection, 10);
    assert!(store.remove(&account(1)).is_none());
    assert_eq!(store.lookup(&account(1)), None);
    let session = &store.sessions()[0];
    assert!(session.accepted);
    assert_eq!(session.lobby.entities(), vec![a, b]);
    assert_eq!(session.state.users.len(), 2);
    assert!(!store.is_deserted(EntityId(session.entity)));
    let out = update_client(&store);
    assert_eq!(out.len(), 1);
    assert_eq!(out[0].0, b);
    assert_eq!(out[0].1.users.len(), 2);
    assert!(store.remove(&account(2)).is_some());
    assert!(store.is_deserted(EntityId(store.sessions()[0].entity)));
    assert!(!store.is_deserted(EntityId(Entity { bits: 77 })));
    assert!(update_client(&store).is_empty());
    assert_eq!(store.join(account(1), player(1), 11), Some(Entity { bits: 4 }));
}

#[test]
fn an_ended_session_goes_with_its_members() {
    let mut store = Server::new(2);
    for n in 1..=5u16 {
        store.join(account(n), player(u64::from(n)), u32::from(n)).unwrap();
    }
    let formed = matchmake_with(&mut store, &seeds(2));
    assert_eq!(formed.len(), 2);
    let (first, second) = (store.sessions()[0].entity, store.sessions()[1].entity);
    assert!(store.end(EntityId(Entity { bits: 99 })).is_none());
    let gone = store.end(EntityId(first)).unwrap();
    assert_eq!(gone.iter().map(|u| u.connection).collect::<Vec<_>>(), vec![1, 2]);
    assert_eq!(store.sessions().len(), 1);
    assert_eq!(store.sessions()[0].entity, second);
    assert_eq!(store.session_of(second), Some(0));
    assert_eq!(store.session_of(first), None);
    assert_eq!(store.users().iter().map(|u| u.connection).collect::<Vec<_>>(), vec![3, 4, 5]);
    assert_eq!(store.users()[0].place, Place::Lobby { session: EntityId(second), accepted: false });
    assert_eq!(store.users()[2].place, Place::Queue);
    assert_eq!(store.lookup(&account(1)), None);
    assert_eq!(store.lookup(&account(3)), Some(0));
    assert_eq!(store.lookup(&account(5)), Some(2));
    assert!(store.end(EntityId(first)).is_none());
    assert_eq!(store.join(account(1), player(1), 1), Some(Entity { bits: 7 }));
    assert_eq!(plan(&store), vec![vec![Entity { bits: 7 }, Entity { bits: 4 }]]);
}

#[test]
fn an_active_session_can_be_ended() {
    let (mut store, _a, _b, c) = one_session();
    let session = store.sessions()[0].entity;
    let gone = store.end(EntityId(session)).unwrap();
    assert_eq!(gone.len(), 2);
    assert!(store.sessions().is_empty());
    assert_eq!(store.users().len(), 1);
    assert_eq!(store.users()[0].entity, c);
    assert!(!store.is_active(EntityId(session)));
    assert!(update_client(&store).is_empty());
}

#[test]
fn the_same_signals_give_the_same_ticks() {
    fn play() -> (Vec<(Entity, Vec<(u64, HandInfo)>, u32)>, Vec<(u32, u32)>) {
        let mut store = Server::new(2);
        let mut told = Vec::new();
        for round in 0..4u16 {
            let queue = vec![
                QueueSignal::Join { connection: 1, user_data: player(3), account: account(round * 2) },
                QueueSignal::Accept { account: account(0) },
                QueueSignal::Join { connection: 2, user_data: player(1), account: account(round * 2 + 1) },
                QueueSignal::Accept { account: account(1) },
                QueueSignal::Leave { account: account(5) },
            ];
            let actions = vec![
                ActionSignal { action: Move::Draw, account: account(1) },
                ActionSignal { action: Move::Draw, account: account(round) },
            ];
            let out = run_tick_with(&mut store, queue, Vec::new(), &seeds(1), actions, Duration::from_millis(16));
            told.extend(out.snapshots.into_iter().map(|(to, info)| (to, info.users, info.shared)));
        }
        let sessions = store.sessions().iter().map(|s| (s.state.shared.turns, s.state.shared.steps)).collect();
        (told, sessions)
    }
    let (first, sessions) = play();
    assert_eq!(play(), (first.clone(), sessions.clone()));
    assert!(!first.is_empty());
    assert_eq!(sessions.len(), 3);
}

#[test]
fn matchmaking_without_a_plan_succeeds_and_changes_nothing() {
    let mut empty = Server::new(2);
    assert_eq!(matchmake(&mut empty), Ok(Vec::new()));
    assert!(empty.sessions().is_empty());
    let mut store = Server::new(3);
    store.join(account(1), player(1), 10).unwrap();
    store.join(account(2), player(2), 20).unwrap();
    assert_eq!(matchmake(&mut store), Ok(Vec::new()));
    assert!(store.sessions().is_empty());
    assert_eq!(store.users().len(), 2);
    assert_eq!(store.users()[0].place, Place::Queue);
    assert_eq!(store.users()[1].place, Place::Queue);
    assert_eq!(store.join(account(3), player(3), 30), Some(Entity { bits: 2 }));
}
