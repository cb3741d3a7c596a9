use ilium::account::{auth, Account, AccountMap, PeerAddr};
use ilium::entity::{AsIndex, Entity};
use ilium::msg::{route, AsQueue, Channel, Msg, MsgType};
use ilium::queue::Lobby;
use ilium::token::ClientToken;
use ilium::ws::{Beat, Bridge, OpCode, Reading, HEARTBEAT_INTERVAL, OUTBOUND_CAPACITY};

#[derive(Debug, PartialEq)]
enum Table {
    Chess,
}

impl AsQueue for Table {
    type Action = u8;
}

fn from(port: u16) -> PeerAddr {
    PeerAddr { v6: true, ip: 1, port, flowinfo: 0, scope_id: 0 }
}

#[test]
fn a_frame_that_cannot_be_read_is_dropped_and_the_connection_stays() {
    let mut bridge = Bridge::new();
    assert!(matches!(bridge.read(OpCode::Binary, Some(Msg::join(ClientToken::Guest, Table::Chess)), 5), Reading::Forward(_)));
    assert_eq!(bridge.token(), Some(ClientToken::Guest));
    assert!(matches!(bridge.read::<Table>(OpCode::Binary, None, 6), Reading::Dropped));
    assert!(bridge.is_open());
    assert_eq!(bridge.token(), Some(ClientToken::Guest));
    assert_eq!(bridge.latency(), None);
    assert!(matches!(bridge.read(OpCode::Binary, Some(Msg::accept(ClientToken::Guest, Table::Chess)), 7), Reading::Forward(_)));
}

#[test]
fn a_readable_message_is_handed_on_as_it_is() {
    let mut bridge = Bridge::new();
    assert_eq!(bridge.token(), None);
    let msg = Msg { token: ClientToken::Guest, queue: Table::Chess, msg_type: MsgType::Action(9) };
    match bridge.read(OpCode::Binary, Some(msg), 0) {
        Reading::Forward(m) => {
            assert_eq!(m.queue, Table::Chess);
            assert!(matches!(m.msg_type, MsgType::Action(9)));
        }
        _ => panic!("the message was not handed on"),
    }
}

#[test]
fn a_close_frame_stops_the_reader() {
    let mut bridge = Bridge::new();
    assert!(matches!(bridge.read::<Table>(OpCode::Close, None, 0), Reading::Stop));
    assert!(bridge.is_open());
    bridge.task_ended();
    assert!(!bridge.is_open());
}

#[test]
fn a_pong_measures_the_last_ping() {
    let mut bridge = Bridge::new();
    assert!(matches!(bridge.read::<Table>(OpCode::Pong, None, 50), Reading::Ignored));
    assert_eq!(bridge.latency(), None);
    bridge.ping(1_000);
    assert!(matches!(bridge.read::<Table>(OpCode::Pong, None, 1_042), Reading::Latency(42)));
    assert_eq!(bridge.latency(), Some(42));
    bridge.ping(4_000);
    assert!(matches!(bridge.read::<Table>(OpCode::Pong, None, 4_007), Reading::Latency(7)));
    assert_eq!(bridge.latency(), Some(7));
    assert!(matches!(bridge.read::<Table>(OpCode::Pong, None, 3_000), Reading::Latency(0)));
    assert_eq!(bridge.latency(), Some(0));
}

#[test]
fn other_frames_are_ignored() {
    let mut bridge = Bridge::new();
    bridge.ping(10);
    for opcode in [OpCode::Continuation, OpCode::Text, OpCode::Ping] {
        assert!(matches!(bridge.read::<Table>(opcode, None, 20), Reading::Ignored));
    }
    assert_eq!(bridge.latency(), None);
    assert_eq!(bridge.token(), None);
}

#[test]
fn the_heartbeat_stops_when_a_ping_cannot_be_queued() {
    let mut bridge = Bridge::new();
    assert_eq!(bridge.after_ping(true), Beat::Sleep { millis: 3000 });
    assert!(bridge.is_open());
    assert_eq!(bridge.after_ping(false), Beat::Stop);
    assert!(!bridge.is_open());
    assert_eq!(HEARTBEAT_INTERVAL, 3000);
    assert_eq!(OUTBOUND_CAPACITY, 100);
}

#[test]
fn a_message_travels_on_the_channel_of_its_kind() {
    let ip = from(4000);
    let kinds = [
        (Msg::join(ClientToken::Guest, Table::Chess), Channel::Queue),
        (Msg::accept(ClientToken::Guest, Table::Chess), Channel::Queue),
        (Msg::leave(ClientToken::Guest, Table::Chess), Channel::Queue),
        (Msg { token: ClientToken::Guest, queue: Table::Chess, msg_type: MsgType::Reconnect }, Channel::Reconnect),
        (Msg { token: ClientToken::Guest, queue: Table::Chess, msg_type: MsgType::Action(3) }, Channel::Action),
    ];
    for (msg, channel) in kinds {
        let routed = route(msg, ip);
        assert_eq!(routed.channel(), channel);
        assert_eq!(routed.account, Account::Guest { ip });
        assert_eq!(routed.queue, Table::Chess);
    }
}

#[test]
fn the_constructors_set_the_kind() {
    assert!(matches!(Msg::join(ClientToken::Guest, Table::Chess).msg_type, MsgType::Join));
    assert!(matches!(Msg::accept(ClientToken::Guest, Table::Chess).msg_type, MsgType::Accept));
    assert!(matches!(Msg::leave(ClientToken::Guest, Table::Chess).msg_type, MsgType::Leave));
}

#[test]
fn a_guest_is_known_by_its_address() {
    assert_eq!(auth(ClientToken::Guest, from(1)), Account::Guest { ip: from(1) });
    assert_ne!(auth(ClientToken::Guest, from(1)), auth(ClientToken::Guest, from(2)));
    let v4 = PeerAddr { v6: false, ..from(1) };
    assert_ne!(auth(ClientToken::Guest, from(1)).key(), auth(ClientToken::Guest, v4).key());
    assert_eq!(auth(ClientToken::Guest, from(7)).key(), (1, 1, 7, 0, 0));
}

#[test]
fn the_registry_maps_accounts_to_entities() {
    let mut accounts = AccountMap::new();
    let (a, b) = (Account::Guest { ip: from(1) }, Account::Guest { ip: from(2) });
    assert_eq!(accounts.get(&a), None);
    assert!(!accounts.contains(&a));
    accounts.insert(a, Entity { bits: 5 });
    accounts.insert(b, Entity { bits: 6 });
    assert_eq!(accounts.get(&a), Some(Entity { bits: 5 }));
    assert_eq!(accounts.get(&b), Some(Entity { bits: 6 }));
    accounts.insert(a, Entity { bits: 9 });
    assert_eq!(accounts.get(&a), Some(Entity { bits: 9 }));
    accounts.remove(&a);
    assert_eq!(accounts.get(&a), None);
    assert!(accounts.contains(&b));
    accounts.remove(&a);
    assert_eq!(accounts.get(&b), Some(Entity { bits: 6 }));
}

#[test]
fn an_entity_travels_as_its_number() {
    let e = Entity::from_bits(77);
    assert_eq!(e.to_bits(), 77);
    assert_eq!(e.to_index(), 77);
    assert_eq!(Entity::from_index(77), Some(e));
    assert_eq!(Entity::from_index(u64::MAX), Some(Entity { bits: u64::MAX }));
}

#[test]
fn a_lobby_has_the_size_asked_for() {
    let members = vec![Entity { bits: 1 }, Entity { bits: 2 }];
    assert!(Lobby::try_from(&members, 3).is_none());
    assert!(Lobby::try_from(&members, 1).is_none());
    let lobby = Lobby::try_from(&members, 2).unwrap();
    assert_eq!(lobby.len(), 2);
    assert!(!lobby.is_empty());
    assert_eq!(lobby.entities(), members);
    assert_eq!(lobby.entity(1), Entity { bits: 2 });
    assert_eq!(lobby.place_of(Entity { bits: 2 }), Some(1));
    assert_eq!(lobby.place_of(Entity { bits: 3 }), None);
    assert_eq!(lobby.clone().entities(), members);
    assert!(Lobby::try_from(&Vec::new(), 0).unwrap().is_empty());
}
