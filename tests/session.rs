use multiplayer_game_demo_rust::client::{handshake_response, ClientSession, RemoteEvent, RemotePlayers};
use multiplayer_game_demo_rust::fsm::{SessionMode, State, StateMachine};
use multiplayer_game_demo_rust::globals::{clamp_player_to_bounds, world_bounds, CONNECTION_TIMEOUT_MS};
use multiplayer_game_demo_rust::message::{set_trace, trace, Message, TraceConfig};
use multiplayer_game_demo_rust::server::{
    color_from_rgb24, generate_color, is_noise, BroadcastMessage, Endpoint, ServerAction,
    ServerContext,
};
use multiplayer_game_demo_rust::{Color, Player, Point};

fn addr(port: u16) -> Endpoint {
    Endpoint { ip: 0xffff_7f00_0001, port }
}

fn ack_of(actions: &[ServerAction]) -> Message {
    match actions.last() {
        Some(ServerAction::Reply(m)) => *m,
        other => panic!("no reply: {:?}", other),
    }
}

#[test]
fn first_handshake_gets_id_one() {
    let mut server = ServerContext::new();
    let c = Color { r: 10, g: 20, b: 30 };
    let actions = server.accept_client(addr(5000), c);
    assert_eq!(
        actions,
        vec![
            ServerAction::PlayerJoined(1),
            ServerAction::StartPeriodicTasks,
            ServerAction::Reply(Message::Ack(1, c)),
        ]
    );
    let reply = ack_of(&actions).serialize();
    assert_eq!(reply, "ACK:1:#0A141E");
    let me = handshake_response(&reply).unwrap();
    assert_eq!(me.id, 1);
    assert_eq!(me.color, c);
    assert_eq!(me.pos, Point { x: 0, y: 0 });
}

#[test]
fn handshake_through_dispatch_gives_non_white_color() {
    let mut server = ServerContext::new();
    let actions = server.process_client_message(addr(1), "HANDSHAKE");
    match ack_of(&actions) {
        Message::Ack(id, c) => {
            assert_eq!(id, 1);
            assert!(!(c.r == 255 && c.g == 255 && c.b == 255));
        }
        other => panic!("unexpected {:?}", other),
    }
    assert_eq!(server.player_count(), 1);
}

#[test]
fn repeated_handshake_is_idempotent() {
    let mut server = ServerContext::new();
    let first = server.accept_client(addr(1), Color { r: 1, g: 2, b: 3 });
    let second = server.accept_client(addr(1), Color { r: 9, g: 9, b: 9 });
    assert_eq!(ack_of(&first), ack_of(&second));
    assert_eq!(second.len(), 1);
    assert_eq!(server.player_count(), 1);
    let again = server.process_client_message(addr(1), "HANDSHAKE");
    assert_eq!(again, vec![ServerAction::Reply(Message::Ack(1, Color { r: 1, g: 2, b: 3 }))]);
}

#[test]
fn second_client_does_not_disturb_first() {
    let mut server = ServerContext::new();
    let c1 = Color { r: 100, g: 0, b: 0 };
    let c2 = Color { r: 0, g: 100, b: 0 };
    server.accept_client(addr(1), c1);
    let second = server.accept_client(addr(2), c2);
    assert_eq!(
        second,
        vec![ServerAction::PlayerJoined(2), ServerAction::Reply(Message::Ack(2, c2))]
    );
    let again = server.accept_client(addr(1), Color { r: 5, g: 5, b: 5 });
    assert_eq!(again, vec![ServerAction::Reply(Message::Ack(1, c1))]);
    assert_eq!(server.player_at(addr(1)).unwrap().id, 1);
    assert_eq!(server.player_at(addr(1)).unwrap().color, c1);
}

#[test]
fn ids_increase_and_are_never_reused() {
    let mut server = ServerContext::new();
    let c = Color { r: 0, g: 0, b: 0 };
    let mut ids = Vec::new();
    for port in 1..=5u16 {
        ids.push(match ack_of(&server.accept_client(addr(port), c)) {
            Message::Ack(id, _) => id,
            _ => unreachable!(),
        });
        if port == 3 {
            server.drop_player(addr(2), 2);
        }
    }
    assert_eq!(ids, vec![1, 2, 3, 4, 5]);
    let back = server.accept_client(addr(2), c);
    assert_eq!(ack_of(&back), Message::Ack(6, c));
    assert_eq!(server.player_count(), 5);
}

#[test]
fn leave_is_broadcast_to_the_others_only() {
    let mut server = ServerContext::new();
    let c = Color { r: 0, g: 0, b: 0 };
    server.accept_client(addr(1), c);
    server.accept_client(addr(2), c);
    let actions = server.process_client_message(addr(1), "LEAVE:1");
    assert_eq!(
        actions,
        vec![
            ServerAction::PlayerLeft(1),
            ServerAction::Broadcast(BroadcastMessage {
                msg: Message::Leave(1),
                excluded_client: Some(addr(1)),
            }),
        ]
    );
    assert_eq!(server.player_at(addr(1)), None);
    assert_eq!(server.player_count(), 1);
    assert_eq!(Message::Leave(1).serialize(), "LEAVE:1");
    assert_eq!(server.recipients(Some(addr(1))), vec![addr(2)]);
}

#[test]
fn recipients_skip_the_excluded_address() {
    let mut server = ServerContext::new();
    let c = Color { r: 0, g: 0, b: 0 };
    for port in 1..=3u16 {
        server.accept_client(addr(port), c);
    }
    assert_eq!(server.recipients(None), vec![addr(1), addr(2), addr(3)]);
    assert_eq!(server.recipients(Some(addr(2))), vec![addr(1), addr(3)]);
    assert_eq!(server.recipients(Some(addr(9))), vec![addr(1), addr(2), addr(3)]);
}

#[test]
fn position_with_wrong_id_is_ignored() {
    let mut server = ServerContext::new();
    let c = Color { r: 0, g: 0, b: 0 };
    server.accept_client(addr(1), c);
    server.accept_client(addr(2), c);
    server.process_client_message(addr(1), "POS:2:50,60");
    assert_eq!(server.player_at(addr(1)).unwrap().pos, Point { x: 0, y: 0 });
    assert_eq!(server.player_at(addr(2)).unwrap().pos, Point { x: 0, y: 0 });
    server.process_client_message(addr(3), "POS:3:50,60");
    assert_eq!(server.player_count(), 2);
    server.process_client_message(addr(1), "POS:1:50,60");
    assert_eq!(server.player_at(addr(1)).unwrap().pos, Point { x: 50, y: 60 });
}

#[test]
fn position_is_clamped_on_each_axis() {
    let mut server = ServerContext::new();
    server.accept_client(addr(1), Color { r: 0, g: 0, b: 0 });
    server.update_position(addr(1), 1, Point { x: 5000, y: -30 });
    assert_eq!(server.player_at(addr(1)).unwrap().pos, Point { x: 1188, y: -30 });
    server.update_position(addr(1), 1, Point { x: -1200, y: 1189 });
    assert_eq!(server.player_at(addr(1)).unwrap().pos, Point { x: -1188, y: 1188 });
}

#[test]
fn simulation_step_replicates_each_player_to_the_others() {
    let mut server = ServerContext::new();
    let c = Color { r: 0, g: 0, b: 0 };
    server.accept_client(addr(1), c);
    server.accept_client(addr(2), c);
    server.update_position(addr(2), 2, Point { x: 7, y: 8 });
    let out = server.simulation_step();
    assert_eq!(out.len(), 2);
    assert_eq!(out[0].excluded_client, Some(addr(1)));
    assert_eq!(out[1].excluded_client, Some(addr(2)));
    assert_eq!(out[1].msg.serialize(), "REPL:2:7,8,#000000");
}

#[test]
fn clamp_player_keeps_square_inside_world() {
    let b = world_bounds();
    assert_eq!((b.min_x, b.min_y, b.max_x, b.max_y), (-1200, -1200, 1200, 1200));
    let mut p = Player::new(1, Color { r: 0, g: 0, b: 0 });
    p.pos = Point { x: -5000, y: 5000 };
    clamp_player_to_bounds(&mut p);
    assert_eq!(p.pos, Point { x: -1188, y: 1188 });
    p.pos = Point { x: 3, y: -4 };
    clamp_player_to_bounds(&mut p);
    assert_eq!(p.pos, Point { x: 3, y: -4 });
}

#[test]
fn malformed_and_noise_are_dropped() {
    let mut server = ServerContext::new();
    assert_eq!(server.process_client_message(addr(1), "ACK:1:#000000"), vec![]);
    assert_eq!(server.process_client_message(addr(1), "garbage"), vec![]);
    assert_eq!(server.player_count(), 0);
    assert!(is_noise(0));
    assert!(is_noise(1));
    assert!(!is_noise(2));
}

#[test]
fn colors_are_split_from_24_bits() {
    assert_eq!(color_from_rgb24(0x12_34_56), Color { r: 0x12, g: 0x34, b: 0x56 });
    assert_eq!(color_from_rgb24(0xFF_FF_FE), Color { r: 255, g: 255, b: 254 });
}

#[test]
fn generated_colors_are_never_white() {
    for _ in 0..1000 {
        let c = generate_color();
        assert!(!(c.r == 255 && c.g == 255 && c.b == 255));
    }
}

#[test]
fn liveness_follows_heartbeats() {
    let me = Player::new(1, Color { r: 0, g: 0, b: 0 });
    let mut session = ClientSession::new(me, 1000);
    assert!(session.is_server_alive(1000));
    assert!(session.is_server_alive(1000 + CONNECTION_TIMEOUT_MS - 1));
    assert!(!session.is_server_alive(1000 + CONNECTION_TIMEOUT_MS));
    session.receive_server_response("POS:1:1,1", 7000);
    assert!(!session.is_server_alive(7000));
    session.receive_server_response("PING", 7000);
    assert!(session.is_server_alive(7000));
    assert!(session.is_server_alive(500));
    assert_eq!(session.get_session_player_data(), me);
}

#[test]
fn client_messages_are_encoded() {
    let mut me = Player::new(4, Color { r: 0, g: 0, b: 0 });
    me.pos = Point { x: -3, y: 12 };
    let session = ClientSession::new(me, 0);
    assert_eq!(session.send_pos(&me), "POS:4:-3,12");
    assert_eq!(session.leave_server(4), "LEAVE:4");
}

#[test]
fn handshake_response_needs_an_ack() {
    assert_eq!(handshake_response("PING"), None);
    assert_eq!(handshake_response("ACK:x:#000000"), None);
    let p = handshake_response("ACK:9:#010203").unwrap();
    assert_eq!(p, Player::new(9, Color { r: 1, g: 2, b: 3 }));
}

#[test]
fn remote_players_follow_the_server() {
    let mut remote = RemotePlayers::new();
    assert_eq!(remote.process_server_response("REPL:2:5,6,#0000FF"), RemoteEvent::Replicated(2));
    assert_eq!(remote.get(2).unwrap().pos, Point { x: 5, y: 6 });
    assert_eq!(remote.process_server_response("POS:2:-1,-2"), RemoteEvent::Moved(2));
    assert_eq!(remote.get(2).unwrap().pos, Point { x: -1, y: -2 });
    assert_eq!(remote.get(2).unwrap().color, Color { r: 0, g: 0, b: 255 });
    assert_eq!(remote.process_server_response("POS:3:1,1"), RemoteEvent::Ignored);
    assert_eq!(remote.len(), 1);
    assert_eq!(remote.process_server_response("LEAVE:2"), RemoteEvent::Left(2));
    assert_eq!(remote.get(2), None);
    assert_eq!(remote.process_server_response("PING"), RemoteEvent::Ignored);
    remote.process_server_response("REPL:3:0,0,#000000");
    remote.clear();
    assert_eq!(remote.len(), 0);
}

#[test]
fn state_machine_is_a_stack() {
    let mut fsm = StateMachine::new();
    assert!(fsm.peek().is_none());
    fsm.push(State::Menu);
    fsm.push(State::QuitDialog);
    assert!(matches!(fsm.peek(), Some(State::QuitDialog)));
    fsm.pop();
    assert!(matches!(fsm.peek(), Some(State::Menu)));
    fsm.change(State::Connecting {
        server_address: "127.0.0.1:8080".to_string(),
        session_mode: SessionMode::CreateServer,
    });
    if let Some(State::Connecting { server_address, .. }) = fsm.peek_mut() {
        server_address.push_str("0");
    }
    match fsm.peek() {
        Some(State::Connecting { server_address, session_mode }) => {
            assert_eq!(server_address, "127.0.0.1:80800");
            assert_eq!(*session_mode, SessionMode::CreateServer);
        }
        _ => panic!("expected Connecting"),
    }
    fsm.pop();
    assert!(fsm.peek().is_none());
    fsm.pop();
    assert!(fsm.peek_mut().is_none());
}

#[test]
fn trace_lines_only_when_enabled() {
    let mut config = TraceConfig { enabled: false };
    assert_eq!(trace(&config, "Sent: PING"), None);
    set_trace(&mut config, true);
    assert_eq!(trace(&config, "Sent: PING"), Some("[TRACE] Sent: PING".to_string()));
}

#[test]
fn default_player_is_at_origin() {
    let p = Player::default();
    assert_eq!(p, Player::new(0, Color { r: 0, g: 0, b: 0 }));
}

#[test]
fn snapshot_lists_every_remote_player_once() {
    let mut remote = RemotePlayers::new();
    remote.process_server_response("REPL:1:1,1,#000000");
    remote.process_server_response("REPL:2:2,2,#000000");
    remote.process_server_response("REPL:2:3,3,#000000");
    let mut all = remote.snapshot();
    all.sort_by_key(|p| p.id);
    assert_eq!(all.len(), 2);
    assert_eq!(all[0].pos, Point { x: 1, y: 1 });
    assert_eq!(all[1].pos, Point { x: 3, y: 3 });
}
