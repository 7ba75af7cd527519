use chaintalk::models::{ServerMessage, UserAuth};
use chaintalk::state::{AppState, Mailbox, Room};
use chaintalk::websocket::{
    dispatch_command, disconnect, display_name, handle_send_text, welcome_message, ConnState,
    DispatchOutcome,
};
use chaintalk::models::ClientMessage;
use chaintalk::error::AppError;

fn text(t: &str) -> ServerMessage {
    ServerMessage::NewText {
        id: String::from("id"),
        from: String::from("f"),
        text: String::from(t),
        room: String::from("general"),
        timestamp: 0,
    }
}

fn authed(state: &mut AppState, addr: &str) -> String {
    let a = String::from(addr);
    state.add_client(a.clone(), None);
    let general = String::from("general");
    assert!(state.join_room(&a, &general));
    a
}

#[test]
fn room_history_is_bounded_to_most_recent_hundred() {
    let mut state = AppState::new();
    let general = String::from("general");
    for i in 0..150u32 {
        state.broadcast_to_room(&general, text(&format!("m{}", i)));
    }
    let room: &Room = state
        .rooms
        .iter()
        .find(|r| r.name == "general")
        .expect("default room");
    assert_eq!(room.message_history.len(), 100);
    for (k, m) in room.message_history.iter().enumerate() {
        match m {
            ServerMessage::NewText { text: t, .. } => {
                assert_eq!(t, &format!("m{}", 50 + k));
            }
            _ => panic!("unexpected message kind"),
        }
    }
}

#[test]
fn join_and_leave_keep_both_registries_consistent() {
    let mut state = AppState::new();
    let a = authed(&mut state, "0xaaa");
    let b = authed(&mut state, "0xbbb");
    let lobby = String::from("lobby");
    assert!(state.join_room(&a, &lobby));
    assert!(state.join_room(&b, &lobby));
    state.leave_room(&a, &lobby);
    let users = state.get_room_users(&lobby);
    assert_eq!(users, vec![String::from("0xbbb")]);
    let client_a = state.get_client(&a).expect("client a");
    assert!(!client_a.current_rooms.iter().any(|r| r == "lobby"));
    let client_b = state.get_client(&b).expect("client b");
    assert!(client_b.current_rooms.iter().any(|r| r == "lobby"));
    // leaving twice is idempotent
    state.leave_room(&a, &lobby);
    assert_eq!(state.get_room_users(&lobby), vec![String::from("0xbbb")]);
}

#[test]
fn join_without_session_creates_room_but_no_membership() {
    let mut state = AppState::new();
    let ghost_addr = String::from("0xghost");
    let lobby = String::from("lobby");
    assert!(!state.join_room(&ghost_addr, &lobby));
    assert!(state.rooms.iter().any(|r| r.name == "lobby"));
    assert!(state.get_room_users(&lobby).is_empty());
}

#[test]
fn disconnect_cascades_one_leave_event_per_room() {
    let mut state = AppState::new();
    let a = authed(&mut state, "0xaaa");
    let _b = authed(&mut state, "0xbbb");
    let room_a = String::from("alpha");
    let room_b = String::from("beta");
    assert!(state.join_room(&a, &room_a));
    assert!(state.join_room(&a, &room_b));
    let hist_a_before = state
        .rooms
        .iter()
        .find(|r| r.name == "alpha")
        .unwrap()
        .message_history
        .len();
    let left = state.remove_client(&a, 7);
    let mut left_sorted = left.clone();
    left_sorted.sort();
    assert_eq!(
        left_sorted,
        vec![String::from("alpha"), String::from("beta"), String::from("general")]
    );
    for name in ["alpha", "beta"] {
        let room = state.rooms.iter().find(|r| r.name == name).unwrap();
        assert!(room.users.is_empty());
        assert_eq!(room.message_history.len(), hist_a_before + 1);
        match room.message_history.last().unwrap() {
            ServerMessage::UserLeft { user, room: rn, timestamp, .. } => {
                assert_eq!(user, "0xaaa");
                assert_eq!(rn, name);
                assert_eq!(*timestamp, 7);
            }
            _ => panic!("expected a leave notice"),
        }
    }
    assert!(state.get_client(&a).is_none());
}

#[test]
fn add_client_overwrites_prior_session() {
    let mut state = AppState::new();
    let a = authed(&mut state, "0xaaa");
    let lobby = String::from("lobby");
    assert!(state.join_room(&a, &lobby));
    state.add_client(a.clone(), Some(String::from("alice.eth")));
    let c = state.get_client(&a).expect("client");
    assert!(c.current_rooms.is_empty());
    assert_eq!(c.ens_name.as_deref(), Some("alice.eth"));
    assert!(state.get_room_users(&lobby).is_empty());
}

#[test]
fn mailbox_drops_oldest_and_counts_lag() {
    let mut mb = Mailbox::new(2);
    mb.push(text("one"));
    mb.push(text("two"));
    mb.push(text("three"));
    assert_eq!(mb.items.len(), 2);
    match &mb.items[0] {
        ServerMessage::NewText { text: t, .. } => assert_eq!(t, "two"),
        _ => panic!(),
    }
    assert_eq!(mb.lagged, 1);
    assert_eq!(mb.take_lag(), 1);
    assert_eq!(mb.lagged, 0);
    let next = mb.take_next().unwrap();
    match next {
        ServerMessage::NewText { text: t, .. } => assert_eq!(t, "two"),
        _ => panic!(),
    }
    assert_eq!(mb.items.len(), 1);
}

#[test]
fn send_text_requires_membership_and_produces_no_broadcast() {
    let mut state = AppState::new();
    let a = authed(&mut state, "0xaaaaaaaaaaaaaaaa");
    let lobby = String::from("lobby");
    assert!(state.join_room(&String::from("0xother"), &lobby) == false);
    state.join_room(&a, &lobby);
    let private = String::from("private");
    let b = authed(&mut state, "0xbbb");
    assert!(state.join_room(&b, &private));
    let before: usize = state
        .rooms
        .iter()
        .find(|r| r.name == "private")
        .unwrap()
        .message_history
        .len();
    let r = handle_send_text(&mut state, &a, &private, &String::from("hi"), 1);
    match r {
        Err(AppError::AuthorizationFailed(_)) => {}
        other => panic!("expected authorization failure, got {:?}", other),
    }
    let after = state
        .rooms
        .iter()
        .find(|r| r.name == "private")
        .unwrap()
        .message_history
        .len();
    assert_eq!(before, after);
}

#[test]
fn send_text_rejects_blank_and_overlong() {
    let mut state = AppState::new();
    let a = authed(&mut state, "0xaaa");
    let general = String::from("general");
    match handle_send_text(&mut state, &a, &general, &String::from("   \t\n"), 1) {
        Err(AppError::InvalidRequest(_)) => {}
        other => panic!("expected invalid request, got {:?}", other),
    }
    let long = "x".repeat(1001);
    match handle_send_text(&mut state, &a, &general, &long, 1) {
        Err(AppError::InvalidRequest(_)) => {}
        other => panic!("expected invalid request, got {:?}", other),
    }
    let ok = handle_send_text(&mut state, &a, &general, &String::from("hello"), 1);
    assert!(ok.is_ok());
    let room = state.rooms.iter().find(|r| r.name == "general").unwrap();
    match room.message_history.last().unwrap() {
        ServerMessage::NewText { text: t, from, .. } => {
            assert_eq!(t, "hello");
            assert_eq!(from, "0xaaa");
        }
        _ => panic!(),
    }
}

#[test]
fn text_broadcast_reaches_other_members_mailboxes() {
    let mut state = AppState::new();
    let a = authed(&mut state, "0xaaaaaaaaaaaaaaaaaaaa");
    let b = authed(&mut state, "0xbbb");
    let general = String::from("general");
    let r = handle_send_text(&mut state, &a, &general, &String::from("hi"), 5);
    assert!(r.is_ok());
    let client_b = state.get_client(&b).unwrap();
    match client_b.mailbox.items.last().unwrap() {
        ServerMessage::NewText { from, text: t, room, timestamp, .. } => {
            // long addresses are shortened to first six and last four
            assert_eq!(from, "0xaaaa...aaaa");
            assert_eq!(t, "hi");
            assert_eq!(room, "general");
            assert_eq!(*timestamp, 5);
        }
        _ => panic!(),
    }
}

#[test]
fn dispatcher_enforces_the_authentication_gate() {
    let unauth = ConnState::new();
    match dispatch_command(&unauth, ClientMessage::Ping) {
        DispatchOutcome::Reject(AppError::AuthenticationFailed(m)) => {
            assert_eq!(m, "Not authenticated");
        }
        _ => panic!(),
    }
    match dispatch_command(
        &unauth,
        ClientMessage::Authenticate { message: String::from("m"), signature: String::from("s") },
    ) {
        DispatchOutcome::RunSiweAuth { message, signature } => {
            assert_eq!(message, "m");
            assert_eq!(signature, "s");
        }
        _ => panic!(),
    }
    let authed_conn = ConnState {
        authenticated: true,
        user_address: Some(String::from("0xaaa")),
    };
    match dispatch_command(
        &authed_conn,
        ClientMessage::Authenticate { message: String::from("m"), signature: String::from("s") },
    ) {
        DispatchOutcome::Reject(AppError::AuthenticationFailed(m)) => {
            assert_eq!(m, "Already authenticated");
        }
        _ => panic!(),
    }
}

#[test]
fn disconnect_without_session_changes_nothing() {
    let mut state = AppState::new();
    let mut conn = ConnState::new();
    let left = disconnect(&mut state, &mut conn, 0);
    assert!(left.is_empty());
    assert!(!conn.authenticated);
}

#[test]
fn welcome_message_has_the_expected_shape() {
    match welcome_message(42) {
        ServerMessage::NewText { from, text, room, timestamp, id } => {
            assert_eq!(from, "System");
            assert_eq!(text, "Welcome to ChainTalk! Please authenticate to start chatting.");
            assert_eq!(room, "system");
            assert_eq!(timestamp, 42);
            assert_eq!(id.len(), 36);
        }
        _ => panic!(),
    }
}

#[test]
fn display_name_prefers_ens_and_shortens_addresses() {
    assert_eq!(
        display_name(&String::from("0xabc"), &Some(String::from("alice.eth"))),
        "alice.eth"
    );
    assert_eq!(display_name(&String::from("0xabc"), &None), "0xabc");
    assert_eq!(
        display_name(&String::from("0x1234567890abcdef"), &None),
        "0x1234...cdef"
    );
}

#[test]
fn user_auth_cache_overwrites_by_address() {
    let mut state = AppState::new();
    let auth1 = UserAuth {
        address: String::from("0xaaa"),
        ens_name: None,
        token_holdings: vec![],
        nft_holdings: vec![],
    };
    let auth2 = UserAuth {
        address: String::from("0xaaa"),
        ens_name: Some(String::from("alice.eth")),
        token_holdings: vec![],
        nft_holdings: vec![],
    };
    state.cache_user_auth(auth1);
    state.cache_user_auth(auth2);
    let got = state.get_cached_user_auth(&String::from("0xaaa")).unwrap();
    assert_eq!(got.ens_name.as_deref(), Some("alice.eth"));
    assert!(state.get_cached_user_auth(&String::from("0xbbb")).is_none());
}

#[test]
fn recent_messages_return_the_tail_in_order() {
    let mut state = AppState::new();
    let general = String::from("general");
    for i in 0..5u32 {
        state.broadcast_to_room(&general, text(&format!("m{}", i)));
    }
    let room = state.rooms.iter().find(|r| r.name == "general").unwrap();
    let recent = room.get_recent_messages(2);
    assert_eq!(recent.len(), 2);
    match &recent[0] {
        ServerMessage::NewText { text: t, .. } => assert_eq!(t, "m3"),
        _ => panic!(),
    }
    match &recent[1] {
        ServerMessage::NewText { text: t, .. } => assert_eq!(t, "m4"),
        _ => panic!(),
    }
}

#[test]
fn online_users_resolve_display_names() {
    let mut state = AppState::new();
    let a = String::from("0xaaa");
    state.add_client(a.clone(), Some(String::from("alice.eth")));
    let general = String::from("general");
    assert!(state.join_room(&a, &general));
    let online = state.get_online_users(&general);
    assert_eq!(online.len(), 1);
    assert_eq!(online[0].address, "0xaaa");
    assert_eq!(online[0].ens_name.as_deref(), Some("alice.eth"));
}

#[test]
fn join_announcements_carry_a_roster_update() {
    let mut state = AppState::new();
    let a = authed(&mut state, "0xaaa");
    let general = String::from("general");
    let before = state
        .rooms
        .iter()
        .find(|r| r.name == "general")
        .unwrap()
        .message_history
        .len();
    state.broadcast_user_joined(&general, &a, 3);
    let room = state.rooms.iter().find(|r| r.name == "general").unwrap();
    assert_eq!(room.message_history.len(), before + 2);
    match &room.message_history[before] {
        ServerMessage::UserJoined { user, room: rn, timestamp, .. } => {
            assert_eq!(user, "0xaaa");
            assert_eq!(rn, "general");
            assert_eq!(*timestamp, 3);
        }
        _ => panic!("expected the join notice"),
    }
    match &room.message_history[before + 1] {
        ServerMessage::OnlineUsers { users, room: rn } => {
            assert_eq!(rn, "general");
            assert_eq!(users.len(), 1);
            assert_eq!(users[0].address, "0xaaa");
        }
        _ => panic!("expected the roster update"),
    }
}

#[test]
fn ping_answers_into_the_senders_mailbox() {
    let mut state = AppState::new();
    let a = authed(&mut state, "0xaaa");
    let r = chaintalk::websocket::handle_ping(&mut state, &a);
    assert!(r.is_ok());
    let me = state.get_client(&a).unwrap();
    assert!(matches!(me.mailbox.items.last().unwrap(), ServerMessage::Pong));
}

#[test]
fn room_listing_reports_member_counts() {
    let mut state = AppState::new();
    let a = authed(&mut state, "0xaaa");
    let lobby = String::from("lobby");
    assert!(state.join_room(&a, &lobby));
    let list = state.list_rooms();
    assert_eq!(list.len(), 2);
    assert!(list.iter().any(|(n, c)| n == "general" && *c == 1));
    assert!(list.iter().any(|(n, c)| n == "lobby" && *c == 1));
}

#[test]
fn nonce_keys_follow_the_persisted_layout() {
    assert_eq!(chaintalk::challenge::nonce_key(&String::from("abc")), "nonce:abc");
}

#[test]
fn join_handler_announces_and_snapshots_the_roster() {
    let mut state = AppState::new();
    let long = "0x1234567890abcdef1234";
    let a = authed(&mut state, long);
    let lobby = String::from("lobby");
    let r = chaintalk::websocket::handle_join_room(&mut state, &a, &lobby, 9);
    assert!(r.is_ok());
    let room = state.rooms.iter().find(|r| r.name == "lobby").unwrap();
    // the created room holds exactly the join notice, under the full
    // address (no shortening outside text messages)
    assert_eq!(room.message_history.len(), 1);
    match &room.message_history[0] {
        ServerMessage::UserJoined { user, room: rn, timestamp, .. } => {
            assert_eq!(user, long);
            assert_eq!(rn, "lobby");
            assert_eq!(*timestamp, 9);
        }
        other => panic!("expected the join notice, got {:?}", other),
    }
    // the joiner's mailbox ends with the roster snapshot
    let me = state.get_client(&a).unwrap();
    let n = me.mailbox.items.len();
    assert!(n >= 2);
    match &me.mailbox.items[n - 1] {
        ServerMessage::RoomUsers { room: rn, users } => {
            assert_eq!(rn, "lobby");
            assert_eq!(users, &vec![a.clone()]);
        }
        other => panic!("expected the roster snapshot, got {:?}", other),
    }
    assert!(matches!(
        &me.mailbox.items[n - 2],
        ServerMessage::UserJoined { user, .. } if user == long
    ));
}

#[test]
fn leave_handler_announces_the_departure() {
    let mut state = AppState::new();
    let a = authed(&mut state, "0xaaa");
    let before = state
        .rooms
        .iter()
        .find(|r| r.name == "general")
        .unwrap()
        .message_history
        .len();
    let r = chaintalk::websocket::handle_leave_room(&mut state, &a, &String::from("general"), 4);
    assert!(r.is_ok());
    let room = state.rooms.iter().find(|r| r.name == "general").unwrap();
    assert_eq!(room.message_history.len(), before + 1);
    match room.message_history.last().unwrap() {
        ServerMessage::UserLeft { user, room: rn, timestamp, .. } => {
            assert_eq!(user, "0xaaa");
            assert_eq!(rn, "general");
            assert_eq!(*timestamp, 4);
        }
        other => panic!("expected the leave notice, got {:?}", other),
    }
    assert!(room.users.is_empty());
}

#[test]
fn error_bodies_hide_internal_detail() {
    let internal = AppError::DatabaseError(String::from("connection refused"));
    assert_eq!(internal.response_message(), "Internal server error");
    let auth = AppError::InvalidNonce;
    assert_eq!(auth.response_message(), "Invalid nonce");
}
