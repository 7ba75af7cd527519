use chaintalk::auth::{
    create_siwe_message, extract_user_from_token, normalize_siwe_message, parse_eth_address,
    parse_siwe_message, user_info_of_claims, verify_simple_auth, AuthService,
};
use chaintalk::challenge::ChallengeStore;
use chaintalk::error::AppError;
use chaintalk::models::{Claims, ServerMessage};
use chaintalk::state::AppState;
use chaintalk::websocket::{complete_authentication, dispatch_command, ConnState, DispatchOutcome};
use chaintalk::models::ClientMessage;
use ethers_core::utils::to_checksum;
use ethers_signers::{LocalWallet, Signer};
use std::str::FromStr;

const TEST_KEY: &str = "4c0883a69102937d6231471b5dbb6204fe512961708279df95b4a2200ba5f768";

fn wallet() -> LocalWallet {
    LocalWallet::from_str(TEST_KEY).expect("test key")
}

fn sign(message: &str) -> String {
    let rt = tokio::runtime::Runtime::new().unwrap();
    let sig = rt.block_on(wallet().sign_message(message.as_bytes())).unwrap();
    format!("0x{}", sig)
}

fn siwe_verify(message: &str, signature_hex: &str) -> bool {
    let msg: siwe::Message = match message.parse() {
        Ok(m) => m,
        Err(_) => return false,
    };
    let raw = signature_hex.trim_start_matches("0x");
    let bytes = (0..raw.len())
        .step_by(2)
        .map(|i| u8::from_str_radix(&raw[i..i + 2], 16).unwrap())
        .collect::<Vec<u8>>();
    let rt = tokio::runtime::Runtime::new().unwrap();
    rt.block_on(msg.verify(&bytes, &siwe::VerificationOpts::default())).is_ok()
}

fn statement_for(address: &str, nonce: &str) -> String {
    create_siwe_message(
        &String::from(address),
        &String::from("localhost:3000"),
        &String::from(nonce),
        1,
        &String::from("2024-01-01T00:00:00.000Z"),
    )
}

#[test]
fn challenge_is_single_use_and_expires() {
    let mut store = ChallengeStore::new();
    let service = AuthService::new(String::from("secret"));
    let nonce = service.generate_nonce(&mut store, 1000);
    assert_eq!(nonce.len(), 36);
    // consumable exactly once while fresh
    assert!(store.consume(&nonce, 1100));
    assert!(!store.consume(&nonce, 1100));
    // a token left alone for its full time-to-live no longer verifies
    let nonce2 = service.generate_nonce(&mut store, 1000);
    assert!(!store.consume(&nonce2, 1300));
    // and the engine reports a failed consume as an invalid nonce
    let parsed = vec![0u8; 20];
    match service.verify_siwe_message(&parsed, false, true) {
        Err(AppError::InvalidNonce) => {}
        other => panic!("expected invalid nonce, got {:?}", other),
    }
}

#[test]
fn structured_flow_end_to_end() {
    let rt_wallet = wallet();
    let address = to_checksum(&rt_wallet.address(), None);
    let mut store = ChallengeStore::new();
    let service = AuthService::new(String::from("secret"));
    let nonce = service.generate_nonce(&mut store, 1000);
    let statement = statement_for(&address, &nonce);
    let signature = sign(&statement);

    // parse, consume, verify, and attach
    let (parsed_addr, parsed_nonce) = parse_siwe_message(&statement).expect("statement parses");
    assert_eq!(parsed_nonce, nonce);
    let consumed = store.consume(&parsed_nonce, 1100);
    assert!(consumed);
    let valid = siwe_verify(&statement, &signature);
    assert!(valid);
    let user_auth = service
        .verify_siwe_message(&parsed_addr, consumed, valid)
        .expect("verification succeeds");
    assert_eq!(user_auth.address, address);

    let mut state = AppState::new();
    let mut conn = ConnState::new();
    complete_authentication(&mut state, &mut conn, &user_auth, 10);
    assert!(conn.authenticated);
    // the session's mailbox holds the confirmation, the join notice, and
    // the updated roster, in that order
    let me = state.get_client(&user_auth.address).unwrap();
    assert_eq!(me.mailbox.items.len(), 3);
    assert!(matches!(
        &me.mailbox.items[0],
        ServerMessage::AuthSuccess { user_address, .. } if user_address == &address
    ));
    assert!(matches!(
        &me.mailbox.items[1],
        ServerMessage::UserJoined { user, room, .. } if user == &address && room == "general"
    ));
    match &me.mailbox.items[2] {
        ServerMessage::OnlineUsers { users, room } => {
            assert_eq!(room, "general");
            assert!(users.iter().any(|u| u.address == address));
        }
        other => panic!("expected the roster, got {:?}", other),
    }
    // the session was auto-joined to the default room
    assert!(me.current_rooms.iter().any(|r| r == "general"));

    // a second authenticate on the same connection is refused
    match dispatch_command(
        &conn,
        ClientMessage::Authenticate { message: statement.clone(), signature: signature.clone() },
    ) {
        DispatchOutcome::Reject(AppError::AuthenticationFailed(m)) => {
            assert_eq!(m, "Already authenticated");
        }
        _ => panic!("expected a rejection"),
    }

    // a text message fans out to the other members of the default room
    let other_addr = String::from("0xother");
    {
        let general = String::from("general");
        state.add_client(other_addr.clone(), None);
        assert!(state.join_room(&other_addr, &general));
        let r = chaintalk::websocket::handle_send_text(
            &mut state,
            &user_auth.address,
            &general,
            &String::from("hi"),
            11,
        );
        assert!(r.is_ok());
        let other = state.get_client(&other_addr).unwrap();
        match other.mailbox.items.last().unwrap() {
            ServerMessage::NewText { text, room, timestamp, .. } => {
                assert_eq!(text, "hi");
                assert_eq!(room, "general");
                assert_eq!(*timestamp, 11);
            }
            _ => panic!("expected the text broadcast"),
        }
    }

    // replaying the nonce fails with an invalid nonce
    let consumed_again = store.consume(&parsed_nonce, 1200);
    assert!(!consumed_again);
    match service.verify_siwe_message(&parsed_addr, consumed_again, valid) {
        Err(AppError::InvalidNonce) => {}
        other => panic!("expected invalid nonce, got {:?}", other),
    }
}

#[test]
fn lower_case_statement_parses_only_after_normalization() {
    let rt_wallet = wallet();
    let checksummed = to_checksum(&rt_wallet.address(), None);
    let lower = checksummed.to_lowercase();
    let statement = statement_for(&lower, "abcdef1234");
    // the original statement is refused by the grammar
    assert!(statement.parse::<siwe::Message>().is_err());
    // normalization rewrites the account to its checksummed form
    let normalized = normalize_siwe_message(&statement);
    assert!(normalized.contains(&checksummed));
    assert!(normalized.parse::<siwe::Message>().is_ok());
    // and the two-attempt parse step accepts exactly that statement
    let (parsed_addr, parsed_nonce) = parse_siwe_message(&statement).expect("normalized parse");
    assert_eq!(parsed_nonce, "abcdef1234");
    assert_eq!(parsed_addr.as_slice(), rt_wallet.address().as_bytes());
    // a signature over the normalized statement verifies; one over the
    // original lower-case text does not
    let good = sign(&normalized);
    assert!(siwe_verify(&normalized, &good));
    let stale = sign(&statement);
    assert!(!siwe_verify(&normalized, &stale));
}

#[test]
fn unparsable_statement_fails_with_invalid_signature() {
    match parse_siwe_message(&String::from("not a sign-in statement")) {
        Err(AppError::InvalidSignature) => {}
        other => panic!("expected invalid signature, got {:?}", other),
    }
}

#[test]
fn simple_scheme_accepts_the_signer_case_insensitively() {
    let w = wallet();
    let checksummed = to_checksum(&w.address(), None);
    let message = String::from("hello chain");
    let signature = sign(&message);
    // claimed address in lower case still matches the recovered signer
    let claimed = checksummed.to_lowercase();
    let auth = verify_simple_auth(true, &claimed, &message, &signature).expect("accepts signer");
    assert_eq!(auth.address, checksummed);
    assert!(auth.ens_name.is_none());
}

#[test]
fn simple_scheme_rejects_wrong_address_signature_and_nonce() {
    let message = String::from("hello chain");
    let signature = sign(&message);
    let other = String::from("0x00000000219ab540356cBB839Cbe05303d7705Fa");
    match verify_simple_auth(true, &other, &message, &signature) {
        Err(AppError::InvalidSignature) => {}
        other => panic!("expected invalid signature, got {:?}", other),
    }
    let w = wallet();
    let claimed = to_checksum(&w.address(), None);
    match verify_simple_auth(false, &claimed, &message, &signature) {
        Err(AppError::InvalidNonce) => {}
        other => panic!("expected invalid nonce, got {:?}", other),
    }
    match verify_simple_auth(true, &claimed, &message, &String::from("0xzz")) {
        Err(AppError::InvalidSignature) => {}
        other => panic!("expected invalid signature, got {:?}", other),
    }
    match verify_simple_auth(true, &String::from("not-an-address"), &message, &signature) {
        Err(AppError::InvalidRequest(_)) => {}
        other => panic!("expected invalid request, got {:?}", other),
    }
}

#[test]
fn session_tokens_round_trip() {
    let service = AuthService::new(String::from("secret"));
    let auth = chaintalk::models::UserAuth {
        address: String::from("0xAbC0000000000000000000000000000000000001"),
        ens_name: Some(String::from("alice.eth")),
        token_holdings: vec![],
        nft_holdings: vec![],
    };
    let now = chrono::Utc::now().timestamp() as u64;
    let token = service.generate_jwt(&auth, now).expect("token");
    let claims = service.verify_jwt(&token).expect("valid token");
    assert_eq!(claims.sub, auth.address);
    assert_eq!(claims.iat, now);
    assert_eq!(claims.exp, now + 86400);
    assert_eq!(claims.ens.as_deref(), Some("alice.eth"));
    let info = extract_user_from_token(&token, &String::from("secret")).expect("user");
    assert_eq!(info.address, auth.address);
    assert_eq!(info.ens_name.as_deref(), Some("alice.eth"));
    // a different secret refuses the token
    let other = AuthService::new(String::from("other"));
    match other.verify_jwt(&token) {
        Err(AppError::AuthenticationFailed(_)) => {}
        other => panic!("expected authentication failure, got {:?}", other),
    }
    // an expired token refuses too
    let old = service.generate_jwt(&auth, now - 200000).expect("token");
    match service.verify_jwt(&old) {
        Err(AppError::AuthenticationFailed(_)) => {}
        other => panic!("expected authentication failure, got {:?}", other),
    }
}

#[test]
fn claims_map_to_user_records() {
    let claims = Claims {
        sub: String::from("0xaaa"),
        exp: 2,
        iat: 1,
        ens: None,
    };
    let info = user_info_of_claims(&claims);
    assert_eq!(info.address, "0xaaa");
    assert!(info.ens_name.is_none());
    assert!(info.avatar.is_none());
}

#[test]
fn token_gate_compares_balances() {
    let service = AuthService::new(String::from("secret"));
    let contract = String::from("0x00000000219ab540356cBB839Cbe05303d7705Fa");
    let min = String::from("1000");
    assert_eq!(
        service.check_token_gate(&contract, Some(&min), 1500).unwrap(),
        true
    );
    assert_eq!(
        service.check_token_gate(&contract, Some(&min), 999).unwrap(),
        false
    );
    assert_eq!(service.check_token_gate(&contract, None, 0).unwrap(), false);
    assert_eq!(service.check_token_gate(&contract, None, 1).unwrap(), true);
    match service.check_token_gate(&String::from("junk"), None, 1) {
        Err(AppError::InvalidRequest(_)) => {}
        other => panic!("expected invalid request, got {:?}", other),
    }
    match service.check_token_gate(&contract, Some(&String::from("12a")), 1) {
        Err(AppError::InvalidRequest(_)) => {}
        other => panic!("expected invalid request, got {:?}", other),
    }
    // minimums beyond 128 bits compare as values, as on-chain quantities do
    let big = String::from("340282366920938463463374607431768211456");
    assert_eq!(service.check_token_gate(&contract, Some(&big), u128::MAX).unwrap(), false);
    // only a minimum past 256 bits is malformed
    let over = "1".repeat(79);
    match service.check_token_gate(&contract, Some(&over), u128::MAX) {
        Err(AppError::InvalidRequest(_)) => {}
        other => panic!("expected invalid request, got {:?}", other),
    }
    let exact = String::from("340282366920938463463374607431768211455");
    assert_eq!(service.check_token_gate(&contract, Some(&exact), u128::MAX).unwrap(), true);
}

#[test]
fn address_parsing_matches_the_hex_reader() {
    let ok = parse_eth_address(&String::from("0x00000000219ab540356cBB839Cbe05303d7705Fa"));
    assert!(ok.is_some());
    assert_eq!(ok.unwrap().len(), 20);
    // whitespace inside the digits is skipped by the reader
    let spaced = parse_eth_address(&String::from("0x0000 0000219ab540356cBB839Cbe05303d7705Fa"));
    assert!(spaced.is_some());
    assert!(parse_eth_address(&String::from("0x1234")).is_none());
    assert!(parse_eth_address(&String::from("")).is_none());
}

#[test]
fn created_statements_follow_the_grammar() {
    let s = statement_for("0x00000000219ab540356cBB839Cbe05303d7705Fa", "n1abcdef");
    assert!(s.starts_with(
        "localhost:3000 wants you to sign in with your Ethereum account:\n0x00000000219ab540356cBB839Cbe05303d7705Fa\n"
    ));
    assert!(s.contains("Nonce: n1abcdef"));
    assert!(s.contains("Chain ID: 1"));
    assert!(s.parse::<siwe::Message>().is_ok());
}

#[test]
fn error_messages_and_status_codes() {
    let e = AppError::AuthorizationFailed(String::from("no"));
    assert_eq!(e.status_code(), 403);
    assert_eq!(e.message(), "Authorization failed: no");
    assert_eq!(AppError::InvalidNonce.status_code(), 401);
    assert_eq!(AppError::InvalidNonce.message(), "Invalid nonce");
    assert_eq!(AppError::BadRequest(String::from("x")).status_code(), 400);
    assert_eq!(AppError::InternalError(String::from("x")).status_code(), 500);
}
