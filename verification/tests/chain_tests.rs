use chaintalk::blockchain::{
    decode_swap_log, format_amount, get_pool_info, handle_log, magnitude_is_material,
    signed_decimal, word_magnitude, LargeTransactionDetector, MATERIALITY_THRESHOLD,
    POOL_USDC_WETH_005, SWAP_EVENT_TOPIC,
};
use chaintalk::config::Config;
use chaintalk::models::ServerMessage;
use chaintalk::state::AppState;
use chaintalk::text::{parse_dec_u128, to_0x_hex, u128_to_dec};

fn word_from_u64(v: u64) -> Vec<u8> {
    let mut w = vec![0u8; 32];
    w[24..32].copy_from_slice(&v.to_be_bytes());
    w
}

fn negative_word(magnitude: u64) -> Vec<u8> {
    // two's complement of the magnitude within 256 bits
    let mut w = vec![0xffu8; 32];
    let pos = word_from_u64(magnitude);
    let mut carry = 1u16;
    for i in (0..32).rev() {
        let t = 255u16 - (pos[i] as u16) + carry;
        w[i] = (t % 256) as u8;
        carry = t / 256;
    }
    w
}

fn swap_log(amount0: Vec<u8>, amount1: Vec<u8>) -> (Vec<Vec<u8>>, Vec<u8>) {
    let mut t1 = vec![0u8; 32];
    t1[31] = 0x11;
    let mut t2 = vec![0u8; 32];
    t2[31] = 0x22;
    let topics = vec![SWAP_EVENT_TOPIC.to_vec(), t1, t2];
    let mut data = Vec::new();
    data.extend_from_slice(&amount0);
    data.extend_from_slice(&amount1);
    data.extend_from_slice(&[0u8; 32]); // sqrtPriceX96
    data.extend_from_slice(&[0u8; 32]); // liquidity
    let mut tick = vec![0u8; 32];
    tick[31] = 5;
    data.extend_from_slice(&tick);
    (topics, data)
}

#[test]
fn swap_topic_is_the_hash_of_the_event_signature() {
    let expected =
        ethers_core::utils::keccak256("Swap(address,address,int256,int256,uint160,uint128,int24)");
    assert_eq!(SWAP_EVENT_TOPIC, expected);
}

#[test]
fn decode_reads_accounts_amounts_and_tick() {
    let (topics, data) = swap_log(word_from_u64(7), negative_word(9));
    let d = decode_swap_log(&topics, &data).expect("decodes");
    assert_eq!(d.sender[19], 0x11);
    assert_eq!(d.recipient[19], 0x22);
    assert_eq!(d.amount0, word_from_u64(7));
    assert_eq!(d.amount1, negative_word(9));
    assert_eq!(d.tick, 5);
    // a negative tick is sign-extended
    let mut neg_tick_data = data.clone();
    for b in &mut neg_tick_data[128..160] {
        *b = 0xff;
    }
    let d2 = decode_swap_log(&topics, &neg_tick_data).expect("decodes");
    assert_eq!(d2.tick, -1);
    // a short log does not decode
    assert!(decode_swap_log(&topics, &data[..64].to_vec()).is_none());
    // a different first topic does not decode
    let mut other = topics.clone();
    other[0] = vec![0u8; 32];
    assert!(decode_swap_log(&other, &data).is_none());
}

#[test]
fn magnitudes_respect_twos_complement() {
    assert_eq!(word_magnitude(&word_from_u64(5)), word_from_u64(5));
    assert_eq!(word_magnitude(&negative_word(5)), word_from_u64(5));
    assert_eq!(signed_decimal(&word_from_u64(5)), "5");
    assert_eq!(signed_decimal(&negative_word(5)), "-5");
    assert_eq!(signed_decimal(&word_from_u64(0)), "0");
}

#[test]
fn materiality_threshold_is_one_ether_unit() {
    assert!(!magnitude_is_material(&word_from_u64(MATERIALITY_THRESHOLD - 1)));
    assert!(magnitude_is_material(&word_from_u64(MATERIALITY_THRESHOLD)));
    assert!(magnitude_is_material(&negative_word(MATERIALITY_THRESHOLD)));
    assert!(!magnitude_is_material(&negative_word(MATERIALITY_THRESHOLD - 1)));
}

#[test]
fn immaterial_swaps_are_discarded_material_ones_published_once() {
    let mut state = AppState::new();
    let pool = POOL_USDC_WETH_005.to_vec();
    let tx = vec![0xabu8; 32];

    let (topics, small) = swap_log(
        word_from_u64(MATERIALITY_THRESHOLD - 1),
        negative_word(MATERIALITY_THRESHOLD - 1),
    );
    let published = handle_log(&mut state, &topics, &small, &pool, &tx, 100, 50);
    assert!(!published);
    assert!(state.global.items.is_empty());

    let (topics2, big) = swap_log(word_from_u64(MATERIALITY_THRESHOLD), word_from_u64(1));
    let published2 = handle_log(&mut state, &topics2, &big, &pool, &tx, 100, 50);
    assert!(published2);
    assert_eq!(state.global.items.len(), 1);
    match &state.global.items[0] {
        ServerMessage::ChainEvent(e) => {
            assert_eq!(e.event_type, "UniswapV3Swap");
            assert_eq!(e.block_number, 100);
            assert_eq!(e.timestamp, 50);
            assert_eq!(e.transaction_hash, format!("0x{}", "ab".repeat(32)));
            assert_eq!(e.details.token0, "USDC");
            assert_eq!(e.details.token1, "WETH");
            assert_eq!(e.details.amount0, MATERIALITY_THRESHOLD.to_string());
            assert_eq!(e.details.amount1, "1");
            assert_eq!(e.details.tick, 5);
            assert_eq!(e.id.len(), 36);
        }
        _ => panic!("expected a chain event"),
    }
}

#[test]
fn unknown_pools_get_the_unknown_pair() {
    let (t0, t1) = get_pool_info(&POOL_USDC_WETH_005.to_vec());
    assert_eq!((t0.as_str(), t1.as_str()), ("USDC", "WETH"));
    let (u0, u1) = get_pool_info(&vec![9u8; 20]);
    assert_eq!((u0.as_str(), u1.as_str()), ("Unknown", "Unknown"));
}

#[test]
fn large_transaction_detector_uses_per_token_thresholds() {
    let d = LargeTransactionDetector::new();
    let weth = String::from("WETH");
    assert!(d.is_large_transaction(&weth, 1_000_000_000_000_000_000));
    assert!(!d.is_large_transaction(&weth, 999_999_999_999_999_999));
    let usdc = String::from("USDC");
    assert!(d.is_large_transaction(&usdc, 10_000_000_000));
    assert!(!d.is_large_transaction(&usdc, 9_999_999_999));
    let wbtc = String::from("WBTC");
    assert!(d.is_large_transaction(&wbtc, 10_000_000));
    // unlisted tokens use the default threshold
    let other = String::from("DAI");
    assert!(d.is_large_transaction(&other, 1_000_000_000_000_000_000_000));
    assert!(!d.is_large_transaction(&other, 999_999_999_999_999_999_999));
}

#[test]
fn amounts_format_with_trimmed_fractions() {
    assert_eq!(
        format_amount(1_500_000_000_000_000_000, 18, &String::from("WETH")),
        "1.5 WETH"
    );
    assert_eq!(
        format_amount(2_000_000_000_000_000_000, 18, &String::from("WETH")),
        "2 WETH"
    );
    assert_eq!(format_amount(10_500_000, 6, &String::from("USDC")), "10.5 USDC");
    assert_eq!(format_amount(0, 18, &String::from("WETH")), "0 WETH");
    assert_eq!(format_amount(1, 18, &String::from("WETH")), "0.000000000000000001 WETH");
    assert_eq!(format_amount(42, 0, &String::from("X")), "42 X");
}

#[test]
fn text_helpers_round_trip() {
    assert_eq!(to_0x_hex(&vec![0xde, 0xad, 0xbe, 0xef]), "0xdeadbeef");
    assert_eq!(u128_to_dec(0), "0");
    assert_eq!(u128_to_dec(1234567890123456789), "1234567890123456789");
    let digits: Vec<char> = "340282366920938463463374607431768211455".chars().collect();
    assert_eq!(parse_dec_u128(&digits), Some(u128::MAX));
    let too_big: Vec<char> = "340282366920938463463374607431768211456".chars().collect();
    assert_eq!(parse_dec_u128(&too_big), None);
    let junk: Vec<char> = "12a".chars().collect();
    assert_eq!(parse_dec_u128(&junk), None);
    let empty: Vec<char> = Vec::new();
    assert_eq!(parse_dec_u128(&empty), None);
}

#[test]
fn config_defaults_fill_absent_fields() {
    let c = Config::resolve(
        None,
        None,
        String::from("wss://example/ws"),
        String::from("https://example/http"),
        String::from("secret"),
        vec![String::from("http://localhost:3000")],
        None,
        None,
    );
    assert_eq!(c.server_address, "0.0.0.0:3000");
    assert_eq!(c.redis_url, "redis://localhost:6379");
    assert_eq!(c.default_room, "general");
    assert_eq!(c.uniswap_v3_factory, "0x1F98431c8aD98523631AE4a59f267346ea31F984");
    let c2 = Config::resolve(
        Some(String::from("127.0.0.1:9999")),
        Some(String::from("redis://cache:6379")),
        String::from("wss://example/ws"),
        String::from("https://example/http"),
        String::from("secret"),
        vec![],
        Some(String::from("0xfactory")),
        Some(String::from("lobby")),
    );
    assert_eq!(c2.server_address, "127.0.0.1:9999");
    assert_eq!(c2.default_room, "lobby");
}

#[test]
fn huge_scales_format_without_a_whole_part() {
    let expected = format!("0.{}5 X", "0".repeat(39));
    assert_eq!(format_amount(5, 40, &String::from("X")), expected);
}

#[test]
fn decimal_minimums_parse_to_256_bits() {
    let digits: Vec<char> = "340282366920938463463374607431768211456".chars().collect();
    let b = chaintalk::blockchain::parse_dec_u256(&digits).expect("fits 256 bits");
    assert_eq!(b.len(), 32);
    // the value is exactly one past u128::MAX
    assert!(!chaintalk::blockchain::balance_reaches(u128::MAX, &b));
    let small: Vec<char> = "1000".chars().collect();
    let sb = chaintalk::blockchain::parse_dec_u256(&small).unwrap();
    assert!(chaintalk::blockchain::balance_reaches(1000, &sb));
    assert!(!chaintalk::blockchain::balance_reaches(999, &sb));
    let over: Vec<char> = "9".repeat(78).chars().collect();
    assert!(chaintalk::blockchain::parse_dec_u256(&over).is_none());
}
