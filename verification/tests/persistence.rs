use encenv::{EnvError, State, BLOCK_SIZE};

fn s(x: &str) -> String {
    x.to_string()
}

fn put(st: &mut State, k: &str, v: &str) {
    st.set_env(&s(k), &s(v));
}

fn got(st: &State, k: &str) -> Option<String> {
    st.get(&s(k)).map(|v| v.clone())
}

#[test]
fn round_trip_small_map() {
    let mut st = State::new();
    put(&mut st, "DB_HOST", "localhost");
    put(&mut st, "DB_PORT", "5432");
    let bytes = st.save_bytes().unwrap();
    let ld = State::load_bytes(&bytes).unwrap();
    assert_eq!(ld.len(), 2);
    assert_eq!(got(&ld, "DB_HOST").unwrap(), "localhost");
    assert_eq!(got(&ld, "DB_PORT").unwrap(), "5432");
    assert!(got(&ld, "DB_USER").is_none());
}

#[test]
fn saving_twice_gives_identical_bytes() {
    let mut st = State::new();
    put(&mut st, "A", "1");
    put(&mut st, "B", "2");
    let first = st.save_bytes().unwrap();
    let second = st.save_bytes().unwrap();
    assert_eq!(first, second);
}

#[test]
fn round_trip_empty_map() {
    let st = State::new();
    let bytes = st.save_bytes().unwrap();
    let ld = State::load_bytes(&bytes).unwrap();
    assert_eq!(ld.len(), 0);
}

#[test]
fn round_trip_awkward_characters() {
    let mut st = State::new();
    put(&mut st, "QUOTED", "say \"hi\"");
    put(&mut st, "BACKSLASH", "C:\\temp\\x");
    put(&mut st, "MULTILINE", "a\nb\r\nc\td");
    put(&mut st, "UNICODE", "caf\u{e9} \u{1f512}");
    put(&mut st, "CONTROLS", "a\u{1}b\u{8}c\u{c}d\u{1f}e\u{7f}f");
    put(&mut st, "", "empty key");
    put(&mut st, "EMPTY", "");
    put(&mut st, "EQ=KEY", "v=1");
    let ld = st.save_then_load().unwrap();
    assert_eq!(ld.len(), 8);
    assert_eq!(got(&ld, "QUOTED").unwrap(), "say \"hi\"");
    assert_eq!(got(&ld, "BACKSLASH").unwrap(), "C:\\temp\\x");
    assert_eq!(got(&ld, "MULTILINE").unwrap(), "a\nb\r\nc\td");
    assert_eq!(got(&ld, "UNICODE").unwrap(), "caf\u{e9} \u{1f512}");
    assert_eq!(got(&ld, "CONTROLS").unwrap(), "a\u{1}b\u{8}c\u{c}d\u{1f}e\u{7f}f");
    assert_eq!(got(&ld, "").unwrap(), "empty key");
    assert_eq!(got(&ld, "EMPTY").unwrap(), "");
    assert_eq!(got(&ld, "EQ=KEY").unwrap(), "v=1");
}

#[test]
fn overwrite_keeps_one_entry() {
    let mut st = State::new();
    put(&mut st, "A", "1");
    put(&mut st, "A", "2");
    assert_eq!(st.len(), 1);
    assert_eq!(got(&st, "A").unwrap(), "2");
}

#[test]
fn ciphertext_is_block_aligned_and_differs_from_plaintext() {
    let st = State::new();
    let bytes = st.save_bytes().unwrap();
    // "{}" serializes to two bytes; one padded cipher block comes out
    assert_eq!(bytes.len(), BLOCK_SIZE);
    assert_ne!(&bytes[..2], b"{}");
}

#[test]
fn size_limit_exact_boundary() {
    // {"K":"vvv...v"} takes 8 bytes plus the value, so 1016 is the largest fit
    let mut ok_st = State::new();
    put(&mut ok_st, "K", &"v".repeat(1016));
    let bytes = ok_st.save_bytes().unwrap();
    assert_eq!(bytes.len() % 16, 0);
    let ld = State::load_bytes(&bytes).unwrap();
    assert_eq!(got(&ld, "K").unwrap(), "v".repeat(1016));

    let mut big_st = State::new();
    put(&mut big_st, "K", &"v".repeat(1017));
    assert_eq!(big_st.save_bytes(), Err(EnvError::SizeLimit));
}

#[test]
fn size_limit_large_map() {
    let mut st = State::new();
    for i in 0..100 {
        put(&mut st, &format!("NAME_{}", i), "a long enough value to add up");
    }
    assert_eq!(st.save_bytes(), Err(EnvError::SizeLimit));
}

#[test]
fn corrupted_ciphertext_never_loads() {
    let mut st = State::new();
    put(&mut st, "A", "1");
    let bytes = st.save_bytes().unwrap();
    let mut crypto_errors = 0usize;
    let mut flips = 0usize;
    for i in 0..bytes.len() {
        for mask in [0x01u8, 0xff] {
            let mut tampered = bytes.clone();
            tampered[i] ^= mask;
            flips += 1;
            match State::load_bytes(&tampered) {
                Ok(_) => panic!("a tampered ciphertext loaded"),
                Err(EnvError::Crypto) => crypto_errors += 1,
                Err(_) => {}
            }
        }
    }
    // the padding check catches the overwhelming majority of the flips
    assert!(crypto_errors * 2 > flips);
}

#[test]
fn truncated_ciphertext_is_a_crypto_error() {
    let mut st = State::new();
    put(&mut st, "A", "1");
    let mut bytes = st.save_bytes().unwrap();
    bytes.pop();
    assert_eq!(State::load_bytes(&bytes).err(), Some(EnvError::Crypto));
}

#[test]
fn junk_bytes_do_not_load() {
    assert_eq!(
        State::load_bytes(&b"{}".to_vec()).err(),
        Some(EnvError::Crypto)
    );
    assert!(State::load_bytes(&vec![0u8; 32]).is_err());
}

#[test]
fn empty_ciphertext_is_a_crypto_error() {
    assert_eq!(State::load_bytes(&Vec::new()).err(), Some(EnvError::Crypto));
}

#[test]
fn error_messages_are_distinct() {
    let all = [
        EnvError::Io,
        EnvError::Crypto,
        EnvError::Format,
        EnvError::InvalidExpression,
        EnvError::SizeLimit,
        EnvError::UnknownCommand,
    ];
    for (i, a) in all.iter().enumerate() {
        for (j, b) in all.iter().enumerate() {
            assert_eq!(i == j, a.message() == b.message());
        }
    }
    assert!(EnvError::SizeLimit.message().contains("size"));
}
