use doors::door::{challenge_reply, door_procedure, judge, parse_request, Request};
use doors::handshake::{
    answer_challenge, begin, fresh_nonce, read_challenge, read_verdict, Challenge, Handshake,
    HandshakeError, Step,
};
use doors::hello;
use doors::key::Key;
use doors::natural::Natural;
use num_bigint::BigUint;

const EXAMPLE_N: &str =
    "115792089237316195423570985008687907853269984665640564039457584007913129639937";

fn example_key() -> Key {
    Key::load(&format!("n={}\nbits=256", EXAMPLE_N)).unwrap()
}

fn small_key() -> Key {
    Key::load("n=1000003\nbits=20").unwrap()
}

fn counting_nonce() -> Vec<u8> {
    (0u8..32).collect()
}

fn value(n: &Natural) -> BigUint {
    BigUint::from_bytes_be(&n.bytes)
}

const COUNTING_HEX: &str = "000102030405060708090a0b0c0d0e0f101112131415161718191a1b1c1d1e1f";
const COUNTING_REMAINDER: &str = "7c6ee3e2986fb26295aa5104e3f466b0a3c3c365c29e3bb43db7a6cffe6947ff";
const COUNTING_DIGITS: &str = "0111110001101110111000111110001010011000011011111011001001100010100101011010101001010001000001001110001111110100011001101011000010100011110000111100001101100101110000101001111000111011101101000011110110110111101001101100111111111110011010010100011111111110";

#[test]
fn door_without_a_lock_greets() {
    assert_eq!(
        door_procedure(None, "knock knock"),
        "Well, hello to you too! You said: knock knock"
    );
    assert_eq!(door_procedure(None, ""), "Well, hello to you too! You said: ");
    assert_eq!(
        door_procedure(None, "AUTH:CHAL:00"),
        "Well, hello to you too! You said: AUTH:CHAL:00"
    );
}

#[test]
fn cookie_makes_no_difference() {
    assert_eq!(
        hello::door_procedure(None, "ping"),
        "Well, hello to you too! You said: ping"
    );
    assert_eq!(
        hello::door_procedure(Some("state"), "ping"),
        "Well, hello to you too! You said: ping"
    );
}

#[test]
fn messages_need_no_key() {
    let key = small_key();
    for msg in ["", "ping", "auth:chal:00", " AUTH:CHAL:00", "AUTH:", "AUTH:CHAL", "AUTH:OK"] {
        assert_eq!(door_procedure(Some(&key), msg), door_procedure(None, msg));
        assert!(matches!(parse_request(msg), Request::Message));
    }
}

#[test]
fn door_sends_a_challenge() {
    let reply = door_procedure(Some(&example_key()), &format!("AUTH:CHAL:{}", COUNTING_HEX));
    assert_eq!(reply, format!("AUTH:CHAL:{}:256", COUNTING_REMAINDER));
    let reply = door_procedure(
        Some(&small_key()),
        "AUTH:CHAL: ABababABababABababABababABababab\r\n",
    );
    assert_eq!(reply, "AUTH:CHAL:068730:20");
}

#[test]
fn huge_digit_counts_can_be_asked_for() {
    let key = Key { bits: usize::MAX, ..small_key() };
    let reply = door_procedure(Some(&key), "AUTH:CHAL:abababababababababababababababab");
    assert_eq!(reply, format!("AUTH:CHAL:068730:{}", usize::MAX));
}

#[test]
fn bad_nonces_are_refused() {
    let key = small_key();
    let bad = [
        "",
        "abababababababababababababababa",
        "ababababababababababababababab",
        "abababababababababababababababag",
        "abababababababababababababababéé",
        "ab ababababababababababababababab",
    ];
    for nonce in bad {
        assert_eq!(door_procedure(Some(&key), &format!("AUTH:CHAL:{}", nonce)), "AUTH:ERR:bad nonce");
        assert_eq!(
            door_procedure(Some(&key), &format!("AUTH:RESP:{}:0110", nonce)),
            "AUTH:ERR:bad nonce"
        );
    }
}

#[test]
fn answers_without_a_separator_are_malformed() {
    let key = small_key();
    assert_eq!(door_procedure(Some(&key), "AUTH:RESP:"), "AUTH:ERR:malformed");
    assert_eq!(
        door_procedure(Some(&key), "AUTH:RESP:abababababababababababababababab"),
        "AUTH:ERR:malformed"
    );
}

#[test]
fn right_digits_are_let_in() {
    assert_eq!(
        door_procedure(
            Some(&example_key()),
            &format!("AUTH:RESP:{}:{}", COUNTING_HEX, COUNTING_DIGITS)
        ),
        "AUTH:OK"
    );
    assert_eq!(
        door_procedure(
            Some(&small_key()),
            "AUTH:RESP: abababababababababababababababab : 01101101100001011100\n"
        ),
        "AUTH:OK"
    );
}

#[test]
fn wrong_digits_are_refused() {
    let key = small_key();
    for digits in ["", "01101101100001011101", "0110110110000101110", "011011011000010111000", "01101101100001011100:"] {
        assert_eq!(
            door_procedure(
                Some(&key),
                &format!("AUTH:RESP:abababababababababababababababab:{}", digits)
            ),
            "AUTH:ERR:bad key"
        );
    }
}

#[test]
fn judge_compares_with_the_expansion() {
    let key = Key::load("n=7\nbits=6").unwrap();
    assert_eq!(judge(&key, Natural { bytes: vec![1] }, "001001"), "AUTH:OK");
    assert_eq!(judge(&key, Natural { bytes: vec![1] }, "001000"), "AUTH:ERR:bad key");
    assert_eq!(judge(&key, Natural { bytes: vec![3] }, "011011"), "AUTH:OK");
}

#[test]
fn challenge_is_written_in_lower_case() {
    let key = Key::load("n=7\nbits=6").unwrap();
    assert_eq!(challenge_reply(&key, &Natural { bytes: vec![0, 0xab, 0x0c] }), "AUTH:CHAL:ab0c:6");
    assert_eq!(challenge_reply(&key, &Natural { bytes: vec![] }), "AUTH:CHAL:00:6");
}

#[test]
fn requests_are_told_apart() {
    match parse_request("AUTH:CHAL:000102030405060708090a0b0c0d0e0F") {
        Request::Challenge { nonce } => assert_eq!(nonce, (0u8..16).collect::<Vec<u8>>()),
        other => panic!("{:?}", other),
    }
    match parse_request("AUTH:RESP:000102030405060708090a0b0c0d0e0f: 01:10 ") {
        Request::Answer { nonce, provided } => {
            assert_eq!(nonce, (0u8..16).collect::<Vec<u8>>());
            assert_eq!(provided, "01:10");
        }
        other => panic!("{:?}", other),
    }
}

#[test]
fn handshake_begins_with_the_nonce() {
    let (message, state) = begin(&counting_nonce());
    assert_eq!(message, format!("AUTH:CHAL:{}", COUNTING_HEX));
    match state {
        Handshake::AwaitChallenge { nonce_hex } => assert_eq!(nonce_hex, COUNTING_HEX),
        Handshake::AwaitVerdict => panic!("no challenge was awaited"),
    }
}

#[test]
fn nonces_are_fresh() {
    let (a, b) = (fresh_nonce(), fresh_nonce());
    assert_eq!(a.len(), 32);
    assert_ne!(a, b);
}

#[test]
fn challenges_are_read() {
    let c = read_challenge(" AUTH:CHAL:068730:20\n", 256).unwrap();
    assert_eq!(value(&c.remainder), BigUint::from(427824u32));
    assert_eq!(c.bits, 20);
    // The count may be missing, no number, or followed by more.
    assert_eq!(read_challenge("AUTH:CHAL:05", 9).unwrap().bits, 9);
    assert_eq!(read_challenge("AUTH:CHAL:05:", 9).unwrap().bits, 9);
    assert_eq!(read_challenge("AUTH:CHAL:05: 7", 9).unwrap().bits, 9);
    assert_eq!(read_challenge("AUTH:CHAL:05:7:8", 9).unwrap().bits, 7);
    let empty = read_challenge("AUTH:CHAL:", 9).unwrap();
    assert_eq!(value(&empty.remainder), BigUint::from(0u32));
    assert_eq!(empty.bits, 9);
}

#[test]
fn other_replies_are_no_challenge() {
    for reply in ["", "AUTH:ERR:bad nonce", "AUTH:CHAL", "auth:chal:05:7", "Well, hello to you too!\n"] {
        match read_challenge(reply, 9) {
            Err(HandshakeError::NotAChallenge(said)) => assert_eq!(said, reply),
            other => panic!("{:?}", other),
        }
    }
}

#[test]
fn remainder_must_be_hexadecimal() {
    for reply in ["AUTH:CHAL:5:7", "AUTH:CHAL:xy:7", "AUTH:CHAL: 05:7"] {
        assert!(matches!(read_challenge(reply, 9), Err(HandshakeError::BadRemainder(_))));
    }
}

#[test]
fn challenge_is_answered() {
    let challenge = Challenge { remainder: Natural { bytes: vec![1] }, bits: 6 };
    let key = Key::load("n=7").unwrap();
    assert_eq!(answer_challenge(&key, "beef", challenge), "AUTH:RESP:beef:001001");
}

#[test]
fn verdicts_are_read() {
    assert!(read_verdict("AUTH:OK").is_ok());
    assert!(read_verdict(" AUTH:OK\r\n").is_ok());
    for reply in ["", "AUTH:OK!", "AUTH:ERR:bad key", "AUTH:O"] {
        match read_verdict(reply) {
            Err(HandshakeError::Refused(said)) => assert_eq!(said, reply),
            other => panic!("{:?}", other),
        }
    }
}

#[test]
fn digits_due_are_known_before_they_are_written() {
    let key = small_key();
    let (_, state) = begin(&counting_nonce());
    assert_eq!(state.due(&key, "AUTH:CHAL:05:7"), Some(7));
    assert_eq!(state.due(&key, "AUTH:CHAL:05"), Some(20));
    assert_eq!(state.due(&key, "AUTH:CHAL:0:7"), None);
    assert_eq!(state.due(&key, "AUTH:OK"), None);
    assert_eq!(Handshake::AwaitVerdict.due(&key, "AUTH:CHAL:05:7"), None);
}

fn shake_hands(door: &Key, caller: &Key, nonce: &[u8]) -> Result<(), HandshakeError> {
    let (mut message, mut state) = begin(nonce);
    loop {
        let reply = door_procedure(Some(door), &message);
        match state.step(caller, &reply) {
            Step::Call { message: m, next } => {
                message = m;
                state = next;
            }
            Step::Authenticated => return Ok(()),
            Step::Failed(e) => return Err(e),
        }
    }
}

#[test]
fn same_key_is_let_in() {
    for door in [example_key(), small_key(), Key::generate(256), Key::load("n=3\nbits=0").unwrap()] {
        assert!(shake_hands(&door, &door, &counting_nonce()).is_ok());
        assert!(shake_hands(&door, &door, &fresh_nonce()).is_ok());
        assert!(shake_hands(&door, &door, &[7u8; 16]).is_ok());
        // The door says how many digits it wants.
        let other_count = Key { bits: 1, ..door.clone() };
        assert!(shake_hands(&door, &other_count, &fresh_nonce()).is_ok());
    }
}

#[test]
fn another_key_is_refused() {
    match shake_hands(&example_key(), &small_key(), &counting_nonce()) {
        Err(HandshakeError::Refused(said)) => assert_eq!(said, "AUTH:ERR:bad key"),
        other => panic!("{:?}", other),
    }
}

#[test]
fn short_nonce_fails_the_handshake() {
    match shake_hands(&small_key(), &small_key(), &[7u8; 15]) {
        Err(HandshakeError::NotAChallenge(said)) => assert_eq!(said, "AUTH:ERR:bad nonce"),
        other => panic!("{:?}", other),
    }
}

#[test]
fn step_tells_of_a_bad_remainder() {
    let (_, state) = begin(&counting_nonce());
    assert!(matches!(
        state.step(&small_key(), "AUTH:CHAL:0:7"),
        Step::Failed(HandshakeError::BadRemainder(_))
    ));
}

#[test]
fn all_white_space_is_trimmed() {
    let spaces = [
        '\u{9}', '\u{a}', '\u{b}', '\u{c}', '\u{d}', '\u{20}', '\u{85}', '\u{a0}', '\u{1680}',
        '\u{2000}', '\u{2005}', '\u{200a}', '\u{2028}', '\u{2029}', '\u{202f}', '\u{205f}',
        '\u{3000}',
    ];
    for c in spaces {
        assert!(read_verdict(&format!("{}{}AUTH:OK{}", c, c, c)).is_ok());
    }
    for c in ['\u{8}', '\u{e}', '\u{1f}', '\u{180e}', '\u{200b}', '\u{2060}', '\u{feff}'] {
        assert!(read_verdict(&format!("{}AUTH:OK", c)).is_err());
        assert!(read_verdict(&format!("AUTH:OK{}", c)).is_err());
    }
}

#[test]
fn handshake_errors_say_what_happened() {
    let unasked = HandshakeError::NotAChallenge("Hello, caller".to_string());
    assert_eq!(
        unasked.message(),
        Some("server did not send a challenge: Hello, caller".to_string())
    );
    let refused = HandshakeError::Refused("AUTH:ERR:bad key".to_string());
    assert_eq!(refused.message(), Some("authentication failed: AUTH:ERR:bad key".to_string()));
    match read_challenge("AUTH:CHAL:xyz:20", 20) {
        Err(e) => assert_eq!(e.message(), None),
        Ok(_) => panic!("a remainder that is not hexadecimal was read"),
    }
}
