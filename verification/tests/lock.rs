use doors::challenge::{challenge_remainder, remainder_of_hash};
use doors::compare::ct_eq;
use doors::key::{Key, KeyError, DEFAULT_BITS};
use doors::natural::Natural;
use doors::reciprocal::binary_reciprocal_bits;
use num_bigint::BigUint;

const EXAMPLE_FILE: &str = "# doors binary-reciprocal key\n# keep this file secret\nn=115792089237316195423570985008687907853269984665640564039457584007913129639937\nbits=256\n";

fn natural(v: u64) -> Natural {
    Natural { bytes: v.to_be_bytes().to_vec() }
}

fn value(n: &Natural) -> BigUint {
    BigUint::from_bytes_be(&n.bytes)
}

fn key(n: u64, bits: usize) -> Key {
    Key { n: natural(n), bits }
}

#[test]
fn one_seventh_repeats_every_three_digits() {
    let (digits, rem) = binary_reciprocal_bits(&natural(7), natural(1), 9);
    assert_eq!(digits, "001001001");
    assert_eq!(value(&rem), BigUint::from(1u32));
}

#[test]
fn division_leaves_the_right_remainder() {
    let (digits, rem) = binary_reciprocal_bits(&natural(1000003), natural(427824), 20);
    assert_eq!(digits, "01101101100001011100");
    assert_eq!(value(&rem), BigUint::from(632812u32));
}

#[test]
fn no_digits_leave_the_remainder_alone() {
    let (digits, rem) = binary_reciprocal_bits(&natural(9), natural(5), 0);
    assert_eq!(digits, "");
    assert_eq!(value(&rem), BigUint::from(5u32));
}

#[test]
fn zero_has_no_digit_but_zero() {
    let (digits, rem) = binary_reciprocal_bits(&natural(9), Natural { bytes: vec![] }, 5);
    assert_eq!(digits, "00000");
    assert_eq!(value(&rem), BigUint::from(0u32));
}

#[test]
fn remainder_above_the_number_has_only_ones() {
    let (digits, rem) = binary_reciprocal_bits(&natural(5), natural(9), 3);
    assert_eq!(digits, "111");
    assert_eq!(value(&rem), BigUint::from(37u32));
}

#[test]
fn remainder_equal_to_the_number_has_only_ones() {
    let (digits, rem) = binary_reciprocal_bits(&natural(5), natural(5), 4);
    assert_eq!(digits, "1111");
    assert_eq!(value(&rem), BigUint::from(5u32));
}

#[test]
fn division_can_be_taken_up_again() {
    let (whole, end) = binary_reciprocal_bits(&natural(1000003), natural(12345), 50);
    let (first, left) = binary_reciprocal_bits(&natural(1000003), natural(12345), 17);
    let (second, last) = binary_reciprocal_bits(&natural(1000003), left, 33);
    assert_eq!(whole, format!("{}{}", first, second));
    assert_eq!(value(&end), value(&last));
}

#[test]
fn period_is_the_order_of_two() {
    // 2 has order 10 modulo 11.
    let (digits, _) = binary_reciprocal_bits(&natural(11), natural(1), 30);
    assert_eq!(&digits[..10], &digits[10..20]);
    assert_eq!(&digits[..10], &digits[20..]);
    for p in 1..10 {
        assert_ne!(&digits[..20], &digits[p..p + 20]);
    }
}

#[test]
fn period_of_the_example_key() {
    // 2 has order 512 modulo 2^256 + 1, whose reciprocal is 256 zeros and 256 ones.
    let key = Key::load(EXAMPLE_FILE).unwrap();
    let (digits, rem) = binary_reciprocal_bits(&key.n, natural(1), 1024);
    assert_eq!(&digits[..256], "0".repeat(256));
    assert_eq!(&digits[256..512], "1".repeat(256));
    assert_eq!(&digits[..512], &digits[512..]);
    assert_eq!(value(&rem), BigUint::from(1u32));
}

#[test]
fn digits_are_the_quotient() {
    let (digits, rem) = binary_reciprocal_bits(&natural(1000003), natural(999999), 40);
    let product = BigUint::from(999999u32) << 40u32;
    let quotient = BigUint::parse_bytes(digits.as_bytes(), 2).unwrap();
    assert_eq!(quotient, &product / BigUint::from(1000003u32));
    assert_eq!(value(&rem), &product % BigUint::from(1000003u32));
}

#[test]
fn texts_compare_by_content() {
    assert!(ct_eq("", ""));
    assert!(ct_eq("0110", "0110"));
    assert!(!ct_eq("0110", "0111"));
    assert!(!ct_eq("1110", "0110"));
    assert!(!ct_eq("0110", "01100"));
    assert!(!ct_eq("", "0"));
    assert!(ct_eq("né→", "né→"));
    assert!(!ct_eq("é", "è"));
    assert!(!ct_eq("é", "ab"));
}

#[test]
fn example_key_file_is_read() {
    let key = Key::load(EXAMPLE_FILE).unwrap();
    let expected = (BigUint::from(1u32) << 256u32) + BigUint::from(1u32);
    assert_eq!(value(&key.n), expected);
    assert_eq!(key.bits, 256);
}

#[test]
fn key_file_is_written() {
    assert_eq!(
        key(1000003, 20).save(),
        "# doors binary-reciprocal key\n# keep this file secret\nn=1000003\nbits=20\n"
    );
    assert_eq!(
        Key { n: Natural { bytes: vec![0, 0, 3] }, bits: 0 }.save(),
        "# doors binary-reciprocal key\n# keep this file secret\nn=3\nbits=0\n"
    );
}

#[test]
fn key_file_reads_back() {
    let saved = Key::load(EXAMPLE_FILE).unwrap().save();
    assert_eq!(saved, EXAMPLE_FILE);
    for bits in [0usize, 1, 9, 10, 255, usize::MAX] {
        let read = Key::load(&key(0xffff_ffff_ffff_ffc5, bits).save()).unwrap();
        assert_eq!(value(&read.n), BigUint::from(0xffff_ffff_ffff_ffc5u64));
        assert_eq!(read.bits, bits);
    }
}

#[test]
fn bits_default_to_256() {
    let key = Key::load("n=15").unwrap();
    assert_eq!(key.bits, 256);
    assert_eq!(DEFAULT_BITS, 256);
}

#[test]
fn white_space_and_comments_are_passed_over() {
    let key = Key::load("\n  # n=4\r\n\u{3000} n=\t15 \r\nnonsense\n bits= +7\u{a0}\n\n").unwrap();
    assert_eq!(value(&key.n), BigUint::from(15u32));
    assert_eq!(key.bits, 7);
}

#[test]
fn last_line_of_a_kind_counts() {
    let key = Key::load("n=junk\nbits=3\nn=21\nbits=4").unwrap();
    assert_eq!(value(&key.n), BigUint::from(21u32));
    assert_eq!(key.bits, 4);
}

#[test]
fn numerals_may_have_underscores_and_a_plus() {
    assert_eq!(value(&Key::load("n=+1_000_003_").unwrap().n), BigUint::from(1000003u32));
    assert!(matches!(Key::load("n=_15"), Err(KeyError::InvalidN(_))));
    assert!(matches!(Key::load("n=++15"), Err(KeyError::InvalidN(_))));
    assert!(matches!(Key::load("n=+"), Err(KeyError::InvalidN(_))));
    assert!(matches!(Key::load("n=-15"), Err(KeyError::InvalidN(_))));
    assert!(matches!(Key::load("n=1f"), Err(KeyError::InvalidN(_))));
    assert!(matches!(Key::load("n="), Err(KeyError::InvalidN(_))));
}

#[test]
fn bad_bits_are_refused() {
    for text in ["", "+", "-1", "1_0", "0x10", "1 0", "99999999999999999999999", "٣"] {
        let r = Key::load(&format!("bits={}\n", text));
        assert!(matches!(r, Err(KeyError::Bits(_))));
    }
    // A bad count is told of before a bad number.
    assert!(matches!(Key::load("n=junk\nbits=junk"), Err(KeyError::Bits(_))));
    assert!(matches!(Key::load("bits=junk\nbits=5\nn=15"), Err(KeyError::Bits(_))));
}

#[test]
fn leading_zeros_of_bits_do_not_count() {
    assert_eq!(Key::load("n=15\nbits=0000012").unwrap().bits, 12);
}

#[test]
fn file_without_a_number_is_refused() {
    assert!(matches!(Key::load(""), Err(KeyError::MissingN)));
    assert!(matches!(Key::load("bits=5\n# n=15\nN=15\nn =15"), Err(KeyError::MissingN)));
}

#[test]
fn even_or_small_numbers_are_refused() {
    for text in ["0", "1", "2", "115792089237316195423570985008687907853269984665640564039457584007913129639936"] {
        assert!(matches!(Key::load(&format!("n={}", text)), Err(KeyError::NotOddAboveOne)));
    }
    assert!(Key::load("n=3").is_ok());
}

#[test]
fn key_errors_in_words() {
    assert_eq!(Key::load("bits=x").unwrap_err().message(), "bits=");
    assert_eq!(Key::load("").unwrap_err().message(), "key file missing n=");
    assert_eq!(Key::load("n=x").unwrap_err().message(), "invalid n in key file");
    assert_eq!(Key::load("n=4").unwrap_err().message(), "n must be odd and > 1");
}

#[test]
fn ends_of_random_bytes_are_set() {
    for (bytes, bit_len, n) in [
        (vec![0x01u8, 0xfe, 0x10], 24usize, 0x81fe11u32),
        (vec![0x12, 0x34], 16, 0x9235),
        (vec![0x00], 8, 0x81),
        (vec![0xff], 8, 0xff),
        // The bits above the length are cleared.
        (vec![0xff, 0xfe], 12, 0x0fff),
        (vec![0xf0, 0x00], 12, 0x0801),
        (vec![0xfe, 0x00], 9, 0x0101),
        (vec![0x00, 0x00], 9, 0x0101),
        (vec![0x00], 2, 3),
        (vec![0xff], 2, 3),
    ] {
        let key = Key::from_random(bytes, bit_len);
        assert_eq!(value(&key.n), BigUint::from(n));
        assert_eq!(value(&key.n).bits(), bit_len as u64);
        assert_eq!(key.bits, 256);
    }
}

#[test]
fn generated_keys_have_their_length() {
    for (bit_len, bits) in [
        (1usize, 8u64),
        (2, 2),
        (8, 8),
        (9, 9),
        (12, 12),
        (256, 256),
        (300, 300),
        (512, 512),
    ] {
        let key = Key::generate(bit_len);
        assert_eq!(value(&key.n).bits(), bits);
        assert!(value(&key.n).bit(0));
        assert_eq!(key.bits, 256);
        assert_eq!(value(&Key::load(&key.save()).unwrap().n), value(&key.n));
    }
}

#[test]
fn generated_keys_differ() {
    assert_ne!(value(&Key::generate(256).n), value(&Key::generate(256).n));
}

#[test]
fn hash_is_brought_below_the_number() {
    assert_eq!(value(&remainder_of_hash(&[0x01, 0x00], &natural(15))), BigUint::from(1u32));
    assert_eq!(value(&remainder_of_hash(&[0x03, 0xe8], &natural(7))), BigUint::from(6u32));
}

#[test]
fn remainder_zero_becomes_one() {
    assert_eq!(value(&remainder_of_hash(&[30], &natural(15))), BigUint::from(1u32));
    assert_eq!(value(&remainder_of_hash(&[], &natural(15))), BigUint::from(1u32));
}

#[test]
fn challenge_is_bound_to_nonce_and_key() {
    let nonce = vec![0xabu8; 16];
    let r = challenge_remainder(&key(1000003, 20), &nonce);
    assert_eq!(value(&r), BigUint::from(427824u32));
    let other_nonce = challenge_remainder(&key(1000003, 20), &[0xabu8; 17]);
    assert_ne!(value(&other_nonce), value(&r));
    let other_key = challenge_remainder(&key(2000003, 20), &nonce);
    assert_ne!(value(&other_key), value(&r));
    // Leading zeros of the number make no difference.
    let padded = Key { n: Natural { bytes: vec![0, 0, 0x0f, 0x42, 0x43] }, bits: 20 };
    assert_eq!(value(&challenge_remainder(&padded, &nonce)), value(&r));
}
