//! The key of a door: an odd number above 1, and how many digits of an expansion
//! an answer has.
use num_bigint::ParseBigIntError;
use std::num::ParseIntError;
use vstd::arithmetic::div_mod::{
    lemma_fundamental_div_mod, lemma_fundamental_div_mod_converse, lemma_mod_bound,
};
use vstd::arithmetic::power2::{lemma2_to64, lemma_pow2_adds, lemma_pow2_strictly_increases, pow2};
use vstd::prelude::*;

use crate::natural::{be_value, lemma_be_value_bound, natural_numeral, Natural};
use crate::random::fill_random;
use crate::text::{
    after, after_prefix, before, decimal, is_bare, is_blank, is_digit, is_white_space,
    law_trimming_keeps_the_middle, lemma_after_prefix, lemma_before_is_shorter,
    lemma_decimal_reads_back, lemma_no_separator, lemma_parts_at_separator,
    lemma_split_at_separator, lemma_trimmed_is_identity, lemma_usize_reads_back, numeral_value,
    parse_usize, split_once, strip_prefix, text_of, trimmed, usize_numeral, usize_text,
};

verus! {

/// How many digits an answer has where the key does not say otherwise.
pub const DEFAULT_BITS: usize = 256;

/// A shared secret.
#[derive(Clone, Debug)]
pub struct Key {
    /// The secret number.
    pub n: Natural,
    /// How many binary digits an answer to a challenge has.
    pub bits: usize,
}

/// What is wrong with a key file.
#[derive(Debug)]
pub enum KeyError {
    /// The value of a `bits=` line is not a number.
    Bits(ParseIntError),
    /// There is no `n=` line.
    MissingN,
    /// The value of the last `n=` line is not a number.
    InvalidN(ParseBigIntError),
    /// The number is even, or not above 1.
    NotOddAboveOne,
}

/// Whether `n` can be a key: it is odd and above 1.
pub open spec fn is_key_number(n: nat) -> bool {
    n % 2 == 1 && n > 1
}

/// The lines of a text: what stands between its line feeds.
pub open spec fn lines_of(s: Seq<char>) -> Seq<Seq<char>>
    decreases s.len(),
    via lines_of_decreases
{
    match after(s, '\n') {
        Some(rest) => seq![before(s, '\n')] + lines_of(rest),
        None => seq![s],
    }
}

#[via_fn]
proof fn lines_of_decreases(s: Seq<char>) {
    if s.contains('\n') {
        lemma_before_is_shorter(s, '\n');
    }
}

/// The value that a line gives to the field with this prefix, if it does: white
/// space around the line and around the value does not count.
pub open spec fn field(line: Seq<char>, prefix: Seq<char>) -> Option<Seq<char>> {
    match after_prefix(trimmed(line), prefix) {
        Some(value) => Some(trimmed(value)),
        None => None,
    }
}

/// The value that the last line with this prefix gives.
pub open spec fn last_field(lines: Seq<Seq<char>>, prefix: Seq<char>) -> Option<Seq<char>>
    decreases lines.len(),
{
    if lines.len() == 0 {
        None
    } else {
        match field(lines.last(), prefix) {
            Some(value) => Some(value),
            None => last_field(lines.drop_last(), prefix),
        }
    }
}

/// Whether every `bits=` line gives a number.
pub open spec fn bits_are_numbers(lines: Seq<Seq<char>>) -> bool {
    forall|i: int|
        0 <= i < lines.len() ==> match #[trigger] field(lines[i], "bits="@) {
            Some(value) => usize_numeral(value) is Some,
            None => true,
        }
}

/// The number of digits that a key file asks for.
pub open spec fn bits_asked(lines: Seq<Seq<char>>) -> usize {
    match last_field(lines, "bits="@) {
        Some(value) => usize_numeral(value)->0,
        None => DEFAULT_BITS,
    }
}

/// The number and the count of digits that a key file holds, if it is a good
/// one.
pub open spec fn key_in(content: Seq<char>) -> Option<(nat, usize)> {
    let lines = lines_of(content);
    match last_field(lines, "n="@) {
        Some(value) => match natural_numeral(value) {
            Some(n) => if is_key_number(n) && bits_are_numbers(lines) {
                Some((n, bits_asked(lines)))
            } else {
                None
            },
            None => None,
        },
        None => None,
    }
}

/// What the reading of a key file comes to.
pub enum KeyReading {
    /// A key with this number and this count of digits.
    Good(nat, usize),
    /// The value of a `bits=` line is not a number.
    Bits,
    /// There is no `n=` line.
    MissingN,
    /// The value of the last `n=` line is not a number.
    InvalidN,
    /// The number is even, or not above 1.
    NotOddAboveOne,
}

/// What the reading of a key file comes to.
pub open spec fn reading_of(content: Seq<char>) -> KeyReading {
    let lines = lines_of(content);
    if !bits_are_numbers(lines) {
        KeyReading::Bits
    } else {
        match last_field(lines, "n="@) {
            Some(value) => match natural_numeral(value) {
                Some(n) => if is_key_number(n) {
                    KeyReading::Good(n, bits_asked(lines))
                } else {
                    KeyReading::NotOddAboveOne
                },
                None => KeyReading::InvalidN,
            },
            None => KeyReading::MissingN,
        }
    }
}

/// The model of what `Key::load` returns.
pub open spec fn reading(r: Result<Key, KeyError>) -> KeyReading {
    match r {
        Ok(key) => KeyReading::Good(key.n@, key.bits),
        Err(KeyError::Bits(_)) => KeyReading::Bits,
        Err(KeyError::MissingN) => KeyReading::MissingN,
        Err(KeyError::InvalidN(_)) => KeyReading::InvalidN,
        Err(KeyError::NotOddAboveOne) => KeyReading::NotOddAboveOne,
    }
}

/// What `Key::save` writes for the number `n` and `bits` digits.
pub open spec fn key_file(n: nat, bits: nat) -> Seq<char> {
    "# doors binary-reciprocal key\n# keep this file secret\nn="@ + decimal(n) + "\nbits="@
        + decimal(bits) + "\n"@
}

/// The place in the first byte, counted from its lowest bit, of the highest bit of
/// a number of `bit_len` bits.
pub open spec fn top_place(bit_len: nat) -> u8 {
    ((bit_len - 1) % 8) as u8
}

/// `bytes` made into a number of `bit_len` bits: the bits above its highest one
/// are cleared, that one and the lowest are set, and the rest stay.
pub open spec fn with_bit_len(bytes: Seq<u8>, bit_len: nat) -> Seq<u8> {
    let top = 1u8 << top_place(bit_len);
    let cut = bytes.update(0, (bytes[0] & (top - 1) as u8) | top);
    cut.update(cut.len() - 1, cut[cut.len() - 1] | 1)
}

impl KeyError {
    /// The error in words.
    pub fn message(&self) -> (r: &'static str)
        ensures
            r@ == match self {
                KeyError::Bits(_) => "bits="@,
                KeyError::MissingN => "key file missing n="@,
                KeyError::InvalidN(_) => "invalid n in key file"@,
                KeyError::NotOddAboveOne => "n must be odd and > 1"@,
            },
    {
        match self {
            KeyError::Bits(_) => "bits=",
            KeyError::MissingN => "key file missing n=",
            KeyError::InvalidN(_) => "invalid n in key file",
            KeyError::NotOddAboveOne => "n must be odd and > 1",
        }
    }
}

impl Key {
    /// Whether the number is one that a key can have.
    pub open spec fn wf(&self) -> bool {
        is_key_number(self.n@)
    }

    /// Generates a key whose number has exactly `bit_len` bits, and whose answers
    /// have `DEFAULT_BITS` digits. No odd number above 1 has a single bit: where
    /// one is asked for, the number has eight.
    pub fn generate(bit_len: usize) -> (key: Key)
        requires
            1 <= bit_len <= usize::MAX - 7,
        ensures
            key.wf(),
            bit_len >= 2 ==> pow2((bit_len - 1) as nat) <= key.n@ < pow2(bit_len as nat),
            bit_len == 1 ==> pow2(7) <= key.n@ < pow2(8),
            key.bits == DEFAULT_BITS,
    {
        let byte_len: usize = (bit_len + 7) / 8;
        let mut bytes: Vec<u8> = vec![0u8; byte_len];
        fill_random(&mut bytes);
        if bit_len == 1 {
            Key::from_random(bytes, 8)
        } else {
            Key::from_random(bytes, bit_len)
        }
    }

    /// The key of `bit_len` bits that these random bytes make: its number has
    /// their bits, but for the highest and the lowest, which are set, and those
    /// above the highest, which are cleared.
    pub fn from_random(bytes: Vec<u8>, bit_len: usize) -> (key: Key)
        requires
            2 <= bit_len <= usize::MAX - 7,
            bytes@.len() == (bit_len + 7) / 8,
        ensures
            key.n@ == be_value(with_bit_len(bytes@, bit_len as nat)),
            pow2((bit_len - 1) as nat) <= key.n@ < pow2(bit_len as nat),
            key.wf(),
            key.bits == DEFAULT_BITS,
    {
        let ghost random = bytes@;
        let mut bytes = bytes;
        let last: usize = bytes.len() - 1;
        let place: u8 = ((bit_len - 1) % 8) as u8;
        assert(1u8 << place >= 1) by (bit_vector)
            requires
                place < 8,
        ;
        let top: u8 = 1u8 << place;
        let first: u8 = (bytes[0] & (top - 1)) | top;
        bytes.set(0, first);
        let low: u8 = bytes[last] | 1;
        bytes.set(last, low);
        assert(bytes@ =~= with_bit_len(random, bit_len as nat));
        proof {
            lemma_bit_len(random, bit_len as nat);
        }
        let n = Natural::from_bytes_be(bytes.as_slice());
        Key { n, bits: DEFAULT_BITS }
    }

    /// Reads the text of a key file: `n=` and `bits=` lines, of which the last of
    /// each counts. All other lines are passed over.
    pub fn load(content: &str) -> (r: Result<Key, KeyError>)
        ensures
            ({
                let lines = lines_of(content@);
                let n = last_field(lines, "n="@);
                match r {
                    Ok(key) => key.wf() && key_in(content@) == Some((key.n@, key.bits)),
                    Err(KeyError::Bits(_)) => !bits_are_numbers(lines),
                    Err(KeyError::MissingN) => bits_are_numbers(lines) && n is None,
                    Err(KeyError::InvalidN(_)) => {
                        &&& bits_are_numbers(lines)
                        &&& n is Some
                        &&& natural_numeral(n->0) is None
                    },
                    Err(KeyError::NotOddAboveOne) => {
                        &&& bits_are_numbers(lines)
                        &&& n is Some
                        &&& natural_numeral(n->0) matches Some(v)
                        &&& !is_key_number(v)
                    },
                }
            }),
            reading(r) == reading_of(content@),
    {
        let mut n_text: Option<&str> = None;
        let mut bits: usize = DEFAULT_BITS;
        let mut text: &str = content;
        let mut more: bool = true;
        let ghost mut seen: Seq<Seq<char>> = Seq::empty();
        while more
            invariant
                lines_of(content@) == if more {
                    seen + lines_of(text@)
                } else {
                    seen
                },
                bits_are_numbers(seen),
                bits == bits_asked(seen),
                text_of(n_text) == last_field(seen, "n="@),
            decreases
                if more {
                    text@.len() + 1
                } else {
                    0
                },
        {
            let line = match split_once(text, '\n') {
                Some((line, tail)) => {
                    proof {
                        lemma_before_is_shorter(text@, '\n');
                        assert(lines_of(text@) == seq![line@] + lines_of(tail@));
                    }
                    text = tail;
                    line
                },
                None => {
                    assert(lines_of(text@) == seq![text@]);
                    more = false;
                    text
                },
            };
            let ghost before_line = seen;
            proof {
                seen = seen.push(line@);
                assert(seen.drop_last() =~= before_line);
            }
            let line = line.trim();
            if let Some(v) = strip_prefix(line, "n=") {
                n_text = Some(v.trim());
                proof {
                    lemma_prefixes_apart(line@);
                }
            } else if let Some(v) = strip_prefix(line, "bits=") {
                match parse_usize(v.trim()) {
                    Ok(b) => {
                        bits = b;
                    },
                    Err(e) => {
                        assert(!bits_are_numbers(lines_of(content@))) by {
                            let k = before_line.len() as int;
                            assert(lines_of(content@)[k] == seen[k]);
                            assert(field(lines_of(content@)[k], "bits="@) is Some);
                        }
                        return Err(KeyError::Bits(e));
                    },
                }
            }
            assert(bits_are_numbers(seen)) by {
                assert forall|i: int| 0 <= i < seen.len() implies match #[trigger] field(
                    seen[i],
                    "bits="@,
                ) {
                    Some(value) => usize_numeral(value) is Some,
                    None => true,
                } by {
                    if i < before_line.len() {
                        assert(field(before_line[i], "bits="@) == field(seen[i], "bits="@));
                    }
                }
            }
        }
        let n_text = match n_text {
            Some(t) => t,
            None => {
                return Err(KeyError::MissingN);
            },
        };
        let n = match Natural::from_text(n_text) {
            Ok(n) => n,
            Err(e) => {
                return Err(KeyError::InvalidN(e));
            },
        };
        if n.is_even() || Natural::one().at_least(&n) {
            return Err(KeyError::NotOddAboveOne);
        }
        Ok(Key { n, bits })
    }

    /// The text of the key file that holds this key.
    pub fn save(&self) -> (r: String)
        ensures
            r@ == key_file(self.n@, self.bits as nat),
    {
        let mut s = String::new();
        s.append("# doors binary-reciprocal key\n# keep this file secret\nn=");
        s.append(self.n.to_text().as_str());
        s.append("\nbits=");
        s.append(usize_text(self.bits).as_str());
        s.append("\n");
        assert(s@ =~= key_file(self.n@, self.bits as nat));
        s
    }
}

/// A key file that was written for a key is read back as that key.
pub proof fn law_key_file_reads_back(n: nat, bits: usize)
    requires
        is_key_number(n),
    ensures
        key_in(key_file(n, bits as nat)) == Some((n, bits)),
{
    let lines = lines_of(key_file(n, bits as nat));
    let third = "n="@ + decimal(n);
    let fourth = "bits="@ + decimal(bits as nat);
    lemma_key_file_lines(n, bits as nat);
    lemma_comments_are_passed_over();
    lemma_decimal_reads_back(n);
    lemma_decimal_reads_back(bits as nat);
    lemma_usize_reads_back(bits);
    assert(is_digit(decimal(n)[0]));
    assert(is_digit(decimal(n)[decimal(n).len() - 1]));
    assert(is_digit(decimal(bits as nat)[decimal(bits as nat).len() - 1]));
    assert("n="@.len() > 0 && "n="@[0] == 'n' && "bits="@.len() > 0 && "bits="@[0] == 'b') by {
        reveal_strlit("n=");
        reveal_strlit("bits=");
    }
    lemma_own_field("n="@, decimal(n));
    lemma_other_field(third, "bits="@);
    lemma_own_field("bits="@, decimal(bits as nat));
    lemma_other_field(fourth, "n="@);
    lemma_other_field(Seq::empty(), "n="@);
    lemma_other_field(Seq::empty(), "bits="@);
    assert(bits_are_numbers(lines));
    let up_to_fourth = lines.drop_last();
    let up_to_third = up_to_fourth.drop_last();
    assert(lines.last() == Seq::<char>::empty());
    assert(up_to_fourth.last() == fourth);
    assert(up_to_third.last() == third);
    assert(last_field(up_to_third, "n="@) == Some(decimal(n)));
    assert(last_field(up_to_fourth, "n="@) == Some(decimal(n)));
    assert(last_field(lines, "n="@) == Some(decimal(n)));
    assert(last_field(up_to_fourth, "bits="@) == Some(decimal(bits as nat)));
    assert(last_field(lines, "bits="@) == Some(decimal(bits as nat)));
}

/// The lines of a key file.
proof fn lemma_key_file_lines(n: nat, bits: nat)
    ensures
        lines_of(key_file(n, bits)) == seq![
            "# doors binary-reciprocal key"@,
            "# keep this file secret"@,
            "n="@ + decimal(n),
            "bits="@ + decimal(bits),
            Seq::<char>::empty(),
        ],
{
    let (first, second) = ("# doors binary-reciprocal key"@, "# keep this file secret"@);
    let third = "n="@ + decimal(n);
    let fourth = "bits="@ + decimal(bits);
    let empty = Seq::<char>::empty();
    let from_fourth = fourth + seq!['\n'] + empty;
    let from_third = third + seq!['\n'] + from_fourth;
    let from_second = second + seq!['\n'] + from_third;
    assert(key_file(n, bits) =~= first + seq!['\n'] + from_second) by {
        reveal_strlit("# doors binary-reciprocal key\n# keep this file secret\nn=");
        reveal_strlit("# doors binary-reciprocal key");
        reveal_strlit("# keep this file secret");
        reveal_strlit("n=");
        reveal_strlit("bits=");
        reveal_strlit("\nbits=");
        reveal_strlit("\n");
    }
    lemma_comments_are_passed_over();
    lemma_decimal_reads_back(n);
    lemma_decimal_reads_back(bits);
    assert(!third.contains('\n') && !fourth.contains('\n')) by {
        reveal_strlit("n=");
        reveal_strlit("bits=");
    }
    lemma_first_line(first, from_second);
    lemma_first_line(second, from_third);
    lemma_first_line(third, from_fourth);
    lemma_first_line(fourth, empty);
    lemma_no_separator(empty, '\n');
    assert(lines_of(empty) == seq![empty]);
    assert(lines_of(key_file(n, bits)) =~= seq![first, second, third, fourth, empty]);
}

/// What stands before the first line feed is the first line.
proof fn lemma_first_line(line: Seq<char>, rest: Seq<char>)
    requires
        !line.contains('\n'),
    ensures
        lines_of(line + seq!['\n'] + rest) == seq![line] + lines_of(rest),
{
    lemma_split_at_separator(line, '\n', rest);
}

/// The comments of a key file are single lines that give no value to a field.
proof fn lemma_comments_are_passed_over()
    ensures
        !"# doors binary-reciprocal key"@.contains('\n'),
        !"# keep this file secret"@.contains('\n'),
        field("# doors binary-reciprocal key"@, "n="@) is None,
        field("# doors binary-reciprocal key"@, "bits="@) is None,
        field("# keep this file secret"@, "n="@) is None,
        field("# keep this file secret"@, "bits="@) is None,
{
    let (first, second) = ("# doors binary-reciprocal key"@, "# keep this file secret"@);
    reveal_strlit("# doors binary-reciprocal key");
    reveal_strlit("# keep this file secret");
    reveal_strlit("n=");
    reveal_strlit("bits=");
    assert(!first.contains('\n')) by {
        assert(first =~= seq![
            '#', ' ', 'd', 'o', 'o', 'r', 's', ' ', 'b', 'i', 'n', 'a', 'r', 'y', '-', 'r', 'e',
            'c', 'i', 'p', 'r', 'o', 'c', 'a', 'l', ' ', 'k', 'e', 'y',
        ]);
    }
    assert(!second.contains('\n')) by {
        assert(second =~= seq![
            '#', ' ', 'k', 'e', 'e', 'p', ' ', 't', 'h', 'i', 's', ' ', 'f', 'i', 'l', 'e', ' ',
            's', 'e', 'c', 'r', 'e', 't',
        ]);
    }
    lemma_other_field(first, "n="@);
    lemma_other_field(first, "bits="@);
    lemma_other_field(second, "n="@);
    lemma_other_field(second, "bits="@);
}

/// A line that begins otherwise gives no value to the field.
proof fn lemma_other_field(line: Seq<char>, prefix: Seq<char>)
    requires
        prefix.len() > 0,
        line.len() > 0 ==> !is_white_space(line[0]) && !is_white_space(line.last()) && line[0]
            != prefix[0],
    ensures
        field(line, prefix) is None,
{
    lemma_trimmed_is_identity(line);
    if prefix.is_prefix_of(line) {
        assert(line.subrange(0, prefix.len() as int)[0] == prefix[0]);
    }
}

/// A line made of the prefix and digits gives the digits to the field.
proof fn lemma_own_field(prefix: Seq<char>, digits: Seq<char>)
    requires
        prefix.len() > 0,
        !is_white_space(prefix[0]),
        digits.len() > 0,
        forall|i: int| 0 <= i < digits.len() ==> is_digit(#[trigger] digits[i]),
    ensures
        field(prefix + digits, prefix) == Some(digits),
{
    assert(is_digit(digits[0]));
    assert(is_digit(digits[digits.len() - 1]));
    lemma_trimmed_is_identity(prefix + digits);
    lemma_trimmed_is_identity(digits);
    lemma_after_prefix(prefix, digits);
}

/// A line does not give both `n` and `bits`.
proof fn lemma_prefixes_apart(line: Seq<char>)
    requires
        after_prefix(line, "n="@) is Some,
    ensures
        after_prefix(line, "bits="@) is None,
{
    reveal_strlit("n=");
    reveal_strlit("bits=");
    if "bits="@.is_prefix_of(line) {
        assert(line.subrange(0, 2)[0] == 'n');
        assert(line.subrange(0, 5)[0] == 'b');
    }
}

proof fn lemma_bit_len(random: Seq<u8>, bit_len: nat)
    requires
        bit_len >= 2,
        random.len() == (bit_len + 7) / 8,
    ensures
        is_key_number(be_value(with_bit_len(random, bit_len))),
        pow2((bit_len - 1) as nat) <= be_value(with_bit_len(random, bit_len)),
        be_value(with_bit_len(random, bit_len)) < pow2(bit_len),
{
    let s = with_bit_len(random, bit_len);
    let place = top_place(bit_len);
    let top = 1u8 << place;
    let drawn = random[0];
    let first = (drawn & (top - 1) as u8) | top;
    lemma_top_bit(place);
    lemma_first_byte(drawn, place);
    let low = random.update(0, first)[random.len() - 1];
    assert((low | 1) % 2 == 1) by (bit_vector);
    assert(be_value(s) % 2 == s.last() as nat % 2);
    assert(pow2(place as nat) <= s[0] < 2 * pow2(place as nat));
    lemma_leading_byte(s);
    let rest = (8 * (s.len() - 1)) as nat;
    let unit = pow2(rest);
    lemma_pow2_adds(place as nat, rest);
    lemma_pow2_adds((place + 1) as nat, rest);
    lemma_pow2_adds(1, place as nat);
    lemma2_to64();
    assert(place + rest == bit_len - 1);
    assert(pow2(place as nat) * unit <= s[0] * unit) by (nonlinear_arith)
        requires
            pow2(place as nat) <= s[0],
    ;
    assert((s[0] + 1) * unit <= (2 * pow2(place as nat)) * unit) by (nonlinear_arith)
        requires
            s[0] < 2 * pow2(place as nat),
    ;
    if bit_len > 2 {
        lemma_pow2_strictly_increases(1, (bit_len - 1) as nat);
    }
}

/// One bit, shifted, is a power of two.
proof fn lemma_top_bit(place: u8)
    requires
        place < 8,
    ensures
        (1u8 << place) == pow2(place as nat),
{
    lemma2_to64();
    assert(place < 8 ==> (1u8 << place) == if place == 0 {
        1u8
    } else if place == 1 {
        2
    } else if place == 2 {
        4
    } else if place == 3 {
        8
    } else if place == 4 {
        16
    } else if place == 5 {
        32
    } else if place == 6 {
        64
    } else {
        128
    }) by (bit_vector);
}

/// A byte that is cut to its bits below `place`, with that one set, lies between
/// the powers of two around it; setting its lowest bit keeps it there, unless
/// that is the only one.
proof fn lemma_first_byte(drawn: u8, place: u8)
    requires
        place < 8,
    ensures
        ({
            let top = 1u8 << place;
            let first = (drawn & (top - 1) as u8) | top;
            &&& top <= first < 2 * top
            &&& place > 0 ==> top <= (first | 1) < 2 * top
        }),
{
    let top = 1u8 << place;
    assert(top >= 1) by (bit_vector)
        requires
            top == 1u8 << place,
            place < 8,
    ;
    let mask = (top - 1) as u8;
    let first = (drawn & mask) | top;
    assert(top <= first && first < 2 * top) by (bit_vector)
        requires
            place < 8,
            top == 1u8 << place,
            mask == (top - 1) as u8,
            first == (drawn & mask) | top,
    ;
    assert(place > 0 ==> top <= (first | 1) && (first | 1) < 2 * top) by (bit_vector)
        requires
            place < 8,
            top == 1u8 << place,
            mask == (top - 1) as u8,
            first == (drawn & mask) | top,
    ;
}

/// The first byte of a number tells its size.
proof fn lemma_leading_byte(s: Seq<u8>)
    requires
        s.len() > 0,
    ensures
        s[0] * pow2((8 * (s.len() - 1)) as nat) <= be_value(s),
        be_value(s) < (s[0] + 1) * pow2((8 * (s.len() - 1)) as nat),
    decreases s.len(),
{
    lemma2_to64();
    if s.len() == 1 {
        reveal_with_fuel(be_value, 2);
        let unit = pow2((8 * (s.len() - 1)) as nat);
        assert(s[0] * unit == s[0] && (s[0] + 1) * unit == s[0] + 1) by (nonlinear_arith)
            requires
                unit == 1,
        ;
    } else {
        lemma_leading_byte(s.drop_last());
        let unit = pow2((8 * (s.len() - 2)) as nat);
        let whole = pow2((8 * (s.len() - 1)) as nat);
        lemma_pow2_adds((8 * (s.len() - 2)) as nat, 8);
        let v = be_value(s.drop_last());
        assert(s[0] * whole <= 256 * v && 256 * v + 256 <= (s[0] + 1) * whole) by (nonlinear_arith)
            requires
                whole == unit * 256,
                s[0] * unit <= v,
                v + 1 <= (s[0] + 1) * unit,
        ;
    }
}

/// Lines with a line feed between each two of them.
pub open spec fn joined(lines: Seq<Seq<char>>) -> Seq<char>
    decreases lines.len(),
{
    if lines.len() == 0 {
        Seq::empty()
    } else if lines.len() == 1 {
        lines[0]
    } else {
        lines[0] + seq!['\n'] + joined(lines.skip(1))
    }
}

/// The lines of a text hold no line feed, and joined by line feeds they are the text.
pub proof fn law_lines_make_up_the_text(s: Seq<char>)
    ensures
        lines_of(s).len() > 0,
        forall|i: int| 0 <= i < lines_of(s).len() ==> !(#[trigger] lines_of(s)[i]).contains('\n'),
        joined(lines_of(s)) == s,
    decreases s.len(),
{
    let lines = lines_of(s);
    if s.contains('\n') {
        lemma_parts_at_separator(s, '\n');
        lemma_before_is_shorter(s, '\n');
        let rest = after(s, '\n')->0;
        law_lines_make_up_the_text(rest);
        assert(lines == seq![before(s, '\n')] + lines_of(rest));
        assert(lines.skip(1) =~= lines_of(rest));
        assert forall|i: int| 0 <= i < lines.len() implies !(#[trigger] lines[i]).contains('\n') by {
            if i > 0 {
                assert(lines[i] == lines_of(rest)[i - 1]);
            }
        }
    } else {
        assert(lines == seq![s]);
    }
}

/// A line gives a value to a field by the prefix and the value, with any white
/// space before, between and behind them.
pub proof fn law_field_is_read(
    a: Seq<char>,
    prefix: Seq<char>,
    b: Seq<char>,
    value: Seq<char>,
    c: Seq<char>,
)
    requires
        prefix.len() > 0,
        is_bare(prefix),
        is_blank(a),
        is_blank(b),
        is_bare(value),
        is_blank(c),
    ensures
        field(a + (prefix + (b + value)) + c, prefix) == Some(value),
{
    let line = a + (prefix + (b + value)) + c;
    if value.len() > 0 {
        let middle = prefix + (b + value);
        assert(middle.last() == value.last());
        law_trimming_keeps_the_middle(a, middle, c);
        lemma_after_prefix(prefix, b + value);
        assert(b + value =~= b + value + Seq::empty());
        law_trimming_keeps_the_middle(b, value, Seq::empty());
    } else {
        let tail = b + value + c;
        assert forall|i: int| 0 <= i < tail.len() implies is_white_space(#[trigger] tail[i]) by {
            if i >= b.len() {
                assert(is_white_space(c[i - b.len()]));
            }
        }
        assert(line =~= a + prefix + tail);
        law_trimming_keeps_the_middle(a, prefix, tail);
        assert(prefix =~= prefix + Seq::empty());
        lemma_after_prefix(prefix, Seq::empty());
        lemma_trimmed_is_identity(Seq::empty());
        assert(value =~= Seq::empty());
    }
}

/// A line gives a value to a field only where it begins with the prefix, apart from
/// white space; the value is all that follows, apart from white space.
pub proof fn law_field_needs_its_prefix(line: Seq<char>, prefix: Seq<char>)
    ensures
        match field(line, prefix) {
            Some(value) => exists|rest: Seq<char>|
                trimmed(line) == #[trigger] (prefix + rest) && value == trimmed(rest),
            None => trimmed(line).len() < prefix.len() || trimmed(line).take(prefix.len() as int)
                != prefix,
        },
{
    let text = trimmed(line);
    if text.len() >= prefix.len() {
        let k = prefix.len() as int;
        assert(text.take(k) =~= text.subrange(0, k));
        if prefix.is_prefix_of(text) {
            assert(text =~= prefix + text.skip(k));
        }
    }
}

/// Whether line `i` is the last one that gives a value to the field, and gives this
/// one.
pub open spec fn gives_last(
    lines: Seq<Seq<char>>,
    prefix: Seq<char>,
    i: int,
    value: Seq<char>,
) -> bool {
    &&& 0 <= i < lines.len()
    &&& field(lines[i], prefix) == Some(value)
    &&& forall|j: int| i < j < lines.len() ==> field(#[trigger] lines[j], prefix) is None
}

/// Whether no line gives a value to the field.
pub open spec fn gives_none(lines: Seq<Seq<char>>, prefix: Seq<char>) -> bool {
    forall|j: int| 0 <= j < lines.len() ==> field(#[trigger] lines[j], prefix) is None
}

/// The value of a field is that of the last line that gives one.
pub proof fn law_last_line_counts(lines: Seq<Seq<char>>, prefix: Seq<char>)
    ensures
        match last_field(lines, prefix) {
            Some(value) => exists|i: int| gives_last(lines, prefix, i, value),
            None => gives_none(lines, prefix),
        },
    decreases lines.len(),
{
    if lines.len() > 0 {
        let front = lines.drop_last();
        law_last_line_counts(front, prefix);
        match field(lines.last(), prefix) {
            Some(value) => {
                assert(gives_last(lines, prefix, lines.len() - 1, value));
            },
            None => {
                if let Some(value) = last_field(front, prefix) {
                    let i = choose|i: int| gives_last(front, prefix, i, value);
                    assert forall|j: int| i < j < lines.len() implies field(
                        #[trigger] lines[j],
                        prefix,
                    ) is None by {
                        if j < front.len() {
                            assert(field(front[j], prefix) is None);
                        }
                    }
                    assert(gives_last(lines, prefix, i, value));
                } else {
                    assert forall|j: int| 0 <= j < lines.len() implies field(
                        #[trigger] lines[j],
                        prefix,
                    ) is None by {
                        if j < front.len() {
                            assert(field(front[j], prefix) is None);
                        }
                    }
                }
            },
        }
    }
}

/// A key file is judged by its lines. A `bits=` line that gives no number is told of
/// first, then a missing `n=` line, then one whose value is no number, then a number
/// that is even or not above 1. Else the file holds the number of its last `n=` line,
/// and the count of its last `bits=` line, or 256 where it has none.
pub proof fn law_key_file_is_judged_by_its_lines(content: Seq<char>)
    ensures
        ({
            let lines = lines_of(content);
            let bad_bits = exists|i: int|
                0 <= i < lines.len() && (field(#[trigger] lines[i], "bits="@) matches Some(value)
                    && usize_numeral(value) is None);
            match reading_of(content) {
                KeyReading::Bits => bad_bits,
                KeyReading::MissingN => !bad_bits && gives_none(lines, "n="@),
                KeyReading::InvalidN => !bad_bits && exists|i: int, value: Seq<char>|
                    #[trigger] gives_last(lines, "n="@, i, value) && natural_numeral(value) is None,
                KeyReading::NotOddAboveOne => !bad_bits && exists|i: int, value: Seq<char>|
                    #[trigger] gives_last(lines, "n="@, i, value) && (natural_numeral(
                        value,
                    ) matches Some(n) && (n % 2 == 0 || n <= 1)),
                KeyReading::Good(n, bits) => {
                    &&& !bad_bits
                    &&& n % 2 == 1
                    &&& n > 1
                    &&& exists|i: int, value: Seq<char>| #[trigger]
                        gives_last(lines, "n="@, i, value) && natural_numeral(value) == Some(n)
                    &&& {
                        ||| gives_none(lines, "bits="@) && bits == 256
                        ||| exists|i: int, value: Seq<char>| #[trigger]
                            gives_last(lines, "bits="@, i, value) && usize_numeral(value) == Some(
                                bits,
                            )
                    }
                },
            }
        }),
        match key_in(content) {
            Some((n, bits)) => reading_of(content) == KeyReading::Good(n, bits),
            None => !(reading_of(content) is Good),
        },
{
    let lines = lines_of(content);
    law_last_line_counts(lines, "n="@);
    law_last_line_counts(lines, "bits="@);
    if !bits_are_numbers(lines) {
        let i = choose|i: int|
            0 <= i < lines.len() && !(match #[trigger] field(lines[i], "bits="@) {
                Some(value) => usize_numeral(value) is Some,
                None => true,
            });
        assert(field(lines[i], "bits="@) is Some);
    } else {
        assert forall|i: int| 0 <= i < lines.len() implies !(field(
            #[trigger] lines[i],
            "bits="@,
        ) matches Some(value) && usize_numeral(value) is None) by {
            let f = field(lines[i], "bits="@);
        }
    }
}

/// A key file holds two comments, the number in decimal and the count in decimal, each
/// on a line of its own.
pub proof fn law_key_file_has_four_lines(n: nat, bits: nat)
    ensures
        ({
            let file = key_file(n, bits);
            let lines = lines_of(file);
            &&& lines.len() == 5
            &&& lines[0] == "# doors binary-reciprocal key"@
            &&& lines[1] == "# keep this file secret"@
            &&& lines[2].take(2) == "n="@
            &&& lines[2].skip(2) == decimal(n)
            &&& lines[3].take(5) == "bits="@
            &&& lines[3].skip(5) == decimal(bits)
            &&& lines[4] == Seq::<char>::empty()
            &&& numeral_value(lines[2].skip(2)) == n
            &&& numeral_value(lines[3].skip(5)) == bits
            &&& file == joined(lines)
        }),
{
    let lines = lines_of(key_file(n, bits));
    lemma_key_file_lines(n, bits);
    reveal_strlit("n=");
    reveal_strlit("bits=");
    assert(lines[2].take(2) =~= "n="@);
    assert(lines[2].skip(2) =~= decimal(n));
    assert(lines[3].take(5) =~= "bits="@);
    assert(lines[3].skip(5) =~= decimal(bits));
    lemma_decimal_reads_back(n);
    lemma_decimal_reads_back(bits);
    law_lines_make_up_the_text(key_file(n, bits));
}

/// The number of a key that is made of random bytes has the highest and the lowest
/// of its bits set, and between them all the bits that were drawn for these places.
pub proof fn law_key_keeps_the_random_bits(bytes: Seq<u8>, bit_len: nat)
    requires
        bit_len >= 2,
        bytes.len() == (bit_len + 7) / 8,
    ensures
        be_value(with_bit_len(bytes, bit_len)) == pow2((bit_len - 1) as nat) + 2 * ((be_value(bytes)
            / 2) % pow2((bit_len - 2) as nat)) + 1,
{
    let s = with_bit_len(bytes, bit_len);
    let place = top_place(bit_len);
    let top = 1u8 << place;
    let drawn = bytes[0];
    lemma_top_bit(place);
    lemma2_to64();
    if bytes.len() == 1 {
        let half = 1u8 << ((place - 1) as u8);
        lemma_top_bit((place - 1) as u8);
        lemma_only_byte(drawn, place);
        reveal_with_fuel(be_value, 2);
        assert(s =~= seq![((drawn & (top - 1) as u8) | top) | 1]);
        assert(bytes =~= seq![drawn]);
    } else {
        let (rest, last) = (bytes.skip(1), bytes.last());
        let first = (drawn & (top - 1) as u8) | top;
        lemma_split_first(bytes);
        lemma_split_first(s);
        lemma_first_byte_value(drawn, place);
        assert(s.skip(1) =~= rest.update(rest.len() - 1, rest.last() | 1));
        lemma_lowest_bit_is_set(rest);
        lemma_be_value_bound(rest);
        let k = (8 * (bytes.len() - 1)) as nat;
        let (unit, half) = (pow2(k), pow2((k - 1) as nat));
        lemma_pow2_adds(1, (k - 1) as nat);
        assert(unit == 2 * half);
        lemma_pow2_adds(place as nat, k);
        lemma_pow2_adds(place as nat, (k - 1) as nat);
        assert(place + k == bit_len - 1);
        let t = top as nat;
        let low = be_value(rest);
        let v = be_value(bytes);
        let (q, m) = (drawn as nat / t, drawn as nat % t);
        assert(v / 2 == drawn * half + low / 2) by (nonlinear_arith)
            requires
                v == drawn * unit + low,
                unit == 2 * half,
        ;
        lemma_fundamental_div_mod(drawn as int, t as int);
        lemma_mod_bound(drawn as int, t as int);
        assert(v / 2 == q * (t * half) + (m * half + low / 2)) by (nonlinear_arith)
            requires
                v / 2 == drawn * half + low / 2,
                drawn == t * q + m,
        ;
        assert(m * half + low / 2 < t * half) by (nonlinear_arith)
            requires
                m + 1 <= t,
                low / 2 < half,
        ;
        assert(m * half >= 0) by (nonlinear_arith);
        lemma_fundamental_div_mod_converse(
            (v / 2) as int,
            (t * half) as int,
            q as int,
            (m * half + low / 2) as int,
        );
        assert((t + m) * unit == t * unit + 2 * (m * half)) by (nonlinear_arith)
            requires
                unit == 2 * half,
        ;
    }
}

/// A number of one byte keeps the bits between its highest and its lowest.
proof fn lemma_only_byte(drawn: u8, place: u8)
    requires
        1 <= place < 8,
    ensures
        ({
            let top = 1u8 << place;
            let half = 1u8 << ((place - 1) as u8);
            half > 0 && (((drawn & (top - 1) as u8) | top) | 1) == top + 2 * ((drawn / 2) % half)
                + 1
        }),
{
    let top = 1u8 << place;
    let before = (place - 1) as u8;
    let half = 1u8 << before;
    assert(half > 0 && top > 0) by (bit_vector)
        requires
            top == 1u8 << place,
            half == 1u8 << before,
            before < 8,
            place < 8,
    ;
    let mask = (top - 1) as u8;
    assert((((drawn & mask) | top) | 1) == top + 2 * ((drawn / 2) % half) + 1) by (bit_vector)
        requires
            1 <= place < 8,
            before == (place - 1) as u8,
            top == 1u8 << place,
            half == 1u8 << before,
            mask == (top - 1) as u8,
    ;
}

/// A byte that is cut to its bits below `place`, with that one set, is that power of
/// two and the remainder by it.
proof fn lemma_first_byte_value(drawn: u8, place: u8)
    requires
        place < 8,
    ensures
        ({
            let top = 1u8 << place;
            top > 0 && ((drawn & (top - 1) as u8) | top) == top + drawn % top
        }),
{
    let top = 1u8 << place;
    assert(top > 0) by (bit_vector)
        requires
            top == 1u8 << place,
            place < 8,
    ;
    let mask = (top - 1) as u8;
    assert(((drawn & mask) | top) == top + drawn % top) by (bit_vector)
        requires
            place < 8,
            top == 1u8 << place,
            mask == (top - 1) as u8,
    ;
}

/// The first byte of a number counts for as much as its place says.
proof fn lemma_split_first(s: Seq<u8>)
    requires
        s.len() > 0,
    ensures
        be_value(s) == s[0] * pow2((8 * (s.len() - 1)) as nat) + be_value(s.skip(1)),
    decreases s.len(),
{
    lemma2_to64();
    if s.len() == 1 {
        reveal_with_fuel(be_value, 2);
        let unit = pow2((8 * (s.len() - 1)) as nat);
        assert(s[0] * unit == s[0]) by (nonlinear_arith)
            requires
                unit == 1,
        ;
        assert(s.skip(1) =~= Seq::empty());
    } else {
        let front = s.drop_last();
        lemma_split_first(front);
        assert(s.skip(1).drop_last() =~= front.skip(1));
        assert(s.skip(1).last() == s.last());
        let unit = pow2((8 * (s.len() - 2)) as nat);
        let whole = pow2((8 * (s.len() - 1)) as nat);
        lemma_pow2_adds((8 * (s.len() - 2)) as nat, 8);
        assert(256 * (s[0] * unit) == s[0] * whole) by (nonlinear_arith)
            requires
                whole == unit * 256,
        ;
    }
}

/// Setting the lowest bit of the last byte makes the number odd and changes nothing
/// else.
proof fn lemma_lowest_bit_is_set(s: Seq<u8>)
    requires
        s.len() > 0,
    ensures
        be_value(s.update(s.len() - 1, s.last() | 1)) == 2 * (be_value(s) / 2) + 1,
{
    let t = s.update(s.len() - 1, s.last() | 1);
    let b = s.last();
    assert((b | 1) == 2 * (b / 2) + 1) by (bit_vector);
    assert(t.drop_last() =~= s.drop_last());
}

} // verus!
