//! The procedure behind a door: it greets its callers, and where it has a key it
//! also challenges them and judges their answers.
use vstd::prelude::*;

use crate::challenge::{challenge_of, challenge_remainder};
use crate::compare::ct_eq;
use crate::hello::{greeting, greeting_of, law_greeting_repeats_the_message};
use crate::hexcode::{
    decode, encode, hex_bytes, hex_text, is_hex_digit, law_hex_reads_back,
};
use crate::key::{is_key_number, Key};
use crate::natural::{be_bytes, be_value, lemma_be_bytes_value, Natural};
use crate::reciprocal::{binary_reciprocal_bits, expansion};
use crate::text::{
    after, after_prefix, before, decimal, is_bare, is_blank, is_white_space,
    law_trimming_keeps_the_middle, lemma_after_prefix, lemma_decimal_reads_back,
    lemma_parts_at_separator, lemma_split_at_separator, numeral_value, split_once, strip_prefix,
    trimmed, usize_text,
};

verus! {

/// The fewest bytes that a nonce may have.
pub const MIN_NONCE_LEN: usize = 16;

/// What a caller asks of a door that has a key.
#[derive(Debug)]
pub enum Request {
    /// To be challenged, with this nonce.
    Challenge {
        /// The nonce.
        nonce: Vec<u8>,
    },
    /// To have an answer judged.
    Answer {
        /// The nonce of the challenge.
        nonce: Vec<u8>,
        /// The digits that the caller answers with.
        provided: String,
    },
    /// The nonce is not hexadecimal or too short.
    BadNonce,
    /// An answer without a separator between nonce and digits.
    Malformed,
    /// Any other message.
    Message,
}

/// The model of a `Request`.
pub enum RequestView {
    /// To be challenged, with this nonce.
    Challenge(Seq<u8>),
    /// To have these digits judged as an answer to the challenge for this nonce.
    Answer(Seq<u8>, Seq<char>),
    /// The nonce is not hexadecimal or too short.
    BadNonce,
    /// An answer without a separator between nonce and digits.
    Malformed,
    /// Any other message.
    Message,
}

impl View for Request {
    type V = RequestView;

    open spec fn view(&self) -> RequestView {
        match self {
            Request::Challenge { nonce } => RequestView::Challenge(nonce@),
            Request::Answer { nonce, provided } => RequestView::Answer(nonce@, provided@),
            Request::BadNonce => RequestView::BadNonce,
            Request::Malformed => RequestView::Malformed,
            Request::Message => RequestView::Message,
        }
    }
}

/// The nonce that `s` stands for: hexadecimal, with white space around it or
/// none, of `MIN_NONCE_LEN` bytes or more.
pub open spec fn nonce_in(s: Seq<char>) -> Option<Seq<u8>> {
    match hex_bytes(trimmed(s)) {
        Some(nonce) => if nonce.len() >= MIN_NONCE_LEN {
            Some(nonce)
        } else {
            None
        },
        None => None,
    }
}

/// What a message asks of a door that has a key.
pub open spec fn request_in(args: Seq<char>) -> RequestView {
    match after_prefix(args, "AUTH:CHAL:"@) {
        Some(nonce_hex) => match nonce_in(nonce_hex) {
            Some(nonce) => RequestView::Challenge(nonce),
            None => RequestView::BadNonce,
        },
        None => match after_prefix(args, "AUTH:RESP:"@) {
            Some(rest) => match after(rest, ':') {
                Some(digits) => match nonce_in(before(rest, ':')) {
                    Some(nonce) => RequestView::Answer(nonce, trimmed(digits)),
                    None => RequestView::BadNonce,
                },
                None => RequestView::Malformed,
            },
            None => RequestView::Message,
        },
    }
}

/// The challenge that starts from `remainder` and asks for `bits` digits.
pub open spec fn challenge_text(remainder: nat, bits: nat) -> Seq<char> {
    "AUTH:CHAL:"@ + hex_text(be_bytes(remainder)) + ":"@ + decimal(bits)
}

/// What a door with the number `n` says to these digits, where the challenge
/// started from `remainder` and asked for `bits` digits.
pub open spec fn verdict_of(n: nat, bits: nat, remainder: nat, provided: Seq<char>) -> Seq<char> {
    if provided == expansion(n, remainder, bits) {
        "AUTH:OK"@
    } else {
        "AUTH:ERR:bad key"@
    }
}

/// The number and the count of digits of a key, if there is one.
pub open spec fn key_parts(key: Option<&Key>) -> Option<(nat, usize)> {
    match key {
        Some(k) => Some((k.n@, k.bits)),
        None => None,
    }
}

/// What a door answers to a message.
pub open spec fn reply_of(key: Option<(nat, usize)>, args: Seq<char>) -> Seq<char> {
    match key {
        None => greeting_of(args),
        Some((n, bits)) => match request_in(args) {
            RequestView::Challenge(nonce) => challenge_text(challenge_of(n, nonce), bits as nat),
            RequestView::Answer(nonce, provided) => verdict_of(
                n,
                bits as nat,
                challenge_of(n, nonce),
                provided,
            ),
            RequestView::BadNonce => "AUTH:ERR:bad nonce"@,
            RequestView::Malformed => "AUTH:ERR:malformed"@,
            RequestView::Message => greeting_of(args),
        },
    }
}

/// Reads a nonce.
fn parse_nonce(s: &str) -> (r: Option<Vec<u8>>)
    ensures
        match r {
            Some(nonce) => nonce_in(s@) == Some(nonce@),
            None => nonce_in(s@) is None,
        },
{
    match decode(s.trim()) {
        Ok(nonce) => if nonce.len() >= MIN_NONCE_LEN {
            Some(nonce)
        } else {
            None
        },
        Err(_) => None,
    }
}

/// Tells what a message asks of a door that has a key.
pub fn parse_request(args: &str) -> (r: Request)
    ensures
        r@ == request_in(args@),
        match (r, request_in(args@)) {
            (Request::Challenge { nonce }, RequestView::Challenge(given)) => nonce@ == given,
            (
                Request::Answer { nonce, provided },
                RequestView::Answer(given, digits),
            ) => nonce@ == given && provided@ == digits,
            (Request::BadNonce, RequestView::BadNonce) => true,
            (Request::Malformed, RequestView::Malformed) => true,
            (Request::Message, RequestView::Message) => true,
            _ => false,
        },
{
    if let Some(nonce_hex) = strip_prefix(args, "AUTH:CHAL:") {
        return match parse_nonce(nonce_hex) {
            Some(nonce) => Request::Challenge { nonce },
            None => Request::BadNonce,
        };
    }
    if let Some(rest) = strip_prefix(args, "AUTH:RESP:") {
        return match split_once(rest, ':') {
            Some((nonce_hex, digits)) => match parse_nonce(nonce_hex) {
                Some(nonce) => Request::Answer { nonce, provided: digits.trim().to_owned() },
                None => Request::BadNonce,
            },
            None => Request::Malformed,
        };
    }
    Request::Message
}

/// The challenge that starts from `remainder` and asks for as many digits as the
/// key says.
pub fn challenge_reply(key: &Key, remainder: &Natural) -> (r: String)
    requires
        2 * be_bytes(remainder@).len() <= isize::MAX,
    ensures
        r@ == challenge_text(remainder@, key.bits as nat),
{
    let mut s = String::new();
    s.append("AUTH:CHAL:");
    s.append(encode(remainder.to_bytes_be().as_slice()).as_str());
    s.append(":");
    s.append(usize_text(key.bits).as_str());
    assert(s@ =~= challenge_text(remainder@, key.bits as nat));
    s
}

/// Judges the digits that a caller answers the challenge from `remainder` with.
pub fn judge(key: &Key, remainder: Natural, provided: &str) -> (r: String)
    requires
        key.wf(),
        key.bits <= isize::MAX,
    ensures
        r@ == verdict_of(key.n@, key.bits as nat, remainder@, provided@),
{
    let (expected, _) = binary_reciprocal_bits(&key.n, remainder, key.bits);
    if ct_eq(provided, expected.as_str()) {
        "AUTH:OK".to_owned()
    } else {
        "AUTH:ERR:bad key".to_owned()
    }
}

/// What the door answers to a message. Without a key it greets; with one it also
/// challenges, and judges answers.
pub fn door_procedure(key: Option<&Key>, args: &str) -> (r: String)
    requires
        key matches Some(k) ==> k.wf() && (request_in(args@) is Answer ==> k.bits <= isize::MAX),
    ensures
        r@ == reply_of(key_parts(key), args@),
{
    let key = match key {
        Some(key) => key,
        None => {
            return greeting(args);
        },
    };
    match parse_request(args) {
        Request::Challenge { nonce } => {
            let remainder = challenge_remainder(key, nonce.as_slice());
            challenge_reply(key, &remainder)
        },
        Request::Answer { nonce, provided } => {
            let remainder = challenge_remainder(key, nonce.as_slice());
            judge(key, remainder, provided.as_str())
        },
        Request::BadNonce => "AUTH:ERR:bad nonce".to_owned(),
        Request::Malformed => "AUTH:ERR:malformed".to_owned(),
        Request::Message => greeting(args),
    }
}

/// A message that is no part of a handshake is answered alike with a key and
/// without.
pub proof fn law_messages_need_no_key(key: (nat, usize), args: Seq<char>)
    requires
        after_prefix(args, "AUTH:CHAL:"@) is None,
        after_prefix(args, "AUTH:RESP:"@) is None,
    ensures
        reply_of(Some(key), args) == reply_of(None, args),
{
}

/// A door with a key says `AUTH:OK` to an answer whose digits are those of the
/// expansion that its challenge starts, and to nothing else.
pub proof fn law_only_the_expansion_opens(n: nat, bits: usize, args: Seq<char>)
    requires
        is_key_number(n),
    ensures
        reply_of(Some((n, bits)), args) == "AUTH:OK"@ <==> (request_in(
            args,
        ) matches RequestView::Answer(nonce, provided) && provided == expansion(
            n,
            challenge_of(n, nonce),
            bits as nat,
        )),
{
    let reply = reply_of(Some((n, bits)), args);
    reveal_strlit("AUTH:OK");
    reveal_strlit("AUTH:CHAL:");
    reveal_strlit("AUTH:ERR:bad key");
    reveal_strlit("AUTH:ERR:bad nonce");
    reveal_strlit("AUTH:ERR:malformed");
    reveal_strlit("Well, hello to you too! You said: ");
    match request_in(args) {
        RequestView::Challenge(_) => {
            assert(reply[5] == 'C');
        },
        RequestView::Answer(nonce, provided) => {
            if provided != expansion(n, challenge_of(n, nonce), bits as nat) {
                assert(reply[5] == 'E');
            }
        },
        RequestView::BadNonce => {
            assert(reply[5] == 'E');
        },
        RequestView::Malformed => {
            assert(reply[5] == 'E');
        },
        RequestView::Message => {
            assert(reply[0] == 'W');
        },
    }
}

/// The nonce in a text is what stands there in hexadecimal, in either case and
/// between white space, if it has 16 bytes or more.
pub proof fn law_nonce_is_read(a: Seq<char>, hex: Seq<char>, b: Seq<char>, nonce: Seq<u8>)
    requires
        is_blank(a),
        is_bare(hex),
        is_blank(b),
    ensures
        nonce_in(a + hex + b) == Some(nonce) <==> hex_bytes(hex) == Some(nonce) && nonce.len()
            >= 16,
        nonce_in(a + hex_text(nonce) + b) == Some(nonce) <==> nonce.len() >= 16,
        nonce_in(a + hex_text(nonce) + b) is None <==> nonce.len() < 16,
{
    law_trimming_keeps_the_middle(a, hex, b);
    law_hex_reads_back(nonce);
    lemma_hex_text_is_bare(nonce);
    law_trimming_keeps_the_middle(a, hex_text(nonce), b);
}

proof fn lemma_hex_text_is_bare(bytes: Seq<u8>)
    ensures
        is_bare(hex_text(bytes)),
{
    law_hex_reads_back(bytes);
    let s = hex_text(bytes);
    if s.len() > 0 {
        assert(is_hex_digit(s[0]));
        assert(is_hex_digit(s[s.len() - 1]));
    }
}

/// What a message asks is told by its first ten characters. `AUTH:CHAL:` asks for a
/// challenge, `AUTH:RESP:` brings an answer, and anything else is a plain message.
/// An answer is malformed where no colon follows.
pub proof fn law_request_is_told_by_its_beginning(args: Seq<char>)
    ensures
        ({
            let asks = args.len() >= 10 && args.take(10) == "AUTH:CHAL:"@;
            let answers = args.len() >= 10 && args.take(10) == "AUTH:RESP:"@;
            match request_in(args) {
                RequestView::Challenge(nonce) => asks && nonce_in(args.skip(10)) == Some(nonce),
                RequestView::Answer(nonce, provided) => answers && exists|head: Seq<char>,
                    tail: Seq<char>|
                    {
                        &&& args.skip(10) == #[trigger] (head + seq![':'] + tail)
                        &&& !head.contains(':')
                        &&& nonce_in(head) == Some(nonce)
                        &&& trimmed(tail) == provided
                    },
                RequestView::BadNonce => {
                    ||| asks && nonce_in(args.skip(10)) is None
                    ||| answers && exists|head: Seq<char>, tail: Seq<char>|
                        {
                            &&& args.skip(10) == #[trigger] (head + seq![':'] + tail)
                            &&& !head.contains(':')
                            &&& nonce_in(head) is None
                        }
                },
                RequestView::Malformed => answers && !args.skip(10).contains(':'),
                RequestView::Message => !asks && !answers,
            }
        }),
{
    lemma_begins(args, "AUTH:CHAL:"@);
    lemma_begins(args, "AUTH:RESP:"@);
    reveal_strlit("AUTH:CHAL:");
    reveal_strlit("AUTH:RESP:");
    let rest = args.skip(10);
    if rest.contains(':') {
        lemma_parts_at_separator(rest, ':');
        let (head, tail) = (before(rest, ':'), after(rest, ':')->0);
        assert(rest == head + seq![':'] + tail);
    }
}

/// To begin with some characters is to have them for the first ones.
proof fn lemma_begins(s: Seq<char>, prefix: Seq<char>)
    ensures
        after_prefix(s, prefix) is Some <==> s.len() >= prefix.len() && s.take(
            prefix.len() as int,
        ) == prefix,
{
    if s.len() >= prefix.len() {
        assert(s.take(prefix.len() as int) =~= s.subrange(0, prefix.len() as int));
    }
}

/// A request for a challenge is read, whatever white space stands around the nonce.
pub proof fn law_challenge_request_is_read(a: Seq<char>, hex: Seq<char>, b: Seq<char>)
    requires
        is_blank(a),
        is_bare(hex),
        is_blank(b),
    ensures
        request_in("AUTH:CHAL:"@ + (a + hex + b)) == match hex_bytes(hex) {
            Some(nonce) => if nonce.len() >= 16 {
                RequestView::Challenge(nonce)
            } else {
                RequestView::BadNonce
            },
            None => RequestView::BadNonce,
        },
{
    law_trimming_keeps_the_middle(a, hex, b);
    lemma_after_prefix("AUTH:CHAL:"@, a + hex + b);
}

/// An answer is read, whatever white space stands around the nonce and the digits.
pub proof fn law_answer_is_read(
    a: Seq<char>,
    hex: Seq<char>,
    b: Seq<char>,
    c: Seq<char>,
    digits: Seq<char>,
    d: Seq<char>,
)
    requires
        is_blank(a),
        is_bare(hex),
        is_blank(b),
        is_blank(c),
        is_bare(digits),
        is_blank(d),
        !hex.contains(':'),
    ensures
        request_in("AUTH:RESP:"@ + ((a + hex + b) + seq![':'] + (c + digits + d))) == match hex_bytes(
            hex,
        ) {
            Some(nonce) => if nonce.len() >= 16 {
                RequestView::Answer(nonce, digits)
            } else {
                RequestView::BadNonce
            },
            None => RequestView::BadNonce,
        },
{
    let (head, tail) = (a + hex + b, c + digits + d);
    let rest = head + seq![':'] + tail;
    let args = "AUTH:RESP:"@ + rest;
    law_trimming_keeps_the_middle(a, hex, b);
    law_trimming_keeps_the_middle(c, digits, d);
    assert(!head.contains(':')) by {
        if head.contains(':') {
            let i = choose|i: int| 0 <= i < head.len() && head[i] == ':';
            if i < a.len() {
                assert(is_white_space(a[i]));
            } else if i < a.len() + hex.len() {
                assert(hex[i - a.len()] == ':');
            } else {
                assert(is_white_space(b[i - a.len() - hex.len()]));
            }
        }
    }
    lemma_split_at_separator(head, ':', tail);
    lemma_after_prefix("AUTH:RESP:"@, rest);
    reveal_strlit("AUTH:RESP:");
    reveal_strlit("AUTH:CHAL:");
    assert(!"AUTH:CHAL:"@.is_prefix_of(args)) by {
        assert(args[5] == 'R');
        if "AUTH:CHAL:"@.is_prefix_of(args) {
            assert(args.subrange(0, 10)[5] == 'C');
        }
    }
}

/// A challenge gives the remainder in hexadecimal, all of it and without leading
/// zeros, and behind a colon the number of digits in decimal. So it tells both.
pub proof fn law_challenge_tells_remainder_and_count(remainder: nat, bits: nat)
    ensures
        ({
            let text = challenge_text(remainder, bits);
            let colon = 10 + 2 * be_bytes(remainder).len() as int;
            &&& text.len() == colon + 1 + decimal(bits).len()
            &&& text.take(10) == "AUTH:CHAL:"@
            &&& hex_bytes(text.subrange(10, colon)) matches Some(bytes)
            &&& be_value(bytes) == remainder
            &&& text.subrange(10, colon) == hex_text(bytes)
            &&& text[colon] == ':'
            &&& text.skip(colon + 1) == decimal(bits)
            &&& numeral_value(text.skip(colon + 1)) == bits
        }),
{
    let text = challenge_text(remainder, bits);
    let colon = 10 + 2 * be_bytes(remainder).len() as int;
    reveal_strlit("AUTH:CHAL:");
    reveal_strlit(":");
    assert(text.take(10) =~= "AUTH:CHAL:"@);
    assert(text.subrange(10, colon) =~= hex_text(be_bytes(remainder)));
    assert(text.skip(colon + 1) =~= decimal(bits));
    law_hex_reads_back(be_bytes(remainder));
    lemma_be_bytes_value(remainder);
    lemma_decimal_reads_back(bits);
}

/// A door without a key repeats whatever it is told. One with a key also repeats
/// plain messages, challenges those who ask for it, and says what is wrong with a
/// nonce or an answer; its key is the one that it was given.
pub proof fn law_door_replies_by_request(key: Key, args: Seq<char>)
    ensures
        key_parts(None) is None,
        reply_of(key_parts(None), args).take(34) == "Well, hello to you too! You said: "@,
        reply_of(key_parts(None), args).skip(34) == args,
        ({
            let reply = reply_of(key_parts(Some(&key)), args);
            match request_in(args) {
                RequestView::Challenge(nonce) => reply == challenge_text(
                    challenge_of(key.n@, nonce),
                    key.bits as nat,
                ),
                RequestView::Answer(nonce, provided) => if provided == expansion(
                    key.n@,
                    challenge_of(key.n@, nonce),
                    key.bits as nat,
                ) {
                    reply == "AUTH:OK"@
                } else {
                    reply == "AUTH:ERR:bad key"@
                },
                RequestView::BadNonce => reply == "AUTH:ERR:bad nonce"@,
                RequestView::Malformed => reply == "AUTH:ERR:malformed"@,
                RequestView::Message => {
                    &&& reply.skip(34) == args
                    &&& reply == reply_of(None, args)
                },
            }
        }),
{
    law_greeting_repeats_the_message(args, args);
}

} // verus!
