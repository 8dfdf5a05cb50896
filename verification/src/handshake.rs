//! The caller's side of a handshake: it asks for a challenge, answers it, and
//! reads the verdict.
use hex::FromHexError;
use vstd::arithmetic::power2::pow2;
use vstd::prelude::*;

use crate::challenge::{
    challenge_of, challenge_preimage, law_residue_is_congruent, sha256_of,
};
use crate::door::{
    challenge_text, reply_of, request_in, verdict_of, RequestView, MIN_NONCE_LEN,
};
use crate::hexcode::{decode, encode, hex_bytes, hex_text, is_hex_digit, law_hex_reads_back};
use crate::key::{is_key_number, Key};
use crate::natural::{be_bytes, be_value, lemma_be_bytes_value, Natural};
use crate::random::fill_random;
use crate::reciprocal::{
    binary_reciprocal_bits, binary_value, expansion, is_binary, law_expansion_is_the_quotient,
};
use crate::text::{
    after, after_prefix, before, decimal, is_bare, is_blank, is_digit, is_white_space,
    law_trimming_keeps_the_middle, lemma_after_prefix, lemma_decimal_reads_back,
    lemma_no_separator, lemma_split_at_separator, lemma_trimmed_is_identity,
    lemma_trimmed_parts, lemma_usize_reads_back, parse_usize, split_once, strip_prefix, trimmed,
    usize_numeral,
};

verus! {

/// How many bytes the nonce of a handshake has.
pub const NONCE_LEN: usize = 32;

/// A challenge that a door sent.
#[derive(Debug)]
pub struct Challenge {
    /// The remainder that the division starts from.
    pub remainder: Natural,
    /// How many digits the door asks for.
    pub bits: usize,
}

/// Why a handshake failed.
#[derive(Debug)]
pub enum HandshakeError {
    /// The door answered this in place of a challenge.
    NotAChallenge(String),
    /// The remainder of the challenge is not hexadecimal.
    BadRemainder(FromHexError),
    /// The door answered this to the digits.
    Refused(String),
}

/// How far a handshake has come.
#[derive(Debug)]
pub enum Handshake {
    /// A challenge was asked for, with this nonce in hexadecimal.
    AwaitChallenge {
        /// The nonce in hexadecimal.
        nonce_hex: String,
    },
    /// The digits were sent.
    AwaitVerdict,
}

/// What comes next in a handshake.
#[derive(Debug)]
pub enum Step {
    /// Call the door with this message, and go on from this state.
    Call {
        /// The message.
        message: String,
        /// The state to go on from.
        next: Handshake,
    },
    /// The door has let the caller in.
    Authenticated,
    /// The handshake has failed.
    Failed(HandshakeError),
}

/// The model of a `Handshake`.
pub enum HandshakeView {
    /// A challenge was asked for, with this nonce in hexadecimal.
    AwaitChallenge(Seq<char>),
    /// The digits were sent.
    AwaitVerdict,
}

impl View for Handshake {
    type V = HandshakeView;

    open spec fn view(&self) -> HandshakeView {
        match self {
            Handshake::AwaitChallenge { nonce_hex } => HandshakeView::AwaitChallenge(nonce_hex@),
            Handshake::AwaitVerdict => HandshakeView::AwaitVerdict,
        }
    }
}

/// The model of a `Step`.
pub enum StepView {
    /// Call the door with this message, and go on from this state.
    Call(Seq<char>, HandshakeView),
    /// The door has let the caller in.
    Authenticated,
    /// The door answered this in place of a challenge.
    NotAChallenge(Seq<char>),
    /// The remainder of the challenge is not hexadecimal.
    BadRemainder,
    /// The door answered this to the digits.
    Refused(Seq<char>),
}

impl View for Step {
    type V = StepView;

    open spec fn view(&self) -> StepView {
        match self {
            Step::Call { message, next } => StepView::Call(message@, next@),
            Step::Authenticated => StepView::Authenticated,
            Step::Failed(HandshakeError::NotAChallenge(said)) => StepView::NotAChallenge(said@),
            Step::Failed(HandshakeError::BadRemainder(_)) => StepView::BadRemainder,
            Step::Failed(HandshakeError::Refused(said)) => StepView::Refused(said@),
        }
    }
}

/// The message that asks for a challenge.
pub open spec fn challenge_request_text(nonce: Seq<u8>) -> Seq<char> {
    "AUTH:CHAL:"@ + hex_text(nonce)
}

/// What follows `AUTH:CHAL:` in a reply, if the reply is a challenge.
pub open spec fn challenge_body(reply: Seq<char>) -> Option<Seq<char>> {
    after_prefix(trimmed(reply), "AUTH:CHAL:"@)
}

/// The bytes of the remainder in a challenge.
pub open spec fn remainder_in(body: Seq<char>) -> Option<Seq<u8>> {
    hex_bytes(before(body, ':'))
}

/// The number of digits that a challenge asks for: `default_bits` where it does
/// not say, or says no number.
pub open spec fn bits_in(body: Seq<char>, default_bits: usize) -> usize {
    match after(body, ':') {
        Some(rest) => match usize_numeral(before(rest, ':')) {
            Some(bits) => bits,
            None => default_bits,
        },
        None => default_bits,
    }
}

/// The remainder and the number of digits in a reply, if it is a good challenge.
pub open spec fn challenge_in(reply: Seq<char>, default_bits: usize) -> Option<(nat, usize)> {
    match challenge_body(reply) {
        Some(body) => match remainder_in(body) {
            Some(bytes) => Some((be_value(bytes), bits_in(body, default_bits))),
            None => None,
        },
        None => None,
    }
}

/// The message that answers a challenge.
pub open spec fn answer_text(n: nat, nonce_hex: Seq<char>, remainder: nat, bits: nat) -> Seq<char> {
    "AUTH:RESP:"@ + nonce_hex + ":"@ + expansion(n, remainder, bits)
}

/// Whether a reply says that the caller is let in.
pub open spec fn lets_in(reply: Seq<char>) -> bool {
    trimmed(reply) == "AUTH:OK"@
}

/// What a caller with the number `n`, and `bits` digits where the door asks for
/// no other count, does next.
pub open spec fn step_of(state: HandshakeView, n: nat, bits: usize, reply: Seq<char>) -> StepView {
    match state {
        HandshakeView::AwaitChallenge(nonce_hex) => match challenge_body(reply) {
            Some(body) => match remainder_in(body) {
                Some(bytes) => StepView::Call(
                    answer_text(n, nonce_hex, be_value(bytes), bits_in(body, bits) as nat),
                    HandshakeView::AwaitVerdict,
                ),
                None => StepView::BadRemainder,
            },
            None => StepView::NotAChallenge(reply),
        },
        HandshakeView::AwaitVerdict => if lets_in(reply) {
            StepView::Authenticated
        } else {
            StepView::Refused(reply)
        },
    }
}

/// An error in words, where it is told by what the door said.
pub open spec fn error_text(e: HandshakeError) -> Option<Seq<char>> {
    match e {
        HandshakeError::NotAChallenge(said) => Some("server did not send a challenge: "@ + said@),
        HandshakeError::Refused(said) => Some("authentication failed: "@ + said@),
        HandshakeError::BadRemainder(_) => None,
    }
}

/// The number of digits that an answer to this reply would have, in a handshake
/// that has come so far.
pub open spec fn digits_due(state: Handshake, key: Key, reply: Seq<char>) -> Option<usize> {
    match state {
        Handshake::AwaitChallenge { .. } => match challenge_in(reply, key.bits) {
            Some((_, bits)) => Some(bits),
            None => None,
        },
        Handshake::AwaitVerdict => None,
    }
}

/// A nonce of `NONCE_LEN` random bytes.
pub fn fresh_nonce() -> (nonce: Vec<u8>)
    ensures
        nonce@.len() == NONCE_LEN,
        nonce@.len() == 32,
{
    let mut nonce: Vec<u8> = vec![0u8; NONCE_LEN];
    fill_random(&mut nonce);
    nonce
}

/// Begins a handshake: the message that asks for a challenge, and the state that
/// waits for it.
pub fn begin(nonce: &[u8]) -> (r: (String, Handshake))
    requires
        2 * nonce@.len() <= isize::MAX,
    ensures
        r.0@ == challenge_request_text(nonce@),
        r.1 matches Handshake::AwaitChallenge { nonce_hex } && nonce_hex@ == hex_text(nonce@),
        r.1@ == HandshakeView::AwaitChallenge(hex_text(nonce@)),
{
    let nonce_hex = encode(nonce);
    let mut message = String::new();
    message.append("AUTH:CHAL:");
    message.append(nonce_hex.as_str());
    assert(message@ =~= challenge_request_text(nonce@));
    (message, Handshake::AwaitChallenge { nonce_hex })
}

/// Reads a challenge.
pub fn read_challenge(reply: &str, default_bits: usize) -> (r: Result<Challenge, HandshakeError>)
    ensures
        match r {
            Ok(challenge) => challenge_in(reply@, default_bits) == Some(
                (challenge.remainder@, challenge.bits),
            ),
            Err(HandshakeError::NotAChallenge(said)) => {
                &&& challenge_body(reply@) is None
                &&& said@ == reply@
            },
            Err(HandshakeError::BadRemainder(_)) => {
                &&& challenge_body(reply@) matches Some(body)
                &&& remainder_in(body) is None
            },
            Err(HandshakeError::Refused(_)) => false,
        },
{
    let body = match strip_prefix(reply.trim(), "AUTH:CHAL:") {
        Some(body) => body,
        None => {
            return Err(HandshakeError::NotAChallenge(reply.to_owned()));
        },
    };
    let mut remainder_hex = body;
    let mut bits: usize = default_bits;
    match split_once(body, ':') {
        Some((head, rest)) => {
            remainder_hex = head;
            let bits_text = match split_once(rest, ':') {
                Some((text, _)) => text,
                None => {
                    proof {
                        lemma_no_separator(rest@, ':');
                    }
                    rest
                },
            };
            if let Ok(b) = parse_usize(bits_text) {
                bits = b;
            }
        },
        None => {
            proof {
                lemma_no_separator(body@, ':');
            }
        },
    }
    match decode(remainder_hex) {
        Ok(bytes) => Ok(
            Challenge { remainder: Natural::from_bytes_be(bytes.as_slice()), bits },
        ),
        Err(e) => Err(HandshakeError::BadRemainder(e)),
    }
}

/// The message that answers a challenge: the digits that the division goes on
/// with from its remainder.
pub fn answer_challenge(key: &Key, nonce_hex: &str, challenge: Challenge) -> (r: String)
    requires
        key.wf(),
        challenge.bits <= isize::MAX,
    ensures
        r@ == answer_text(key.n@, nonce_hex@, challenge.remainder@, challenge.bits as nat),
{
    let (digits, _) = binary_reciprocal_bits(&key.n, challenge.remainder, challenge.bits);
    let mut s = String::new();
    s.append("AUTH:RESP:");
    s.append(nonce_hex);
    s.append(":");
    s.append(digits.as_str());
    assert(s@ =~= answer_text(
        key.n@,
        nonce_hex@,
        challenge.remainder@,
        challenge.bits as nat,
    ));
    s
}

/// Reads the verdict.
pub fn read_verdict(reply: &str) -> (r: Result<(), HandshakeError>)
    ensures
        match r {
            Ok(_) => lets_in(reply@),
            Err(HandshakeError::Refused(said)) => !lets_in(reply@) && said@ == reply@,
            Err(_) => false,
        },
{
    if let Some(rest) = strip_prefix(reply.trim(), "AUTH:OK") {
        if rest.is_empty() {
            assert(trimmed(reply@) =~= "AUTH:OK"@);
            return Ok(());
        }
        assert(trimmed(reply@).len() > "AUTH:OK"@.len());
    } else {
        assert("AUTH:OK"@.is_prefix_of("AUTH:OK"@)) by {
            assert("AUTH:OK"@.subrange(0, "AUTH:OK"@.len() as int) =~= "AUTH:OK"@);
        }
    }
    Err(HandshakeError::Refused(reply.to_owned()))
}

impl HandshakeError {
    /// The error in words, where it is told by what the door said. What is wrong
    /// with a remainder is told by the error that is carried for it.
    pub fn message(&self) -> (r: Option<String>)
        ensures
            match (self, r) {
                (HandshakeError::NotAChallenge(said), Some(message)) => message@
                    == "server did not send a challenge: "@ + said@,
                (HandshakeError::Refused(said), Some(message)) => message@
                    == "authentication failed: "@ + said@,
                (HandshakeError::BadRemainder(_), None) => true,
                _ => false,
            },
            match r {
                Some(message) => error_text(*self) == Some(message@),
                None => error_text(*self) is None,
            },
    {
        let mut message = String::new();
        match self {
            HandshakeError::NotAChallenge(said) => {
                message.append("server did not send a challenge: ");
                message.append(said.as_str());
                assert(message@ =~= "server did not send a challenge: "@ + said@);
                Some(message)
            },
            HandshakeError::Refused(said) => {
                message.append("authentication failed: ");
                message.append(said.as_str());
                assert(message@ =~= "authentication failed: "@ + said@);
                Some(message)
            },
            HandshakeError::BadRemainder(_) => None,
        }
    }
}

impl Handshake {
    /// The number of digits that the next step would write down for this reply.
    pub fn due(&self, key: &Key, reply: &str) -> (r: Option<usize>)
        ensures
            r == digits_due(*self, *key, reply@),
    {
        match self {
            Handshake::AwaitChallenge { .. } => match read_challenge(reply, key.bits) {
                Ok(challenge) => Some(challenge.bits),
                Err(_) => None,
            },
            Handshake::AwaitVerdict => None,
        }
    }

    /// Goes on with a handshake, now that the door has replied.
    pub fn step(self, key: &Key, reply: &str) -> (r: Step)
        requires
            key.wf(),
            digits_due(self, *key, reply@) matches Some(bits) ==> bits <= isize::MAX,
        ensures
            match (self, r) {
                (Handshake::AwaitChallenge { nonce_hex }, Step::Call { message, next }) => {
                    &&& challenge_in(reply@, key.bits) matches Some((remainder, bits))
                    &&& message@ == answer_text(key.n@, nonce_hex@, remainder, bits as nat)
                    &&& next is AwaitVerdict
                },
                (
                    Handshake::AwaitChallenge { .. },
                    Step::Failed(HandshakeError::NotAChallenge(said)),
                ) => challenge_body(reply@) is None && said@ == reply@,
                (Handshake::AwaitChallenge { .. }, Step::Failed(HandshakeError::BadRemainder(_))) => {
                    &&& challenge_body(reply@) matches Some(body)
                    &&& remainder_in(body) is None
                },
                (Handshake::AwaitVerdict, Step::Authenticated) => lets_in(reply@),
                (Handshake::AwaitVerdict, Step::Failed(HandshakeError::Refused(said))) => {
                    &&& !lets_in(reply@)
                    &&& said@ == reply@
                },
                _ => false,
            },
            r@ == step_of(self@, key.n@, key.bits, reply@),
    {
        match self {
            Handshake::AwaitChallenge { nonce_hex } => match read_challenge(reply, key.bits) {
                Ok(challenge) => Step::Call {
                    message: answer_challenge(key, nonce_hex.as_str(), challenge),
                    next: Handshake::AwaitVerdict,
                },
                Err(e) => Step::Failed(e),
            },
            Handshake::AwaitVerdict => match read_verdict(reply) {
                Ok(_) => Step::Authenticated,
                Err(e) => Step::Failed(e),
            },
        }
    }
}

/// A caller who has the door's key is let in, whatever nonce of
/// `MIN_NONCE_LEN` bytes or more is used: the door's challenge is read as such,
/// and the door answers the digits that the caller goes on with by `AUTH:OK`.
/// How many digits are asked for is the door's to say, not the caller's.
pub proof fn law_same_key_is_let_in(n: nat, bits: usize, nonce: Seq<u8>, default_bits: usize)
    requires
        is_key_number(n),
        nonce.len() >= MIN_NONCE_LEN,
    ensures
        ({
            let challenge = reply_of(Some((n, bits)), challenge_request_text(nonce));
            let remainder = challenge_of(n, nonce);
            let answer = answer_text(n, hex_text(nonce), remainder, bits as nat);
            &&& challenge_in(challenge, default_bits) == Some((remainder, bits))
            &&& reply_of(Some((n, bits)), answer) == "AUTH:OK"@
            &&& lets_in(reply_of(Some((n, bits)), answer))
        }),
{
    let nonce_hex = hex_text(nonce);
    let remainder = challenge_of(n, nonce);
    law_hex_reads_back(nonce);
    lemma_hex_text_is_plain(nonce);
    lemma_trimmed_is_identity(nonce_hex);
    lemma_after_prefix("AUTH:CHAL:"@, nonce_hex);
    assert(request_in(challenge_request_text(nonce)) == RequestView::Challenge(nonce));
    lemma_challenge_is_read(remainder, bits, default_bits);
    lemma_answer_is_read(n, nonce, remainder, bits as nat);
    reveal_strlit("AUTH:OK");
    lemma_trimmed_is_identity("AUTH:OK"@);
}

/// Hexadecimal text has no white space and no colon in it.
proof fn lemma_hex_text_is_plain(bytes: Seq<u8>)
    ensures
        forall|i: int|
            0 <= i < hex_text(bytes).len() ==> !is_white_space(#[trigger] hex_text(bytes)[i]),
        !hex_text(bytes).contains(':'),
{
    law_hex_reads_back(bytes);
    assert(forall|i: int|
        0 <= i < hex_text(bytes).len() ==> is_hex_digit(#[trigger] hex_text(bytes)[i]));
}

proof fn lemma_challenge_is_read(remainder: nat, bits: usize, default_bits: usize)
    ensures
        challenge_in(challenge_text(remainder, bits as nat), default_bits) == Some(
            (remainder, bits),
        ),
{
    let hex = hex_text(be_bytes(remainder));
    let digits = decimal(bits as nat);
    let text = challenge_text(remainder, bits as nat);
    let body = hex + seq![':'] + digits;
    reveal_strlit("AUTH:CHAL:");
    reveal_strlit(":");
    assert(text =~= "AUTH:CHAL:"@ + body);
    lemma_decimal_reads_back(bits as nat);
    assert(is_digit(digits[digits.len() - 1]));
    lemma_trimmed_is_identity(text);
    lemma_after_prefix("AUTH:CHAL:"@, body);
    lemma_hex_text_is_plain(be_bytes(remainder));
    lemma_split_at_separator(hex, ':', digits);
    law_hex_reads_back(be_bytes(remainder));
    lemma_be_bytes_value(remainder);
    assert(!digits.contains(':'));
    lemma_no_separator(digits, ':');
    lemma_usize_reads_back(bits);
}

proof fn lemma_answer_is_read(n: nat, nonce: Seq<u8>, remainder: nat, bits: nat)
    requires
        nonce.len() >= MIN_NONCE_LEN,
    ensures
        request_in(answer_text(n, hex_text(nonce), remainder, bits)) == RequestView::Answer(
            nonce,
            expansion(n, remainder, bits),
        ),
{
    let nonce_hex = hex_text(nonce);
    let digits = expansion(n, remainder, bits);
    let text = answer_text(n, nonce_hex, remainder, bits);
    let rest = nonce_hex + seq![':'] + digits;
    reveal_strlit("AUTH:RESP:");
    reveal_strlit("AUTH:CHAL:");
    reveal_strlit(":");
    assert(text =~= "AUTH:RESP:"@ + rest);
    assert(!"AUTH:CHAL:"@.is_prefix_of(text)) by {
        assert(text[5] == 'R');
        if "AUTH:CHAL:"@.is_prefix_of(text) {
            assert(text.subrange(0, 10)[5] == 'C');
        }
    }
    lemma_after_prefix("AUTH:RESP:"@, rest);
    lemma_hex_text_is_plain(nonce);
    lemma_split_at_separator(nonce_hex, ':', digits);
    lemma_trimmed_is_identity(nonce_hex);
    law_hex_reads_back(nonce);
    lemma_trimmed_is_identity(digits);
}

/// A caller takes a reply for consent where it is `AUTH:OK` between white space, and
/// nowhere else.
pub proof fn law_consent_is_one_reply(a: Seq<char>, b: Seq<char>, reply: Seq<char>)
    requires
        is_blank(a),
        is_blank(b),
    ensures
        lets_in(a + "AUTH:OK"@ + b),
        lets_in(reply) ==> exists|c: Seq<char>, d: Seq<char>|
            is_blank(c) && is_blank(d) && reply == #[trigger] (c + "AUTH:OK"@ + d),
{
    reveal_strlit("AUTH:OK");
    law_trimming_keeps_the_middle(a, "AUTH:OK"@, b);
    let (c, d) = lemma_trimmed_parts(reply);
    if lets_in(reply) {
        assert(reply == c + "AUTH:OK"@ + d);
    }
}

/// Of all that a door with a key says, a caller takes for consent only the reply to
/// an answer whose digits are those of the expansion that the challenge starts. Any
/// other digits are answered by `AUTH:ERR:bad key`.
pub proof fn law_only_the_expansion_lets_in(n: nat, bits: usize, args: Seq<char>)
    ensures
        ({
            let reply = reply_of(Some((n, bits)), args);
            &&& lets_in(reply) || trimmed(reply) == "AUTH:OK"@ ==> (request_in(
                args,
            ) matches RequestView::Answer(nonce, provided) && provided == expansion(
                n,
                challenge_of(n, nonce),
                bits as nat,
            ))
            &&& request_in(args) matches RequestView::Answer(nonce, provided) ==> if provided
                == expansion(n, challenge_of(n, nonce), bits as nat) {
                reply == "AUTH:OK"@ && lets_in(reply)
            } else {
                reply == "AUTH:ERR:bad key"@ && !lets_in(reply)
            }
        }),
{
    let reply = reply_of(Some((n, bits)), args);
    reveal_strlit("AUTH:OK");
    reveal_strlit("AUTH:CHAL:");
    reveal_strlit("AUTH:ERR:bad key");
    reveal_strlit("AUTH:ERR:bad nonce");
    reveal_strlit("AUTH:ERR:malformed");
    reveal_strlit("Well, hello to you too! You said: ");
    lemma_trimmed_is_identity("AUTH:OK"@);
    let (a, b) = lemma_trimmed_parts(reply);
    assert(reply[0] == 'A' || reply[0] == 'W');
    if trimmed(reply) == "AUTH:OK"@ {
        if a.len() > 0 {
            assert(reply[0] == a[0]);
            assert(is_white_space(a[0]));
        }
        assert(reply[0] == 'A');
        assert(reply[5] == 'O');
    }
}

/// A door judges an answer by arithmetic alone: it lets in whoever sends as many
/// binary digits as its key says, which write the quotient of `remainder * 2^bits`
/// by its number, and refuses everyone else.
pub proof fn law_verdict_is_on_the_quotient(
    n: nat,
    bits: nat,
    remainder: nat,
    provided: Seq<char>,
)
    requires
        n > 1,
        remainder < n,
    ensures
        ({
            let right = {
                &&& provided.len() == bits
                &&& is_binary(provided)
                &&& n * binary_value(provided) <= remainder * pow2(bits)
                &&& remainder * pow2(bits) < n * binary_value(provided) + n
            };
            let verdict = verdict_of(n, bits, remainder, provided);
            &&& verdict == if right {
                "AUTH:OK"@
            } else {
                "AUTH:ERR:bad key"@
            }
            &&& lets_in(verdict) == right
        }),
{
    law_expansion_is_the_quotient(n, remainder, bits, provided);
    let verdict = verdict_of(n, bits, remainder, provided);
    reveal_strlit("AUTH:OK");
    reveal_strlit("AUTH:ERR:bad key");
    lemma_trimmed_is_identity("AUTH:OK"@);
    lemma_trimmed_is_identity("AUTH:ERR:bad key"@);
}

/// The same for a whole message: a door with the number `n` lets a caller in by an
/// answer whose digits write the quotient for the challenge to its nonce, and by
/// nothing else.
pub proof fn law_door_opens_by_the_quotient(n: nat, bits: usize, args: Seq<char>)
    requires
        is_key_number(n),
    ensures
        lets_in(reply_of(Some((n, bits)), args)) <==> {
            &&& request_in(args) matches RequestView::Answer(nonce, provided)
            &&& provided.len() == bits
            &&& is_binary(provided)
            &&& n * binary_value(provided) <= challenge_of(n, nonce) * pow2(bits as nat)
            &&& challenge_of(n, nonce) * pow2(bits as nat) < n * binary_value(provided) + n
        },
{
    law_only_the_expansion_lets_in(n, bits, args);
    if let RequestView::Answer(nonce, provided) = request_in(args) {
        law_residue_is_congruent(sha256_of(challenge_preimage(n, nonce)), n);
        law_verdict_is_on_the_quotient(n, bits as nat, challenge_of(n, nonce), provided);
    }
}

/// A request for a challenge gives the whole nonce in hexadecimal.
pub proof fn law_request_gives_the_nonce(nonce: Seq<u8>)
    ensures
        challenge_request_text(nonce).len() == 10 + 2 * nonce.len(),
        challenge_request_text(nonce).take(10) == "AUTH:CHAL:"@,
        challenge_request_text(nonce).skip(10) == hex_text(nonce),
        hex_bytes(challenge_request_text(nonce).skip(10)) == Some(nonce),
{
    reveal_strlit("AUTH:CHAL:");
    assert(challenge_request_text(nonce).take(10) =~= "AUTH:CHAL:"@);
    assert(challenge_request_text(nonce).skip(10) =~= hex_text(nonce));
    law_hex_reads_back(nonce);
}

/// A reply is a challenge where it begins with `AUTH:CHAL:`, apart from white space
/// at its ends, and what follows is its body.
pub proof fn law_challenge_is_told_by_its_beginning(reply: Seq<char>)
    ensures
        ({
            let text = trimmed(reply);
            match challenge_body(reply) {
                Some(body) => text == "AUTH:CHAL:"@ + body,
                None => text.len() < 10 || text.take(10) != "AUTH:CHAL:"@,
            }
        }),
{
    let text = trimmed(reply);
    reveal_strlit("AUTH:CHAL:");
    if text.len() >= 10 {
        assert(text.take(10) =~= text.subrange(0, 10));
        assert(text =~= text.subrange(0, 10) + text.skip(10));
    }
}

/// The remainder in a challenge is what stands in hexadecimal before the first
/// colon. The count is the number between that colon and the next, and the default
/// where there is none or where it is no number.
pub proof fn law_challenge_parts_are_read(
    head: Seq<char>,
    count: Seq<char>,
    more: Seq<char>,
    default_bits: usize,
)
    requires
        !head.contains(':'),
        !count.contains(':'),
    ensures
        remainder_in(head) == hex_bytes(head),
        remainder_in(head + seq![':'] + more) == hex_bytes(head),
        bits_in(head, default_bits) == default_bits,
        ({
            let bits = match usize_numeral(count) {
                Some(bits) => bits,
                None => default_bits,
            };
            &&& bits_in(head + seq![':'] + count, default_bits) == bits
            &&& bits_in(head + seq![':'] + (count + seq![':'] + more), default_bits) == bits
        }),
{
    lemma_no_separator(head, ':');
    lemma_no_separator(count, ':');
    lemma_split_at_separator(head, ':', more);
    lemma_split_at_separator(head, ':', count);
    lemma_split_at_separator(count, ':', more);
    lemma_split_at_separator(head, ':', count + seq![':'] + more);
}

/// A challenge with any remainder, in hexadecimal of either case, and any count is
/// read as that, whatever white space stands at its ends.
pub proof fn law_challenge_is_read(
    a: Seq<char>,
    hex: Seq<char>,
    bits: usize,
    b: Seq<char>,
    default_bits: usize,
)
    requires
        is_blank(a),
        is_blank(b),
        hex_bytes(hex) is Some,
    ensures
        challenge_in(
            a + ("AUTH:CHAL:"@ + (hex + seq![':'] + decimal(bits as nat))) + b,
            default_bits,
        ) == Some((be_value(hex_bytes(hex)->0), bits)),
{
    let digits = decimal(bits as nat);
    let body = hex + seq![':'] + digits;
    let text = "AUTH:CHAL:"@ + body;
    reveal_strlit("AUTH:CHAL:");
    lemma_decimal_reads_back(bits as nat);
    assert(is_digit(digits[digits.len() - 1]));
    assert(is_bare(text));
    law_trimming_keeps_the_middle(a, text, b);
    lemma_after_prefix("AUTH:CHAL:"@, body);
    assert(!hex.contains(':')) by {
        if hex.contains(':') {
            let i = choose|i: int| 0 <= i < hex.len() && hex[i] == ':';
            assert(is_hex_digit(hex[i]));
        }
    }
    assert(!digits.contains(':'));
    law_challenge_parts_are_read(hex, digits, digits, default_bits);
    lemma_usize_reads_back(bits);
}

/// An answer gives the nonce as it was sent, a colon, and then as many binary digits
/// as were asked for, which write the quotient of `remainder * 2^bits` by the
/// caller's number.
pub proof fn law_answer_gives_nonce_and_quotient(
    n: nat,
    nonce_hex: Seq<char>,
    remainder: nat,
    bits: nat,
)
    ensures
        ({
            let text = answer_text(n, nonce_hex, remainder, bits);
            let colon = 10 + nonce_hex.len() as int;
            let digits = text.skip(colon + 1);
            &&& text.take(10) == "AUTH:RESP:"@
            &&& text.subrange(10, colon) == nonce_hex
            &&& text[colon] == ':'
            &&& digits.len() == bits
            &&& is_binary(digits)
            &&& digits == expansion(n, remainder, bits)
            &&& n > 1 && remainder < n ==> {
                &&& n * binary_value(digits) <= remainder * pow2(bits)
                &&& remainder * pow2(bits) < n * binary_value(digits) + n
            }
        }),
{
    let text = answer_text(n, nonce_hex, remainder, bits);
    let colon = 10 + nonce_hex.len() as int;
    reveal_strlit("AUTH:RESP:");
    reveal_strlit(":");
    assert(text.take(10) =~= "AUTH:RESP:"@);
    assert(text.subrange(10, colon) =~= nonce_hex);
    assert(text.skip(colon + 1) =~= expansion(n, remainder, bits));
    if n > 1 && remainder < n {
        law_expansion_is_the_quotient(n, remainder, bits, text.skip(colon + 1));
    }
}

/// The words for a failed handshake end with all that the door said.
pub proof fn law_error_repeats_the_door(said: String, e: HandshakeError)
    ensures
        error_text(HandshakeError::NotAChallenge(said)) matches Some(words) && words.take(33)
            == "server did not send a challenge: "@ && words.skip(33) == said@,
        error_text(HandshakeError::Refused(said)) matches Some(words) && words.take(23)
            == "authentication failed: "@ && words.skip(23) == said@,
        error_text(e) is None <==> e is BadRemainder,
{
    reveal_strlit("server did not send a challenge: ");
    reveal_strlit("authentication failed: ");
    let first = "server did not send a challenge: "@ + said@;
    assert(first.take(33) =~= "server did not send a challenge: "@);
    assert(first.skip(33) =~= said@);
    let second = "authentication failed: "@ + said@;
    assert(second.take(23) =~= "authentication failed: "@);
    assert(second.skip(23) =~= said@);
}

/// A caller waits for a challenge until there is one that can be read, and then sends
/// an answer with as many digits as are due; it is let in only by a door that says
/// so, and tells all that a door says against it.
pub proof fn law_caller_goes_step_by_step(state: Handshake, key: Key, reply: Seq<char>)
    ensures
        match (state@, step_of(state@, key.n@, key.bits, reply)) {
            (HandshakeView::AwaitChallenge(nonce_hex), StepView::Call(message, next)) => {
                &&& challenge_in(reply, key.bits) matches Some((remainder, bits))
                &&& digits_due(state, key, reply) == Some(bits)
                &&& message.skip(11 + nonce_hex.len() as int).len() == bits
                &&& message == answer_text(key.n@, nonce_hex, remainder, bits as nat)
                &&& next is AwaitVerdict
            },
            (HandshakeView::AwaitChallenge(_), StepView::NotAChallenge(said)) => {
                &&& challenge_body(reply) is None
                &&& digits_due(state, key, reply) is None
                &&& said == reply
            },
            (HandshakeView::AwaitChallenge(_), StepView::BadRemainder) => {
                &&& challenge_body(reply) matches Some(body)
                &&& remainder_in(body) is None
                &&& digits_due(state, key, reply) is None
            },
            (HandshakeView::AwaitVerdict, StepView::Authenticated) => {
                &&& trimmed(reply) == "AUTH:OK"@
                &&& digits_due(state, key, reply) is None
            },
            (HandshakeView::AwaitVerdict, StepView::Refused(said)) => {
                &&& trimmed(reply) != "AUTH:OK"@
                &&& digits_due(state, key, reply) is None
                &&& said == reply
            },
            _ => false,
        },
{
    if let HandshakeView::AwaitChallenge(nonce_hex) = state@ {
        if let Some((remainder, bits)) = challenge_in(reply, key.bits) {
            law_answer_gives_nonce_and_quotient(key.n@, nonce_hex, remainder, bits as nat);
        }
    }
}

/// A handshake between a door with the number `n` and a caller with the number `m`,
/// with any nonce of 16 bytes or more, takes two calls. It ends with the caller let in
/// where both numbers give the same digits for the challenge, as they do where they
/// are the same; else the caller is told `AUTH:ERR:bad key`.
pub proof fn law_handshake_ends_by_the_digits(
    n: nat,
    bits: usize,
    m: nat,
    default_bits: usize,
    nonce: Seq<u8>,
)
    requires
        nonce.len() >= 16,
    ensures
        ({
            let door = Some((n, bits));
            let remainder = challenge_of(n, nonce);
            let asked = HandshakeView::AwaitChallenge(hex_text(nonce));
            let challenge = reply_of(door, challenge_request_text(nonce));
            &&& step_of(asked, m, default_bits, challenge) matches StepView::Call(answer, next)
            &&& step_of(next, m, default_bits, reply_of(door, answer)) == if expansion(
                m,
                remainder,
                bits as nat,
            ) == expansion(n, remainder, bits as nat) {
                StepView::Authenticated
            } else {
                StepView::Refused("AUTH:ERR:bad key"@)
            }
        }),
{
    let remainder = challenge_of(n, nonce);
    law_hex_reads_back(nonce);
    lemma_hex_text_is_plain(nonce);
    lemma_trimmed_is_identity(hex_text(nonce));
    lemma_after_prefix("AUTH:CHAL:"@, hex_text(nonce));
    assert(request_in(challenge_request_text(nonce)) == RequestView::Challenge(nonce));
    lemma_challenge_is_read(remainder, bits, default_bits);
    lemma_answer_is_read(m, nonce, remainder, bits as nat);
    let answer = answer_text(m, hex_text(nonce), remainder, bits as nat);
    law_only_the_expansion_lets_in(n, bits, answer);
}

/// A nonce of fewer than 16 bytes fails the handshake.
pub proof fn law_short_nonce_is_refused(
    n: nat,
    bits: usize,
    m: nat,
    default_bits: usize,
    nonce: Seq<u8>,
)
    requires
        nonce.len() < 16,
    ensures
        reply_of(Some((n, bits)), challenge_request_text(nonce)) == "AUTH:ERR:bad nonce"@,
        step_of(
            HandshakeView::AwaitChallenge(hex_text(nonce)),
            m,
            default_bits,
            "AUTH:ERR:bad nonce"@,
        ) == StepView::NotAChallenge("AUTH:ERR:bad nonce"@),
{
    law_hex_reads_back(nonce);
    lemma_hex_text_is_plain(nonce);
    lemma_trimmed_is_identity(hex_text(nonce));
    lemma_after_prefix("AUTH:CHAL:"@, hex_text(nonce));
    let said = "AUTH:ERR:bad nonce"@;
    reveal_strlit("AUTH:ERR:bad nonce");
    reveal_strlit("AUTH:CHAL:");
    lemma_trimmed_is_identity(said);
    if "AUTH:CHAL:"@.is_prefix_of(said) {
        assert(said.subrange(0, 10)[5] == 'C');
    }
}

/// Whatever remainder an answer is judged for, the expansion is let in and all other
/// digits are refused, with the same words for all of them.
pub proof fn law_other_digits_are_refused(
    n: nat,
    bits: nat,
    remainder: nat,
    provided: Seq<char>,
)
    ensures
        verdict_of(n, bits, remainder, expansion(n, remainder, bits)) == "AUTH:OK"@,
        lets_in(verdict_of(n, bits, remainder, expansion(n, remainder, bits))),
        provided != expansion(n, remainder, bits) ==> verdict_of(n, bits, remainder, provided)
            == "AUTH:ERR:bad key"@ && !lets_in(verdict_of(n, bits, remainder, provided)),
{
    reveal_strlit("AUTH:OK");
    reveal_strlit("AUTH:ERR:bad key");
    lemma_trimmed_is_identity("AUTH:OK"@);
    lemma_trimmed_is_identity("AUTH:ERR:bad key"@);
}

/// A challenge is read by its parts, whatever white space stands at its ends: it is a
/// good one where its remainder is hexadecimal.
pub proof fn law_challenge_is_read_by_its_parts(
    a: Seq<char>,
    body: Seq<char>,
    b: Seq<char>,
    default_bits: usize,
)
    requires
        is_blank(a),
        is_bare("AUTH:CHAL:"@ + body),
        is_blank(b),
    ensures
        challenge_body(a + ("AUTH:CHAL:"@ + body) + b) == Some(body),
        match challenge_in(a + ("AUTH:CHAL:"@ + body) + b, default_bits) {
            Some((remainder, bits)) => {
                &&& hex_bytes(before(body, ':')) matches Some(bytes)
                &&& be_value(bytes) == remainder
                &&& bits == bits_in(body, default_bits)
            },
            None => hex_bytes(before(body, ':')) is None,
        },
{
    law_trimming_keeps_the_middle(a, "AUTH:CHAL:"@ + body, b);
    lemma_after_prefix("AUTH:CHAL:"@, body);
}

} // verus!
