//! The door procedure that greets its caller.
use vstd::prelude::*;

verus! {

/// The greeting that answers `args`.
pub open spec fn greeting_of(args: Seq<char>) -> Seq<char> {
    "Well, hello to you too! You said: "@ + args
}

/// The greeting that answers `args`.
pub fn greeting(args: &str) -> (r: String)
    ensures
        r@ == greeting_of(args@),
{
    let mut s = String::new();
    s.append("Well, hello to you too! You said: ");
    s.append(args);
    assert(s@ =~= greeting_of(args@));
    s
}

/// The procedure of a door without a lock. It can be handed a cookie, the state
/// that the door was made with, and does not look at it.
pub fn door_procedure(cookie: Option<&str>, args: &str) -> (r: String)
    ensures
        r@ == greeting_of(args@),
{
    let _ = cookie;
    greeting(args)
}

/// A greeting repeats the whole message, behind the same words for every message.
/// So different messages get different greetings.
pub proof fn law_greeting_repeats_the_message(a: Seq<char>, b: Seq<char>)
    ensures
        greeting_of(a).len() == 34 + a.len(),
        greeting_of(a).skip(34) == a,
        greeting_of(a).take(34) == "Well, hello to you too! You said: "@,
        greeting_of(a) == greeting_of(b) ==> a == b,
{
    reveal_strlit("Well, hello to you too! You said: ");
    assert(greeting_of(a).skip(34) =~= a);
    assert(greeting_of(b).skip(34) =~= b);
    assert(greeting_of(a).take(34) =~= "Well, hello to you too! You said: "@);
}

} // verus!
