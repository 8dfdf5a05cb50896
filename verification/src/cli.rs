//! What the command line decides.
use vstd::prelude::*;

use crate::text::strip_prefix;

verus! {

/// Where the key comes from, given what was named on the command line and what the
/// environment names.
pub open spec fn source_of<T>(explicit: Option<T>, fallback: Option<T>) -> Option<T> {
    if explicit is Some {
        explicit
    } else {
        fallback
    }
}

/// Whether a message is sent once the caller is let in.
pub open spec fn is_spoken(msg: Seq<char>) -> bool {
    msg.len() > 0 && msg != "Hello, World!"@
}

/// The notice that a door is attached to `path`.
pub open spec fn notice_text(path: Seq<char>, locked: bool) -> Seq<char> {
    "door attached at "@ + path + if locked {
        " (authenticated)"@
    } else {
        " (unauthenticated)"@
    }
}

/// Where the key comes from: what was named on the command line, or else what
/// the environment names.
pub fn key_source<T>(explicit: Option<T>, fallback: Option<T>) -> (r: Option<T>)
    ensures
        r == if explicit is Some {
            explicit
        } else {
            fallback
        },
        r == source_of(explicit, fallback),
{
    match explicit {
        Some(path) => Some(path),
        None => fallback,
    }
}

/// Whether a message is sent once the caller is let in: not where it is empty,
/// nor where it is the one that stands for no message at all.
pub fn speaks_after_auth(msg: &str) -> (r: bool)
    ensures
        r == (msg@.len() > 0 && msg@ != "Hello, World!"@),
        r == is_spoken(msg@),
{
    if msg.is_empty() {
        return false;
    }
    match strip_prefix(msg, "Hello, World!") {
        Some(rest) => {
            assert(rest@.len() == 0 ==> msg@ =~= "Hello, World!"@);
            assert(msg@ == "Hello, World!"@ ==> rest@.len() == 0);
            !rest.is_empty()
        },
        None => {
            assert("Hello, World!"@.subrange(0, "Hello, World!"@.len() as int)
                =~= "Hello, World!"@);
            true
        },
    }
}

/// The notice that a door is attached to a path, with a lock or without.
pub fn attach_notice(path: &str, locked: bool) -> (r: String)
    ensures
        r@ == "door attached at "@ + path@ + if locked {
            " (authenticated)"@
        } else {
            " (unauthenticated)"@
        },
        r@ == notice_text(path@, locked),
{
    let mut s = String::new();
    s.append("door attached at ");
    s.append(path);
    if locked {
        s.append(" (authenticated)");
    } else {
        s.append(" (unauthenticated)");
    }
    s
}

/// What was named on the command line counts, whatever the environment names; where
/// nothing was, the environment counts.
pub proof fn law_command_line_comes_first<T>(explicit: T, fallback: Option<T>)
    ensures
        source_of(Some(explicit), fallback) == Some(explicit),
        source_of(None, fallback) == fallback,
{
}

/// All messages are sent but two: the empty one and the default one.
pub proof fn law_all_but_two_messages_are_spoken(msg: Seq<char>)
    ensures
        !is_spoken(Seq::empty()),
        !is_spoken("Hello, World!"@),
        !is_spoken(msg) ==> msg == Seq::<char>::empty() || msg == "Hello, World!"@,
{
    if msg.len() == 0 {
        assert(msg =~= Seq::empty());
    }
}

/// The notice names the whole path between the same words, and ends differently
/// for a door with a lock. So it tells both the path and the lock.
pub proof fn law_notice_names_the_path(path: Seq<char>, locked: bool)
    ensures
        notice_text(path, locked).take(17) == "door attached at "@,
        notice_text(path, locked).subrange(17, 17 + path.len() as int) == path,
        notice_text(path, true).skip(17 + path.len() as int) == " (authenticated)"@,
        notice_text(path, false).skip(17 + path.len() as int) == " (unauthenticated)"@,
{
    reveal_strlit("door attached at ");
    assert(notice_text(path, locked).take(17) =~= "door attached at "@);
    assert(notice_text(path, locked).subrange(17, 17 + path.len() as int) =~= path);
    assert(notice_text(path, true).skip(17 + path.len() as int) =~= " (authenticated)"@);
    assert(notice_text(path, false).skip(17 + path.len() as int) =~= " (unauthenticated)"@);
}

} // verus!
