//! Text as sequences of characters: trimming, splitting, prefixes and decimal
//! numerals.
use vstd::prelude::*;

verus! {

/// Whether `c` has the Unicode property `White_Space`.
pub open spec fn is_white_space(c: char) -> bool {
    let u = c as u32;
    ||| 0x9 <= u <= 0xd
    ||| u == 0x20
    ||| u == 0x85
    ||| u == 0xa0
    ||| u == 0x1680
    ||| 0x2000 <= u <= 0x200a
    ||| u == 0x2028
    ||| u == 0x2029
    ||| u == 0x202f
    ||| u == 0x205f
    ||| u == 0x3000
}

/// `s` without the white space that it begins with.
pub open spec fn trimmed_start(s: Seq<char>) -> Seq<char>
    decreases s.len(),
{
    if s.len() > 0 && is_white_space(s[0]) {
        trimmed_start(s.skip(1))
    } else {
        s
    }
}

/// `s` without the white space that it ends with.
pub open spec fn trimmed_end(s: Seq<char>) -> Seq<char>
    decreases s.len(),
{
    if s.len() > 0 && is_white_space(s.last()) {
        trimmed_end(s.drop_last())
    } else {
        s
    }
}

/// `s` without the white space at either end.
pub open spec fn trimmed(s: Seq<char>) -> Seq<char> {
    trimmed_end(trimmed_start(s))
}

/// What follows `prefix` in `s`, if `s` begins with it.
pub open spec fn after_prefix(s: Seq<char>, prefix: Seq<char>) -> Option<Seq<char>> {
    if prefix.is_prefix_of(s) {
        Some(s.skip(prefix.len() as int))
    } else {
        None
    }
}

/// The text of an optional string slice.
pub open spec fn text_of(s: Option<&str>) -> Option<Seq<char>> {
    match s {
        Some(t) => Some(t@),
        None => None,
    }
}

/// What stands before the first `sep` in `s`: all of `s` if it holds none.
pub open spec fn before(s: Seq<char>, sep: char) -> Seq<char>
    decreases s.len(),
{
    if s.len() == 0 || s[0] == sep {
        Seq::empty()
    } else {
        seq![s[0]] + before(s.skip(1), sep)
    }
}

/// What stands after the first `sep` in `s`, if it holds one.
pub open spec fn after(s: Seq<char>, sep: char) -> Option<Seq<char>> {
    if s.contains(sep) {
        Some(s.skip(before(s, sep).len() as int + 1))
    } else {
        None
    }
}

/// `str::trim` removes the characters with the property `White_Space` from both
/// ends.
pub assume_specification[ str::trim ](s: &str) -> (r: &str)
    ensures
        r@ == trimmed(s@),
;

/// `str::strip_prefix` with a string for its pattern gives what follows the
/// prefix, or `None` where the string does not begin with it.
#[verifier::external_body]
pub(crate) fn strip_prefix<'a>(s: &'a str, prefix: &str) -> (r: Option<&'a str>)
    ensures
        text_of(r) == after_prefix(s@, prefix@),
{
    s.strip_prefix(prefix)
}

/// `str::split_once` with a character for its pattern gives what stands before
/// and after the first occurrence of it, or `None` where there is none.
#[verifier::external_body]
pub(crate) fn split_once<'a>(s: &'a str, sep: char) -> (r: Option<(&'a str, &'a str)>)
    ensures
        match r {
            Some((head, tail)) => head@ == before(s@, sep) && after(s@, sep) == Some(tail@),
            None => after(s@, sep) is None,
        },
{
    s.split_once(sep)
}

/// `String::with_capacity` gives an empty string. It panics where the capacity
/// is more than `isize::MAX`.
pub assume_specification[ String::with_capacity ](capacity: usize) -> (r: String)
    requires
        capacity <= isize::MAX,
    ensures
        r@ == Seq::<char>::empty(),
;

/// `String::push` appends one character.
pub assume_specification[ String::push ](s: &mut String, ch: char)
    ensures
        final(s)@ == old(s)@.push(ch),
;

/// Whether `c` is one of the digits `0` to `9`.
pub open spec fn is_digit(c: char) -> bool {
    '0' <= c <= '9'
}

/// The digit that stands for `d`.
pub open spec fn digit(d: nat) -> char {
    (48 + d) as char
}

/// `n` in decimal, without leading zeros.
pub open spec fn decimal(n: nat) -> Seq<char>
    decreases n,
{
    if n < 10 {
        seq![digit(n)]
    } else {
        decimal(n / 10).push(digit(n % 10))
    }
}

/// The number that the digits of `s` write in decimal. Underscores between
/// them count for nothing.
pub open spec fn numeral_value(s: Seq<char>) -> nat
    decreases s.len(),
{
    if s.len() == 0 {
        0
    } else if s.last() == '_' {
        numeral_value(s.drop_last())
    } else {
        10 * numeral_value(s.drop_last()) + (s.last() as nat - 48) as nat
    }
}

/// `s` without one leading plus sign.
pub open spec fn unsigned_part(s: Seq<char>) -> Seq<char> {
    if s.len() > 0 && s[0] == '+' {
        s.skip(1)
    } else {
        s
    }
}

/// The number that `s` stands for as a `usize`: digits, after a plus sign or
/// none, of a number that fits.
pub open spec fn usize_numeral(s: Seq<char>) -> Option<usize> {
    let digits = unsigned_part(s);
    if digits.len() > 0 && (forall|i: int| 0 <= i < digits.len() ==> is_digit(#[trigger] digits[i]))
        && numeral_value(digits) <= usize::MAX {
        Some(numeral_value(digits) as usize)
    } else {
        None
    }
}

/// `std::num::ParseIntError`, which is passed on unread.
#[verifier::external_type_specification]
#[verifier::external_body]
pub struct ExParseIntError(core::num::ParseIntError);

/// `str::parse` for `usize` takes an optional plus sign and then digits alone,
/// at least one, and fails where the number does not fit.
#[verifier::external_body]
pub(crate) fn parse_usize(s: &str) -> (r: Result<usize, core::num::ParseIntError>)
    ensures
        match r {
            Ok(v) => usize_numeral(s@) == Some(v),
            Err(_) => usize_numeral(s@) is None,
        },
{
    s.parse::<usize>()
}

/// `format!` writes a `usize` in decimal, without leading zeros.
#[verifier::external_body]
pub(crate) fn usize_text(v: usize) -> (r: String)
    ensures
        r@ == decimal(v as nat),
{
    format!("{}", v)
}

/// What `decimal` writes is made of digits, and reads back as the number.
pub proof fn lemma_decimal_reads_back(n: nat)
    ensures
        decimal(n).len() > 0,
        forall|i: int| 0 <= i < decimal(n).len() ==> is_digit(#[trigger] decimal(n)[i]),
        numeral_value(decimal(n)) == n,
    decreases n,
{
    let s = decimal(n);
    reveal_with_fuel(numeral_value, 2);
    if n < 10 {
        assert(s.drop_last() =~= Seq::<char>::empty());
        assert(s.last() as nat == 48 + n);
    } else {
        lemma_decimal_reads_back(n / 10);
        let d = n % 10;
        assert(s.drop_last() =~= decimal(n / 10));
        assert(s.last() as nat == 48 + d);
    }
}

/// A `usize` written in decimal is read back as the same number.
pub proof fn lemma_usize_reads_back(v: usize)
    ensures
        usize_numeral(decimal(v as nat)) == Some(v),
{
    lemma_decimal_reads_back(v as nat);
    assert(is_digit(decimal(v as nat)[0]));
}

/// Text that neither begins nor ends with white space is not changed by
/// trimming.
pub proof fn lemma_trimmed_is_identity(s: Seq<char>)
    requires
        s.len() > 0 ==> !is_white_space(s[0]) && !is_white_space(s.last()),
    ensures
        trimmed(s) == s,
{
}

/// Where `a` holds no `sep`, the first `sep` of `a`, `sep`, `b` is the one
/// between them.
pub proof fn lemma_split_at_separator(a: Seq<char>, sep: char, b: Seq<char>)
    requires
        !a.contains(sep),
    ensures
        before(a + seq![sep] + b, sep) == a,
        after(a + seq![sep] + b, sep) == Some(b),
    decreases a.len(),
{
    let s = a + seq![sep] + b;
    assert(s[a.len() as int] == sep);
    assert(s.contains(sep));
    if a.len() > 0 {
        assert(a[0] != sep);
        assert(s.skip(1) =~= a.skip(1) + seq![sep] + b);
        assert(!a.skip(1).contains(sep)) by {
            if a.skip(1).contains(sep) {
                let i = choose|i: int| 0 <= i < a.skip(1).len() && a.skip(1)[i] == sep;
                assert(a[i + 1] == sep);
            }
        }
        lemma_split_at_separator(a.skip(1), sep, b);
        assert(seq![a[0]] + a.skip(1) =~= a);
    } else {
        assert(s[0] == sep);
    }
    assert(s.skip(a.len() as int + 1) =~= b);
}

/// Where `s` holds `sep`, what stands before the first one is shorter than `s`.
pub proof fn lemma_before_is_shorter(s: Seq<char>, sep: char)
    requires
        s.contains(sep),
    ensures
        before(s, sep).len() < s.len(),
    decreases s.len(),
{
    if s[0] != sep {
        let i = choose|i: int| 0 <= i < s.len() && s[i] == sep;
        assert(s.skip(1)[i - 1] == sep);
        lemma_before_is_shorter(s.skip(1), sep);
    }
}

/// Where `a` holds no `sep`, all of it stands before the first one.
pub proof fn lemma_no_separator(a: Seq<char>, sep: char)
    requires
        !a.contains(sep),
    ensures
        before(a, sep) == a,
        after(a, sep) is None,
    decreases a.len(),
{
    if a.len() > 0 {
        assert(a[0] != sep);
        assert(!a.skip(1).contains(sep)) by {
            if a.skip(1).contains(sep) {
                let i = choose|i: int| 0 <= i < a.skip(1).len() && a.skip(1)[i] == sep;
                assert(a[i + 1] == sep);
            }
        }
        lemma_no_separator(a.skip(1), sep);
        assert(seq![a[0]] + a.skip(1) =~= a);
    }
}

/// What follows `prefix` in `prefix + rest` is `rest`.
pub proof fn lemma_after_prefix(prefix: Seq<char>, rest: Seq<char>)
    ensures
        after_prefix(prefix + rest, prefix) == Some(rest),
{
    assert((prefix + rest).subrange(0, prefix.len() as int) =~= prefix);
    assert((prefix + rest).skip(prefix.len() as int) =~= rest);
}

/// Whether `s` is white space from end to end.
pub open spec fn is_blank(s: Seq<char>) -> bool {
    forall|i: int| 0 <= i < s.len() ==> is_white_space(#[trigger] s[i])
}

/// Whether `s` neither begins nor ends with white space.
pub open spec fn is_bare(s: Seq<char>) -> bool {
    s.len() > 0 ==> !is_white_space(s[0]) && !is_white_space(s.last())
}

/// Trimming takes away the white space at the ends and keeps all that stands
/// between.
pub proof fn law_trimming_keeps_the_middle(a: Seq<char>, s: Seq<char>, b: Seq<char>)
    requires
        is_blank(a),
        is_bare(s),
        is_blank(b),
    ensures
        trimmed(a + s + b) == s,
{
    assert(a + s + b =~= a + (s + b));
    lemma_blank_start(a, s + b);
    if s.len() > 0 {
        assert((s + b)[0] == s[0]);
    } else {
        assert(s + b =~= b + Seq::empty());
        lemma_blank_start(b, Seq::empty());
        assert(s =~= Seq::empty());
        assert(trimmed_start(Seq::<char>::empty()) =~= Seq::empty());
        assert(trimmed_end(Seq::<char>::empty()) =~= Seq::empty());
    }
    if s.len() > 0 {
        lemma_blank_end(s, b);
    }
}

proof fn lemma_blank_start(a: Seq<char>, s: Seq<char>)
    requires
        is_blank(a),
    ensures
        trimmed_start(a + s) == trimmed_start(s),
    decreases a.len(),
{
    if a.len() > 0 {
        assert((a + s)[0] == a[0]);
        assert((a + s).skip(1) =~= a.skip(1) + s);
        lemma_blank_start(a.skip(1), s);
    } else {
        assert(a + s =~= s);
    }
}

proof fn lemma_blank_end(s: Seq<char>, b: Seq<char>)
    requires
        is_blank(b),
    ensures
        trimmed_end(s + b) == trimmed_end(s),
    decreases b.len(),
{
    if b.len() > 0 {
        assert((s + b).last() == b.last());
        assert((s + b).drop_last() =~= s + b.drop_last());
        lemma_blank_end(s, b.drop_last());
    } else {
        assert(s + b =~= s);
    }
}

/// Any text is what trimming leaves of it, with white space at the ends.
pub proof fn lemma_trimmed_parts(s: Seq<char>) -> (r: (Seq<char>, Seq<char>))
    ensures
        is_blank(r.0),
        is_blank(r.1),
        is_bare(trimmed(s)),
        s == r.0 + trimmed(s) + r.1,
{
    let a = lemma_start_part(s);
    let b = lemma_end_part(trimmed_start(s));
    let t = trimmed(s);
    assert(s =~= a + t + b);
    if t.len() > 0 {
        assert(trimmed_start(s)[0] == t[0]);
    }
    (a, b)
}

proof fn lemma_start_part(s: Seq<char>) -> (a: Seq<char>)
    ensures
        is_blank(a),
        s == a + trimmed_start(s),
        trimmed_start(s).len() > 0 ==> !is_white_space(trimmed_start(s)[0]),
    decreases s.len(),
{
    if s.len() > 0 && is_white_space(s[0]) {
        let a = lemma_start_part(s.skip(1));
        let whole = seq![s[0]] + a;
        assert(s =~= seq![s[0]] + s.skip(1));
        assert(s =~= whole + trimmed_start(s));
        whole
    } else {
        assert(s =~= Seq::<char>::empty() + s);
        Seq::empty()
    }
}

proof fn lemma_end_part(s: Seq<char>) -> (b: Seq<char>)
    ensures
        is_blank(b),
        s == trimmed_end(s) + b,
        trimmed_end(s).len() > 0 ==> !is_white_space(trimmed_end(s).last()),
    decreases s.len(),
{
    if s.len() > 0 && is_white_space(s.last()) {
        let b = lemma_end_part(s.drop_last());
        let whole = b.push(s.last());
        assert(s =~= s.drop_last().push(s.last()));
        assert(s =~= trimmed_end(s) + whole);
        whole
    } else {
        assert(s =~= s + Seq::<char>::empty());
        Seq::empty()
    }
}

/// A text that holds `sep` is what stands before the first one, that one, and what
/// stands after it.
pub proof fn lemma_parts_at_separator(s: Seq<char>, sep: char)
    requires
        s.contains(sep),
    ensures
        after(s, sep) is Some,
        !before(s, sep).contains(sep),
        s == before(s, sep) + seq![sep] + after(s, sep)->0,
    decreases s.len(),
{
    if s[0] == sep {
        assert(s =~= before(s, sep) + seq![sep] + after(s, sep)->0);
    } else {
        let t = s.skip(1);
        let i = choose|i: int| 0 <= i < s.len() && s[i] == sep;
        assert(t[i - 1] == sep);
        lemma_parts_at_separator(t, sep);
        let head = before(t, sep);
        assert(!before(s, sep).contains(sep)) by {
            if before(s, sep).contains(sep) {
                let k = choose|k: int|
                    0 <= k < before(s, sep).len() && before(s, sep)[k] == sep;
                assert(head[k - 1] == sep);
            }
        }
        assert(s =~= seq![s[0]] + t);
        assert(after(s, sep)->0 =~= after(t, sep)->0);
        assert(s =~= before(s, sep) + seq![sep] + after(s, sep)->0);
    }
}

} // verus!
