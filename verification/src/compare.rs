//! Comparison that does not stop at the first difference.
use vstd::prelude::*;
use vstd::utf8::encode_utf8_decode_utf8;

verus! {

/// Whether two texts are the same. All bytes of texts of one length are looked
/// at, whatever they hold.
pub fn ct_eq(a: &str, b: &str) -> (r: bool)
    ensures
        r == (a@ == b@),
{
    let x = a.as_bytes();
    let y = b.as_bytes();
    proof {
        encode_utf8_decode_utf8(a@);
        encode_utf8_decode_utf8(b@);
    }
    if x.len() != y.len() {
        return false;
    }
    let mut diff: u8 = 0;
    for i in 0..x.len()
        invariant
            x@.len() == y@.len(),
            diff == 0 <==> x@.take(i as int) =~= y@.take(i as int),
    {
        let (p, q) = (x[i], y[i]);
        assert((diff | (p ^ q)) == 0 <==> diff == 0 && p == q) by (bit_vector);
        diff |= p ^ q;
        proof {
            let (s, t) = (x@.take(i + 1), y@.take(i + 1));
            assert(x@.take(i as int) =~= s.drop_last());
            assert(y@.take(i as int) =~= t.drop_last());
            assert(s.last() == p && t.last() == q);
            if s.drop_last() =~= t.drop_last() && p == q {
                assert(s =~= s.drop_last().push(p));
                assert(t =~= t.drop_last().push(q));
            }
        }
    }
    assert(x@.take(x@.len() as int) =~= x@);
    assert(y@.take(y@.len() as int) =~= y@);
    diff == 0
}

} // verus!
