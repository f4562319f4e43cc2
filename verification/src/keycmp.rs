//! Byte-wise key comparison: keys order at their first differing byte, and a
//! strict prefix sorts before its extensions.  Equality is exact byte
//! equality.

use vstd::prelude::*;

verus! {

/// Strict byte-wise lexicographic order.
pub open spec fn key_lt(a: Seq<u8>, b: Seq<u8>) -> bool
    decreases a.len(),
{
    if b.len() == 0 {
        false
    } else if a.len() == 0 {
        true
    } else if a[0] < b[0] {
        true
    } else if a[0] > b[0] {
        false
    } else {
        key_lt(a.drop_first(), b.drop_first())
    }
}

/// The order is strict: a key never sorts below itself or below a key it is
/// already above.
pub proof fn lemma_key_lt_asym(a: Seq<u8>, b: Seq<u8>)
    requires
        key_lt(a, b),
    ensures
        a != b,
        !key_lt(b, a),
    decreases a.len(),
{
    if b.len() == 0 {
    } else if a.len() == 0 {
    } else if a[0] < b[0] {
    } else if a[0] > b[0] {
    } else {
        lemma_key_lt_asym(a.drop_first(), b.drop_first());
        assert(a != b) by {
            if a == b {
                assert(a.drop_first() =~= b.drop_first());
            }
        }
    }
}

/// The order is transitive.
pub proof fn lemma_key_lt_trans(a: Seq<u8>, b: Seq<u8>, c: Seq<u8>)
    requires
        key_lt(a, b),
        key_lt(b, c),
    ensures
        key_lt(a, c),
    decreases a.len() + b.len() + c.len(),
{
    if a.len() == 0 {
    } else if b.len() == 0 {
    } else if c.len() == 0 {
    } else {
        if a[0] == b[0] && b[0] == c[0] {
            lemma_key_lt_trans(a.drop_first(), b.drop_first(), c.drop_first());
        }
    }
}

/// No key sorts below itself.
pub proof fn lemma_key_lt_irrefl(a: Seq<u8>)
    ensures
        !key_lt(a, a),
{
    if key_lt(a, a) {
        lemma_key_lt_asym(a, a);
    }
}

/// The outcome of a byte-wise key comparison.
pub enum KeyOrder {
    Less,
    Equal,
    Greater,
}

/// Compares two keys byte for byte.
pub fn key_cmp(a: &Vec<u8>, b: &Vec<u8>) -> (r: KeyOrder)
    ensures
        match r {
            KeyOrder::Less => key_lt(a@, b@),
            KeyOrder::Equal => a@ == b@,
            KeyOrder::Greater => key_lt(b@, a@),
        },
{
    let mut i: usize = 0;
    proof {
        assert(a@.skip(0) =~= a@);
        assert(b@.skip(0) =~= b@);
    }
    while i < a.len() && i < b.len()
        invariant
            0 <= i <= a.len(),
            0 <= i <= b.len(),
            key_lt(a@, b@) == key_lt(a@.skip(i as int), b@.skip(i as int)),
            key_lt(b@, a@) == key_lt(b@.skip(i as int), a@.skip(i as int)),
            (a@ == b@) == (a@.skip(i as int) =~= b@.skip(i as int)),
        decreases a.len() - i,
    {
        let ghost ar = a@.skip(i as int);
        let ghost br = b@.skip(i as int);
        if a[i] < b[i] {
            proof {
                assert(key_lt(ar, br));
            }
            return KeyOrder::Less;
        } else if a[i] > b[i] {
            proof {
                assert(key_lt(br, ar));
            }
            return KeyOrder::Greater;
        }
        proof {
            assert(ar.drop_first() =~= a@.skip(i + 1));
            assert(br.drop_first() =~= b@.skip(i + 1));
            assert((ar =~= br) == (a@.skip(i + 1) =~= b@.skip(i + 1))) by {
                if a@.skip(i + 1) =~= b@.skip(i + 1) {
                    assert(ar[0] == br[0]);
                    assert(ar =~= seq![ar[0]] + ar.drop_first());
                    assert(br =~= seq![br[0]] + br.drop_first());
                }
            }
        }
        i += 1;
    }
    proof {
        assert(a@.skip(i as int).len() == a@.len() - i);
        assert(b@.skip(i as int).len() == b@.len() - i);
    }
    if a.len() == b.len() {
        proof {
            assert(a@.skip(i as int) =~= b@.skip(i as int));
        }
        KeyOrder::Equal
    } else if a.len() < b.len() {
        KeyOrder::Less
    } else {
        KeyOrder::Greater
    }
}

} // verus!
