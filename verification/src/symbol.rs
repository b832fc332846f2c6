//! The order of symbols: that of their UTF-8 bytes, which is the order in
//! which strings compare.

use crate::decimal::Relation;
use vstd::prelude::*;
use vstd::string::*;
use vstd::utf8::{encode_utf8, encode_utf8_decode_utf8};

verus! {

/// `a` and `b` agree on their first `k` bytes, and there `a` has ended and
/// `b` has not, or `a` holds the smaller byte.
pub open spec fn decided_at(a: Seq<u8>, b: Seq<u8>, k: int) -> bool {
    &&& 0 <= k <= a.len()
    &&& k < b.len()
    &&& a.take(k) == b.take(k)
    &&& k < a.len() ==> a[k] < b[k]
}

/// `a` comes before `b` in the order of a dictionary.
pub open spec fn bytes_before(a: Seq<u8>, b: Seq<u8>) -> bool {
    exists|k: int| decided_at(a, b, k)
}

/// The symbol `a` comes before the symbol `b`.
pub open spec fn symbol_before(a: Seq<char>, b: Seq<char>) -> bool {
    bytes_before(encode_utf8(a), encode_utf8(b))
}

/// How far two byte strings agree from place `i` on.
pub open spec fn agree_until(a: Seq<u8>, b: Seq<u8>, i: int) -> int
    decreases a.len() - i,
{
    if 0 <= i < a.len() && i < b.len() && a[i] == b[i] {
        agree_until(a, b, i + 1)
    } else {
        i
    }
}

proof fn lemma_agree_until(a: Seq<u8>, b: Seq<u8>, i: int)
    requires
        0 <= i <= a.len(),
        i <= b.len(),
        a.take(i) == b.take(i),
    ensures
        i <= agree_until(a, b, i) <= a.len(),
        agree_until(a, b, i) <= b.len(),
        a.take(agree_until(a, b, i)) == b.take(agree_until(a, b, i)),
        agree_until(a, b, i) < a.len() && agree_until(a, b, i) < b.len() ==> a[agree_until(
            a,
            b,
            i,
        )] != b[agree_until(a, b, i)],
    decreases a.len() - i,
{
    if i < a.len() && i < b.len() && a[i] == b[i] {
        assert(a.take(i + 1) =~= a.take(i).push(a[i]));
        assert(b.take(i + 1) =~= b.take(i).push(b[i]));
        lemma_agree_until(a, b, i + 1);
    }
}

/// No byte string comes before itself, and of two none comes both before
/// and after the other.
pub proof fn lemma_bytes_before_asymmetric(a: Seq<u8>, b: Seq<u8>)
    ensures
        !(bytes_before(a, b) && bytes_before(b, a)),
        !bytes_before(a, a),
{
    if bytes_before(a, b) && bytes_before(b, a) {
        let k = choose|k: int| decided_at(a, b, k);
        let m = choose|m: int| decided_at(b, a, m);
        if k < m {
            assert(b.take(m)[k] == a.take(m)[k]);
        } else if m < k {
            assert(a.take(k)[m] == b.take(k)[m]);
        }
    }
    if bytes_before(a, a) {
        let k = choose|k: int| decided_at(a, a, k);
    }
}

/// Of two different byte strings one comes before the other.
pub proof fn lemma_bytes_before_total(a: Seq<u8>, b: Seq<u8>)
    requires
        a != b,
    ensures
        bytes_before(a, b) || bytes_before(b, a),
{
    assert(a.take(0) =~= b.take(0));
    lemma_agree_until(a, b, 0);
    let k = agree_until(a, b, 0);
    if k == a.len() && k == b.len() {
        assert(a =~= a.take(k));
        assert(b =~= b.take(k));
    } else if k == a.len() {
        assert(decided_at(a, b, k));
    } else if k == b.len() {
        assert(decided_at(b, a, k));
    } else if a[k] < b[k] {
        assert(decided_at(a, b, k));
    } else {
        assert(decided_at(b, a, k));
    }
}

/// What comes before something that comes before a third comes before the
/// third.
pub proof fn lemma_bytes_before_transitive(a: Seq<u8>, b: Seq<u8>, c: Seq<u8>)
    requires
        bytes_before(a, b),
        bytes_before(b, c),
    ensures
        bytes_before(a, c),
{
    let k = choose|k: int| decided_at(a, b, k);
    let m = choose|m: int| decided_at(b, c, m);
    let n = if k <= m { k } else { m };
    assert(a.take(n) =~= a.take(k).take(n));
    assert(b.take(n) =~= b.take(k).take(n));
    assert(b.take(n) =~= b.take(m).take(n));
    assert(c.take(n) =~= c.take(m).take(n));
    if k < m {
        assert(b.take(m)[k] == c.take(m)[k]);
    } else if m < k {
        assert(a.take(k)[m] == b.take(k)[m]);
    }
    assert(decided_at(a, c, n));
}

/// Two symbols with the same bytes are the same symbol.
pub proof fn lemma_symbol_bytes_injective(a: Seq<char>, b: Seq<char>)
    requires
        encode_utf8(a) == encode_utf8(b),
    ensures
        a == b,
{
    encode_utf8_decode_utf8(a);
    encode_utf8_decode_utf8(b);
}

/// The order of symbols is a strict total order.
pub proof fn lemma_symbol_order(a: Seq<char>, b: Seq<char>)
    ensures
        a != b ==> symbol_before(a, b) || symbol_before(b, a),
        !(symbol_before(a, b) && symbol_before(b, a)),
        !symbol_before(a, a),
{
    lemma_bytes_before_asymmetric(encode_utf8(a), encode_utf8(b));
    lemma_bytes_before_asymmetric(encode_utf8(a), encode_utf8(a));
    if a != b {
        if encode_utf8(a) == encode_utf8(b) {
            lemma_symbol_bytes_injective(a, b);
        }
        lemma_bytes_before_total(encode_utf8(a), encode_utf8(b));
    }
}

/// The order of symbols is transitive.
pub proof fn lemma_symbol_order_transitive(a: Seq<char>, b: Seq<char>, c: Seq<char>)
    requires
        symbol_before(a, b),
        symbol_before(b, c),
    ensures
        symbol_before(a, c),
{
    lemma_bytes_before_transitive(encode_utf8(a), encode_utf8(b), encode_utf8(c));
}

/// How the symbol `a` stands to the symbol `b`.
pub fn symbol_relation(a: &str, b: &str) -> (r: Relation)
    ensures
        r == Relation::Below <==> symbol_before(a@, b@),
        r == Relation::Above <==> symbol_before(b@, a@),
        r == Relation::Equal <==> a@ == b@,
{
    let x = a.as_bytes();
    let y = b.as_bytes();
    proof {
        lemma_symbol_order(a@, b@);
    }
    let mut i: usize = 0;
    while i < x.len() && i < y.len()
        invariant
            i <= x.len(),
            i <= y.len(),
            x@ == encode_utf8(a@),
            y@ == encode_utf8(b@),
            x@.take(i as int) == y@.take(i as int),
        decreases x.len() - i,
    {
        if x[i] < y[i] {
            proof {
                lemma_symbol_order(a@, b@);
                assert(decided_at(x@, y@, i as int));
            }
            return Relation::Below;
        }
        if y[i] < x[i] {
            proof {
                lemma_symbol_order(a@, b@);
                assert(decided_at(y@, x@, i as int));
            }
            return Relation::Above;
        }
        assert(x@.take(i + 1) =~= x@.take(i as int).push(x@[i as int]));
        assert(y@.take(i + 1) =~= y@.take(i as int).push(y@[i as int]));
        i += 1;
    }
    if x.len() < y.len() {
        assert(decided_at(x@, y@, i as int));
        Relation::Below
    } else if y.len() < x.len() {
        assert(decided_at(y@, x@, i as int));
        Relation::Above
    } else {
        proof {
            assert(x@ =~= x@.take(i as int));
            assert(y@ =~= y@.take(i as int));
            lemma_symbol_bytes_injective(a@, b@);
        }
        Relation::Equal
    }
}

/// Whether two symbols are the same.
pub fn same_symbol(a: &str, b: &str) -> (r: bool)
    ensures
        r == (a@ == b@),
{
    match symbol_relation(a, b) {
        Relation::Equal => true,
        _ => false,
    }
}

} // verus!
