//! Lexicographic order of byte strings.
use vstd::prelude::*;

verus! {

/// `a` comes strictly before `b` in lexicographic order.
pub open spec fn lex_lt(a: Seq<u8>, b: Seq<u8>) -> bool
    decreases a.len(),
{
    if b.len() == 0 {
        false
    } else if a.len() == 0 {
        true
    } else if a[0] != b[0] {
        a[0] < b[0]
    } else {
        lex_lt(a.skip(1), b.skip(1))
    }
}

/// `a` comes before `b` in lexicographic order, or equals it.
pub open spec fn lex_le(a: Seq<u8>, b: Seq<u8>) -> bool {
    a == b || lex_lt(a, b)
}

/// No byte string comes before itself.
pub proof fn lex_lt_irreflexive(a: Seq<u8>)
    ensures
        !lex_lt(a, a),
    decreases a.len(),
{
    if a.len() > 0 {
        lex_lt_irreflexive(a.skip(1));
    }
}

/// The order is transitive.
pub proof fn lex_lt_transitive(a: Seq<u8>, b: Seq<u8>, c: Seq<u8>)
    requires
        lex_lt(a, b),
        lex_lt(b, c),
    ensures
        lex_lt(a, c),
    decreases a.len(),
{
    if a.len() > 0 && a[0] == b[0] && b[0] == c[0] {
        lex_lt_transitive(a.skip(1), b.skip(1), c.skip(1));
    }
}

/// Of two different byte strings exactly one comes first.
pub proof fn lex_lt_total(a: Seq<u8>, b: Seq<u8>)
    ensures
        a == b || lex_lt(a, b) || lex_lt(b, a),
        !(lex_lt(a, b) && lex_lt(b, a)),
        a == b ==> !lex_lt(a, b),
    decreases a.len(),
{
    if lex_lt(a, b) && lex_lt(b, a) {
        lex_lt_transitive(a, b, a);
    }
    lex_lt_irreflexive(a);
    if a.len() > 0 && b.len() > 0 && a[0] == b[0] {
        lex_lt_total(a.skip(1), b.skip(1));
        if a.skip(1) == b.skip(1) {
            assert(a =~= seq![a[0]] + a.skip(1));
            assert(b =~= seq![b[0]] + b.skip(1));
        }
    } else if a.len() == 0 && b.len() == 0 {
        assert(a =~= b);
    }
}

/// Whether two byte strings are equal.
pub fn bytes_eq(a: &[u8], b: &[u8]) -> (r: bool)
    ensures
        r == (a@ == b@),
{
    if a.len() != b.len() {
        return false;
    }
    let mut i: usize = 0;
    while i < a.len()
        invariant
            i <= a@.len(),
            a@.len() == b@.len(),
            forall|j: int| 0 <= j < i ==> a@[j] == b@[j],
        decreases a@.len() - i,
    {
        if a[i] != b[i] {
            return false;
        }
        i = i + 1;
    }
    assert(a@ =~= b@);
    true
}

/// Whether `a` comes strictly before `b` in lexicographic order.
pub fn bytes_lt(a: &[u8], b: &[u8]) -> (r: bool)
    ensures
        r == lex_lt(a@, b@),
{
    let mut i: usize = 0;
    assert(a@.skip(0) =~= a@);
    assert(b@.skip(0) =~= b@);
    loop
        invariant
            i <= a@.len(),
            i <= b@.len(),
            lex_lt(a@, b@) == lex_lt(a@.skip(i as int), b@.skip(i as int)),
        decreases a@.len() - i,
    {
        if i >= b.len() {
            return false;
        }
        if i >= a.len() {
            return true;
        }
        if a[i] != b[i] {
            return a[i] < b[i];
        }
        assert(a@.skip(i as int).skip(1) =~= a@.skip(i + 1));
        assert(b@.skip(i as int).skip(1) =~= b@.skip(i + 1));
        i = i + 1;
    }
}

/// Two byte strings are the same up to an index, and there the first of them ends, or has the
/// smaller byte.
pub open spec fn smaller_at(a: Seq<u8>, b: Seq<u8>, n: int) -> bool {
    &&& 0 <= n <= a.len()
    &&& n < b.len()
    &&& forall|i: int| 0 <= i < n ==> #[trigger] a[i] == b[i]
    &&& n == a.len() || a[n] < b[n]
}

/// A byte string comes before another exactly if it is the beginning of it, or if it has the
/// smaller byte where the two first differ.
pub proof fn lex_lt_is_lexicographic(a: Seq<u8>, b: Seq<u8>)
    ensures
        lex_lt(a, b) <==> exists|n: int| smaller_at(a, b, n),
    decreases a.len(),
{
    if b.len() > 0 && a.len() > 0 {
        let (c, d) = (a.skip(1), b.skip(1));
        lex_lt_is_lexicographic(c, d);
        if lex_lt(a, b) {
            if a[0] != b[0] {
                assert(smaller_at(a, b, 0));
            } else {
                let n = choose|n: int| smaller_at(c, d, n);
                assert forall|i: int| 0 <= i < n + 1 implies #[trigger] a[i] == b[i] by {
                    if i > 0 {
                        assert(c[i - 1] == d[i - 1]);
                    }
                }
                assert(smaller_at(a, b, n + 1));
            }
        }
        if exists|n: int| smaller_at(a, b, n) {
            let n = choose|n: int| smaller_at(a, b, n);
            if n > 0 {
                assert(a[0] == b[0]);
                assert forall|i: int| 0 <= i < n - 1 implies #[trigger] c[i] == d[i] by {
                    assert(a[i + 1] == b[i + 1]);
                }
                assert(smaller_at(c, d, n - 1));
            }
        }
    } else if b.len() > 0 {
        assert(smaller_at(a, b, 0));
    }
}

} // verus!
