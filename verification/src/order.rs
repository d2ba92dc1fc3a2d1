//! The order of keys: byte strings compared byte by byte.

use vstd::prelude::*;

verus! {

/// Whether `a` comes before `b`: at the first byte in which they differ it has the smaller one,
/// or it ends there.
pub open spec fn lex_less(a: Seq<u8>, b: Seq<u8>) -> bool
    decreases b.len(),
{
    if b.len() == 0 {
        false
    } else if a.len() == 0 {
        true
    } else if a[0] != b[0] {
        a[0] < b[0]
    } else {
        lex_less(a.drop_first(), b.drop_first())
    }
}

pub proof fn lemma_lex_irreflexive(a: Seq<u8>)
    ensures
        !lex_less(a, a),
    decreases a.len(),
{
    if a.len() > 0 {
        lemma_lex_irreflexive(a.drop_first());
    }
}

pub proof fn lemma_lex_transitive(a: Seq<u8>, b: Seq<u8>, c: Seq<u8>)
    requires
        lex_less(a, b),
        lex_less(b, c),
    ensures
        lex_less(a, c),
    decreases b.len(),
{
    if a.len() > 0 && a[0] == b[0] && b[0] == c[0] {
        lemma_lex_transitive(a.drop_first(), b.drop_first(), c.drop_first());
    }
}

pub proof fn lemma_lex_total(a: Seq<u8>, b: Seq<u8>)
    ensures
        lex_less(a, b) || lex_less(b, a) || a == b,
    decreases a.len(),
{
    if a.len() > 0 && b.len() > 0 {
        if a[0] == b[0] {
            lemma_lex_total(a.drop_first(), b.drop_first());
            if a.drop_first() == b.drop_first() {
                assert(a =~= seq![a[0]] + a.drop_first());
                assert(b =~= seq![b[0]] + b.drop_first());
            }
        }
    } else if a.len() == 0 && b.len() == 0 {
        assert(a =~= b);
    }
}

/// Two orders of the same pair exclude each other.
pub proof fn lemma_lex_asymmetric(a: Seq<u8>, b: Seq<u8>)
    requires
        lex_less(a, b),
    ensures
        !lex_less(b, a),
        a != b,
{
    if lex_less(b, a) {
        lemma_lex_transitive(a, b, a);
    }
    lemma_lex_irreflexive(a);
}

/// A common prefix does not matter to the order.
proof fn lemma_lex_skip(a: Seq<u8>, b: Seq<u8>, n: nat)
    requires
        n <= a.len(),
        n <= b.len(),
        a.take(n as int) == b.take(n as int),
    ensures
        lex_less(a, b) == lex_less(a.skip(n as int), b.skip(n as int)),
    decreases n,
{
    if n == 0 {
        assert(a.skip(0) =~= a);
        assert(b.skip(0) =~= b);
    } else {
        assert(a[0] == a.take(n as int)[0]);
        assert(b[0] == b.take(n as int)[0]);
        let m = (n - 1) as nat;
        assert(a.drop_first().take(m as int) =~= a.take(n as int).drop_first());
        assert(b.drop_first().take(m as int) =~= b.take(n as int).drop_first());
        lemma_lex_skip(a.drop_first(), b.drop_first(), m);
        assert(a.drop_first().skip(m as int) =~= a.skip(n as int));
        assert(b.drop_first().skip(m as int) =~= b.skip(n as int));
    }
}

/// How two keys stand to each other.
#[derive(Clone, Copy, Debug, PartialEq, Eq, Structural)]
pub enum Relation {
    Before,
    Same,
    After,
}

/// The relation of `a` to `b` in the order of `lex_less`.
pub open spec fn lex_relation(a: Seq<u8>, b: Seq<u8>) -> Relation {
    if lex_less(a, b) {
        Relation::Before
    } else if a == b {
        Relation::Same
    } else {
        Relation::After
    }
}

/// Compares two byte strings.
pub fn compare_bytes(a: &[u8], b: &[u8]) -> (r: Relation)
    ensures
        r == lex_relation(a@, b@),
{
    let mut i: usize = 0;
    while i < a.len() && i < b.len()
        invariant
            i <= a@.len(),
            i <= b@.len(),
            a@.take(i as int) == b@.take(i as int),
        decreases a@.len() - i,
    {
        if a[i] != b[i] {
            proof {
                lemma_lex_skip(a@, b@, i as nat);
                lemma_lex_skip(b@, a@, i as nat);
                assert(a@.skip(i as int)[0] == a@[i as int]);
                assert(b@.skip(i as int)[0] == b@[i as int]);
            }
            if a[i] < b[i] {
                return Relation::Before;
            } else {
                return Relation::After;
            }
        }
        assert(a@.take(i + 1) =~= a@.take(i as int).push(a@[i as int]));
        assert(b@.take(i + 1) =~= b@.take(i as int).push(b@[i as int]));
        i += 1;
    }
    proof {
        lemma_lex_skip(a@, b@, i as nat);
        lemma_lex_skip(b@, a@, i as nat);
        assert(a@.skip(i as int).len() == a@.len() - i);
        assert(b@.skip(i as int).len() == b@.len() - i);
        if a@.len() == b@.len() {
            assert(a@ =~= a@.take(i as int));
            assert(b@ =~= b@.take(i as int));
            lemma_lex_irreflexive(a@);
        }
    }
    if a.len() < b.len() {
        Relation::Before
    } else if a.len() == b.len() {
        Relation::Same
    } else {
        Relation::After
    }
}

/// A type whose values are ordered by a byte string that tells them apart.
pub trait SortKey: View + Sized {
    /// The byte string by which a value is ordered.
    spec fn rank(v: Self::V) -> Seq<u8>;

    /// Different values have different byte strings.
    proof fn rank_injective(a: Self::V, b: Self::V)
        requires
            Self::rank(a) == Self::rank(b),
        ensures
            a == b,
    ;

    /// Compares two keys by their byte strings.
    fn compare(&self, other: &Self) -> (r: Relation)
        ensures
            r == lex_relation(Self::rank(self@), Self::rank(other@)),
    ;
}

impl SortKey for String {
    open spec fn rank(v: Seq<char>) -> Seq<u8> {
        vstd::utf8::encode_utf8(v)
    }

    proof fn rank_injective(a: Seq<char>, b: Seq<char>) {
        vstd::utf8::encode_utf8_decode_utf8(a);
        vstd::utf8::encode_utf8_decode_utf8(b);
    }

    fn compare(&self, other: &Self) -> (r: Relation) {
        compare_bytes(self.as_str().as_bytes(), other.as_str().as_bytes())
    }
}

/// A byte string comes before another exactly where the two agree up to some place at which the
/// first ends or has the smaller byte.
pub proof fn law_order_is_that_of_the_first_difference(a: Seq<u8>, b: Seq<u8>)
    ensures
        lex_less(a, b) <==> exists|n: int|
            0 <= n <= a.len() && n < b.len() && #[trigger] a.take(n) == b.take(n) && (n == a.len()
                || a[n] < b[n]),
    decreases b.len(),
{
    if b.len() == 0 {
    } else if a.len() == 0 || a[0] != b[0] {
        assert(a.take(0) =~= b.take(0));
        assert forall|n: int| 0 < n <= a.len() && n < b.len() implies #[trigger] a.take(n)
            != b.take(n) by {
            assert(a.take(n)[0] == a[0] && b.take(n)[0] == b[0]);
        }
    } else {
        let x = a.drop_first();
        let y = b.drop_first();
        law_order_is_that_of_the_first_difference(x, y);
        if lex_less(x, y) {
            let n = choose|n: int|
                0 <= n <= x.len() && n < y.len() && #[trigger] x.take(n) == y.take(n) && (n
                    == x.len() || x[n] < y[n]);
            assert(a.take(n + 1) =~= seq![a[0]] + x.take(n));
            assert(b.take(n + 1) =~= seq![b[0]] + y.take(n));
        }
        if exists|n: int|
            0 <= n <= a.len() && n < b.len() && #[trigger] a.take(n) == b.take(n) && (n == a.len()
                || a[n] < b[n]) {
            let n = choose|n: int|
                0 <= n <= a.len() && n < b.len() && #[trigger] a.take(n) == b.take(n) && (n
                    == a.len() || a[n] < b[n]);
            assert(x.take(n - 1) =~= a.take(n).drop_first());
            assert(y.take(n - 1) =~= b.take(n).drop_first());
        }
    }
}

/// Texts are in the order of the first byte in which they differ in UTF-8; one that ends there comes
/// first.
pub proof fn law_texts_are_ordered_by_their_bytes(a: Seq<char>, b: Seq<char>)
    ensures
        String::rank(a) == vstd::utf8::encode_utf8(a),
        lex_relation(String::rank(a), String::rank(b)) == Relation::Same <==> a == b,
        lex_relation(String::rank(a), String::rank(b)) == Relation::Before <==> lex_less(
            vstd::utf8::encode_utf8(a),
            vstd::utf8::encode_utf8(b),
        ),
        lex_relation(String::rank(a), String::rank(b)) == Relation::After <==> lex_less(
            vstd::utf8::encode_utf8(b),
            vstd::utf8::encode_utf8(a),
        ),
{
    let x = String::rank(a);
    let y = String::rank(b);
    lemma_lex_total(x, y);
    lemma_lex_irreflexive(x);
    if lex_less(x, y) {
        lemma_lex_asymmetric(x, y);
    }
    if x == y {
        String::rank_injective(a, b);
    }
}

} // verus!
