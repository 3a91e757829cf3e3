use vstd::prelude::*;

verus! {

/// Strict lexicographic order on byte strings, the order of an ordered
/// byte-keyed store: a proper prefix sorts first.
pub open spec fn lex_lt(a: Seq<u8>, b: Seq<u8>) -> bool
    decreases a.len(),
{
    if b.len() == 0 {
        false
    } else if a.len() == 0 {
        true
    } else if a[0] != b[0] {
        a[0] < b[0]
    } else {
        lex_lt(a.drop_first(), b.drop_first())
    }
}

/// `a` sorts before `b` or equals it.
pub open spec fn lex_le(a: Seq<u8>, b: Seq<u8>) -> bool {
    lex_lt(a, b) || a == b
}

/// The outcome of comparing two byte strings.
#[derive(Debug, Clone, Copy, PartialEq, Eq)]
pub enum KeyOrder {
    Less,
    Equal,
    Greater,
}

/// No string sorts before itself.
pub proof fn lemma_lex_irreflexive(a: Seq<u8>)
    ensures
        !lex_lt(a, a),
    decreases a.len(),
{
    if a.len() > 0 {
        lemma_lex_irreflexive(a.drop_first());
    }
}

/// Of two strings, at most one sorts before the other, and then they differ.
pub proof fn lemma_lex_asymmetric(a: Seq<u8>, b: Seq<u8>)
    ensures
        lex_lt(a, b) ==> !lex_lt(b, a),
        lex_lt(a, b) ==> a != b,
    decreases a.len(),
{
    lemma_lex_irreflexive(a);
    if a.len() > 0 && b.len() > 0 && a[0] == b[0] {
        lemma_lex_asymmetric(a.drop_first(), b.drop_first());
    }
}

/// Any two strings are equal or one sorts before the other.
pub proof fn lemma_lex_total(a: Seq<u8>, b: Seq<u8>)
    ensures
        lex_lt(a, b) || lex_lt(b, a) || a == b,
    decreases a.len(),
{
    if a.len() > 0 && b.len() > 0 && a[0] == b[0] {
        lemma_lex_total(a.drop_first(), b.drop_first());
        if a.drop_first() == b.drop_first() {
            assert(a =~= seq![a[0]] + a.drop_first());
            assert(b =~= seq![b[0]] + b.drop_first());
        }
    } else if a.len() == 0 && b.len() == 0 {
        assert(a =~= b);
    }
}

/// The order is transitive.
pub proof fn lemma_lex_transitive(a: Seq<u8>, b: Seq<u8>, c: Seq<u8>)
    requires
        lex_lt(a, b),
        lex_lt(b, c),
    ensures
        lex_lt(a, c),
    decreases a.len(),
{
    if a.len() > 0 && b.len() > 0 && c.len() > 0 && a[0] == b[0] && b[0] == c[0] {
        lemma_lex_transitive(a.drop_first(), b.drop_first(), c.drop_first());
    }
}

/// Everything about the order in one call.
pub proof fn lemma_lex_order()
    ensures
        forall|a: Seq<u8>| !lex_lt(a, a),
        forall|a: Seq<u8>, b: Seq<u8>| #[trigger] lex_lt(a, b) ==> !lex_lt(b, a) && a != b,
        forall|a: Seq<u8>, b: Seq<u8>| lex_lt(a, b) || lex_lt(b, a) || a == b,
        forall|a: Seq<u8>, b: Seq<u8>, c: Seq<u8>|
            #[trigger] lex_lt(a, b) && #[trigger] lex_lt(b, c) ==> lex_lt(a, c),
{
    assert forall|a: Seq<u8>| !lex_lt(a, a) by {
        lemma_lex_irreflexive(a);
    }
    assert forall|a: Seq<u8>, b: Seq<u8>| #[trigger] lex_lt(a, b) implies !lex_lt(b, a) && a != b by {
        lemma_lex_asymmetric(a, b);
    }
    assert forall|a: Seq<u8>, b: Seq<u8>| lex_lt(a, b) || lex_lt(b, a) || a == b by {
        lemma_lex_total(a, b);
    }
    assert forall|a: Seq<u8>, b: Seq<u8>, c: Seq<u8>|
        #[trigger] lex_lt(a, b) && #[trigger] lex_lt(b, c) implies lex_lt(a, c) by {
        lemma_lex_transitive(a, b, c);
    }
}

proof fn lemma_lex_skip(a: Seq<u8>, b: Seq<u8>, i: int)
    requires
        0 <= i <= a.len(),
        i <= b.len(),
        forall|j: int| 0 <= j < i ==> a[j] == b[j],
    ensures
        lex_lt(a, b) == lex_lt(a.skip(i), b.skip(i)),
        lex_lt(b, a) == lex_lt(b.skip(i), a.skip(i)),
    decreases i,
{
    if i > 0 {
        lemma_lex_skip(a.drop_first(), b.drop_first(), i - 1);
        assert(a.drop_first().skip(i - 1) =~= a.skip(i));
        assert(b.drop_first().skip(i - 1) =~= b.skip(i));
    } else {
        assert(a.skip(0) =~= a);
        assert(b.skip(0) =~= b);
    }
}

/// A common prefix does not change how two strings compare.
pub proof fn lemma_lex_common_prefix(p: Seq<u8>, a: Seq<u8>, b: Seq<u8>)
    ensures
        lex_lt(p + a, p + b) == lex_lt(a, b),
    decreases p.len(),
{
    if p.len() > 0 {
        lemma_lex_common_prefix(p.drop_first(), a, b);
        assert((p + a).drop_first() =~= p.drop_first() + a);
        assert((p + b).drop_first() =~= p.drop_first() + b);
        assert((p + a)[0] == p[0] && (p + b)[0] == p[0]);
    } else {
        assert(p + a =~= a);
        assert(p + b =~= b);
    }
}

/// Compares two byte strings in lexicographic order.
pub fn compare_bytes(a: &[u8], b: &[u8]) -> (r: KeyOrder)
    ensures
        (r == KeyOrder::Less) == lex_lt(a@, b@),
        (r == KeyOrder::Equal) == (a@ == b@),
        (r == KeyOrder::Greater) == lex_lt(b@, a@),
{
    proof {
        lemma_lex_order();
    }
    let mut i: usize = 0;
    while i < a.len() && i < b.len()
        invariant
            i <= a.len(),
            i <= b.len(),
            forall|j: int| 0 <= j < i ==> a@[j] == b@[j],
        decreases a.len() - i,
    {
        if a[i] != b[i] {
            proof {
                lemma_lex_skip(a@, b@, i as int);
                assert(a@.skip(i as int)[0] == a@[i as int]);
                assert(b@.skip(i as int)[0] == b@[i as int]);
            }
            if a[i] < b[i] {
                return KeyOrder::Less;
            } else {
                return KeyOrder::Greater;
            }
        }
        i += 1;
    }
    proof {
        lemma_lex_skip(a@, b@, i as int);
    }
    if a.len() < b.len() {
        KeyOrder::Less
    } else if b.len() < a.len() {
        KeyOrder::Greater
    } else {
        assert(a@ =~= b@);
        KeyOrder::Equal
    }
}

/// Whether `x` begins with `p`.
pub fn starts_with(x: &[u8], p: &[u8]) -> (r: bool)
    ensures
        r == p@.is_prefix_of(x@),
{
    if p.len() > x.len() {
        return false;
    }
    let mut i: usize = 0;
    while i < p.len()
        invariant
            p.len() <= x.len(),
            i <= p.len(),
            forall|j: int| 0 <= j < i ==> p@[j] == x@[j],
        decreases p.len() - i,
    {
        if p[i] != x[i] {
            return false;
        }
        i += 1;
    }
    assert(p@ =~= x@.subrange(0, p@.len() as int));
    true
}

/// A string that begins with `p` never sorts before `p`.
pub proof fn lemma_prefix_not_below(p: Seq<u8>, x: Seq<u8>)
    requires
        p.is_prefix_of(x),
    ensures
        !lex_lt(x, p),
    decreases p.len(),
{
    if p.len() > 0 {
        assert(p.drop_first().is_prefix_of(x.drop_first())) by {
            assert(p.drop_first() =~= x.drop_first().subrange(0, p.len() - 1));
        }
        lemma_prefix_not_below(p.drop_first(), x.drop_first());
        assert(x[0] == p[0]) by {
            assert(p[0] == x.subrange(0, p.len() as int)[0]);
        }
    }
}

/// Within a sorted run, the strings that begin with `p` come before every
/// string at or above `p` that does not.
pub proof fn lemma_prefix_block_below(p: Seq<u8>, x: Seq<u8>, y: Seq<u8>)
    requires
        p.is_prefix_of(x),
        !lex_lt(y, p),
        !p.is_prefix_of(y),
    ensures
        lex_lt(x, y),
    decreases p.len(),
{
    assert(x[0] == p[0] || p.len() == 0) by {
        if p.len() > 0 {
            assert(p[0] == x.subrange(0, p.len() as int)[0]);
        }
    }
    if p.len() == 0 {
        assert(p =~= y.subrange(0, 0));
    } else if y.len() == 0 {
    } else if y[0] != p[0] {
    } else {
        assert(p.drop_first().is_prefix_of(x.drop_first())) by {
            assert(p.drop_first() =~= x.drop_first().subrange(0, p.len() - 1));
        }
        assert(!p.drop_first().is_prefix_of(y.drop_first())) by {
            if p.drop_first().is_prefix_of(y.drop_first()) {
                assert forall|j: int| 0 <= j < p.len() implies p[j] == y.subrange(0, p.len() as int)[j] by {
                    if j > 0 {
                        assert(p.drop_first()[j - 1] == y.drop_first().subrange(0, p.len() - 1)[j - 1]);
                    }
                }
                assert(p =~= y.subrange(0, p.len() as int));
            }
        }
        lemma_prefix_block_below(p.drop_first(), x.drop_first(), y.drop_first());
    }
}

/// Every string between `p + s` (inclusive) and `p + e` (exclusive) begins
/// with `p`.
pub proof fn lemma_between_shares_prefix(p: Seq<u8>, s: Seq<u8>, e: Seq<u8>, x: Seq<u8>)
    requires
        !lex_lt(x, p + s),
        lex_lt(x, p + e),
    ensures
        p.is_prefix_of(x),
    decreases p.len(),
{
    if p.len() == 0 {
        assert(p =~= x.subrange(0, 0));
    } else {
        assert((p + s)[0] == p[0]);
        assert((p + e)[0] == p[0]);
        assert((p + s).drop_first() =~= p.drop_first() + s);
        assert((p + e).drop_first() =~= p.drop_first() + e);
        if x.len() == 0 {
        } else if x[0] != p[0] {
            lemma_lex_asymmetric(x, p + e);
        } else {
            lemma_between_shares_prefix(p.drop_first(), s, e, x.drop_first());
            assert(p =~= x.subrange(0, p.len() as int)) by {
                assert forall|j: int| 0 <= j < p.len() implies p[j] == x[j] by {
                    if j > 0 {
                        assert(p.drop_first()[j - 1] == x.drop_first().subrange(0, p.len() - 1)[j - 1]);
                    }
                }
            }
        }
    }
}

} // verus!
