//! The order of texts: by the first character that differs, a text before its
//! own extensions.
use vstd::prelude::*;
use vstd::string::*;

use crate::text;

verus! {

/// Whether `a` comes before `b`.
pub open spec fn before(a: Seq<char>, b: Seq<char>) -> bool
    decreases a.len(),
{
    if b.len() == 0 {
        false
    } else if a.len() == 0 {
        true
    } else if a[0] != b[0] {
        a[0] < b[0]
    } else {
        before(a.skip(1), b.skip(1))
    }
}

/// No text comes before itself.
pub proof fn lemma_before_irreflexive(a: Seq<char>)
    ensures
        !before(a, a),
    decreases a.len(),
{
    if a.len() > 0 {
        lemma_before_irreflexive(a.skip(1));
    }
}

/// Of two different texts one comes before the other.
pub proof fn lemma_before_total(a: Seq<char>, b: Seq<char>)
    ensures
        before(a, b) || a == b || before(b, a),
    decreases a.len(),
{
    if a.len() == 0 && b.len() == 0 {
        assert(a =~= b);
    } else if a.len() > 0 && b.len() > 0 && a[0] == b[0] {
        lemma_before_total(a.skip(1), b.skip(1));
        if a.skip(1) == b.skip(1) {
            assert(a =~= seq![a[0]] + a.skip(1));
            assert(b =~= seq![b[0]] + b.skip(1));
        }
    }
}

/// The order is transitive.
pub proof fn lemma_before_transitive(a: Seq<char>, b: Seq<char>, c: Seq<char>)
    requires
        before(a, b),
        before(b, c),
    ensures
        before(a, c),
    decreases a.len(),
{
    if a.len() > 0 && a[0] == b[0] && b[0] == c[0] {
        lemma_before_transitive(a.skip(1), b.skip(1), c.skip(1));
    }
}

/// Of two texts at most one comes before the other.
pub proof fn lemma_before_asymmetric(a: Seq<char>, b: Seq<char>)
    requires
        before(a, b),
    ensures
        !before(b, a),
        a != b,
{
    lemma_before_irreflexive(a);
    if before(b, a) {
        lemma_before_transitive(a, b, a);
    }
}

/// Whether `a` comes before `b`.
pub fn comes_before(a: &str, b: &str) -> (r: bool)
    ensures
        r == before(a@, b@),
{
    let x = text::chars(a);
    let y = text::chars(b);
    let mut i: usize = 0;
    assert(x@.skip(0) =~= a@);
    assert(y@.skip(0) =~= b@);
    while i < x.len() && i < y.len()
        invariant
            x@ == a@,
            y@ == b@,
            i <= x@.len(),
            i <= y@.len(),
            before(a@, b@) == before(x@.skip(i as int), y@.skip(i as int)),
        decreases x@.len() - i,
    {
        assert(x@.skip(i as int).skip(1) =~= x@.skip(i + 1));
        assert(y@.skip(i as int).skip(1) =~= y@.skip(i + 1));
        if x[i] != y[i] {
            return x[i] < y[i];
        }
        i += 1;
    }
    i < y.len()
}

/// Texts are ordered as in a dictionary: what they begin with in common does not
/// count, the first character that differs decides, and what ends first comes first.
pub proof fn law_the_first_difference_orders(
    lead: Seq<char>,
    a: Seq<char>,
    b: Seq<char>,
    c: char,
    d: char,
)
    ensures
        before(lead + a, lead + b) <==> before(a, b),
        c < d ==> before(lead + seq![c] + a, lead + seq![d] + b),
        before(lead, lead + seq![c] + a),
    decreases lead.len(),
{
    if lead.len() > 0 {
        let rest = lead.skip(1);
        law_the_first_difference_orders(rest, a, b, c, d);
        assert((lead + a).skip(1) =~= rest + a);
        assert((lead + b).skip(1) =~= rest + b);
        assert((lead + seq![c] + a).skip(1) =~= rest + seq![c] + a);
        assert((lead + seq![d] + b).skip(1) =~= rest + seq![d] + b);
        assert((lead + a)[0] == lead[0] && (lead + b)[0] == lead[0]);
        assert((lead + seq![c] + a)[0] == lead[0] && (lead + seq![d] + b)[0] == lead[0]);
    } else {
        assert(lead + a =~= a);
        assert(lead + b =~= b);
        assert((lead + seq![c] + a)[0] == c);
        assert((lead + seq![d] + b)[0] == d);
    }
}

} // verus!
