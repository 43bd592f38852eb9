//! Byte strings: comparison, prefixes and their lexicographic order.
use vstd::prelude::*;

verus! {

/// `a` sorts strictly before `b`, byte by byte; a proper prefix sorts first.
pub open spec fn lex_lt(a: Seq<u8>, b: Seq<u8>) -> bool
    decreases a.len(),
{
    if b.len() == 0 {
        false
    } else if a.len() == 0 {
        true
    } else if a[0] != b[0] {
        a[0] < b[0]
    } else {
        lex_lt(a.drop_first(), b.drop_first())
    }
}

/// `a` sorts before `b` or is `b`.
pub open spec fn lex_le(a: Seq<u8>, b: Seq<u8>) -> bool {
    a == b || lex_lt(a, b)
}

/// `p` is a prefix of `s`.
pub open spec fn has_prefix(s: Seq<u8>, p: Seq<u8>) -> bool {
    p.len() <= s.len() && s.subrange(0, p.len() as int) == p
}

/// What is left of `s` from position `n` on.
pub open spec fn after(s: Seq<u8>, n: int) -> Seq<u8> {
    s.subrange(n, s.len() as int)
}

/// Nothing sorts before itself.
pub proof fn lex_irreflexive(a: Seq<u8>)
    ensures
        !lex_lt(a, a),
    decreases a.len(),
{
    if a.len() > 0 {
        lex_irreflexive(a.drop_first());
    }
}

/// The order is transitive.
pub proof fn lex_transitive(a: Seq<u8>, b: Seq<u8>, c: Seq<u8>)
    requires
        lex_lt(a, b),
        lex_lt(b, c),
    ensures
        lex_lt(a, c),
    decreases a.len(),
{
    if a.len() > 0 && a[0] == b[0] && b[0] == c[0] {
        lex_transitive(a.drop_first(), b.drop_first(), c.drop_first());
    }
}

/// Of two different byte strings one sorts first.
pub proof fn lex_total(a: Seq<u8>, b: Seq<u8>)
    ensures
        a == b || lex_lt(a, b) || lex_lt(b, a),
    decreases a.len(),
{
    if a.len() > 0 && b.len() > 0 && a[0] == b[0] {
        lex_total(a.drop_first(), b.drop_first());
        if a.drop_first() == b.drop_first() {
            assert(a =~= seq![a[0]] + a.drop_first());
            assert(b =~= seq![b[0]] + b.drop_first());
        }
    } else if a.len() == 0 && b.len() == 0 {
        assert(a =~= b);
    }
}

/// Two byte strings never sort both ways.
pub proof fn lex_asymmetric(a: Seq<u8>, b: Seq<u8>)
    requires
        lex_lt(a, b),
    ensures
        !lex_lt(b, a),
        a != b,
{
    lex_irreflexive(a);
    if lex_lt(b, a) {
        lex_transitive(a, b, a);
    }
}

/// A common head does not change how two byte strings sort.
pub proof fn lex_common_head(p: Seq<u8>, a: Seq<u8>, b: Seq<u8>)
    ensures
        lex_lt(p + a, p + b) == lex_lt(a, b),
    decreases p.len(),
{
    if p.len() == 0 {
        assert(p + a =~= a);
        assert(p + b =~= b);
    } else {
        let q = p.drop_first();
        lex_common_head(q, a, b);
        assert((p + a).drop_first() =~= q + a);
        assert((p + b).drop_first() =~= q + b);
        if (p + b).len() == 0 {
            assert(false);
        }
    }
}

/// The two differ first at position `i`, where `a` holds the smaller byte or
/// has ended.
pub open spec fn first_difference(a: Seq<u8>, b: Seq<u8>, i: int) -> bool {
    &&& 0 <= i <= a.len()
    &&& i < b.len()
    &&& a.subrange(0, i) == b.subrange(0, i)
    &&& i < a.len() ==> a[i] < b[i]
}

/// A first difference in `a`'s favour is what sorting first means.
pub proof fn lex_from_difference(a: Seq<u8>, b: Seq<u8>, i: int)
    requires
        first_difference(a, b, i),
    ensures
        lex_lt(a, b),
{
    let p = a.subrange(0, i);
    assert(a =~= p + after(a, i));
    assert(b =~= p + after(b, i));
    lex_common_head(p, after(a, i), after(b, i));
}

/// A prefix sorts no later than what it is a prefix of.
pub proof fn prefix_sorts_first(s: Seq<u8>, p: Seq<u8>)
    requires
        has_prefix(s, p),
    ensures
        lex_le(p, s),
{
    if p.len() < s.len() {
        assert(p.subrange(0, p.len() as int) =~= s.subrange(0, p.len() as int));
        lex_from_difference(p, s, p.len() as int);
    } else {
        assert(s.subrange(0, p.len() as int) =~= s);
    }
}

/// A byte string that extends a prefix has it.
pub proof fn lemma_has_prefix_concat(p: Seq<u8>, rest: Seq<u8>)
    ensures
        has_prefix(p + rest, p),
        after(p + rest, p.len() as int) == rest,
{
    assert((p + rest).subrange(0, p.len() as int) =~= p);
    assert(after(p + rest, p.len() as int) =~= rest);
}

/// Prefixes of one byte string agree as far as the shorter one goes.
pub proof fn lemma_prefix_chain(s: Seq<u8>, p: Seq<u8>, q: Seq<u8>)
    requires
        has_prefix(s, q),
        has_prefix(q, p),
    ensures
        has_prefix(s, p),
{
    assert(s.subrange(0, p.len() as int) =~= q.subrange(0, p.len() as int));
}

/// Whether two byte strings are the same.
pub fn bytes_eq(a: &[u8], b: &[u8]) -> (r: bool)
    ensures
        r == (a@ == b@),
{
    if a.len() != b.len() {
        return false;
    }
    let mut i: usize = 0;
    while i < a.len()
        invariant
            i <= a.len(),
            a.len() == b.len(),
            forall|k: int| 0 <= k < i ==> a@[k] == b@[k],
        decreases a.len() - i,
    {
        if a[i] != b[i] {
            return false;
        }
        i += 1;
    }
    assert(a@ =~= b@);
    true
}

/// Whether `a` sorts strictly before `b`.
pub fn bytes_lt(a: &[u8], b: &[u8]) -> (r: bool)
    ensures
        r == lex_lt(a@, b@),
{
    let mut i: usize = 0;
    while i < a.len() && i < b.len()
        invariant
            i <= a.len(),
            i <= b.len(),
            forall|k: int| 0 <= k < i ==> a@[k] == b@[k],
        decreases a.len() - i,
    {
        if a[i] != b[i] {
            let smaller: bool = a[i] < b[i];
            proof {
                assert(a@.subrange(0, i as int) =~= b@.subrange(0, i as int));
                if smaller {
                    lex_from_difference(a@, b@, i as int);
                } else {
                    lex_from_difference(b@, a@, i as int);
                    lex_asymmetric(b@, a@);
                }
            }
            return smaller;
        }
        i += 1;
    }
    let shorter: bool = a.len() < b.len();
    proof {
        assert(a@.subrange(0, i as int) =~= b@.subrange(0, i as int));
        if shorter {
            lex_from_difference(a@, b@, i as int);
        } else if b.len() < a.len() {
            lex_from_difference(b@, a@, i as int);
            lex_asymmetric(b@, a@);
        } else {
            assert(a@ =~= b@);
            lex_irreflexive(a@);
        }
    }
    shorter
}

/// Whether `s` begins with `p`.
pub fn starts_with(s: &[u8], p: &[u8]) -> (r: bool)
    ensures
        r == has_prefix(s@, p@),
{
    if s.len() < p.len() {
        return false;
    }
    let head = vstd::slice::slice_subrange(s, 0, p.len());
    bytes_eq(head, p)
}

/// Append `tail` to `out`.
pub fn append_bytes(out: &mut Vec<u8>, tail: &[u8])
    ensures
        final(out)@ == old(out)@ + tail@,
{
    out.extend_from_slice(tail);
    assert(out@ =~= old(out)@ + tail@);
}

/// What begins with `p` is `p` with something behind it, and nothing else begins so.
pub proof fn a_prefix_is_how_it_begins(s: Seq<u8>, p: Seq<u8>, rest: Seq<u8>)
    ensures
        has_prefix(p + rest, p),
        s.len() < p.len() ==> !has_prefix(s, p),
        forall|i: int|
            0 <= i < p.len() && i < s.len() && s[i] != p[i] ==> !has_prefix(s, p),
        has_prefix(s, p) ==> s == p + after(s, p.len() as int),
{
    lemma_has_prefix_concat(p, rest);
    assert forall|i: int| 0 <= i < p.len() && i < s.len() && s[i] != p[i] implies !has_prefix(
        s,
        p,
    ) by {
        if has_prefix(s, p) {
            assert(s.subrange(0, p.len() as int)[i] == s[i]);
        }
    }
    if has_prefix(s, p) {
        assert(s =~= s.subrange(0, p.len() as int) + after(s, p.len() as int));
    }
}

} // verus!
