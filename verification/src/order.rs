//! Lexicographic order on identifier strings.

use vstd::prelude::*;

verus! {

/// Strict lexicographic order on character sequences, by code point.
pub open spec fn lex_lt(a: Seq<char>, b: Seq<char>) -> bool
    decreases a.len(),
{
    if b.len() == 0 {
        false
    } else if a.len() == 0 {
        true
    } else if (a[0] as u32) < (b[0] as u32) {
        true
    } else if a[0] == b[0] {
        lex_lt(a.drop_first(), b.drop_first())
    } else {
        false
    }
}

/// Every entry is strictly below each later one: ascending and duplicate-free.
pub open spec fn strictly_sorted(segs: Seq<Seq<char>>) -> bool {
    forall|i: int, j: int| 0 <= i < j < segs.len() ==> lex_lt(segs[i], segs[j])
}

pub proof fn lemma_lex_irreflexive(a: Seq<char>)
    ensures
        !lex_lt(a, a),
    decreases a.len(),
{
    if a.len() > 0 {
        lemma_lex_irreflexive(a.drop_first());
    }
}

pub proof fn lemma_lex_transitive(a: Seq<char>, b: Seq<char>, c: Seq<char>)
    requires
        lex_lt(a, b),
        lex_lt(b, c),
    ensures
        lex_lt(a, c),
    decreases a.len(),
{
    if a.len() > 0 && b.len() > 0 && c.len() > 0 && a[0] == b[0] && b[0] == c[0] {
        lemma_lex_transitive(a.drop_first(), b.drop_first(), c.drop_first());
    }
}

pub proof fn lemma_lex_connected(a: Seq<char>, b: Seq<char>)
    requires
        a != b,
    ensures
        lex_lt(a, b) || lex_lt(b, a),
    decreases a.len(),
{
    if a.len() == 0 && b.len() == 0 {
        assert(a =~= b);
    } else if a.len() > 0 && b.len() > 0 && a[0] == b[0] {
        if a.drop_first() == b.drop_first() {
            assert(a.len() == b.len()) by {
                assert(a.drop_first().len() == b.drop_first().len());
            }
            assert forall|i: int| 0 <= i < a.len() implies a[i] == b[i] by {
                if i > 0 {
                    assert(a[i] == a.drop_first()[i - 1]);
                    assert(b[i] == b.drop_first()[i - 1]);
                }
            }
            assert(a =~= b);
        }
        lemma_lex_connected(a.drop_first(), b.drop_first());
    } else if a.len() > 0 && b.len() > 0 {
        vstd::utf8::char_u32_cast(a[0], a[0] as u32);
        vstd::utf8::char_u32_cast(b[0], b[0] as u32);
        assert((a[0] as u32) != (b[0] as u32));
    }
}

/// Two strictly sorted sequences holding the same set of entries are the same
/// sequence: the canonical order leaves no choice in how a set is written out.
pub proof fn lemma_sorted_unique(a: Seq<Seq<char>>, b: Seq<Seq<char>>)
    requires
        strictly_sorted(a),
        strictly_sorted(b),
        a.to_set() == b.to_set(),
    ensures
        a == b,
    decreases a.len(),
{
    if a.len() == 0 {
        if b.len() > 0 {
            assert(b.contains(b[0]));
            assert(b.to_set().contains(b[0]));
            assert(a.contains(b[0]));
        }
        assert(a =~= b);
    } else {
        assert(a.contains(a[0]));
        assert(b.to_set().contains(a[0]));
        let j = choose|j: int| 0 <= j < b.len() && b[j] == a[0];
        assert(b.contains(b[0]));
        assert(a.to_set().contains(b[0]));
        let k = choose|k: int| 0 <= k < a.len() && a[k] == b[0];
        if j > 0 {
            assert(lex_lt(b[0], a[0]));
            if k > 0 {
                assert(lex_lt(a[0], b[0]));
                lemma_lex_transitive(a[0], b[0], a[0]);
            }
            lemma_lex_irreflexive(a[0]);
        }
        assert(a[0] == b[0]);
        let at = a.drop_first();
        let bt = b.drop_first();
        assert forall|t: Seq<char>| at.to_set().contains(t) <==> bt.to_set().contains(t) by {
            lemma_tail_member(a, b, t);
            lemma_tail_member(b, a, t);
        }
        assert(at.to_set() =~= bt.to_set());
        assert(strictly_sorted(at)) by {
            assert forall|i: int, j2: int| 0 <= i < j2 < at.len() implies lex_lt(
                at[i],
                at[j2],
            ) by {
                assert(at[i] == a[i + 1] && at[j2] == a[j2 + 1]);
            }
        }
        assert(strictly_sorted(bt)) by {
            assert forall|i: int, j2: int| 0 <= i < j2 < bt.len() implies lex_lt(
                bt[i],
                bt[j2],
            ) by {
                assert(bt[i] == b[i + 1] && bt[j2] == b[j2 + 1]);
            }
        }
        lemma_sorted_unique(at, bt);
        assert forall|i: int| 0 <= i < a.len() implies a[i] == b[i] by {
            if i > 0 {
                assert(a[i] == at[i - 1]);
                assert(b[i] == bt[i - 1]);
            }
        }
        assert(a.len() == b.len()) by {
            assert(at.len() == bt.len());
        }
        assert(a =~= b);
    }
}

/// An entry of the tail of one sorted sequence sits in the tail of the other,
/// when both sequences share their first entry and their set of entries.
proof fn lemma_tail_member(a: Seq<Seq<char>>, b: Seq<Seq<char>>, t: Seq<char>)
    requires
        strictly_sorted(a),
        strictly_sorted(b),
        a.to_set() == b.to_set(),
        a.len() > 0,
        b.len() > 0,
        a[0] == b[0],
    ensures
        a.drop_first().to_set().contains(t) ==> b.drop_first().to_set().contains(t),
{
    if a.drop_first().to_set().contains(t) {
        let m = choose|m: int| 0 <= m < a.drop_first().len() && a.drop_first()[m] == t;
        assert(a[m + 1] == t);
        assert(a.contains(t));
        assert(b.to_set().contains(t));
        let p = choose|p: int| 0 <= p < b.len() && b[p] == t;
        assert(lex_lt(a[0], t));
        if p == 0 {
            lemma_lex_irreflexive(t);
        }
        assert(b.drop_first()[p - 1] == t);
        assert(b.drop_first().contains(t));
    }
}

/// Compares two identifier strings; true exactly when `a` comes strictly
/// before `b` in lexicographic order.
pub fn str_lt(a: &str, b: &str) -> (r: bool)
    ensures
        r == lex_lt(a@, b@),
{
    let a_len = a.unicode_len();
    let b_len = b.unicode_len();
    let mut i: usize = 0;
    assert(a@.skip(0) =~= a@);
    assert(b@.skip(0) =~= b@);
    while i < a_len && i < b_len
        invariant
            i <= a_len,
            i <= b_len,
            a_len == a@.len(),
            b_len == b@.len(),
            lex_lt(a@, b@) == lex_lt(a@.skip(i as int), b@.skip(i as int)),
        decreases a_len - i,
    {
        let ca = a.get_char(i);
        let cb = b.get_char(i);
        if (ca as u32) < (cb as u32) {
            assert(lex_lt(a@.skip(i as int), b@.skip(i as int)));
            return true;
        }
        if ca != cb {
            assert(!lex_lt(a@.skip(i as int), b@.skip(i as int)));
            return false;
        }
        assert(a@.skip(i as int).drop_first() =~= a@.skip(i + 1));
        assert(b@.skip(i as int).drop_first() =~= b@.skip(i + 1));
        i = i + 1;
    }
    assert(a@.skip(i as int).len() == 0 || b@.skip(i as int).len() == 0);
    a_len < b_len
}

} // verus!
