//! Canonical ordering of keycodes: the ascending order used for every key of
//! a combo but the trigger, and a verified sort that realises it.

use vstd::prelude::*;
use vstd::relations::{sorted_by, total_ordering};
use vstd::seq_lib::lemma_multiset_commutative;
use vstd::seq_lib::lemma_sorted_unique;

verus! {

/// Ascending order on keycodes.
pub open spec fn code_le() -> spec_fn(u32, u32) -> bool {
    |x: u32, y: u32| x <= y
}

pub proof fn lemma_code_le_total()
    ensures
        total_ordering(code_le()),
{
    assert(vstd::relations::reflexive(code_le())) by {
        assert forall|x: u32| #[trigger] code_le()(x, x) by {}
    }
}

/// Canonical form of a compiled combo: every code but the last sorted
/// ascending, the trigger code kept in the last position.
pub open spec fn canonical(codes: Seq<u32>) -> Seq<u32>
    recommends
        codes.len() > 0,
{
    codes.drop_last().sort_by(code_le()).push(codes.last())
}

/// The canonical form keeps the length and the trigger key: its prefix is
/// the combo's other keys sorted ascending, and its last element is the
/// trigger code unmoved.
pub proof fn lemma_canonical_shape(codes: Seq<u32>)
    requires
        codes.len() > 0,
    ensures
        canonical(codes).len() == codes.len(),
        sorted_by(canonical(codes).drop_last(), code_le()),
        canonical(codes).last() == codes.last(),
        canonical(codes).drop_last().to_multiset() == codes.drop_last().to_multiset(),
{
    broadcast use vstd::seq_lib::group_to_multiset_ensures;

    lemma_code_le_total();
    codes.drop_last().lemma_sort_by_ensures(code_le());
    assert(canonical(codes).drop_last() =~= codes.drop_last().sort_by(code_le()));
    assert(codes.drop_last().sort_by(code_le()).to_multiset().len() == codes.drop_last().to_multiset().len());
}

/// Two combos with the same keys in any order before the trigger, and the
/// same trigger, share one canonical form.
pub proof fn lemma_canonical_order_independent(a: Seq<u32>, b: Seq<u32>)
    requires
        a.len() > 0,
        b.len() > 0,
        a.drop_last().to_multiset() == b.drop_last().to_multiset(),
        a.last() == b.last(),
    ensures
        canonical(a) == canonical(b),
{
    lemma_code_le_total();
    a.drop_last().lemma_sort_by_ensures(code_le());
    b.drop_last().lemma_sort_by_ensures(code_le());
    lemma_sorted_unique(
        a.drop_last().sort_by(code_le()),
        b.drop_last().sort_by(code_le()),
        code_le(),
    );
    assert(canonical(a) =~= canonical(b));
}

/// Inserting an element anywhere in a sequence adds it, and nothing else,
/// to the sequence's multiset.
pub proof fn lemma_seq_insert_multiset(s: Seq<u32>, pos: int, x: u32)
    requires
        0 <= pos <= s.len(),
    ensures
        s.insert(pos, x).to_multiset() =~= s.to_multiset().insert(x),
{
    let front = s.subrange(0, pos);
    let back = s.subrange(pos, s.len() as int);
    assert(s.insert(pos, x) == front.push(x) + back);
    lemma_multiset_commutative(front.push(x), back);
    front.to_multiset_ensures();
    assert(s =~= front + back);
    lemma_multiset_commutative(front, back);
}

/// Insert `x` into the ascending sequence `v`, keeping it ascending.
pub(crate) fn insert_sorted(v: &mut Vec<u32>, x: u32)
    requires
        sorted_by(old(v)@, code_le()),
    ensures
        sorted_by(final(v)@, code_le()),
        final(v)@.to_multiset() == old(v)@.to_multiset().insert(x),
        final(v)@.len() == old(v)@.len() + 1,
{
    let mut pos: usize = 0;
    while pos < v.len() && v[pos] <= x
        invariant
            pos <= v@.len(),
            forall|j: int| 0 <= j < pos ==> code_le()(v@[j], x),
        decreases v@.len() - pos,
    {
        pos = pos + 1;
    }
    proof {
        lemma_seq_insert_multiset(v@, pos as int, x);
    }
    v.insert(pos, x);
    proof {
        let s = old(v)@;
        let t = v@;
        s.insert_ensures(pos as int, x);
        assert forall|i: int, j: int| 0 <= i < j < t.len() implies #[trigger] code_le()(
            t[i],
            t[j],
        ) by {
            if j < pos {
                assert(code_le()(s[i], s[j]));
            } else if i < pos && j == pos {
                assert(code_le()(s[i], x));
            } else if i < pos && j > pos {
                if i < j - 1 {
                    assert(code_le()(s[i], s[j - 1]));
                }
                assert(code_le()(s[i], x));
            } else if i == pos {
                assert(pos < s.len() && x < s[pos as int]);
                if pos < j - 1 {
                    assert(code_le()(s[pos as int], s[j - 1]));
                }
            } else {
                assert(code_le()(s[i - 1], s[j - 1]));
            }
        }
    }
}

/// Sort a sequence of keycodes ascending; the result is exactly
/// `sort_by` of the input under the canonical order.
pub fn sort_codes(v: &Vec<u32>) -> (r: Vec<u32>)
    ensures
        r@ == v@.sort_by(code_le()),
{
    let mut r: Vec<u32> = Vec::new();
    proof {
        assert(r@ =~= v@.subrange(0, 0));
    }
    let mut i: usize = 0;
    while i < v.len()
        invariant
            i <= v@.len(),
            sorted_by(r@, code_le()),
            r@.to_multiset() == v@.subrange(0, i as int).to_multiset(),
        decreases v@.len() - i,
    {
        proof {
            let prefix = v@.subrange(0, i as int);
            prefix.to_multiset_ensures();
            assert(v@.subrange(0, i as int + 1) =~= prefix.push(v@[i as int]));
        }
        insert_sorted(&mut r, v[i]);
        i = i + 1;
    }
    proof {
        assert(v@.subrange(0, v@.len() as int) =~= v@);
        lemma_code_le_total();
        v@.lemma_sort_by_ensures(code_le());
        lemma_sorted_unique(r@, v@.sort_by(code_le()), code_le());
    }
    r
}

} // verus!
