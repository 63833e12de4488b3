//! Parentheses that pair up.
use vstd::prelude::*;

use crate::bytes::{CLOSE, OPEN};
use crate::walk::opening;

verus! {

/// How many more parentheses close than open in `s`.
pub open spec fn net_closings(s: Seq<u8>) -> int
    decreases s.len(),
{
    if s.len() == 0 {
        0
    } else {
        net_closings(s.drop_last()) + if s.last() == CLOSE {
            1int
        } else if s.last() == OPEN {
            -1int
        } else {
            0int
        }
    }
}

/// Whether the parentheses in `s` pair up, and can be counted.
pub open spec fn is_balanced(s: Seq<u8>) -> bool {
    &&& net_closings(s) == 0
    &&& forall|k: int| 0 <= k <= s.len() ==> 0 <= #[trigger] net_closings(s.skip(k)) < u32::MAX
}

/// The search for the opening parenthesis passes over `s` and has counted what
/// closes in it.
pub proof fn lemma_opening_passes(a: Seq<u8>, s: Seq<u8>, depth: nat)
    requires
        forall|k: int|
            0 <= k <= s.len() ==> 1 <= depth + #[trigger] net_closings(s.skip(k)) <= u32::MAX,
    ensures
        1 <= depth + net_closings(s),
        opening(a + s, depth) == opening(a, (depth + net_closings(s)) as nat),
    decreases s.len(),
{
    assert(s.skip(0) =~= s);
    assert(1 <= depth + net_closings(s.skip(0)));
    if s.len() == 0 {
        assert(a + s =~= a);
    } else {
        let t = s.drop_last();
        assert((a + s).drop_last() =~= a + t);
        assert((a + s).last() == s.last());
        let step = net_closings(s) - net_closings(t);
        let last = s.skip(s.len() - 1);
        assert(last.drop_last() =~= Seq::<u8>::empty());
        assert(net_closings(last.drop_last()) == 0);
        assert(net_closings(last) == step);
        assert(s.skip(s.len() as int) =~= Seq::<u8>::empty());
        assert(1 <= depth + net_closings(s.skip(s.len() as int)));
        let next = (depth + step) as nat;
        assert forall|k: int| 0 <= k <= t.len() implies 1 <= next + #[trigger] net_closings(
            t.skip(k),
        ) <= u32::MAX by {
            assert(s.skip(k).drop_last() =~= t.skip(k));
            assert(s.skip(k).last() == s.last());
            assert(1 <= depth + net_closings(s.skip(k)) <= u32::MAX);
        }
        lemma_opening_passes(a, t, next);
    }
}

/// The search for the opening parenthesis passes over balanced bytes.
pub proof fn lemma_opening_ignores(a: Seq<u8>, s: Seq<u8>)
    requires
        is_balanced(s),
    ensures
        opening(a + s, 1) == opening(a, 1),
{
    lemma_opening_passes(a, s, 1);
}

/// Bytes without parentheses are balanced.
pub proof fn lemma_no_parentheses(s: Seq<u8>)
    requires
        forall|i: int| 0 <= i < s.len() ==> #[trigger] s[i] != OPEN && s[i] != CLOSE,
    ensures
        is_balanced(s),
        net_closings(s) == 0,
    decreases s.len(),
{
    lemma_no_net(s);
    assert forall|k: int| 0 <= k <= s.len() implies 0 <= #[trigger] net_closings(s.skip(k))
        < u32::MAX by {
        let t = s.skip(k);
        assert forall|i: int| 0 <= i < t.len() implies #[trigger] t[i] != OPEN && t[i] != CLOSE by {
            assert(t[i] == s[k + i]);
        }
        lemma_no_net(t);
    }
}

proof fn lemma_no_net(s: Seq<u8>)
    requires
        forall|i: int| 0 <= i < s.len() ==> #[trigger] s[i] != OPEN && s[i] != CLOSE,
    ensures
        net_closings(s) == 0,
    decreases s.len(),
{
    if s.len() > 0 {
        let t = s.drop_last();
        assert forall|i: int| 0 <= i < t.len() implies #[trigger] t[i] != OPEN && t[i] != CLOSE by {
            assert(t[i] == s[i]);
        }
        lemma_no_net(t);
    }
}

/// The parentheses of two strings are those of both.
pub proof fn lemma_net_concat(a: Seq<u8>, b: Seq<u8>)
    ensures
        net_closings(a + b) == net_closings(a) + net_closings(b),
    decreases b.len(),
{
    if b.len() == 0 {
        assert(a + b =~= a);
    } else {
        lemma_net_concat(a, b.drop_last());
        assert((a + b).drop_last() =~= a + b.drop_last());
        assert((a + b).last() == b.last());
    }
}

/// Balanced bytes behind balanced bytes are balanced.
pub proof fn lemma_balanced_concat(a: Seq<u8>, b: Seq<u8>)
    requires
        is_balanced(a),
        is_balanced(b),
    ensures
        is_balanced(a + b),
{
    lemma_net_concat(a, b);
    assert forall|k: int| 0 <= k <= (a + b).len() implies 0 <= #[trigger] net_closings(
        (a + b).skip(k),
    ) < u32::MAX by {
        if k >= a.len() {
            assert((a + b).skip(k) =~= b.skip(k - a.len()));
        } else {
            assert((a + b).skip(k) =~= a.skip(k) + b);
            lemma_net_concat(a.skip(k), b);
        }
    }
}

} // verus!
