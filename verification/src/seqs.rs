//! Specification vocabulary for sorted sequences of `usize` values, together
//! with the lemmas about concatenation and distinctness that the tree proofs
//! rely on.

use vstd::prelude::*;

verus! {

broadcast use vstd::set::group_set_axioms;

/// Every element of `s` is strictly below `b`.
pub open spec fn all_below(s: Seq<usize>, b: usize) -> bool {
    forall|i: int| 0 <= i < s.len() ==> s[i] < b
}

/// Every element of `s` is strictly above `b`.
pub open spec fn all_above(s: Seq<usize>, b: usize) -> bool {
    forall|i: int| 0 <= i < s.len() ==> s[i] > b
}

/// The sequence is strictly ascending.
pub open spec fn strict_sorted(s: Seq<usize>) -> bool {
    forall|i: int, j: int| 0 <= i < j < s.len() ==> s[i] < s[j]
}

/// Whether `x` lies at or above the optional lower bound.
pub open spec fn ge_bound(lo: Option<usize>, x: usize) -> bool {
    match lo {
        Option::None => true,
        Option::Some(b) => x >= b,
    }
}

/// Whether `x` lies strictly below the optional upper bound.
pub open spec fn lt_bound(hi: Option<usize>, x: usize) -> bool {
    match hi {
        Option::None => true,
        Option::Some(b) => x < b,
    }
}

/// Drops the longest prefix of elements below the optional lower bound.
/// On a strictly sorted sequence this keeps exactly the elements at or
/// above the bound.
pub open spec fn keep_ge(s: Seq<usize>, lo: Option<usize>) -> Seq<usize>
    decreases s.len(),
{
    if s.len() == 0 {
        s
    } else if ge_bound(lo, s[0]) {
        s
    } else {
        keep_ge(s.drop_first(), lo)
    }
}

/// Keeps the longest prefix of elements strictly below the optional upper
/// bound. On a strictly sorted sequence this keeps exactly the elements
/// below the bound.
pub open spec fn keep_lt(s: Seq<usize>, hi: Option<usize>) -> Seq<usize>
    decreases s.len(),
{
    match hi {
        Option::None => s,
        Option::Some(b) => if s.len() == 0 {
            s
        } else if s[0] < b {
            seq![s[0]] + keep_lt(s.drop_first(), hi)
        } else {
            Seq::empty()
        },
    }
}

/// Dropping up to a bound passes over a whole first part that lies below it.
pub proof fn lemma_keep_ge_skip(a: Seq<usize>, b: Seq<usize>, lo: Option<usize>)
    requires
        forall|i: int| 0 <= i < a.len() ==> !ge_bound(lo, a[i]),
    ensures
        keep_ge(a + b, lo) == keep_ge(b, lo),
    decreases a.len(),
{
    if a.len() == 0 {
        assert(a + b =~= b);
    } else {
        assert((a + b).drop_first() =~= a.drop_first() + b);
        lemma_keep_ge_skip(a.drop_first(), b, lo);
    }
}

/// Dropping up to a bound stops no later than the first element of a second
/// part that already meets it.
pub proof fn lemma_keep_ge_concat(a: Seq<usize>, b: Seq<usize>, lo: Option<usize>)
    requires
        b.len() > 0,
        ge_bound(lo, b[0]),
    ensures
        keep_ge(a + b, lo) == keep_ge(a, lo) + b,
    decreases a.len(),
{
    if a.len() == 0 {
        assert(a + b =~= b);
        assert(keep_ge(a, lo) + b =~= b);
    } else if ge_bound(lo, a[0]) {
        assert((a + b)[0] == a[0]);
    } else {
        assert((a + b)[0] == a[0]);
        assert((a + b).drop_first() =~= a.drop_first() + b);
        lemma_keep_ge_concat(a.drop_first(), b, lo);
    }
}

/// On a strictly sorted sequence, dropping up to the lower bound keeps
/// exactly the members at or above it, still strictly ascending.
pub proof fn lemma_keep_ge_members(s: Seq<usize>, lo: Option<usize>)
    requires
        strict_sorted(s),
    ensures
        strict_sorted(keep_ge(s, lo)),
        forall|x: usize|
            #[trigger] keep_ge(s, lo).contains(x) <==> s.contains(x) && ge_bound(lo, x),
    decreases s.len(),
{
    if s.len() == 0 {
    } else if ge_bound(lo, s[0]) {
        assert forall|x: usize| s.contains(x) implies ge_bound(lo, x) by {
            let i = choose|i: int| 0 <= i < s.len() && s[i] == x;
            assert(s[0] <= s[i]);
        }
    } else {
        let rest = s.drop_first();
        lemma_keep_ge_members(rest, lo);
        assert forall|x: usize|
            #[trigger] keep_ge(s, lo).contains(x) <==> s.contains(x) && ge_bound(lo, x) by {
            if s.contains(x) && ge_bound(lo, x) {
                let i = choose|i: int| 0 <= i < s.len() && s[i] == x;
                assert(i != 0);
                assert(rest[i - 1] == x);
                assert(rest.contains(x));
            }
            if rest.contains(x) {
                let i = choose|i: int| 0 <= i < rest.len() && rest[i] == x;
                assert(s[i + 1] == x);
            }
        }
    }
}

/// On a strictly sorted sequence, cutting at the upper bound keeps exactly
/// the members below it, still strictly ascending.
pub proof fn lemma_keep_lt_members(s: Seq<usize>, hi: Option<usize>)
    requires
        strict_sorted(s),
    ensures
        strict_sorted(keep_lt(s, hi)),
        forall|x: usize|
            #[trigger] keep_lt(s, hi).contains(x) <==> s.contains(x) && lt_bound(hi, x),
    decreases s.len(),
{
    if hi is None || s.len() == 0 {
    } else if lt_bound(hi, s[0]) {
        let rest = s.drop_first();
        lemma_keep_lt_members(rest, hi);
        let cut = keep_lt(s, hi);
        assert(cut == seq![s[0]] + keep_lt(rest, hi));
        assert forall|x: usize| #[trigger] cut.contains(x) <==> s.contains(x) && lt_bound(
            hi,
            x,
        ) by {
            lemma_concat_contains(seq![s[0]], keep_lt(rest, hi), x);
            assert(seq![s[0]][0] == s[0]);
            if s.contains(x) && lt_bound(hi, x) && x != s[0] {
                let i = choose|i: int| 0 <= i < s.len() && s[i] == x;
                assert(rest[i - 1] == x);
                assert(rest.contains(x));
            }
            if rest.contains(x) {
                let i = choose|i: int| 0 <= i < rest.len() && rest[i] == x;
                assert(s[i + 1] == x);
            }
        }
        assert forall|i: int, j: int| 0 <= i < j < cut.len() implies cut[i] < cut[j] by {
            assert(cut.contains(cut[j]));
            if i > 0 {
                assert(cut[i] == keep_lt(rest, hi)[i - 1]);
                assert(cut[j] == keep_lt(rest, hi)[j - 1]);
            } else {
                assert(cut[i] == s[0]);
                assert(s.contains(cut[j]));
                let k = choose|k: int| 0 <= k < s.len() && s[k] == cut[j];
                assert(k != 0 ==> s[0] < s[k]);
                if k == 0 {
                    assert(keep_lt(rest, hi).contains(s[0]));
                    assert(rest.contains(s[0]));
                    let m = choose|m: int| 0 <= m < rest.len() && rest[m] == s[0];
                    assert(s[m + 1] == s[0]);
                }
            }
        }
    } else {
        assert forall|x: usize| s.contains(x) implies !lt_bound(hi, x) by {
            let i = choose|i: int| 0 <= i < s.len() && s[i] == x;
            assert(s[0] <= s[i]);
        }
    }
}

/// A strictly sorted sequence is determined by its members: two strictly
/// sorted sequences holding the same set of values are the same sequence.
pub proof fn lemma_sorted_unique(a: Seq<usize>, b: Seq<usize>)
    requires
        strict_sorted(a),
        strict_sorted(b),
        a.to_set() == b.to_set(),
    ensures
        a == b,
    decreases a.len(),
{
    if a.len() == 0 {
        if b.len() > 0 {
            assert(b.contains(b[0]));
            assert(a.to_set().contains(b[0]));
            assert(a.contains(b[0]));
        }
        assert(a =~= b);
    } else if b.len() == 0 {
        assert(a.contains(a[0]));
        assert(b.to_set().contains(a[0]));
        assert(b.contains(a[0]));
    } else {
        assert(a.contains(a[0]));
        assert(b.contains(b[0]));
        assert(b.to_set().contains(a[0]));
        assert(b.contains(a[0]));
        let i = choose|i: int| 0 <= i < b.len() && b[i] == a[0];
        assert(i > 0 ==> b[0] < b[i]);
        assert(a.to_set().contains(b[0]));
        assert(a.contains(b[0]));
        let j = choose|j: int| 0 <= j < a.len() && a[j] == b[0];
        assert(j > 0 ==> a[0] < a[j]);
        assert(a[0] == b[0]);
        let at = a.drop_first();
        let bt = b.drop_first();
        assert forall|x: usize| at.to_set().contains(x) <==> bt.to_set().contains(x) by {
            if at.contains(x) {
                let k = choose|k: int| 0 <= k < at.len() && at[k] == x;
                assert(a[k + 1] == x);
                assert(a[0] < a[k + 1]);
                assert(a.contains(x));
                assert(a.to_set().contains(x));
                assert(b.to_set().contains(x));
                assert(b.contains(x));
                let m = choose|m: int| 0 <= m < b.len() && b[m] == x;
                assert(m != 0);
                assert(bt[m - 1] == x);
                assert(bt.contains(x));
            }
            if bt.contains(x) {
                let k = choose|k: int| 0 <= k < bt.len() && bt[k] == x;
                assert(b[k + 1] == x);
                assert(b[0] < b[k + 1]);
                assert(b.contains(x));
                assert(b.to_set().contains(x));
                assert(a.to_set().contains(x));
                assert(a.contains(x));
                let m = choose|m: int| 0 <= m < a.len() && a[m] == x;
                assert(m != 0);
                assert(at[m - 1] == x);
                assert(at.contains(x));
            }
        }
        assert(at.to_set() =~= bt.to_set());
        lemma_sorted_unique(at, bt);
        assert forall|i: int| 0 <= i < a.len() implies a[i] == b[i] by {
            if i > 0 {
                assert(a[i] == at[i - 1]);
                assert(b[i] == bt[i - 1]);
            }
        }
        assert(a =~= b);
    }
}

/// An upper bound holds of a concatenation exactly when it holds of both parts.
pub proof fn lemma_all_below_concat(a: Seq<usize>, b: Seq<usize>, x: usize)
    ensures
        all_below(a + b, x) <==> all_below(a, x) && all_below(b, x),
{
    if all_below(a, x) && all_below(b, x) {
        assert forall|i: int| 0 <= i < (a + b).len() implies (a + b)[i] < x by {
            if i < a.len() {
                assert((a + b)[i] == a[i]);
            } else {
                assert((a + b)[i] == b[i - a.len()]);
            }
        }
    }
    if all_below(a + b, x) {
        assert forall|i: int| 0 <= i < a.len() implies a[i] < x by {
            assert((a + b)[i] == a[i]);
        }
        assert forall|i: int| 0 <= i < b.len() implies b[i] < x by {
            assert((a + b)[a.len() + i] == b[i]);
        }
    }
}

/// A lower bound holds of a concatenation exactly when it holds of both parts.
pub proof fn lemma_all_above_concat(a: Seq<usize>, b: Seq<usize>, x: usize)
    ensures
        all_above(a + b, x) <==> all_above(a, x) && all_above(b, x),
{
    if all_above(a, x) && all_above(b, x) {
        assert forall|i: int| 0 <= i < (a + b).len() implies (a + b)[i] > x by {
            if i < a.len() {
                assert((a + b)[i] == a[i]);
            } else {
                assert((a + b)[i] == b[i - a.len()]);
            }
        }
    }
    if all_above(a + b, x) {
        assert forall|i: int| 0 <= i < a.len() implies a[i] > x by {
            assert((a + b)[i] == a[i]);
        }
        assert forall|i: int| 0 <= i < b.len() implies b[i] > x by {
            assert((a + b)[a.len() + i] == b[i]);
        }
    }
}

/// Adding one value below a strict upper bound to a bounded sequence keeps
/// every element below that bound.
pub proof fn lemma_all_below_of_set(a: Seq<usize>, b: Seq<usize>, v: usize, x: usize)
    requires
        b.to_set() == a.to_set().insert(v),
        all_below(a, x),
        v < x,
    ensures
        all_below(b, x),
{
    assert forall|i: int| 0 <= i < b.len() implies b[i] < x by {
        assert(b.contains(b[i]));
        assert(b.to_set().contains(b[i]));
        if b[i] != v {
            assert(a.to_set().contains(b[i]));
            assert(a.contains(b[i]));
            let j = choose|j: int| 0 <= j < a.len() && a[j] == b[i];
            assert(a[j] < x);
        }
    }
}

/// Adding one value above a strict lower bound to a bounded sequence keeps
/// every element above that bound.
pub proof fn lemma_all_above_of_set(a: Seq<usize>, b: Seq<usize>, v: usize, x: usize)
    requires
        b.to_set() == a.to_set().insert(v),
        all_above(a, x),
        v > x,
    ensures
        all_above(b, x),
{
    assert forall|i: int| 0 <= i < b.len() implies b[i] > x by {
        assert(b.contains(b[i]));
        assert(b.to_set().contains(b[i]));
        if b[i] != v {
            assert(a.to_set().contains(b[i]));
            assert(a.contains(b[i]));
            let j = choose|j: int| 0 <= j < a.len() && a[j] == b[i];
            assert(a[j] > x);
        }
    }
}

/// Membership in a concatenation splits into membership in either part.
pub proof fn lemma_concat_contains(a: Seq<usize>, b: Seq<usize>, x: usize)
    ensures
        (a + b).contains(x) <==> a.contains(x) || b.contains(x),
{
    if a.contains(x) {
        let i = choose|i: int| 0 <= i < a.len() && a[i] == x;
        assert((a + b)[i] == x);
    }
    if b.contains(x) {
        let i = choose|i: int| 0 <= i < b.len() && b[i] == x;
        assert((a + b)[a.len() + i] == x);
    }
    if (a + b).contains(x) {
        let i = choose|i: int| 0 <= i < (a + b).len() && (a + b)[i] == x;
        if i < a.len() {
            assert(a[i] == x);
        } else {
            assert(b[i - a.len()] == x);
        }
    }
}

}
