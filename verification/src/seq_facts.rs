//! Facts about filtering sequences that the tables rely on.

use vstd::prelude::*;

verus! {

/// No two entries of `s` share a key.
pub open spec fn distinct_keys<A, K>(s: Seq<A>, key: spec_fn(A) -> K) -> bool {
    forall|i: int, j: int|
        0 <= i < s.len() && 0 <= j < s.len() && i != j ==> key(#[trigger] s[i]) != key(
            #[trigger] s[j],
        )
}

/// Filtering keeps keys distinct, and every kept entry was in `s` and passes `p`.
pub proof fn lemma_filter_distinct<A, K>(s: Seq<A>, p: spec_fn(A) -> bool, key: spec_fn(A) -> K)
    requires
        distinct_keys(s, key),
    ensures
        distinct_keys(s.filter(p), key),
        forall|x: A| #[trigger] s.filter(p).contains(x) ==> s.contains(x) && p(x),
    decreases s.len(),
{
    broadcast use vstd::seq_lib::group_filter_ensures;

    if s.len() > 0 {
        let t = s.drop_last();
        assert(distinct_keys(t, key)) by {
            assert forall|i: int, j: int|
                0 <= i < t.len() && 0 <= j < t.len() && i != j implies key(#[trigger] t[i]) != key(
                #[trigger] t[j],
            ) by {
                assert(key(s[i]) != key(s[j]));
            }
        }
        lemma_filter_distinct(t, p, key);
        let ft = t.filter(p);
        assert(s.filter(p) == if p(s.last()) { ft.push(s.last()) } else { ft }) by {
            reveal(Seq::filter);
        }
        assert forall|x: A| #[trigger] s.filter(p).contains(x) implies s.contains(x) && p(x) by {
            if p(s.last()) && x == s.last() {
                assert(s[s.len() - 1] == x);
            } else {
                if p(s.last()) {
                    let k = choose|k: int| 0 <= k < s.filter(p).len() && s.filter(p)[k] == x;
                    assert(ft[k] == x);
                    assert(ft.contains(x));
                }
                assert(t.contains(x));
                let m = choose|m: int| 0 <= m < t.len() && t[m] == x;
                assert(s[m] == x);
            }
        }
        if p(s.last()) {
            assert forall|k: int| 0 <= k < ft.len() implies key(#[trigger] ft[k]) != key(s.last()) by {
                assert(ft.contains(ft[k]));
                let m = choose|m: int| 0 <= m < t.len() && t[m] == ft[k];
                assert(key(s[m]) != key(s[s.len() - 1]));
            }
            let fs = s.filter(p);
            assert forall|i: int, j: int|
                0 <= i < fs.len() && 0 <= j < fs.len() && i != j implies key(#[trigger] fs[i])
                != key(#[trigger] fs[j]) by {
                if i < ft.len() && j < ft.len() {
                    assert(fs[i] == ft[i] && fs[j] == ft[j]);
                } else if i == ft.len() {
                    assert(fs[j] == ft[j]);
                } else {
                    assert(fs[i] == ft[i]);
                }
            }
        }
    } else {
        assert(s.filter(p) == s) by {
            reveal(Seq::filter);
        }
    }
}

/// Splitting `s` by `p` as a loop does: the entries up to `i + 1` that pass
/// (and those that fail) are those up to `i` and possibly `s[i]`.
pub proof fn lemma_filter_take_step<A>(s: Seq<A>, p: spec_fn(A) -> bool, i: int)
    requires
        0 <= i < s.len(),
    ensures
        s.take(i + 1).filter(p) == if p(s[i]) {
            s.take(i).filter(p).push(s[i])
        } else {
            s.take(i).filter(p)
        },
{
    assert(s.take(i + 1).drop_last() =~= s.take(i));
    reveal(Seq::filter);
}

/// Nothing passes in an empty prefix, and the whole prefix is `s`.
pub proof fn lemma_filter_take_ends<A>(s: Seq<A>, p: spec_fn(A) -> bool)
    ensures
        s.take(0).filter(p) == Seq::<A>::empty(),
        s.take(s.len() as int) == s,
{
    assert(s.take(0) =~= Seq::<A>::empty());
    assert(s.take(s.len() as int) =~= s);
    reveal(Seq::filter);
}

} // verus!
