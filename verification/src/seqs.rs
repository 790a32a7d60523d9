//! Filtering sequences, by a predicate on the items or by a mask of flags.
use vstd::prelude::*;

verus! {

/// The items of `s` that satisfy `pred`, in their order in `s`.
pub open spec fn keep<A>(s: Seq<A>, pred: spec_fn(A) -> bool) -> Seq<A>
    decreases s.len(),
{
    if s.len() == 0 {
        s
    } else {
        (if pred(s[0]) {
            seq![s[0]]
        } else {
            Seq::<A>::empty()
        }) + keep(s.drop_first(), pred)
    }
}

/// The items `s[k]` with `mask[k]` set, in their order in `s`.
pub open spec fn select<A>(s: Seq<A>, mask: Seq<bool>) -> Seq<A>
    decreases s.len(),
{
    if s.len() == 0 {
        s
    } else {
        (if mask[0] {
            seq![s[0]]
        } else {
            Seq::<A>::empty()
        }) + select(s.drop_first(), mask.drop_first())
    }
}

/// Every item that `keep` keeps satisfies the predicate.
pub proof fn lemma_keep_all<A>(s: Seq<A>, pred: spec_fn(A) -> bool)
    ensures
        forall|k: int| 0 <= k < keep(s, pred).len() ==> pred(#[trigger] keep(s, pred)[k]),
    decreases s.len(),
{
    if s.len() > 0 {
        lemma_keep_all(s.drop_first(), pred);
        let head = if pred(s[0]) { seq![s[0]] } else { Seq::<A>::empty() };
        assert forall|k: int| 0 <= k < keep(s, pred).len() implies pred(#[trigger] keep(s, pred)[k]) by {
            if k >= head.len() {
                assert(keep(s, pred)[k] == keep(s.drop_first(), pred)[k - head.len()]);
            }
        }
    }
}

/// Keeping by `p` and then by `q` is keeping by both at once.
pub proof fn lemma_keep_keep<A>(s: Seq<A>, p: spec_fn(A) -> bool, q: spec_fn(A) -> bool)
    ensures
        keep(keep(s, p), q) == keep(s, |x: A| p(x) && q(x)),
    decreases s.len(),
{
    if s.len() > 0 {
        lemma_keep_keep(s.drop_first(), p, q);
        let both = |x: A| p(x) && q(x);
        let rest = keep(s.drop_first(), p);
        if p(s[0]) {
            let kp = seq![s[0]] + rest;
            assert(kp.drop_first() =~= rest);
            assert(kp[0] == s[0]);
        } else {
            assert(Seq::<A>::empty() + rest =~= rest);
        }
    }
}

/// Predicates that agree on every item keep the same items.
pub proof fn lemma_keep_ext<A>(s: Seq<A>, p: spec_fn(A) -> bool, q: spec_fn(A) -> bool)
    requires
        forall|x: A| #[trigger] p(x) == q(x),
    ensures
        keep(s, p) == keep(s, q),
    decreases s.len(),
{
    if s.len() > 0 {
        lemma_keep_ext(s.drop_first(), p, q);
    }
}

/// A predicate that holds of every item keeps them all.
pub proof fn lemma_keep_everything<A>(s: Seq<A>, p: spec_fn(A) -> bool)
    requires
        forall|x: A| #[trigger] p(x),
    ensures
        keep(s, p) == s,
    decreases s.len(),
{
    if s.len() > 0 {
        lemma_keep_everything(s.drop_first(), p);
        assert(seq![s[0]] + s.drop_first() =~= s);
    }
}

/// Every item that `select` keeps is an item of `s`.
pub proof fn lemma_select_within<A>(s: Seq<A>, mask: Seq<bool>)
    requires
        mask.len() == s.len(),
    ensures
        select(s, mask).len() <= s.len(),
        forall|k: int|
            0 <= k < select(s, mask).len() ==> s.contains(#[trigger] select(s, mask)[k]),
    decreases s.len(),
{
    if s.len() > 0 {
        lemma_select_within(s.drop_first(), mask.drop_first());
        let r = select(s, mask);
        let rest = select(s.drop_first(), mask.drop_first());
        let head = if mask[0] { seq![s[0]] } else { Seq::<A>::empty() };
        assert forall|k: int| 0 <= k < r.len() implies s.contains(#[trigger] r[k]) by {
            if k < head.len() {
                assert(r[k] == s[0]);
            } else {
                assert(r[k] == rest[k - head.len()]);
                let m = choose|m: int| 0 <= m < s.drop_first().len() && s.drop_first()[m] == rest[k
                    - head.len()];
                assert(s[m + 1] == r[k]);
            }
        }
    }
}

} // verus!
