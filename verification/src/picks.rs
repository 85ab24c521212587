//! Choosing members of a sequence: which ones are there, and in which order.
use vstd::prelude::*;

verus! {

/// Whether a sequence is what is chosen of another one: exactly the members at the
/// places that are to be kept, each once and in their order. `at` says where each
/// comes from.
pub open spec fn is_pick<A>(
    part: Seq<A>,
    whole: Seq<A>,
    keep: spec_fn(int) -> bool,
    at: Seq<int>,
) -> bool {
    &&& at.len() == part.len()
    &&& forall|a: int, b: int| 0 <= a < b < at.len() ==> #[trigger] at[a] < #[trigger] at[b]
    &&& forall|a: int|
        0 <= a < at.len() ==> 0 <= #[trigger] at[a] < whole.len() && keep(at[a]) && part[a]
            == whole[at[a]]
    &&& forall|i: int| 0 <= i < whole.len() && #[trigger] keep(i) ==> at.contains(i)
}

/// Whether a sequence is what is chosen of another one.
pub open spec fn picked<A>(part: Seq<A>, whole: Seq<A>, keep: spec_fn(int) -> bool) -> bool {
    exists|at: Seq<int>| #[trigger] is_pick(part, whole, keep, at)
}

pub proof fn lemma_pick_none<A>(keep: spec_fn(int) -> bool)
    ensures
        picked(Seq::<A>::empty(), Seq::<A>::empty(), keep),
{
    let none = Seq::<A>::empty();
    let at = Seq::<int>::empty();
    assert(is_pick(none, none, keep, at));
}

/// One member more, which is kept or not.
pub proof fn lemma_pick_more<A>(
    part: Seq<A>,
    whole: Seq<A>,
    keep: spec_fn(int) -> bool,
    more: spec_fn(int) -> bool,
)
    requires
        whole.len() > 0,
        picked(part, whole.drop_last(), keep),
        forall|i: int| 0 <= i < whole.len() - 1 ==> #[trigger] keep(i) == more(i),
    ensures
        picked(
            if more(whole.len() - 1) {
                part.push(whole.last())
            } else {
                part
            },
            whole,
            more,
        ),
{
    let d = whole.drop_last();
    let n = whole.len() - 1;
    let at = choose|at: Seq<int>| #[trigger] is_pick(part, d, keep, at);
    if more(n) {
        let bt = at.push(n);
        let r = part.push(whole.last());
        assert forall|a: int, b: int| 0 <= a < b < bt.len() implies #[trigger] bt[a]
            < #[trigger] bt[b] by {
            assert(bt[a] == at[a]);
            if b < at.len() {
                assert(bt[b] == at[b]);
            }
        }
        assert forall|a: int| 0 <= a < bt.len() implies 0 <= #[trigger] bt[a] < whole.len() && more(
            bt[a],
        ) && r[a] == whole[bt[a]] by {
            if a < at.len() {
                assert(bt[a] == at[a]);
                assert(keep(at[a]));
                assert(d[at[a]] == whole[at[a]]);
            }
        }
        assert forall|i: int| 0 <= i < whole.len() && #[trigger] more(i) implies bt.contains(i) by {
            if i < n {
                assert(keep(i));
                assert(bt[at.index_of(i)] == i);
            } else {
                assert(bt[at.len() as int] == n);
            }
        }
        assert(is_pick(r, whole, more, bt));
    } else {
        assert forall|a: int| 0 <= a < at.len() implies 0 <= #[trigger] at[a] < whole.len() && more(
            at[a],
        ) && part[a] == whole[at[a]] by {
            assert(keep(at[a]));
            assert(d[at[a]] == whole[at[a]]);
        }
        assert forall|i: int| 0 <= i < whole.len() && #[trigger] more(i) implies at.contains(i) by {
            assert(i < n);
            assert(keep(i));
        }
        assert(is_pick(part, whole, more, at));
    }
}

/// What is chosen is there, and what is there was chosen.
pub proof fn lemma_picked_members<A>(
    part: Seq<A>,
    whole: Seq<A>,
    keep: spec_fn(int) -> bool,
    x: A,
)
    requires
        picked(part, whole, keep),
    ensures
        part.contains(x) == (exists|i: int|
            0 <= i < whole.len() && #[trigger] keep(i) && whole[i] == x),
{
    let at = choose|at: Seq<int>| #[trigger] is_pick(part, whole, keep, at);
    if part.contains(x) {
        let a = part.index_of(x);
        assert(keep(at[a]) && whole[at[a]] == x);
    }
    if exists|i: int| 0 <= i < whole.len() && #[trigger] keep(i) && whole[i] == x {
        let i = choose|i: int| 0 <= i < whole.len() && #[trigger] keep(i) && whole[i] == x;
        let a = at.index_of(i);
        assert(at.contains(i));
        assert(part[a] == x);
    }
}

} // verus!
