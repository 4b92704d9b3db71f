//! The laws of the free-list discipline, stated and proved over the view
//! algebra that the list operations' contracts use: pushing prepends an
//! address, popping takes the first, and removing splices one address out.

use vstd::prelude::*;

use crate::doubly::removed_view;

verus! {

/// The view of a list after pushing `addrs` onto a list with view `v`, first
/// element first: each push prepends its address, exactly as the push
/// contracts of both list variants state.
pub open spec fn view_after_pushes(v: Seq<u64>, addrs: Seq<u64>) -> Seq<u64>
    decreases addrs.len(),
{
    if addrs.len() == 0 {
        v
    } else {
        view_after_pushes(seq![addrs[0]] + v, addrs.drop_first())
    }
}

/// The view of a list after asking it to remove `removals`, first one first:
/// each removal splices out its address if linked and does nothing otherwise,
/// exactly as `remove`'s contract states.
pub open spec fn view_after_removals(v: Seq<u64>, removals: Seq<u64>) -> Seq<u64>
    decreases removals.len(),
{
    if removals.len() == 0 {
        v
    } else {
        view_after_removals(removed_view(v, removals[0]), removals.drop_first())
    }
}

/// The addresses of `v`, in order, with every address of `removed` left out.
pub open spec fn remaining(v: Seq<u64>, removed: Seq<u64>) -> Seq<u64>
    decreases v.len(),
{
    if v.len() == 0 {
        v
    } else if removed.contains(v[0]) {
        remaining(v.drop_first(), removed)
    } else {
        seq![v[0]] + remaining(v.drop_first(), removed)
    }
}

/// Pushing a run of addresses reverses it in front of the old view.
pub proof fn lemma_pushes_reverse(v: Seq<u64>, addrs: Seq<u64>)
    ensures
        view_after_pushes(v, addrs) == addrs.reverse() + v,
    decreases addrs.len(),
{
    if addrs.len() == 0 {
        assert(addrs.reverse() + v =~= v);
    } else {
        lemma_pushes_reverse(seq![addrs[0]] + v, addrs.drop_first());
        assert(addrs.drop_first().reverse() + (seq![addrs[0]] + v) =~= addrs.reverse() + v);
    }
}

/// LIFO law, for the singly- and the doubly-linked push/pop pair alike: after
/// pushing distinct addresses onto an empty list, with no interleaved pops,
/// the view is their exact reverse. `pop` returns the first of the view and
/// leaves the rest, so the pops return the addresses in exact reverse push
/// order and the list is empty after as many pops as pushes. Distinctness
/// also keeps every push legal: no address pushed is still linked.
pub proof fn lemma_lifo(addrs: Seq<u64>)
    requires
        addrs.no_duplicates(),
    ensures
        view_after_pushes(Seq::empty(), addrs) == addrs.reverse(),
        view_after_pushes(Seq::empty(), addrs).len() == addrs.len(),
        forall|k: int|
            0 <= k < addrs.len() ==> view_after_pushes(Seq::empty(), addrs)[k] == addrs[addrs.len()
                - 1 - k],
        forall|k: int|
            0 <= k < addrs.len() ==> !view_after_pushes(Seq::empty(), addrs.take(k)).contains(
                addrs[k],
            ),
{
    lemma_pushes_reverse(Seq::empty(), addrs);
    assert(addrs.reverse() + Seq::<u64>::empty() =~= addrs.reverse());
    assert forall|k: int| 0 <= k < addrs.len() implies !view_after_pushes(
        Seq::empty(),
        addrs.take(k),
    ).contains(addrs[k]) by {
        lemma_pushes_reverse(Seq::empty(), addrs.take(k));
        let w = view_after_pushes(Seq::<u64>::empty(), addrs.take(k));
        assert(w =~= addrs.take(k).reverse());
        if w.contains(addrs[k]) {
            let i = choose|i: int| 0 <= i < w.len() && w[i] == addrs[k];
            assert(addrs[k - 1 - i] == addrs[k]);
            assert(false);
        }
    }
}

/// A sequence that has lost its first element keeps its distinctness, and no
/// longer holds that element.
proof fn lemma_no_duplicates_drop_first(v: Seq<u64>)
    requires
        v.no_duplicates(),
        v.len() > 0,
    ensures
        v.drop_first().no_duplicates(),
        !v.drop_first().contains(v[0]),
{
    if v.drop_first().contains(v[0]) {
        let i = choose|i: int| 0 <= i < v.drop_first().len() && v.drop_first()[i] == v[0];
        assert(v[i + 1] == v[0]);
        assert(false);
    }
}

/// What is left after filtering is exactly the addresses linked and not
/// removed, and a distinct chain stays distinct.
pub proof fn lemma_remaining_membership(v: Seq<u64>, removed: Seq<u64>)
    ensures
        forall|x: u64|
            #[trigger] remaining(v, removed).contains(x) <==> v.contains(x) && !removed.contains(
                x,
            ),
        v.no_duplicates() ==> remaining(v, removed).no_duplicates(),
    decreases v.len(),
{
    if v.len() == 0 {
    } else {
        let d = v.drop_first();
        lemma_remaining_membership(d, removed);
        assert forall|x: u64| v.contains(x) && !removed.contains(x) implies #[trigger] remaining(
            v,
            removed,
        ).contains(x) by {
            let i = choose|i: int| 0 <= i < v.len() && v[i] == x;
            if i > 0 {
                assert(d[i - 1] == x);
                assert(d.contains(x));
                assert(remaining(d, removed).contains(x));
                let j = choose|j: int|
                    0 <= j < remaining(d, removed).len() && remaining(d, removed)[j] == x;
                if removed.contains(v[0]) {
                    assert(remaining(v, removed)[j] == x);
                } else {
                    assert(remaining(v, removed)[j + 1] == x);
                }
            } else {
                assert(!removed.contains(v[0]));
                assert(remaining(v, removed)[0] == x);
            }
        }
        assert forall|x: u64| #[trigger] remaining(v, removed).contains(x) implies v.contains(x)
            && !removed.contains(x) by {
            let j = choose|j: int|
                0 <= j < remaining(v, removed).len() && remaining(v, removed)[j] == x;
            if removed.contains(v[0]) {
                assert(remaining(d, removed)[j] == x);
                assert(remaining(d, removed).contains(x));
                let i = choose|i: int| 0 <= i < d.len() && d[i] == x;
                assert(v[i + 1] == x);
            } else {
                if j == 0 {
                    assert(v[0] == x);
                } else {
                    assert(remaining(d, removed)[j - 1] == x);
                    assert(remaining(d, removed).contains(x));
                    let i = choose|i: int| 0 <= i < d.len() && d[i] == x;
                    assert(v[i + 1] == x);
                }
            }
        }
        if v.no_duplicates() {
            lemma_no_duplicates_drop_first(v);
            if !removed.contains(v[0]) {
                let r = remaining(v, removed);
                assert forall|a: int, b: int|
                    0 <= a < r.len() && 0 <= b < r.len() && a != b implies r[a] != r[b] by {
                    if a > 0 && b > 0 {
                        assert(r[a] == remaining(d, removed)[a - 1]);
                        assert(r[b] == remaining(d, removed)[b - 1]);
                    } else {
                        let c = if a == 0 {
                            b
                        } else {
                            a
                        };
                        assert(r[c] == remaining(d, removed)[c - 1]);
                        assert(remaining(d, removed).contains(r[c]));
                        assert(d.contains(r[c]));
                        assert(r[c] != v[0]);
                    }
                }
            }
        }
    }
}

/// Filtering by nothing keeps the whole chain.
proof fn lemma_remaining_none(v: Seq<u64>)
    ensures
        remaining(v, Seq::empty()) == v,
    decreases v.len(),
{
    if v.len() > 0 {
        lemma_remaining_none(v.drop_first());
        assert(remaining(v, Seq::empty()) =~= v);
    }
}

/// Filtering cares only about which of the chain's own addresses are named
/// for removal.
proof fn lemma_remaining_same(v: Seq<u64>, r1: Seq<u64>, r2: Seq<u64>)
    requires
        forall|x: u64| v.contains(x) ==> (r1.contains(x) <==> r2.contains(x)),
    ensures
        remaining(v, r1) == remaining(v, r2),
    decreases v.len(),
{
    if v.len() > 0 {
        let d = v.drop_first();
        assert forall|x: u64| d.contains(x) implies (r1.contains(x) <==> r2.contains(x)) by {
            let i = choose|i: int| 0 <= i < d.len() && d[i] == x;
            assert(v[i + 1] == x);
            assert(v.contains(x));
        }
        lemma_remaining_same(d, r1, r2);
        assert(v[0] == v[0] && v.contains(v[0]));
    }
}

/// Filtering twice is filtering by both runs at once.
proof fn lemma_remaining_compose(v: Seq<u64>, r1: Seq<u64>, r2: Seq<u64>)
    ensures
        remaining(remaining(v, r1), r2) == remaining(v, r1 + r2),
    decreases v.len(),
{
    assert forall|x: u64| #[trigger] (r1 + r2).contains(x) implies r1.contains(x) || r2.contains(
        x,
    ) by {
        let i = choose|i: int| 0 <= i < (r1 + r2).len() && (r1 + r2)[i] == x;
        if i < r1.len() {
            assert(r1[i] == x);
        } else {
            assert(r2[i - r1.len()] == x);
        }
    }
    assert forall|x: u64| r1.contains(x) || r2.contains(x) implies #[trigger] (r1 + r2).contains(
        x,
    ) by {
        if r1.contains(x) {
            let i = choose|i: int| 0 <= i < r1.len() && r1[i] == x;
            assert((r1 + r2)[i] == x);
        } else {
            let i = choose|i: int| 0 <= i < r2.len() && r2[i] == x;
            assert((r1 + r2)[r1.len() + i] == x);
        }
    }
    if v.len() > 0 {
        let d = v.drop_first();
        lemma_remaining_compose(d, r1, r2);
        if r1.contains(v[0]) {
        } else if r2.contains(v[0]) {
            assert(remaining(v, r1) == seq![v[0]] + remaining(d, r1));
            assert((seq![v[0]] + remaining(d, r1))[0] == v[0]);
            assert((seq![v[0]] + remaining(d, r1)).drop_first() =~= remaining(d, r1));
        } else {
            assert((seq![v[0]] + remaining(d, r1))[0] == v[0]);
            assert((seq![v[0]] + remaining(d, r1)).drop_first() =~= remaining(d, r1));
            assert(remaining(remaining(v, r1), r2) =~= remaining(v, r1 + r2));
        }
    }
}

/// On a distinct chain, splicing out one linked address is the same as
/// filtering it out.
pub proof fn lemma_removed_view_is_remaining(v: Seq<u64>, a: u64)
    requires
        v.no_duplicates(),
    ensures
        removed_view(v, a) == remaining(v, seq![a]),
    decreases v.len(),
{
    assert(seq![a][0] == a);
    if !v.contains(a) {
        lemma_remaining_same(v, seq![a], Seq::empty());
        lemma_remaining_none(v);
    } else {
        let i = v.index_of(a);
        assert(0 <= i < v.len() && v[i] == a);
        let d = v.drop_first();
        lemma_no_duplicates_drop_first(v);
        if v[0] == a {
            assert(i == 0);
            assert(v.remove(0) =~= d);
            lemma_remaining_same(d, seq![a], Seq::empty());
            lemma_remaining_none(d);
        } else {
            assert(i > 0);
            assert(d[i - 1] == a);
            assert(d.contains(a));
            lemma_removed_view_is_remaining(d, a);
            let j = d.index_of(a);
            assert(0 <= j < d.len() && d[j] == a);
            assert(v[j + 1] == a);
            assert(j == i - 1);
            assert(v.remove(i) =~= seq![v[0]] + d.remove(i - 1));
        }
    }
}

/// Structural integrity under arbitrary-order removal: asking a distinct
/// chain to remove any addresses, in any order, with repeats and never-linked
/// addresses allowed, leaves exactly the chain's other addresses, in their
/// original relative order and still distinct. Draining the result by `pop`
/// therefore yields the remaining addresses most-recent-first, with no gaps,
/// duplicates, or stray addresses.
pub proof fn lemma_arbitrary_order_removal(v: Seq<u64>, removals: Seq<u64>)
    requires
        v.no_duplicates(),
    ensures
        view_after_removals(v, removals) == remaining(v, removals),
        remaining(v, removals).no_duplicates(),
        forall|x: u64|
            #[trigger] remaining(v, removals).contains(x) <==> v.contains(x) && !removals.contains(
                x,
            ),
    decreases removals.len(),
{
    lemma_remaining_membership(v, removals);
    if removals.len() == 0 {
        assert(removals =~= Seq::<u64>::empty());
        lemma_remaining_none(v);
    } else {
        let a = removals[0];
        let rest = removals.drop_first();
        let v1 = removed_view(v, a);
        lemma_removed_view_is_remaining(v, a);
        lemma_remaining_membership(v, seq![a]);
        assert(v1.no_duplicates());
        lemma_arbitrary_order_removal(v1, rest);
        assert(view_after_removals(v, removals) == remaining(v1, rest));
        lemma_remaining_compose(v, seq![a], rest);
        assert(seq![a] + rest =~= removals);
        assert(remaining(v, seq![a] + rest) == remaining(v, removals));
    }
}

/// Idempotent negative removal: asking a distinct chain to remove an address
/// that is not linked — never pushed, or already removed — leaves the view
/// unchanged, and `remove`'s contract then reports failure; in particular a
/// second removal of a just-removed address does nothing.
pub proof fn lemma_negative_removal(v: Seq<u64>, a: u64)
    requires
        v.no_duplicates(),
    ensures
        !v.contains(a) ==> removed_view(v, a) == v,
        !removed_view(v, a).contains(a),
        removed_view(removed_view(v, a), a) == removed_view(v, a),
{
    lemma_round_trip_membership(v, a);
}

/// Round-trip membership: an address just pushed is contained, and an address
/// just removed with success is not.
pub proof fn lemma_round_trip_membership(v: Seq<u64>, a: u64)
    requires
        v.no_duplicates(),
    ensures
        (seq![a] + v).contains(a),
        v.contains(a) ==> !removed_view(v, a).contains(a),
{
    assert((seq![a] + v)[0] == a);
    lemma_removed_view_is_remaining(v, a);
    lemma_remaining_membership(v, seq![a]);
    assert(seq![a][0] == a);
}

} // verus!
