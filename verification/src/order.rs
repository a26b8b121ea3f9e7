//! Ascending sequences of numbers.
use vstd::prelude::*;
use vstd::std_specs::cmp::OrdSpec;

verus! {

/// Whether each number of the sequence is smaller than those behind it.
pub open spec fn is_ascending(ids: Seq<u64>) -> bool {
    forall|i: int, j: int| 0 <= i < j < ids.len() ==> ids[i] < ids[j]
}

/// The numbers of a finite set in ascending order.
pub open spec fn ascending(ids: Set<u64>) -> Seq<u64> {
    choose|s: Seq<u64>| is_ascending(s) && #[trigger] s.to_set() == ids
}

/// The first number of the sequence that does not satisfy `ok`.
pub open spec fn first_not(ids: Seq<u64>, ok: spec_fn(u64) -> bool) -> Option<u64>
    decreases ids.len(),
{
    if ids.len() == 0 {
        None
    } else if !ok(ids[0]) {
        Some(ids[0])
    } else {
        first_not(ids.drop_first(), ok)
    }
}

/// If the numbers before position `i` satisfy `ok`, and the one there does not, it is the first.
pub proof fn lemma_first_not(ids: Seq<u64>, ok: spec_fn(u64) -> bool, i: int)
    requires
        0 <= i < ids.len(),
        forall|j: int| 0 <= j < i ==> ok(#[trigger] ids[j]),
        !ok(ids[i]),
    ensures
        first_not(ids, ok) == Some(ids[i]),
    decreases ids.len(),
{
    if i > 0 {
        let rest = ids.drop_first();
        assert forall|j: int| 0 <= j < i - 1 implies ok(#[trigger] rest[j]) by {
            assert(rest[j] == ids[j + 1]);
        }
        assert(ok(ids[0]));
        lemma_first_not(rest, ok, i - 1);
    }
}

/// If all numbers satisfy `ok`, there is no first that does not, and the other way round.
pub proof fn lemma_first_not_none(ids: Seq<u64>, ok: spec_fn(u64) -> bool)
    ensures
        first_not(ids, ok) is None <==> forall|j: int|
            0 <= j < ids.len() ==> ok(#[trigger] ids[j]),
    decreases ids.len(),
{
    if ids.len() > 0 {
        let rest = ids.drop_first();
        lemma_first_not_none(rest, ok);
        if forall|j: int| 0 <= j < ids.len() ==> ok(#[trigger] ids[j]) {
            assert forall|j: int| 0 <= j < rest.len() implies ok(#[trigger] rest[j]) by {
                assert(rest[j] == ids[j + 1]);
            }
        }
        if first_not(ids, ok) is None {
            assert forall|j: int| 0 <= j < ids.len() implies ok(#[trigger] ids[j]) by {
                if j > 0 {
                    assert(ids[j] == rest[j - 1]);
                }
            }
        }
    }
}

/// Picking items out of a sequence, one item further.
pub proof fn lemma_filter_step<A>(ids: Seq<A>, pick: spec_fn(A) -> bool, i: int)
    requires
        0 <= i < ids.len(),
    ensures
        ids.take(i + 1).filter(pick) == (if pick(ids[i]) {
            ids.take(i).filter(pick).push(ids[i])
        } else {
            ids.take(i).filter(pick)
        }),
{
    reveal(Seq::filter);
    assert(ids.take(i + 1).drop_last() =~= ids.take(i));
}

/// What is picked out of an ascending sequence ascends, and is all that is to be picked.
pub proof fn lemma_filter_ascending(ids: Seq<u64>, pick: spec_fn(u64) -> bool)
    requires
        is_ascending(ids),
    ensures
        is_ascending(ids.filter(pick)),
        forall|id: u64| #[trigger]
            ids.filter(pick).contains(id) <==> ids.contains(id) && pick(id),
    decreases ids.len(),
{
    reveal(Seq::filter);
    if ids.len() > 0 {
        let rest = ids.drop_last();
        lemma_filter_ascending(rest, pick);
        let picked = rest.filter(pick);
        assert forall|id: u64| ids.contains(id) <==> rest.contains(id) || id == ids.last() by {
            if ids.contains(id) {
                let i = choose|i: int| 0 <= i < ids.len() && ids[i] == id;
                if i < rest.len() {
                    assert(rest[i] == id);
                }
            }
            if rest.contains(id) {
                let i = choose|i: int| 0 <= i < rest.len() && rest[i] == id;
                assert(ids[i] == id);
            }
            assert(ids[ids.len() - 1] == ids.last());
        }
        if pick(ids.last()) {
            let all = ids.filter(pick);
            assert(all == picked.push(ids.last()));
            assert forall|i: int, j: int| 0 <= i < j < all.len() implies all[i] < all[j] by {
                if j == all.len() - 1 {
                    assert(picked.contains(picked[i]));
                    assert(rest.contains(picked[i]));
                    let k = choose|k: int| 0 <= k < rest.len() && rest[k] == picked[i];
                    assert(ids[k] < ids.last());
                }
            }
            assert forall|id: u64| all.contains(id) <==> picked.contains(id) || id
                == ids.last() by {
                if all.contains(id) {
                    let i = choose|i: int| 0 <= i < all.len() && all[i] == id;
                    if i < picked.len() {
                        assert(picked[i] == id);
                    }
                }
                if picked.contains(id) {
                    let i = choose|i: int| 0 <= i < picked.len() && picked[i] == id;
                    assert(all[i] == id);
                }
                assert(all[all.len() - 1] == ids.last());
            }
        }
    }
}

/// The ascending sequence of a finite set exists: it ascends, and holds the numbers of the set.
pub proof fn lemma_ascending_of_finite(ids: Set<u64>)
    requires
        ids.finite(),
    ensures
        is_ascending(ascending(ids)),
        ascending(ids).to_set() == ids,
    decreases ids.len(),
{
    if ids.len() == 0 {
        assert(Seq::<u64>::empty().to_set() =~= ids);
        assert(is_ascending(Seq::<u64>::empty()));
    } else {
        let greatest = lemma_greatest(ids);
        let rest = ids.remove(greatest);
        lemma_ascending_of_finite(rest);
        let s = ascending(rest).push(greatest);
        assert forall|i: int, j: int| 0 <= i < j < s.len() implies s[i] < s[j] by {
            assert(ascending(rest).to_set().contains(ascending(rest)[i]));
        }
        assert(s.to_set() =~= ids) by {
            assert forall|id: u64| s.contains(id) <==> ids.contains(id) by {
                if ids.contains(id) && id != greatest {
                    assert(ascending(rest).to_set().contains(id));
                    let i = choose|i: int|
                        0 <= i < ascending(rest).len() && ascending(rest)[i] == id;
                    assert(s[i] == id);
                }
                if s.contains(id) {
                    let i = choose|i: int| 0 <= i < s.len() && s[i] == id;
                    if i < ascending(rest).len() {
                        assert(ascending(rest).to_set().contains(ascending(rest)[i]));
                    }
                }
                assert(s[s.len() - 1] == greatest);
            }
        }
    }
}

/// A finite set that is not empty has a greatest number.
proof fn lemma_greatest(ids: Set<u64>) -> (greatest: u64)
    requires
        ids.finite(),
        ids.len() > 0,
    ensures
        ids.contains(greatest),
        forall|id: u64| ids.contains(id) ==> id <= greatest,
    decreases ids.len(),
{
    let one = ids.choose();
    let rest = ids.remove(one);
    if rest.len() == 0 {
        assert forall|id: u64| ids.contains(id) implies id <= one by {
            if id != one {
                assert(rest.contains(id));
            }
        }
        one
    } else {
        let other = lemma_greatest(rest);
        let greatest = if one > other {
            one
        } else {
            other
        };
        assert forall|id: u64| ids.contains(id) implies id <= greatest by {
            if id != one {
                assert(rest.contains(id));
            }
        }
        greatest
    }
}

/// Two ascending sequences of the same numbers are the same sequence.
pub proof fn lemma_ascending_unique(a: Seq<u64>, b: Seq<u64>)
    requires
        is_ascending(a),
        is_ascending(b),
        a.to_set() == b.to_set(),
    ensures
        a == b,
    decreases a.len(),
{
    if a.len() == 0 {
        if b.len() != 0 {
            assert(b.to_set().contains(b[0]));
            assert(a.contains(b[0]));
        }
        assert(a =~= b);
    } else {
        assert(a.to_set().contains(a.last()));
        assert(b.contains(a.last()));
        assert(b.to_set().contains(b.last()));
        assert(a.contains(b.last()));
        assert(a.last() == b.last());
        let x = a.drop_last();
        let y = b.drop_last();
        assert(x.to_set() =~= y.to_set()) by {
            assert forall|v: u64| x.contains(v) implies y.contains(v) by {
                let i = choose|i: int| 0 <= i < x.len() && x[i] == v;
                assert(a[i] == v);
                assert(a.to_set().contains(v));
                assert(b.contains(v));
                let j = choose|j: int| 0 <= j < b.len() && b[j] == v;
                assert(b[j] < b.last());
                assert(y[j] == v);
            }
            assert forall|v: u64| y.contains(v) implies x.contains(v) by {
                let j = choose|j: int| 0 <= j < y.len() && y[j] == v;
                assert(b[j] == v);
                assert(b.to_set().contains(v));
                assert(a.contains(v));
                let i = choose|i: int| 0 <= i < a.len() && a[i] == v;
                assert(a[i] < a.last());
                assert(x[i] == v);
            }
        }
        lemma_ascending_unique(x, y);
        assert(a =~= x.push(a.last()));
        assert(b =~= y.push(b.last()));
    }
}

/// A sequence that ascends is the ascending sequence of its numbers.
pub proof fn lemma_ascending_is(s: Seq<u64>)
    requires
        is_ascending(s),
    ensures
        ascending(s.to_set()) == s,
{
    lemma_ascending_unique(ascending(s.to_set()), s);
}

/// Keys that come in increasing order ascend.
pub proof fn lemma_increasing_is_ascending(keys: Seq<u64>)
    requires
        vstd::std_specs::btree::increasing_seq(keys),
    ensures
        is_ascending(keys),
{
    assert forall|i: int, j: int| 0 <= i < j < keys.len() implies keys[i] < keys[j] by {
        assert(keys[i].cmp_spec(&keys[j]) is Less);
    }
}

/// References to numbers that come in increasing order refer to numbers that ascend.
pub proof fn lemma_increasing_refs_ascend(keys: Seq<&u64>)
    requires
        vstd::std_specs::btree::increasing_seq(keys),
    ensures
        is_ascending(keys.unref()),
{
    reveal(vstd::laws_eq::obeys_eq_spec_properties);
    reveal(vstd::laws_cmp::obeys_partial_cmp_spec_properties);
    reveal(vstd::laws_cmp::obeys_cmp_partial_ord);
    reveal(vstd::laws_cmp::obeys_cmp_ord);
    assert(vstd::laws_cmp::obeys_cmp::<&u64>());
    assert forall|i: int, j: int| 0 <= i < j < keys.len() implies *keys[i] < *keys[j] by {
        assert(OrdSpec::cmp_spec(&keys[i], &keys[j]) is Less);
    }
}

} // verus!
