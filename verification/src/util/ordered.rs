//! Increasing lists without repetitions, and the sets whose entries they are.

use std::collections::BTreeSet;
use vstd::laws_cmp;
use vstd::prelude::*;
use vstd::std_specs::btree;

verus! {

/// Every entry is below the next.
pub open spec fn increasing(s: Seq<int>) -> bool {
    forall|i: int, j: int| 0 <= i < j < s.len() ==> s[i] < s[j]
}

/// The increasing list `s` with `x` added, if it is not in it.
pub open spec fn insert(s: Seq<int>, x: int) -> Seq<int>
    decreases s.len(),
{
    if s.len() == 0 {
        seq![x]
    } else if s.last() == x {
        s
    } else if s.last() < x {
        s.push(x)
    } else {
        insert(s.drop_last(), x).push(s.last())
    }
}

/// Inserting keeps the order, and adds the new entry to the old ones.
pub proof fn law_insert_keeps_order(s: Seq<int>, x: int)
    requires
        increasing(s),
    ensures
        increasing(insert(s, x)),
        forall|y: int| #[trigger] insert(s, x).contains(y) <==> s.contains(y) || y == x,
        s.contains(x) ==> insert(s, x) == s,
        !s.contains(x) ==> insert(s, x).len() == s.len() + 1,
    decreases s.len(),
{
    let t = insert(s, x);
    if s.len() == 0 {
        assert(t[0] == x);
    } else if s.last() == x {
        assert(s[s.len() - 1] == x);
    } else if s.last() < x {
        assert forall|y: int| #[trigger] t.contains(y) <==> s.contains(y) || y == x by {
            if s.contains(y) {
                let i = choose|i: int| 0 <= i < s.len() && s[i] == y;
                assert(t[i] == y);
            }
            assert(t[s.len() as int] == x);
        }
        if s.contains(x) {
            let i = choose|i: int| 0 <= i < s.len() && s[i] == x;
            assert(s[i] <= s.last());
        }
    } else {
        let init = s.drop_last();
        let last = s.last();
        assert(increasing(init));
        law_insert_keeps_order(init, x);
        let u = insert(init, x);
        assert forall|i: int, j: int| 0 <= i < j < t.len() implies t[i] < t[j] by {
            assert(u.contains(u[i]));
            if j == u.len() && init.contains(u[i]) {
                let a = choose|a: int| 0 <= a < init.len() && init[a] == u[i];
                assert(s[a] < s[s.len() - 1]);
            }
        }
        assert forall|y: int| #[trigger] t.contains(y) <==> s.contains(y) || y == x by {
            if t.contains(y) {
                let i = choose|i: int| 0 <= i < t.len() && t[i] == y;
                if i < u.len() {
                    assert(u.contains(u[i]));
                    if init.contains(y) {
                        let a = choose|a: int| 0 <= a < init.len() && init[a] == y;
                        assert(s[a] == y);
                    }
                } else {
                    assert(s[s.len() - 1] == y);
                }
            }
            if s.contains(y) || y == x {
                if y == last {
                    assert(t[u.len() as int] == y);
                } else {
                    if s.contains(y) {
                        let a = choose|a: int| 0 <= a < s.len() && s[a] == y;
                        assert(init[a] == y);
                    }
                    assert(u.contains(y));
                    let b = choose|b: int| 0 <= b < u.len() && u[b] == y;
                    assert(t[b] == y);
                }
            }
        }
        if s.contains(x) {
            let a = choose|a: int| 0 <= a < s.len() && s[a] == x;
            assert(init[a] == x);
            assert(t =~= s);
        } else if init.contains(x) {
            let a = choose|a: int| 0 <= a < init.len() && init[a] == x;
            assert(s[a] == x);
        }
    }
}

/// The entries of a list of machine integers.
pub open spec fn ints(s: Seq<i128>) -> Seq<int> {
    s.map_values(|x: i128| x as int)
}

/// Whether `s` is the increasing list of the entries of `set`.
pub open spec fn lists(s: Seq<int>, set: Set<i128>) -> bool {
    &&& increasing(s)
    &&& set.finite()
    &&& set.len() == s.len()
    &&& forall|x: i128| #[trigger] set.contains(x) <==> s.contains(x as int)
    &&& forall|i: int| 0 <= i < s.len() ==> i128::MIN <= #[trigger] s[i] <= i128::MAX
}

/// A set has only one increasing list.
proof fn lemma_lists_once(s: Seq<int>, t: Seq<int>)
    requires
        increasing(s),
        increasing(t),
        forall|x: int| #[trigger] s.contains(x) <==> t.contains(x),
    ensures
        s == t,
    decreases s.len(),
{
    if s.len() == 0 {
        if t.len() > 0 {
            assert(t.contains(t[0]));
            assert(s.contains(t[0]));
        }
        assert(s =~= t);
    } else {
        let a = s.drop_last();
        let last = s.last();
        assert(s.contains(s[s.len() - 1]));
        let j = choose|j: int| 0 <= j < t.len() && t[j] == last;
        assert(t.contains(t[t.len() - 1]));
        assert(s.contains(t[t.len() - 1]));
        let i = choose|i: int| 0 <= i < s.len() && s[i] == t[t.len() - 1];
        assert(t.last() == last);
        let b = t.drop_last();
        assert forall|x: int| #[trigger] a.contains(x) <==> b.contains(x) by {
            if a.contains(x) {
                let i = choose|i: int| 0 <= i < a.len() && a[i] == x;
                assert(s.contains(s[i]));
                let j = choose|j: int| 0 <= j < t.len() && t[j] == x;
                assert(b[j] == x);
            }
            if b.contains(x) {
                let j = choose|j: int| 0 <= j < b.len() && b[j] == x;
                assert(t.contains(t[j]));
                assert(s.contains(x));
                let i = choose|i: int| 0 <= i < s.len() && s[i] == x;
                assert(a[i] == x);
            }
        }
        lemma_lists_once(a, b);
        assert(s =~= a.push(last));
        assert(t =~= b.push(last));
    }
}

/// A list is no longer than another that holds all its entries.
pub proof fn lemma_no_longer(s: Seq<int>, t: Seq<int>)
    requires
        increasing(s),
        increasing(t),
        forall|i: int| 0 <= i < s.len() ==> t.contains(#[trigger] s[i]),
    ensures
        s.len() <= t.len(),
{
    s.unique_seq_to_set();
    t.unique_seq_to_set();
    assert forall|x: int| #[trigger] s.to_set().contains(x) implies t.to_set().contains(x) by {
        let i = choose|i: int| 0 <= i < s.len() && s[i] == x;
        assert(t.contains(s[i]));
    }
    vstd::set_lib::lemma_len_subset(s.to_set(), t.to_set());
}

/// The empty set.
pub(crate) fn no_entries() -> (r: BTreeSet<i128>)
    ensures
        lists(Seq::empty(), r@),
{
    BTreeSet::new()
}

/// Inserts `x`.
fn insert_into(set: &mut BTreeSet<i128>, x: i128)
    ensures
        final(set)@ == old(set)@.insert(x),
{
    broadcast use laws_cmp::group_laws_cmp;

    set.insert(x);
}

/// The number of entries.
fn count_of(set: &BTreeSet<i128>) -> (r: usize)
    ensures
        r == set@.len(),
{
    broadcast use {laws_cmp::group_laws_cmp, btree::group_btree_axioms};

    set.len()
}

/// The entries in the set's own order, which is increasing.
fn entries_of(set: &BTreeSet<i128>) -> (r: Vec<i128>)
    ensures
        r@.to_set() == set@,
        forall|i: int, j: int| 0 <= i < j < r@.len() ==> r@[i] < r@[j],
{
    broadcast use {laws_cmp::group_laws_cmp, btree::group_btree_axioms};

    let ghost all = vstd::std_specs::iter::IteratorSpec::remaining(
        &btree::spec_btree_keys_iter(set),
    );
    proof {
        btree::axiom_spec_btree_keys_iter(set);
        assert(laws_cmp::obeys_cmp::<i128>());
        assert(laws_cmp::obeys_cmp::<&i128>());
    }
    let mut r: Vec<i128> = Vec::new();
    for x in it: set.iter()
        invariant
            it.seq() == all,
            r@ == all.unref().take(it.index()),
    {
        r.push(*x);
        assert(r@ =~= all.unref().take(it.index() + 1));
    }
    assert(r@ =~= all.unref());
    assert forall|i: int, j: int| 0 <= i < j < r@.len() implies r@[i] < r@[j] by {
        assert(btree::increasing_seq(all));
        let (x, y) = (all[i], all[j]);
        assert(vstd::std_specs::cmp::OrdSpec::cmp_spec(&x, &y) is Less);
    }
    r
}

/// Adds `x` to a set.
pub(crate) fn add_entry(set: &mut BTreeSet<i128>, x: i128)
    ensures
        forall|s: Seq<int>| #[trigger]
            lists(s, old(set)@) ==> lists(insert(s, x as int), final(set)@),
{
    insert_into(set, x);
    proof {
        assert forall|s: Seq<int>| #[trigger] lists(s, old(set)@) implies lists(
            insert(s, x as int),
            set@,
        ) by {
            let t = insert(s, x as int);
            law_insert_keeps_order(s, x as int);
            assert forall|i: int| 0 <= i < t.len() implies i128::MIN <= #[trigger] t[i]
                <= i128::MAX by {
                assert(t.contains(t[i]));
                if s.contains(t[i]) {
                    let j = choose|j: int| 0 <= j < s.len() && s[j] == t[i];
                    assert(i128::MIN <= s[j] <= i128::MAX);
                }
            }
            assert(old(set)@.contains(x) <==> s.contains(x as int));
            assert forall|y: i128| #[trigger] set@.contains(y) <==> t.contains(y as int) by {
                assert(old(set)@.contains(y) <==> s.contains(y as int));
            }
        }
    }
}

/// How many entries a set has.
pub(crate) fn num_entries(set: &BTreeSet<i128>) -> (r: usize)
    ensures
        forall|s: Seq<int>| #[trigger] lists(s, set@) ==> r == s.len(),
{
    count_of(set)
}

/// The entries of a set, in increasing order.
pub(crate) fn entries(set: &BTreeSet<i128>) -> (r: Vec<i128>)
    ensures
        forall|s: Seq<int>| #[trigger] lists(s, set@) ==> ints(r@) == s,
{
    let r = entries_of(set);
    proof {
        let t = ints(r@);
        assert forall|s: Seq<int>| #[trigger] lists(s, set@) implies t == s by {
            assert forall|x: int| #[trigger] t.contains(x) <==> s.contains(x) by {
                if t.contains(x) {
                    let i = choose|i: int| 0 <= i < t.len() && t[i] == x;
                    assert(r@.contains(r@[i]));
                    assert(set@.contains(r@[i]));
                }
                if s.contains(x) {
                    let i = choose|i: int| 0 <= i < s.len() && s[i] == x;
                    assert(i128::MIN <= s[i] <= i128::MAX);
                    assert(set@.contains(x as i128));
                    assert(r@.contains(x as i128));
                    let j = choose|j: int| 0 <= j < r@.len() && r@[j] == x as i128;
                    assert(t[j] == x);
                }
            }
            lemma_lists_once(t, s);
        }
    }
    r
}

} // verus!
