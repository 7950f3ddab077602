//! Side tables keyed by heap address, and what a moving collection does to
//! them.

use std::collections::HashMap;
use std::hash::Hash;
use vstd::prelude::*;
use vstd::std_specs::hash::obeys_key_model;

use crate::gc::{RuntimeRootVisitor, VisitorView};

verus! {

broadcast use vstd::std_specs::hash::group_hash_axioms;

/// Does `order` list every key of `keys` once?
pub open spec fn enumerates<K>(order: Seq<K>, keys: Set<K>) -> bool {
    order.no_duplicates() && order.to_set() == keys
}

/// The keys of a table, in the order in which the table yields them.
pub fn table_keys<K: Copy + Eq + Hash, V>(table: &HashMap<K, V>) -> (r: Vec<K>)
    requires
        obeys_key_model::<K>(),
    ensures
        enumerates(r@, table@.dom()),
{
    let mut out: Vec<K> = Vec::new();
    let keys = table.keys();
    let ghost listed = vstd::std_specs::iter::IteratorSpec::remaining(&keys);
    for k in it: keys
        invariant
            it.seq() == listed,
            out@.len() == it.index(),
            forall|i: int| 0 <= i < out@.len() ==> out@[i] == *it.seq()[i],
    {
        out.push(*k);
    }
    proof {
        assert(listed == vstd::std_specs::iter::IteratorSpec::remaining(
            &vstd::std_specs::hash::spec_keys_iter(table),
        ));
        assert(out@ =~= listed.unref());
        assert forall|i: int, j: int| 0 <= i < j < out@.len() implies out@[i] != out@[j] by {
            assert(listed[i] != listed[j]);
        }
    }
    out
}

/// A table after the collector moved its keys: each entry of `order` whose key
/// was moved is taken out and filed under the new address. An entry that was
/// already there is replaced.
pub open spec fn rekeyed<V>(table: Map<usize, V>, order: Seq<usize>, visitor: VisitorView) -> Map<
    usize,
    V,
>
    decreases order.len(),
{
    if order.len() == 0 {
        table
    } else {
        let before = rekeyed(table, order.drop_last(), visitor);
        let from = order.last();
        if visitor.moved(from) != from && before.contains_key(from) {
            before.remove(from).insert(visitor.moved(from), before[from])
        } else {
            before
        }
    }
}

/// Was any of these addresses moved?
pub open spec fn any_moved(order: Seq<usize>, visitor: VisitorView) -> bool {
    exists|i: int| 0 <= i < order.len() && visitor.moved(#[trigger] order[i]) != order[i]
}

/// Moves the entries of a table that the visitor moved, in the given order.
/// Tells whether any key moved.
pub fn rekey_table<V>(
    table: &mut HashMap<usize, V>,
    order: &Vec<usize>,
    visitor: &mut RuntimeRootVisitor,
) -> (moved_any: bool)
    ensures
        final(table)@ == rekeyed(old(table)@, order@, old(visitor)@),
        final(visitor)@ == old(visitor)@,
        moved_any == any_moved(order@, old(visitor)@),
{
    let mut moved_any = false;
    let mut i: usize = 0;
    while i < order.len()
        invariant
            i <= order@.len(),
            visitor@ == old(visitor)@,
            table@ == rekeyed(old(table)@, order@.take(i as int), old(visitor)@),
            moved_any == any_moved(order@.take(i as int), old(visitor)@),
        decreases order@.len() - i,
    {
        let from: usize = order[i];
        let mut to: usize = from;
        proof {
            assert(order@.take(i + 1).drop_last() =~= order@.take(i as int));
        }
        if visitor.visit_metadata_usize_slot(&mut to) {
            moved_any = true;
            if let Some(entry) = table.remove(&from) {
                table.insert(to, entry);
            }
            proof {
                assert(order@.take(i + 1)[i as int] == from);
                assert(table@ =~= rekeyed(old(table)@, order@.take(i + 1), old(visitor)@));
            }
        } else {
            proof {
                if any_moved(order@.take(i + 1), old(visitor)@) {
                    let k = choose|k: int|
                        0 <= k < i + 1 && old(visitor)@.moved(
                            #[trigger] order@.take(i + 1)[k],
                        ) != order@.take(i + 1)[k];
                    assert(order@.take(i as int)[k] == order@.take(i + 1)[k]);
                }
            }
        }
        proof {
            if any_moved(order@.take(i as int), old(visitor)@) {
                let k = choose|k: int|
                    0 <= k < i && old(visitor)@.moved(#[trigger] order@.take(i as int)[k])
                        != order@.take(i as int)[k];
                assert(order@.take(i + 1)[k] == order@.take(i as int)[k]);
            }
        }
        i += 1;
    }
    proof {
        assert(order@.take(i as int) =~= order@);
    }
    moved_any
}

/// No two entries meet when the keys move: no key moves onto another key, and
/// no two keys move to the same address. A copying collector, which moves live
/// cells into free space, gives this.
pub open spec fn moves_apart(keys: Set<usize>, visitor: VisitorView) -> bool {
    &&& forall|a: usize| #[trigger]
        keys.contains(a) && visitor.moved(a) != a ==> !keys.contains(visitor.moved(a))
    &&& forall|a: usize, b: usize| #[trigger]
        keys.contains(a) && #[trigger] keys.contains(b) && visitor.moved(a) == visitor.moved(b)
            ==> a == b
}

/// Moving the keys of a table apart renames them and does nothing else: every
/// entry is found under its new address, nothing else is there, and the order
/// in which the entries were moved does not show.
pub proof fn rekeying_is_renaming<V>(
    table: Map<usize, V>,
    order: Seq<usize>,
    visitor: VisitorView,
)
    requires
        enumerates(order, table.dom()),
        moves_apart(table.dom(), visitor),
    ensures
        forall|a: usize| #[trigger]
            table.contains_key(a) ==> rekeyed(table, order, visitor).contains_key(visitor.moved(a))
                && rekeyed(table, order, visitor)[visitor.moved(a)] == table[a],
        forall|k: usize| #[trigger]
            rekeyed(table, order, visitor).contains_key(k) ==> exists|a: usize| #[trigger]
                table.contains_key(a) && visitor.moved(a) == k,
{
    lemma_rekeyed_prefix(table, order, visitor, order.len() as int);
    assert(order.take(order.len() as int) =~= order);
    let r = rekeyed(table, order, visitor);
    assert forall|a: usize| #[trigger] table.contains_key(a) implies r.contains_key(
        visitor.moved(a),
    ) && r[visitor.moved(a)] == table[a] by {
        assert(order.to_set().contains(a));
        let i = choose|i: int| 0 <= i < order.len() && order[i] == a;
        assert(order[i] == a);
    }
    assert forall|k: usize| #[trigger] r.contains_key(k) implies exists|a: usize| #[trigger]
        table.contains_key(a) && visitor.moved(a) == k by {
        let i = choose|i: int|
            0 <= i < order.len() && k == (if i < order.len() {
                visitor.moved(#[trigger] order[i])
            } else {
                order[i]
            });
        assert(order.to_set().contains(order[i]));
        assert(table.contains_key(order[i]));
    }
}

/// What holds of a table half way through: the first `n` keys are moved.
spec fn rekeyed_upto<V>(
    table: Map<usize, V>,
    order: Seq<usize>,
    visitor: VisitorView,
    n: int,
    r: Map<usize, V>,
) -> bool {
    &&& forall|i: int|
        0 <= i < n ==> {
            let a = #[trigger] order[i];
            &&& r.contains_key(visitor.moved(a))
            &&& r[visitor.moved(a)] == table[a]
        }
    &&& forall|i: int|
        n <= i < order.len() ==> {
            let a = #[trigger] order[i];
            &&& r.contains_key(a)
            &&& r[a] == table[a]
        }
    &&& forall|k: usize| #[trigger]
        r.contains_key(k) ==> exists|i: int|
            0 <= i < order.len() && k == (if i < n {
                visitor.moved(#[trigger] order[i])
            } else {
                order[i]
            })
}

proof fn lemma_rekeyed_prefix<V>(
    table: Map<usize, V>,
    order: Seq<usize>,
    visitor: VisitorView,
    n: int,
)
    requires
        enumerates(order, table.dom()),
        moves_apart(table.dom(), visitor),
        0 <= n <= order.len(),
    ensures
        rekeyed_upto(table, order, visitor, n, rekeyed(table, order.take(n), visitor)),
    decreases n,
{
    assert forall|i: int| 0 <= i < order.len() implies #[trigger] table.contains_key(order[i]) by {
        assert(order.to_set().contains(order[i]));
    }
    if n == 0 {
        assert(order.take(0) =~= Seq::<usize>::empty());
        assert forall|k: usize| #[trigger] table.contains_key(k) implies exists|i: int|
            0 <= i < order.len() && k == (if i < 0 {
                visitor.moved(#[trigger] order[i])
            } else {
                order[i]
            }) by {
            assert(order.to_set().contains(k));
            let i = choose|i: int| 0 <= i < order.len() && order[i] == k;
            assert(order[i] == k);
        }
    } else {
        lemma_rekeyed_prefix(table, order, visitor, n - 1);
        assert(order.take(n).drop_last() =~= order.take(n - 1));
        let before = rekeyed(table, order.take(n - 1), visitor);
        let r = rekeyed(table, order.take(n), visitor);
        let from = order[n - 1];
        assert(before.contains_key(from));
        assert forall|i: int| 0 <= i < n implies ({
            let a = #[trigger] order[i];
            r.contains_key(visitor.moved(a)) && r[visitor.moved(a)] == table[a]
        }) by {
            let a = order[i];
            assert(table.contains_key(a) && table.contains_key(from));
            if i < n - 1 {
                assert(a != from);
                assert(visitor.moved(a) != visitor.moved(from));
                assert(visitor.moved(a) != from);
            }
        }
        assert forall|i: int| n <= i < order.len() implies ({
            let a = #[trigger] order[i];
            r.contains_key(a) && r[a] == table[a]
        }) by {
            let a = order[i];
            assert(table.contains_key(a) && table.contains_key(from));
            assert(a != from);
        }
        assert forall|k: usize| #[trigger] r.contains_key(k) implies exists|i: int|
            0 <= i < order.len() && k == (if i < n {
                visitor.moved(#[trigger] order[i])
            } else {
                order[i]
            }) by {
            if k == visitor.moved(from) {
                assert(order[n - 1] == from);
            } else {
                assert(before.contains_key(k));
                let i = choose|i: int|
                    0 <= i < order.len() && k == (if i < n - 1 {
                        visitor.moved(#[trigger] order[i])
                    } else {
                        order[i]
                    });
                assert(order[i] == order[i]);
                assert(i != n - 1);
            }
        }
    }
}

/// Rekeying looks at keys alone: what the entries are seen as does not matter.
pub proof fn lemma_rekeyed_map_values<V, W>(
    table: Map<usize, V>,
    order: Seq<usize>,
    visitor: VisitorView,
    f: spec_fn(V) -> W,
)
    ensures
        rekeyed(table, order, visitor).map_values(f) == rekeyed(
            table.map_values(f),
            order,
            visitor,
        ),
    decreases order.len(),
{
    if order.len() > 0 {
        lemma_rekeyed_map_values(table, order.drop_last(), visitor, f);
        assert(rekeyed(table, order, visitor).map_values(f) =~= rekeyed(
            table.map_values(f),
            order,
            visitor,
        ));
    }
}

/// Where nothing moved, nothing is rekeyed.
pub proof fn lemma_rekeyed_unmoved<V>(
    table: Map<usize, V>,
    order: Seq<usize>,
    visitor: VisitorView,
)
    requires
        !any_moved(order, visitor),
    ensures
        rekeyed(table, order, visitor) == table,
    decreases order.len(),
{
    if order.len() > 0 {
        let shorter = order.drop_last();
        assert forall|i: int| 0 <= i < shorter.len() implies visitor.moved(#[trigger] shorter[i])
            == shorter[i] by {
            assert(shorter[i] == order[i]);
        }
        lemma_rekeyed_unmoved(table, shorter, visitor);
        assert(order[order.len() - 1] == order.last());
    }
}

} // verus!
