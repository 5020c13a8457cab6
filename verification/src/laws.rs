//! Ring-wide laws: proved statements that relate the ring operations to one
//! another — the successor rule, the effect of removing nodes, and the way a
//! mutation disturbs only the keys it must.

use vstd::prelude::*;
use crate::digest::position_of;
use crate::label::vnode_label_spec;
use crate::ring::{
    lemma_map_of_dom, lemma_map_of_without, lemma_strict_successor_at,
    lemma_strict_successor_none_iff, lemma_vnode_positions_step, lemma_without_excludes,
    lemma_without_identity, lemma_without_sorted, lemma_without_subset, map_of, owner_entry,
    ring_lookup, ring_map_of, sorted_distinct, strict_successor, vnode_positions, with_node,
    without_positions,
};

verus! {

/// The ring positions of every listed node's virtual replicas, together.
pub open spec fn all_vnode_positions(nodes: Seq<Seq<char>>, v: nat) -> Set<u128> {
    Set::new(
        |p: u128|
            exists|j: int| 0 <= j < nodes.len() && #[trigger] vnode_positions(nodes[j], v).contains(
                p,
            ),
    )
}

/// Determinism: a well-formed ring is determined by the mapping it holds.
/// Two rings that went through the same construction and mutations hold, by
/// those operations' contracts, the same mapping — so they are the same
/// entry sequence, and every lookup answers the same on both.
pub proof fn lemma_ring_determined_by_map(a: Seq<(u128, Seq<char>)>, b: Seq<(u128, Seq<char>)>)
    requires
        sorted_distinct(a),
        sorted_distinct(b),
        map_of(a) == map_of(b),
    ensures
        a == b,
        forall|hp: u128| #[trigger] ring_lookup(a, hp) == ring_lookup(b, hp),
    decreases a.len(),
{
    lemma_map_of_dom(a);
    lemma_map_of_dom(b);
    if a.len() == 0 {
        if b.len() > 0 {
            assert(b[0].0 == b[0].0);
            assert(map_of(b).dom().contains(b[0].0));
            assert(false);
        }
        assert(a =~= b);
    } else if b.len() == 0 {
        assert(a[0].0 == a[0].0);
        assert(map_of(a).dom().contains(a[0].0));
        assert(false);
    } else {
        assert(a[0].0 == a[0].0);
        assert(map_of(a).dom().contains(a[0].0));
        assert(map_of(b).dom().contains(a[0].0));
        let ib = choose|i: int| 0 <= i < b.len() && #[trigger] b[i].0 == a[0].0;
        assert(b[0].0 <= b[ib].0);
        assert(b[0].0 == b[0].0);
        assert(map_of(b).dom().contains(b[0].0));
        assert(map_of(a).dom().contains(b[0].0));
        let ia = choose|i: int| 0 <= i < a.len() && #[trigger] a[i].0 == b[0].0;
        assert(a[0].0 <= a[ia].0);
        assert(a[0].0 == b[0].0);
        assert(map_of(a) == map_of(a.drop_first()).insert(a[0].0, a[0].1));
        assert(map_of(b) == map_of(b.drop_first()).insert(b[0].0, b[0].1));
        assert(map_of(a)[a[0].0] == a[0].1);
        assert(map_of(b)[b[0].0] == b[0].1);
        assert(a[0].1 == b[0].1);
        let ar = a.drop_first();
        let br = b.drop_first();
        assert(sorted_distinct(ar));
        assert(sorted_distinct(br));
        lemma_map_of_dom(ar);
        lemma_map_of_dom(br);
        assert(forall|j: int| 0 <= j < ar.len() ==> #[trigger] ar[j] == a[j + 1]);
        assert(forall|j: int| 0 <= j < br.len() ==> #[trigger] br[j] == b[j + 1]);
        assert(!map_of(ar).dom().contains(a[0].0)) by {
            if map_of(ar).dom().contains(a[0].0) {
                let i = choose|i: int| 0 <= i < ar.len() && #[trigger] ar[i].0 == a[0].0;
                assert(a[0].0 < a[i + 1].0);
                assert(false);
            }
        }
        assert(!map_of(br).dom().contains(b[0].0)) by {
            if map_of(br).dom().contains(b[0].0) {
                let i = choose|i: int| 0 <= i < br.len() && #[trigger] br[i].0 == b[0].0;
                assert(b[0].0 < b[i + 1].0);
                assert(false);
            }
        }
        assert(map_of(ar) =~= map_of(a).remove(a[0].0));
        assert(map_of(br) =~= map_of(b).remove(b[0].0));
        lemma_ring_determined_by_map(ar, br);
        assert(a[0] =~= b[0]);
        assert(a.len() == b.len());
        assert forall|j: int| 0 <= j < a.len() implies #[trigger] a[j] == b[j] by {
            if j > 0 {
                assert(a[j] == ar[j - 1]);
                assert(b[j] == br[j - 1]);
            }
        }
        assert(a =~= b);
    }
}

/// What adding one node does to the mapping, key by key: the node's
/// positions come to map to it, every other key keeps its binding.
pub proof fn lemma_with_node_effect(m: Map<u128, Seq<char>>, node: Seq<char>, v: nat)
    ensures
        forall|k: u128| #[trigger]
            vnode_positions(node, v).contains(k) ==> with_node(m, node, v).dom().contains(k)
                && with_node(m, node, v)[k] == node,
        forall|k: u128|
            !(#[trigger] vnode_positions(node, v).contains(k)) ==> (with_node(
                m,
                node,
                v,
            ).dom().contains(k) <==> m.dom().contains(k)),
        forall|k: u128|
            !(#[trigger] vnode_positions(node, v).contains(k)) && m.dom().contains(k)
                ==> with_node(m, node, v)[k] == m[k],
    decreases v,
{
    if v == 0 {
    } else {
        let vp = (v - 1) as nat;
        lemma_with_node_effect(m, node, vp);
        lemma_vnode_positions_step(node, vp);
        let p = position_of(vnode_label_spec(node, vp));
        let prev = with_node(m, node, vp);
        assert(with_node(m, node, v) == prev.insert(p, node));
        assert(vnode_positions(node, v) == vnode_positions(node, vp).union(set![p]));
        assert forall|k: u128| #[trigger]
            vnode_positions(node, v).contains(k) implies with_node(m, node, v).dom().contains(k)
            && with_node(m, node, v)[k] == node by {
            if k != p {
                assert(vnode_positions(node, vp).contains(k));
            }
        }
    }
}

/// The index of the first entry whose position lies strictly above `hp`.
proof fn first_above_index(es: Seq<(u128, Seq<char>)>, hp: u128) -> (k: int)
    requires
        exists|i: int| 0 <= i < es.len() && #[trigger] es[i].0 > hp,
    ensures
        0 <= k < es.len(),
        es[k].0 > hp,
        forall|j: int| 0 <= j < k ==> #[trigger] es[j].0 <= hp,
    decreases es.len(),
{
    let i0 = choose|i: int| 0 <= i < es.len() && #[trigger] es[i].0 > hp;
    if es[0].0 > hp {
        0
    } else {
        let rest = es.drop_first();
        assert(forall|j: int| 0 <= j < rest.len() ==> #[trigger] rest[j] == es[j + 1]);
        assert(i0 > 0);
        assert(rest[i0 - 1].0 > hp);
        let kr = first_above_index(rest, hp);
        assert forall|j: int| 0 <= j < kr + 1 implies #[trigger] es[j].0 <= hp by {
            if j > 0 {
                assert(es[j] == rest[j - 1]);
            }
        }
        kr + 1
    }
}

/// Deleting positions other than the strict successor's keeps the strict
/// successor.
proof fn lemma_strict_successor_without(es: Seq<(u128, Seq<char>)>, ps: Set<u128>, hp: u128)
    requires
        sorted_distinct(es),
        strict_successor(es, hp) is Some,
        !ps.contains(owner_entry(es, hp).0),
    ensures
        strict_successor(without_positions(es, ps), hp) == strict_successor(es, hp),
    decreases es.len(),
{
    let w = without_positions(es, ps);
    let rest = es.drop_first();
    if es[0].0 > hp {
        assert(w[0] == es[0]);
    } else {
        assert(sorted_distinct(rest));
        assert(strict_successor(es, hp) == strict_successor(rest, hp));
        lemma_strict_successor_without(rest, ps, hp);
        if ps.contains(es[0].0) {
        } else {
            assert(w[0] == es[0]);
            assert(w.drop_first() =~= without_positions(rest, ps));
        }
    }
}

/// Every position a freshly built ring occupies belongs to one of the nodes
/// it was built from.
proof fn lemma_build_covered(nodes: Seq<Seq<char>>, v: nat)
    ensures
        forall|k: u128|
            ring_map_of(nodes, v).dom().contains(k) ==> exists|j: int|
                0 <= j < nodes.len() && #[trigger] vnode_positions(nodes[j], v).contains(k),
    decreases nodes.len(),
{
    if nodes.len() == 0 {
    } else {
        let prefix = nodes.drop_last();
        lemma_build_covered(prefix, v);
        lemma_with_node_effect(ring_map_of(prefix, v), nodes.last(), v);
        assert forall|k: u128| ring_map_of(nodes, v).dom().contains(k) implies exists|j: int|
            0 <= j < nodes.len() && #[trigger] vnode_positions(nodes[j], v).contains(k) by {
            if vnode_positions(nodes.last(), v).contains(k) {
                assert(nodes[nodes.len() - 1] == nodes.last());
                assert(vnode_positions(nodes[nodes.len() - 1], v).contains(k));
            } else {
                assert(ring_map_of(prefix, v).dom().contains(k));
                let j = choose|j: int|
                    0 <= j < prefix.len() && #[trigger] vnode_positions(prefix[j], v).contains(k);
                assert(prefix[j] == nodes[j]);
                assert(vnode_positions(nodes[j], v).contains(k));
            }
        }
    }
}

/// Deleting a set that covers every occupied position empties the ring.
proof fn lemma_without_all(es: Seq<(u128, Seq<char>)>, ps: Set<u128>)
    requires
        forall|i: int| 0 <= i < es.len() ==> ps.contains(#[trigger] es[i].0),
    ensures
        without_positions(es, ps) == Seq::<(u128, Seq<char>)>::empty(),
    decreases es.len(),
{
    if es.len() == 0 {
        assert(without_positions(es, ps) =~= Seq::<(u128, Seq<char>)>::empty());
    } else {
        assert(forall|j: int| 0 <= j < es.drop_first().len() ==> #[trigger] es.drop_first()[j]
            == es[j + 1]);
        lemma_without_all(es.drop_first(), ps);
    }
}

/// Inserting one node's replicas at fresh, pairwise distinct positions grows
/// the mapping by exactly the replica count.
proof fn lemma_with_node_len(m: Map<u128, Seq<char>>, node: Seq<char>, v: nat)
    requires
        m.dom().finite(),
        forall|i: int|
            0 <= i < v ==> !m.dom().contains(
                #[trigger] position_of(vnode_label_spec(node, i as nat)),
            ),
        forall|i1: int, i2: int|
            #![trigger position_of(vnode_label_spec(node, i1 as nat)), position_of(vnode_label_spec(node, i2 as nat))]
            0 <= i1 < i2 < v ==> position_of(vnode_label_spec(node, i1 as nat)) != position_of(
                vnode_label_spec(node, i2 as nat),
            ),
    ensures
        with_node(m, node, v).dom().finite(),
        with_node(m, node, v).dom().len() == m.dom().len() + v,
    decreases v,
{
    if v == 0 {
    } else {
        let vp = (v - 1) as nat;
        lemma_with_node_len(m, node, vp);
        lemma_with_node_effect(m, node, vp);
        let p = position_of(vnode_label_spec(node, vp));
        let prev = with_node(m, node, vp);
        assert(!prev.dom().contains(p)) by {
            if vnode_positions(node, vp).contains(p) {
                let i = choose|i: int|
                    0 <= i < vp && p == #[trigger] position_of(vnode_label_spec(node, i as nat));
                assert(position_of(vnode_label_spec(node, i as nat)) != position_of(
                    vnode_label_spec(node, vp),
                ));
                assert(false);
            }
        }
        assert(with_node(m, node, v).dom() =~= prev.dom().insert(p));
    }
}

/// Building a ring from nodes whose replica positions are pairwise distinct
/// yields one mapping entry per virtual node.
proof fn lemma_ring_map_len(nodes: Seq<Seq<char>>, v: nat)
    requires
        forall|j1: int, i1: int, j2: int, i2: int|
            #![trigger position_of(vnode_label_spec(nodes[j1], i1 as nat)), position_of(vnode_label_spec(nodes[j2], i2 as nat))]
            0 <= j1 < nodes.len() && 0 <= i1 < v && 0 <= j2 < nodes.len() && 0 <= i2 < v && (j1
                != j2 || i1 != i2) ==> position_of(vnode_label_spec(nodes[j1], i1 as nat))
                != position_of(vnode_label_spec(nodes[j2], i2 as nat)),
    ensures
        ring_map_of(nodes, v).dom().finite(),
        ring_map_of(nodes, v).dom().len() == nodes.len() * v,
    decreases nodes.len(),
{
    if nodes.len() == 0 {
        assert(ring_map_of(nodes, v).dom() =~= Set::<u128>::empty());
    } else {
        let prefix = nodes.drop_last();
        let last = nodes.last();
        let jl = nodes.len() - 1;
        assert(nodes[jl] == last);
        assert(forall|j: int| 0 <= j < prefix.len() ==> #[trigger] prefix[j] == nodes[j]);
        lemma_ring_map_len(prefix, v);
        lemma_build_covered(prefix, v);
        let m = ring_map_of(prefix, v);
        assert forall|i: int|
            0 <= i < v implies !m.dom().contains(
            #[trigger] position_of(vnode_label_spec(last, i as nat)),
        ) by {
            let k = position_of(vnode_label_spec(last, i as nat));
            if m.dom().contains(k) {
                let j = choose|j: int|
                    0 <= j < prefix.len() && #[trigger] vnode_positions(prefix[j], v).contains(k);
                let i2 = choose|i2: int|
                    0 <= i2 < v && k == #[trigger] position_of(
                        vnode_label_spec(prefix[j], i2 as nat),
                    );
                assert(prefix[j] == nodes[j]);
                assert(position_of(vnode_label_spec(nodes[j], i2 as nat)) != position_of(
                    vnode_label_spec(nodes[jl], i as nat),
                ));
                assert(false);
            }
        }
        assert forall|i1: int, i2: int|
            #![trigger position_of(vnode_label_spec(last, i1 as nat)), position_of(vnode_label_spec(last, i2 as nat))]
            0 <= i1 < i2 < v implies position_of(vnode_label_spec(last, i1 as nat)) != position_of(
            vnode_label_spec(last, i2 as nat),
        ) by {
            assert(position_of(vnode_label_spec(nodes[jl], i1 as nat)) != position_of(
                vnode_label_spec(nodes[jl], i2 as nat),
            ));
        }
        lemma_with_node_len(m, last, v);
        assert((nodes.len() - 1) * v + v == nodes.len() * v) by (nonlinear_arith);
    }
}

/// A sorted, duplicate-free entry sequence has one entry per mapping key.
proof fn lemma_entries_len(es: Seq<(u128, Seq<char>)>)
    requires
        sorted_distinct(es),
    ensures
        map_of(es).dom().finite(),
        map_of(es).dom().len() == es.len(),
    decreases es.len(),
{
    if es.len() == 0 {
    } else {
        let rest = es.drop_first();
        assert(sorted_distinct(rest));
        assert(forall|j: int| 0 <= j < rest.len() ==> #[trigger] rest[j] == es[j + 1]);
        lemma_entries_len(rest);
        lemma_map_of_dom(rest);
        assert(!map_of(rest).dom().contains(es[0].0)) by {
            if map_of(rest).dom().contains(es[0].0) {
                let i = choose|i: int| 0 <= i < rest.len() && #[trigger] rest[i].0 == es[0].0;
                assert(es[0].0 < es[i + 1].0);
                assert(false);
            }
        }
        assert(map_of(es).dom() =~= map_of(rest).dom().insert(es[0].0));
    }
}

/// Full occupancy: when the replica positions of the nodes a ring was built
/// from are pairwise distinct — no hash collision — the ring occupies
/// exactly one position per virtual node, |nodes| × v in all.
pub proof fn lemma_collision_free_build_size(
    es: Seq<(u128, Seq<char>)>,
    nodes: Seq<Seq<char>>,
    v: nat,
)
    requires
        sorted_distinct(es),
        map_of(es) == ring_map_of(nodes, v),
        forall|j1: int, i1: int, j2: int, i2: int|
            #![trigger position_of(vnode_label_spec(nodes[j1], i1 as nat)), position_of(vnode_label_spec(nodes[j2], i2 as nat))]
            0 <= j1 < nodes.len() && 0 <= i1 < v && 0 <= j2 < nodes.len() && 0 <= i2 < v && (j1
                != j2 || i1 != i2) ==> position_of(vnode_label_spec(nodes[j1], i1 as nat))
                != position_of(vnode_label_spec(nodes[j2], i2 as nat)),
    ensures
        es.len() == nodes.len() * v,
{
    lemma_entries_len(es);
    lemma_ring_map_len(nodes, v);
}

/// Successor correctness: on a ring whose occupied positions all differ from
/// the key's hash, a lookup answers the owner of the smallest occupied
/// position at or above the hash; when the hash lies above every occupied
/// position the lookup wraps to the owner of the smallest one.
pub proof fn lemma_successor_correct(es: Seq<(u128, Seq<char>)>, hp: u128)
    requires
        sorted_distinct(es),
        es.len() > 0,
        forall|i: int| 0 <= i < es.len() ==> #[trigger] es[i].0 != hp,
    ensures
        (exists|i: int| 0 <= i < es.len() && #[trigger] es[i].0 >= hp) ==> exists|k: int|
            0 <= k < es.len() && (#[trigger] es[k].0) >= hp && (forall|j: int|
                0 <= j < k ==> #[trigger] es[j].0 < hp) && ring_lookup(es, hp) == Some(es[k].1),
        (forall|i: int| 0 <= i < es.len() ==> #[trigger] es[i].0 < hp) ==> ring_lookup(es, hp)
            == Some(es[0].1),
{
    if exists|i: int| 0 <= i < es.len() && #[trigger] es[i].0 >= hp {
        let i0 = choose|i: int| 0 <= i < es.len() && #[trigger] es[i].0 >= hp;
        assert(es[i0].0 > hp);
        let k = first_above_index(es, hp);
        lemma_strict_successor_at(es, hp, k);
        assert forall|j: int| 0 <= j < k implies #[trigger] es[j].0 < hp by {
            assert(es[j].0 <= hp);
            assert(es[j].0 != hp);
        }
        assert(0 <= k < es.len() && es[k].0 >= hp && (forall|j: int|
            0 <= j < k ==> #[trigger] es[j].0 < hp) && ring_lookup(es, hp) == Some(es[k].1));
    }
    if forall|i: int| 0 <= i < es.len() ==> #[trigger] es[i].0 < hp {
        lemma_strict_successor_none_iff(es, hp);
        assert(strict_successor(es, hp) is None);
    }
}

/// Emptying contract: once every node a ring was built from has had its
/// positions deleted, no entry is left, and every lookup on what remains
/// answers nothing.
pub proof fn lemma_empty_after_removing_all(
    es: Seq<(u128, Seq<char>)>,
    nodes: Seq<Seq<char>>,
    v: nat,
)
    requires
        sorted_distinct(es),
        map_of(es) == ring_map_of(nodes, v),
    ensures
        without_positions(es, all_vnode_positions(nodes, v)) == Seq::<(u128, Seq<char>)>::empty(),
        forall|hp: u128|
            ring_lookup(without_positions(es, all_vnode_positions(nodes, v)), hp) is None,
{
    let ps = all_vnode_positions(nodes, v);
    lemma_map_of_dom(es);
    lemma_build_covered(nodes, v);
    assert forall|i: int| 0 <= i < es.len() implies ps.contains(#[trigger] es[i].0) by {
        assert(es[i].0 == es[i].0);
        assert(map_of(es).dom().contains(es[i].0));
    }
    lemma_without_all(es, ps);
}

/// Add/remove symmetry: when none of a node's replica positions was already
/// occupied, adding the node and then deleting its positions restores the
/// entry sequence exactly.
pub proof fn lemma_add_then_remove_restores(
    es0: Seq<(u128, Seq<char>)>,
    es1: Seq<(u128, Seq<char>)>,
    node: Seq<char>,
    v: nat,
)
    requires
        sorted_distinct(es0),
        sorted_distinct(es1),
        map_of(es1) == with_node(map_of(es0), node, v),
        forall|i: int|
            0 <= i < v ==> !map_of(es0).dom().contains(
                #[trigger] position_of(vnode_label_spec(node, i as nat)),
            ),
    ensures
        without_positions(es1, vnode_positions(node, v)) == es0,
{
    let ps = vnode_positions(node, v);
    let w = without_positions(es1, ps);
    lemma_without_sorted(es1, ps);
    lemma_map_of_without(es1, ps);
    lemma_with_node_effect(map_of(es0), node, v);
    assert forall|k: u128| #[trigger] ps.contains(k) implies !map_of(es0).dom().contains(k) by {
        let i = choose|i: int|
            0 <= i < v && k == #[trigger] position_of(vnode_label_spec(node, i as nat));
        assert(!map_of(es0).dom().contains(position_of(vnode_label_spec(node, i as nat))));
    }
    assert forall|k: u128| map_of(w).dom().contains(k) implies map_of(es0).dom().contains(k)
        && map_of(w)[k] == map_of(es0)[k] by {
        assert(!ps.contains(k));
    }
    assert forall|k: u128| map_of(es0).dom().contains(k) implies map_of(w).dom().contains(k) by {
        assert(!ps.contains(k));
    }
    assert(map_of(w) =~= map_of(es0));
    lemma_ring_determined_by_map(w, es0);
}

/// Bounded disruption: deleting positions that do not include the one whose
/// owner answers a key leaves that key's lookup unchanged.
pub proof fn lemma_bounded_disruption(es: Seq<(u128, Seq<char>)>, ps: Set<u128>, hp: u128)
    requires
        sorted_distinct(es),
        es.len() > 0,
        !ps.contains(owner_entry(es, hp).0),
    ensures
        ring_lookup(without_positions(es, ps), hp) == ring_lookup(es, hp),
{
    let w = without_positions(es, ps);
    if strict_successor(es, hp) is Some {
        lemma_strict_successor_without(es, ps, hp);
        assert(strict_successor(w, hp) is Some);
        assert(w.len() > 0);
    } else {
        assert(owner_entry(es, hp) == es[0]);
        assert(w[0] == es[0]);
        lemma_strict_successor_none_iff(es, hp);
        lemma_without_subset(es, ps);
        assert forall|j: int| 0 <= j < w.len() implies #[trigger] w[j].0 <= hp by {
            let jj = choose|jj: int| 0 <= jj < es.len() && #[trigger] w[j] == es[jj];
            assert(es[jj].0 <= hp);
        }
        lemma_strict_successor_none_iff(w, hp);
        assert(ring_lookup(w, hp) == Some(es[0].1));
    }
}

/// Idempotent removal: deleting a node's positions a second time changes
/// nothing — the survivors already carry none of them.
pub proof fn lemma_remove_idempotent(es: Seq<(u128, Seq<char>)>, node: Seq<char>, v: nat)
    ensures
        without_positions(
            without_positions(es, vnode_positions(node, v)),
            vnode_positions(node, v),
        ) == without_positions(es, vnode_positions(node, v)),
{
    let ps = vnode_positions(node, v);
    lemma_without_excludes(es, ps);
    lemma_without_identity(without_positions(es, ps), ps);
}

} // verus!
