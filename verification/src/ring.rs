//! The consistent-hashing ring.
//!
//! The ring is a sequence of occupied positions, each owned by a physical
//! node, kept sorted ascending by position with no duplicate positions. A
//! key belongs to the owner of the first occupied position strictly greater
//! than the key's hash; if none is greater the ring wraps around to the
//! smallest occupied position. Because the sequence holds one entry per
//! occupied position, the set of sequence elements and the key set of the
//! position mapping coincide at all times.

use vstd::prelude::*;
use crate::digest::{hash_position, position_of};
use crate::label::{vnode_label, vnode_label_spec};

verus! {

/// One occupied position on the ring: the digest of a virtual node's
/// composite label, together with the identifier of the physical node that
/// owns the virtual node.
pub struct RingEntry {
    pub pos: u128,
    pub node: String,
}

/// The mathematical shadow of a stored entry sequence: each entry as a
/// (position, node identifier) pair.
pub open spec fn entries_of(rs: Seq<RingEntry>) -> Seq<(u128, Seq<char>)> {
    rs.map(|i: int, e: RingEntry| (e.pos, e.node@))
}

/// Positions strictly ascending: sorted, with no duplicate position.
pub open spec fn sorted_distinct(es: Seq<(u128, Seq<char>)>) -> bool {
    forall|i: int, j: int| 0 <= i < j < es.len() ==> es[i].0 < es[j].0
}

/// The position -> node mapping that an entry sequence represents. On the
/// duplicate-free sequences the ring maintains, every entry contributes its
/// own key.
pub open spec fn map_of(es: Seq<(u128, Seq<char>)>) -> Map<u128, Seq<char>>
    decreases es.len(),
{
    if es.len() == 0 {
        Map::empty()
    } else {
        map_of(es.drop_first()).insert(es[0].0, es[0].1)
    }
}

/// The ring positions of one node's virtual replicas.
pub open spec fn vnode_positions(node: Seq<char>, v: nat) -> Set<u128> {
    Set::new(
        |p: u128|
            exists|i: int|
                0 <= i < v && p == #[trigger] position_of(vnode_label_spec(node, i as nat)),
    )
}

/// The mapping after one node's virtual replicas are inserted, replica
/// indices ascending; on a position collision the later insertion wins.
pub open spec fn with_node(m: Map<u128, Seq<char>>, node: Seq<char>, v: nat) -> Map<
    u128,
    Seq<char>,
>
    decreases v,
{
    if v == 0 {
        m
    } else {
        with_node(m, node, (v - 1) as nat).insert(
            position_of(vnode_label_spec(node, (v - 1) as nat)),
            node,
        )
    }
}

/// The mapping of a freshly built ring: every node of the list inserted in
/// order, each with `v` virtual replicas.
pub open spec fn ring_map_of(nodes: Seq<Seq<char>>, v: nat) -> Map<u128, Seq<char>>
    decreases nodes.len(),
{
    if nodes.len() == 0 {
        Map::empty()
    } else {
        with_node(ring_map_of(nodes.drop_last(), v), nodes.last(), v)
    }
}

/// The identifiers of a node list, as character sequences.
pub open spec fn node_views(nodes: Seq<String>) -> Seq<Seq<char>> {
    nodes.map(|i: int, n: String| n@)
}

/// The entries that survive deleting every position in `ps`, order kept.
pub open spec fn without_positions(es: Seq<(u128, Seq<char>)>, ps: Set<u128>) -> Seq<
    (u128, Seq<char>),
>
    decreases es.len(),
{
    if es.len() == 0 {
        es
    } else if ps.contains(es[0].0) {
        without_positions(es.drop_first(), ps)
    } else {
        seq![es[0]] + without_positions(es.drop_first(), ps)
    }
}

/// The first entry, scanning by ascending index, whose position is strictly
/// greater than `hp`; `None` when no position is.
pub open spec fn strict_successor(es: Seq<(u128, Seq<char>)>, hp: u128) -> Option<
    (u128, Seq<char>),
>
    decreases es.len(),
{
    if es.len() == 0 {
        None
    } else if es[0].0 > hp {
        Some(es[0])
    } else {
        strict_successor(es.drop_first(), hp)
    }
}

/// The successor rule with wraparound: the owner of the first position
/// strictly greater than `hp`, or the owner of the smallest position when no
/// position is greater, or nothing on an empty ring.
pub open spec fn ring_lookup(es: Seq<(u128, Seq<char>)>, hp: u128) -> Option<Seq<char>> {
    if es.len() == 0 {
        None
    } else {
        match strict_successor(es, hp) {
            Some(e) => Some(e.1),
            None => Some(es[0].1),
        }
    }
}

/// The entry that answers a lookup of `hp` on a non-empty ring: the strict
/// successor, or the first entry after wraparound.
pub open spec fn owner_entry(es: Seq<(u128, Seq<char>)>, hp: u128) -> (u128, Seq<char>)
    recommends
        es.len() > 0,
{
    match strict_successor(es, hp) {
        Some(e) => e,
        None => es[0],
    }
}

proof fn lemma_entries_remove(rs: Seq<RingEntry>, idx: int)
    requires
        0 <= idx < rs.len(),
    ensures
        entries_of(rs.remove(idx)) == entries_of(rs).remove(idx),
{
    assert(entries_of(rs.remove(idx)) =~= entries_of(rs).remove(idx));
}

proof fn lemma_entries_insert(rs: Seq<RingEntry>, idx: int, e: RingEntry)
    requires
        0 <= idx <= rs.len(),
    ensures
        entries_of(rs.insert(idx, e)) == entries_of(rs).insert(idx, (e.pos, e.node@)),
{
    assert(entries_of(rs.insert(idx, e)) =~= entries_of(rs).insert(idx, (e.pos, e.node@)));
}

/// One more replica extends a node's position set by that replica's
/// position.
pub(crate) proof fn lemma_vnode_positions_step(node: Seq<char>, i: nat)
    ensures
        vnode_positions(node, i).union(set![position_of(vnode_label_spec(node, i))])
            == vnode_positions(node, i + 1),
{
    let p = position_of(vnode_label_spec(node, i));
    let lhs = vnode_positions(node, i).union(set![p]);
    let rhs = vnode_positions(node, i + 1);
    assert forall|q: u128| rhs.contains(q) implies lhs.contains(q) by {
        let w = choose|w: int|
            0 <= w < i + 1 && q == #[trigger] position_of(vnode_label_spec(node, w as nat));
        if w < i {
            assert(vnode_positions(node, i).contains(q));
        } else {
            assert(w == i);
            assert(q == p);
        }
    }
    assert forall|q: u128| lhs.contains(q) implies rhs.contains(q) by {
        if vnode_positions(node, i).contains(q) {
            let w = choose|w: int|
                0 <= w < i && q == #[trigger] position_of(vnode_label_spec(node, w as nat));
            assert(0 <= w < i + 1 && q == position_of(vnode_label_spec(node, w as nat)));
        } else {
            assert(q == p);
            let w = i as int;
            assert(0 <= w < i + 1 && q == position_of(vnode_label_spec(node, w as nat)));
        }
    }
    assert(lhs =~= rhs);
}

/// Deleting positions that do not occur leaves the sequence unchanged.
pub(crate) proof fn lemma_without_identity(es: Seq<(u128, Seq<char>)>, ps: Set<u128>)
    requires
        forall|i: int| 0 <= i < es.len() ==> !ps.contains(es[i].0),
    ensures
        without_positions(es, ps) == es,
    decreases es.len(),
{
    if es.len() == 0 {
        assert(without_positions(es, ps) =~= es);
    } else {
        assert(forall|i: int|
            0 <= i < es.drop_first().len() ==> !ps.contains(es.drop_first()[i].0));
        lemma_without_identity(es.drop_first(), ps);
        assert(without_positions(es, ps) =~= es);
    }
}

/// Every surviving entry was an entry of the sequence deleted from.
pub(crate) proof fn lemma_without_subset(es: Seq<(u128, Seq<char>)>, ps: Set<u128>)
    ensures
        forall|i: int|
            0 <= i < without_positions(es, ps).len() ==> exists|j: int|
                0 <= j < es.len() && #[trigger] without_positions(es, ps)[i] == es[j],
    decreases es.len(),
{
    if es.len() == 0 {
    } else {
        lemma_without_subset(es.drop_first(), ps);
        let w = without_positions(es, ps);
        let wr = without_positions(es.drop_first(), ps);
        assert forall|i: int| 0 <= i < w.len() implies exists|j: int|
            0 <= j < es.len() && #[trigger] w[i] == es[j] by {
            if ps.contains(es[0].0) {
                let jr = choose|jr: int|
                    0 <= jr < es.drop_first().len() && wr[i] == es.drop_first()[jr];
                assert(w[i] == es[jr + 1]);
            } else {
                if i == 0 {
                    assert(w[0] == es[0]);
                } else {
                    assert(w[i] == wr[i - 1]);
                    let jr = choose|jr: int|
                        0 <= jr < es.drop_first().len() && wr[i - 1] == es.drop_first()[jr];
                    assert(w[i] == es[jr + 1]);
                }
            }
        }
    }
}

/// Deleting positions keeps the remaining sequence sorted and duplicate-free.
pub(crate) proof fn lemma_without_sorted(es: Seq<(u128, Seq<char>)>, ps: Set<u128>)
    requires
        sorted_distinct(es),
    ensures
        sorted_distinct(without_positions(es, ps)),
    decreases es.len(),
{
    if es.len() == 0 {
    } else {
        let rest = es.drop_first();
        assert(sorted_distinct(rest));
        lemma_without_sorted(rest, ps);
        lemma_without_subset(rest, ps);
        let w = without_positions(es, ps);
        let wr = without_positions(rest, ps);
        if ps.contains(es[0].0) {
        } else {
            assert forall|i: int, j: int| 0 <= i < j < w.len() implies w[i].0 < w[j].0 by {
                if i == 0 {
                    assert(w[j] == wr[j - 1]);
                    let jr = choose|jr: int| 0 <= jr < rest.len() && wr[j - 1] == rest[jr];
                    assert(es[0].0 < rest[jr].0);
                } else {
                    assert(w[i] == wr[i - 1] && w[j] == wr[j - 1]);
                }
            }
        }
    }
}

/// No surviving entry carries a deleted position.
pub(crate) proof fn lemma_without_excludes(es: Seq<(u128, Seq<char>)>, ps: Set<u128>)
    ensures
        forall|i: int|
            0 <= i < without_positions(es, ps).len() ==> !ps.contains(
                without_positions(es, ps)[i].0,
            ),
    decreases es.len(),
{
    if es.len() == 0 {
    } else {
        lemma_without_excludes(es.drop_first(), ps);
        let w = without_positions(es, ps);
        let wr = without_positions(es.drop_first(), ps);
        if !ps.contains(es[0].0) {
            assert(forall|i: int| 1 <= i < w.len() ==> w[i] == wr[i - 1]);
        }
    }
}

/// On a duplicate-free sequence, deleting one occurring position is the same
/// as removing its entry by index.
pub(crate) proof fn lemma_remove_is_without(es: Seq<(u128, Seq<char>)>, idx: int, p: u128)
    requires
        sorted_distinct(es),
        0 <= idx < es.len(),
        es[idx].0 == p,
    ensures
        es.remove(idx) == without_positions(es, set![p]),
    decreases es.len(),
{
    let rest = es.drop_first();
    assert(sorted_distinct(rest));
    if idx == 0 {
        assert(forall|i: int| 0 <= i < rest.len() ==> rest[i].0 != p);
        assert(forall|i: int| 0 <= i < rest.len() ==> !set![p].contains(rest[i].0));
        lemma_without_identity(rest, set![p]);
        assert(es.remove(0) =~= rest);
    } else {
        assert(rest[idx - 1] == es[idx]);
        lemma_remove_is_without(rest, idx - 1, p);
        assert(!set![p].contains(es[0].0));
        assert(es.remove(idx) =~= seq![es[0]] + rest.remove(idx - 1));
    }
}

/// An entry whose position is not deleted survives the deletion — so a ring
/// that still has such an entry stays non-empty.
pub proof fn lemma_without_keeps(es: Seq<(u128, Seq<char>)>, ps: Set<u128>, idx: int)
    requires
        0 <= idx < es.len(),
        !ps.contains(es[idx].0),
    ensures
        exists|k: int|
            0 <= k < without_positions(es, ps).len() && #[trigger] without_positions(es, ps)[k]
                == es[idx],
    decreases es.len(),
{
    let w = without_positions(es, ps);
    let rest = es.drop_first();
    if idx == 0 {
        assert(w[0] == es[idx]);
    } else {
        assert(rest[idx - 1] == es[idx]);
        lemma_without_keeps(rest, ps, idx - 1);
        let wr = without_positions(rest, ps);
        let kr = choose|k: int| 0 <= k < wr.len() && #[trigger] wr[k] == rest[idx - 1];
        if ps.contains(es[0].0) {
            assert(w[kr] == es[idx]);
        } else {
            assert(w[kr + 1] == wr[kr]);
        }
    }
}

/// Deleting one position set and then another is deleting their union.
///
/// Removing several nodes one after another therefore deletes, in all, the
/// union of their virtual-node positions.
pub proof fn lemma_without_compose(es: Seq<(u128, Seq<char>)>, ps1: Set<u128>, ps2: Set<u128>)
    ensures
        without_positions(without_positions(es, ps1), ps2) == without_positions(
            es,
            ps1.union(ps2),
        ),
    decreases es.len(),
{
    if es.len() == 0 {
    } else {
        let rest = es.drop_first();
        lemma_without_compose(rest, ps1, ps2);
        if ps1.contains(es[0].0) {
        } else {
            let w1 = seq![es[0]] + without_positions(rest, ps1);
            assert(w1[0] == es[0]);
            assert(w1.drop_first() =~= without_positions(rest, ps1));
            if ps2.contains(es[0].0) {
            } else {
                assert(without_positions(w1, ps2) =~= without_positions(es, ps1.union(ps2)));
            }
        }
    }
}

/// Deleting positions from the entry sequence deletes the same keys from the
/// mapping it represents.
pub(crate) proof fn lemma_map_of_without(es: Seq<(u128, Seq<char>)>, ps: Set<u128>)
    requires
        sorted_distinct(es),
    ensures
        map_of(without_positions(es, ps)) == map_of(es).remove_keys(ps),
    decreases es.len(),
{
    if es.len() == 0 {
        assert(map_of(without_positions(es, ps)) =~= map_of(es).remove_keys(ps));
    } else {
        let rest = es.drop_first();
        assert(sorted_distinct(rest));
        lemma_map_of_without(rest, ps);
        if ps.contains(es[0].0) {
            assert(map_of(rest).remove_keys(ps) =~= map_of(es).remove_keys(ps));
        } else {
            let w = seq![es[0]] + without_positions(rest, ps);
            assert(w[0] == es[0]);
            assert(w.drop_first() =~= without_positions(rest, ps));
            assert(map_of(w) == map_of(without_positions(rest, ps)).insert(es[0].0, es[0].1));
            assert(map_of(rest).remove_keys(ps).insert(es[0].0, es[0].1) =~= map_of(
                es,
            ).remove_keys(ps));
        }
    }
}

/// A key is in the mapping exactly when some entry carries it.
pub(crate) proof fn lemma_map_of_dom(es: Seq<(u128, Seq<char>)>)
    ensures
        forall|p: u128|
            map_of(es).dom().contains(p) <==> exists|i: int| 0 <= i < es.len() && es[i].0 == p,
    decreases es.len(),
{
    if es.len() == 0 {
    } else {
        let rest = es.drop_first();
        lemma_map_of_dom(rest);
        assert(forall|j: int| 1 <= j < es.len() ==> #[trigger] es[j] == rest[j - 1]);
        assert forall|p: u128| map_of(es).dom().contains(p) implies exists|i: int|
            0 <= i < es.len() && #[trigger] es[i].0 == p by {
            if p == es[0].0 {
                assert(es[0].0 == p);
            } else {
                assert(map_of(rest).dom().contains(p));
                let i = choose|i: int| 0 <= i < rest.len() && #[trigger] rest[i].0 == p;
                assert(es[i + 1].0 == p);
            }
        }
        assert forall|p: u128| (exists|i: int| 0 <= i < es.len() && #[trigger] es[i].0 == p)
            implies map_of(es).dom().contains(p) by {
            let i = choose|i: int| 0 <= i < es.len() && #[trigger] es[i].0 == p;
            if i > 0 {
                assert(rest[i - 1].0 == p);
                assert(map_of(rest).dom().contains(p));
            }
        }
    }
}

/// Inserting an entry with a fresh key, at any index, inserts that key into
/// the represented mapping.
proof fn lemma_map_of_insert(es: Seq<(u128, Seq<char>)>, idx: int, p: u128, n: Seq<char>)
    requires
        0 <= idx <= es.len(),
        forall|i: int| 0 <= i < es.len() ==> es[i].0 != p,
    ensures
        map_of(es.insert(idx, (p, n))) == map_of(es).insert(p, n),
    decreases es.len(),
{
    let es2 = es.insert(idx, (p, n));
    if idx == 0 {
        assert(es2[0] == (p, n));
        assert(es2.drop_first() =~= es);
    } else {
        let rest = es.drop_first();
        assert(forall|i: int| 0 <= i < rest.len() ==> rest[i].0 != p);
        lemma_map_of_insert(rest, idx - 1, p, n);
        assert(es2[0] == es[0]);
        assert(es2.drop_first() =~= rest.insert(idx - 1, (p, n)));
        assert(map_of(es2) == map_of(rest).insert(p, n).insert(es[0].0, es[0].1));
        assert(map_of(rest).insert(p, n).insert(es[0].0, es[0].1) =~= map_of(es).insert(p, n));
    }
}

/// The first entry at or past `k` being the first strictly above `hp` pins
/// the strict successor.
pub(crate) proof fn lemma_strict_successor_at(es: Seq<(u128, Seq<char>)>, hp: u128, k: int)
    requires
        0 <= k < es.len(),
        forall|j: int| 0 <= j < k ==> es[j].0 <= hp,
        es[k].0 > hp,
    ensures
        strict_successor(es, hp) == Some(es[k]),
    decreases k,
{
    if k == 0 {
    } else {
        let rest = es.drop_first();
        assert(rest[k - 1] == es[k]);
        assert(forall|j: int| 0 <= j < k - 1 ==> rest[j].0 <= hp);
        lemma_strict_successor_at(rest, hp, k - 1);
    }
}

/// The strict successor is absent exactly when no position is above `hp`.
pub(crate) proof fn lemma_strict_successor_none_iff(es: Seq<(u128, Seq<char>)>, hp: u128)
    ensures
        strict_successor(es, hp) is None <==> forall|j: int| 0 <= j < es.len() ==> es[j].0 <= hp,
    decreases es.len(),
{
    if es.len() == 0 {
    } else {
        let rest = es.drop_first();
        lemma_strict_successor_none_iff(rest, hp);
        assert(forall|j: int| 1 <= j < es.len() ==> #[trigger] es[j] == rest[j - 1]);
        assert(forall|j: int| 0 <= j < rest.len() ==> #[trigger] rest[j] == es[j + 1]);
        if es[0].0 > hp {
            assert(!(es[0].0 <= hp));
        } else {
            if forall|j: int| 0 <= j < rest.len() ==> #[trigger] rest[j].0 <= hp {
                assert forall|j: int| 0 <= j < es.len() implies #[trigger] es[j].0 <= hp by {
                    if j > 0 {
                        assert(es[j] == rest[j - 1]);
                    }
                }
            }
            if forall|j: int| 0 <= j < es.len() ==> #[trigger] es[j].0 <= hp {
                assert forall|j: int| 0 <= j < rest.len() implies #[trigger] rest[j].0 <= hp by {
                    assert(rest[j] == es[j + 1]);
                }
            }
        }
    }
}

/// The ring: a set of occupied positions, each owned by a physical node,
/// with a fixed per-node virtual replica count.
pub struct ConsistentHashing {
    ring: Vec<RingEntry>,
    virtual_nodes: usize,
}

impl ConsistentHashing {
    /// The occupied positions with their owners, ascending by position.
    pub closed spec fn entries(&self) -> Seq<(u128, Seq<char>)> {
        entries_of(self.ring@)
    }

    /// The configured virtual replica count per physical node.
    pub closed spec fn vcount(&self) -> nat {
        self.virtual_nodes as nat
    }

    /// The position -> node mapping the ring holds.
    pub open spec fn ring_map(&self) -> Map<u128, Seq<char>> {
        map_of(self.entries())
    }

    /// Well-formed: entries strictly ascending by position.
    pub open spec fn wf(&self) -> bool {
        sorted_distinct(self.entries())
    }

    /// Deletes the entry at `pos`, if any; a missing position is a no-op.
    fn remove_position(&mut self, pos: u128)
        requires
            old(self).wf(),
        ensures
            final(self).wf(),
            final(self).virtual_nodes == old(self).virtual_nodes,
            final(self).entries() == without_positions(old(self).entries(), set![pos]),
    {
        let ghost es = self.entries();
        let mut idx: usize = 0;
        while idx < self.ring.len()
            invariant
                self == old(self),
                es == self.entries(),
                sorted_distinct(es),
                idx <= self.ring@.len(),
                es.len() == self.ring@.len(),
                forall|j: int| 0 <= j < idx ==> es[j].0 != pos,
            decreases self.ring@.len() - idx,
        {
            if self.ring[idx].pos == pos {
                self.ring.remove(idx);
                proof {
                    lemma_entries_remove(old(self).ring@, idx as int);
                    lemma_remove_is_without(es, idx as int, pos);
                    lemma_without_sorted(es, set![pos]);
                }
                return;
            }
            idx += 1;
        }
        proof {
            assert(forall|i: int| 0 <= i < es.len() ==> !set![pos].contains(es[i].0));
            lemma_without_identity(es, set![pos]);
        }
    }

    /// Writes `pos -> node` into the ring, keeping the order; an entry
    /// already at `pos` is overwritten (the later write wins).
    fn insert_entry(&mut self, pos: u128, node: String)
        requires
            old(self).wf(),
        ensures
            final(self).wf(),
            final(self).virtual_nodes == old(self).virtual_nodes,
            final(self).ring_map() == old(self).ring_map().insert(pos, node@),
    {
        self.remove_position(pos);
        let ghost es0 = old(self).entries();
        let ghost es = self.entries();
        proof {
            lemma_without_excludes(es0, set![pos]);
            lemma_without_sorted(es0, set![pos]);
            lemma_map_of_without(es0, set![pos]);
        }
        let mut idx: usize = 0;
        while idx < self.ring.len() && self.ring[idx].pos < pos
            invariant
                es == self.entries(),
                self.wf(),
                idx <= self.ring@.len(),
                es.len() == self.ring@.len(),
                forall|j: int| 0 <= j < idx ==> es[j].0 < pos,
            decreases self.ring@.len() - idx,
        {
            idx += 1;
        }
        proof {
            if idx < self.ring@.len() {
                assert(es[idx as int].0 >= pos);
                assert(!set![pos].contains(es[idx as int].0));
                assert(es[idx as int].0 > pos);
            }
        }
        let ghost rs = self.ring@;
        self.ring.insert(idx, RingEntry { pos, node });
        proof {
            let e = RingEntry { pos, node };
            lemma_entries_insert(rs, idx as int, e);
            let es2 = es.insert(idx as int, (pos, node@));
            assert forall|i: int, j: int| 0 <= i < j < es2.len() implies es2[i].0 < es2[j].0 by {
                assert(forall|m: int| 0 <= m < es.len() && m >= idx ==> es[m].0 > pos);
            }
            assert(forall|i: int| 0 <= i < es.len() ==> es[i].0 != pos);
            lemma_map_of_insert(es, idx as int, pos, node@);
            assert(map_of(es0).remove_keys(set![pos]).insert(pos, node@) =~= map_of(es0).insert(
                pos,
                node@,
            ));
        }
    }

    /// Creates a ring over the given nodes, each with `virtual_nodes`
    /// replicas. Nodes are inserted in list order; on a position collision
    /// the later insertion wins.
    pub fn new(nodes: &[String], virtual_nodes: usize) -> (r: ConsistentHashing)
        requires
            virtual_nodes >= 1,
        ensures
            r.wf(),
            r.vcount() == virtual_nodes,
            r.ring_map() == ring_map_of(node_views(nodes@), virtual_nodes as nat),
    {
        let mut r = ConsistentHashing { ring: Vec::new(), virtual_nodes };
        proof {
            assert(r.entries() =~= Seq::<(u128, Seq<char>)>::empty());
            assert(r.ring_map() =~= ring_map_of(node_views(nodes@).take(0), virtual_nodes as nat));
        }
        let ghost views = node_views(nodes@);
        let mut k: usize = 0;
        while k < nodes.len()
            invariant
                r.wf(),
                r.virtual_nodes == virtual_nodes,
                k <= nodes@.len(),
                views == node_views(nodes@),
                views.len() == nodes@.len(),
                r.ring_map() == ring_map_of(views.take(k as int), virtual_nodes as nat),
            decreases nodes@.len() - k,
        {
            r.add_node(&nodes[k]);
            k += 1;
            proof {
                let t = views.take(k as int);
                assert(t.drop_last() =~= views.take(k as int - 1));
                assert(t.last() == views[k as int - 1]);
                assert(views[k as int - 1] == nodes@[k as int - 1]@);
            }
        }
        proof {
            assert(views.take(nodes@.len() as int) =~= views);
        }
        r
    }

    /// Adds one node: its virtual replicas, replica indices ascending, are
    /// hashed and written onto the ring; on a position collision the later
    /// write wins.
    pub fn add_node(&mut self, node: &String)
        requires
            old(self).wf(),
        ensures
            final(self).wf(),
            final(self).vcount() == old(self).vcount(),
            final(self).ring_map() == with_node(
                old(self).ring_map(),
                node@,
                old(self).vcount(),
            ),
    {
        let v = self.virtual_nodes;
        let mut i: usize = 0;
        while i < v
            invariant
                self.wf(),
                self.virtual_nodes == v,
                old(self).virtual_nodes == v,
                i <= v,
                self.ring_map() == with_node(old(self).ring_map(), node@, i as nat),
            decreases v - i,
        {
            let label = vnode_label(node.as_str(), i);
            let p = hash_position(label.as_str());
            self.insert_entry(p, node.clone());
            i += 1;
        }
    }

    /// Removes one node: the positions of its virtual replicas are deleted
    /// from the ring. Removing a node that is not present is a no-op.
    pub fn remove_node(&mut self, node: &String)
        requires
            old(self).wf(),
        ensures
            final(self).wf(),
            final(self).vcount() == old(self).vcount(),
            final(self).entries() == without_positions(
                old(self).entries(),
                vnode_positions(node@, old(self).vcount()),
            ),
            final(self).ring_map() == old(self).ring_map().remove_keys(
                vnode_positions(node@, old(self).vcount()),
            ),
    {
        let ghost es0 = self.entries();
        let v = self.virtual_nodes;
        let mut i: usize = 0;
        proof {
            assert(vnode_positions(node@, 0) =~= Set::<u128>::empty());
            lemma_without_identity(es0, vnode_positions(node@, 0));
        }
        while i < v
            invariant
                self.wf(),
                self.virtual_nodes == v,
                old(self).virtual_nodes == v,
                es0 == old(self).entries(),
                sorted_distinct(es0),
                i <= v,
                self.entries() == without_positions(es0, vnode_positions(node@, i as nat)),
            decreases v - i,
        {
            let label = vnode_label(node.as_str(), i);
            let p = hash_position(label.as_str());
            let ghost before = self.entries();
            self.remove_position(p);
            proof {
                lemma_without_compose(es0, vnode_positions(node@, i as nat), set![p]);
                assert(p == position_of(vnode_label_spec(node@, i as nat)));
                lemma_vnode_positions_step(node@, i as nat);
                assert(vnode_positions(node@, i as nat).union(set![p]) == vnode_positions(
                    node@,
                    (i + 1) as nat,
                ));
            }
            i += 1;
        }
        proof {
            lemma_map_of_without(es0, vnode_positions(node@, v as nat));
        }
    }

    /// Looks a data key up: the key is hashed and the owner of the first
    /// occupied position strictly greater than the key's hash is returned,
    /// wrapping to the smallest occupied position when no position is
    /// greater. An empty ring answers `None`; the ring itself never changes.
    pub fn get_node(&self, data: &String) -> (r: Option<String>)
        requires
            self.wf(),
        ensures
            r is None <==> self.entries().len() == 0,
            (match r {
                Some(n) => Some(n@),
                None => None::<Seq<char>>,
            }) == ring_lookup(self.entries(), position_of(data@)),
    {
        let hp = hash_position(data.as_str());
        let ghost es = self.entries();
        let mut k: usize = 0;
        while k < self.ring.len()
            invariant
                es == self.entries(),
                self.wf(),
                k <= self.ring@.len(),
                es.len() == self.ring@.len(),
                hp == position_of(data@),
                forall|j: int| 0 <= j < k ==> es[j].0 <= hp,
            decreases self.ring@.len() - k,
        {
            if hp < self.ring[k].pos {
                proof {
                    lemma_strict_successor_at(es, hp, k as int);
                }
                return Some(self.ring[k].node.clone());
            }
            k += 1;
        }
        proof {
            lemma_strict_successor_none_iff(es, hp);
        }
        if self.ring.len() > 0 {
            Some(self.ring[0].node.clone())
        } else {
            None
        }
    }

    /// The configured virtual replica count.
    pub fn virtual_node_count(&self) -> (r: usize)
        ensures
            r == self.vcount(),
    {
        self.virtual_nodes
    }

    /// How many positions are occupied.
    pub fn position_count(&self) -> (r: usize)
        ensures
            r == self.entries().len(),
    {
        self.ring.len()
    }
}

} // verus!
