//! What holds of the ring across several operations.

use vstd::prelude::*;
use vstd::std_specs::cmp::PartialEqSpec;
use vstd::utf8::encode_utf8;

use crate::digest::sha256_digest;
use crate::ring::consistent_hash::{
    big_endian, clockwise, distinct, has_vnode, increasing, lemma_clockwise,
    lemma_filter_increasing, lemma_slot_at, lists, map_without, member_of, members, nodes_of,
    placed, preference, primary, ring_hash, slot_map, vnode_name, with_node, without_node, HashRing,
    Member, Node, Slots,
};
use crate::seqs::{at_most, lemma_filter_map, lemma_filter_nothing, lemma_filter_source};
use crate::text::decimal;

verus! {

/// Listing physical nodes once: no id is listed twice, just the ids that occur
/// are listed, and the first node stays first.
pub proof fn law_distinct_lists_each_id_once(nodes: Seq<Member>)
    ensures
        forall|i: int, j: int| #![trigger distinct(nodes)[i], distinct(nodes)[j]]
            0 <= i < j < distinct(nodes).len() ==> distinct(nodes)[i].id != distinct(nodes)[j].id,
        forall|id: Seq<char>| #[trigger] lists(distinct(nodes), id) == lists(nodes, id),
        forall|i: int|
            0 <= i < distinct(nodes).len() ==> nodes.contains(#[trigger] distinct(nodes)[i]),
        nodes.len() > 0 ==> distinct(nodes).len() > 0 && distinct(nodes)[0] == nodes[0],
    decreases nodes.len(),
{
    if nodes.len() > 0 {
        let init = nodes.drop_last();
        let before = distinct(init);
        let all = distinct(nodes);
        law_distinct_lists_each_id_once(init);
        assert forall|id: Seq<char>| #[trigger] lists(all, id) == lists(nodes, id) by {
            assert(lists(before, id) == lists(init, id));
            if lists(init, id) {
                let i = choose|i: int| 0 <= i < init.len() && (#[trigger] init[i]).id == id;
                assert(nodes[i].id == id);
            }
            if lists(nodes, id) {
                let i = choose|i: int| 0 <= i < nodes.len() && (#[trigger] nodes[i]).id == id;
                if i < init.len() {
                    assert(init[i].id == id);
                }
            }
            if lists(before, id) {
                let i = choose|i: int| 0 <= i < before.len() && (#[trigger] before[i]).id == id;
                assert(all[i].id == id);
            }
            if lists(all, id) {
                let i = choose|i: int| 0 <= i < all.len() && (#[trigger] all[i]).id == id;
                if i < before.len() {
                    assert(before[i].id == id);
                } else {
                    assert(nodes[nodes.len() - 1].id == id);
                }
            }
            if nodes.last().id == id && !lists(before, id) {
                assert(all[before.len() as int].id == id);
            }
        }
        assert forall|i: int| 0 <= i < all.len() implies nodes.contains(#[trigger] all[i]) by {
            if i < before.len() {
                assert(init.contains(before[i]));
                let k = choose|k: int| 0 <= k < init.len() && init[k] == before[i];
                assert(nodes[k] == all[i]);
            } else {
                assert(nodes[nodes.len() - 1] == all[i]);
            }
        }
        assert forall|i: int, j: int| #![trigger all[i], all[j]]
            0 <= i < j < all.len() implies all[i].id != all[j].id by {
            if j < before.len() {
                assert(before[i].id != before[j].id);
            } else {
                assert(before[i].id == all[i].id);
                assert(!lists(before, nodes.last().id));
            }
        }
        if init.len() > 0 {
            assert(before[0] == init[0]);
        }
    }
}

/// The walk from any position meets the slots of the ring and no others.
proof fn lemma_walk_has(slots: Seq<(u64, Member)>, hash: u64, slot: (u64, Member))
    ensures
        clockwise(slots, hash).contains(slot) <==> slots.contains(slot),
        clockwise(slots, hash).len() == slots.len(),
{
    broadcast use vstd::seq_lib::group_filter_ensures;

    let from = |s: (u64, Member)| s.0 >= hash;
    let to = |s: (u64, Member)| s.0 < hash;
    let (a, b) = (slots.filter(from), slots.filter(to));
    let walk = clockwise(slots, hash);
    if walk.contains(slot) {
        let i = choose|i: int| 0 <= i < walk.len() && walk[i] == slot;
        if i < a.len() {
            lemma_filter_source(slots, from, i);
        } else {
            assert(walk[i] == b[i - a.len()]);
            lemma_filter_source(slots, to, i - a.len());
        }
    }
    if slots.contains(slot) {
        let i = choose|i: int| 0 <= i < slots.len() && slots[i] == slot;
        if slot.0 >= hash {
            assert(a.contains(slots[i]));
            let k = choose|k: int| 0 <= k < a.len() && a[k] == slot;
            assert(walk[k] == slot);
        } else {
            assert(b.contains(slots[i]));
            let k = choose|k: int| 0 <= k < b.len() && b[k] == slot;
            assert(walk[a.len() + k] == slot);
        }
    }
    lemma_split_len(slots, hash);
}

/// Every slot is at or after a position, or before it.
proof fn lemma_split_len(slots: Seq<(u64, Member)>, hash: u64)
    ensures
        slots.filter(|s: (u64, Member)| s.0 >= hash).len() + slots.filter(
            |s: (u64, Member)| s.0 < hash,
        ).len() == slots.len(),
    decreases slots.len(),
{
    reveal(Seq::filter);
    if slots.len() > 0 {
        lemma_split_len(slots.drop_last(), hash);
    }
}

/// The walk from any position meets every physical node of the ring, and no
/// other.
pub proof fn law_walk_meets_every_node(slots: Seq<(u64, Member)>, hash: u64, id: Seq<char>)
    ensures
        lists(preference(slots, hash), id) == lists(distinct(members(slots)), id),
        preference(slots, hash).len() == distinct(members(slots)).len(),
{
    let walk = members(clockwise(slots, hash));
    let all = members(slots);
    law_distinct_lists_each_id_once(walk);
    law_distinct_lists_each_id_once(all);
    assert forall|id: Seq<char>| #[trigger] lists(walk, id) == lists(all, id) by {
        if lists(walk, id) {
            let i = choose|i: int| 0 <= i < walk.len() && (#[trigger] walk[i]).id == id;
            let slot = clockwise(slots, hash)[i];
            lemma_walk_has(slots, hash, slot);
            assert(clockwise(slots, hash).contains(slot));
            let k = choose|k: int| 0 <= k < slots.len() && slots[k] == slot;
            assert(all[k].id == id);
        }
        if lists(all, id) {
            let k = choose|k: int| 0 <= k < all.len() && (#[trigger] all[k]).id == id;
            let slot = slots[k];
            lemma_walk_has(slots, hash, slot);
            assert(slots.contains(slot));
            let i = choose|i: int|
                0 <= i < clockwise(slots, hash).len() && clockwise(slots, hash)[i] == slot;
            assert(walk[i].id == id);
        }
    }
    lemma_same_ids(distinct(walk), distinct(all));
    assert(lists(walk, id) == lists(all, id));
}

/// Two lists with the same ids, each once, are equally long.
proof fn lemma_same_ids(a: Seq<Member>, b: Seq<Member>)
    requires
        forall|i: int, j: int| #![trigger a[i], a[j]] 0 <= i < j < a.len() ==> a[i].id != a[j].id,
        forall|i: int, j: int| #![trigger b[i], b[j]] 0 <= i < j < b.len() ==> b[i].id != b[j].id,
        forall|id: Seq<char>| #[trigger] lists(a, id) == lists(b, id),
    ensures
        a.len() == b.len(),
{
    let name = |m: Member| m.id;
    let (x, y) = (a.map_values(name), b.map_values(name));
    assert(x.no_duplicates());
    assert(y.no_duplicates());
    assert forall|id: Seq<char>| #[trigger] x.to_set().contains(id) == y.to_set().contains(id) by {
        assert(lists(a, id) == lists(b, id));
        if x.contains(id) {
            let i = choose|i: int| 0 <= i < x.len() && x[i] == id;
            assert(a[i].id == id);
            let k = choose|k: int| 0 <= k < b.len() && (#[trigger] b[k]).id == id;
            assert(y[k] == id);
        }
        if y.contains(id) {
            let i = choose|i: int| 0 <= i < y.len() && y[i] == id;
            assert(b[i].id == id);
            let k = choose|k: int| 0 <= k < a.len() && (#[trigger] a[k]).id == id;
            assert(x[k] == id);
        }
    }
    assert(x.to_set() =~= y.to_set());
    x.unique_seq_to_set();
    y.unique_seq_to_set();
}

/// A preference list has as many nodes as the replication factor asks for, or
/// all physical nodes where there are fewer; none twice; and it starts with
/// the primary node.
pub proof fn law_preference_list(slots: Seq<(u64, Member)>, hash: u64, factor: u32)
    ensures
        ({
            let list = at_most(preference(slots, hash), factor as int);
            let n = distinct(members(slots)).len();
            &&& list.len() == if factor < n {
                factor as nat
            } else {
                n
            }
            &&& forall|i: int, j: int| #![trigger list[i], list[j]]
                0 <= i < j < list.len() ==> list[i].id != list[j].id
            &&& slots.len() > 0 && factor > 0 ==> primary(slots, hash) == Some(list[0])
            &&& list.len() > 0 ==> slots.len() > 0
        }),
{
    let walk = members(clockwise(slots, hash));
    let all = preference(slots, hash);
    let list = at_most(all, factor as int);
    law_walk_meets_every_node(slots, hash, Seq::empty());
    law_distinct_lists_each_id_once(walk);
    assert forall|i: int, j: int| #![trigger list[i], list[j]]
        0 <= i < j < list.len() implies list[i].id != list[j].id by {
        assert(all[i].id != all[j].id);
    }
    lemma_walk_has(slots, hash, arbitrary());
    assert(walk.len() == slots.len());
    if slots.len() > 0 && factor > 0 {
        assert(all[0] == walk[0]);
        assert(list[0] == all[0]);
        assert(walk[0] == clockwise(slots, hash)[0].1);
    }
}

/// How far it is clockwise from one position to another.
pub open spec fn distance(from: u64, to: u64) -> int {
    if to >= from {
        to - from
    } else {
        to - from + 0x1_0000_0000_0000_0000
    }
}

/// The primary node of a position is the one that is nearest clockwise.
pub proof fn law_primary_is_nearest(slots: Seq<(u64, Member)>, hash: u64)
    requires
        increasing(slots),
        slots.len() > 0,
    ensures
        exists|at: u64| #[trigger] is_nearest(slot_map(slots), hash, at) && primary(slots, hash)
            == Some(slot_map(slots)[at]),
{
    let from = |s: (u64, Member)| s.0 >= hash;
    let to = |s: (u64, Member)| s.0 < hash;
    let (a, b) = (slots.filter(from), slots.filter(to));
    let walk = clockwise(slots, hash);
    let first = walk[0];
    lemma_walk_has(slots, hash, first);
    assert(walk.contains(first));
    let k = choose|k: int| 0 <= k < slots.len() && slots[k] == first;
    lemma_slot_at(slots, k);
    lemma_filter_increasing(slots, from);
    lemma_filter_increasing(slots, to);
    assert forall|h: u64| #[trigger] slot_map(slots).contains_key(h) implies distance(hash, first.0)
        <= distance(hash, h) by {
        let j = choose|j: int| 0 <= j < slots.len() && #[trigger] slots[j].0 == h;
        lemma_walk_has(slots, hash, slots[j]);
        assert(slots.contains(slots[j]));
        let i = choose|i: int| 0 <= i < walk.len() && walk[i] == slots[j];
        if a.len() > 0 {
            assert(walk[0] == a[0]);
            lemma_filter_source(slots, from, 0);
            if i < a.len() {
                assert(walk[i] == a[i]);
                if i > 0 {
                    assert(a[0].0 < a[i].0);
                }
                lemma_filter_source(slots, from, i);
            } else {
                assert(walk[i] == b[i - a.len()]);
                lemma_filter_source(slots, to, i - a.len());
            }
        } else {
            assert(walk[i] == b[i]);
            assert(walk[0] == b[0]);
            lemma_filter_source(slots, to, 0);
            lemma_filter_source(slots, to, i);
            if i > 0 {
                assert(b[0].0 < b[i].0);
            }
        }
    }
    assert(is_nearest(slot_map(slots), hash, first.0));
}

/// Whether an occupied position is the nearest one clockwise.
pub open spec fn is_nearest(map: Map<u64, Member>, hash: u64, at: u64) -> bool {
    &&& map.contains_key(at)
    &&& forall|h: u64| #[trigger] map.contains_key(h) ==> distance(hash, at) <= distance(hash, h)
}

/// Adding a node keeps every occupied position that of one of its node's
/// virtual nodes.
pub proof fn law_addition_keeps_slots_placed(map: Map<u64, Member>, node: Member, vnodes: nat)
    requires
        placed(map, vnodes),
    ensures
        placed(with_node(map, node, vnodes), vnodes),
{
    let after = with_node(map, node, vnodes);
    assert forall|hash: u64| #[trigger] after.contains_key(hash) implies has_vnode(
        after[hash].id,
        vnodes,
        hash,
    ) by {
        if !has_vnode(node.id, vnodes, hash) {
            assert(map.contains_key(hash));
        }
    }
}

/// Removing a node keeps every occupied position that of one of its node's
/// virtual nodes.
pub proof fn law_removal_keeps_slots_placed(map: Map<u64, Member>, id: Seq<char>, vnodes: nat)
    requires
        placed(map, vnodes),
    ensures
        placed(map_without(map, id), vnodes),
{
    let left = map_without(map, id);
    assert forall|hash: u64| #[trigger] left.contains_key(hash) implies has_vnode(
        left[hash].id,
        vnodes,
        hash,
    ) by {
        assert(map.contains_key(hash));
    }
}

/// An added node is among all nodes of the ring with its address, and with no
/// other. Where some position was not that of its node's virtual nodes, which
/// is so of no ring, its id at least is listed.
pub proof fn law_added_node_is_listed(
    before: Seq<(u64, Member)>,
    after: Seq<(u64, Member)>,
    node: Member,
    vnodes: nat,
)
    requires
        increasing(after),
        slot_map(after) == with_node(slot_map(before), node, vnodes),
        vnodes >= 1,
    ensures
        lists(distinct(members(after)), node.id),
        placed(slot_map(before), vnodes) ==> distinct(members(after)).contains(node),
        placed(slot_map(before), vnodes) ==> forall|m: Member| #[trigger]
            distinct(members(after)).contains(m) && m.id == node.id ==> m == node,
{
    let nodes = members(after);
    let all = distinct(nodes);
    law_distinct_lists_each_id_once(nodes);
    assert forall|m: Member|
        placed(slot_map(before), vnodes) && #[trigger] all.contains(m) && m.id
            == node.id implies m == node by {
        let i = choose|i: int| 0 <= i < all.len() && all[i] == m;
        assert(nodes.contains(all[i]));
        let k = choose|k: int| 0 <= k < nodes.len() && nodes[k] == m;
        lemma_slot_at(after, k);
        assert(after[k].1 == m);
        let hash = after[k].0;
        if !has_vnode(node.id, vnodes, hash) {
            assert(slot_map(before).contains_key(hash));
        }
    }
    let first = ring_hash(vnode_name(node.id, 0));
    assert(has_vnode(node.id, vnodes, first));
    assert(slot_map(after).contains_key(first));
    let k = choose|k: int| 0 <= k < after.len() && #[trigger] after[k].0 == first;
    lemma_slot_at(after, k);
    assert(nodes[k].id == node.id);
    assert(lists(nodes, node.id));
    assert(lists(all, node.id));
    let i = choose|i: int| 0 <= i < all.len() && (#[trigger] all[i]).id == node.id;
    assert(all.contains(all[i]));
}

/// Adding a node moves a key to that node or not at all.
pub proof fn law_added_node_takes_keys_only_for_itself(
    before: Seq<(u64, Member)>,
    after: Seq<(u64, Member)>,
    node: Member,
    vnodes: nat,
    hash: u64,
)
    requires
        increasing(before),
        increasing(after),
        slot_map(after) == with_node(slot_map(before), node, vnodes),
    ensures
        primary(after, hash) == primary(before, hash) || primary(after, hash) == Some(node),
{
    if after.len() > 0 {
        law_primary_is_nearest(after, hash);
        let at = choose|at: u64| #[trigger] is_nearest(slot_map(after), hash, at) && primary(
            after,
            hash,
        ) == Some(slot_map(after)[at]);
        if !has_vnode(node.id, vnodes, at) {
            assert(slot_map(before).contains_key(at));
            let i = choose|i: int| 0 <= i < before.len() && #[trigger] before[i].0 == at;
            law_primary_is_nearest(before, hash);
            let old_at = choose|p: u64| #[trigger] is_nearest(slot_map(before), hash, p) && primary(
                before,
                hash,
            ) == Some(slot_map(before)[p]);
            assert(slot_map(after).contains_key(old_at));
            assert(distance(hash, at) <= distance(hash, old_at));
            assert(distance(hash, old_at) <= distance(hash, at));
            assert(old_at == at);
        }
    } else if before.len() > 0 {
        lemma_slot_at(before, 0);
        assert(slot_map(after).contains_key(before[0].0));
        let i = choose|i: int| 0 <= i < after.len() && #[trigger] after[i].0 == before[0].0;
        assert(false);
    }
}

/// Filtering nodes by id before or after listing them once comes to the same.
proof fn lemma_distinct_filter(nodes: Seq<Member>, id: Seq<char>)
    ensures
        distinct(nodes.filter(|m: Member| m.id != id)) == distinct(nodes).filter(
            |m: Member| m.id != id,
        ),
    decreases nodes.len(),
{
    reveal(Seq::filter);
    let keep = |m: Member| m.id != id;
    if nodes.len() > 0 {
        let init = nodes.drop_last();
        let last = nodes.last();
        lemma_distinct_filter(init, id);
        law_distinct_lists_each_id_once(init);
        law_distinct_lists_each_id_once(init.filter(keep));
        let before = distinct(init);
        let kept = init.filter(keep);
        if keep(last) {
            assert(nodes.filter(keep) == kept.push(last));
            assert(kept.push(last).drop_last() =~= kept);
            assert(lists(kept, last.id) == lists(init, last.id)) by {
                if lists(init, last.id) {
                    let i = choose|i: int|
                        0 <= i < init.len() && (#[trigger] init[i]).id == last.id;
                    broadcast use vstd::seq_lib::group_filter_ensures;

                    assert(kept.contains(init[i]));
                    let k = choose|k: int| 0 <= k < kept.len() && kept[k] == init[i];
                    assert(kept[k].id == last.id);
                }
                if lists(kept, last.id) {
                    let k = choose|k: int|
                        0 <= k < kept.len() && (#[trigger] kept[k]).id == last.id;
                    lemma_filter_source(init, keep, k);
                    let i = choose|i: int| 0 <= i < init.len() && init[i] == kept[k];
                    assert(init[i].id == last.id);
                }
            }
            assert(lists(distinct(kept), last.id) == lists(kept, last.id));
            assert(lists(before, last.id) == lists(init, last.id));
            if !lists(before, last.id) {
                assert(before.push(last).drop_last() =~= before);
                assert(before.push(last).filter(keep) == before.filter(keep).push(last));
            }
        } else {
            assert(nodes.filter(keep) == kept);
            if !lists(before, last.id) {
                assert(before.push(last).drop_last() =~= before);
                assert(before.push(last).filter(keep) == before.filter(keep));
            }
        }
    }
}

/// Filtering twice comes to filtering in the other order.
proof fn lemma_filter_swap<T>(s: Seq<T>, p: spec_fn(T) -> bool, q: spec_fn(T) -> bool)
    ensures
        s.filter(p).filter(q) == s.filter(q).filter(p),
    decreases s.len(),
{
    reveal(Seq::filter);
    if s.len() > 0 {
        let init = s.drop_last();
        lemma_filter_swap(init, p, q);
        let (a, b) = (init.filter(p), init.filter(q));
        if p(s.last()) && q(s.last()) {
            assert(a.push(s.last()).drop_last() =~= a);
            assert(b.push(s.last()).drop_last() =~= b);
        } else if p(s.last()) {
            assert(a.push(s.last()).drop_last() =~= a);
        } else if q(s.last()) {
            assert(b.push(s.last()).drop_last() =~= b);
        }
    }
}

/// Removing a node takes it out of every walk and leaves the order of the
/// others as it was.
pub proof fn law_removed_node_leaves_the_order(
    slots: Seq<(u64, Member)>,
    id: Seq<char>,
    hash: u64,
)
    ensures
        preference(without_node(slots, id), hash) == preference(slots, hash).filter(
            |m: Member| m.id != id,
        ),
        !lists(preference(without_node(slots, id), hash), id),
        !lists(distinct(members(without_node(slots, id))), id),
{
    let keep = |s: (u64, Member)| s.1.id != id;
    let stay = |m: Member| m.id != id;
    let node = |s: (u64, Member)| s.1;
    let from = |s: (u64, Member)| s.0 >= hash;
    let to = |s: (u64, Member)| s.0 < hash;
    let left = without_node(slots, id);
    let walk = clockwise(slots, hash);
    lemma_filter_swap(slots, from, keep);
    lemma_filter_swap(slots, to, keep);
    Seq::filter_distributes_over_add(slots.filter(from), slots.filter(to), keep);
    assert(clockwise(left, hash) == walk.filter(keep));
    lemma_filter_map(walk, node, keep, stay);
    lemma_distinct_filter(members(walk), id);
    let list = preference(left, hash);
    if lists(list, id) {
        let i = choose|i: int| 0 <= i < list.len() && (#[trigger] list[i]).id == id;
        lemma_filter_source(preference(slots, hash), stay, i);
    }
    law_walk_meets_every_node(left, hash, id);
}

/// Removing a node moves only the keys whose primary it was.
pub proof fn law_removed_node_moves_only_its_keys(
    slots: Seq<(u64, Member)>,
    id: Seq<char>,
    hash: u64,
)
    requires
        primary(slots, hash) matches Some(node) && node.id != id,
    ensures
        primary(without_node(slots, id), hash) == primary(slots, hash),
{
    let keep = |s: (u64, Member)| s.1.id != id;
    let from = |s: (u64, Member)| s.0 >= hash;
    let to = |s: (u64, Member)| s.0 < hash;
    let left = without_node(slots, id);
    let walk = clockwise(slots, hash);
    lemma_filter_swap(slots, from, keep);
    lemma_filter_swap(slots, to, keep);
    Seq::filter_distributes_over_add(slots.filter(from), slots.filter(to), keep);
    assert(clockwise(left, hash) == walk.filter(keep));
    lemma_walk_has(slots, hash, arbitrary());
    lemma_walk_has(left, hash, arbitrary());
    lemma_filter_first(walk, keep);
}

/// A first element that is kept stays first.
proof fn lemma_filter_first<T>(s: Seq<T>, keep: spec_fn(T) -> bool)
    requires
        s.len() > 0,
        keep(s[0]),
    ensures
        s.filter(keep).len() > 0,
        s.filter(keep)[0] == s[0],
    decreases s.len(),
{
    reveal(Seq::filter);
    if s.len() > 1 {
        lemma_filter_first(s.drop_last(), keep);
    } else {
        assert(s.drop_last() =~= Seq::empty());
        lemma_filter_nothing(s.drop_last(), keep);
    }
}

/// Adding a node again, with the same address, changes nothing.
pub proof fn law_adding_twice_is_adding_once(
    before: Map<u64, Member>,
    once: Seq<(u64, Member)>,
    twice: Seq<(u64, Member)>,
    node: Member,
    vnodes: nat,
)
    requires
        increasing(once),
        increasing(twice),
        slot_map(once) == with_node(before, node, vnodes),
        slot_map(twice) == with_node(slot_map(once), node, vnodes),
    ensures
        twice == once,
{
    assert(slot_map(twice) =~= slot_map(once));
    assert forall|slot: (u64, Member)| #[trigger]
        twice.contains(slot) <==> once.contains(slot) by {
        if twice.contains(slot) {
            lemma_same_slot(twice, once, slot);
        }
        if once.contains(slot) {
            lemma_same_slot(once, twice, slot);
        }
    }
    lemma_increasing_unique(twice, once);
}

/// Slots with the same map have the same slots.
proof fn lemma_same_slot(a: Seq<(u64, Member)>, b: Seq<(u64, Member)>, slot: (u64, Member))
    requires
        increasing(a),
        increasing(b),
        slot_map(a) == slot_map(b),
        a.contains(slot),
    ensures
        b.contains(slot),
{
    let i = choose|i: int| 0 <= i < a.len() && a[i] == slot;
    lemma_slot_at(a, i);
    let j = choose|j: int| 0 <= j < b.len() && #[trigger] b[j].0 == slot.0;
    lemma_slot_at(b, j);
    assert(b[j] == slot);
}

/// Removing a node that was just added gives the ring back, unless one of its
/// virtual nodes took the position of another node.
pub proof fn law_removal_undoes_addition(
    before: Seq<(u64, Member)>,
    after: Seq<(u64, Member)>,
    node: Member,
    vnodes: nat,
)
    requires
        increasing(before),
        increasing(after),
        slot_map(after) == with_node(slot_map(before), node, vnodes),
        !lists(members(before), node.id),
        forall|h: u64| #[trigger]
            slot_map(before).contains_key(h) ==> !has_vnode(node.id, vnodes, h),
    ensures
        without_node(after, node.id) == before,
{
    let keep = |s: (u64, Member)| s.1.id != node.id;
    let left = without_node(after, node.id);
    lemma_filter_increasing(after, keep);
    assert forall|slot: (u64, Member)| #[trigger]
        left.contains(slot) <==> before.contains(slot) by {
        if left.contains(slot) {
            let i = choose|i: int| 0 <= i < left.len() && left[i] == slot;
            lemma_filter_source(after, keep, i);
            let k = choose|k: int| 0 <= k < after.len() && after[k] == slot;
            lemma_slot_at(after, k);
            assert(slot_map(before).contains_key(slot.0));
            let j = choose|j: int| 0 <= j < before.len() && #[trigger] before[j].0 == slot.0;
            lemma_slot_at(before, j);
            assert(before[j] == slot);
        }
        if before.contains(slot) {
            let j = choose|j: int| 0 <= j < before.len() && before[j] == slot;
            lemma_slot_at(before, j);
            assert(members(before)[j].id == slot.1.id);
            assert(slot_map(after).contains_key(slot.0));
            let k = choose|k: int| 0 <= k < after.len() && #[trigger] after[k].0 == slot.0;
            lemma_slot_at(after, k);
            assert(after[k] == slot);
            broadcast use vstd::seq_lib::group_filter_ensures;

            assert(left.contains(after[k]));
        }
    }
    lemma_increasing_unique(left, before);
}

/// Slots by increasing position that hold the same are the same.
proof fn lemma_increasing_unique(a: Seq<(u64, Member)>, b: Seq<(u64, Member)>)
    requires
        increasing(a),
        increasing(b),
        forall|slot: (u64, Member)| #[trigger] a.contains(slot) <==> b.contains(slot),
    ensures
        a == b,
    decreases a.len(),
{
    if a.len() == 0 {
        if b.len() > 0 {
            assert(b.contains(b[0]));
            assert(a.contains(b[0]));
        }
        assert(a =~= b);
    } else {
        let x = a.last();
        assert(a[a.len() - 1] == x);
        assert(a.contains(x));
        assert(b.contains(x));
        let y = b.last();
        assert(b[b.len() - 1] == y);
        assert(b.contains(y));
        assert(a.contains(y));
        let i = choose|i: int| 0 <= i < b.len() && b[i] == x;
        let j = choose|j: int| 0 <= j < a.len() && a[j] == y;
        assert(i == b.len() - 1) by {
            if i < b.len() - 1 {
                assert(b[i].0 < b[b.len() - 1].0);
                if j < a.len() - 1 {
                    assert(a[j].0 < a[a.len() - 1].0);
                }
            }
        }
        let (p, q) = (a.drop_last(), b.drop_last());
        assert forall|m: int, n: int| #![trigger p[m], p[n]]
            0 <= m < n < p.len() implies p[m].0 < p[n].0 by {
            assert(a[m].0 < a[n].0);
        }
        assert forall|m: int, n: int| #![trigger q[m], q[n]]
            0 <= m < n < q.len() implies q[m].0 < q[n].0 by {
            assert(b[m].0 < b[n].0);
        }
        assert forall|slot: (u64, Member)| #[trigger] p.contains(slot) <==> q.contains(slot) by {
            if p.contains(slot) {
                let m = choose|m: int| 0 <= m < p.len() && p[m] == slot;
                assert(a[m] == slot);
                assert(a[m].0 < a[a.len() - 1].0);
                assert(a.contains(slot));
                let n = choose|n: int| 0 <= n < b.len() && b[n] == slot;
                assert(n < q.len());
                assert(q[n] == slot);
            }
            if q.contains(slot) {
                let n = choose|n: int| 0 <= n < q.len() && q[n] == slot;
                assert(b[n] == slot);
                assert(b[n].0 < b[b.len() - 1].0);
                assert(b.contains(slot));
                assert(a.contains(slot));
                let m = choose|m: int| 0 <= m < a.len() && a[m] == slot;
                assert(m < p.len());
                assert(p[m] == slot);
            }
        }
        lemma_increasing_unique(p, q);
        assert(a =~= p.push(x));
        assert(b =~= q.push(x));
    }
}

/// The position of a text is what the first eight bytes of its digest write,
/// each byte counting 256 times as much as the next.
pub proof fn law_positions_are_the_first_bytes_of_the_digest(
    text: Seq<char>,
    bytes: Seq<u8>,
    id: Seq<char>,
    i: nat,
)
    ensures
        ring_hash(text) == big_endian(sha256_digest(encode_utf8(text))),
        big_endian(bytes) == ((((((bytes[0] * 256 + bytes[1]) * 256 + bytes[2]) * 256 + bytes[3])
            * 256 + bytes[4]) * 256 + bytes[5]) * 256 + bytes[6]) * 256 + bytes[7],
        vnode_name(id, i) == id + ":vnode:"@ + decimal(i),
{
}

/// A node has a virtual node at a position just if the position is that of one
/// of its numbered names; with no virtual nodes it has none, and one more adds
/// one position.
pub proof fn law_virtual_nodes_stand_at_their_hashes(id: Seq<char>, n: nat, hash: u64, i: nat)
    ensures
        !has_vnode(id, 0, hash),
        has_vnode(id, n + 1, hash) <==> has_vnode(id, n, hash) || hash == ring_hash(
            vnode_name(id, n),
        ),
        i < n ==> has_vnode(id, n, ring_hash(vnode_name(id, i))),
{
    if has_vnode(id, n + 1, hash) {
        let k = choose|k: nat| k < n + 1 && hash == ring_hash(#[trigger] vnode_name(id, k));
        if k < n {
            assert(has_vnode(id, n, hash));
        }
    }
    if has_vnode(id, n, hash) {
        let k = choose|k: nat| k < n && hash == ring_hash(#[trigger] vnode_name(id, k));
        assert(has_vnode(id, n + 1, hash));
    }
    assert(n < n + 1 && ring_hash(vnode_name(id, n)) == ring_hash(vnode_name(id, n)));
}

/// After a node was added, the positions of its virtual nodes are its own, and
/// all others are occupied as before.
pub proof fn law_added_node_has_its_positions(
    map: Map<u64, Member>,
    node: Member,
    n: nat,
    hash: u64,
)
    ensures
        has_vnode(node.id, n, hash) ==> with_node(map, node, n).contains_key(hash) && with_node(
            map,
            node,
            n,
        )[hash] == node,
        !has_vnode(node.id, n, hash) ==> with_node(map, node, n).contains_key(hash)
            == map.contains_key(hash),
        !has_vnode(node.id, n, hash) && map.contains_key(hash) ==> with_node(map, node, n)[hash]
            == map[hash],
{
}

/// After a node was removed, no position is its own, and the positions of other
/// nodes are theirs as before.
pub proof fn law_removed_node_has_no_position(map: Map<u64, Member>, id: Seq<char>, hash: u64)
    ensures
        map_without(map, id).contains_key(hash) <==> map.contains_key(hash) && map[hash].id != id,
        map_without(map, id).contains_key(hash) ==> map_without(map, id)[hash] == map[hash],
{
}

/// Removing a node takes its slots out of the list and leaves the others in
/// their order.
pub proof fn law_removal_goes_slot_by_slot(
    slots: Seq<(u64, Member)>,
    slot: (u64, Member),
    id: Seq<char>,
)
    ensures
        without_node(Seq::empty(), id) == Seq::<(u64, Member)>::empty(),
        slot.1.id == id ==> without_node(slots.push(slot), id) == without_node(slots, id),
        slot.1.id != id ==> without_node(slots.push(slot), id) == without_node(slots, id).push(
            slot,
        ),
{
    reveal(Seq::filter);
    assert(slots.push(slot).drop_last() =~= slots);
}

/// A position is occupied just if a slot stands there, by the node of that slot.
pub proof fn law_slots_are_the_occupied_positions(
    slots: Seq<(u64, Member)>,
    hash: u64,
    node: Member,
)
    requires
        increasing(slots),
    ensures
        slot_map(slots).contains_key(hash) && slot_map(slots)[hash] == node <==> slots.contains(
            (hash, node),
        ),
        slot_map(slots).contains_key(hash) <==> exists|i: int|
            0 <= i < slots.len() && (#[trigger] slots[i]).0 == hash,
        forall|i: int, j: int| #![trigger slots[i], slots[j]]
            0 <= i < j < slots.len() ==> slots[i].0 < slots[j].0,
{
    if slot_map(slots).contains_key(hash) {
        let i = choose|i: int| 0 <= i < slots.len() && #[trigger] slots[i].0 == hash;
        lemma_slot_at(slots, i);
        if slot_map(slots)[hash] == node {
            assert(slots[i] == (hash, node));
        }
    }
    if slots.contains((hash, node)) {
        let i = choose|i: int| 0 <= i < slots.len() && slots[i] == (hash, node);
        lemma_slot_at(slots, i);
    }
}

/// A clockwise walk from a position goes through the slots from the first at or
/// after it to the last, and then from the first on to the position.
pub proof fn law_walk_goes_round_once(slots: Seq<(u64, Member)>, hash: u64, at: int)
    requires
        increasing(slots),
        0 <= at <= slots.len(),
        at > 0 ==> slots[at - 1].0 < hash,
        at < slots.len() ==> slots[at].0 >= hash,
    ensures
        clockwise(slots, hash) == slots.skip(at) + slots.take(at),
        preference(slots, hash) == distinct(members(slots.skip(at) + slots.take(at))),
{
    assert forall|i: int| 0 <= i < at implies (#[trigger] slots[i]).0 < hash by {
        if i < at - 1 {
            assert(slots[i].0 < slots[at - 1].0);
        }
    }
    assert forall|i: int| at <= i < slots.len() implies hash <= (#[trigger] slots[i]).0 by {
        if at < i {
            assert(slots[at].0 < slots[i].0);
        }
    }
    lemma_clockwise(slots, hash, at);
}

/// The primary node of a position is the node of the first slot at or after it,
/// or of the first slot of all where there is none; an empty ring has none.
pub proof fn law_primary_is_the_next_slot(slots: Seq<(u64, Member)>, hash: u64, at: int)
    requires
        increasing(slots),
        0 <= at <= slots.len(),
        at > 0 ==> slots[at - 1].0 < hash,
        at < slots.len() ==> slots[at].0 >= hash,
    ensures
        slots.len() == 0 ==> primary(slots, hash) is None,
        at < slots.len() ==> primary(slots, hash) == Some(slots[at].1),
        at == slots.len() && slots.len() > 0 ==> primary(slots, hash) == Some(slots[0].1),
{
    law_walk_goes_round_once(slots, hash, at);
}

/// The physical nodes of a walk are listed as they are first met: the nodes of
/// a beginning of the walk begin the list, and one more slot adds its node just
/// if no slot before it was of that node.
pub proof fn law_nodes_are_listed_as_they_are_met(nodes: Seq<Member>, node: Member)
    ensures
        distinct(Seq::empty()) == Seq::<Member>::empty(),
        (exists|i: int| 0 <= i < nodes.len() && (#[trigger] nodes[i]).id == node.id) ==> distinct(
            nodes.push(node),
        ) == distinct(nodes),
        !(exists|i: int| 0 <= i < nodes.len() && (#[trigger] nodes[i]).id == node.id) ==> distinct(
            nodes.push(node),
        ) == distinct(nodes).push(node),
{
    law_distinct_lists_each_id_once(nodes);
    assert(nodes.push(node).drop_last() =~= nodes);
    assert(lists(distinct(nodes), node.id) == lists(nodes, node.id));
    assert(lists(nodes, node.id) <==> exists|i: int|
        0 <= i < nodes.len() && (#[trigger] nodes[i]).id == node.id);
}

/// Nodes and slots are seen as they are, in order.
pub proof fn law_nodes_are_seen_as_they_are(
    node: Node,
    other: Node,
    list: Seq<Node>,
    slots: Seq<(u64, Member)>,
    id: Seq<char>,
    i: int,
)
    ensures
        node@.id == node.id@,
        node@.address == node.address@,
        node.eq_spec(&other) <==> node.id@ == other.id@ && node.address@ == other.address@,
        nodes_of(list).len() == list.len(),
        0 <= i < list.len() ==> nodes_of(list)[i] == list[i]@,
        member_of(Some(node)) == Some(node@),
        member_of(None) == None::<Member>,
        members(slots).len() == slots.len(),
        0 <= i < slots.len() ==> members(slots)[i] == slots[i].1,
        lists(members(slots), id) <==> exists|k: int|
            0 <= k < slots.len() && (#[trigger] slots[k]).1.id == id,
{
    let all = members(slots);
    if lists(all, id) {
        let k = choose|k: int| 0 <= k < all.len() && (#[trigger] all[k]).id == id;
        assert(slots[k].1.id == id);
    }
    if exists|k: int| 0 <= k < slots.len() && (#[trigger] slots[k]).1.id == id {
        let k = choose|k: int| 0 <= k < slots.len() && (#[trigger] slots[k]).1.id == id;
        assert(all[k].id == id);
    }
    if node.id@ == other.id@ && node.address@ == other.address@ {
        assert(node@ =~= other@);
    }
}

/// A node is listed just if some node of the list has its id.
pub proof fn law_listed_nodes_have_the_id(nodes: Seq<Member>, id: Seq<char>)
    ensures
        lists(nodes, id) <==> exists|i: int| 0 <= i < nodes.len() && (#[trigger] nodes[i]).id == id,
{
}

/// A ring holds the slots that it lists, and it is well formed just if these
/// increase and each stands at a virtual node of its node.
pub proof fn law_ring_holds_its_slots(ring: HashRing, table: Slots)
    ensures
        ring@ == slot_map(ring.slots()),
        table@ == slot_map(table.listed()),
        ring.well_formed() <==> {
            &&& forall|i: int, j: int| #![trigger ring.slots()[i], ring.slots()[j]]
                0 <= i < j < ring.slots().len() ==> ring.slots()[i].0 < ring.slots()[j].0
            &&& forall|hash: u64| #[trigger]
                ring@.contains_key(hash) ==> has_vnode(ring@[hash].id, ring.vnodes() as nat, hash)
        },
{
}

} // verus!
