//! A consistent hash ring with virtual nodes.

use vstd::prelude::*;
use vstd::utf8::encode_utf8;

use crate::digest::{sha256, sha256_digest};
use crate::ring::ring_laws::{
    law_added_node_is_listed, law_added_node_takes_keys_only_for_itself,
    law_addition_keeps_slots_placed, law_removal_keeps_slots_placed,
};
use crate::seqs::{at_most, lemma_filter_nothing, lemma_filter_split};
use crate::text::{decimal, decimal_text};

verus! {

/// What a node is.
#[verifier::ext_equal]
pub struct Member {
    pub id: Seq<char>,
    pub address: Seq<char>,
}

/// A physical node in the cluster.
#[derive(Debug, Eq, Hash)]
pub struct Node {
    pub id: String,
    pub address: String,
}

impl View for Node {
    type V = Member;

    open spec fn view(&self) -> Member {
        Member { id: self.id@, address: self.address@ }
    }
}

impl Clone for Node {
    fn clone(&self) -> (copy: Self)
        ensures
            copy@ == self@,
    {
        Node { id: self.id.clone(), address: self.address.clone() }
    }
}

impl PartialEq for Node {
    fn eq(&self, other: &Self) -> (equal: bool) {
        self.id == other.id && self.address == other.address
    }
}

impl vstd::std_specs::cmp::PartialEqSpecImpl for Node {
    open spec fn obeys_eq_spec() -> bool {
        true
    }

    open spec fn eq_spec(&self, other: &Self) -> bool {
        self@ == other@
    }
}

impl Node {
    /// The node as a text: its id, an at sign and its address.
    pub fn display(&self) -> (text: String)
        ensures
            text@ == self.id@ + "@"@ + self.address@,
    {
        let mut text = self.id.clone();
        text.append("@");
        text.append(self.address.as_str());
        text
    }
}

/// The number that the first eight bytes write, the most significant first.
pub open spec fn big_endian(bytes: Seq<u8>) -> u64 {
    (bytes[0] * 0x100_0000_0000_0000 + bytes[1] * 0x1_0000_0000_0000 + bytes[2] * 0x100_0000_0000
        + bytes[3] * 0x1_0000_0000 + bytes[4] * 0x100_0000 + bytes[5] * 0x1_0000 + bytes[6] * 0x100
        + bytes[7]) as u64
}

/// The position of a text on the ring: the first eight bytes of its SHA-256
/// digest as a number.
pub open spec fn ring_hash(text: Seq<char>) -> u64 {
    big_endian(sha256_digest(encode_utf8(text)))
}

/// The name of a virtual node.
pub open spec fn vnode_name(id: Seq<char>, i: nat) -> Seq<char> {
    id + ":vnode:"@ + decimal(i)
}

/// Whether the first `n` virtual nodes of a node include one at a position.
pub open spec fn has_vnode(id: Seq<char>, n: nat, hash: u64) -> bool {
    exists|i: nat| i < n && hash == ring_hash(#[trigger] vnode_name(id, i))
}

/// Whether every occupied position is that of one of its node's virtual nodes.
pub open spec fn placed(map: Map<u64, Member>, vnodes: nat) -> bool {
    forall|hash: u64| #[trigger]
        map.contains_key(hash) ==> has_vnode(map[hash].id, vnodes, hash)
}

/// Whether the slots stand by increasing positions.
pub open spec fn increasing(slots: Seq<(u64, Member)>) -> bool {
    forall|i: int, j: int| #![trigger slots[i], slots[j]]
        0 <= i < j < slots.len() ==> slots[i].0 < slots[j].0
}

/// Which node has which position.
pub open spec fn slot_map(slots: Seq<(u64, Member)>) -> Map<u64, Member> {
    Map::new(
        |hash: u64| exists|i: int| 0 <= i < slots.len() && #[trigger] slots[i].0 == hash,
        |hash: u64|
            slots[choose|i: int| 0 <= i < slots.len() && #[trigger] slots[i].0 == hash].1,
    )
}

/// The positions after a node took those of its first `n` virtual nodes.
pub open spec fn with_node(map: Map<u64, Member>, node: Member, n: nat) -> Map<u64, Member> {
    Map::new(
        |hash: u64| map.contains_key(hash) || has_vnode(node.id, n, hash),
        |hash: u64|
            if has_vnode(node.id, n, hash) {
                node
            } else {
                map[hash]
            },
    )
}

/// The slots without those of a node.
pub open spec fn without_node(slots: Seq<(u64, Member)>, id: Seq<char>) -> Seq<(u64, Member)> {
    slots.filter(|slot: (u64, Member)| slot.1.id != id)
}

/// The positions without those of a node.
pub open spec fn map_without(map: Map<u64, Member>, id: Seq<char>) -> Map<u64, Member> {
    Map::new(|hash: u64| map.contains_key(hash) && map[hash].id != id, |hash: u64| map[hash])
}

/// The slots in the order of a clockwise walk from a position: those at or
/// after it, then those before it.
pub open spec fn clockwise(slots: Seq<(u64, Member)>, hash: u64) -> Seq<(u64, Member)> {
    slots.filter(|slot: (u64, Member)| slot.0 >= hash) + slots.filter(
        |slot: (u64, Member)| slot.0 < hash,
    )
}

/// The nodes of slots.
pub open spec fn members(slots: Seq<(u64, Member)>) -> Seq<Member> {
    slots.map_values(|slot: (u64, Member)| slot.1)
}

/// Whether a node with an id is among nodes.
pub open spec fn lists(nodes: Seq<Member>, id: Seq<char>) -> bool {
    exists|i: int| 0 <= i < nodes.len() && (#[trigger] nodes[i]).id == id
}

/// The nodes without those whose id occurred before.
pub open spec fn distinct(nodes: Seq<Member>) -> Seq<Member>
    decreases nodes.len(),
{
    if nodes.len() == 0 {
        Seq::empty()
    } else {
        let before = distinct(nodes.drop_last());
        if lists(before, nodes.last().id) {
            before
        } else {
            before.push(nodes.last())
        }
    }
}

/// The physical nodes in the order of a clockwise walk from a position.
pub open spec fn preference(slots: Seq<(u64, Member)>, hash: u64) -> Seq<Member> {
    distinct(members(clockwise(slots, hash)))
}

/// The node that a clockwise walk from a position meets first.
pub open spec fn primary(slots: Seq<(u64, Member)>, hash: u64) -> Option<Member> {
    if slots.len() == 0 {
        None
    } else {
        Some(clockwise(slots, hash)[0].1)
    }
}

/// The nodes in a list.
pub open spec fn nodes_of(list: Seq<Node>) -> Seq<Member> {
    list.map_values(|node: Node| node@)
}

/// A node that may be absent.
pub open spec fn member_of(node: Option<Node>) -> Option<Member> {
    match node {
        Some(node) => Some(node@),
        None => None,
    }
}

/// At the position of a slot the map has the slot's node.
pub proof fn lemma_slot_at(slots: Seq<(u64, Member)>, i: int)
    requires
        increasing(slots),
        0 <= i < slots.len(),
    ensures
        slot_map(slots).contains_key(slots[i].0),
        slot_map(slots)[slots[i].0] == slots[i].1,
{
    let j = choose|j: int| 0 <= j < slots.len() && #[trigger] slots[j].0 == slots[i].0;
    if j < i {
        assert(slots[j].0 < slots[i].0);
    } else if i < j {
        assert(slots[i].0 < slots[j].0);
    }
}

/// The number of slots before a position.
pub open spec fn is_place(slots: Seq<(u64, Member)>, hash: u64, at: int) -> bool {
    &&& 0 <= at <= slots.len()
    &&& forall|i: int| 0 <= i < at ==> (#[trigger] slots[i]).0 < hash
    &&& forall|i: int| at <= i < slots.len() ==> hash <= (#[trigger] slots[i]).0
}

/// The slots with a node at a position, where `at` is the place of that
/// position.
pub open spec fn with_slot(slots: Seq<(u64, Member)>, at: int, hash: u64, node: Member) -> Seq<
    (u64, Member),
> {
    if at < slots.len() && slots[at].0 == hash {
        slots.update(at, (hash, node))
    } else {
        slots.insert(at, (hash, node))
    }
}

/// Giving a position to a node sets that position in the map.
proof fn lemma_with_slot(slots: Seq<(u64, Member)>, at: int, hash: u64, node: Member)
    requires
        increasing(slots),
        is_place(slots, hash, at),
    ensures
        increasing(with_slot(slots, at, hash, node)),
        slot_map(with_slot(slots, at, hash, node)) == slot_map(slots).insert(hash, node),
{
    let next = with_slot(slots, at, hash, node);
    let present = at < slots.len() && slots[at].0 == hash;
    assert forall|i: int| 0 <= i < next.len() implies #[trigger] next[i] == if i == at {
        (hash, node)
    } else if i < at || present {
        slots[i]
    } else {
        slots[i - 1]
    } by {}
    assert(increasing(next));
    let after = slot_map(slots).insert(hash, node);
    assert forall|h: u64| #[trigger] slot_map(next).dom().contains(h) == after.dom().contains(
        h,
    ) by {
        if slot_map(next).contains_key(h) {
            let i = choose|i: int| 0 <= i < next.len() && #[trigger] next[i].0 == h;
            if i < at || (i > at && present) {
                assert(slots[i].0 == h);
            } else if i > at {
                assert(slots[i - 1].0 == h);
            }
        }
        if after.contains_key(h) {
            if h == hash {
                assert(next[at].0 == h);
            } else {
                let i = choose|i: int| 0 <= i < slots.len() && #[trigger] slots[i].0 == h;
                if i < at || present {
                    assert(next[i].0 == h);
                } else {
                    assert(next[i + 1].0 == h);
                }
            }
        }
    }
    assert forall|h: u64| #[trigger] slot_map(next).dom().contains(h) implies slot_map(next)[h]
        == after[h] by {
        let i = choose|i: int| 0 <= i < next.len() && #[trigger] next[i].0 == h;
        lemma_slot_at(next, i);
        if i < at || (i > at && present) {
            lemma_slot_at(slots, i);
        } else if i > at {
            lemma_slot_at(slots, i - 1);
        }
    }
    assert(slot_map(next) =~= after);
}

/// A walk from a position goes through the slots from its place on and then
/// through those before it.
pub proof fn lemma_clockwise(slots: Seq<(u64, Member)>, hash: u64, at: int)
    requires
        increasing(slots),
        is_place(slots, hash, at),
    ensures
        clockwise(slots, hash) == slots.skip(at) + slots.take(at),
{
    let from = |slot: (u64, Member)| slot.0 >= hash;
    let to = |slot: (u64, Member)| slot.0 < hash;
    lemma_filter_split(slots, at, from);
    lemma_filter_split(slots, at, to);
    assert forall|i: int| 0 <= i < slots.take(at).len() implies to(#[trigger] slots.take(at)[i])
        && !from(slots.take(at)[i]) by {
        assert(slots.take(at)[i] == slots[i]);
    }
    assert forall|i: int| 0 <= i < slots.skip(at).len() implies from(#[trigger] slots.skip(at)[i])
        && !to(slots.skip(at)[i]) by {
        assert(slots.skip(at)[i] == slots[at + i]);
    }
    lemma_filter_nothing(slots.take(at), from);
    lemma_filter_nothing(slots.skip(at), to);
    crate::seqs::lemma_filter_everything(slots.take(at), to);
    crate::seqs::lemma_filter_everything(slots.skip(at), from);
    assert(slots.filter(from) =~= slots.skip(at));
    assert(slots.filter(to) =~= slots.take(at));
}

/// The distinct nodes of a beginning begin the distinct nodes of the whole.
pub proof fn lemma_distinct_prefix(nodes: Seq<Member>, i: int)
    requires
        0 <= i <= nodes.len(),
    ensures
        distinct(nodes.take(i)).len() <= distinct(nodes).len(),
        distinct(nodes.take(i)) == distinct(nodes).take(distinct(nodes.take(i)).len() as int),
    decreases nodes.len(),
{
    if i == nodes.len() {
        assert(nodes.take(i) =~= nodes);
        assert(distinct(nodes).take(distinct(nodes).len() as int) =~= distinct(nodes));
    } else {
        let init = nodes.drop_last();
        lemma_distinct_prefix(init, i);
        assert(init.take(i) =~= nodes.take(i));
        let n = distinct(nodes.take(i)).len() as int;
        assert(distinct(nodes).take(n) =~= distinct(init).take(n));
    }
}

/// The number that the first eight bytes of a digest write.
pub fn position_of(digest: &[u8]) -> (hash: u64)
    requires
        digest@.len() >= 8,
    ensures
        hash == big_endian(digest@),
{
    digest[0] as u64 * 0x100_0000_0000_0000 + digest[1] as u64 * 0x1_0000_0000_0000
        + digest[2] as u64 * 0x100_0000_0000 + digest[3] as u64 * 0x1_0000_0000 + digest[4] as u64
        * 0x100_0000 + digest[5] as u64 * 0x1_0000 + digest[6] as u64 * 0x100 + digest[7] as u64
}

/// The occupied positions with their nodes.
pub struct Slots {
    list: Vec<(u64, Node)>,
}

/// The slots of a ring by what they hold.
spec fn slots_in(list: Seq<(u64, Node)>) -> Seq<(u64, Member)> {
    list.map_values(|slot: (u64, Node)| (slot.0, slot.1@))
}

impl Slots {
    /// The occupied positions with their nodes, by increasing position.
    pub closed spec fn listed(&self) -> Seq<(u64, Member)> {
        slots_in(self.list@)
    }

    #[verifier::type_invariant]
    closed spec fn ordered(&self) -> bool {
        increasing(self.listed())
    }
}

impl View for Slots {
    type V = Map<u64, Member>;

    open spec fn view(&self) -> Map<u64, Member> {
        slot_map(self.listed())
    }
}

impl Slots {
    /// No position is occupied.
    pub fn new() -> (slots: Self)
        ensures
            slots.listed() == Seq::<(u64, Member)>::empty(),
            slots@ == Map::<u64, Member>::empty(),
    {
        let slots = Slots { list: Vec::new() };
        assert(slots.listed() =~= Seq::empty());
        assert(slots@ =~= Map::empty());
        slots
    }

    /// Does nothing but recall that the positions increase.
    pub(crate) fn recall_order(&self)
        ensures
            increasing(self.listed()),
    {
        proof {
            use_type_invariant(self);
        }
    }

    /// The number of slots before a position.
    fn place(&self, hash: u64) -> (at: usize)
        ensures
            is_place(self.listed(), hash, at as int),
            increasing(self.listed()),
    {
        proof {
            use_type_invariant(self);
        }
        let ghost slots = self.listed();
        let mut lo: usize = 0;
        let mut hi: usize = self.list.len();
        while lo < hi
            invariant
                lo <= hi <= self.list@.len(),
                slots == self.listed(),
                slots.len() == self.list@.len(),
                increasing(slots),
                forall|i: int| 0 <= i < lo ==> (#[trigger] slots[i]).0 < hash,
                forall|i: int| hi <= i < slots.len() ==> hash <= (#[trigger] slots[i]).0,
            decreases hi - lo,
        {
            let mid = lo + (hi - lo) / 2;
            assert(slots[mid as int].0 == self.list@[mid as int].0);
            if self.list[mid].0 < hash {
                lo = mid + 1;
            } else {
                hi = mid;
            }
        }
        lo
    }

    /// Give a position to a node.
    pub fn occupy(&mut self, hash: u64, node: Node)
        ensures
            final(self)@ == old(self)@.insert(hash, node@),
            increasing(final(self).listed()),
    {
        let at = self.place(hash);
        let ghost slots = self.listed();
        proof {
            lemma_with_slot(slots, at as int, hash, node@);
        }
        let mut ring: Vec<(u64, Node)> = Vec::new();
        std::mem::swap(&mut ring, &mut self.list);
        if at < ring.len() && ring[at].0 == hash {
            assert(slots[at as int].0 == ring@[at as int].0);
            ring[at] = (hash, node);
        } else {
            assert(at < slots.len() ==> slots[at as int].0 == ring@[at as int].0);
            ring.insert(at, (hash, node));
        }
        assert(slots_in(ring@) =~= with_slot(slots, at as int, hash, node@));
        self.list = ring;
    }

    /// Free the positions of a node.
    pub fn vacate(&mut self, node_id: &str)
        ensures
            final(self).listed() == without_node(old(self).listed(), node_id@),
            final(self)@ == map_without(old(self)@, node_id@),
            increasing(final(self).listed()),
    {
        self.recall_order();
        let ghost slots = self.listed();
        let ghost keep = |slot: (u64, Member)| slot.1.id != node_id@;
        let id = node_id.to_string();
        let mut ring: Vec<(u64, Node)> = Vec::new();
        std::mem::swap(&mut ring, &mut self.list);
        let ghost all = ring@;
        let mut left: Vec<(u64, Node)> = Vec::new();
        proof {
            lemma_filter_nothing(slots.take(0), keep);
            assert(slots_in(left@) =~= slots.take(0).filter(keep));
        }
        for slot in it: ring
            invariant
                it.seq() == all,
                slots == slots_in(all),
                id@ == node_id@,
                keep == (|slot: (u64, Member)| slot.1.id != node_id@),
                slots_in(left@) == slots.take(it.index()).filter(keep),
        {
            let ghost i = it.index();
            let ghost before = left@;
            assert(slots[i] == (slot.0, slot.1@));
            proof {
                crate::seqs::lemma_filter_step(slots, i, keep);
            }
            if slot.1.id != id {
                left.push(slot);
                assert(slots_in(left@) =~= slots_in(before).push(slots[i]));
            }
        }
        proof {
            assert(slots.take(slots.len() as int) =~= slots);
            lemma_filter_increasing(slots, keep);
            lemma_without_node(slots, node_id@);
        }
        self.list = left;
    }

    /// The node that a clockwise walk from a position meets first.
    pub fn node_at(&self, hash: u64) -> (node: Option<Node>)
        ensures
            member_of(node) == primary(self.listed(), hash),
            increasing(self.listed()),
    {
        self.recall_order();
        let n = self.list.len();
        let ghost slots = self.listed();
        assert(slots.len() == n);
        if n == 0 {
            return None;
        }
        let at = self.place(hash);
        proof {
            lemma_clockwise(slots, hash, at as int);
        }
        let first = if at < n {
            at
        } else {
            0
        };
        assert(clockwise(slots, hash)[0] == slots[first as int]);
        assert(slots[first as int] == (self.list@[first as int].0, self.list@[first as int].1@));
        Some(self.list[first].1.clone())
    }

    /// The first physical nodes that a clockwise walk from a position meets.
    pub fn nodes_at(&self, hash: u64, limit: u32) -> (nodes: Vec<Node>)
        ensures
            nodes_of(nodes@) == at_most(preference(self.listed(), hash), limit as int),
            increasing(self.listed()),
    {
        let n = self.list.len();
        let ghost slots = self.listed();
        assert(slots.len() == n);
        let at = self.place(hash);
        let target = limit as usize;
        let ghost walk = members(clockwise(slots, hash));
        proof {
            lemma_clockwise(slots, hash, at as int);
        }
        assert(walk.len() == n);
        let mut result: Vec<Node> = Vec::new();
        let mut j: usize = 0;
        assert(walk.take(0) =~= Seq::empty());
        assert(nodes_of(result@) =~= distinct(walk.take(0)));
        while j < n && result.len() < target
            invariant
                j <= n,
                at <= n,
                n == self.list@.len(),
                slots == slots_in(self.list@),
                walk == members(slots.skip(at as int) + slots.take(at as int)),
                walk.len() == n,
                nodes_of(result@) == distinct(walk.take(j as int)),
                result@.len() <= target,
            decreases n - j,
        {
            let i = if j < n - at {
                at + j
            } else {
                j - (n - at)
            };
            let node = &self.list[i].1;
            assert(slots[i as int].1 == node@);
            assert(walk[j as int] == node@);
            assert(walk.take(j + 1).drop_last() =~= walk.take(j as int));
            let ghost before = result@;
            if !has_id(&result, node.id.as_str()) {
                result.push(node.clone());
                assert(nodes_of(result@) =~= nodes_of(before).push(node@));
            }
            j = j + 1;
        }
        proof {
            lemma_distinct_prefix(walk, j as int);
            assert(walk.take(n as int) =~= walk);
            assert(nodes_of(result@).len() == result@.len());
            assert(nodes_of(result@) =~= at_most(distinct(walk), target as int));
        }
        result
    }

    /// All physical nodes, each once.
    pub fn all_nodes(&self) -> (nodes: Vec<Node>)
        ensures
            nodes_of(nodes@) == distinct(members(self.listed())),
            increasing(self.listed()),
    {
        self.recall_order();
        let n = self.list.len();
        let ghost all = members(self.listed());
        let mut nodes: Vec<Node> = Vec::new();
        let mut i: usize = 0;
        assert(all.take(0) =~= Seq::empty());
        assert(nodes_of(nodes@) =~= distinct(all.take(0)));
        while i < n
            invariant
                i <= n,
                n == self.list@.len(),
                all == members(slots_in(self.list@)),
                nodes_of(nodes@) == distinct(all.take(i as int)),
            decreases n - i,
        {
            let node = &self.list[i].1;
            assert(all[i as int] == node@);
            assert(all.take(i + 1).drop_last() =~= all.take(i as int));
            let ghost before = nodes@;
            if !has_id(&nodes, node.id.as_str()) {
                nodes.push(node.clone());
                assert(nodes_of(nodes@) =~= nodes_of(before).push(node@));
            }
            i = i + 1;
        }
        assert(all.take(n as int) =~= all);
        nodes
    }
}

/// Consistent hash ring with virtual nodes for even distribution.
pub struct HashRing {
    table: Slots,
    vnodes_per_node: u32,
    replication_factor: u32,
}

impl HashRing {
    /// The occupied positions with their nodes, by increasing position.
    pub closed spec fn slots(&self) -> Seq<(u64, Member)> {
        self.table.listed()
    }

    /// How many virtual nodes a node gets.
    pub closed spec fn vnodes(&self) -> u32 {
        self.vnodes_per_node
    }

    /// On how many nodes a key is stored.
    pub closed spec fn factor(&self) -> u32 {
        self.replication_factor
    }

    /// The positions increase, and each is that of one of its node's virtual
    /// nodes.
    pub open spec fn well_formed(&self) -> bool {
        &&& increasing(self.slots())
        &&& placed(self@, self.vnodes() as nat)
    }

    #[verifier::type_invariant]
    closed spec fn holds_virtual_nodes(&self) -> bool {
        placed(self.table@, self.vnodes_per_node as nat)
    }
}

impl View for HashRing {
    type V = Map<u64, Member>;

    open spec fn view(&self) -> Map<u64, Member> {
        slot_map(self.slots())
    }
}

impl HashRing {
    /// Create a new hash ring.
    /// - `vnodes_per_node`: number of virtual nodes per physical node (higher = more balanced)
    /// - `replication_factor`: how many nodes each key is stored on
    pub fn new(vnodes_per_node: u32, replication_factor: u32) -> (ring: Self)
        ensures
            ring.slots() == Seq::<(u64, Member)>::empty(),
            ring@ == Map::<u64, Member>::empty(),
            ring.well_formed(),
            ring.vnodes() == vnodes_per_node,
            ring.factor() == replication_factor,
    {
        let table = Slots::new();
        HashRing { table, vnodes_per_node, replication_factor }
    }

    /// Hash a string to a u64 position on the ring.
    fn hash(input: &str) -> (hash: u64)
        ensures
            hash == ring_hash(input@),
    {
        let digest = sha256(input.as_bytes());
        position_of(digest.as_slice())
    }

    /// Does nothing but recall that the ring is well formed.
    pub(crate) fn recall_order(&self)
        ensures
            self.well_formed(),
    {
        self.table.recall_order();
        proof {
            use_type_invariant(self);
        }
    }

    /// Add a node to the ring with its virtual nodes. Keys move to it or not at
    /// all.
    pub fn add_node(&mut self, node: Node)
        ensures
            final(self)@ == with_node(old(self)@, node@, old(self).vnodes() as nat),
            final(self).well_formed(),
            final(self).vnodes() == old(self).vnodes(),
            final(self).factor() == old(self).factor(),
            old(self).vnodes() >= 1 ==> distinct(members(final(self).slots())).contains(node@),
            forall|hash: u64|
                primary(old(self).slots(), hash) == #[trigger] primary(final(self).slots(), hash)
                    || primary(final(self).slots(), hash) == Some(node@),
    {
        self.recall_order();
        let ghost before = self@;
        let ghost slots = self.slots();
        let vnodes = self.vnodes_per_node;
        let mut table = Slots::new();
        std::mem::swap(&mut table, &mut self.table);
        let mut i: u32 = 0;
        assert(table@ =~= with_node(before, node@, 0));
        while i < vnodes
            invariant
                i <= vnodes,
                table@ == with_node(before, node@, i as nat),
                increasing(table.listed()),
            decreases vnodes - i,
        {
            let mut vnode_key = node.id.clone();
            vnode_key.append(":vnode:");
            vnode_key.append(decimal_text(i as u64).as_str());
            let hash = Self::hash(vnode_key.as_str());
            assert(hash == ring_hash(vnode_name(node.id@, i as nat)));
            table.occupy(hash, node.clone());
            proof {
                let next = with_node(before, node@, (i + 1) as nat);
                assert forall|h: u64| has_vnode(node.id@, (i + 1) as nat, h) == (h == hash
                    || #[trigger] has_vnode(node.id@, i as nat, h)) by {
                    if has_vnode(node.id@, (i + 1) as nat, h) {
                        let k = choose|k: nat|
                            k < i + 1 && h == ring_hash(#[trigger] vnode_name(node.id@, k));
                        if k < i {
                            assert(has_vnode(node.id@, i as nat, h));
                        }
                    }
                    if has_vnode(node.id@, i as nat, h) {
                        let k = choose|k: nat|
                            k < i && h == ring_hash(#[trigger] vnode_name(node.id@, k));
                        assert(has_vnode(node.id@, (i + 1) as nat, h));
                    }
                }
                assert(table@ =~= next);
            }
            i = i + 1;
        }
        let ghost after = table.listed();
        proof {
            law_addition_keeps_slots_placed(before, node@, vnodes as nat);
            if vnodes >= 1 {
                law_added_node_is_listed(slots, after, node@, vnodes as nat);
            }
            assert forall|hash: u64|
                primary(slots, hash) == #[trigger] primary(after, hash) || primary(after, hash)
                    == Some(node@) by {
                law_added_node_takes_keys_only_for_itself(slots, after, node@, vnodes as nat, hash);
            }
        }
        self.table = table;
    }

    /// Remove a node and all its virtual nodes from the ring.
    pub fn remove_node(&mut self, node_id: &str)
        ensures
            final(self).slots() == without_node(old(self).slots(), node_id@),
            final(self)@ == map_without(old(self)@, node_id@),
            final(self).well_formed(),
            final(self).vnodes() == old(self).vnodes(),
            final(self).factor() == old(self).factor(),
    {
        self.recall_order();
        proof {
            law_removal_keeps_slots_placed(self@, node_id@, self.vnodes() as nat);
        }
        let mut table = Slots::new();
        std::mem::swap(&mut table, &mut self.table);
        table.vacate(node_id);
        self.table = table;
    }

    /// Get the primary node responsible for this key.
    pub fn get_node(&self, key: &str) -> (node: Option<Node>)
        ensures
            member_of(node) == primary(self.slots(), ring_hash(key@)),
            self.well_formed(),
    {
        self.recall_order();
        let hash = Self::hash(key);
        self.table.node_at(hash)
    }

    /// Get the N nodes responsible for this key (preference list).
    /// Returns up to `replication_factor` unique physical nodes.
    pub fn get_nodes(&self, key: &str) -> (nodes: Vec<Node>)
        ensures
            nodes_of(nodes@) == at_most(
                preference(self.slots(), ring_hash(key@)),
                self.factor() as int,
            ),
            self.well_formed(),
    {
        self.recall_order();
        let hash = Self::hash(key);
        self.table.nodes_at(hash, self.replication_factor)
    }

    /// Get all unique physical nodes in the ring.
    pub fn get_all_nodes(&self) -> (nodes: Vec<Node>)
        ensures
            nodes_of(nodes@) == distinct(members(self.slots())),
            self.well_formed(),
    {
        self.recall_order();
        self.table.all_nodes()
    }

    /// Get the number of unique physical nodes.
    pub fn node_count(&self) -> (n: usize)
        ensures
            n == distinct(members(self.slots())).len(),
            self.well_formed(),
    {
        let nodes = self.get_all_nodes();
        assert(nodes_of(nodes@).len() == nodes@.len());
        nodes.len()
    }

    /// Check if a node is responsible for a given key.
    pub fn is_responsible(&self, node_id: &str, key: &str) -> (yes: bool)
        ensures
            yes == lists(
                at_most(preference(self.slots(), ring_hash(key@)), self.factor() as int),
                node_id@,
            ),
            self.well_formed(),
    {
        let nodes = self.get_nodes(key);
        has_id(&nodes, node_id)
    }

    /// The position of a key on the ring.
    pub fn get_hash_for_key(key: &str) -> (hash: u64)
        ensures
            hash == ring_hash(key@),
    {
        Self::hash(key)
    }

    /// How many nodes each key is stored on.
    pub fn replication_factor(&self) -> (n: u32)
        ensures
            n == self.factor(),
    {
        self.replication_factor
    }
}

/// Whether a node with an id is among nodes.
pub fn has_id(nodes: &Vec<Node>, id: &str) -> (found: bool)
    ensures
        found == lists(nodes_of(nodes@), id@),
{
    let wanted = id.to_string();
    let mut i: usize = 0;
    while i < nodes.len()
        invariant
            i <= nodes@.len(),
            wanted@ == id@,
            forall|j: int| 0 <= j < i ==> (#[trigger] nodes_of(nodes@)[j]).id != id@,
        decreases nodes@.len() - i,
    {
        assert(nodes_of(nodes@)[i as int].id == nodes@[i as int].id@);
        if nodes[i].id == wanted {
            return true;
        }
        i = i + 1;
    }
    false
}

/// Filtering the slots of a node out takes its positions out of the map.
proof fn lemma_without_node(slots: Seq<(u64, Member)>, id: Seq<char>)
    requires
        increasing(slots),
    ensures
        slot_map(without_node(slots, id)) == map_without(slot_map(slots), id),
{
    broadcast use vstd::seq_lib::group_filter_ensures;

    let keep = |slot: (u64, Member)| slot.1.id != id;
    let left = without_node(slots, id);
    let after = map_without(slot_map(slots), id);
    lemma_filter_increasing(slots, keep);
    assert forall|h: u64| #[trigger] slot_map(left).dom().contains(h) implies after.dom().contains(
        h,
    ) && slot_map(left)[h] == after[h] by {
        let i = choose|i: int| 0 <= i < left.len() && #[trigger] left[i].0 == h;
        lemma_slot_at(left, i);
        crate::seqs::lemma_filter_source(slots, keep, i);
        let j = choose|j: int| 0 <= j < slots.len() && slots[j] == left[i];
        lemma_slot_at(slots, j);
    }
    assert forall|h: u64| #[trigger] after.dom().contains(h) implies slot_map(left).dom().contains(
        h,
    ) by {
        let j = choose|j: int| 0 <= j < slots.len() && #[trigger] slots[j].0 == h;
        lemma_slot_at(slots, j);
        assert(left.contains(slots[j]));
        let i = choose|i: int| 0 <= i < left.len() && left[i] == slots[j];
        assert(left[i].0 == h);
    }
    assert(slot_map(left) =~= after);
}

/// Keeping some of the slots keeps them in order.
pub proof fn lemma_filter_increasing(
    slots: Seq<(u64, Member)>,
    keep: spec_fn((u64, Member)) -> bool,
)
    requires
        increasing(slots),
    ensures
        increasing(slots.filter(keep)),
    decreases slots.len(),
{
    reveal(Seq::filter);
    if slots.len() > 0 {
        let init = slots.drop_last();
        assert forall|i: int, j: int| #![trigger init[i], init[j]]
            0 <= i < j < init.len() implies init[i].0 < init[j].0 by {
            assert(slots[i].0 < slots[j].0);
        }
        lemma_filter_increasing(init, keep);
        let kept = init.filter(keep);
        let all = slots.filter(keep);
        assert forall|i: int, j: int| #![trigger all[i], all[j]]
            0 <= i < j < all.len() implies all[i].0 < all[j].0 by {
            if j < kept.len() {
                assert(kept[i].0 < kept[j].0);
            } else {
                crate::seqs::lemma_filter_source(init, keep, i);
                let k = choose|k: int| 0 <= k < init.len() && init[k] == kept[i];
                assert(slots[k].0 < slots[slots.len() - 1].0);
            }
        }
    }
}

} // verus!
