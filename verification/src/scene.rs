//! The scene tree: nodes kept in a slot map, each with a parent and an ordered
//! list of children, under one root that is its own parent.
//!
//! A node records what it stands for (nothing, a mesh or a camera) by a handle
//! that the caller chose; the geometry, the camera and the node's local
//! transform are kept by the caller under that handle and under the node's id.

use vstd::prelude::*;
use slotmap::{DefaultKey, Key, KeyData, SlotMap};

verus! {

/// The id of a scene node: the 64-bit form of its slot map key.
pub type NodeId = u64;

/// What a node stands for. The number is the caller's handle for the mesh,
/// the camera or the light.
#[derive(Clone, Copy, PartialEq, Eq, Structural, Debug)]
pub enum NodeData {
    Empty,
    Mesh(u64),
    Camera(u64),
    Light(u64),
}

/// One node of the tree.
pub struct Node {
    pub id: NodeId,
    /// Equal to `id` for the root.
    pub parent_id: NodeId,
    pub data: NodeData,
    pub children_ids: Vec<NodeId>,
}

/// The key that an id names: a slot map key built from a 64-bit value always
/// has an odd version, so bit 32 of the value does not tell ids apart.
pub open spec fn key_of(id: u64) -> u64 {
    id | 0x1_0000_0000u64
}

/// The parent that a new node gets: the one given, or the node itself.
pub open spec fn parent_or_self(parent: Option<u64>, id: u64) -> u64 {
    match parent {
        Some(p) => p,
        None => id,
    }
}

/// A node that has just been made: given id, parent and data, no children.
pub open spec fn is_fresh_node(n: Node, id: u64, parent_id: u64, data: NodeData) -> bool {
    &&& n.id == id
    &&& n.parent_id == parent_id
    &&& n.data == data
    &&& n.children_ids@ == Seq::<u64>::empty()
}

/// What a node is, with its children as a sequence.
pub ghost struct NodeView {
    pub id: u64,
    pub parent_id: u64,
    pub data: NodeData,
    pub children_ids: Seq<u64>,
}

impl View for Node {
    type V = NodeView;

    open spec fn view(&self) -> NodeView {
        NodeView {
            id: self.id,
            parent_id: self.parent_id,
            data: self.data,
            children_ids: self.children_ids@,
        }
    }
}

impl Node {
    /// A node with the given id and data and no children, under `parent`, or
    /// its own parent where there is none.
    fn attached(id: NodeId, parent: Option<NodeId>, data: NodeData) -> (n: Node)
        ensures
            is_fresh_node(n, id, parent_or_self(parent, id), data),
    {
        let parent_id = match parent {
            Some(p) => p,
            None => id,
        };
        Node { id, parent_id, data, children_ids: Vec::new() }
    }

    /// Whether this node is the root, that is, its own parent.
    pub fn is_root(&self) -> (r: bool)
        ensures
            r == (self.id == self.parent_id),
    {
        self.id == self.parent_id
    }
}

/// The slot map that holds the nodes of a tree, keyed by `DefaultKey`. The
/// map is opaque; what it holds is `slot_contents`.
#[verifier::external_body]
pub struct NodeSlots {
    map: SlotMap<DefaultKey, Node>,
}

/// What a slot map of nodes holds: each node under the 64-bit form of its key
/// (`KeyData::as_ffi`: the version, always odd for a key in use, in the high
/// half and the slot index in the low half).
pub uninterp spec fn slot_contents(m: NodeSlots) -> Map<u64, Node>;

/// `SlotMap::new`: a new slot map holds nothing.
#[verifier::external_body]
fn slots_new() -> (slots: NodeSlots)
    ensures
        slot_contents(slots).dom() == Set::<u64>::empty(),
{
    NodeSlots { map: SlotMap::new() }
}

/// `SlotMap::insert_with_key`: the map gets a key that it did not hold, and
/// under it the node that the closure builds from that key. The slot map panics
/// only when it has no free slot and `u32::MAX` slots, one of them the unused
/// slot it keeps at index 0, that is when it holds `u32::MAX - 1` values and
/// none was freed; `requires` rules that out. Which free key it takes (the
/// slot freed last, with a raised version, or a new slot) is left unsaid: the
/// contents do not show the map's free list.
#[verifier::external_body]
fn slots_insert_with_key(m: &mut NodeSlots, parent: Option<u64>, data: NodeData) -> (id: u64)
    requires
        slot_contents(*old(m)).dom().finite(),
        slot_contents(*old(m)).dom().len() < u32::MAX - 1,
    ensures
        !slot_contents(*old(m)).contains_key(id),
        key_of(id) == id,
        slot_contents(*final(m)) == slot_contents(*old(m)).insert(id, slot_contents(*final(m))[id]),
        is_fresh_node(slot_contents(*final(m))[id], id, parent_or_self(parent, id), data),
{
    let k = m.map.insert_with_key(|k: DefaultKey| Node::attached(k.data().as_ffi(), parent, data));
    k.data().as_ffi()
}

/// `SlotMap::contains_key` on the key built from `id` by `KeyData::from_ffi`.
#[verifier::external_body]
fn slots_contains(m: &NodeSlots, id: u64) -> (r: bool)
    ensures
        r == slot_contents(*m).contains_key(key_of(id)),
{
    m.map.contains_key(DefaultKey::from(KeyData::from_ffi(id)))
}

/// `SlotMap::get` on the key built from `id`.
#[verifier::external_body]
fn slots_get(m: &NodeSlots, id: u64) -> (r: Option<&Node>)
    ensures
        match r {
            Some(n) => slot_contents(*m).contains_key(key_of(id)) && *n == slot_contents(*m)[key_of(id)],
            None => !slot_contents(*m).contains_key(key_of(id)),
        },
{
    m.map.get(DefaultKey::from(KeyData::from_ffi(id)))
}

/// `SlotMap::get_mut` on the key built from `id`: what is written through the
/// reference is what the map holds under that key afterwards.
#[verifier::external_body]
fn slots_get_mut(m: &mut NodeSlots, id: u64) -> (r: Option<&mut Node>)
    ensures
        match r {
            Some(n) => {
                &&& slot_contents(*old(m)).contains_key(key_of(id))
                &&& *n == slot_contents(*old(m))[key_of(id)]
                &&& slot_contents(*final(m)) == slot_contents(*old(m)).insert(key_of(id), *final(n))
            },
            None => {
                &&& !slot_contents(*old(m)).contains_key(key_of(id))
                &&& slot_contents(*final(m)) == slot_contents(*old(m))
            },
        },
{
    m.map.get_mut(DefaultKey::from(KeyData::from_ffi(id)))
}

/// `SlotMap::remove` on the key built from `id`: the value under the key comes
/// out, and the key is no longer held.
#[verifier::external_body]
fn slots_remove(m: &mut NodeSlots, id: u64) -> (r: Option<Node>)
    ensures
        r == slot_contents(*old(m)).get(key_of(id)),
        slot_contents(*final(m)) == slot_contents(*old(m)).remove(key_of(id)),
{
    m.map.remove(DefaultKey::from(KeyData::from_ffi(id)))
}

/// A sequence with every occurrence of `x` taken out, the rest in order.
pub open spec fn without(s: Seq<u64>, x: u64) -> Seq<u64>
    decreases s.len(),
{
    if s.len() == 0 {
        s
    } else if s.last() == x {
        without(s.drop_last(), x)
    } else {
        without(s.drop_last(), x).push(s.last())
    }
}

/// `m` with a new node `c`, holding `data`, put last among the children of `p`.
pub open spec fn inserted_under(m: Map<u64, NodeView>, p: u64, c: u64, data: NodeData) -> Map<u64, NodeView> {
    m.insert(c, NodeView { id: c, parent_id: p, data, children_ids: Seq::empty() }).insert(
        p,
        NodeView {
            id: m[p].id,
            parent_id: m[p].parent_id,
            data: m[p].data,
            children_ids: m[p].children_ids.push(c),
        },
    )
}

/// An id that names a key is its own key.
pub proof fn lemma_key_of_key(id: u64)
    ensures
        key_of(key_of(id)) == key_of(id),
{
    assert((id | 0x1_0000_0000u64) | 0x1_0000_0000u64 == id | 0x1_0000_0000u64) by (bit_vector);
}

/// `m` without the leaf `k`, which is also taken out of its parent's children.
pub open spec fn removed_leaf(m: Map<u64, NodeView>, k: u64) -> Map<u64, NodeView> {
    let p = m[k].parent_id;
    m.remove(k).insert(
        p,
        NodeView {
            id: m[p].id,
            parent_id: m[p].parent_id,
            data: m[p].data,
            children_ids: without(m[p].children_ids, k),
        },
    )
}

/// What is left of `s` without `x` is what `s` holds but `x`.
pub proof fn lemma_without_contains(s: Seq<u64>, x: u64, y: u64)
    ensures
        without(s, x).contains(y) <==> (s.contains(y) && y != x),
    decreases s.len(),
{
    if s.len() > 0 {
        let d = s.drop_last();
        lemma_without_contains(d, x, y);
        let r = without(d, x);
        let w = without(s, x);
        if s.contains(y) && y != x {
            let j = choose|j: int| 0 <= j < s.len() && s[j] == y;
            if j < s.len() - 1 {
                assert(d[j] == y);
                assert(d.contains(y));
                let i = choose|i: int| 0 <= i < r.len() && r[i] == y;
                assert(w[i] == y);
            } else {
                assert(s.last() == y);
                assert(w[r.len() as int] == y);
            }
        }
        if w.contains(y) {
            let j = choose|j: int| 0 <= j < w.len() && w[j] == y;
            if j < r.len() {
                assert(r[j] == y);
                assert(r.contains(y));
                let i = choose|i: int| 0 <= i < d.len() && d[i] == y;
                assert(s[i] == y);
            } else {
                assert(s.last() != x);
                assert(s[s.len() - 1] == y);
            }
        }
    }
}

/// Taking a value out keeps a sequence free of repeats.
pub proof fn lemma_without_no_duplicates(s: Seq<u64>, x: u64)
    requires
        s.no_duplicates(),
    ensures
        without(s, x).no_duplicates(),
    decreases s.len(),
{
    if s.len() > 0 {
        assert(s.drop_last().no_duplicates());
        lemma_without_no_duplicates(s.drop_last(), x);
        if s.last() != x {
            let r = without(s.drop_last(), x);
            lemma_without_contains(s.drop_last(), x, s.last());
            assert(!s.drop_last().contains(s.last())) by {
                if s.drop_last().contains(s.last()) {
                    let j = choose|j: int| 0 <= j < s.drop_last().len() && s.drop_last()[j] == s.last();
                    assert(s[j] == s[s.len() - 1]);
                }
            }
            assert forall|i: int, j: int| 0 <= i < j < r.push(s.last()).len() implies r.push(s.last())[i]
                != r.push(s.last())[j] by {
                if j == r.len() {
                    assert(r.contains(r[i]));
                }
            }
        }
    }
}

/// A sequence that does not hold `x` is left as it is.
pub proof fn lemma_without_absent(s: Seq<u64>, x: u64)
    requires
        !s.contains(x),
    ensures
        without(s, x) == s,
    decreases s.len(),
{
    if s.len() > 0 {
        assert(!s.drop_last().contains(x)) by {
            if s.drop_last().contains(x) {
                let j = choose|j: int| 0 <= j < s.drop_last().len() && s.drop_last()[j] == x;
                assert(s[j] == x);
            }
        }
        lemma_without_absent(s.drop_last(), x);
        assert(s.last() != x) by {
            assert(s[s.len() - 1] == s.last());
        }
        assert(s.drop_last().push(s.last()) =~= s);
    }
}

/// The children of `k` are nodes of the tree, none of them the root, each with
/// `k` as its parent, and none twice.
pub open spec fn children_ok(m: Map<u64, NodeView>, root: u64, k: u64) -> bool {
    &&& m[k].children_ids.no_duplicates()
    &&& forall|i: int|
        #![trigger m[k].children_ids[i]]
        0 <= i < m[k].children_ids.len() ==> {
            let c = m[k].children_ids[i];
            &&& c != root
            &&& m.contains_key(c)
            &&& m[c].parent_id == k
        }
}

/// Node `k` is in order: it is stored under its own id, which is a key's id;
/// unless it is the root, its parent is another node of the tree that lists it
/// among its children and ranks one below it; its children are in order.
pub open spec fn node_ok(m: Map<u64, NodeView>, rank: Map<u64, nat>, bound: nat, root: u64, k: u64) -> bool {
    &&& key_of(k) == k
    &&& m[k].id == k
    &&& rank.contains_key(k)
    &&& rank[k] < bound
    &&& k != root ==> {
        let p = m[k].parent_id;
        &&& p != k
        &&& m.contains_key(p)
        &&& m[p].children_ids.contains(k)
        &&& rank.contains_key(p)
        &&& rank[k] == rank[p] + 1
    }
    &&& children_ok(m, root, k)
}

/// The ids of `v` but `x`, in order.
fn ids_without(v: &Vec<u64>, x: u64) -> (r: Vec<u64>)
    ensures
        r@ == without(v@, x),
{
    let mut r: Vec<u64> = Vec::new();
    let mut i: usize = 0;
    while i < v.len()
        invariant
            i <= v.len(),
            r@ == without(v@.subrange(0, i as int), x),
        decreases v.len() - i,
    {
        assert(v@.subrange(0, i + 1).drop_last() =~= v@.subrange(0, i as int));
        if v[i] != x {
            r.push(v[i]);
        }
        i = i + 1;
    }
    assert(v@.subrange(0, v.len() as int) =~= v@);
    r
}

/// What `insert_under(data, under_id)` does to a tree `m`, giving `r` and the
/// tree `new_m`: `None` and no change where `m` holds no such node; else a new
/// id, not held before, naming a key, and the node put under it.
pub open spec fn insert_under_outcome(
    m: Map<u64, NodeView>,
    under_id: u64,
    data: NodeData,
    r: Option<u64>,
    new_m: Map<u64, NodeView>,
) -> bool {
    match r {
        None => {
            &&& !m.contains_key(key_of(under_id))
            &&& new_m == m
        },
        Some(c) => {
            &&& m.contains_key(key_of(under_id))
            &&& !m.contains_key(c)
            &&& key_of(c) == c
            &&& new_m == inserted_under(m, key_of(under_id), c, data)
        },
    }
}

/// What `delete(id)` does to a tree `m` with root `root`, giving `r` and the
/// tree `new_m`. The errors, in the order tested: no such node, the root, a node
/// with children; each leaves the tree as it was. A leaf other than the root is
/// taken out and struck from its parent's children.
pub open spec fn delete_outcome(
    m: Map<u64, NodeView>,
    root: u64,
    id: u64,
    r: Result<(), String>,
    new_m: Map<u64, NodeView>,
) -> bool {
    let k = key_of(id);
    if !m.contains_key(k) {
        &&& new_m == m
        &&& r matches Err(e) && e@ == "No such node with specified id"@
    } else if k == root {
        &&& new_m == m
        &&& r matches Err(e) && e@ == "Cannot remove root from scene tree"@
    } else if m[k].children_ids.len() > 0 {
        &&& new_m == m
        &&& r matches Err(e) && e@ == "Cannot remove interstitial node"@
    } else {
        &&& r is Ok
        &&& new_m == removed_leaf(m, k)
    }
}

/// `s` climbs from its first node to the root, one parent link at a time,
/// meeting the root only at its end.
pub open spec fn climbs_to_root(m: Map<u64, NodeView>, root: u64, s: Seq<u64>) -> bool {
    &&& s.len() > 0
    &&& s.last() == root
    &&& forall|i: int|
        #![trigger s[i]]
        0 <= i < s.len() - 1 ==> {
            &&& s[i] != root
            &&& m.contains_key(s[i])
            &&& s[i + 1] == m[s[i]].parent_id
        }
}

/// The mesh (or, where `lights` holds, the light) that node `k` holds, with
/// the node's id, if it holds one.
pub open spec fn own_item(m: Map<u64, NodeView>, k: u64, lights: bool) -> Seq<(u64, u64)> {
    match m[k].data {
        NodeData::Mesh(h) => if lights { Seq::empty() } else { seq![(k, h)] },
        NodeData::Light(h) => if lights { seq![(k, h)] } else { Seq::empty() },
        _ => Seq::empty(),
    }
}

/// The meshes (or lights) of the subtree under `k`, in the order in which a
/// walk that takes the last unvisited child first meets them: `k`'s own, then
/// those under its last child, then under the child before, and so on. The
/// walk goes `depth` levels down.
pub open spec fn items_below(m: Map<u64, NodeView>, k: u64, lights: bool, depth: nat) -> Seq<(u64, u64)>
    decreases depth, 0nat,
{
    if depth == 0 {
        Seq::empty()
    } else {
        own_item(m, k, lights) + items_of(m, m[k].children_ids, lights, (depth - 1) as nat)
    }
}

/// The meshes (or lights) under the nodes of `list`, the last node's first.
pub open spec fn items_of(m: Map<u64, NodeView>, list: Seq<u64>, lights: bool, depth: nat) -> Seq<(u64, u64)>
    decreases depth, list.len() + 1,
{
    if list.len() == 0 {
        Seq::empty()
    } else {
        items_below(m, list.last(), lights, depth) + items_of(m, list.drop_last(), lights, depth)
    }
}

/// What is met under a member of `list` is met under `list`.
proof fn lemma_items_of_member(m: Map<u64, NodeView>, list: Seq<u64>, lights: bool, d: nat, j: int, x: (u64, u64))
    requires
        0 <= j < list.len(),
        items_below(m, list[j], lights, d).contains(x),
    ensures
        items_of(m, list, lights, d).contains(x),
    decreases list.len(),
{
    let below = items_below(m, list.last(), lights, d);
    let rest = items_of(m, list.drop_last(), lights, d);
    if j == list.len() - 1 {
        let i = choose|i: int| 0 <= i < below.len() && below[i] == x;
        assert((below + rest)[i] == x);
    } else {
        assert(list.drop_last()[j] == list[j]);
        lemma_items_of_member(m, list.drop_last(), lights, d, j, x);
        let i = choose|i: int| 0 <= i < rest.len() && rest[i] == x;
        assert((below + rest)[below.len() + i] == x);
    }
}

/// Whether `x` names a node of `m` and the mesh (or light) it holds.
pub open spec fn is_item_of(m: Map<u64, NodeView>, x: (u64, u64), lights: bool) -> bool {
    &&& m.contains_key(x.0)
    &&& m[x.0].data == (if lights { NodeData::Light(x.1) } else { NodeData::Mesh(x.1) })
}

/// Everything met under `k` is a node of the tree holding a mesh (or light),
/// where every child of a node of the tree is a node of the tree.
proof fn lemma_items_are_items(m: Map<u64, NodeView>, root: u64, k: u64, lights: bool, d: nat)
    requires
        m.contains_key(k),
        forall|j: u64| #[trigger] m.contains_key(j) ==> children_ok(m, root, j),
    ensures
        forall|i: int|
            #![trigger items_below(m, k, lights, d)[i]]
            0 <= i < items_below(m, k, lights, d).len() ==> is_item_of(m, items_below(m, k, lights, d)[i], lights),
    decreases d, 0nat,
{
    if d > 0 {
        let ch = m[k].children_ids;
        lemma_items_of_are_items(m, root, ch, lights, (d - 1) as nat);
        let own = own_item(m, k, lights);
        let rest = items_of(m, ch, lights, (d - 1) as nat);
        assert forall|i: int| 0 <= i < (own + rest).len() implies is_item_of(m, #[trigger] (own + rest)[i], lights) by {
            if i >= own.len() {
                assert((own + rest)[i] == rest[i - own.len()]);
            }
        }
    }
}

proof fn lemma_items_of_are_items(m: Map<u64, NodeView>, root: u64, list: Seq<u64>, lights: bool, d: nat)
    requires
        forall|i: int| 0 <= i < list.len() ==> m.contains_key(#[trigger] list[i]),
        forall|j: u64| #[trigger] m.contains_key(j) ==> children_ok(m, root, j),
    ensures
        forall|i: int|
            #![trigger items_of(m, list, lights, d)[i]]
            0 <= i < items_of(m, list, lights, d).len() ==> is_item_of(m, items_of(m, list, lights, d)[i], lights),
    decreases d, list.len() + 1,
{
    if list.len() > 0 {
        assert(m.contains_key(list[list.len() - 1]));
        lemma_items_are_items(m, root, list.last(), lights, d);
        assert forall|i: int| 0 <= i < list.drop_last().len() implies m.contains_key(#[trigger] list.drop_last()[i]) by {
            assert(list.drop_last()[i] == list[i]);
        }
        lemma_items_of_are_items(m, root, list.drop_last(), lights, d);
        let a = items_below(m, list.last(), lights, d);
        let b = items_of(m, list.drop_last(), lights, d);
        assert forall|i: int| 0 <= i < (a + b).len() implies is_item_of(m, #[trigger] (a + b)[i], lights) by {
            if i >= a.len() {
                assert((a + b)[i] == b[i - a.len()]);
            } else {
                assert((a + b)[i] == a[i]);
            }
        }
    }
}

/// The node `t` parent links above `j`.
pub open spec fn ancestor(m: Map<u64, NodeView>, j: u64, t: nat) -> u64
    decreases t,
{
    if t == 0 {
        j
    } else {
        ancestor(m, m[j].parent_id, (t - 1) as nat)
    }
}

proof fn lemma_ancestor_step(m: Map<u64, NodeView>, j: u64, t: nat)
    ensures
        ancestor(m, j, t + 1) == m[ancestor(m, j, t)].parent_id,
    decreases t,
{
    let p = m[j].parent_id;
    assert(ancestor(m, j, t + 1) == ancestor(m, p, t));
    if t > 0 {
        lemma_ancestor_step(m, p, (t - 1) as nat);
        assert(ancestor(m, j, t) == ancestor(m, p, (t - 1) as nat));
    } else {
        assert(ancestor(m, p, 0) == p);
    }
}

/// What is met under some member of `list` when `list` meets `x`.
proof fn lemma_items_of_source(m: Map<u64, NodeView>, list: Seq<u64>, lights: bool, d: nat, x: (u64, u64)) -> (j: int)
    requires
        items_of(m, list, lights, d).contains(x),
    ensures
        0 <= j < list.len(),
        items_below(m, list[j], lights, d).contains(x),
    decreases list.len(),
{
    let below = items_below(m, list.last(), lights, d);
    let rest = items_of(m, list.drop_last(), lights, d);
    let i = choose|i: int| 0 <= i < (below + rest).len() && (below + rest)[i] == x;
    if i < below.len() {
        assert(below[i] == x);
        (list.len() - 1) as int
    } else {
        assert(rest[i - below.len()] == x);
        let j = lemma_items_of_source(m, list.drop_last(), lights, d, x);
        assert(list.drop_last()[j] == list[j]);
        j
    }
}

/// Two sequences without repeats and without a common element make one
/// without repeats.
proof fn lemma_concat_no_duplicates(a: Seq<(u64, u64)>, b: Seq<(u64, u64)>)
    requires
        a.no_duplicates(),
        b.no_duplicates(),
        forall|x: (u64, u64)| a.contains(x) ==> !b.contains(x),
    ensures
        (a + b).no_duplicates(),
{
    let c = a + b;
    assert forall|i: int, j: int| 0 <= i < j < c.len() implies c[i] != c[j] by {
        if i < a.len() && j >= a.len() {
            assert(c[i] == a[i] && c[j] == b[j - a.len()]);
            assert(a.contains(a[i]));
            assert(b.contains(b[j - a.len()]));
        } else if i >= a.len() {
            assert(c[i] == b[i - a.len()] && c[j] == b[j - a.len()]);
        } else {
            assert(c[i] == a[i] && c[j] == a[j]);
        }
    }
}

/// A tree of nodes: a root that is its own parent, and every other node reached
/// from it by one parent link after another.
pub struct SceneTree {
    nodes: NodeSlots,
    root: NodeId,
    /// Each node's distance from the root.
    rank: Ghost<Map<u64, nat>>,
    /// A bound above every rank.
    rank_bound: Ghost<nat>,
}

impl View for SceneTree {
    type V = Map<u64, NodeView>;

    closed spec fn view(&self) -> Map<u64, NodeView> {
        Map::new(
            |k: u64| slot_contents(self.nodes).contains_key(k),
            |k: u64| slot_contents(self.nodes)[k]@,
        )
    }
}

impl SceneTree {
    /// The id of the root.
    pub closed spec fn root_id(&self) -> u64 {
        self.root
    }

    /// The tree is in order: finitely many nodes, the root among them and its
    /// own parent, and every node in order.
    pub closed spec fn wf(&self) -> bool {
        let m = self@;
        &&& m.dom().finite()
        &&& m.contains_key(self.root)
        &&& m[self.root].parent_id == self.root
        &&& self.rank@.contains_key(self.root)
        &&& self.rank@[self.root] == 0
        &&& forall|k: u64| #[trigger]
            m.contains_key(k) ==> node_ok(m, self.rank@, self.rank_bound@, self.root, k)
    }

    /// The meshes (or lights) of the tree in the order of a walk from the root
    /// that takes the last unvisited child first, deep enough to reach every
    /// node.
    pub closed spec fn item_order(&self, lights: bool) -> Seq<(u64, u64)> {
        items_below(self@, self.root, lights, self.rank_bound@)
    }

    /// Deleting the node that `insert_under` has just put into a tree is
    /// allowed (the node is a leaf other than the root) and gives the tree back
    /// as it was.
    pub proof fn lemma_delete_undoes_insert(&self, p: u64, c: u64, data: NodeData)
        requires
            self.wf(),
            self@.contains_key(p),
            !self@.contains_key(c),
        ensures
            inserted_under(self@, p, c, data).contains_key(c),
            c != self.root_id(),
            inserted_under(self@, p, c, data)[c].children_ids.len() == 0,
            removed_leaf(inserted_under(self@, p, c, data), c) == self@,
    {
        let m = self@;
        let m1 = inserted_under(m, p, c, data);
        assert(node_ok(m, self.rank@, self.rank_bound@, self.root, p));
        assert(!m[p].children_ids.contains(c)) by {
            if m[p].children_ids.contains(c) {
                let i = choose|i: int| 0 <= i < m[p].children_ids.len() && m[p].children_ids[i] == c;
                assert(m.contains_key(m[p].children_ids[i]));
            }
        }
        let pushed = m[p].children_ids.push(c);
        assert(pushed.drop_last() =~= m[p].children_ids);
        lemma_without_absent(m[p].children_ids, c);
        assert(without(pushed, c) == m[p].children_ids);
        assert(removed_leaf(m1, c) =~= m);
    }

    /// What is met under a node of the tree is met under the root.
    proof fn lemma_below_reaches_root(&self, k: u64, lights: bool, x: (u64, u64))
        requires
            self.wf(),
            self@.contains_key(k),
            items_below(self@, k, lights, (self.rank_bound@ - self.rank@[k]) as nat).contains(x),
        ensures
            self.item_order(lights).contains(x),
        decreases self.rank@[k],
    {
        let m = self@;
        assert(node_ok(m, self.rank@, self.rank_bound@, self.root, k));
        if k != self.root {
            let p = m[k].parent_id;
            assert(node_ok(m, self.rank@, self.rank_bound@, self.root, p));
            let d = (self.rank_bound@ - self.rank@[p]) as nat;
            let ch = m[p].children_ids;
            let j = choose|j: int| 0 <= j < ch.len() && ch[j] == k;
            lemma_items_of_member(m, ch, lights, (d - 1) as nat, j, x);
            let own = own_item(m, p, lights);
            let rest = items_of(m, ch, lights, (d - 1) as nat);
            let i = choose|i: int| 0 <= i < rest.len() && rest[i] == x;
            assert((own + rest)[own.len() + i] == x);
            assert(items_below(m, p, lights, d).contains(x));
            self.lemma_below_reaches_root(p, lights, x);
        }
    }

    /// What the walk meets under `k` lies in the subtree of `k`: `k` is the
    /// right number of links above it.
    proof fn lemma_items_under(&self, k: u64, lights: bool, d: nat, x: (u64, u64))
        requires
            self.wf(),
            self@.contains_key(k),
            items_below(self@, k, lights, d).contains(x),
        ensures
            self@.contains_key(x.0),
            self.rank@[x.0] >= self.rank@[k],
            ancestor(self@, x.0, (self.rank@[x.0] - self.rank@[k]) as nat) == k,
        decreases d,
    {
        let m = self@;
        assert(node_ok(m, self.rank@, self.rank_bound@, self.root, k));
        let own = own_item(m, k, lights);
        let ch = m[k].children_ids;
        let rest = items_of(m, ch, lights, (d - 1) as nat);
        let i = choose|i: int| 0 <= i < (own + rest).len() && (own + rest)[i] == x;
        if i < own.len() {
            assert(own[i] == x);
        } else {
            assert(rest[i - own.len()] == x);
            assert(rest.contains(x));
            let j = lemma_items_of_source(m, ch, lights, (d - 1) as nat, x);
            let c = ch[j];
            assert(m.contains_key(c) && m[c].parent_id == k && c != self.root);
            assert(node_ok(m, self.rank@, self.rank_bound@, self.root, c));
            self.lemma_items_under(c, lights, (d - 1) as nat, x);
            let t = (self.rank@[x.0] - self.rank@[c]) as nat;
            lemma_ancestor_step(m, x.0, t);
            assert((self.rank@[x.0] - self.rank@[k]) as nat == t + 1);
        }
    }

    /// The walk meets nothing twice under `k`.
    proof fn lemma_items_below_no_duplicates(&self, k: u64, lights: bool, d: nat)
        requires
            self.wf(),
            self@.contains_key(k),
        ensures
            items_below(self@, k, lights, d).no_duplicates(),
        decreases d, 0nat,
    {
        if d > 0 {
            let m = self@;
            assert(node_ok(m, self.rank@, self.rank_bound@, self.root, k));
            let ch = m[k].children_ids;
            assert forall|i: int| 0 <= i < ch.len() implies m.contains_key(#[trigger] ch[i]) && m[ch[i]].parent_id
                == k && ch[i] != self.root by {}
            self.lemma_items_of_no_duplicates(k, ch, lights, (d - 1) as nat);
            let own = own_item(m, k, lights);
            let rest = items_of(m, ch, lights, (d - 1) as nat);
            assert forall|x: (u64, u64)| own.contains(x) implies !rest.contains(x) by {
                if rest.contains(x) {
                    let j = lemma_items_of_source(m, ch, lights, (d - 1) as nat, x);
                    let c = ch[j];
                    assert(node_ok(m, self.rank@, self.rank_bound@, self.root, c));
                    self.lemma_items_under(c, lights, (d - 1) as nat, x);
                    let i = choose|i: int| 0 <= i < own.len() && own[i] == x;
                    assert(x.0 == k);
                }
            }
            lemma_concat_no_duplicates(own, rest);
        }
    }

    /// The walk meets nothing twice under the members of `list`, children of
    /// `k` without repeats.
    proof fn lemma_items_of_no_duplicates(&self, k: u64, list: Seq<u64>, lights: bool, d: nat)
        requires
            self.wf(),
            self@.contains_key(k),
            list.no_duplicates(),
            forall|i: int|
                0 <= i < list.len() ==> self@.contains_key(#[trigger] list[i]) && self@[list[i]].parent_id == k
                    && list[i] != self.root,
        ensures
            items_of(self@, list, lights, d).no_duplicates(),
        decreases d, list.len() + 1,
    {
        if list.len() > 0 {
            let m = self@;
            let last = list.last();
            let init = list.drop_last();
            assert(m.contains_key(list[list.len() - 1]));
            self.lemma_items_below_no_duplicates(last, lights, d);
            assert(init.no_duplicates());
            assert forall|i: int| 0 <= i < init.len() implies m.contains_key(#[trigger] init[i]) && m[init[i]].parent_id
                == k && init[i] != self.root by {
                assert(init[i] == list[i]);
            }
            self.lemma_items_of_no_duplicates(k, init, lights, d);
            let a = items_below(m, last, lights, d);
            let b = items_of(m, init, lights, d);
            assert forall|x: (u64, u64)| a.contains(x) implies !b.contains(x) by {
                if b.contains(x) {
                    let j = lemma_items_of_source(m, init, lights, d, x);
                    let c = init[j];
                    assert(c == list[j]);
                    assert(node_ok(m, self.rank@, self.rank_bound@, self.root, c));
                    assert(node_ok(m, self.rank@, self.rank_bound@, self.root, last));
                    assert(node_ok(m, self.rank@, self.rank_bound@, self.root, k));
                    self.lemma_items_under(c, lights, d, x);
                    self.lemma_items_under(last, lights, d, x);
                    assert(self.rank@[c] == self.rank@[last]);
                    assert(c == last);
                    assert(list[j] == list[list.len() - 1]);
                }
            }
            lemma_concat_no_duplicates(a, b);
        }
    }

    /// The walk of `item_order` meets nothing twice.
    pub proof fn lemma_item_order_no_duplicates(&self, lights: bool)
        requires
            self.wf(),
        ensures
            self.item_order(lights).no_duplicates(),
    {
        self.lemma_items_below_no_duplicates(self.root, lights, self.rank_bound@);
    }

    /// The walk of `item_order` meets every mesh (or light) of the tree, and
    /// nothing else.
    pub proof fn lemma_item_order_is_complete(&self, lights: bool)
        requires
            self.wf(),
        ensures
            forall|k: u64, h: u64|
                #![trigger self@[k], self.item_order(lights).contains((k, h))]
                self@.contains_key(k) && self@[k].data == (if lights { NodeData::Light(h) } else { NodeData::Mesh(h) })
                    ==> self.item_order(lights).contains((k, h)),
            forall|i: int|
                #![trigger self.item_order(lights)[i]]
                0 <= i < self.item_order(lights).len() ==> is_item_of(self@, self.item_order(lights)[i], lights),
    {
        let m = self@;
        assert forall|j: u64| #[trigger] m.contains_key(j) implies children_ok(m, self.root, j) by {
            assert(node_ok(m, self.rank@, self.rank_bound@, self.root, j));
        }
        lemma_items_are_items(m, self.root, self.root, lights, self.rank_bound@);
        assert forall|k: u64, h: u64|
            #![trigger self@[k], self.item_order(lights).contains((k, h))]
            self@.contains_key(k) && self@[k].data == (if lights { NodeData::Light(h) } else { NodeData::Mesh(h) })
                implies self.item_order(lights).contains((k, h)) by {
            assert(node_ok(m, self.rank@, self.rank_bound@, self.root, k));
            let d = (self.rank_bound@ - self.rank@[k]) as nat;
            let own = own_item(m, k, lights);
            let rest = items_of(m, m[k].children_ids, lights, (d - 1) as nat);
            assert(own[0] == (k, h));
            assert((own + rest)[0] == (k, h));
            assert(items_below(m, k, lights, d).contains((k, h)));
            self.lemma_below_reaches_root(k, lights, (k, h));
        }
    }

    /// A tree that holds only its root, an empty node.
    pub fn new() -> (t: Self)
        ensures
            t.wf(),
            t@.dom() == set![t.root_id()],
            t@[t.root_id()] == (NodeView {
                id: t.root_id(),
                parent_id: t.root_id(),
                data: NodeData::Empty,
                children_ids: Seq::empty(),
            }),
    {
        let mut nodes = slots_new();
        let root = slots_insert_with_key(&mut nodes, None, NodeData::Empty);
        let ghost rank = Map::<u64, nat>::empty().insert(root, 0nat);
        let t = SceneTree { nodes, root, rank: Ghost(rank), rank_bound: Ghost(1nat) };
        assert(t@.dom() =~= set![root]);
        t
    }

    /// The node with the given id, if the tree holds one.
    pub fn get(&self, id: NodeId) -> (r: Option<&Node>)
        ensures
            match r {
                Some(n) => self@.contains_key(key_of(id)) && n@ == self@[key_of(id)],
                None => !self@.contains_key(key_of(id)),
            },
    {
        slots_get(&self.nodes, id)
    }

    /// Puts a new node holding `data` under the root, last among its children,
    /// and returns its id.
    pub fn insert(&mut self, data: NodeData) -> (c: NodeId)
        requires
            old(self).wf(),
            old(self)@.dom().len() < u32::MAX - 1,
        ensures
            final(self).wf(),
            final(self).root_id() == old(self).root_id(),
            !old(self)@.contains_key(c),
            key_of(c) == c,
            final(self)@ == inserted_under(old(self)@, old(self).root_id(), c, data),
    {
        assert(node_ok(self@, self.rank@, self.rank_bound@, self.root, self.root));
        let root = self.root;
        match self.insert_under(data, root) {
            Some(c) => c,
            // The root is always held, so this arm is never taken.
            None => root,
        }
    }

    /// The ids from node `id` up to the root, each followed by its parent;
    /// `None` where the tree holds no such node. The world transform of a node
    /// is its own transform followed by those of the nodes after it.
    pub fn ancestry(&self, id: NodeId) -> (r: Option<Vec<NodeId>>)
        requires
            self.wf(),
        ensures
            match r {
                None => !self@.contains_key(key_of(id)),
                Some(v) => {
                    &&& self@.contains_key(key_of(id))
                    &&& v@[0] == key_of(id)
                    &&& climbs_to_root(self@, self.root_id(), v@)
                },
            },
    {
        let node = match slots_get(&self.nodes, id) {
            Some(n) => n,
            None => return None,
        };
        let ghost m = self@;
        let mut chain: Vec<NodeId> = Vec::new();
        chain.push(node.id);
        let mut cur = node;
        proof {
            lemma_key_of_key(id);
        }
        assert(m.contains_key(key_of(id)));
        assert(node_ok(m, self.rank@, self.rank_bound@, self.root, key_of(id)));
        while !cur.is_root()
            invariant
                self.wf(),
                m == self@,
                m.contains_key(cur.id),
                cur@ == m[cur.id],
                chain@.len() > 0,
                chain@[0] == key_of(id),
                chain@.last() == cur.id,
                forall|i: int|
                    #![trigger chain@[i]]
                    0 <= i < chain@.len() - 1 ==> {
                        &&& chain@[i] != self.root
                        &&& m.contains_key(chain@[i])
                        &&& chain@[i + 1] == m[chain@[i]].parent_id
                    },
            ensures
                m.contains_key(cur.id),
                cur.id == cur.parent_id,
                chain@.len() > 0,
                chain@[0] == key_of(id),
                chain@.last() == cur.id,
                forall|i: int|
                    #![trigger chain@[i]]
                    0 <= i < chain@.len() - 1 ==> {
                        &&& chain@[i] != self.root
                        &&& m.contains_key(chain@[i])
                        &&& chain@[i + 1] == m[chain@[i]].parent_id
                    },
            decreases self.rank@[cur.id],
        {
            assert(node_ok(m, self.rank@, self.rank_bound@, self.root, cur.id));
            let ghost prev = chain@;
            let ghost cur_id = cur.id;
            assert(key_of(cur.parent_id) == cur.parent_id);
            let parent = match slots_get(&self.nodes, cur.parent_id) {
                Some(p) => p,
                None => break,
            };
            chain.push(parent.id);
            cur = parent;
            assert(node_ok(m, self.rank@, self.rank_bound@, self.root, cur.id));
            assert forall|i: int|
                #![trigger chain@[i]]
                0 <= i < chain@.len() - 1 implies {
                    &&& chain@[i] != self.root
                    &&& m.contains_key(chain@[i])
                    &&& chain@[i + 1] == m[chain@[i]].parent_id
                } by {
                if i < prev.len() - 1 {
                    assert(chain@[i] == prev[i] && chain@[i + 1] == prev[i + 1]);
                } else {
                    assert(chain@[i] == cur_id);
                }
            }
        }
        assert(node_ok(m, self.rank@, self.rank_bound@, self.root, cur.id));
        Some(chain)
    }

    /// Appends the meshes (or lights) under node `k` to `out`, in the order of
    /// `items_below`.
    fn collect_items(&self, k: NodeId, lights: bool, out: &mut Vec<(NodeId, u64)>, Ghost(depth): Ghost<nat>)
        requires
            self.wf(),
            self@.contains_key(k),
            self.rank@.contains_key(k),
            depth == self.rank_bound@ - self.rank@[k],
        ensures
            final(out)@ == old(out)@ + items_below(self@, k, lights, depth),
        decreases depth,
    {
        let ghost m = self@;
        assert(node_ok(m, self.rank@, self.rank_bound@, self.root, k));
        assert(key_of(k) == k);
        let node = match slots_get(&self.nodes, k) {
            Some(n) => n,
            None => return ,
        };
        match node.data {
            NodeData::Mesh(h) => {
                if !lights {
                    out.push((k, h));
                }
            },
            NodeData::Light(h) => {
                if lights {
                    out.push((k, h));
                }
            },
            _ => {},
        }
        let ghost base = out@;
        let ghost children = node.children_ids@;
        let ghost d: nat = (depth - 1) as nat;
        assert(base == old(out)@ + own_item(m, k, lights));
        let mut i = node.children_ids.len();
        assert(children.subrange(0, i as int) =~= children);
        while i > 0
            invariant
                self.wf(),
                m == self@,
                node@ == m[k],
                children == node.children_ids@,
                node_ok(m, self.rank@, self.rank_bound@, self.root, k),
                d == self.rank_bound@ - self.rank@[k] - 1,
                depth == d + 1,
                i <= children.len(),
                out@ + items_of(m, children.subrange(0, i as int), lights, d) == base + items_of(m, children, lights, d),
            decreases i,
        {
            let c = node.children_ids[i - 1];
            let ghost before = out@;
            assert(children[i - 1] == c);
            assert(node_ok(m, self.rank@, self.rank_bound@, self.root, c));
            self.collect_items(c, lights, out, Ghost(d));
            let ghost sub = children.subrange(0, i as int);
            assert(sub.last() == c);
            assert(sub.drop_last() =~= children.subrange(0, i - 1));
            assert(out@ + items_of(m, children.subrange(0, i - 1), lights, d) =~= before + items_of(m, sub, lights, d));
            i = i - 1;
        }
        assert(children.subrange(0, 0) =~= Seq::<u64>::empty());
        assert(out@ =~= old(out)@ + items_below(m, k, lights, depth));
    }

    /// The meshes of the tree, each with the id of the node that holds it, in
    /// the order of `item_order`.
    pub fn mesh_nodes(&self) -> (r: Vec<(NodeId, u64)>)
        requires
            self.wf(),
        ensures
            r@ == self.item_order(false),
    {
        let mut out: Vec<(NodeId, u64)> = Vec::new();
        self.collect_items(self.root, false, &mut out, Ghost(self.rank_bound@));
        assert(out@ =~= self.item_order(false));
        out
    }

    /// The lights of the tree, each with the id of the node that holds it, in
    /// the order of `item_order`.
    pub fn light_nodes(&self) -> (r: Vec<(NodeId, u64)>)
        requires
            self.wf(),
        ensures
            r@ == self.item_order(true),
    {
        let mut out: Vec<(NodeId, u64)> = Vec::new();
        self.collect_items(self.root, true, &mut out, Ghost(self.rank_bound@));
        assert(out@ =~= self.item_order(true));
        out
    }

    /// Takes out the node `id`, which must be a leaf other than the root, and
    /// strikes it from its parent's children. The three errors, in the order
    /// tested: no such node, the root, a node with children; each leaves the
    /// tree as it was.
    pub fn delete(&mut self, id: NodeId) -> (r: Result<(), String>)
        requires
            old(self).wf(),
        ensures
            final(self).wf(),
            final(self).root_id() == old(self).root_id(),
            delete_outcome(old(self)@, old(self).root_id(), id, r, final(self)@),
            r is Ok ==> !final(self)@.contains_key(key_of(id)),
            r is Ok ==> final(self)@.contains_key(old(self)@[key_of(id)].parent_id),
    {
        if !slots_contains(&self.nodes, id) {
            return Err("No such node with specified id".to_owned());
        }
        let ghost m0 = self@;
        let ghost k = key_of(id);
        proof {
            lemma_key_of_key(id);
        }
        assert(m0.contains_key(k));
        assert(node_ok(m0, self.rank@, self.rank_bound@, self.root, k));
        let node = match slots_get(&self.nodes, id) {
            Some(n) => n,
            None => return Err("No such node with specified id".to_owned()),
        };
        if node.is_root() {
            return Err("Cannot remove root from scene tree".to_owned());
        }
        let parent_id = node.parent_id;
        if node.children_ids.len() != 0 {
            return Err("Cannot remove interstitial node".to_owned());
        }
        assert(node_ok(m0, self.rank@, self.rank_bound@, self.root, parent_id));
        let ghost sc0 = slot_contents(self.nodes);
        let _ = slots_remove(&mut self.nodes, id);
        match slots_get_mut(&mut self.nodes, parent_id) {
            Some(p) => {
                let kept = ids_without(&p.children_ids, id | 0x1_0000_0000u64);
                p.children_ids = kept;
            },
            None => {},
        }
        let ghost new_m = removed_leaf(m0, k);
        let ghost sc2 = slot_contents(self.nodes);
        assert(key_of(parent_id) == parent_id);
        assert(self@ =~= new_m) by {
            assert forall|j: u64| #[trigger] self@.contains_key(j) implies self@[j] == new_m[j] by {
                if j != parent_id {
                    assert(sc2[j] == sc0[j]);
                }
            }
        }
        proof {
            let m = self@;
            let p = parent_id;
            lemma_without_no_duplicates(m0[p].children_ids, k);
            assert forall|j: u64| #[trigger] m.contains_key(j) implies node_ok(
                m,
                self.rank@,
                self.rank_bound@,
                self.root,
                j,
            ) by {
                assert(node_ok(m0, self.rank@, self.rank_bound@, self.root, j));
                if j != self.root {
                    let pp = m0[j].parent_id;
                    if pp == p {
                        lemma_without_contains(m0[p].children_ids, k, j);
                    }
                }
                if j == p {
                    assert forall|i: int|
                        #![trigger m[j].children_ids[i]]
                        0 <= i < m[j].children_ids.len() implies {
                            let c = m[j].children_ids[i];
                            &&& c != self.root
                            &&& m.contains_key(c)
                            &&& m[c].parent_id == j
                        } by {
                        let c = m[j].children_ids[i];
                        assert(m[j].children_ids.contains(c));
                        lemma_without_contains(m0[p].children_ids, k, c);
                        let i0 = choose|i0: int| 0 <= i0 < m0[p].children_ids.len() && m0[p].children_ids[i0] == c;
                        assert(m0[p].children_ids[i0] == c);
                    }
                } else {
                    assert forall|i: int|
                        #![trigger m[j].children_ids[i]]
                        0 <= i < m[j].children_ids.len() implies {
                            let c = m[j].children_ids[i];
                            &&& c != self.root
                            &&& m.contains_key(c)
                            &&& m[c].parent_id == j
                        } by {
                        let c = m0[j].children_ids[i];
                        assert(m0[c].parent_id == j);
                    }
                }
            }
        }
        Ok(())
    }

    /// Puts a new node holding `data` under the node `under_id`, last among its
    /// children, and returns its id; `None`, with nothing changed, where the
    /// tree holds no such node.
    pub fn insert_under(&mut self, data: NodeData, under_id: NodeId) -> (r: Option<NodeId>)
        requires
            old(self).wf(),
            old(self)@.dom().len() < u32::MAX - 1,
        ensures
            final(self).wf(),
            final(self).root_id() == old(self).root_id(),
            insert_under_outcome(old(self)@, under_id, data, r, final(self)@),
    {
        if !slots_contains(&self.nodes, under_id) {
            return None;
        }
        let parent = under_id | 0x1_0000_0000u64;
        proof {
            lemma_key_of_key(under_id);
        }
        let ghost m0 = self@;
        let ghost sc0 = slot_contents(self.nodes);
        let ghost old_bound = self.rank_bound@;
        assert(sc0.dom() =~= m0.dom());
        assert(node_ok(m0, self.rank@, old_bound, self.root, parent));
        let child = slots_insert_with_key(&mut self.nodes, Some(parent), data);
        let ghost sc1 = slot_contents(self.nodes);
        match slots_get_mut(&mut self.nodes, parent) {
            Some(p) => {
                p.children_ids.push(child);
            },
            None => {},
        }
        let ghost sc2 = slot_contents(self.nodes);
        let ghost new_m = inserted_under(m0, parent, child, data);
        assert(self@ =~= new_m) by {
            assert forall|k: u64| #[trigger] self@.contains_key(k) implies self@[k] == new_m[k] by {
                if k == parent {
                } else if k == child {
                } else {
                    assert(sc2[k] == sc0[k]);
                }
            }
        }
        let ghost old_rank = self.rank@;
        let ghost child_rank: nat = self.rank@[parent] + 1;
        self.rank = Ghost(self.rank@.insert(child, child_rank));
        self.rank_bound = Ghost(if child_rank >= self.rank_bound@ { child_rank + 1 } else { self.rank_bound@ });
        proof {
            let m = self@;
            assert forall|k: u64| #[trigger] m.contains_key(k) implies node_ok(
                m,
                self.rank@,
                self.rank_bound@,
                self.root,
                k,
            ) by {
                if k == child {
                    assert(m[child].children_ids =~= Seq::<u64>::empty());
                    assert(m[parent].children_ids.contains(child)) by {
                        assert(m[parent].children_ids[m0[parent].children_ids.len() as int] == child);
                    }
                } else if k == parent {
                    assert(node_ok(m0, old_rank, old_bound, self.root, k));
                    assert(!m0[k].children_ids.contains(child));
                    assert forall|i: int|
                        #![trigger m[k].children_ids[i]]
                        0 <= i < m[k].children_ids.len() implies {
                            let c = m[k].children_ids[i];
                            &&& c != self.root
                            &&& m.contains_key(c)
                            &&& m[c].parent_id == k
                        } by {
                        if i < m0[k].children_ids.len() {
                            assert(m[k].children_ids[i] == m0[k].children_ids[i]);
                        }
                    }
                    if k != self.root {
                        let pp = m0[k].parent_id;
                        assert(m[pp].children_ids.contains(k)) by {
                            if pp != parent {
                                assert(m[pp] == m0[pp]);
                            }
                        }
                    }
                } else {
                    assert(node_ok(m0, old_rank, old_bound, self.root, k));
                    assert(m[k] == m0[k]);
                    if k != self.root {
                        let pp = m0[k].parent_id;
                        assert(m[pp].children_ids.contains(k)) by {
                            if pp == parent {
                                let j = choose|j: int| 0 <= j < m0[pp].children_ids.len() && m0[pp].children_ids[j] == k;
                                assert(m[pp].children_ids[j] == k);
                            }
                        }
                    }
                    assert forall|i: int|
                        #![trigger m[k].children_ids[i]]
                        0 <= i < m[k].children_ids.len() implies {
                            let c = m[k].children_ids[i];
                            &&& c != self.root
                            &&& m.contains_key(c)
                            &&& m[c].parent_id == k
                        } by {
                        let c = m0[k].children_ids[i];
                        assert(m0.contains_key(c));
                        assert(c != child);
                    }
                }
            }
        }
        Some(child)
    }
}

/// A scene: its tree of nodes and the camera it is seen through.
pub struct Scene {
    pub tree: SceneTree,
    pub active_camera: Option<NodeId>,
}

/// The camera after putting in a node holding `data` as `c`: a camera node
/// becomes the active one.
pub open spec fn camera_after(camera: Option<u64>, data: NodeData, c: u64) -> Option<u64> {
    match data {
        NodeData::Camera(_) => Some(c),
        _ => camera,
    }
}

/// The active camera, where the tree still holds its node, is a node that
/// holds a camera.
pub open spec fn camera_is_camera(m: Map<u64, NodeView>, camera: Option<u64>) -> bool {
    match camera {
        Some(k) => m.contains_key(key_of(k)) ==> m[key_of(k)].data is Camera,
        None => true,
    }
}

/// Putting in a node changes the active camera only where the node holds a
/// camera, and then to that node.
pub proof fn lemma_camera_after_only_for_cameras(camera: Option<u64>, data: NodeData, c: u64)
    ensures
        (data is Camera) ==> camera_after(camera, data, c) == Some(c),
        !(data is Camera) ==> camera_after(camera, data, c) == camera,
{
}

/// Putting a node into a scene, under any node it holds, keeps the active
/// camera a node that holds a camera (where the new id is not the old,
/// since deleted, camera's key).
pub proof fn lemma_insert_keeps_camera_a_camera(
    m: Map<u64, NodeView>,
    camera: Option<u64>,
    p: u64,
    c: u64,
    data: NodeData,
)
    requires
        camera_is_camera(m, camera),
        m.contains_key(p),
        !m.contains_key(c),
        key_of(c) == c,
        camera matches Some(k) ==> key_of(k) != c,
    ensures
        camera_is_camera(inserted_under(m, p, c, data), camera_after(camera, data, c)),
{
    let m1 = inserted_under(m, p, c, data);
    match camera_after(camera, data, c) {
        Some(k) => {
            if m1.contains_key(key_of(k)) {
                if data is Camera {
                    assert(k == c);
                    assert(m1[c].data == data);
                } else {
                    assert(camera == Some(k));
                    assert(key_of(k) != c);
                    assert(m.contains_key(key_of(k)));
                }
            }
        },
        None => {},
    }
}

/// Deleting a node keeps the active camera a node that holds a camera.
pub proof fn lemma_delete_keeps_camera_a_camera(m: Map<u64, NodeView>, camera: Option<u64>, k: u64)
    requires
        camera_is_camera(m, camera),
        m.contains_key(k),
        m.contains_key(m[k].parent_id),
    ensures
        camera_is_camera(removed_leaf(m, k), camera),
{
    let m1 = removed_leaf(m, k);
    if let Some(j) = camera {
        if m1.contains_key(key_of(j)) {
            assert(m.contains_key(key_of(j)));
            assert(m1[key_of(j)].data == m[key_of(j)].data);
        }
    }
}

impl Scene {
    /// A scene with an empty tree and no camera.
    pub fn new() -> (s: Self)
        ensures
            s.tree.wf(),
            s.tree@.dom() == set![s.tree.root_id()],
            s.tree@[s.tree.root_id()] == (NodeView {
                id: s.tree.root_id(),
                parent_id: s.tree.root_id(),
                data: NodeData::Empty,
                children_ids: Seq::empty(),
            }),
            s.active_camera is None,
    {
        Scene { tree: SceneTree::new(), active_camera: None }
    }

    /// The node with the given id, if the tree holds one.
    pub fn get(&self, id: NodeId) -> (r: Option<&Node>)
        ensures
            match r {
                Some(n) => self.tree@.contains_key(key_of(id)) && n@ == self.tree@[key_of(id)],
                None => !self.tree@.contains_key(key_of(id)),
            },
    {
        self.tree.get(id)
    }

    /// Puts a new node under the root; a camera becomes the active camera.
    pub fn insert(&mut self, data: NodeData) -> (c: NodeId)
        requires
            old(self).tree.wf(),
            old(self).tree@.dom().len() < u32::MAX - 1,
        ensures
            final(self).tree.wf(),
            final(self).tree.root_id() == old(self).tree.root_id(),
            !old(self).tree@.contains_key(c),
            key_of(c) == c,
            final(self).tree@ == inserted_under(old(self).tree@, old(self).tree.root_id(), c, data),
            final(self).active_camera == camera_after(old(self).active_camera, data, c),
    {
        let is_camera = match data {
            NodeData::Camera(_) => true,
            _ => false,
        };
        let id = self.tree.insert(data);
        if is_camera {
            self.active_camera = Some(id);
        }
        id
    }

    /// Puts a new node under `under_id`, as `SceneTree::insert_under` does; a
    /// camera that was put in becomes the active camera.
    pub fn insert_under(&mut self, data: NodeData, under_id: NodeId) -> (r: Option<NodeId>)
        requires
            old(self).tree.wf(),
            old(self).tree@.dom().len() < u32::MAX - 1,
        ensures
            final(self).tree.wf(),
            final(self).tree.root_id() == old(self).tree.root_id(),
            insert_under_outcome(old(self).tree@, under_id, data, r, final(self).tree@),
            final(self).active_camera == match r {
                Some(c) => camera_after(old(self).active_camera, data, c),
                None => old(self).active_camera,
            },
    {
        let is_camera = match data {
            NodeData::Camera(_) => true,
            _ => false,
        };
        let r = self.tree.insert_under(data, under_id);
        match r {
            Some(id) => {
                if is_camera {
                    self.active_camera = Some(id);
                }
            },
            None => {},
        }
        r
    }

    /// Takes out a node, as `SceneTree::delete` does; the active camera is
    /// left as it was.
    pub fn delete(&mut self, id: NodeId) -> (r: Result<(), String>)
        requires
            old(self).tree.wf(),
        ensures
            final(self).tree.wf(),
            final(self).tree.root_id() == old(self).tree.root_id(),
            delete_outcome(old(self).tree@, old(self).tree.root_id(), id, r, final(self).tree@),
            r is Ok ==> !final(self).tree@.contains_key(key_of(id)),
            r is Ok ==> final(self).tree@.contains_key(old(self).tree@[key_of(id)].parent_id),
            final(self).active_camera == old(self).active_camera,
    {
        self.tree.delete(id)
    }

    /// The node of the active camera, if there is one and the tree holds it.
    pub fn get_active_camera(&self) -> (r: Option<&Node>)
        ensures
            match self.active_camera {
                None => r is None,
                Some(id) => match r {
                    Some(n) => self.tree@.contains_key(key_of(id)) && n@ == self.tree@[key_of(id)],
                    None => !self.tree@.contains_key(key_of(id)),
                },
            },
    {
        match self.active_camera {
            None => None,
            Some(id) => self.tree.get(id),
        }
    }
}

} // verus!
