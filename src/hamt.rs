use vstd::prelude::*;
use crate::address::Address;
use crate::bytes::same_bytes;
use crate::codec::{head, push_bytes, push_head};
use crate::stored::{occupied, piece, pieces, stored_bytes, stored_lookup, StoredSlotView};

verus! {

/// What `murmur3::murmur3_x64_128` with seed zero yields for a byte string.
pub uninterp spec fn murmur3_x64_128_of(b: Seq<u8>) -> u128;

/// The 64-bit working hash of a key: the high half of its 128-bit hash.
pub open spec fn key_hash(k: Seq<u8>) -> u64 {
    (murmur3_x64_128_of(k) >> 64u128) as u64
}

/// Number of levels a trie of bit width `n` can address.
pub open spec fn levels(n: u8) -> nat {
    (64int / (n as int)) as nat
}

/// Number of slots in each node of a trie of bit width `n`.
pub open spec fn slot_count(n: u8) -> nat {
    (1u64 << (n as u64)) as nat
}

/// The `level`-th group of `n` bits of `h`, most significant bits first.
pub open spec fn group(h: u64, n: u8, level: nat) -> u64 {
    (h >> ((64 - (n as int) * (level + 1)) as u64)) & (((1u64 << (n as u64)) - 1) as u64)
}

/// The two hashes agree on every group from `level` down to the last level.
pub open spec fn same_groups_from(h1: u64, h2: u64, n: u8, level: nat) -> bool {
    forall|l: nat| level <= l < levels(n) ==> #[trigger] group(h1, n, l) == group(h2, n, l)
}

proof fn lemma_group_bound(h: u64, s: u64, n: u64)
    requires
        1 <= n <= 8,
    ensures
        (h >> s) & (((1u64 << n) - 1) as u64) < (1u64 << n),
        2 <= (1u64 << n) <= 256,
{
    assert((h >> s) & (((1u64 << n) - 1) as u64) < (1u64 << n)) by (bit_vector)
        requires
            1 <= n <= 8,
    ;
    assert(2 <= (1u64 << n) <= 256) by (bit_vector)
        requires
            1 <= n <= 8,
    ;
}

proof fn lemma_levels(n: u8)
    requires
        1 <= n <= 8,
    ensures
        8 <= levels(n) <= 64,
{
    if n == 1 {
        assert(64int / 1int == 64);
    } else if n == 2 {
        assert(64int / 2int == 32);
    } else if n == 3 {
        assert(64int / 3int == 21);
    } else if n == 4 {
        assert(64int / 4int == 16);
    } else if n == 5 {
        assert(64int / 5int == 12);
    } else if n == 6 {
        assert(64int / 6int == 10);
    } else if n == 7 {
        assert(64int / 7int == 9);
    } else {
        assert(64int / 8int == 8);
    }
}

proof fn lemma_group_in_range(h: u64, n: u8, level: nat)
    requires
        1 <= n <= 8,
        level < levels(n),
    ensures
        group(h, n, level) < slot_count(n),
        slot_count(n) <= 256,
{
    lemma_group_bound(h, (64 - (n as int) * (level + 1)) as u64, n as u64);
}

/// Why a trie operation was refused.
#[derive(Clone, Copy, Debug, PartialEq, Eq)]
pub enum HamtError {
    /// The bit width is outside `1..=8`, or the level lies past the last one.
    InvalidSplit,
    /// Two distinct keys agree on every addressable group of their hashes.
    HashExhausted,
}

/// Extracts the `level`-th group of `n` bits of `hash`, most significant bits
/// first. Levels run from zero to `64 / n - 1`.
pub fn split_hash(hash: u64, n: u8, level: u8) -> (r: Result<u8, HamtError>)
    ensures
        r is Ok <==> 1 <= n <= 8 && level < levels(n),
        r matches Ok(g) ==> g as u64 == group(hash, n, level as nat),
        r matches Err(e) ==> e == HamtError::InvalidSplit,
{
    if n < 1 || n > 8 || level >= 64 / n {
        return Err(HamtError::InvalidSplit);
    }
    proof {
        lemma_group_in_range(hash, n, level as nat);
        assert(1 <= (n as int) * (level + 1) <= 64) by (nonlinear_arith)
            requires
                1 <= n,
                (level as int) < 64int / (n as int),
        ;
    }
    let shift: u64 = 64 - (n as u64) * (level as u64 + 1);
    let g = (hash >> shift) & ((1u64 << (n as u64)) - 1);
    Ok(g as u8)
}

/// Relies on `murmur3::murmur3_x64_128`, seed zero, read from memory: it
/// fails only where its reader fails, and reading a slice never does.
#[verifier::external_body]
fn murmur3_x64_128(b: &[u8]) -> (r: Option<u128>)
    ensures
        r == Some(murmur3_x64_128_of(b@)),
{
    murmur3::murmur3_x64_128(&mut std::io::Cursor::new(b), 0).ok()
}

/// The 64-bit hash under which a key is placed in the trie.
pub fn compute_hash(key: &[u8]) -> (r: u64)
    ensures
        r == key_hash(key@),
{
    match murmur3_x64_128(key) {
        Some(h) => (h >> 64u128) as u64,
        // Not reached: hashing bytes in memory does not fail.
        None => 0,
    }
}

/// The contents of one slot, as plain values.
pub ghost enum SlotView {
    Empty,
    Entry { key: Seq<u8>, value: Seq<u8>, hash: u64 },
    Link { child: int },
}

/// A key, its value, and the key's hash.
#[derive(Debug)]
pub struct HamtEntry {
    key: Vec<u8>,
    value: Vec<u8>,
    hash: u64,
}

/// One slot of a node: empty, a direct entry, or a link to a child node.
#[derive(Debug)]
pub enum Slot {
    Empty,
    Entry(HamtEntry),
    Link(usize),
}

/// One level of the trie: `2^n` slots.
#[derive(Debug)]
pub struct HamtNode {
    slots: Vec<Slot>,
}

/// A hash-array-mapped trie whose nodes are kept in an append-only arena:
/// a node, once added, never changes, so every root stays a valid version.
#[derive(Debug)]
pub struct Hamt {
    bit_width: u8,
    nodes: Vec<HamtNode>,
}

pub closed spec fn slot_view(s: Slot) -> SlotView {
    match s {
        Slot::Empty => SlotView::Empty,
        Slot::Entry(e) => SlotView::Entry { key: e.key@, value: e.value@, hash: e.hash },
        Slot::Link(c) => SlotView::Link { child: c as int },
    }
}

pub closed spec fn slots_view(s: Seq<Slot>) -> Seq<SlotView> {
    s.map_values(|x: Slot| slot_view(x))
}

proof fn lemma_slots_view_push(s: Seq<Slot>, x: Slot)
    ensures
        slots_view(s.push(x)) == slots_view(s).push(slot_view(x)),
{
    assert(slots_view(s.push(x)) =~= slots_view(s).push(slot_view(x)));
}

proof fn lemma_slots_view_update(s: Seq<Slot>, i: int, x: Slot)
    requires
        0 <= i < s.len(),
    ensures
        slots_view(s.update(i, x)) == slots_view(s).update(i, slot_view(x)),
{
    assert(slots_view(s.update(i, x)) =~= slots_view(s).update(i, slot_view(x)));
}

pub closed spec fn node_view(n: HamtNode) -> Seq<SlotView> {
    slots_view(n.slots@)
}

/// The value stored for `key` in the subtrie at node `idx` and level `level`,
/// following the groups of `h`.
pub open spec fn lookup_in(
    nodes: Seq<Seq<SlotView>>,
    n: u8,
    idx: int,
    key: Seq<u8>,
    h: u64,
    level: nat,
) -> Option<Seq<u8>>
    decreases levels(n) - level,
{
    if level >= levels(n) || idx < 0 || idx >= nodes.len() {
        None
    } else {
        match nodes[idx][group(h, n, level) as int] {
            SlotView::Empty => None,
            SlotView::Entry { key: k, value: v, hash: _ } => if k == key {
                Some(v)
            } else {
                None
            },
            SlotView::Link { child } => lookup_in(nodes, n, child, key, h, level + 1),
        }
    }
}

/// Inserting `key` (hash `h`) below node `idx` meets an entry of another key
/// whose hash agrees with `h` on every deeper group.
pub open spec fn blocked(
    nodes: Seq<Seq<SlotView>>,
    n: u8,
    idx: int,
    key: Seq<u8>,
    h: u64,
    level: nat,
) -> bool
    decreases levels(n) - level,
{
    if level >= levels(n) || idx < 0 || idx >= nodes.len() {
        false
    } else {
        match nodes[idx][group(h, n, level) as int] {
            SlotView::Empty => false,
            SlotView::Entry { key: k, value: _, hash: h2 } => k != key && same_groups_from(
                h,
                h2,
                n,
                level + 1,
            ),
            SlotView::Link { child } => blocked(nodes, n, child, key, h, level + 1),
        }
    }
}

/// An entry carries its key's hash; a link leads to a node added before
/// `bound`.
pub open spec fn slot_ok(s: SlotView, bound: int) -> bool {
    match s {
        SlotView::Empty => true,
        SlotView::Entry { key, value: _, hash } => hash == key_hash(key),
        SlotView::Link { child } => 0 <= child < bound,
    }
}

/// Every node has `2^n` slots, every link leads to a node added earlier, and
/// every entry carries its key's hash.
pub open spec fn nodes_wf(nodes: Seq<Seq<SlotView>>, n: u8) -> bool {
    &&& 1 <= n <= 8
    &&& forall|i: int| 0 <= i < nodes.len() ==> #[trigger] nodes[i].len() == slot_count(n)
    &&& forall|i: int, j: int|
        0 <= i < nodes.len() && 0 <= j < nodes[i].len() ==> slot_ok(#[trigger] nodes[i][j], i)
}

/// `new` holds `old` as its first nodes.
pub open spec fn extends(old: Seq<Seq<SlotView>>, new: Seq<Seq<SlotView>>) -> bool {
    old.len() <= new.len() && forall|i: int| 0 <= i < old.len() ==> #[trigger] new[i] == old[i]
}

proof fn lemma_push_wf(nodes: Seq<Seq<SlotView>>, n: u8, node: Seq<SlotView>)
    requires
        nodes_wf(nodes, n),
        node.len() == slot_count(n),
        forall|j: int| 0 <= j < node.len() ==> slot_ok(#[trigger] node[j], nodes.len() as int),
    ensures
        nodes_wf(nodes.push(node), n),
        extends(nodes, nodes.push(node)),
{
    let p = nodes.push(node);
    assert forall|i: int, j: int| 0 <= i < p.len() && 0 <= j < p[i].len() implies slot_ok(
        #[trigger] p[i][j],
        p.len() as int,
    ) by {
        if i < nodes.len() {
            assert(slot_ok(nodes[i][j], i));
        }
    }
}

/// Growing a well-formed arena changes no lookup from one of its nodes.
proof fn lemma_extend_lookup(
    old: Seq<Seq<SlotView>>,
    new: Seq<Seq<SlotView>>,
    n: u8,
    idx: int,
    key: Seq<u8>,
    h: u64,
    level: nat,
)
    requires
        nodes_wf(old, n),
        extends(old, new),
        0 <= idx < old.len(),
    ensures
        lookup_in(new, n, idx, key, h, level) == lookup_in(old, n, idx, key, h, level),
        blocked(new, n, idx, key, h, level) == blocked(old, n, idx, key, h, level),
    decreases levels(n) - level,
{
    if level < levels(n) {
        lemma_group_in_range(h, n, level);
        let g = group(h, n, level) as int;
        assert(new[idx] == old[idx]);
        assert(slot_ok(old[idx][g], idx));
        match old[idx][g] {
            SlotView::Link { child } => {
                lemma_extend_lookup(old, new, n, child, key, h, level + 1);
            },
            _ => {},
        }
    }
}


impl HamtEntry {
    fn duplicate(&self) -> (r: HamtEntry)
        ensures
            slot_view(Slot::Entry(r)) == slot_view(Slot::Entry(*self)),
    {
        HamtEntry { key: self.key.clone(), value: self.value.clone(), hash: self.hash }
    }
}

impl Slot {
    fn duplicate(&self) -> (r: Slot)
        ensures
            slot_view(r) == slot_view(*self),
    {
        match self {
            Slot::Empty => Slot::Empty,
            Slot::Entry(e) => Slot::Entry(e.duplicate()),
            Slot::Link(c) => Slot::Link(*c),
        }
    }
}

/// A node of `count` empty slots.
fn empty_slots(count: usize) -> (r: Vec<Slot>)
    ensures
        slots_view(r@).len() == count,
        forall|j: int| 0 <= j < count ==> #[trigger] slots_view(r@)[j] == SlotView::Empty,
{
    let mut v: Vec<Slot> = Vec::new();
    let mut i: usize = 0;
    while i < count
        invariant
            i <= count,
            slots_view(v@).len() == i,
            forall|j: int| 0 <= j < i ==> #[trigger] slots_view(v@)[j] == SlotView::Empty,
        decreases count - i,
    {
        let ghost old_v = v@;
        v.push(Slot::Empty);
        assert(v@ == old_v.push(Slot::Empty));
        proof { lemma_slots_view_push(old_v, Slot::Empty); }
        i = i + 1;
    }
    v
}

/// A copy of the slots.
fn copy_slots(slots: &Vec<Slot>) -> (r: Vec<Slot>)
    ensures
        slots_view(r@) == slots_view(slots@),
{
    let mut v: Vec<Slot> = Vec::new();
    let mut i: usize = 0;
    while i < slots.len()
        invariant
            i <= slots@.len(),
            slots_view(v@) == slots_view(slots@).subrange(0, i as int),
        decreases slots@.len() - i,
    {
        let ghost old_v = v@;
        let d = slots[i].duplicate();
        v.push(d);
        assert(v@ == old_v.push(d));
        proof { lemma_slots_view_push(old_v, d); }
        i = i + 1;
        assert(slots_view(v@) =~= slots_view(slots@).subrange(0, i as int));
    }
    assert(slots_view(slots@).subrange(0, i as int) =~= slots_view(slots@));
    v
}

/// The slot that `h` selects at `level`.
pub(crate) fn slot_index(h: u64, n: u8, level: u8) -> (r: usize)
    requires
        1 <= n <= 8,
        level < levels(n),
    ensures
        r as u64 == group(h, n, level as nat),
        r < slot_count(n),
{
    proof {
        lemma_group_in_range(h, n, level as nat);
        assert(1 <= (n as int) * (level + 1) <= 64) by (nonlinear_arith)
            requires
                1 <= n,
                (level as int) < 64int / (n as int),
        ;
    }
    let shift: u64 = 64 - (n as u64) * (level as u64 + 1);
    let g = (h >> shift) & ((1u64 << (n as u64)) - 1);
    g as usize
}

impl Hamt {
    /// The nodes of the arena, as slot contents.
    pub closed spec fn view(&self) -> Seq<Seq<SlotView>> {
        self.nodes@.map_values(|n: HamtNode| node_view(n))
    }

    pub closed spec fn width(&self) -> u8 {
        self.bit_width
    }

    pub open spec fn wf(&self) -> bool {
        nodes_wf(self@, self.width())
    }

    /// Number of nodes in the arena; each index below it is a valid root.
    pub open spec fn node_count(&self) -> nat {
        self@.len()
    }

    /// The value that the version rooted at `root` holds for `key`.
    pub open spec fn get(&self, root: int, key: Seq<u8>) -> Option<Seq<u8>> {
        lookup_in(self@, self.width(), root, key, key_hash(key), 0)
    }

    /// An empty trie of bit width `n`, and the root of its one (empty) version.
    pub fn new(n: u8) -> (r: Result<(Hamt, usize), HamtError>)
        ensures
            r is Ok <==> 1 <= n <= 8,
            r matches Ok((t, root)) ==> {
                &&& t.wf()
                &&& t.width() == n
                &&& root < t.node_count()
                &&& forall|k: Seq<u8>| #[trigger] t.get(root as int, k) is None
            },
            r matches Err(e) ==> e == HamtError::InvalidSplit,
    {
        if n < 1 || n > 8 {
            return Err(HamtError::InvalidSplit);
        }
        proof {
            lemma_group_bound(0, 0, n as u64);
        }
        let count = (1u64 << (n as u64)) as usize;
        let mut nodes: Vec<HamtNode> = Vec::new();
        nodes.push(HamtNode { slots: empty_slots(count) });
        let t = Hamt { bit_width: n, nodes };
        proof {
            assert(t@[0] == node_view(t.nodes@[0]));
            assert forall|k: Seq<u8>| #[trigger] t.get(0, k) is None by {
                if 0 < levels(n) {
                    lemma_group_in_range(key_hash(k), n, 0);
                }
            }
        }
        Ok((t, 0))
    }

    /// The bit width of the trie.
    pub fn bit_width(&self) -> (r: u8)
        ensures
            r == self.width(),
    {
        self.bit_width
    }

    /// Builds the chain of nodes that separates the entries of two distinct
    /// keys, starting at `level`; fails where their hashes agree on every
    /// group from `level` on.
    fn make_pair(&mut self, e1: HamtEntry, e2: HamtEntry, level: u8) -> (r: Result<usize, HamtError>)
        requires
            old(self).wf(),
            e1.key@ != e2.key@,
            e1.hash == key_hash(e1.key@),
            e2.hash == key_hash(e2.key@),
            level <= levels(old(self).width()),
            old(self)@.len() + 64 <= usize::MAX,
        ensures
            final(self).wf(),
            final(self).width() == old(self).width(),
            extends(old(self)@, final(self)@),
            final(self)@.len() <= old(self)@.len() + levels(old(self).width()) - level,
            r is Err <==> same_groups_from(e1.hash, e2.hash, old(self).width(), level as nat),
            r is Err ==> final(self)@ == old(self)@ && r == Err::<usize, HamtError>(HamtError::HashExhausted),
            r matches Ok(ni) ==> ni < final(self)@.len() && forall|k: Seq<u8>|
                #[trigger] lookup_in(final(self)@, old(self).width(), ni as int, k, key_hash(k), level as nat) == if k
                    == e1.key@ {
                    Some(e1.value@)
                } else if k == e2.key@ {
                    Some(e2.value@)
                } else {
                    None
                },
        decreases levels(old(self).width()) - level,
    {
        let n = self.bit_width;
        let ghost w = n;
        let ghost (k1, v1, h1) = (e1.key@, e1.value@, e1.hash);
        let ghost (k2, v2, h2) = (e2.key@, e2.value@, e2.hash);
        let ghost old_nodes = self@;
        if level as u64 >= 64 / (n as u64) {
            return Err(HamtError::HashExhausted);
        }
        let g1 = slot_index(e1.hash, n, level);
        let g2 = slot_index(e2.hash, n, level);
        proof {
            lemma_group_bound(0, 0, n as u64);
        }
        let count = (1u64 << (n as u64)) as usize;
        if g1 != g2 {
            let mut slots = empty_slots(count);
            let ghost s0 = slots@;
            slots.set(g1, Slot::Entry(e1));
            let ghost s1 = slots@;
            slots.set(g2, Slot::Entry(e2));
            proof {
                lemma_slots_view_update(s0, g1 as int, Slot::Entry(e1));
                lemma_slots_view_update(s1, g2 as int, Slot::Entry(e2));
                let node = slots_view(slots@);
                assert forall|j: int| 0 <= j < node.len() implies slot_ok(#[trigger] node[j], old_nodes.len() as int) by {
                    if j != g1 && j != g2 {
                        assert(node[j] == slots_view(s0)[j]);
                    }
                }
                lemma_push_wf(old_nodes, w, node);
                if same_groups_from(h1, h2, w, level as nat) {
                    assert(group(h1, w, level as nat) == group(h2, w, level as nat));
                }
            }
            let ni = self.add_node(slots);
            proof {
                assert(self@[ni as int] == slots_view(slots@));
                assert forall|k: Seq<u8>|
                    #[trigger] lookup_in(self@, w, ni as int, k, key_hash(k), level as nat) == if k == k1 {
                        Some(v1)
                    } else if k == k2 {
                        Some(v2)
                    } else {
                        None
                    } by {
                    lemma_group_in_range(key_hash(k), w, level as nat);
                    let gk = group(key_hash(k), w, level as nat) as int;
                    if gk != g1 && gk != g2 {
                        assert(self@[ni as int][gk] == slots_view(s0)[gk]);
                    }
                }
            }
            Ok(ni)
        } else {
            proof {
                assert forall|l: nat| level + 1 <= l < levels(w) && same_groups_from(h1, h2, w, (level + 1) as nat)
                    implies #[trigger] group(h1, w, l) == group(h2, w, l) by {}
                if same_groups_from(h1, h2, w, (level + 1) as nat) {
                    assert forall|l: nat| level <= l < levels(w) implies #[trigger] group(h1, w, l) == group(h2, w, l) by {
                        if l == level {
                        } else {
                            assert(group(h1, w, l) == group(h2, w, l));
                        }
                    }
                }
                if same_groups_from(h1, h2, w, level as nat) {
                    assert forall|l: nat| level + 1 <= l < levels(w) implies #[trigger] group(h1, w, l) == group(h2, w, l) by {
                        assert(level <= l);
                    }
                }
            }
            match self.make_pair(e1, e2, level + 1) {
                Err(e) => Err(e),
                Ok(c) => {
                    let ghost mid = self@;
                    let mut slots = empty_slots(count);
                    let ghost s0 = slots@;
                    slots.set(g1, Slot::Link(c));
                    proof {
                        lemma_slots_view_update(s0, g1 as int, Slot::Link(c));
                        let node = slots_view(slots@);
                        assert forall|j: int| 0 <= j < node.len() implies slot_ok(#[trigger] node[j], mid.len() as int) by {
                            if j != g1 {
                                assert(node[j] == slots_view(s0)[j]);
                            }
                        }
                        lemma_push_wf(mid, w, node);
                    }
                    let ni = self.add_node(slots);
                    proof {
                        assert(self@[ni as int] == slots_view(slots@));
                        assert forall|k: Seq<u8>|
                            #[trigger] lookup_in(self@, w, ni as int, k, key_hash(k), level as nat) == if k == k1 {
                                Some(v1)
                            } else if k == k2 {
                                Some(v2)
                            } else {
                                None
                            } by {
                            lemma_group_in_range(key_hash(k), w, level as nat);
                            let gk = group(key_hash(k), w, level as nat) as int;
                            if gk != g1 {
                                assert(self@[ni as int][gk] == slots_view(s0)[gk]);
                            } else {
                                assert(lookup_in(mid, w, c as int, k, key_hash(k), (level + 1) as nat) == if k == k1 {
                                    Some(v1)
                                } else if k == k2 {
                                    Some(v2)
                                } else {
                                    None
                                });
                                lemma_extend_lookup(mid, self@, w, c as int, k, key_hash(k), (level + 1) as nat);
                            }
                        }
                    }
                    Ok(ni)
                },
            }
        }
    }

    /// Inserts below node `idx` at `level` and returns the index of the
    /// rebuilt node; the nodes already in the arena are left as they were.
    fn insert_at(&mut self, idx: usize, key: Vec<u8>, value: Vec<u8>, h: u64, level: u8) -> (r: Result<
        usize,
        HamtError,
    >)
        requires
            old(self).wf(),
            idx < old(self)@.len(),
            level < levels(old(self).width()),
            h == key_hash(key@),
            old(self)@.len() + 64 <= usize::MAX,
        ensures
            final(self).wf(),
            final(self).width() == old(self).width(),
            extends(old(self)@, final(self)@),
            final(self)@.len() <= old(self)@.len() + levels(old(self).width()) - level,
            r is Err <==> blocked(old(self)@, old(self).width(), idx as int, key@, h, level as nat),
            r is Err ==> final(self)@ == old(self)@ && r == Err::<usize, HamtError>(HamtError::HashExhausted),
            r matches Ok(ni) ==> ni < final(self)@.len() && forall|k: Seq<u8>|
                #[trigger] lookup_in(final(self)@, old(self).width(), ni as int, k, key_hash(k), level as nat) == if k
                    == key@ {
                    Some(value@)
                } else {
                    lookup_in(old(self)@, old(self).width(), idx as int, k, key_hash(k), level as nat)
                },
        decreases levels(old(self).width()) - level,
    {
        let n = self.bit_width;
        let ghost w = n;
        let ghost kv = key@;
        let ghost vv = value@;
        let ghost old_nodes = self@;
        let g = slot_index(h, n, level);
        proof {
            assert(old_nodes[idx as int] == node_view(self.nodes@[idx as int]));
            assert(old_nodes[idx as int].len() == slot_count(w));
        }
        let existing = self.nodes[idx].slots[g].duplicate();
        proof {
            assert(slot_view(existing) == old_nodes[idx as int][g as int]);
            assert(slot_ok(old_nodes[idx as int][g as int], idx as int));
        }
        let new_slot = match existing {
            Slot::Empty => Slot::Entry(HamtEntry { key, value, hash: h }),
            Slot::Entry(e) => {
                if same_bytes(e.key.as_slice(), key.as_slice()) {
                    Slot::Entry(HamtEntry { key, value, hash: h })
                } else if level as u64 + 1 >= 64 / (n as u64) {
                    return Err(HamtError::HashExhausted);
                } else {
                    let ghost (k2, v2, h2) = (e.key@, e.value@, e.hash);
                    match self.make_pair(HamtEntry { key, value, hash: h }, e, level + 1) {
                        Err(err) => {
                            return Err(err);
                        },
                        Ok(c) => {
                            proof {
                                assert forall|k: Seq<u8>|
                                    #[trigger] lookup_in(self@, w, c as int, k, key_hash(k), (level + 1) as nat)
                                        == if k == kv {
                                        Some(vv)
                                    } else if k == k2 {
                                        Some(v2)
                                    } else {
                                        None
                                    } by {}
                            }
                            Slot::Link(c)
                        },
                    }
                }
            },
            Slot::Link(c) => {
                if level as u64 + 1 >= 64 / (n as u64) {
                    // A link at the last level leads nowhere a lookup can reach.
                    assert(!blocked(old_nodes, w, c as int, kv, h, (level + 1) as nat));
                    Slot::Entry(HamtEntry { key, value, hash: h })
                } else {
                match self.insert_at(c, key, value, h, level + 1) {
                    Err(err) => {
                        return Err(err);
                    },
                    Ok(c2) => Slot::Link(c2),
                }
                }
            },
        };
        let ghost mid = self@;
        proof {
            assert(mid[idx as int] == node_view(self.nodes@[idx as int]));
        }
        let mut slots = copy_slots(&self.nodes[idx].slots);
        let ghost s0 = slots@;
        slots.set(g, new_slot);
        proof {
            lemma_slots_view_update(s0, g as int, new_slot);
            let node = slots_view(slots@);
            assert forall|j: int| 0 <= j < node.len() implies slot_ok(#[trigger] node[j], mid.len() as int) by {
                if j != g {
                    assert(node[j] == mid[idx as int][j]);
                    assert(slot_ok(mid[idx as int][j], idx as int));
                }
            }
            lemma_push_wf(mid, w, node);
        }
        let ni = self.add_node(slots);
        proof {
            assert(self@[ni as int] == slots_view(slots@));
            assert forall|k: Seq<u8>|
                #[trigger] lookup_in(self@, w, ni as int, k, key_hash(k), level as nat) == if k == kv {
                    Some(vv)
                } else {
                    lookup_in(old_nodes, w, idx as int, k, key_hash(k), level as nat)
                } by {
                lemma_group_in_range(key_hash(k), w, level as nat);
                let gk = group(key_hash(k), w, level as nat) as int;
                if gk != g {
                    assert(self@[ni as int][gk] == old_nodes[idx as int][gk]);
                    assert(slot_ok(old_nodes[idx as int][gk], idx as int));
                    match old_nodes[idx as int][gk] {
                        SlotView::Link { child } => {
                            lemma_extend_lookup(old_nodes, self@, w, child, k, key_hash(k), (level + 1) as nat);
                        },
                        _ => {},
                    }
                } else {
                    match old_nodes[idx as int][gk] {
                        SlotView::Link { child } => {
                            lemma_extend_lookup(old_nodes, mid, w, child, k, key_hash(k), (level + 1) as nat);
                            match slot_view(new_slot) {
                                SlotView::Link { child: c2 } => {
                                    lemma_extend_lookup(mid, self@, w, c2, k, key_hash(k), (level + 1) as nat);
                                },
                                _ => {},
                            }
                        },
                        SlotView::Entry { key: k2, value: _, hash: _ } => {
                            if k2 != kv {
                                match slot_view(new_slot) {
                                    SlotView::Link { child: c2 } => {
                                        lemma_extend_lookup(mid, self@, w, c2, k, key_hash(k), (level + 1) as nat);
                                    },
                                    _ => {},
                                }
                            }
                        },
                        _ => {},
                    }
                }
            }
            assert(group(h, w, level as nat) == g as u64);
        }
        Ok(ni)
    }

    /// Number of nodes in the arena.
    pub fn len(&self) -> (r: usize)
        ensures
            r == self.node_count(),
    {
        self.nodes.len()
    }

    /// Inserts `key` with `value`, whose hash is `h`, into the version rooted
    /// at `root`, and returns the root of the new version. Every earlier
    /// version keeps its contents.
    pub fn insert_hashed(&mut self, root: usize, key: Vec<u8>, value: Vec<u8>, h: u64) -> (r: Result<
        usize,
        HamtError,
    >)
        requires
            old(self).wf(),
            root < old(self).node_count(),
            h == key_hash(key@),
            old(self).node_count() + 64 <= usize::MAX,
        ensures
            final(self).wf(),
            final(self).width() == old(self).width(),
            final(self).node_count() >= old(self).node_count(),
            forall|r0: int, k: Seq<u8>|
                0 <= r0 < old(self).node_count() ==> #[trigger] final(self).get(r0, k) == old(self).get(r0, k),
            r is Err <==> blocked(old(self)@, old(self).width(), root as int, key@, h, 0),
            r is Err ==> final(self)@ == old(self)@ && r == Err::<usize, HamtError>(HamtError::HashExhausted),
            r matches Ok(nr) ==> nr < final(self).node_count() && forall|k: Seq<u8>|
                #[trigger] final(self).get(nr as int, k) == if k == key@ {
                    Some(value@)
                } else {
                    old(self).get(root as int, k)
                },
    {
        let ghost old_nodes = self@;
        let ghost w = self.width();
        let ghost kv = key@;
        proof {
            lemma_levels(w);
        }
        let r = self.insert_at(root, key, value, h, 0);
        proof {
            assert forall|r0: int, k: Seq<u8>| 0 <= r0 < old_nodes.len() implies #[trigger] self.get(r0, k)
                == lookup_in(old_nodes, w, r0, k, key_hash(k), 0) by {
                lemma_extend_lookup(old_nodes, self@, w, r0, k, key_hash(k), 0);
            }
        }
        r
    }

    /// Inserts `key` with `value` into the version rooted at `root` and
    /// returns the root of the new version; fails where the key's hash
    /// collides in full with another key's.
    pub fn insert(&mut self, root: usize, key: Vec<u8>, value: Vec<u8>) -> (r: Result<usize, HamtError>)
        requires
            old(self).wf(),
            root < old(self).node_count(),
            old(self).node_count() + 64 <= usize::MAX,
        ensures
            final(self).wf(),
            final(self).width() == old(self).width(),
            final(self).node_count() >= old(self).node_count(),
            forall|r0: int, k: Seq<u8>|
                0 <= r0 < old(self).node_count() ==> #[trigger] final(self).get(r0, k) == old(self).get(r0, k),
            r is Ok <==> !blocked(old(self)@, old(self).width(), root as int, key@, key_hash(key@), 0),
            r is Err ==> final(self)@ == old(self)@ && r == Err::<usize, HamtError>(HamtError::HashExhausted),
            r matches Ok(nr) ==> nr < final(self).node_count() && forall|k: Seq<u8>|
                #[trigger] final(self).get(nr as int, k) == if k == key@ {
                    Some(value@)
                } else {
                    old(self).get(root as int, k)
                },
    {
        let h = compute_hash(key.as_slice());
        self.insert_hashed(root, key, value, h)
    }

    /// The value that the version rooted at `root` holds for `key`, whose
    /// hash is `h`.
    pub fn lookup_hashed(&self, root: usize, key: &[u8], h: u64) -> (r: Option<Vec<u8>>)
        requires
            self.wf(),
            root < self.node_count(),
            h == key_hash(key@),
        ensures
            match r {
                Some(v) => self.get(root as int, key@) == Some(v@),
                None => self.get(root as int, key@) is None,
            },
    {
        let n = self.bit_width;
        let ghost w = n;
        let mut idx: usize = root;
        let mut level: u8 = 0;
        while (level as u64) < 64 / (n as u64)
            invariant
                self.wf(),
                w == self.width(),
                n == w,
                idx < self@.len(),
                level <= levels(w),
                lookup_in(self@, w, idx as int, key@, h, level as nat) == self.get(root as int, key@),
            decreases levels(w) - level,
        {
            let g = slot_index(h, n, level);
            proof {
                assert(self@[idx as int] == node_view(self.nodes@[idx as int]));
                assert(self@[idx as int].len() == slot_count(w));
            }
            let slot = &self.nodes[idx].slots[g];
            proof {
                assert(slot_view(*slot) == self@[idx as int][g as int]);
                assert(slot_ok(self@[idx as int][g as int], idx as int));
            }
            match slot {
                Slot::Empty => {
                    return None;
                },
                Slot::Entry(e) => {
                    if same_bytes(e.key.as_slice(), key) {
                        return Some(e.value.clone());
                    } else {
                        return None;
                    }
                },
                Slot::Link(c) => {
                    idx = *c;
                    level = level + 1;
                },
            }
        }
        None
    }

    /// The value that the version rooted at `root` holds for `key`.
    pub fn lookup(&self, root: usize, key: &[u8]) -> (r: Option<Vec<u8>>)
        requires
            self.wf(),
            root < self.node_count(),
        ensures
            match r {
                Some(v) => self.get(root as int, key@) == Some(v@),
                None => self.get(root as int, key@) is None,
            },
    {
        let h = compute_hash(key);
        self.lookup_hashed(root, key, h)
    }

    /// Appends a node and returns its index.
    fn add_node(&mut self, slots: Vec<Slot>) -> (r: usize)
        requires
            old(self).wf(),
            nodes_wf(old(self)@.push(slots_view(slots@)), old(self).width()),
            old(self)@.len() + 1 <= usize::MAX,
        ensures
            final(self)@ == old(self)@.push(slots_view(slots@)),
            final(self).width() == old(self).width(),
            final(self).wf(),
            r == old(self)@.len(),
    {
        let r = self.nodes.len();
        let ghost v = self@;
        self.nodes.push(HamtNode { slots });
        assert(self@ =~= v.push(slots_view(slots@)));
        r
    }
}

/// The value of the last pair whose key is `k`, if any.
pub open spec fn last_value(pairs: Seq<(Seq<u8>, Seq<u8>)>, k: Seq<u8>) -> Option<Seq<u8>>
    decreases pairs.len(),
{
    if pairs.len() == 0 {
        None
    } else if pairs.last().0 == k {
        Some(pairs.last().1)
    } else {
        last_value(pairs.drop_last(), k)
    }
}

/// Starting from an empty version and inserting the pairs one after another,
/// each version built on the one before: the last version holds, for every
/// key, the value it was last inserted with, and nothing for a key never
/// inserted.
pub proof fn lemma_inserts_then_lookups(t: Hamt, roots: Seq<int>, pairs: Seq<(Seq<u8>, Seq<u8>)>)
    requires
        roots.len() == pairs.len() + 1,
        forall|k: Seq<u8>| #[trigger] t.get(roots[0], k) is None,
        forall|i: int, k: Seq<u8>|
            0 <= i < pairs.len() ==> #[trigger] t.get(roots[i + 1], k) == if k == pairs[i].0 {
                Some(pairs[i].1)
            } else {
                t.get(roots[i], k)
            },
    ensures
        forall|k: Seq<u8>| #[trigger] t.get(roots.last(), k) == last_value(pairs, k),
    decreases pairs.len(),
{
    if pairs.len() > 0 {
        let m = pairs.len() - 1;
        lemma_inserts_then_lookups(t, roots.drop_last(), pairs.drop_last());
        assert forall|k: Seq<u8>| #[trigger] t.get(roots.last(), k) == last_value(pairs, k) by {
            assert(t.get(roots[m + 1], k) == if k == pairs[m].0 {
                Some(pairs[m].1)
            } else {
                t.get(roots[m], k)
            });
            assert(roots.drop_last().last() == roots[m]);
            assert(t.get(roots.drop_last().last(), k) == last_value(pairs.drop_last(), k));
        }
    }
}

/// A slot in its stored form, with `addrs` giving the address of each node.
pub open spec fn stored_of(s: SlotView, addrs: Seq<Seq<u8>>) -> StoredSlotView {
    match s {
        SlotView::Empty => StoredSlotView::Empty,
        SlotView::Entry { key, value, hash: _ } => StoredSlotView::Entry { key, value },
        SlotView::Link { child } => StoredSlotView::Link { addr: addrs[child] },
    }
}

/// A node in its stored form, with `addrs` giving the address of each node.
pub open spec fn stored_node_of(node: Seq<SlotView>, addrs: Seq<Seq<u8>>) -> Seq<StoredSlotView> {
    node.map_values(|s: SlotView| stored_of(s, addrs))
}

impl Hamt {
    /// The canonical encoding of node `idx`, given the addresses under which
    /// the nodes before it are stored. Links lead only to earlier nodes, so
    /// a version can be stored node by node in the order of the arena.
    #[verifier::spinoff_prover]
    #[verifier::rlimit(50)]
    pub fn encode_node(&self, idx: usize, addrs: &Vec<Address>) -> (r: Vec<u8>)
        requires
            self.wf(),
            idx < self.node_count(),
            idx <= addrs@.len(),
            forall|i: int| 0 <= i < addrs@.len() ==> #[trigger] addrs@[i]@.len() < u64::MAX,
        ensures
            r@ == stored_bytes(stored_node_of(self@[idx as int], addrs@.map_values(|a: Address| a@))),
    {
        let ghost av = addrs@.map_values(|a: Address| a@);
        let ghost sv = self@[idx as int];
        let ghost ss = stored_node_of(sv, av);
        let slots = &self.nodes[idx].slots;
        proof {
            assert(sv == slots_view(slots@));
            lemma_group_bound(0, 0, self.bit_width as u64);
            assert(sv.len() == slot_count(self.width()));
        }
        let n = slots.len();
        let mut count: u64 = 0;
        let mut j: usize = 0;
        while j < n
            invariant
                n == slots@.len(),
                n <= 256,
                sv == slots_view(slots@),
                j <= n,
                ss == stored_node_of(sv, av),
                count == occupied(ss, 0, j as int),
                count <= j,
            decreases n - j,
        {
            assert(sv[j as int] == slot_view(slots@[j as int]));
            assert(ss[j as int] == stored_of(sv[j as int], av));
            match &slots[j] {
                Slot::Empty => {},
                _ => {
                    count = count + 1;
                },
            }
            j = j + 1;
        }
        let mut out: Vec<u8> = Vec::new();
        let open: [u8; 7] = [0xa1, 0x65, 0x73, 0x6c, 0x6f, 0x74, 0x73];
        push_bytes(&mut out, open.as_slice());
        push_head(&mut out, 4, count);
        let ghost front = out@;
        assert(front =~= seq![0xa1u8, 0x65, 0x73, 0x6c, 0x6f, 0x74, 0x73] + head(4, occupied(ss, 0, ss.len() as int) as u64));
        let key_k: [u8; 5] = [0xa2, 0x63, 0x6b, 0x65, 0x79];
        let value_k: [u8; 6] = [0x65, 0x76, 0x61, 0x6c, 0x75, 0x65];
        let link_k: [u8; 8] = [0xa1, 0x64, 0x6c, 0x69, 0x6e, 0x6b, 0xd8, 0x2a];
        let mut j: usize = 0;
        while j < n
            invariant
                n == slots@.len(),
                n <= 256,
                sv == slots_view(slots@),
                sv == self@[idx as int],
                self.wf(),
                idx < self@.len(),
                idx <= addrs@.len(),
                av == addrs@.map_values(|a: Address| a@),
                forall|i: int| 0 <= i < addrs@.len() ==> #[trigger] addrs@[i]@.len() < u64::MAX,
                key_k@ == seq![0xa2u8, 0x63, 0x6b, 0x65, 0x79],
                value_k@ == seq![0x65u8, 0x76, 0x61, 0x6c, 0x75, 0x65],
                link_k@ == seq![0xa1u8, 0x64, 0x6c, 0x69, 0x6e, 0x6b, 0xd8, 0x2a],
                j <= n,
                ss == stored_node_of(sv, av),
                out@ == front + pieces(ss, 0, j as int),
            decreases n - j,
        {
            assert(sv[j as int] == slot_view(slots@[j as int]));
            assert(ss[j as int] == stored_of(sv[j as int], av));
            assert(pieces(ss, 0, j + 1) == pieces(ss, 0, j as int) + piece(ss, j as int));
            let ghost before = out@;
            match &slots[j] {
                Slot::Empty => {},
                Slot::Entry(e) => {
                    out.push(0x82);
                    push_head(&mut out, 0, j as u64);
                    push_bytes(&mut out, key_k.as_slice());
                    push_head(&mut out, 2, e.key.len() as u64);
                    push_bytes(&mut out, e.key.as_slice());
                    push_bytes(&mut out, value_k.as_slice());
                    push_head(&mut out, 2, e.value.len() as u64);
                    push_bytes(&mut out, e.value.as_slice());
                    assert(out@ =~= before + piece(ss, j as int));
                },
                Slot::Link(c) => {
                    proof {
                        assert(slot_ok(self@[idx as int][j as int], idx as int));
                    }
                    let a = addrs[*c].as_bytes();
                    assert(av[*c as int] == a@);
                    out.push(0x82);
                    push_head(&mut out, 0, j as u64);
                    push_bytes(&mut out, link_k.as_slice());
                    push_head(&mut out, 2, a.len() as u64 + 1);
                    out.push(0);
                    push_bytes(&mut out, a.as_slice());
                    assert(out@ =~= before + piece(ss, j as int));
                },
            }
            j = j + 1;
            assert(out@ =~= front + pieces(ss, 0, j as int));
        }
        assert(out@ =~= stored_bytes(ss));
        out
    }
}

proof fn lemma_stored_lookup_at(
    t: Hamt,
    addrs: Seq<Seq<u8>>,
    store: Map<Seq<u8>, Seq<StoredSlotView>>,
    idx: int,
    key: Seq<u8>,
    h: u64,
    level: nat,
)
    requires
        t.wf(),
        addrs.len() == t.node_count(),
        0 <= idx < t.node_count(),
        forall|i: int|
            0 <= i < addrs.len() ==> store.contains_key(#[trigger] addrs[i]) && store[addrs[i]] == stored_node_of(
                t@[i],
                addrs,
            ),
    ensures
        stored_lookup(store, t.width(), addrs[idx], key, h, level) == lookup_in(t@, t.width(), idx, key, h, level),
    decreases levels(t.width()) - level,
{
    let n = t.width();
    if level < levels(n) {
        lemma_group_in_range(h, n, level);
        let g = group(h, n, level) as int;
        assert(store[addrs[idx]] == stored_node_of(t@[idx], addrs));
        assert(store[addrs[idx]][g] == stored_of(t@[idx][g], addrs));
        assert(slot_ok(t@[idx][g], idx));
        match t@[idx][g] {
            SlotView::Link { child } => {
                lemma_stored_lookup_at(t, addrs, store, child, key, h, level + 1);
            },
            _ => {},
        }
    }
}

/// Storing every node of the arena under its address, and looking a key up
/// through the stored nodes from the address of a root, gives what that
/// version holds.
pub proof fn lemma_stored_lookup(
    t: Hamt,
    addrs: Seq<Seq<u8>>,
    store: Map<Seq<u8>, Seq<StoredSlotView>>,
    root: int,
    key: Seq<u8>,
)
    requires
        t.wf(),
        addrs.len() == t.node_count(),
        0 <= root < t.node_count(),
        forall|i: int|
            0 <= i < addrs.len() ==> store.contains_key(#[trigger] addrs[i]) && store[addrs[i]] == stored_node_of(
                t@[i],
                addrs,
            ),
    ensures
        stored_lookup(store, t.width(), addrs[root], key, key_hash(key), 0) == t.get(root, key),
{
    lemma_stored_lookup_at(t, addrs, store, root, key, key_hash(key), 0);
}

} // verus!
