use vstd::prelude::*;
use crate::address::Address;
use crate::codec::{copy_range, expect, head, lemma_starts_concat, read_head, starts_with_at, Error};
use crate::bytes::same_bytes;
use crate::hamt::{group, levels, slot_count, slot_index};

verus! {

/// A slot of a trie node as stored: links are addresses of stored nodes.
pub ghost enum StoredSlotView {
    Empty,
    Entry { key: Seq<u8>, value: Seq<u8> },
    Link { addr: Seq<u8> },
}

/// A slot of a stored trie node.
#[derive(Debug)]
pub enum StoredSlot {
    Empty,
    Entry(Vec<u8>, Vec<u8>),
    Link(Address),
}

/// One step of a lookup through stored nodes.
#[derive(Debug)]
pub enum Probe {
    /// The key is here, with this value.
    Found(Vec<u8>),
    /// The key is not in the trie.
    Missing,
    /// Fetch the node stored under this address and look at the next level.
    Descend(Address),
}

/// A trie node read back from its stored encoding.
#[derive(Debug)]
pub struct StoredNode {
    pub slots: Vec<StoredSlot>,
}

pub open spec fn stored_slot_view(s: StoredSlot) -> StoredSlotView {
    match s {
        StoredSlot::Empty => StoredSlotView::Empty,
        StoredSlot::Entry(k, v) => StoredSlotView::Entry { key: k@, value: v@ },
        StoredSlot::Link(a) => StoredSlotView::Link { addr: a@ },
    }
}

pub open spec fn stored_view(node: StoredNode) -> Seq<StoredSlotView> {
    node.slots@.map_values(|s: StoredSlot| stored_slot_view(s))
}

/// The map of an entry and its key "key".
pub open spec fn entry_key() -> Seq<u8> {
    seq![0xa2u8, 0x63, 0x6b, 0x65, 0x79]
}

/// The key "value".
pub open spec fn value_key() -> Seq<u8> {
    seq![0x65u8, 0x76, 0x61, 0x6c, 0x75, 0x65]
}

/// The map of a link, its key "link", and tag 42.
pub open spec fn link_key() -> Seq<u8> {
    seq![0xa1u8, 0x64, 0x6c, 0x69, 0x6e, 0x6b, 0xd8, 0x2a]
}

/// The map of a node and its key "slots".
pub open spec fn node_open() -> Seq<u8> {
    seq![0xa1u8, 0x65, 0x73, 0x6c, 0x6f, 0x74, 0x73]
}

/// An occupied slot: `{"key": bytes, "value": bytes}` for an entry,
/// `{"link": CID(address)}` for a link.
pub open spec fn stored_item(s: StoredSlotView) -> Seq<u8> {
    match s {
        StoredSlotView::Entry { key, value } => entry_key() + (head(2, key.len() as u64) + (key + (value_key() + (
        head(2, value.len() as u64) + value)))),
        StoredSlotView::Link { addr } => link_key() + (head(2, (addr.len() + 1) as u64) + (seq![0u8] + addr)),
        StoredSlotView::Empty => Seq::empty(),
    }
}

/// Slot `j` on the wire: nothing if empty, else `[j, item]`.
pub open spec fn piece(ss: Seq<StoredSlotView>, j: int) -> Seq<u8> {
    if ss[j] is Empty {
        Seq::empty()
    } else {
        seq![0x82u8] + (head(0, j as u64) + stored_item(ss[j]))
    }
}

/// Slots `i..j` on the wire.
pub open spec fn pieces(ss: Seq<StoredSlotView>, i: int, j: int) -> Seq<u8>
    decreases j - i,
{
    if j <= i {
        Seq::empty()
    } else {
        pieces(ss, i, j - 1) + piece(ss, j - 1)
    }
}

/// Number of occupied slots among `i..j`.
pub open spec fn occupied(ss: Seq<StoredSlotView>, i: int, j: int) -> nat
    decreases j - i,
{
    if j <= i {
        0
    } else {
        occupied(ss, i, j - 1) + if ss[j - 1] is Empty {
            0nat
        } else {
            1nat
        }
    }
}

/// The canonical encoding of a node: `{"slots": [[index, item], ...]}`, the
/// occupied slots in order of index.
pub open spec fn stored_bytes(ss: Seq<StoredSlotView>) -> Seq<u8> {
    node_open() + (head(4, occupied(ss, 0, ss.len() as int) as u64) + pieces(ss, 0, ss.len() as int))
}

/// A lookup through stored nodes, `store` giving the stored form of the node
/// under each address: what `probe` answers, level after level.
pub open spec fn stored_lookup(
    store: Map<Seq<u8>, Seq<StoredSlotView>>,
    n: u8,
    addr: Seq<u8>,
    key: Seq<u8>,
    h: u64,
    level: nat,
) -> Option<Seq<u8>>
    decreases levels(n) - level,
{
    if level >= levels(n) || !store.contains_key(addr) {
        None
    } else {
        match store[addr][group(h, n, level) as int] {
            StoredSlotView::Empty => None,
            StoredSlotView::Entry { key: k, value } => if k == key {
                Some(value)
            } else {
                None
            },
            StoredSlotView::Link { addr: a } => stored_lookup(store, n, a, key, h, level + 1),
        }
    }
}

/// Every length in the encoding fits its 64-bit head.
pub open spec fn stored_fit(ss: Seq<StoredSlotView>) -> bool {
    forall|j: int|
        0 <= j < ss.len() ==> match #[trigger] ss[j] {
            StoredSlotView::Entry { key, value } => key.len() <= u64::MAX && value.len() <= u64::MAX,
            StoredSlotView::Link { addr } => addr.len() < u64::MAX,
            StoredSlotView::Empty => true,
        }
}

proof fn lemma_pieces_split(ss: Seq<StoredSlotView>, i: int, k: int, j: int)
    requires
        i <= k <= j,
    ensures
        pieces(ss, i, j) == pieces(ss, i, k) + pieces(ss, k, j),
        occupied(ss, i, j) == occupied(ss, i, k) + occupied(ss, k, j),
    decreases j - k,
{
    if k == j {
        assert(pieces(ss, k, j) == Seq::<u8>::empty());
        assert(pieces(ss, i, j) + Seq::<u8>::empty() =~= pieces(ss, i, j));
    } else {
        lemma_pieces_split(ss, i, k, j - 1);
        assert(pieces(ss, i, j) =~= pieces(ss, i, k) + pieces(ss, k, j));
    }
}

/// Where slots `j..` hold something, the first of them leads their encoding.
proof fn lemma_first_occupied(ss: Seq<StoredSlotView>, j: int, len: int)
    requires
        0 <= j < len <= ss.len(),
        occupied(ss, j, len) > 0,
    ensures
        exists|f: int|
            #![trigger ss[f]]
            j <= f < len && !(ss[f] is Empty) && pieces(ss, j, len) == piece(ss, f) + pieces(ss, f + 1, len) && forall|
                t: int,
            | j <= t < f ==> #[trigger] ss[t] is Empty,
    decreases len - j,
{
    lemma_pieces_split(ss, j, j + 1, len);
    assert(pieces(ss, j, j + 1) =~= piece(ss, j)) by {
        assert(pieces(ss, j, j) == Seq::<u8>::empty());
    }
    assert(occupied(ss, j, j + 1) == if ss[j] is Empty { 0nat } else { 1nat }) by {
        assert(occupied(ss, j, j) == 0);
    }
    if ss[j] is Empty {
        lemma_first_occupied(ss, j + 1, len);
        let f = choose|f: int|
            #![trigger ss[f]]
            j + 1 <= f < len && !(ss[f] is Empty) && pieces(ss, j + 1, len) == piece(ss, f) + pieces(ss, f + 1, len)
                && forall|t: int| j + 1 <= t < f ==> #[trigger] ss[t] is Empty;
        assert(piece(ss, j) =~= Seq::<u8>::empty());
        assert(pieces(ss, j, len) =~= pieces(ss, j + 1, len));
        assert(forall|t: int| j <= t < f ==> #[trigger] ss[t] is Empty);
    } else {
        assert(forall|t: int| j <= t < j ==> #[trigger] ss[t] is Empty);
    }
}

/// The fit of one slot.
pub open spec fn slot_fits(s: StoredSlotView) -> bool {
    match s {
        StoredSlotView::Entry { key, value } => key.len() <= u64::MAX && value.len() <= u64::MAX,
        StoredSlotView::Link { addr } => addr.len() < u64::MAX,
        StoredSlotView::Empty => true,
    }
}

proof fn lemma_entry_item_pieces(b: Seq<u8>, pos: int, key: Seq<u8>, value: Seq<u8>)
    requires
        0 <= pos,
    ensures
        ({
            let hk = head(2, key.len() as u64);
            let hv = head(2, value.len() as u64);
            let at1 = pos + 5;
            let at2 = at1 + hk.len();
            let at3 = at2 + key.len();
            let at4 = at3 + 6;
            let at5 = at4 + hv.len();
            starts_with_at(b, pos, stored_item(StoredSlotView::Entry { key, value })) <==> {
                &&& starts_with_at(b, pos, entry_key())
                &&& starts_with_at(b, at1, hk)
                &&& starts_with_at(b, at2, key)
                &&& starts_with_at(b, at3, value_key())
                &&& starts_with_at(b, at4, hv)
                &&& starts_with_at(b, at5, value)
            }
        }),
        stored_item(StoredSlotView::Entry { key, value }).len() == 5 + head(2, key.len() as u64).len() + key.len() + 6
            + head(2, value.len() as u64).len() + value.len(),
{
    let hk = head(2, key.len() as u64);
    let hv = head(2, value.len() as u64);
    let at1 = pos + 5;
    let at2 = at1 + hk.len();
    let at3 = at2 + key.len();
    let at4 = at3 + 6;
    let t4 = hv + value;
    let t3 = value_key() + t4;
    let t2 = key + t3;
    let t1 = hk + t2;
    lemma_starts_concat(b, at4, hv, value);
    lemma_starts_concat(b, at3, value_key(), t4);
    lemma_starts_concat(b, at2, key, t3);
    lemma_starts_concat(b, at1, hk, t2);
    lemma_starts_concat(b, pos, entry_key(), t1);
}

proof fn lemma_link_item_pieces(b: Seq<u8>, pos: int, addr: Seq<u8>)
    requires
        0 <= pos,
    ensures
        ({
            let ha = head(2, (addr.len() + 1) as u64);
            starts_with_at(b, pos, stored_item(StoredSlotView::Link { addr })) <==> {
                &&& starts_with_at(b, pos, link_key())
                &&& starts_with_at(b, pos + 8, ha)
                &&& starts_with_at(b, pos + 8 + ha.len(), seq![0u8])
                &&& starts_with_at(b, pos + 8 + ha.len() + 1, addr)
            }
        }),
        stored_item(StoredSlotView::Link { addr }).len() == 8 + head(2, (addr.len() + 1) as u64).len() + 1
            + addr.len(),
{
    let ha = head(2, (addr.len() + 1) as u64);
    let t2 = seq![0u8] + addr;
    let t1 = ha + t2;
    lemma_starts_concat(b, pos + 8 + ha.len(), seq![0u8], addr);
    lemma_starts_concat(b, pos + 8, ha, t2);
    lemma_starts_concat(b, pos, link_key(), t1);
}

/// Reads the item of an occupied slot at `pos`: the slot and the position
/// after it. It reads exactly the items whose encoding the bytes hold there.
#[verifier::spinoff_prover]
#[verifier::rlimit(50)]
fn read_item(b: &[u8], pos: usize) -> (r: Result<(StoredSlot, usize), Error>)
    requires
        pos <= b@.len(),
    ensures
        r matches Ok((s, p)) ==> {
            let v = stored_slot_view(s);
            &&& !(v is Empty)
            &&& slot_fits(v)
            &&& starts_with_at(b@, pos as int, stored_item(v))
            &&& p == pos + stored_item(v).len()
        },
        forall|v: StoredSlotView|
            !(v is Empty) && slot_fits(v) && #[trigger] starts_with_at(b@, pos as int, stored_item(v)) ==> (r matches Ok(
                (s, p),
            ) && stored_slot_view(s) == v),
{
    let ek: [u8; 5] = [0xa2, 0x63, 0x6b, 0x65, 0x79];
    let vk: [u8; 6] = [0x65, 0x76, 0x61, 0x6c, 0x75, 0x65];
    let lk: [u8; 8] = [0xa1, 0x64, 0x6c, 0x69, 0x6e, 0x6b, 0xd8, 0x2a];
    let zero: [u8; 1] = [0];
    assert(ek@ =~= entry_key());
    assert(vk@ =~= value_key());
    assert(lk@ =~= link_key());
    assert(zero@ =~= seq![0u8]);
    proof {
        assert forall|v: StoredSlotView| !(v is Empty) && #[trigger] starts_with_at(b@, pos as int, stored_item(v)) implies (
        pos < b@.len() && (b@[pos as int] == 0xa2 <==> v is Entry) && (b@[pos as int] == 0xa1 <==> v is Link)) by {
            match v {
                StoredSlotView::Entry { key, value } => {
                    lemma_entry_item_pieces(b@, pos as int, key, value);
                    assert(b@[pos as int] == b@.subrange(pos as int, pos + 5)[0]);
                },
                StoredSlotView::Link { addr } => {
                    lemma_link_item_pieces(b@, pos as int, addr);
                    assert(b@[pos as int] == b@.subrange(pos as int, pos + 8)[0]);
                },
                _ => {},
            }
        }
    }
    if pos >= b.len() {
        return Err(Error::Eof);
    }
    if b[pos] == 0xa2 {
        proof {
            assert forall|key: Seq<u8>, value: Seq<u8>|
                #[trigger] starts_with_at(b@, pos as int, stored_item(StoredSlotView::Entry { key, value })) implies {
                    let hk = head(2, key.len() as u64);
                    let hv = head(2, value.len() as u64);
                    &&& starts_with_at(b@, pos as int, entry_key())
                    &&& starts_with_at(b@, pos + 5, hk)
                    &&& starts_with_at(b@, pos + 5 + hk.len(), key)
                    &&& starts_with_at(b@, pos + 5 + hk.len() + key.len(), value_key())
                    &&& starts_with_at(b@, pos + 5 + hk.len() + key.len() + 6, hv)
                    &&& starts_with_at(b@, pos + 5 + hk.len() + key.len() + 6 + hv.len(), value)
                } by {
                lemma_entry_item_pieces(b@, pos as int, key, value);
            }
        }
        let at1 = match expect(b, pos, ek.as_slice()) {
            Ok(p) => p,
            Err(e) => {
                return Err(e);
            },
        };
        let (klen, at2) = match read_head(b, at1, 2) {
            Ok(x) => x,
            Err(e) => {
                return Err(e);
            },
        };
        if ((b.len() - at2) as u64) < klen {
            return Err(Error::Eof);
        }
        let at3 = at2 + klen as usize;
        let key = copy_range(b, at2, at3);
        let at4 = match expect(b, at3, vk.as_slice()) {
            Ok(p) => p,
            Err(e) => {
                return Err(e);
            },
        };
        let (vlen, at5) = match read_head(b, at4, 2) {
            Ok(x) => x,
            Err(e) => {
                return Err(e);
            },
        };
        if ((b.len() - at5) as u64) < vlen {
            return Err(Error::Eof);
        }
        let at6 = at5 + vlen as usize;
        let value = copy_range(b, at5, at6);
        proof {
            lemma_entry_item_pieces(b@, pos as int, key@, value@);
        }
        Ok((StoredSlot::Entry(key, value), at6))
    } else if b[pos] == 0xa1 {
        proof {
            assert forall|addr: Seq<u8>|
                #[trigger] starts_with_at(b@, pos as int, stored_item(StoredSlotView::Link { addr })) implies {
                    let ha = head(2, (addr.len() + 1) as u64);
                    &&& starts_with_at(b@, pos as int, link_key())
                    &&& starts_with_at(b@, pos + 8, ha)
                    &&& starts_with_at(b@, pos + 8 + ha.len(), seq![0u8])
                    &&& starts_with_at(b@, pos + 8 + ha.len() + 1, addr)
                } by {
                lemma_link_item_pieces(b@, pos as int, addr);
            }
        }
        let at1 = match expect(b, pos, lk.as_slice()) {
            Ok(p) => p,
            Err(e) => {
                return Err(e);
            },
        };
        let (len1, at2) = match read_head(b, at1, 2) {
            Ok(x) => x,
            Err(e) => {
                return Err(e);
            },
        };
        if len1 == 0 {
            return Err(Error::ExpectedLink);
        }
        let at3 = match expect(b, at2, zero.as_slice()) {
            Ok(p) => p,
            Err(e) => {
                return Err(e);
            },
        };
        let alen = len1 - 1;
        if ((b.len() - at3) as u64) < alen {
            return Err(Error::Eof);
        }
        let at4 = at3 + alen as usize;
        let addr = copy_range(b, at3, at4);
        proof {
            lemma_link_item_pieces(b@, pos as int, addr@);
        }
        Ok((StoredSlot::Link(Address::from_bytes(addr)), at4))
    } else {
        Err(Error::Syntax)
    }
}

proof fn lemma_occupied_bound(ss: Seq<StoredSlotView>, i: int, j: int)
    requires
        i <= j,
    ensures
        occupied(ss, i, j) <= j - i,
    decreases j - i,
{
    if j > i {
        lemma_occupied_bound(ss, i, j - 1);
    }
}

proof fn lemma_pieces_prefix(s: Seq<StoredSlotView>, t: Seq<StoredSlotView>, j: int)
    requires
        0 <= j <= s.len(),
        j <= t.len(),
        forall|k: int| 0 <= k < j ==> s[k] == t[k],
    ensures
        pieces(s, 0, j) == pieces(t, 0, j),
        occupied(s, 0, j) == occupied(t, 0, j),
    decreases j,
{
    if j > 0 {
        lemma_pieces_prefix(s, t, j - 1);
        assert(piece(s, j - 1) == piece(t, j - 1));
    }
}

/// Reads slot `j` at `pos`, given how many occupied slots are still to come:
/// the slot and the position after it.
fn read_slot(b: &[u8], pos: usize, j: usize, remaining: u64) -> (r: Result<(StoredSlot, usize), Error>)
    requires
        pos <= b@.len(),
        j <= u64::MAX,
    ensures
        r matches Ok((s, p)) ==> {
            let v = stored_slot_view(s);
            &&& slot_fits(v)
            &&& (remaining == 0 ==> v is Empty)
            &&& starts_with_at(b@, pos as int, if v is Empty {
                Seq::<u8>::empty()
            } else {
                seq![0x82u8] + (head(0, j as u64) + stored_item(v))
            })
            &&& p == pos + (if v is Empty {
                Seq::<u8>::empty()
            } else {
                seq![0x82u8] + (head(0, j as u64) + stored_item(v))
            }).len()
        },
        forall|ss: Seq<StoredSlotView>, len: int|
            j < len <= ss.len() && len <= 256 && stored_fit(ss) && remaining == occupied(ss, j as int, len) && #[trigger] starts_with_at(
                b@,
                pos as int,
                pieces(ss, j as int, len),
            ) ==> (r matches Ok((s, p)) && stored_slot_view(s) == ss[j as int]),
{
    if remaining == 0 {
        proof {
            assert forall|ss: Seq<StoredSlotView>, len: int|
                j < len <= ss.len() && len <= 256 && stored_fit(ss) && remaining == occupied(ss, j as int, len)
                    && #[trigger] starts_with_at(b@, pos as int, pieces(ss, j as int, len)) implies ss[j as int] is Empty by {
                lemma_pieces_split(ss, j as int, j + 1, len);
                assert(occupied(ss, j as int, j as int) == 0);
            }
            assert(b@.subrange(pos as int, pos as int) =~= Seq::<u8>::empty());
        }
        return Ok((StoredSlot::Empty, pos));
    }
    let tag: [u8; 1] = [0x82];
    assert(tag@ =~= seq![0x82u8]);
    proof {
        assert forall|ss: Seq<StoredSlotView>, len: int|
            j < len <= ss.len() && len <= 256 && stored_fit(ss) && remaining == occupied(ss, j as int, len)
                && #[trigger] starts_with_at(b@, pos as int, pieces(ss, j as int, len)) implies exists|f: int|
            #![trigger ss[f]]
            j <= f < len && !(ss[f] is Empty) && starts_with_at(b@, pos as int, seq![0x82u8]) && starts_with_at(
                b@,
                pos + 1,
                head(0, f as u64),
            ) && starts_with_at(b@, pos + 1 + head(0, f as u64).len(), stored_item(ss[f])) && (forall|t: int|
                j <= t < f ==> #[trigger] ss[t] is Empty) && f < u64::MAX by {
            lemma_first_occupied(ss, j as int, len);
            let f = choose|f: int|
                #![trigger ss[f]]
                j <= f < len && !(ss[f] is Empty) && pieces(ss, j as int, len) == piece(ss, f) + pieces(ss, f + 1, len)
                    && forall|t: int| j <= t < f ==> #[trigger] ss[t] is Empty;
            lemma_starts_concat(b@, pos as int, piece(ss, f), pieces(ss, f + 1, len));
            lemma_starts_concat(b@, pos as int, seq![0x82u8], head(0, f as u64) + stored_item(ss[f]));
            lemma_starts_concat(b@, pos + 1, head(0, f as u64), stored_item(ss[f]));
        }
    }
    let q = match expect(b, pos, tag.as_slice()) {
        Ok(q) => q,
        Err(e) => {
            return Err(e);
        },
    };
    let (idx, q2) = match read_head(b, q, 0) {
        Ok(x) => x,
        Err(e) => {
            return Err(e);
        },
    };
    if idx != j as u64 {
        proof {
            assert(b@.subrange(pos as int, pos as int) =~= Seq::<u8>::empty());
        }
        return Ok((StoredSlot::Empty, pos));
    }
    let (slot, p) = match read_item(b, q2) {
        Ok(x) => x,
        Err(e) => {
            return Err(e);
        },
    };
    proof {
        let v = stored_slot_view(slot);
        lemma_starts_concat(b@, pos as int, seq![0x82u8], head(0, j as u64) + stored_item(v));
        lemma_starts_concat(b@, pos + 1, head(0, j as u64), stored_item(v));
    }
    Ok((slot, p))
}

impl StoredNode {
    /// Reads a node of a trie of bit width `n` from its stored encoding. It
    /// succeeds exactly on the encodings of nodes of `2^n` slots, and gives
    /// back the node encoded.
    pub fn decode(b: &[u8], n: u8) -> (r: Result<StoredNode, Error>)
        requires
            1 <= n <= 8,
        ensures
            r matches Ok(node) ==> {
                &&& stored_view(node).len() == slot_count(n)
                &&& stored_fit(stored_view(node))
                &&& stored_bytes(stored_view(node)) == b@
            },
            forall|ss: Seq<StoredSlotView>|
                ss.len() == slot_count(n) && stored_fit(ss) && #[trigger] stored_bytes(ss) == b@ ==> (r matches Ok(
                    node,
                ) && stored_view(node) == ss),
    {
        let open: [u8; 7] = [0xa1, 0x65, 0x73, 0x6c, 0x6f, 0x74, 0x73];
        assert(open@ =~= node_open());
        assert((1u64 << (n as u64)) <= 256) by (bit_vector)
            requires
                1 <= n <= 8,
        ;
        let count = (1u64 << (n as u64)) as usize;
        proof {
            assert forall|ss: Seq<StoredSlotView>|
                ss.len() == slot_count(n) && stored_fit(ss) && #[trigger] stored_bytes(ss) == b@ implies {
                    let h = head(4, occupied(ss, 0, ss.len() as int) as u64);
                    &&& starts_with_at(b@, 0, node_open())
                    &&& starts_with_at(b@, 7, h)
                    &&& starts_with_at(b@, (7 + h.len()) as int, pieces(ss, 0, ss.len() as int))
                    &&& b@.len() == 7 + h.len() + pieces(ss, 0, ss.len() as int).len()
                } by {
                let h = head(4, occupied(ss, 0, ss.len() as int) as u64);
                lemma_occupied_bound(ss, 0, ss.len() as int);
                assert(b@.subrange(0, b@.len() as int) =~= b@);
                lemma_starts_concat(b@, 0, node_open(), h + pieces(ss, 0, ss.len() as int));
                lemma_starts_concat(b@, 7, h, pieces(ss, 0, ss.len() as int));
            }
        }
        let at1 = match expect(b, 0, open.as_slice()) {
            Ok(p) => p,
            Err(e) => {
                return Err(e);
            },
        };
        let (m, at2) = match read_head(b, at1, 4) {
            Ok(x) => x,
            Err(e) => {
                return Err(e);
            },
        };
        let mut slots: Vec<StoredSlot> = Vec::new();
        let mut p: usize = at2;
        let mut remaining: u64 = m;
        let mut j: usize = 0;
        proof {
            assert(stored_view(StoredNode { slots }) =~= Seq::<StoredSlotView>::empty());
            assert(b@.subrange(at2 as int, at2 as int) =~= Seq::<u8>::empty());
            assert forall|ss: Seq<StoredSlotView>|
                ss.len() == slot_count(n) && stored_fit(ss) && #[trigger] stored_bytes(ss) == b@ implies {
                    &&& stored_view(StoredNode { slots }) == ss.subrange(0, 0)
                    &&& remaining == occupied(ss, 0, count as int)
                } by {
                lemma_occupied_bound(ss, 0, ss.len() as int);
                assert(ss.subrange(0, 0) =~= Seq::<StoredSlotView>::empty());
            }
        }
        while j < count
            invariant
                count == slot_count(n),
                count <= 256,
                at2 <= p <= b@.len(),
                j <= count,
                slots@.len() == j,
                b@.subrange(at2 as int, p as int) == pieces(stored_view(StoredNode { slots }), 0, j as int),
                remaining + occupied(stored_view(StoredNode { slots }), 0, j as int) == m,
                stored_fit(stored_view(StoredNode { slots })),
                forall|ss: Seq<StoredSlotView>|
                    ss.len() == slot_count(n) && stored_fit(ss) && #[trigger] stored_bytes(ss) == b@ ==> {
                        &&& stored_view(StoredNode { slots }) == ss.subrange(0, j as int)
                        &&& remaining == occupied(ss, j as int, count as int)
                        &&& starts_with_at(b@, p as int, pieces(ss, j as int, count as int))
                        &&& b@.len() == p + pieces(ss, j as int, count as int).len()
                    },
            decreases count - j,
        {
            let (slot, q) = match read_slot(b, p, j, remaining) {
                Ok(x) => x,
                Err(e) => {
                    return Err(e);
                },
            };
            let ghost before = stored_view(StoredNode { slots });
            let ghost v = stored_slot_view(slot);
            let occ = !matches!(slot, StoredSlot::Empty);
            slots.push(slot);
            proof {
                let after = stored_view(StoredNode { slots });
                assert(after =~= before.push(v));
                lemma_pieces_prefix(after, before, j as int);
                lemma_pieces_split(after, 0, j as int, j + 1);
                assert(pieces(after, j as int, j as int) == Seq::<u8>::empty());
                assert(occupied(after, j as int, j as int) == 0);
                assert(pieces(after, j as int, j + 1) =~= piece(after, j as int));
                assert(b@.subrange(at2 as int, q as int) =~= b@.subrange(at2 as int, p as int) + b@.subrange(p as int, q as int));
                assert forall|ss: Seq<StoredSlotView>|
                    ss.len() == slot_count(n) && stored_fit(ss) && #[trigger] stored_bytes(ss) == b@ implies {
                        &&& after == ss.subrange(0, j + 1)
                        &&& remaining - (if occ { 1int } else { 0int }) == occupied(ss, j + 1, count as int)
                        &&& starts_with_at(b@, q as int, pieces(ss, j + 1, count as int))
                        &&& b@.len() == q + pieces(ss, j + 1, count as int).len()
                    } by {
                    assert(v == ss[j as int]);
                    assert(after =~= ss.subrange(0, j + 1));
                    lemma_pieces_split(ss, j as int, j + 1, count as int);
                    assert(pieces(ss, j as int, j as int) == Seq::<u8>::empty());
                    assert(occupied(ss, j as int, j as int) == 0);
                    assert(pieces(ss, j as int, j + 1) =~= piece(ss, j as int));
                    lemma_starts_concat(b@, p as int, piece(ss, j as int), pieces(ss, j + 1, count as int));
                }
                assert forall|k: int| 0 <= k < after.len() implies slot_fits(#[trigger] after[k]) by {
                    if k < j {
                        assert(after[k] == before[k]);
                    }
                }
            }
            if occ {
                remaining = remaining - 1;
            }
            p = q;
            j = j + 1;
        }
        if remaining != 0 {
            return Err(Error::Syntax);
        }
        if p != b.len() {
            return Err(Error::TrailingCharacters);
        }
        let node = StoredNode { slots };
        proof {
            let sv = stored_view(node);
            assert(b@ =~= b@.subrange(0, at1 as int) + b@.subrange(at1 as int, at2 as int) + b@.subrange(at2 as int, p as int));
            assert(b@ =~= stored_bytes(sv));
            assert forall|ss: Seq<StoredSlotView>|
                ss.len() == slot_count(n) && stored_fit(ss) && #[trigger] stored_bytes(ss) == b@ implies sv == ss by {
                assert(ss.subrange(0, count as int) =~= ss);
            }
        }
        Ok(node)
    }
}

impl StoredNode {
    /// One level of a lookup of `key`, whose hash is `h`, in a trie of bit
    /// width `n`: the slot that the hash selects at `level` answers.
    pub fn probe(&self, key: &[u8], h: u64, n: u8, level: u8) -> (r: Probe)
        requires
            1 <= n <= 8,
            level < levels(n),
            stored_view(*self).len() == slot_count(n),
        ensures
            match stored_view(*self)[group(h, n, level as nat) as int] {
                StoredSlotView::Empty => r is Missing,
                StoredSlotView::Entry { key: k, value } => if k == key@ {
                    r matches Probe::Found(v) && v@ == value
                } else {
                    r is Missing
                },
                StoredSlotView::Link { addr } => r matches Probe::Descend(a) && a@ == addr,
            },
    {
        let g = slot_index(h, n, level);
        assert(stored_view(*self)[g as int] == stored_slot_view(self.slots@[g as int]));
        match &self.slots[g] {
            StoredSlot::Empty => Probe::Missing,
            StoredSlot::Entry(k, v) => {
                if same_bytes(k.as_slice(), key) {
                    Probe::Found(v.clone())
                } else {
                    Probe::Missing
                }
            },
            StoredSlot::Link(a) => Probe::Descend(a.duplicate()),
        }
    }
}

} // verus!
