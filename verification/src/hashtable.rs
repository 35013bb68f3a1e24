//! The keyspace: a chained hash table over byte-string keys and values,
//! resized progressively.
//!
//! Two sub-tables exist: `ht1` (primary) and `ht2` (the old table, present
//! only while a resize is in progress).  Each sub-table hangs its entries
//! off an array of singly-linked chains, indexed by `hcode & mask`.  A
//! resize moves at most `K_RESIZING_WORK` nodes from `ht2` to `ht1` per
//! operation, so no single operation stalls on a full rehash.

use vstd::prelude::*;
use vstd::pervasive::VecAdditionalExecFns;
use vstd::slice::slice_to_vec;

verus! {

/// A resize starts once a sub-table holds more than this many entries per
/// bucket.
pub const K_MAX_LOAD_FACTOR: usize = 8;

/// Largest number of nodes moved from the old sub-table per operation.
pub const K_RESIZING_WORK: usize = 128;

/// FNV-1a 64-bit offset basis.
pub const FNV_OFFSET: u64 = 0xcbf2_9ce4_8422_2325;

/// FNV-1a 64-bit prime.
pub const FNV_PRIME: u64 = 0x0000_0100_0000_01b3;

/// FNV-1a over the key bytes: a stable 64-bit hash, so equal keys always
/// produce equal codes.
pub open spec fn spec_hash(s: Seq<u8>) -> u64
    decreases s.len(),
{
    if s.len() == 0 {
        FNV_OFFSET
    } else {
        vstd::wrapping::u64_specs::wrapping_mul(
            spec_hash(s.drop_last()) ^ (s.last() as u64),
            FNV_PRIME,
        )
    }
}

/// Compute the FNV-1a hash of a key.
pub fn hash_key(key: &[u8]) -> (h: u64)
    ensures
        h == spec_hash(key@),
{
    let mut h: u64 = FNV_OFFSET;
    let mut i: usize = 0;
    while i < key.len()
        invariant
            0 <= i <= key@.len(),
            h == spec_hash(key@.take(i as int)),
        decreases key@.len() - i,
    {
        h = (h ^ (key[i] as u64)).wrapping_mul(FNV_PRIME);
        i = i + 1;
        proof {
            assert(key@.take(i as int).drop_last() =~= key@.take(i as int - 1));
            assert(key@.take(i as int).last() == key@[i as int - 1]);
        }
    }
    proof {
        assert(key@.take(key@.len() as int) =~= key@);
    }
    h
}

/// The bucket a hash code selects in a table whose bucket count is
/// `mask + 1`.
pub open spec fn spec_bucket(h: u64, mask: usize) -> int {
    (h & (mask as u64)) as int
}

proof fn lemma_bucket_le_mask(h: u64, mask: usize)
    ensures
        0 <= spec_bucket(h, mask) <= mask,
{
    let m = mask as u64;
    assert(h & m <= m) by (bit_vector);
}

/// One entry of the keyspace: a hash code, the binding, and the next node
/// of the chain sharing this bucket.
pub struct HNode {
    pub hcode: u64,
    pub key: Vec<u8>,
    pub value: Vec<u8>,
    pub next: Option<Box<HNode>>,
}

impl HNode {
    /// Creates a detached node carrying one binding.
    pub fn new(hcode: u64, key: Vec<u8>, value: Vec<u8>) -> (r: HNode)
        ensures
            r.hcode == hcode,
            r.key == key,
            r.value == value,
            r.next is None,
    {
        HNode { hcode, key, value, next: None }
    }
}

/// Number of nodes in a chain.
pub open spec fn chain_len(c: Option<Box<HNode>>) -> nat
    decreases c,
{
    match c {
        None => 0nat,
        Some(n) => 1 + chain_len(n.next),
    }
}

/// The bindings a chain holds.  The node nearest the head wins, though
/// well-formed chains never bind a key twice.
pub open spec fn chain_map(c: Option<Box<HNode>>) -> Map<Seq<u8>, Seq<u8>>
    decreases c,
{
    match c {
        None => Map::empty(),
        Some(n) => chain_map(n.next).insert(n.key@, n.value@),
    }
}

/// No key occurs twice in the chain.
pub open spec fn chain_distinct(c: Option<Box<HNode>>) -> bool
    decreases c,
{
    match c {
        None => true,
        Some(n) => !chain_map(n.next).dom().contains(n.key@) && chain_distinct(n.next),
    }
}

/// Every node carries the hash of its own key and sits in the right
/// bucket for it.
pub open spec fn chain_hashes(c: Option<Box<HNode>>, mask: usize, idx: int) -> bool
    decreases c,
{
    match c {
        None => true,
        Some(n) => n.hcode == spec_hash(n.key@) && spec_bucket(n.hcode, mask) == idx
            && chain_hashes(n.next, mask, idx),
    }
}

/// Every key a chain binds hashes to the chain's own bucket.
proof fn lemma_chain_keys_bucket(c: Option<Box<HNode>>, mask: usize, idx: int, k: Seq<u8>)
    requires
        chain_hashes(c, mask, idx),
        chain_map(c).dom().contains(k),
    ensures
        spec_bucket(spec_hash(k), mask) == idx,
    decreases c,
{
    match c {
        None => {
            assert(chain_map(c) == Map::<Seq<u8>, Seq<u8>>::empty());
        }
        Some(n) => {
            if k != n.key@ {
                lemma_chain_keys_bucket(n.next, mask, idx, k);
            }
        }
    }
}

/// Byte-wise equality of two byte strings.
pub fn bytes_eq(a: &[u8], b: &[u8]) -> (r: bool)
    ensures
        r == (a@ == b@),
{
    if a.len() != b.len() {
        return false;
    }
    let mut i: usize = 0;
    while i < a.len()
        invariant
            0 <= i <= a@.len(),
            a@.len() == b@.len(),
            forall|j: int| 0 <= j < i ==> a@[j] == b@[j],
        decreases a@.len() - i,
    {
        if a[i] != b[i] {
            return false;
        }
        i = i + 1;
    }
    proof {
        assert(a@ =~= b@);
    }
    true
}

/// Copy a byte string.
pub fn clone_bytes(v: &Vec<u8>) -> (r: Vec<u8>)
    ensures
        r@ == v@,
{
    slice_to_vec(v.as_slice())
}

/// Walk a chain for a key; return a reference to the bound value.
fn chain_find<'a>(c: &'a Option<Box<HNode>>, key: &[u8]) -> (r: Option<&'a Vec<u8>>)
    ensures
        match r {
            Some(v) => chain_map(*c).dom().contains(key@) && v@ == chain_map(*c)[key@],
            None => !chain_map(*c).dom().contains(key@),
        },
    decreases chain_len(*c),
{
    match c {
        None => None,
        Some(node) => {
            if bytes_eq(node.key.as_slice(), key) {
                Some(&node.value)
            } else {
                chain_find(&node.next, key)
            }
        }
    }
}

/// Remove the node binding `key` from a chain, if there is one; return the
/// rebuilt chain and the detached node.
fn chain_detach(c: Option<Box<HNode>>, key: &[u8]) -> (r: (Option<Box<HNode>>, Option<Box<HNode>>))
    requires
        chain_distinct(c),
    ensures
        chain_map(r.0) == chain_map(c).remove(key@),
        chain_distinct(r.0),
        forall|mask: usize, idx: int| chain_hashes(c, mask, idx)
            ==> #[trigger] chain_hashes(r.0, mask, idx),
        match r.1 {
            Some(node) => {
                &&& chain_map(c).dom().contains(key@)
                &&& node.key@ == key@
                &&& node.value@ == chain_map(c)[key@]
                &&& chain_len(r.0) + 1 == chain_len(c)
            },
            None => {
                &&& !chain_map(c).dom().contains(key@)
                &&& chain_len(r.0) == chain_len(c)
            },
        },
    decreases chain_len(c),
{
    match c {
        None => {
            proof {
                assert(chain_map(c).remove(key@) =~= Map::empty());
                assert(forall|mask: usize, idx: int|
                    #[trigger] chain_hashes(None::<Box<HNode>>, mask, idx));
            }
            (None, None)
        }
        Some(mut node) => {
            let ghost orig = node;
            if bytes_eq(node.key.as_slice(), key) {
                let rest = node.next.take();
                proof {
                    assert(chain_map(c) == chain_map(orig.next).insert(orig.key@, orig.value@));
                    assert(chain_map(rest) =~= chain_map(c).remove(key@));
                    assert forall|mask: usize, idx: int| chain_hashes(c, mask, idx)
                        implies #[trigger] chain_hashes(rest, mask, idx) by {
                        assert(chain_hashes(orig.next, mask, idx));
                    }
                }
                (rest, Some(node))
            } else {
                let next = node.next.take();
                let (new_next, detached) = chain_detach(next, key);
                node.next = new_next;
                proof {
                    assert(chain_map(c) == chain_map(next).insert(orig.key@, orig.value@));
                    assert(chain_map(Some(node)) == chain_map(new_next).insert(
                        orig.key@,
                        orig.value@,
                    ));
                    assert(chain_map(Some(node)) =~= chain_map(c).remove(key@));
                    assert forall|mask: usize, idx: int| chain_hashes(c, mask, idx)
                        implies #[trigger] chain_hashes(Some(node), mask, idx) by {
                        assert(chain_hashes(next, mask, idx));
                        assert(chain_hashes(new_next, mask, idx));
                    }
                }
                (Some(node), detached)
            }
        }
    }
}

/// `n` is a power of two.
pub open spec fn is_pow2(n: int) -> bool
    decreases n,
{
    if n <= 0 {
        false
    } else if n == 1 {
        true
    } else {
        n % 2 == 0 && is_pow2(n / 2)
    }
}

/// Total number of nodes hanging off a bucket array.
pub open spec fn buckets_count(bs: Seq<Option<Box<HNode>>>) -> nat
    decreases bs.len(),
{
    if bs.len() == 0 {
        0nat
    } else {
        buckets_count(bs.drop_last()) + chain_len(bs.last())
    }
}

/// All bindings hanging off a bucket array.
pub open spec fn buckets_map(bs: Seq<Option<Box<HNode>>>) -> Map<Seq<u8>, Seq<u8>>
    decreases bs.len(),
{
    if bs.len() == 0 {
        Map::empty()
    } else {
        buckets_map(bs.drop_last()).union_prefer_right(chain_map(bs.last()))
    }
}

/// Every chain is well formed and sits under its own bucket index.
pub open spec fn buckets_wf(bs: Seq<Option<Box<HNode>>>, mask: usize) -> bool {
    forall|i: int| 0 <= i < bs.len() ==> chain_hashes(#[trigger] bs[i], mask, i)
        && chain_distinct(bs[i])
}

/// Pointwise reading of a bucket array: a key is bound exactly when the
/// chain in its own bucket binds it, and to the same value.
proof fn lemma_buckets_at(bs: Seq<Option<Box<HNode>>>, mask: usize, k: Seq<u8>)
    requires
        buckets_wf(bs, mask),
    ensures
        ({
            let b = spec_bucket(spec_hash(k), mask);
            &&& buckets_map(bs).dom().contains(k) <==> (b < bs.len()
                && chain_map(bs[b]).dom().contains(k))
            &&& buckets_map(bs).dom().contains(k) ==> buckets_map(bs)[k] == chain_map(bs[b])[k]
        }),
    decreases bs.len(),
{
    let b = spec_bucket(spec_hash(k), mask);
    if bs.len() == 0 {
        assert(buckets_map(bs).dom() =~= Set::empty());
    } else {
        let pre = bs.drop_last();
        let last = bs.last();
        assert(forall|i: int| 0 <= i < pre.len() ==> pre[i] == bs[i]);
        lemma_buckets_at(pre, mask, k);
        if chain_map(last).dom().contains(k) {
            lemma_chain_keys_bucket(last, mask, bs.len() - 1, k);
        }
        if b < pre.len() {
            assert(pre[b] == bs[b]);
        }
    }
}

/// Replacing one chain changes the node count by the difference of the two
/// chain lengths.
proof fn lemma_count_update(bs: Seq<Option<Box<HNode>>>, i: int, c: Option<Box<HNode>>)
    requires
        0 <= i < bs.len(),
    ensures
        buckets_count(bs.update(i, c)) + chain_len(bs[i]) == buckets_count(bs) + chain_len(c),
    decreases bs.len(),
{
    let upd = bs.update(i, c);
    if i == bs.len() - 1 {
        assert(upd.drop_last() =~= bs.drop_last());
        assert(upd.last() == c);
    } else {
        assert(upd.drop_last() =~= bs.drop_last().update(i, c));
        assert(upd.last() == bs.last());
        assert(bs.drop_last()[i] == bs[i]);
        lemma_count_update(bs.drop_last(), i, c);
    }
}

/// A bucket array holds at least as many nodes as any one of its chains.
proof fn lemma_count_ge_chain(bs: Seq<Option<Box<HNode>>>, i: int)
    requires
        0 <= i < bs.len(),
    ensures
        buckets_count(bs) >= chain_len(bs[i]),
    decreases bs.len(),
{
    if i == bs.len() - 1 {
    } else {
        assert(bs.drop_last()[i] == bs[i]);
        lemma_count_ge_chain(bs.drop_last(), i);
    }
}

/// A bucket array of empty chains holds nothing.
proof fn lemma_all_none(bs: Seq<Option<Box<HNode>>>)
    requires
        forall|i: int| 0 <= i < bs.len() ==> (#[trigger] bs[i]) is None,
    ensures
        buckets_count(bs) == 0,
        buckets_map(bs) =~= Map::empty(),
    decreases bs.len(),
{
    if bs.len() > 0 {
        assert(forall|i: int| 0 <= i < bs.drop_last().len() ==> bs.drop_last()[i] == bs[i]);
        lemma_all_none(bs.drop_last());
        assert(bs.last() == bs[bs.len() - 1]);
    }
}

/// One sub-table: an array of `mask + 1` chains and a live-entry count.
pub struct HTab {
    pub table: Vec<Option<Box<HNode>>>,
    pub mask: usize,
    pub size: usize,
}

/// Well-formedness of a sub-table: bucket count is a power of two of at
/// least 4, the mask matches, the count is exact, and every chain is in
/// the right bucket with distinct keys.
pub open spec fn tab_wf(t: HTab) -> bool {
    &&& t.table@.len() == t.mask + 1
    &&& is_pow2(t.mask + 1)
    &&& t.mask + 1 >= 4
    &&& t.size == buckets_count(t.table@)
    &&& buckets_wf(t.table@, t.mask)
}

/// The bindings a sub-table holds.
pub open spec fn tab_map(t: HTab) -> Map<Seq<u8>, Seq<u8>> {
    buckets_map(t.table@)
}

impl HTab {
    /// Creates an empty sub-table with `size` buckets.
    pub fn new(size: usize) -> (r: HTab)
        requires
            is_pow2(size as int),
            size >= 4,
        ensures
            tab_wf(r),
            tab_map(r) == Map::<Seq<u8>, Seq<u8>>::empty(),
            r.mask + 1 == size,
            r.size == 0,
    {
        let mut table: Vec<Option<Box<HNode>>> = Vec::new();
        let mut i: usize = 0;
        while i < size
            invariant
                0 <= i <= size,
                table@.len() == i,
                forall|j: int| 0 <= j < i ==> (#[trigger] table@[j]) is None,
            decreases size - i,
        {
            table.push(None);
            i = i + 1;
        }
        proof {
            lemma_all_none(table@);
            assert(buckets_map(table@) =~= Map::<Seq<u8>, Seq<u8>>::empty());
        }
        HTab { table, mask: size - 1, size: 0 }
    }

    /// The bucket the given hash code selects in this table.
    fn bucket_of(&self, hcode: u64) -> (pos: usize)
        requires
            tab_wf(*self),
        ensures
            pos as int == spec_bucket(hcode, self.mask),
            pos < self.table@.len(),
    {
        proof {
            lemma_bucket_le_mask(hcode, self.mask);
        }
        (hcode & (self.mask as u64)) as usize
    }

    /// Head-inserts a fresh binding whose key the table does not yet hold.
    pub fn insert(&mut self, node: Box<HNode>)
        requires
            tab_wf(*old(self)),
            old(self).size < usize::MAX,
            node.hcode == spec_hash(node.key@),
            !tab_map(*old(self)).dom().contains(node.key@),
        ensures
            tab_wf(*final(self)),
            tab_map(*final(self)) == tab_map(*old(self)).insert(node.key@, node.value@),
            final(self).size == old(self).size + 1,
            final(self).mask == old(self).mask,
            final(self).table@.len() == old(self).table@.len(),
    {
        let ghost old_bs = self.table@;
        let ghost k = node.key@;
        let ghost v = node.value@;
        let mut node = node;
        let pos = self.bucket_of(node.hcode);
        proof {
            lemma_buckets_at(old_bs, self.mask, k);
        }
        let mut slot: Option<Box<HNode>> = None;
        self.table.set_and_swap(pos, &mut slot);
        let ghost prev = slot;
        node.next = slot;
        let ghost chain = Some(node);
        self.table.set(pos, Some(node));
        self.size = self.size + 1;
        proof {
            let bs = self.table@;
            let mask = self.mask;
            assert(bs =~= old_bs.update(pos as int, chain));
            assert(chain_map(chain) == chain_map(prev).insert(k, v));
            assert(chain_distinct(chain));
            assert(chain_hashes(chain, mask, pos as int));
            assert(buckets_wf(bs, mask)) by {
                assert(forall|i: int| 0 <= i < bs.len() && i != pos ==> bs[i] == old_bs[i]);
            }
            lemma_count_update(old_bs, pos as int, chain);
            let m1 = buckets_map(bs);
            let m2 = buckets_map(old_bs).insert(k, v);
            assert forall|k2: Seq<u8>|
                #[trigger] m1.dom().contains(k2) == m2.dom().contains(k2) by {
                lemma_buckets_at(old_bs, mask, k2);
                lemma_buckets_at(bs, mask, k2);
            }
            assert forall|k2: Seq<u8>| #[trigger] m1.dom().contains(k2) implies m1[k2]
                == m2[k2] by {
                lemma_buckets_at(old_bs, mask, k2);
                lemma_buckets_at(bs, mask, k2);
            }
            assert(m1.dom() =~= m2.dom());
            assert(m1 =~= m2);
        }
    }

    /// Looks a key up in the chain of its bucket.
    pub fn h_lookup<'a>(&'a self, key: &[u8]) -> (r: Option<&'a Vec<u8>>)
        requires
            tab_wf(*self),
        ensures
            match r {
                Some(v) => tab_map(*self).dom().contains(key@) && v@ == tab_map(*self)[key@],
                None => !tab_map(*self).dom().contains(key@),
            },
    {
        let h = hash_key(key);
        let pos = self.bucket_of(h);
        proof {
            lemma_buckets_at(self.table@, self.mask, key@);
        }
        chain_find(&self.table[pos], key)
    }

    /// Detaches the node binding `key`, if the table holds one.
    pub fn h_remove(&mut self, key: &[u8]) -> (r: Option<Box<HNode>>)
        requires
            tab_wf(*old(self)),
        ensures
            tab_wf(*final(self)),
            tab_map(*final(self)) == tab_map(*old(self)).remove(key@),
            final(self).mask == old(self).mask,
            final(self).table@.len() == old(self).table@.len(),
            forall|i: int| 0 <= i < old(self).table@.len() && old(self).table@[i] is None
                ==> (#[trigger] final(self).table@[i]) is None,
            match r {
                Some(node) => {
                    &&& tab_map(*old(self)).dom().contains(key@)
                    &&& node.key@ == key@
                    &&& node.value@ == tab_map(*old(self))[key@]
                    &&& old(self).size > 0
                    &&& final(self).size == old(self).size - 1
                },
                None => {
                    &&& !tab_map(*old(self)).dom().contains(key@)
                    &&& final(self).size == old(self).size
                },
            },
    {
        let ghost old_bs = self.table@;
        let ghost mask = self.mask;
        let h = hash_key(key);
        let pos = self.bucket_of(h);
        proof {
            lemma_buckets_at(old_bs, mask, key@);
        }
        let mut slot: Option<Box<HNode>> = None;
        self.table.set_and_swap(pos, &mut slot);
        let ghost prev = slot;
        let (new_chain, detached) = chain_detach(slot, key);
        let ghost chain = new_chain;
        self.table.set(pos, new_chain);
        proof {
            let bs = self.table@;
            assert(bs =~= old_bs.update(pos as int, chain));
            assert(buckets_wf(bs, mask)) by {
                assert(forall|i: int| 0 <= i < bs.len() && i != pos ==> bs[i] == old_bs[i]);
                assert(chain_hashes(prev, mask, pos as int));
                assert(chain_hashes(chain, mask, pos as int));
            }
            lemma_count_update(old_bs, pos as int, chain);
            lemma_count_ge_chain(old_bs, pos as int);
            let m1 = buckets_map(bs);
            let m2 = buckets_map(old_bs).remove(key@);
            assert forall|k2: Seq<u8>|
                #[trigger] m1.dom().contains(k2) == m2.dom().contains(k2) by {
                lemma_buckets_at(old_bs, mask, k2);
                lemma_buckets_at(bs, mask, k2);
            }
            assert forall|k2: Seq<u8>| #[trigger] m1.dom().contains(k2) implies m1[k2]
                == m2[k2] by {
                lemma_buckets_at(old_bs, mask, k2);
                lemma_buckets_at(bs, mask, k2);
            }
            assert(m1.dom() =~= m2.dom());
            assert(m1 =~= m2);
        }
        if detached.is_some() {
            self.size = self.size - 1;
        }
        detached
    }

    /// Pops the head node of bucket `pos`; used to drain the old table
    /// during a resize.
    pub fn h_detach(&mut self, pos: usize) -> (r: Option<Box<HNode>>)
        requires
            tab_wf(*old(self)),
            pos < old(self).table@.len(),
        ensures
            tab_wf(*final(self)),
            final(self).mask == old(self).mask,
            final(self).table@.len() == old(self).table@.len(),
            match r {
                Some(node) => {
                    &&& tab_map(*old(self)).dom().contains(node.key@)
                    &&& node.value@ == tab_map(*old(self))[node.key@]
                    &&& node.hcode == spec_hash(node.key@)
                    &&& node.next is None
                    &&& tab_map(*final(self)) == tab_map(*old(self)).remove(node.key@)
                    &&& old(self).size > 0
                    &&& final(self).size == old(self).size - 1
                    &&& final(self).table@ == old(self).table@.update(
                        pos as int,
                        final(self).table@[pos as int],
                    )
                },
                None => {
                    &&& old(self).table@[pos as int] is None
                    &&& final(self).table@ == old(self).table@
                    &&& final(self).size == old(self).size
                    &&& tab_map(*final(self)) == tab_map(*old(self))
                },
            },
    {
        let ghost old_bs = self.table@;
        let ghost mask = self.mask;
        let mut slot: Option<Box<HNode>> = None;
        self.table.set_and_swap(pos, &mut slot);
        match slot {
            None => {
                proof {
                    assert(self.table@ =~= old_bs);
                }
                None
            }
            Some(mut node) => {
                let ghost orig = node;
                let rest = node.next.take();
                let ghost chain = rest;
                self.table.set(pos, rest);
                proof {
                    let bs = self.table@;
                    let k = orig.key@;
                    assert(bs =~= old_bs.update(pos as int, chain));
                    assert(chain_hashes(old_bs[pos as int], mask, pos as int));
                    assert(chain_distinct(old_bs[pos as int]));
                    assert(chain_map(chain) =~= chain_map(old_bs[pos as int]).remove(k));
                    assert(buckets_wf(bs, mask)) by {
                        assert(forall|i: int| 0 <= i < bs.len() && i != pos ==> bs[i] == old_bs[i]);
                    }
                    lemma_count_update(old_bs, pos as int, chain);
                    lemma_count_ge_chain(old_bs, pos as int);
                    lemma_buckets_at(old_bs, mask, k);
                    let m1 = buckets_map(bs);
                    let m2 = buckets_map(old_bs).remove(k);
                    assert forall|k2: Seq<u8>|
                        #[trigger] m1.dom().contains(k2) == m2.dom().contains(k2) by {
                        lemma_buckets_at(old_bs, mask, k2);
                        lemma_buckets_at(bs, mask, k2);
                    }
                    assert forall|k2: Seq<u8>| #[trigger] m1.dom().contains(k2) implies m1[k2]
                        == m2[k2] by {
                        lemma_buckets_at(old_bs, mask, k2);
                        lemma_buckets_at(bs, mask, k2);
                    }
                    assert(m1.dom() =~= m2.dom());
                    assert(m1 =~= m2);
                }
                self.size = self.size - 1;
                Some(node)
            }
        }
    }
}

/// The bindings an optional sub-table holds.
pub open spec fn opt_tab_map(t: Option<HTab>) -> Map<Seq<u8>, Seq<u8>> {
    match t {
        Some(t) => tab_map(t),
        None => Map::empty(),
    }
}

/// The live-entry count of an optional sub-table.
pub open spec fn opt_tab_size(t: Option<HTab>) -> int {
    match t {
        Some(t) => t.size as int,
        None => 0,
    }
}

/// The keyspace: primary sub-table `ht1`, plus the old sub-table `ht2`
/// while a resize is in progress, and the rehashing cursor into it.
pub struct HMap {
    pub ht1: Option<HTab>,
    pub ht2: Option<HTab>,
    pub resizing_pos: usize,
}

/// Well-formedness of the whole keyspace.  During a resize the old table
/// only loses nodes, all buckets before the cursor are already drained,
/// the primary table has twice the buckets of the old one, and no key is
/// bound in both.
pub open spec fn hmap_wf(m: HMap) -> bool {
    &&& match m.ht1 {
        Some(t1) => tab_wf(t1),
        None => m.ht2 is None,
    }
    &&& match m.ht2 {
        Some(t2) => {
            &&& tab_wf(t2)
            &&& m.ht1 is Some
            &&& m.ht1->0.mask + 1 == 2 * (t2.mask + 1)
            &&& m.resizing_pos <= t2.table@.len()
            &&& (forall|i: int| 0 <= i < m.resizing_pos ==> (#[trigger] t2.table@[i]) is None)
            &&& tab_map(m.ht1->0).dom().disjoint(tab_map(t2).dom())
        }
        None => true,
    }
    &&& opt_tab_size(m.ht1) + opt_tab_size(m.ht2) <= usize::MAX
}

/// Nodes still waiting in the old sub-table.
pub open spec fn spec_old_count(m: HMap) -> int {
    opt_tab_size(m.ht2)
}

/// Total number of live entries across both sub-tables.
pub open spec fn spec_total_size(m: HMap) -> int {
    opt_tab_size(m.ht1) + opt_tab_size(m.ht2)
}

impl View for HMap {
    type V = Map<Seq<u8>, Seq<u8>>;

    /// The keyspace denotes the union of its two sub-tables' bindings.
    open spec fn view(&self) -> Map<Seq<u8>, Seq<u8>> {
        opt_tab_map(self.ht1).union_prefer_right(opt_tab_map(self.ht2))
    }
}

impl HMap {
    /// Creates an empty keyspace; the first table is allocated lazily on
    /// the first insert.
    pub fn new() -> (r: HMap)
        ensures
            hmap_wf(r),
            r@ == Map::<Seq<u8>, Seq<u8>>::empty(),
    {
        let r = HMap { ht1: None, ht2: None, resizing_pos: 0 };
        proof {
            assert(r@ =~= Map::<Seq<u8>, Seq<u8>>::empty());
        }
        r
    }

    /// Total number of live entries.
    pub fn hm_len(&self) -> (r: usize)
        requires
            hmap_wf(*self),
        ensures
            r == spec_total_size(*self),
    {
        let s1 = match self.ht1.as_ref() {
            Some(t1) => t1.size,
            None => 0,
        };
        let s2 = match self.ht2.as_ref() {
            Some(t2) => t2.size,
            None => 0,
        };
        s1 + s2
    }

    /// Moves up to `K_RESIZING_WORK` nodes from the old sub-table into the
    /// primary one; frees the old sub-table once it is drained.  A no-op
    /// when no resize is in progress.
    pub fn help_resizing(&mut self)
        requires
            hmap_wf(*old(self)),
        ensures
            hmap_wf(*final(self)),
            final(self)@ == old(self)@,
            spec_total_size(*final(self)) == spec_total_size(*old(self)),
            spec_old_count(*final(self)) == if spec_old_count(*old(self)) >= K_RESIZING_WORK {
                spec_old_count(*old(self)) - K_RESIZING_WORK
            } else {
                0
            },
            final(self).ht1 is Some <==> old(self).ht1 is Some,
            final(self).ht2 is Some ==> spec_old_count(*final(self)) > 0,
            final(self).ht2 is Some ==> old(self).ht2 is Some,
    {
        if self.ht2.is_none() {
            return ;
        }
        let ghost view0 = self@;
        let mut t2 = self.ht2.take().unwrap();
        let mut t1 = self.ht1.take().unwrap();
        let mut pos = self.resizing_pos;
        let mut nwork: usize = 0;
        let ghost oc0 = t2.size as int;
        let ghost total0 = t1.size + t2.size as int;
        proof {
            assert(tab_map(t1).union_prefer_right(tab_map(t2)) == view0);
        }
        while nwork < K_RESIZING_WORK && t2.size > 0
            invariant
                tab_wf(t1),
                tab_wf(t2),
                t1.mask + 1 == 2 * (t2.mask + 1),
                pos <= t2.table@.len(),
                forall|i: int| 0 <= i < pos ==> (#[trigger] t2.table@[i]) is None,
                tab_map(t1).dom().disjoint(tab_map(t2).dom()),
                tab_map(t1).union_prefer_right(tab_map(t2)) == view0,
                t2.size + nwork == oc0,
                nwork <= K_RESIZING_WORK,
                t1.size + t2.size == total0,
                total0 <= usize::MAX,
            decreases t2.size, t2.table@.len() - pos,
        {
            proof {
                if pos == t2.table@.len() {
                    lemma_all_none(t2.table@);
                }
            }
            let ghost m1 = tab_map(t1);
            let ghost m2 = tab_map(t2);
            let moved = t2.h_detach(pos);
            match moved {
                None => {
                    pos = pos + 1;
                }
                Some(node) => {
                    let ghost k = node.key@;
                    let ghost v = node.value@;
                    t1.insert(node);
                    nwork = nwork + 1;
                    proof {
                        assert(tab_map(t1) == m1.insert(k, v));
                        assert(tab_map(t2) == m2.remove(k));
                        assert(tab_map(t1).dom().disjoint(tab_map(t2).dom()));
                        assert(tab_map(t1).union_prefer_right(tab_map(t2)) =~= view0) by {
                            assert(!m1.dom().contains(k));
                            assert(m2.dom().contains(k));
                            assert(m1.union_prefer_right(m2)[k] == v);
                        }
                    }
                }
            }
        }
        self.resizing_pos = pos;
        self.ht1 = Some(t1);
        if t2.size == 0 {
            proof {
                lemma_count_zero(t2.table@);
                assert(tab_map(t2) =~= Map::<Seq<u8>, Seq<u8>>::empty());
                assert(self@ =~= view0);
            }
        } else {
            self.ht2 = Some(t2);
            proof {
                assert(self@ =~= view0);
            }
        }
    }

    /// Starts a resize: the primary table becomes the old table, and a
    /// fresh primary table with twice the buckets takes its place.
    pub fn start_resizing(&mut self)
        requires
            hmap_wf(*old(self)),
            old(self).ht1 is Some,
            old(self).ht2 is None,
            2 * (old(self).ht1->0.mask + 1) <= usize::MAX,
        ensures
            hmap_wf(*final(self)),
            final(self)@ == old(self)@,
            spec_total_size(*final(self)) == spec_total_size(*old(self)),
            spec_old_count(*final(self)) == opt_tab_size(old(self).ht1),
            final(self).ht2 is Some,
    {
        let t1 = self.ht1.take().unwrap();
        let new_size = (t1.mask + 1) * 2;
        proof {
            assert(is_pow2(new_size as int)) by {
                assert(new_size as int / 2 == t1.mask + 1);
            }
        }
        self.ht1 = Some(HTab::new(new_size));
        self.ht2 = Some(t1);
        self.resizing_pos = 0;
        proof {
            assert(self@ =~= old(self)@);
            assert(tab_map(self.ht1->0).dom().disjoint(tab_map(t1).dom()));
        }
    }
}

impl HMap {
    /// Inserts a binding, overwriting any present one; then helps any
    /// resize in progress along, and starts one when the primary table's
    /// load factor passes `K_MAX_LOAD_FACTOR`.
    pub fn hm_insert(&mut self, node: HNode)
        requires
            hmap_wf(*old(self)),
            node.hcode == spec_hash(node.key@),
            spec_total_size(*old(self)) < usize::MAX,
        ensures
            hmap_wf(*final(self)),
            final(self)@ == old(self)@.insert(node.key@, node.value@),
            spec_total_size(*final(self)) <= spec_total_size(*old(self)) + 1,
            ({
                let d: int = if opt_tab_map(old(self).ht2).dom().contains(node.key@) {
                    1
                } else {
                    0
                };
                old(self).ht2 is Some && spec_old_count(*old(self)) - d > K_RESIZING_WORK
                    ==> spec_old_count(*final(self)) == spec_old_count(*old(self)) - d
                    - K_RESIZING_WORK
            }),
    {
        let ghost m0 = self@;
        let ghost k = node.key@;
        let ghost v = node.value@;
        if self.ht1.is_none() {
            proof {
                assert(is_pow2(4)) by {
                    reveal_with_fuel(is_pow2, 4);
                }
            }
            self.ht1 = Some(HTab::new(4));
            proof {
                assert(self@ =~= m0);
            }
        }
        let ghost m1_before = opt_tab_map(self.ht1);
        let ghost m2_before = opt_tab_map(self.ht2);
        let t1 = self.ht1.as_mut().unwrap();
        let det1 = t1.h_remove(node.key.as_slice());
        if det1.is_none() {
            match self.ht2.as_mut() {
                Some(t2) => {
                    let _ = t2.h_remove(node.key.as_slice());
                }
                None => {}
            }
        }
        proof {
            assert(opt_tab_map(self.ht1) == m1_before.remove(k));
            assert(opt_tab_map(self.ht2) =~= m2_before.remove(k));
        }
        let t1 = self.ht1.as_mut().unwrap();
        t1.insert(Box::new(node));
        proof {
            assert(self@ =~= m0.insert(k, v));
            assert(hmap_wf(*self));
        }
        self.help_resizing();
        if self.ht2.is_none() {
            let t1 = self.ht1.as_ref().unwrap();
            let denom = t1.table.len();
            if t1.size / denom > K_MAX_LOAD_FACTOR {
                proof {
                    let sz = t1.size as int;
                    let de = denom as int;
                    let q = sz / de;
                    vstd::arithmetic::div_mod::lemma_fundamental_div_mod(sz, de);
                    vstd::arithmetic::div_mod::lemma_mod_bound(sz, de);
                    assert(q * de >= 9 * de) by (nonlinear_arith)
                        requires
                            q >= 9,
                            de > 0,
                    ;
                    assert(sz >= 9 * de);
                    assert(2 * (t1.mask + 1) <= usize::MAX);
                }
                self.start_resizing();
            }
        }
    }

    /// Looks a key up, checking the primary table first and the old table
    /// second; helps any resize in progress along first.
    pub fn hm_lookup(&mut self, key: &[u8]) -> (r: Option<Vec<u8>>)
        requires
            hmap_wf(*old(self)),
        ensures
            hmap_wf(*final(self)),
            final(self)@ == old(self)@,
            spec_total_size(*final(self)) == spec_total_size(*old(self)),
            match r {
                Some(v) => old(self)@.dom().contains(key@) && v@ == old(self)@[key@],
                None => !old(self)@.dom().contains(key@),
            },
    {
        self.help_resizing();
        let mut res: Option<Vec<u8>> = None;
        let mut found = false;
        match self.ht1.as_ref() {
            Some(t1) => {
                match t1.h_lookup(key) {
                    Some(v) => {
                        res = Some(clone_bytes(v));
                        found = true;
                    }
                    None => {}
                }
            }
            None => {}
        }
        if !found {
            match self.ht2.as_ref() {
                Some(t2) => {
                    match t2.h_lookup(key) {
                        Some(v) => {
                            res = Some(clone_bytes(v));
                        }
                        None => {}
                    }
                }
                None => {}
            }
        }
        res
    }

    /// Removes a binding from whichever sub-table holds it; returns
    /// whether one was removed.  Helps any resize in progress along after.
    pub fn hm_remove(&mut self, key: &[u8]) -> (r: bool)
        requires
            hmap_wf(*old(self)),
        ensures
            hmap_wf(*final(self)),
            final(self)@ == old(self)@.remove(key@),
            spec_total_size(*final(self)) <= spec_total_size(*old(self)),
            r == old(self)@.dom().contains(key@),
    {
        let ghost m0 = self@;
        let ghost m1 = opt_tab_map(self.ht1);
        let ghost m2 = opt_tab_map(self.ht2);
        let mut found = false;
        match self.ht1.as_mut() {
            Some(t1) => {
                if t1.h_remove(key).is_some() {
                    found = true;
                }
            }
            None => {}
        }
        if !found {
            match self.ht2.as_mut() {
                Some(t2) => {
                    if t2.h_remove(key).is_some() {
                        found = true;
                    }
                }
                None => {}
            }
        }
        proof {
            assert(opt_tab_map(self.ht1) =~= m1.remove(key@));
            assert(opt_tab_map(self.ht2) =~= m2.remove(key@));
            assert(self@ =~= m0.remove(key@));
            assert(hmap_wf(*self));
        }
        self.help_resizing();
        found
    }

    /// Enumerates all bound keys, each exactly once, in unspecified order.
    pub fn hm_keys(&self) -> (r: Vec<Vec<u8>>)
        requires
            hmap_wf(*self),
        ensures
            r.deep_view().no_duplicates(),
            r.deep_view().to_set() == self@.dom(),
    {
        let mut out: Vec<Vec<u8>> = Vec::new();
        proof {
            assert(out.deep_view() =~= Seq::<Seq<u8>>::empty());
        }
        let ghost ks1 = match &self.ht1 {
            Some(t1) => buckets_keyseq(t1.table@),
            None => Seq::<Seq<u8>>::empty(),
        };
        match self.ht1.as_ref() {
            Some(t1) => {
                tab_keys(t1, &mut out);
            }
            None => {}
        }
        proof {
            assert(out.deep_view() =~= ks1);
        }
        match self.ht2.as_ref() {
            Some(t2) => {
                tab_keys(t2, &mut out);
            }
            None => {}
        }
        proof {
            let m1 = opt_tab_map(self.ht1);
            let m2 = opt_tab_map(self.ht2);
            let ks2 = match &self.ht2 {
                Some(t2) => buckets_keyseq(t2.table@),
                None => Seq::<Seq<u8>>::empty(),
            };
            assert(out.deep_view() =~= ks1 + ks2);
            match &self.ht1 {
                Some(t1) => {
                    lemma_buckets_keyseq(t1.table@, t1.mask);
                }
                None => {
                    assert(ks1.to_set() =~= m1.dom());
                }
            }
            match &self.ht2 {
                Some(t2) => {
                    lemma_buckets_keyseq(t2.table@, t2.mask);
                }
                None => {
                    assert(ks2.to_set() =~= m2.dom());
                }
            }
            assert(ks1.to_set().disjoint(ks2.to_set()));
            lemma_concat_keys(ks1, ks2);
            assert((ks1 + ks2).to_set() =~= self@.dom());
        }
        out
    }
}

/// The keys a chain binds, head first.
pub open spec fn chain_keyseq(c: Option<Box<HNode>>) -> Seq<Seq<u8>>
    decreases c,
{
    match c {
        None => Seq::empty(),
        Some(n) => seq![n.key@] + chain_keyseq(n.next),
    }
}

/// The keys a bucket array binds, bucket by bucket.
pub open spec fn buckets_keyseq(bs: Seq<Option<Box<HNode>>>) -> Seq<Seq<u8>>
    decreases bs.len(),
{
    if bs.len() == 0 {
        Seq::empty()
    } else {
        buckets_keyseq(bs.drop_last()) + chain_keyseq(bs.last())
    }
}

/// Concatenating two duplicate-free key lists over disjoint key sets
/// yields a duplicate-free list over the union.
proof fn lemma_concat_keys(s1: Seq<Seq<u8>>, s2: Seq<Seq<u8>>)
    requires
        s1.no_duplicates(),
        s2.no_duplicates(),
        s1.to_set().disjoint(s2.to_set()),
    ensures
        (s1 + s2).no_duplicates(),
        (s1 + s2).to_set() =~= s1.to_set().union(s2.to_set()),
{
    let s = s1 + s2;
    assert forall|x: Seq<u8>| #[trigger] s.contains(x) implies s1.contains(x) || s2.contains(
        x,
    ) by {
        let i = choose|i: int| 0 <= i < s.len() && s[i] == x;
        if i < s1.len() {
            assert(s1[i] == x);
        } else {
            assert(s2[i - s1.len()] == x);
        }
    }
    assert forall|x: Seq<u8>| s1.contains(x) || s2.contains(x) implies #[trigger] s.contains(
        x,
    ) by {
        if s1.contains(x) {
            let i = choose|i: int| 0 <= i < s1.len() && s1[i] == x;
            assert(s[i] == x);
        } else {
            let i = choose|i: int| 0 <= i < s2.len() && s2[i] == x;
            assert(s[i + s1.len()] == x);
        }
    }
    assert forall|i: int, j: int| 0 <= i < s.len() && 0 <= j < s.len() && i != j implies s[i]
        != s[j] by {
        if i < s1.len() && j < s1.len() {
        } else if i >= s1.len() && j >= s1.len() {
            assert(s[i] == s2[i - s1.len()]);
            assert(s[j] == s2[j - s1.len()]);
        } else if i < s1.len() && j >= s1.len() {
            assert(s1.contains(s[i]));
            assert(s2.contains(s[j]));
            assert(s1.to_set().contains(s[i]));
            assert(s2.to_set().contains(s[j]));
        } else {
            assert(s1.contains(s[j]));
            assert(s2.contains(s[i]));
            assert(s1.to_set().contains(s[j]));
            assert(s2.to_set().contains(s[i]));
        }
    }
}

/// A well-formed chain's key list has no duplicates and covers exactly
/// the chain's bindings.
proof fn lemma_chain_keyseq(c: Option<Box<HNode>>)
    requires
        chain_distinct(c),
    ensures
        chain_keyseq(c).no_duplicates(),
        chain_keyseq(c).to_set() =~= chain_map(c).dom(),
    decreases c,
{
    match c {
        None => {
            assert(chain_map(c).dom() =~= Set::empty());
            assert forall|x: Seq<u8>| !(#[trigger] chain_keyseq(c).contains(x)) by {
                if chain_keyseq(c).contains(x) {
                    let i = choose|i: int| 0 <= i < chain_keyseq(c).len() && chain_keyseq(c)[i]
                        == x;
                }
            }
        }
        Some(n) => {
            lemma_chain_keyseq(n.next);
            let k = n.key@;
            let s = chain_keyseq(c);
            let rest = chain_keyseq(n.next);
            assert(s == seq![k] + rest);
            assert(s[0] == k);
            assert(chain_map(c).dom() =~= chain_map(n.next).dom().insert(k));
            lemma_concat_keys(seq![k], rest);
            assert(seq![k].to_set() =~= Set::<Seq<u8>>::empty().insert(k)) by {
                assert(seq![k][0] == k);
                assert forall|x: Seq<u8>| #[trigger] seq![k].contains(x) implies x == k by {
                    let i = choose|i: int| 0 <= i < seq![k].len() && seq![k][i] == x;
                }
            }
            assert(s.to_set() =~= chain_map(c).dom());
        }
    }
}

/// A well-formed bucket array's key list has no duplicates and covers
/// exactly its bindings.
proof fn lemma_buckets_keyseq(bs: Seq<Option<Box<HNode>>>, mask: usize)
    requires
        buckets_wf(bs, mask),
    ensures
        buckets_keyseq(bs).no_duplicates(),
        buckets_keyseq(bs).to_set() =~= buckets_map(bs).dom(),
    decreases bs.len(),
{
    if bs.len() == 0 {
        assert(buckets_map(bs).dom() =~= Set::empty());
        assert forall|x: Seq<u8>| !(#[trigger] buckets_keyseq(bs).contains(x)) by {
            if buckets_keyseq(bs).contains(x) {
                let i = choose|i: int| 0 <= i < buckets_keyseq(bs).len() && buckets_keyseq(bs)[i]
                    == x;
            }
        }
    } else {
        let pre = bs.drop_last();
        let last = bs.last();
        assert(forall|i: int| 0 <= i < pre.len() ==> pre[i] == bs[i]);
        lemma_buckets_keyseq(pre, mask);
        assert(chain_distinct(last));
        lemma_chain_keyseq(last);
        let s1 = buckets_keyseq(pre);
        let s2 = chain_keyseq(last);
        assert forall|x: Seq<u8>| #[trigger] s1.to_set().contains(x) implies !s2.to_set().contains(
            x,
        ) by {
            if s2.to_set().contains(x) {
                lemma_buckets_at(pre, mask, x);
                lemma_chain_keys_bucket(last, mask, bs.len() - 1, x);
            }
        }
        lemma_concat_keys(s1, s2);
        assert(buckets_map(bs).dom() =~= buckets_map(pre).dom().union(chain_map(last).dom()));
        assert(buckets_keyseq(bs).to_set() =~= buckets_map(bs).dom());
    }
}

/// Appends clones of all keys of a chain.
fn chain_keys(c: &Option<Box<HNode>>, out: &mut Vec<Vec<u8>>)
    ensures
        final(out).deep_view() == old(out).deep_view() + chain_keyseq(*c),
    decreases chain_len(*c),
{
    match c {
        None => {
            proof {
                assert(out.deep_view() =~= out.deep_view() + chain_keyseq(*c));
            }
        }
        Some(n) => {
            let ghost before = out.deep_view();
            let k = clone_bytes(&n.key);
            proof {
                assert(k.deep_view() =~= n.key@);
            }
            out.push(k);
            proof {
                assert(out.deep_view() =~= before + seq![n.key@]);
            }
            chain_keys(&n.next, out);
            proof {
                assert(before + seq![n.key@] + chain_keyseq(n.next) =~= before + chain_keyseq(
                    *c,
                ));
            }
        }
    }
}

/// Appends clones of all keys of a sub-table.
fn tab_keys(t: &HTab, out: &mut Vec<Vec<u8>>)
    ensures
        final(out).deep_view() == old(out).deep_view() + buckets_keyseq(t.table@),
{
    let ghost base = out.deep_view();
    let ghost bs = t.table@;
    proof {
        assert(bs.take(0) =~= Seq::<Option<Box<HNode>>>::empty());
        assert(out.deep_view() =~= base + buckets_keyseq(bs.take(0)));
    }
    let mut i: usize = 0;
    while i < t.table.len()
        invariant
            0 <= i <= bs.len(),
            bs == t.table@,
            out.deep_view() == base + buckets_keyseq(bs.take(i as int)),
        decreases bs.len() - i,
    {
        chain_keys(&t.table[i], out);
        proof {
            assert(bs.take(i as int + 1).drop_last() =~= bs.take(i as int));
            assert(bs.take(i as int + 1).last() == bs[i as int]);
            assert(base + buckets_keyseq(bs.take(i as int)) + chain_keyseq(bs[i as int])
                =~= base + buckets_keyseq(bs.take(i as int + 1)));
        }
        i = i + 1;
    }
    proof {
        assert(bs.take(bs.len() as int) =~= bs);
    }
}

/// A bucket array with no nodes holds no bindings.
proof fn lemma_count_zero(bs: Seq<Option<Box<HNode>>>)
    requires
        buckets_count(bs) == 0,
    ensures
        buckets_map(bs) =~= Map::empty(),
    decreases bs.len(),
{
    if bs.len() > 0 {
        lemma_count_zero(bs.drop_last());
        assert(chain_len(bs.last()) == 0);
        assert(bs.last() is None);
        assert(chain_map(bs.last()) =~= Map::empty());
    }
}

} // verus!
