use vstd::arithmetic::div_mod::lemma_basic_div;
use vstd::arithmetic::power2::{lemma2_to64, lemma2_to64_rest, lemma_pow2_pos, pow2};
use vstd::bits::{
    lemma_u64_low_bits_mask_is_mod,
    lemma_u64_pow2_no_overflow,
    lemma_u64_shl_is_mul,
    lemma_u64_shr_is_div,
    low_bits_mask,
};
use vstd::prelude::*;

use crate::segment::{
    lemma_descend,
    same_subtree,
    MemorySegment,
    index_shift,
    leaf_offset,
    lemma_block_end,
    lemma_block_path,
    lemma_in_block,
    lemma_same_block,
    table_index,
};

verus! {

/// Word-addressed access to a memory of `u64` words. Reads take `&mut self`: a memory
/// may change itself when read, by caching for instance, though what it holds does not.
pub trait Access {
    /// The memory is in a usable state.
    spec fn ready(&self) -> bool;

    /// What the memory holds, one word per address.
    spec fn contents(&self) -> Seq<u64>;

    /// The memory can serve a request of `len` words from `loc` in one piece.
    spec fn serves(&self, loc: int, len: int) -> bool;

    /// Read `span` words from `loc` on.
    fn read(&mut self, loc: u64, span: u32) -> (r: Vec<u64>)
        requires
            old(self).ready(),
            old(self).serves(loc as int, span as int),
        ensures
            final(self).ready(),
            forall|l: int, n: int| #[trigger] final(self).serves(l, n) == old(self).serves(l, n),
            final(self).contents() == old(self).contents(),
            r@ == old(self).contents().subrange(loc as int, loc + span),
    ;

    /// Write `contents` from `loc` on.
    fn write(&mut self, loc: u64, contents: &Vec<u64>)
        requires
            old(self).ready(),
            old(self).serves(loc as int, contents.len() as int),
        ensures
            final(self).ready(),
            forall|l: int, n: int| #[trigger] final(self).serves(l, n) == old(self).serves(l, n),
            final(self).contents() == splice(old(self).contents(), loc as int, contents@),
    ;

    /// Read the word at `loc`.
    fn read_64(&mut self, loc: u64) -> (r: u64)
        requires
            old(self).ready(),
            old(self).serves(loc as int, 1),
        ensures
            final(self).ready(),
            forall|l: int, n: int| #[trigger] final(self).serves(l, n) == old(self).serves(l, n),
            final(self).contents() == old(self).contents(),
            r == old(self).contents()[loc as int],
    ;

    /// Write `val` at `loc`.
    fn write_64(&mut self, loc: u64, val: u64)
        requires
            old(self).ready(),
            old(self).serves(loc as int, 1),
        ensures
            final(self).ready(),
            forall|l: int, n: int| #[trigger] final(self).serves(l, n) == old(self).serves(l, n),
            final(self).contents() == old(self).contents().update(loc as int, val),
    ;
}

/// The direction of an I/O request.
pub enum MemOp {
    /// Copy words out of the memory into the caller's buffer.
    Read,
    /// Copy the caller's buffer into the memory.
    Write,
}

/// The layout splits the 64 address bits exactly: `depth` table levels of `seg_bits`
/// index bits each, then `mem_bits` of offset inside a leaf. Tables and leaves must be
/// small enough to be allocated.
pub open spec fn layout_ok(seg_bits: nat, depth: nat, mem_bits: nat) -> bool {
    &&& seg_bits * depth + mem_bits == 64
    &&& seg_bits < 64
    &&& mem_bits < 64
    &&& pow2(seg_bits) <= usize::MAX
    &&& pow2(mem_bits) <= usize::MAX
}

/// `s` with the words of `v` put in place from position `at` on.
pub open spec fn splice(s: Seq<u64>, at: int, v: Seq<u64>) -> Seq<u64> {
    Seq::new(s.len(), |i: int| if at <= i < at + v.len() { v[i - at] } else { s[i] })
}

/// The addresses of the leaf that holds address `a`.
pub open spec fn block_of(a: int, leaf_bits: nat) -> Set<int> {
    Set::new(
        |b: int| 0 <= b < pow2(64) && b / pow2(leaf_bits) as int == a / pow2(leaf_bits) as int,
    )
}

/// A tree memory, populated on demand.
/// Each level of the tree supplies `bits_per_segment` bits of the address, and each node
/// is either a leaf of words, a table of further nodes, or nothing.
pub struct TreeMemory {
    /// Root of the tree.
    root: MemorySegment,
    /// Index bits per table level: each table has `2^bits_per_segment` children.
    bits_per_segment: u32,
    /// Number of table levels above the leaves.
    max_depth: u32,
    /// Offset bits inside a leaf: each leaf holds `2^mem_bits` words.
    mem_bits: u32,
}

impl TreeMemory {
    /// Index bits per table level.
    pub closed spec fn seg_bits(self) -> nat {
        self.bits_per_segment as nat
    }

    /// Number of table levels above the leaves.
    pub closed spec fn depth(self) -> nat {
        self.max_depth as nat
    }

    /// Offset bits inside a leaf.
    pub closed spec fn leaf_bits(self) -> nat {
        self.mem_bits as nat
    }

    /// The layout is sound and the tree is well formed under it.
    pub closed spec fn wf(self) -> bool {
        &&& layout_ok(self.seg_bits(), self.depth(), self.leaf_bits())
        &&& self.root.wf(self.depth(), self.seg_bits(), self.leaf_bits())
    }

    /// The whole memory: one word for each of the `2^64` addresses.
    pub closed spec fn words(self) -> Seq<u64> {
        Seq::new(
            pow2(64),
            |a: int| self.root.word_at(a, self.depth(), self.seg_bits(), self.leaf_bits()),
        )
    }

    /// The addresses whose leaf has been allocated.
    pub closed spec fn mapped(self) -> Set<int> {
        Set::new(
            |a: int|
                0 <= a < pow2(64) && self.root.is_mapped(
                    a,
                    self.depth(),
                    self.seg_bits(),
                    self.leaf_bits(),
                ),
        )
    }

    /// The two memories have the same tables and leaves in the same places.
    pub closed spec fn same_shape_as(self, other: TreeMemory) -> bool {
        self.root.same_shape(other.root)
    }

    /// A request of `len` words from `address` on lies inside one leaf.
    pub open spec fn fits(self, address: int, len: int) -> bool {
        leaf_offset(address, self.leaf_bits()) + len <= pow2(self.leaf_bits())
    }

    /// What every well-formed memory has: one word for each of the `2^64` addresses, a
    /// layout that splits the address bits exactly, and every request that fits in one leaf
    /// ending inside the address space.
    pub proof fn lemma_wf_facts(self)
        requires
            self.wf(),
        ensures
            pow2(64) == u64::MAX + 1,
            self.words().len() == pow2(64),
            layout_ok(self.seg_bits(), self.depth(), self.leaf_bits()),
            forall|a: int, n: int|
                0 <= a < pow2(64) && 0 <= n && #[trigger] self.fits(a, n) ==> a + n <= pow2(64),
    {
        let sb = self.seg_bits();
        let mb = self.leaf_bits();
        let depth = self.depth();
        lemma2_to64_rest();
        assert(mb + sb * depth == 64) by (nonlinear_arith)
            requires
                sb * depth + mb == 64,
        ;
        assert forall|a: int, n: int|
            0 <= a < pow2(64) && 0 <= n && #[trigger] self.fits(a, n) implies a + n <= pow2(64) by {
            lemma_block_end(a, mb, sb * depth);
        }
    }

    /// A memory of 4 table levels of 12 index bits each above leaves of `2^16` words, with
    /// nothing allocated yet.
    pub fn new() -> (r: TreeMemory)
        ensures
            r.wf(),
            r.seg_bits() == 12,
            r.depth() == 4,
            r.leaf_bits() == 16,
            r.words() == Seq::new(pow2(64), |a: int| 0u64),
            r.mapped() == Set::<int>::empty(),
    {
        proof {
            lemma2_to64();
        }
        TreeMemory::with_layout(12, 4, 16)
    }

    /// A memory with the given layout, with nothing allocated yet.
    pub fn with_layout(bits_per_segment: u32, max_depth: u32, mem_bits: u32) -> (r: TreeMemory)
        requires
            layout_ok(bits_per_segment as nat, max_depth as nat, mem_bits as nat),
        ensures
            r.wf(),
            r.seg_bits() == bits_per_segment,
            r.depth() == max_depth,
            r.leaf_bits() == mem_bits,
            r.words() == Seq::new(pow2(64), |a: int| 0u64),
            r.mapped() == Set::<int>::empty(),
    {
        let r = TreeMemory { root: MemorySegment::Nothing, bits_per_segment, max_depth, mem_bits };
        assert(r.words() =~= Seq::new(pow2(64), |a: int| 0u64));
        assert(r.mapped() =~= Set::<int>::empty());
        r
    }

    /// Performs one request against the memory: reads into `iovec`, or writes it.
    /// The request must lie inside one leaf; splitting larger requests is the caller's
    /// part. Reading an address that no write has reached gives zero, and allocates
    /// nothing. Writing allocates the leaf of the request, and the tables above it,
    /// where they are missing.
    pub fn iop(&mut self, address: u64, iovec: &mut Vec<u64>, op: MemOp)
        requires
            old(self).wf(),
            old(self).fits(address as int, old(iovec).len() as int),
        ensures
            final(self).wf(),
            final(self).seg_bits() == old(self).seg_bits(),
            final(self).depth() == old(self).depth(),
            final(self).leaf_bits() == old(self).leaf_bits(),
            final(iovec).len() == old(iovec).len(),
            op is Read ==> {
                &&& *final(self) == *old(self)
                &&& final(iovec)@ == old(self).words().subrange(
                    address as int,
                    address + old(iovec).len(),
                )
            },
            op is Write ==> {
                &&& final(iovec)@ == old(iovec)@
                &&& final(self).words() == splice(old(self).words(), address as int, old(iovec)@)
                &&& final(self).mapped() == old(self).mapped().union(
                    block_of(address as int, old(self).leaf_bits()),
                )
                &&& old(self).mapped().contains(address as int) ==> final(self).same_shape_as(
                    *old(self),
                )
            },
    {
        let ghost sb = self.seg_bits();
        let ghost mb = self.leaf_bits();
        let ghost depth = self.depth();
        let ghost old_root = self.root;
        proof {
            lemma2_to64_rest();
            lemma_pow2_pos(mb);
            assert(mb + sb * depth == 64) by (nonlinear_arith)
                requires
                    sb * depth + mb == 64,
            ;
            lemma_block_end(address as int, mb, sb * depth);
            assert forall|a: int| 0 <= a < pow2(64) implies #[trigger] same_subtree(
                a,
                address as int,
                depth,
                sb,
                mb,
            ) by {
                lemma_basic_div(a, pow2(64) as int);
                lemma_basic_div(address as int, pow2(64) as int);
            }
        }
        match op {
            MemOp::Read => {
                self.read_node(&self.root, address, iovec, self.max_depth);
                assert(iovec@ =~= self.words().subrange(address as int, address + iovec.len()));
            },
            MemOp::Write => {
                let mut root = MemorySegment::Nothing;
                std::mem::swap(&mut self.root, &mut root);
                let root = self.write_node(root, address, iovec, self.max_depth);
                self.root = root;
                proof {
                    assert(self.words() =~= splice(old(self).words(), address as int, iovec@));
                    assert forall|a: int| #[trigger]
                        self.mapped().contains(a) == old(self).mapped().union(
                            block_of(address as int, mb),
                        ).contains(a) by {
                        if 0 <= a < pow2(64) {
                            assert(same_subtree(a, address as int, depth, sb, mb));
                        }
                    }
                    assert(self.mapped() =~= old(self).mapped().union(
                        block_of(address as int, mb),
                    ));
                }
            },
        }
    }

    /// Whether a request of `len` words from `address` on lies inside one leaf, as `iop`
    /// requires.
    pub fn request_fits(&self, address: u64, len: usize) -> (r: bool)
        requires
            self.wf(),
        ensures
            r == self.fits(address as int, len as int),
    {
        let off = self.offset_of(address);
        proof {
            lemma_u64_shl_is_mul(1, self.mem_bits as u64);
            lemma_u64_pow2_no_overflow(self.leaf_bits());
        }
        let size: usize = (1u64 << (self.mem_bits as u64)) as usize;
        len <= size - off
    }

    /// Whether a leaf has been allocated for `address`.
    pub fn is_mapped(&self, address: u64) -> (r: bool)
        requires
            self.wf(),
        ensures
            r == self.mapped().contains(address as int),
    {
        proof {
            lemma2_to64_rest();
        }
        self.node_mapped(&self.root, address, self.max_depth)
    }

    /// Whether a leaf has been allocated for `address` under `node`, which stands `height`
    /// levels above the leaves.
    fn node_mapped(&self, node: &MemorySegment, address: u64, height: u32) -> (r: bool)
        requires
            layout_ok(self.seg_bits(), self.depth(), self.leaf_bits()),
            height <= self.max_depth,
            node.wf(height as nat, self.seg_bits(), self.leaf_bits()),
        ensures
            r == node.is_mapped(address as int, height as nat, self.seg_bits(), self.leaf_bits()),
        decreases height,
    {
        match node {
            MemorySegment::Nothing => false,
            MemorySegment::Next(children) => {
                let i = self.index_at(address, height);
                self.node_mapped(&children[i], address, height - 1)
            },
            MemorySegment::Memory(_) => true,
        }
    }

    /// Which child of a table `height` levels above the leaves holds `address`.
    fn index_at(&self, address: u64, height: u32) -> (i: usize)
        requires
            layout_ok(self.seg_bits(), self.depth(), self.leaf_bits()),
            1 <= height <= self.max_depth,
        ensures
            i == table_index(address as int, height as nat, self.seg_bits(), self.leaf_bits()),
            i < pow2(self.seg_bits()),
    {
        let sb = self.bits_per_segment;
        proof {
            assert(sb * ((height - 1) as nat) + sb <= sb * self.max_depth) by (nonlinear_arith)
                requires
                    1 <= height <= self.max_depth,
            ;
            assert(sb >= 1) by (nonlinear_arith)
                requires
                    sb * self.max_depth + self.mem_bits == 64,
                    self.mem_bits < 64,
            ;
        }
        let shift: u32 = self.mem_bits + sb * (height - 1);
        proof {
            assert(shift == index_shift(height as nat, sb as nat, self.mem_bits as nat));
            lemma_u64_shr_is_div(address, shift as u64);
            lemma_u64_shl_is_mul(1, sb as u64);
            lemma_u64_pow2_no_overflow(sb as nat);
            lemma_u64_low_bits_mask_is_mod(address >> (shift as u64), sb as nat);
            lemma_pow2_pos(sb as nat);
        }
        let mask: u64 = (1u64 << (sb as u64)) - 1;
        assert(mask == low_bits_mask(sb as nat) as u64);
        let i: u64 = (address >> (shift as u64)) & mask;
        i as usize
    }

    /// Where `address` lies inside its leaf.
    fn offset_of(&self, address: u64) -> (o: usize)
        requires
            layout_ok(self.seg_bits(), self.depth(), self.leaf_bits()),
        ensures
            o == leaf_offset(address as int, self.leaf_bits()),
            o < pow2(self.leaf_bits()),
    {
        let mb = self.mem_bits;
        proof {
            lemma_u64_shl_is_mul(1, mb as u64);
            lemma_u64_pow2_no_overflow(mb as nat);
            lemma_u64_low_bits_mask_is_mod(address, mb as nat);
            lemma_pow2_pos(mb as nat);
        }
        let mask: u64 = (1u64 << (mb as u64)) - 1;
        assert(mask == low_bits_mask(mb as nat) as u64);
        (address & mask) as usize
    }

    /// Copies into `iovec` the words from `address` on, as `node`, which stands `height`
    /// levels above the leaves, holds them. An unallocated range reads as zero.
    fn read_node(&self, node: &MemorySegment, address: u64, iovec: &mut Vec<u64>, height: u32)
        requires
            layout_ok(self.seg_bits(), self.depth(), self.leaf_bits()),
            height <= self.max_depth,
            node.wf(height as nat, self.seg_bits(), self.leaf_bits()),
            leaf_offset(address as int, self.leaf_bits()) + old(iovec).len() <= pow2(
                self.leaf_bits(),
            ),
        ensures
            final(iovec).len() == old(iovec).len(),
            forall|k: int|
                0 <= k < final(iovec).len() ==> #[trigger] final(iovec)@[k] == node.word_at(
                    address + k,
                    height as nat,
                    self.seg_bits(),
                    self.leaf_bits(),
                ),
        decreases height,
    {
        let ghost sb = self.seg_bits();
        let ghost mb = self.leaf_bits();
        let n = iovec.len();
        match node {
            MemorySegment::Nothing => {
                let mut k: usize = 0;
                while k < n
                    invariant
                        k <= n,
                        iovec.len() == n,
                        forall|j: int| 0 <= j < k ==> #[trigger] iovec@[j] == 0u64,
                    decreases n - k,
                {
                    iovec.set(k, 0);
                    k = k + 1;
                }
            },
            MemorySegment::Next(children) => {
                let i = self.index_at(address, height);
                self.read_node(&children[i], address, iovec, height - 1);
                assert forall|k: int| 0 <= k < n implies #[trigger] table_index(
                    address + k,
                    height as nat,
                    sb,
                    mb,
                ) == i by {
                    lemma_in_block(address + k, address as int, mb);
                    lemma_block_path(address + k, address as int, height as nat, sb, mb);
                }
            },
            MemorySegment::Memory(words) => {
                let off = self.offset_of(address);
                let mut k: usize = 0;
                while k < n
                    invariant
                        k <= n,
                        iovec.len() == n,
                        off + n <= words.len(),
                        forall|j: int| 0 <= j < k ==> #[trigger] iovec@[j] == words@[off + j],
                    decreases n - k,
                {
                    iovec.set(k, words[off + k]);
                    k = k + 1;
                }
                assert forall|k: int| 0 <= k < n implies #[trigger] leaf_offset(address + k, mb) == off + k by {
                    lemma_in_block(address + k, address as int, mb);
                }
            },
        }
    }

    /// Writes `data` from `address` on under `node`, which stands `height` levels above the
    /// leaves, and returns the new node. An unallocated node on the way is first replaced by
    /// a fresh table, or by a fresh leaf at height 0.
    fn write_node(&self, node: MemorySegment, address: u64, data: &Vec<u64>, height: u32) -> (r:
        MemorySegment)
        requires
            layout_ok(self.seg_bits(), self.depth(), self.leaf_bits()),
            height <= self.max_depth,
            node.wf(height as nat, self.seg_bits(), self.leaf_bits()),
            leaf_offset(address as int, self.leaf_bits()) + data.len() <= pow2(self.leaf_bits()),
        ensures
            r.wf(height as nat, self.seg_bits(), self.leaf_bits()),
            forall|a: int|
                0 <= a && same_subtree(
                    a,
                    address as int,
                    height as nat,
                    self.seg_bits(),
                    self.leaf_bits(),
                ) ==> #[trigger] r.word_at(a, height as nat, self.seg_bits(), self.leaf_bits()) == (
                if address <= a < address + data.len() {
                    data@[a - address]
                } else {
                    node.word_at(a, height as nat, self.seg_bits(), self.leaf_bits())
                }),
            forall|a: int|
                0 <= a && same_subtree(
                    a,
                    address as int,
                    height as nat,
                    self.seg_bits(),
                    self.leaf_bits(),
                ) ==> (#[trigger] r.is_mapped(a, height as nat, self.seg_bits(), self.leaf_bits())
                    <==> (node.is_mapped(a, height as nat, self.seg_bits(), self.leaf_bits()) || a
                    / pow2(self.leaf_bits()) as int == (address as int) / pow2(self.leaf_bits()) as int)),
            node.is_mapped(address as int, height as nat, self.seg_bits(), self.leaf_bits())
                ==> r.same_shape(node),
            height > 0 ==> {
                &&& r is Next
                &&& r->Next_0.len() == pow2(self.seg_bits())
                &&& forall|j: int|
                    0 <= j < r->Next_0.len() && j != table_index(
                        address as int,
                        height as nat,
                        self.seg_bits(),
                        self.leaf_bits(),
                    ) ==> #[trigger] r->Next_0[j] == (if node is Nothing {
                        MemorySegment::Nothing
                    } else {
                        node->Next_0[j]
                    })
            },
            height == 0 ==> {
                &&& r is Memory
                &&& r->Memory_0.len() == pow2(self.leaf_bits())
                &&& forall|t: int|
                    0 <= t < r->Memory_0.len() ==> #[trigger] r->Memory_0[t] == (if leaf_offset(
                        address as int,
                        self.leaf_bits(),
                    ) <= t < leaf_offset(address as int, self.leaf_bits()) + data.len() {
                        data@[t - leaf_offset(address as int, self.leaf_bits())]
                    } else if node is Memory {
                        node->Memory_0[t]
                    } else {
                        0u64
                    })
            },
        decreases height,
    {
        let ghost sb = self.seg_bits();
        let ghost mb = self.leaf_bits();
        let ghost h = height as nat;
        let ghost old_node = node;
        let node = match node {
            MemorySegment::Nothing => {
                if height == 0 {
                    MemorySegment::new_memory(self.mem_bits)
                } else {
                    MemorySegment::new_segment(self.bits_per_segment)
                }
            },
            other => other,
        };
        proof {
            lemma_pow2_pos(sb);
            if height > 0 {
                assert forall|a: int| #![trigger node.word_at(a, h, sb, mb)] #![trigger node.is_mapped(a, h, sb, mb)]
                    0 <= a implies node.word_at(a, h, sb, mb) == old_node.word_at(a, h, sb, mb)
                    && (node.is_mapped(a, h, sb, mb) == old_node.is_mapped(a, h, sb, mb)) by {
                    if old_node is Nothing {
                        let i = table_index(a, h, sb, mb);
                        assert(0 <= i < pow2(sb));
                        assert(node->Next_0[i] is Nothing);
                        assert(node->Next_0[i].word_at(a, (h - 1) as nat, sb, mb) == 0);
                        assert(!node->Next_0[i].is_mapped(a, (h - 1) as nat, sb, mb));
                    }
                }
            }
        }
        match node {
            MemorySegment::Next(mut children) => {
                let i = self.index_at(address, height);
                let ghost old_children = children@;
                let mut child = MemorySegment::Nothing;
                children.set_and_swap(i, &mut child);
                let child = self.write_node(child, address, data, height - 1);
                children.set(i, child);
                let r = MemorySegment::Next(children);
                proof {
                    let hb = (h - 1) as nat;
                    assert forall|a: int|
                        #![trigger r.word_at(a, h, sb, mb)]
                        #![trigger r.is_mapped(a, h, sb, mb)]
                        0 <= a && same_subtree(a, address as int, h, sb, mb) implies {
                        &&& r.word_at(a, h, sb, mb) == (if address <= a < address
                            + data.len() {
                            data@[a - address]
                        } else {
                            old_node.word_at(a, h, sb, mb)
                        })
                        &&& (r.is_mapped(a, h, sb, mb) <==> (old_node.is_mapped(a, h, sb, mb)
                            || a / pow2(mb) as int == (address as int) / pow2(mb) as int))
                    } by {
                        let j = table_index(a, h, sb, mb);
                        assert(0 <= j < pow2(sb));
                        assert(node.word_at(a, h, sb, mb) == old_node.word_at(a, h, sb, mb));
                        assert(node.is_mapped(a, h, sb, mb) == old_node.is_mapped(a, h, sb, mb));
                        assert(node.word_at(a, h, sb, mb) == old_children[j].word_at(a, hb, sb, mb));
                        assert(node.is_mapped(a, h, sb, mb) == old_children[j].is_mapped(a, hb, sb, mb));
                        assert(r.word_at(a, h, sb, mb) == children@[j].word_at(a, hb, sb, mb));
                        assert(r.is_mapped(a, h, sb, mb) == children@[j].is_mapped(a, hb, sb, mb));
                        if j == i {
                            lemma_descend(a, address as int, h, sb, mb);
                            assert(children@[j] == child);
                            assert(child.word_at(a, hb, sb, mb) == (if address <= a < address
                                + data.len() {
                                data@[a - address]
                            } else {
                                old_children[j].word_at(a, hb, sb, mb)
                            }));
                            assert(child.is_mapped(a, hb, sb, mb) <==> (old_children[j].is_mapped(a, hb, sb, mb)
                                || a / pow2(mb) as int == (address as int) / pow2(mb) as int));
                        } else {
                            if a / pow2(mb) as int == (address as int) / pow2(mb) as int {
                                lemma_block_path(a, address as int, h, sb, mb);
                            }
                            if address <= a < address + data.len() {
                                lemma_in_block(a, address as int, mb);
                                lemma_block_path(a, address as int, h, sb, mb);
                            }
                            assert(children@[j] == old_children[j]);
                        }
                    }
                    assert forall|j: int| 0 <= j < children.len() implies (#[trigger] children@[j]).wf(
                        hb,
                        sb,
                        mb,
                    ) by {
                        if j != i {
                            assert(children@[j] == old_children[j]);
                        }
                    }
                    if old_node.is_mapped(address as int, h, sb, mb) {
                        assert forall|j: int| 0 <= j < children.len() implies (
                        #[trigger] children@[j]).same_shape(old_children[j]) by {
                            if j != i {
                                assert(children@[j] == old_children[j]);
                                old_children[j].lemma_same_shape_refl();
                            }
                        }
                    }
                }
                r
            },
            MemorySegment::Memory(mut words) => {
                let off = self.offset_of(address);
                let n = data.len();
                let ghost old_words = words@;
                let mut k: usize = 0;
                while k < n
                    invariant
                        k <= n,
                        n == data.len(),
                        off + n <= old_words.len(),
                        words.len() == old_words.len(),
                        forall|t: int|
                            0 <= t < words.len() ==> #[trigger] words@[t] == (if off <= t < off
                                + k {
                                data@[t - off]
                            } else {
                                old_words[t]
                            }),
                    decreases n - k,
                {
                    words.set(off + k, data[k]);
                    k = k + 1;
                }
                let r = MemorySegment::Memory(words);
                proof {
                    assert forall|a: int|
                        0 <= a && same_subtree(a, address as int, h, sb, mb) implies #[trigger] r.word_at(
                        a,
                        h,
                        sb,
                        mb,
                    ) == (if address <= a < address + data.len() {
                        data@[a - address]
                    } else {
                        old_node.word_at(a, h, sb, mb)
                    }) by {
                        lemma_same_block(a, address as int, mb);
                        lemma_pow2_pos(mb);
                    }
                }
                r
            },
            MemorySegment::Nothing => {
                assert(false);
                node
            },
        }
    }
}

impl Access for TreeMemory {
    open spec fn ready(&self) -> bool {
        self.wf()
    }

    open spec fn contents(&self) -> Seq<u64> {
        self.words()
    }

    open spec fn serves(&self, loc: int, len: int) -> bool {
        self.fits(loc, len)
    }

    fn read(&mut self, loc: u64, span: u32) -> (r: Vec<u64>)
        ensures
            *final(self) == *old(self),
            r.len() == span,
            forall|i: int| 0 <= i < span ==> #[trigger] r@[i] == old(self).words()[loc + i],
    {
        proof {
            self.lemma_wf_facts();
            lemma2_to64_rest();
            assert(loc + span <= pow2(64));
        }
        let mut iovec: Vec<u64> = Vec::new();
        let mut k: u32 = 0;
        while k < span
            invariant
                k <= span,
                iovec.len() == k,
            decreases span - k,
        {
            iovec.push(0);
            k = k + 1;
        }
        self.iop(loc, &mut iovec, MemOp::Read);
        iovec
    }

    fn write(&mut self, loc: u64, contents: &Vec<u64>)
        ensures
            final(self).seg_bits() == old(self).seg_bits(),
            final(self).depth() == old(self).depth(),
            final(self).leaf_bits() == old(self).leaf_bits(),
            final(self).mapped() == old(self).mapped().union(
                block_of(loc as int, old(self).leaf_bits()),
            ),
            old(self).mapped().contains(loc as int) ==> final(self).same_shape_as(*old(self)),
    {
        let mut iovec = contents.clone();
        self.iop(loc, &mut iovec, MemOp::Write);
    }

    fn read_64(&mut self, loc: u64) -> (r: u64)
        ensures
            *final(self) == *old(self),
    {
        proof {
            lemma2_to64_rest();
        }
        let iovec = self.read(loc, 1);
        iovec[0]
    }

    fn write_64(&mut self, loc: u64, val: u64)
        ensures
            final(self).seg_bits() == old(self).seg_bits(),
            final(self).depth() == old(self).depth(),
            final(self).leaf_bits() == old(self).leaf_bits(),
            final(self).mapped() == old(self).mapped().union(
                block_of(loc as int, old(self).leaf_bits()),
            ),
            old(self).mapped().contains(loc as int) ==> final(self).same_shape_as(*old(self)),
    {
        proof {
            lemma2_to64_rest();
        }
        let mut iovec: Vec<u64> = Vec::new();
        iovec.push(val);
        self.write(loc, &iovec);
        assert(splice(old(self).words(), loc as int, iovec@) =~= old(self).words().update(
            loc as int,
            val,
        ));
    }
}

/// What is written is read back: after a write of `v` at `address`, which turns the words
/// into `splice(s, address, v)`, the `v.len()` words from `address` on are `v`.
pub proof fn lemma_write_then_read(s: Seq<u64>, address: int, v: Seq<u64>)
    requires
        0 <= address,
        address + v.len() <= s.len(),
    ensures
        splice(s, address, v).subrange(address, address + v.len()) == v,
{
    assert(splice(s, address, v).subrange(address, address + v.len()) =~= v);
}

/// What is written into a memory is read back from it: when a write of `v` at `address`,
/// a request that fits in one leaf, turns `before` into `after`, the `v.len()` words of
/// `after` from `address` on are `v`.
pub proof fn lemma_memory_write_then_read(
    before: TreeMemory,
    after: TreeMemory,
    address: u64,
    v: Seq<u64>,
)
    requires
        before.wf(),
        before.fits(address as int, v.len() as int),
        after.words() == splice(before.words(), address as int, v),
    ensures
        after.words().subrange(address as int, address + v.len()) == v,
{
    before.lemma_wf_facts();
    lemma2_to64_rest();
    lemma_write_then_read(before.words(), address as int, v);
}

/// Writes to disjoint ranges can be done in either order: both orders give the same words.
pub proof fn lemma_disjoint_writes_commute(
    s: Seq<u64>,
    a1: int,
    v1: Seq<u64>,
    a2: int,
    v2: Seq<u64>,
)
    requires
        a1 + v1.len() <= a2 || a2 + v2.len() <= a1,
    ensures
        splice(splice(s, a1, v1), a2, v2) == splice(splice(s, a2, v2), a1, v1),
{
    assert(splice(splice(s, a1, v1), a2, v2) =~= splice(splice(s, a2, v2), a1, v1));
}

/// Writes at any two addresses allocate the same leaves in either order.
pub proof fn lemma_allocation_order_free(mapped: Set<int>, a1: int, a2: int, leaf_bits: nat)
    ensures
        mapped.union(block_of(a1, leaf_bits)).union(block_of(a2, leaf_bits)) == mapped.union(
            block_of(a2, leaf_bits),
        ).union(block_of(a1, leaf_bits)),
{
    assert(mapped.union(block_of(a1, leaf_bits)).union(block_of(a2, leaf_bits)) =~= mapped.union(
        block_of(a2, leaf_bits),
    ).union(block_of(a1, leaf_bits)));
}

/// A write changes no word outside its own range: the word at any other address `b`
/// reads the same before and after it.
pub proof fn lemma_write_is_local(s: Seq<u64>, address: int, v: Seq<u64>, b: int)
    requires
        0 <= b < s.len(),
        !(address <= b < address + v.len()),
    ensures
        splice(s, address, v)[b] == s[b],
{
}

/// A write allocates storage for its own leaf only: after a write at `address`, which turns
/// the allocated addresses into `mapped.union(block_of(address, leaf_bits))`, an address
/// `b` of another leaf is allocated exactly when it was before.
pub proof fn lemma_write_allocates_its_leaf_only(
    mapped: Set<int>,
    address: int,
    b: int,
    leaf_bits: nat,
)
    requires
        b / pow2(leaf_bits) as int != address / pow2(leaf_bits) as int,
    ensures
        mapped.union(block_of(address, leaf_bits)).contains(b) == mapped.contains(b),
{
}

/// Allocation happens once per leaf: after a write at `address`, every address `b` of the
/// same leaf is allocated, so a later write at `b` allocates nothing more (and, by the
/// contract of `TreeMemory::iop`, leaves the shape of the tree as it is).
pub proof fn lemma_second_write_allocates_nothing(
    mapped: Set<int>,
    address: int,
    b: int,
    leaf_bits: nat,
)
    requires
        0 <= b < pow2(64),
        b / pow2(leaf_bits) as int == address / pow2(leaf_bits) as int,
    ensures
        mapped.union(block_of(address, leaf_bits)).contains(b),
        mapped.union(block_of(address, leaf_bits)).union(block_of(b, leaf_bits)) == mapped.union(
            block_of(address, leaf_bits),
        ),
{
    assert(block_of(b, leaf_bits) =~= block_of(address, leaf_bits));
    assert(mapped.union(block_of(address, leaf_bits)).union(block_of(b, leaf_bits))
        =~= mapped.union(block_of(address, leaf_bits)));
}

} // verus!
