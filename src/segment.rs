use vstd::arithmetic::div_mod::{
    lemma_basic_div,
    lemma_div_denominator,
    lemma_fundamental_div_mod,
    lemma_fundamental_div_mod_converse,
};
use vstd::arithmetic::power2::{lemma_pow2_adds, lemma_pow2_pos, pow2};
use vstd::prelude::*;

verus! {

/// One node of the address tree.
pub enum MemorySegment {
    /// Nothing has been allocated under this node.
    Nothing,
    /// A table of child nodes, one for each value of this level's index bits.
    Next(Vec<MemorySegment>),
    /// A leaf: the words of one aligned block.
    Memory(Vec<u64>),
}

/// Bit position of the lowest index bit of a table that stands `height` levels above the
/// leaves: the leaf offset bits and the index bits of the tables below it lie under it.
pub open spec fn index_shift(height: nat, seg_bits: nat, mem_bits: nat) -> nat {
    mem_bits + seg_bits * ((height - 1) as nat)
}

/// Which child of a table `height` levels above the leaves holds address `a`.
pub open spec fn table_index(a: int, height: nat, seg_bits: nat, mem_bits: nat) -> int {
    (a / pow2(index_shift(height, seg_bits, mem_bits)) as int) % pow2(seg_bits) as int
}

/// Where address `a` lies inside its leaf.
pub open spec fn leaf_offset(a: int, mem_bits: nat) -> int {
    a % pow2(mem_bits) as int
}

/// The addresses under a node `height` levels above the leaves are those that share the
/// bits above `mem_bits + seg_bits * height` with the address that led to it.
pub open spec fn same_subtree(a: int, b: int, height: nat, seg_bits: nat, mem_bits: nat) -> bool {
    a / pow2(mem_bits + seg_bits * height) as int == b / pow2(mem_bits + seg_bits * height) as int
}

/// Dividing by `2^(m + k)` is dividing by `2^m`, then by `2^k`.
pub proof fn lemma_div_pow2_split(a: int, m: nat, k: nat)
    requires
        0 <= a,
    ensures
        a / pow2(m + k) as int == (a / pow2(m) as int) / pow2(k) as int,
{
    lemma_pow2_pos(m);
    lemma_pow2_pos(k);
    lemma_pow2_adds(m, k);
    lemma_div_denominator(a, pow2(m) as int, pow2(k) as int);
}

/// Two addresses in one leaf lie as far apart as their offsets in it.
pub proof fn lemma_same_block(a: int, b: int, mem_bits: nat)
    requires
        0 <= a,
        0 <= b,
        a / pow2(mem_bits) as int == b / pow2(mem_bits) as int,
    ensures
        a - b == leaf_offset(a, mem_bits) - leaf_offset(b, mem_bits),
{
    lemma_pow2_pos(mem_bits);
    lemma_fundamental_div_mod(a, pow2(mem_bits) as int);
    lemma_fundamental_div_mod(b, pow2(mem_bits) as int);
}

/// An address that lies `k` words past `b`, where `b`'s offset plus `k` stays inside the
/// leaf, lies in `b`'s leaf.
pub proof fn lemma_in_block(a: int, b: int, mem_bits: nat)
    requires
        0 <= b <= a,
        leaf_offset(b, mem_bits) + (a - b) < pow2(mem_bits),
    ensures
        a / pow2(mem_bits) as int == b / pow2(mem_bits) as int,
        leaf_offset(a, mem_bits) == leaf_offset(b, mem_bits) + (a - b),
{
    let l = pow2(mem_bits) as int;
    lemma_pow2_pos(mem_bits);
    lemma_fundamental_div_mod(b, l);
    lemma_fundamental_div_mod_converse(a, l, b / l, b % l + (a - b));
}

/// The leaf that holds `a` ends at or below `2^(mem_bits + k)` when `a` lies below it.
pub proof fn lemma_block_end(a: int, mem_bits: nat, k: nat)
    requires
        0 <= a < pow2(mem_bits + k),
    ensures
        a - leaf_offset(a, mem_bits) + pow2(mem_bits) <= pow2(mem_bits + k),
{
    let l = pow2(mem_bits) as int;
    let p = pow2(k) as int;
    lemma_pow2_pos(mem_bits);
    lemma_pow2_pos(k);
    lemma_pow2_adds(mem_bits, k);
    lemma_div_pow2_split(a, mem_bits, k);
    lemma_basic_div(a, pow2(mem_bits + k) as int);
    let q = a / l;
    lemma_fundamental_div_mod(a, l);
    lemma_fundamental_div_mod(q, p);
    assert(l * q + l <= l * p) by (nonlinear_arith)
        requires
            0 <= q < p,
            l > 0,
    ;
}

/// Addresses in one leaf take the same path through the tables above it.
pub proof fn lemma_block_path(a: int, b: int, height: nat, seg_bits: nat, mem_bits: nat)
    requires
        0 <= a,
        0 <= b,
        a / pow2(mem_bits) as int == b / pow2(mem_bits) as int,
    ensures
        height > 0 ==> table_index(a, height, seg_bits, mem_bits) == table_index(
            b,
            height,
            seg_bits,
            mem_bits,
        ),
        same_subtree(a, b, height, seg_bits, mem_bits),
{
    lemma_div_pow2_split(a, mem_bits, seg_bits * height);
    lemma_div_pow2_split(b, mem_bits, seg_bits * height);
    if height > 0 {
        lemma_div_pow2_split(a, mem_bits, seg_bits * ((height - 1) as nat));
        lemma_div_pow2_split(b, mem_bits, seg_bits * ((height - 1) as nat));
    }
}

/// Two addresses under one table that take the same child lie under that child.
pub proof fn lemma_descend(a: int, b: int, height: nat, seg_bits: nat, mem_bits: nat)
    requires
        0 <= a,
        0 <= b,
        height > 0,
        same_subtree(a, b, height, seg_bits, mem_bits),
        table_index(a, height, seg_bits, mem_bits) == table_index(b, height, seg_bits, mem_bits),
    ensures
        same_subtree(a, b, (height - 1) as nat, seg_bits, mem_bits),
{
    let below = index_shift(height, seg_bits, mem_bits);
    assert(seg_bits * height == seg_bits * ((height - 1) as nat) + seg_bits) by (nonlinear_arith)
        requires
            height > 0,
    ;
    assert(mem_bits + seg_bits * height == below + seg_bits);
    lemma_div_pow2_split(a, below, seg_bits);
    lemma_div_pow2_split(b, below, seg_bits);
    let q = pow2(seg_bits) as int;
    lemma_pow2_pos(seg_bits);
    lemma_pow2_pos(below);
    let x = a / pow2(below) as int;
    let y = b / pow2(below) as int;
    lemma_fundamental_div_mod(x, q);
    lemma_fundamental_div_mod(y, q);
}

impl MemorySegment {
    /// A node `height` levels above the leaves is well formed: every table has exactly
    /// `2^seg_bits` children, every leaf `2^mem_bits` words, and leaves stand exactly at
    /// height 0, so every path from a table to a leaf has the same length.
    pub open spec fn wf(self, height: nat, seg_bits: nat, mem_bits: nat) -> bool
        decreases self,
    {
        match self {
            MemorySegment::Nothing => true,
            MemorySegment::Next(children) => {
                &&& height > 0
                &&& children.len() == pow2(seg_bits)
                &&& forall|i: int|
                    0 <= i < children.len() ==> (#[trigger] children[i]).wf(
                        (height - 1) as nat,
                        seg_bits,
                        mem_bits,
                    )
            },
            MemorySegment::Memory(words) => height == 0 && words.len() == pow2(mem_bits),
        }
    }

    /// The word that this node holds for address `a`; an unallocated range reads as zero.
    pub open spec fn word_at(self, a: int, height: nat, seg_bits: nat, mem_bits: nat) -> u64
        decreases self,
    {
        match self {
            MemorySegment::Nothing => 0,
            MemorySegment::Next(children) => {
                let i = table_index(a, height, seg_bits, mem_bits);
                if 0 <= i < children.len() {
                    children[i].word_at(a, (height - 1) as nat, seg_bits, mem_bits)
                } else {
                    0
                }
            },
            MemorySegment::Memory(words) => {
                let o = leaf_offset(a, mem_bits);
                if 0 <= o < words.len() {
                    words[o]
                } else {
                    0
                }
            },
        }
    }

    /// Whether a leaf has been allocated for address `a` under this node.
    pub open spec fn is_mapped(self, a: int, height: nat, seg_bits: nat, mem_bits: nat) -> bool
        decreases self,
    {
        match self {
            MemorySegment::Nothing => false,
            MemorySegment::Next(children) => {
                let i = table_index(a, height, seg_bits, mem_bits);
                0 <= i < children.len() && children[i].is_mapped(
                    a,
                    (height - 1) as nat,
                    seg_bits,
                    mem_bits,
                )
            },
            MemorySegment::Memory(words) => true,
        }
    }

    /// The two trees have the same nodes in the same places: only leaf contents may differ.
    pub open spec fn same_shape(self, other: MemorySegment) -> bool
        decreases self,
    {
        match (self, other) {
            (MemorySegment::Nothing, MemorySegment::Nothing) => true,
            (MemorySegment::Next(c1), MemorySegment::Next(c2)) => {
                &&& c1.len() == c2.len()
                &&& forall|i: int| 0 <= i < c1.len() ==> (#[trigger] c1[i]).same_shape(c2[i])
            },
            (MemorySegment::Memory(w1), MemorySegment::Memory(w2)) => w1.len() == w2.len(),
            _ => false,
        }
    }

    /// Every tree has the shape of itself.
    pub proof fn lemma_same_shape_refl(self)
        ensures
            self.same_shape(self),
        decreases self,
    {
        if let MemorySegment::Next(children) = self {
            assert forall|i: int| 0 <= i < children.len() implies (#[trigger] children[i]).same_shape(
                children[i],
            ) by {
                children[i].lemma_same_shape_refl();
            }
        }
    }

    /// A fresh leaf of `2^mem_bits` zero words.
    pub fn new_memory(mem_bits: u32) -> (r: MemorySegment)
        requires
            mem_bits < 64,
            pow2(mem_bits as nat) <= usize::MAX,
        ensures
            r is Memory,
            r->Memory_0@ == Seq::new(pow2(mem_bits as nat), |i: int| 0u64),
    {
        proof {
            vstd::bits::lemma_u64_shl_is_mul(1, mem_bits as u64);
            vstd::bits::lemma_u64_pow2_no_overflow(mem_bits as nat);
        }
        let n: usize = (1u64 << (mem_bits as u64)) as usize;
        let mut words: Vec<u64> = Vec::with_capacity(n);
        let mut k: usize = 0;
        while k < n
            invariant
                k <= n,
                n == pow2(mem_bits as nat),
                words@ == Seq::new(k as nat, |i: int| 0u64),
            decreases n - k,
        {
            words.push(0);
            k = k + 1;
        }
        MemorySegment::Memory(words)
    }

    /// A fresh table of `2^seg_bits` children, none of them allocated.
    pub fn new_segment(seg_bits: u32) -> (r: MemorySegment)
        requires
            seg_bits < 64,
            pow2(seg_bits as nat) <= usize::MAX,
        ensures
            r is Next,
            r->Next_0.len() == pow2(seg_bits as nat),
            forall|i: int| 0 <= i < r->Next_0.len() ==> #[trigger] r->Next_0[i] is Nothing,
    {
        proof {
            vstd::bits::lemma_u64_shl_is_mul(1, seg_bits as u64);
            vstd::bits::lemma_u64_pow2_no_overflow(seg_bits as nat);
        }
        let n: usize = (1u64 << (seg_bits as u64)) as usize;
        let mut children: Vec<MemorySegment> = Vec::with_capacity(n);
        let mut k: usize = 0;
        while k < n
            invariant
                k <= n,
                n == pow2(seg_bits as nat),
                children.len() == k,
                forall|i: int| 0 <= i < k ==> #[trigger] children[i] is Nothing,
            decreases n - k,
        {
            children.push(MemorySegment::Nothing);
            k = k + 1;
        }
        MemorySegment::Next(children)
    }
}

} // verus!
