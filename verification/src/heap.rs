//! The kernel heap: a 4-byte-aligned coalescing freelist over a contiguous
//! word array.
//!
//! Every block is preceded by a one-word header. Bit 15 holds the `taken`
//! flag, bits 0..=14 the payload size of this block in words, bits 16..=30
//! the payload size of the physically preceding block in words (zero for the
//! first block). Walking headers from the start of the region therefore
//! visits every block, and the `prev_size` field lets `kfree` step backwards
//! to its physical predecessor in constant time.
//!
//! The region itself is modelled as a vector of words; the first word of the
//! region is the first header. A "pointer" is a word offset into the region;
//! offset 0 is always a header, so 0 can serve as the null return of
//! `kmalloc`, as it does on the target machine.

use vstd::prelude::*;
use vstd::pervasive::VecAdditionalExecFns;

verus! {

/// Taken flag of a block header.
pub const TAKEN_MASK: u32 = 0x8000;

/// Current-size field of a block header.
pub const CUR_SIZE_MASK: u32 = 0x7FFF;

/// Previous-size field of a block header.
pub const PREV_SIZE_MASK: u32 = 0x7FFF_0000;

/// Largest single allocation in bytes: the size field holds 15 bits of words.
pub const MAX_BLOCK_SIZE: u32 = 131072;

/// Payload size in words recorded in a header.
pub open spec fn hdr_size(h: u32) -> int {
    (h & CUR_SIZE_MASK) as int
}

/// Taken flag recorded in a header.
pub open spec fn hdr_taken(h: u32) -> bool {
    h & TAKEN_MASK != 0
}

/// Predecessor payload size in words recorded in a header.
pub open spec fn hdr_prev(h: u32) -> int {
    ((h >> 16) & CUR_SIZE_MASK) as int
}

/// The heap walks correctly from word `off` to the end of the region:
/// every header's size stays inside the region, sizes are at least one word,
/// each header's previous-size field equals `prev` (the payload size of the
/// block just walked), and a block following a free block is taken, so that
/// coalescing is complete. `prev_free` says whether the block just walked
/// was free.
pub open spec fn wf_from(mem: Seq<u32>, off: int, prev: int, prev_free: bool) -> bool
    decreases mem.len() - off when 0 <= off <= mem.len()
{
    if off == mem.len() {
        true
    } else {
        let h = mem[off];
        &&& 1 <= hdr_size(h)
        &&& off + 1 + hdr_size(h) <= mem.len()
        &&& hdr_prev(h) == prev
        &&& (hdr_taken(h) || !prev_free)
        &&& wf_from(mem, off + 1 + hdr_size(h), hdr_size(h), !hdr_taken(h))
    }
}

/// The blocks of the region from word `off` on, each as
/// (header offset, payload size in words, taken).
pub open spec fn blocks_from(mem: Seq<u32>, off: int) -> Seq<(int, int, bool)>
    decreases mem.len() - off when 0 <= off <= mem.len()
{
    if off == mem.len() {
        Seq::empty()
    } else {
        let h = mem[off];
        if off + 1 + hdr_size(h) <= mem.len() {
            seq![(off, hdr_size(h), hdr_taken(h))] + blocks_from(mem, off + 1 + hdr_size(h))
        } else {
            seq![(off, hdr_size(h), hdr_taken(h))]
        }
    }
}

/// A word region managed as a freelist of header-prefixed blocks.
pub struct Heap {
    mem: Vec<u32>,
}

impl Heap {
    /// The words of the region.
    pub closed spec fn view(&self) -> Seq<u32> {
        self.mem@
    }

    /// The region walks correctly from its first header to its end.
    pub open spec fn wf(&self) -> bool {
        &&& 2 <= self@.len() <= 0x8000
        &&& wf_from(self@, 0, 0, false)
    }

    /// The blocks of the whole region in physical order.
    pub open spec fn blocks(&self) -> Seq<(int, int, bool)> {
        blocks_from(self@, 0)
    }

    /// Size of the region in words.
    pub fn region_words(&self) -> (n: usize)
        ensures
            n == self@.len(),
    {
        self.mem.len()
    }

    /// The word at offset `off`; any word of the region may be read.
    pub fn read_word(&self, off: usize) -> (w: u32)
        requires
            off < self@.len(),
        ensures
            w == self@[off as int],
    {
        self.mem[off]
    }

    /// Initialize the heap over a region of `region_words` words by writing a
    /// single free header that spans the whole region.
    pub fn heap_init(region_words: usize) -> (heap: Heap)
        requires
            2 <= region_words <= 0x8000,
        ensures
            heap.wf(),
            heap@.len() == region_words,
            heap.blocks() =~= seq![(0int, region_words - 1, false)],
    {
        let mut mem: Vec<u32> = Vec::new();
        let mut i: usize = 0;
        while i < region_words
            invariant
                i <= region_words,
                mem@.len() == i,
                forall|j: int| 0 <= j < i ==> mem@[j] == 0u32,
            decreases region_words - i,
        {
            mem.push(0);
            i += 1;
        }
        let size: u32 = (region_words - 1) as u32;
        let h: u32 = size & CUR_SIZE_MASK;
        proof {
            assert(h & CUR_SIZE_MASK == size && h & TAKEN_MASK == 0 && (h >> 16) & CUR_SIZE_MASK == 0)
                by (bit_vector)
                requires h == size & CUR_SIZE_MASK && size < 0x8000;
        }
        mem.set(0, h);
        let heap = Heap { mem };
        proof {
            assert(wf_from(heap@, region_words as int, region_words - 1, true));
            assert(heap.wf());
            assert(blocks_from(heap@, region_words as int) =~= Seq::<(int, int, bool)>::empty());
        }
        heap
    }
}

/// Pack a block header from its fields.
fn pack_hdr(size: u32, prev: u32, taken: bool) -> (h: u32)
    requires
        1 <= size < 0x8000,
        0 <= prev < 0x8000,
    ensures
        hdr_size(h) == size,
        hdr_prev(h) == prev,
        hdr_taken(h) == taken,
{
    let t: u32 = if taken { TAKEN_MASK } else { 0 };
    let h = t | (size & CUR_SIZE_MASK) | ((prev << 16u32) & PREV_SIZE_MASK);
    proof {
        assert((h & CUR_SIZE_MASK) == size && ((h >> 16) & CUR_SIZE_MASK) == prev
            && ((h & TAKEN_MASK != 0) <==> (t == TAKEN_MASK))) by (bit_vector)
            requires
                h == t | (size & CUR_SIZE_MASK) | ((prev << 16u32) & PREV_SIZE_MASK),
                size < 0x8000,
                prev < 0x8000,
                t == TAKEN_MASK || t == 0;
    }
    h
}

/// If two regions of equal length agree word for word from `off` on, they
/// walk alike and carry the same blocks from `off` on.
proof fn lemma_agree_suffix(mem1: Seq<u32>, mem2: Seq<u32>, off: int, prev: int, prev_free: bool)
    requires
        0 <= off <= mem1.len(),
        mem2.len() == mem1.len(),
        forall|j: int| off <= j < mem1.len() ==> mem2[j] == mem1[j],
    ensures
        wf_from(mem1, off, prev, prev_free) == wf_from(mem2, off, prev, prev_free),
        blocks_from(mem1, off) == blocks_from(mem2, off),
    decreases mem1.len() - off,
{
    if off < mem1.len() {
        let h = mem1[off];
        if off + 1 + hdr_size(h) <= mem1.len() {
            lemma_agree_suffix(mem1, mem2, off + 1 + hdr_size(h), hdr_size(h), !hdr_taken(h));
        }
        assert(blocks_from(mem1, off) =~= blocks_from(mem2, off));
    } else {
        assert(blocks_from(mem1, off) =~= blocks_from(mem2, off));
    }
}

/// A free block never ends the walk with room left over, so under `wf_from`
/// the offsets of consecutive blocks chain exactly, each block reflects the
/// header at its offset, the previous-size fields match the predecessor's
/// size, free blocks are never adjacent, and the last block ends exactly at
/// the end of the region.
proof fn lemma_wf_blocks(mem: Seq<u32>, off: int, prev: int, prev_free: bool)
    requires
        0 <= off <= mem.len(),
        wf_from(mem, off, prev, prev_free),
    ensures
        off < mem.len() ==> blocks_from(mem, off).len() >= 1,
        off == mem.len() ==> blocks_from(mem, off).len() == 0,
        blocks_from(mem, off).len() >= 1 ==> blocks_from(mem, off)[0].0 == off,
        blocks_from(mem, off).len() >= 1 ==> {
            let b = blocks_from(mem, off).last();
            b.0 + 1 + b.1 == mem.len()
        },
        forall|i: int| 0 <= i < blocks_from(mem, off).len() ==> {
            let b = #[trigger] blocks_from(mem, off)[i];
            &&& 0 <= b.0 && b.0 + 1 + b.1 <= mem.len()
            &&& 1 <= b.1
            &&& b.1 == hdr_size(mem[b.0])
            &&& b.2 == hdr_taken(mem[b.0])
            &&& hdr_prev(mem[b.0]) == (if i == 0 { prev } else { blocks_from(mem, off)[i - 1].1 })
            &&& (!b.2 ==> (if i == 0 { !prev_free } else { blocks_from(mem, off)[i - 1].2 }))
        },
        forall|i: int| 0 < i < blocks_from(mem, off).len() ==>
            (#[trigger] blocks_from(mem, off)[i]).0
                == blocks_from(mem, off)[i - 1].0 + 1 + blocks_from(mem, off)[i - 1].1,
    decreases mem.len() - off,
{
    if off < mem.len() {
        let h = mem[off];
        let next = off + 1 + hdr_size(h);
        lemma_wf_blocks(mem, next, hdr_size(h), !hdr_taken(h));
        let bs = blocks_from(mem, off);
        let tail = blocks_from(mem, next);
        assert(bs == seq![(off, hdr_size(h), hdr_taken(h))] + tail);
        assert(forall|i: int| 0 < i < bs.len() ==> #[trigger] bs[i] == tail[i - 1]);
        assert(bs.len() >= 1 ==> bs.last().0 + 1 + bs.last().1 == mem.len()) by {
            if tail.len() >= 1 {
                assert(bs.last() == tail.last());
            }
        }
    }
}

/// The header walk that starts at `(off, prev, prev_free)` arrives at
/// `(o, po, fo)` after stepping over exactly `n` blocks.
pub open spec fn reaches(
    mem: Seq<u32>, off: int, prev: int, prev_free: bool, o: int, po: int, fo: bool, n: int,
) -> bool
    decreases n when n >= 0
{
    if n == 0 {
        off == o && prev == po && prev_free == fo
    } else {
        &&& 0 <= off < mem.len()
        &&& reaches(mem, off + 1 + hdr_size(mem[off]), hdr_size(mem[off]), !hdr_taken(mem[off]),
                o, po, fo, n - 1)
    }
}

/// A walk of `n` blocks can be extended by one more block.
proof fn lemma_reaches_snoc(
    mem: Seq<u32>, off: int, prev: int, prev_free: bool, o: int, po: int, fo: bool, n: int,
)
    requires
        n >= 0,
        reaches(mem, off, prev, prev_free, o, po, fo, n),
        0 <= o < mem.len(),
    ensures
        reaches(mem, off, prev, prev_free, o + 1 + hdr_size(mem[o]), hdr_size(mem[o]),
            !hdr_taken(mem[o]), n + 1),
    decreases n,
{
    if n == 0 {
        assert(off == o && prev == po && prev_free == fo);
        assert(reaches(mem, o + 1 + hdr_size(mem[o]), hdr_size(mem[o]), !hdr_taken(mem[o]),
            o + 1 + hdr_size(mem[o]), hdr_size(mem[o]), !hdr_taken(mem[o]), 0));
    } else {
        lemma_reaches_snoc(mem, off + 1 + hdr_size(mem[off]), hdr_size(mem[off]),
            !hdr_taken(mem[off]), o, po, fo, n - 1);
    }
}

/// Walks only move forward; under `wf_from` they stay inside the region.
proof fn lemma_reaches_mono(
    mem: Seq<u32>, off: int, prev: int, prev_free: bool, o: int, po: int, fo: bool, n: int,
)
    requires
        n >= 0,
        reaches(mem, off, prev, prev_free, o, po, fo, n),
        wf_from(mem, off, prev, prev_free),
        0 <= off <= mem.len(),
    ensures
        off <= o <= mem.len(),
        n > 0 ==> off < o,
        wf_from(mem, o, po, fo),
    decreases n,
{
    if n > 0 {
        lemma_reaches_mono(mem, off + 1 + hdr_size(mem[off]), hdr_size(mem[off]),
            !hdr_taken(mem[off]), o, po, fo, n - 1);
    }
}

/// Replacing the suffix of the region from a reached block boundary on
/// preserves the walk of the prefix: if the new suffix walks correctly with
/// the same carried-in sizes, the whole region walks correctly, and its
/// blocks are the old blocks before the boundary followed by the new suffix's
/// blocks.
proof fn lemma_replace_suffix(
    mem1: Seq<u32>, mem2: Seq<u32>, off: int, prev: int, prev_free: bool,
    o: int, po: int, fo: bool, n: int,
)
    requires
        n >= 0,
        0 <= off <= mem1.len(),
        wf_from(mem1, off, prev, prev_free),
        reaches(mem1, off, prev, prev_free, o, po, fo, n),
        mem2.len() == mem1.len(),
        forall|j: int| off <= j < o ==> mem2[j] == mem1[j],
        wf_from(mem2, o, po, fo),
    ensures
        wf_from(mem2, off, prev, prev_free),
        blocks_from(mem1, off).len() >= n,
        blocks_from(mem2, off) == blocks_from(mem1, off).take(n) + blocks_from(mem2, o),
    decreases n,
{
    lemma_reaches_mono(mem1, off, prev, prev_free, o, po, fo, n);
    if n == 0 {
        assert(blocks_from(mem2, off) =~= blocks_from(mem1, off).take(0) + blocks_from(mem2, o));
    } else {
        let h = mem1[off];
        let next = off + 1 + hdr_size(h);
        lemma_reaches_mono(mem1, next, hdr_size(h), !hdr_taken(h), o, po, fo, n - 1);
        lemma_replace_suffix(mem1, mem2, next, hdr_size(h), !hdr_taken(h), o, po, fo, n - 1);
        assert(mem2[off] == mem1[off]);
        let bs1 = blocks_from(mem1, off);
        let tail1 = blocks_from(mem1, next);
        assert(bs1 == seq![(off, hdr_size(h), hdr_taken(h))] + tail1);
        assert(blocks_from(mem2, off)
            == seq![(off, hdr_size(h), hdr_taken(h))] + blocks_from(mem2, next));
        assert(bs1.take(n) =~= seq![(off, hdr_size(h), hdr_taken(h))] + tail1.take(n - 1));
        assert(blocks_from(mem2, off) =~= bs1.take(n) + blocks_from(mem2, o));
    }
}

/// Each block offset is reached by the walk, stepping over as many blocks as
/// its index, carrying its predecessor's size and free flag.
proof fn lemma_blocks_reaches(mem: Seq<u32>, off: int, prev: int, prev_free: bool)
    requires
        0 <= off <= mem.len(),
        wf_from(mem, off, prev, prev_free),
    ensures
        forall|i: int| #![trigger blocks_from(mem, off)[i]]
            0 <= i < blocks_from(mem, off).len() ==> {
                let bs = blocks_from(mem, off);
                reaches(mem, off, prev, prev_free, bs[i].0,
                    if i == 0 { prev } else { bs[i - 1].1 },
                    if i == 0 { prev_free } else { !bs[i - 1].2 },
                    i)
            },
    decreases mem.len() - off,
{
    if off < mem.len() {
        let h = mem[off];
        let next = off + 1 + hdr_size(h);
        lemma_blocks_reaches(mem, next, hdr_size(h), !hdr_taken(h));
        let bs = blocks_from(mem, off);
        let tail = blocks_from(mem, next);
        assert(bs == seq![(off, hdr_size(h), hdr_taken(h))] + tail);
        assert forall|i: int| #![trigger bs[i]] 0 <= i < bs.len() implies {
            reaches(mem, off, prev, prev_free, bs[i].0,
                if i == 0 { prev } else { bs[i - 1].1 },
                if i == 0 { prev_free } else { !bs[i - 1].2 },
                i)
        } by {
            if i > 0 {
                assert(bs[i] == tail[i - 1]);
                if i == 1 {
                    assert(bs[0] == (off, hdr_size(h), hdr_taken(h)));
                } else {
                    assert(bs[i - 1] == tail[i - 2]);
                }
                assert(reaches(mem, next, hdr_size(h), !hdr_taken(h), bs[i].0,
                    if i == 1 { hdr_size(h) } else { tail[i - 2].1 },
                    if i == 1 { !hdr_taken(h) } else { !tail[i - 2].2 },
                    i - 1));
            }
        }
    }
}

/// Words the region requires for `size` requested bytes, rounded up to whole
/// words.
pub open spec fn need_words(size: u32) -> int {
    (size + 3) as int / 4
}

/// An allocation of `size` bytes cannot be served: the request is zero or
/// oversize, or no free block holds enough words.
pub open spec fn no_fit(mem: Seq<u32>, size: u32) -> bool {
    ||| size == 0
    ||| size > MAX_BLOCK_SIZE
    ||| forall|j: int| 0 <= j < blocks_from(mem, 0).len()
            ==> ((#[trigger] blocks_from(mem, 0)[j]).2
                || blocks_from(mem, 0)[j].1 < need_words(size))
}

/// `o` is the offset of some block header of the region.
pub open spec fn is_block_offset(mem: Seq<u32>, o: int) -> bool {
    exists|i: int| 0 <= i < blocks_from(mem, 0).len() && (#[trigger] blocks_from(mem, 0)[i]).0 == o
}

impl Heap {
    /// First-fit scan: the offset of the first free block whose payload holds
    /// at least `need` words, together with the walk state that reached it,
    /// or nothing when no free block fits.
    fn find_fit(&self, need: u32) -> (r: Option<(usize, Ghost<(int, bool, int)>)>)
        requires
            self.wf(),
            1 <= need <= 0x8000,
        ensures
            r is None ==> forall|j: int| 0 <= j < self.blocks().len()
                ==> ((#[trigger] self.blocks()[j]).2 || self.blocks()[j].1 < need),
            r matches Some((off, g)) ==> {
                let (gprev, gpfree, gi) = g@;
                &&& 0 <= gi < self.blocks().len()
                &&& off < self@.len()
                &&& self.blocks()[gi] == ((off as int), hdr_size(self@[off as int]), false)
                &&& hdr_size(self@[off as int]) >= need
                &&& !hdr_taken(self@[off as int])
                &&& gprev == hdr_prev(self@[off as int])
                &&& !gpfree
                &&& wf_from(self@, off as int, gprev, gpfree)
                &&& reaches(self@, 0, 0, false, off as int, gprev, gpfree, gi)
                &&& blocks_from(self@, off as int) == self.blocks().skip(gi)
                &&& forall|j: int| 0 <= j < gi ==> ((#[trigger] self.blocks()[j]).2
                        || self.blocks()[j].1 < need)
            },
    {
        let len = self.mem.len();
        let ghost mem0 = self@;
        let mut off: usize = 0;
        let ghost mut gprev: int = 0;
        let ghost mut gpfree: bool = false;
        let ghost mut gi: int = 0;
        proof {
            assert(blocks_from(mem0, 0).skip(0) =~= blocks_from(mem0, 0));
        }
        while off < len
            invariant
                self.wf(),
                len == mem0.len(),
                mem0 == self@,
                0 <= off <= len,
                0 <= gi <= blocks_from(mem0, 0).len(),
                wf_from(mem0, off as int, gprev, gpfree),
                reaches(mem0, 0, 0, false, off as int, gprev, gpfree, gi),
                blocks_from(mem0, off as int) == blocks_from(mem0, 0).skip(gi),
                forall|j: int| 0 <= j < gi ==> ((#[trigger] blocks_from(mem0, 0)[j]).2
                    || blocks_from(mem0, 0)[j].1 < need),
            decreases len - off,
        {
            let h = self.mem[off];
            let bsize: u32 = h & CUR_SIZE_MASK;
            let taken: bool = h & TAKEN_MASK != 0;
            let ghost bs0 = blocks_from(mem0, 0);
            proof {
                assert(bsize == hdr_size(h) && taken == hdr_taken(h));
                assert(blocks_from(mem0, off as int)[0]
                    == ((off as int), hdr_size(h), hdr_taken(h)));
                assert(blocks_from(mem0, off as int).len() >= 1);
                assert(bs0.skip(gi).len() == bs0.len() - gi);
                assert(gi < bs0.len());
                assert(bs0[gi] == bs0.skip(gi)[0]);
            }
            if !taken && bsize >= need {
                proof {
                    assert(hdr_prev(h) < 0x8000) by (bit_vector);
                }
                return Some((off, Ghost((gprev, gpfree, gi))));
            }
            proof {
                let next = off as int + 1 + bsize;
                lemma_reaches_snoc(mem0, 0, 0, false, off as int, gprev, gpfree, gi);
                assert(blocks_from(mem0, off as int)
                    == seq![((off as int), hdr_size(h), hdr_taken(h))]
                        + blocks_from(mem0, next));
                assert(blocks_from(mem0, next) =~= bs0.skip(gi + 1)) by {
                    assert forall|k: int| 0 <= k < blocks_from(mem0, next).len()
                        implies blocks_from(mem0, next)[k] == bs0[gi + 1 + k] by {
                        assert(blocks_from(mem0, off as int)[k + 1]
                            == blocks_from(mem0, next)[k]);
                        assert(bs0.skip(gi)[k + 1] == bs0[gi + 1 + k]);
                    }
                    assert(forall|k: int| 0 <= k < bs0.len() - (gi + 1)
                        ==> #[trigger] bs0.skip(gi + 1)[k] == bs0[gi + 1 + k]);
                }
                gprev = hdr_size(h);
                gpfree = !hdr_taken(h);
                gi = gi + 1;
            }
            off = off + 1 + (bsize as usize);
        }
        proof {
            assert(blocks_from(mem0, off as int).len() == 0);
            assert(gi == blocks_from(mem0, 0).len());
        }
        None
    }

    /// Allocate at least `size` bytes; returns the word offset just past the
    /// chosen block's header, or nothing when the request is zero, too large,
    /// or no free block fits.
    ///
    /// The chosen block is the first free block large enough (first fit). If
    /// taking what is needed would strand a lone header word, the block is
    /// taken whole; otherwise the tail is split off as a new free block and
    /// the follower's previous-size field is rewritten to match it.
    #[verifier::rlimit(100)]
    #[verifier::spinoff_prover]
    pub fn kmalloc(&mut self, size: u32) -> (r: Option<usize>)
        requires
            old(self).wf(),
        ensures
            final(self).wf(),
            final(self)@.len() == old(self)@.len(),
            r is None ==> final(self)@ == old(self)@,
            r is None <==> no_fit(old(self)@, size),
            r matches Some(p) ==> kmalloc_post_any(old(self)@, final(self)@, size, p as int),
    {
        if size == 0 || size > MAX_BLOCK_SIZE {
            proof {
                assert(no_fit(self@, size));
            }
            return None;
        }
        let need: u32 = (size + 3) / 4;
        let len = self.mem.len();
        let ghost mem0 = self@;
        let found = self.find_fit(need);
        let (off, g) = match found {
            None => {
                proof {
                    assert(no_fit(mem0, size)) by {
                        assert forall|j: int| 0 <= j < blocks_from(mem0, 0).len()
                            implies ((#[trigger] blocks_from(mem0, 0)[j]).2
                                || blocks_from(mem0, 0)[j].1 < need_words(size)) by {
                            assert(self.blocks()[j].2 || self.blocks()[j].1 < need);
                        }
                    }
                }
                return None;
            },
            Some(pair) => pair,
        };
        let ghost (gprev, gpfree, gi) = g@;
        // The block at `off` is free and large enough; take it.
        let h = self.mem[off];
        let bsize: u32 = h & CUR_SIZE_MASK;
        let prev: u32 = (h >> 16u32) & CUR_SIZE_MASK;
        proof {
            assert(bsize == hdr_size(h) && prev == hdr_prev(h) && prev < 0x8000 && bsize < 0x8000)
                by (bit_vector)
                requires bsize == h & CUR_SIZE_MASK && prev == (h >> 16u32) & CUR_SIZE_MASK;
        }
        let tsize: u32 = if bsize == need + 1 { bsize } else { need };
        let new_hdr = pack_hdr(tsize, prev, true);
        self.mem.set(off, new_hdr);
        if bsize > tsize {
            // Split: write the tail's header, then repair the follower's
            // previous-size field.
            let rem: u32 = bsize - tsize - 1;
            let rem_off: usize = off + 1 + (tsize as usize);
            let rem_hdr = pack_hdr(rem, tsize, false);
            self.mem.set(rem_off, rem_hdr);
            let succ: usize = off + 1 + (bsize as usize);
            if succ < len {
                let sh = self.mem[succ];
                let s_size: u32 = sh & CUR_SIZE_MASK;
                let s_taken: bool = sh & TAKEN_MASK != 0;
                proof {
                    assert(self@[succ as int] == mem0[succ as int]);
                    assert(wf_from(mem0, succ as int, bsize as int, true));
                    assert(s_size == hdr_size(mem0[succ as int])
                        && s_taken == hdr_taken(mem0[succ as int]));
                    assert(1 <= s_size);
                }
                let s_hdr = pack_hdr(s_size, rem, s_taken);
                self.mem.set(succ, s_hdr);
            }
            proof {
                kmalloc_finish_split(mem0, self@, off as int, gprev, gpfree, gi,
                    tsize as int, bsize as int, size, off as int + 1);
                assert(kmalloc_post(mem0, self@, size, off as int + 1, gi));
                assert(kmalloc_post_any(mem0, self@, size, off as int + 1));
                assert(!no_fit(mem0, size)) by {
                    assert(!(blocks_from(mem0, 0)[gi].2
                        || blocks_from(mem0, 0)[gi].1 < need_words(size)));
                }
            }
            Some(off + 1)
        } else {
            proof {
                kmalloc_finish_whole(mem0, self@, off as int, gprev, gpfree, gi,
                    tsize as int, bsize as int, size, off as int + 1);
                assert(kmalloc_post(mem0, self@, size, off as int + 1, gi));
                assert(kmalloc_post_any(mem0, self@, size, off as int + 1));
                assert(!no_fit(mem0, size)) by {
                    assert(!(blocks_from(mem0, 0)[gi].2
                        || blocks_from(mem0, 0)[gi].1 < need_words(size)));
                }
            }
            Some(off + 1)
        }
    }
}

/// Some block satisfies `kmalloc_post` as the chosen one.
pub open spec fn kmalloc_post_any(pre: Seq<u32>, post: Seq<u32>, size: u32, p: int) -> bool {
    exists|i: int| kmalloc_post(pre, post, size, p, i)
}

/// What `kmalloc` guarantees when it hands out the payload at `p`: block `i`
/// was the first free block that fits, it is now taken with exactly the words
/// needed (one more when taking them all would strand a lone header word),
/// any split tail follows it as a new free block, all other blocks are
/// untouched, and no word outside the rewritten headers changed.
pub open spec fn kmalloc_post(pre: Seq<u32>, post: Seq<u32>, size: u32, p: int, i: int) -> bool {
    let bs = blocks_from(pre, 0);
    let need = need_words(size);
    &&& 0 <= i < bs.len()
    &&& !bs[i].2
    &&& bs[i].1 >= need
    &&& (forall|j: int| 0 <= j < i ==> ((#[trigger] bs[j]).2 || bs[j].1 < need))
    &&& p == bs[i].0 + 1
    &&& {
        let tsize = if bs[i].1 == need + 1 { bs[i].1 } else { need };
        let rem_off = bs[i].0 + 1 + tsize;
        let succ = bs[i].0 + 1 + bs[i].1;
        if bs[i].1 > tsize {
            &&& blocks_from(post, 0) == bs.take(i)
                + seq![(bs[i].0, tsize, true), (rem_off, bs[i].1 - tsize - 1, false)]
                + bs.skip(i + 1)
            &&& forall|j: int| 0 <= j < post.len() && j != bs[i].0 && j != rem_off && j != succ
                ==> post[j] == pre[j]
        } else {
            &&& blocks_from(post, 0) == bs.take(i) + seq![(bs[i].0, bs[i].1, true)] + bs.skip(i + 1)
            &&& forall|j: int| 0 <= j < post.len() && j != bs[i].0 ==> post[j] == pre[j]
        }
    }
}

/// Dropping the head of `bs0.skip(gi)` yields `bs0.skip(gi + 1)`.
proof fn lemma_skip_unfold(bs0: Seq<(int, int, bool)>, gi: int, head: (int, int, bool), tail: Seq<(int, int, bool)>)
    requires
        0 <= gi < bs0.len(),
        bs0.skip(gi) == seq![head] + tail,
    ensures
        tail == bs0.skip(gi + 1),
{
    let sk = bs0.skip(gi);
    assert(sk.len() == bs0.len() - gi);
    assert(tail.len() == bs0.len() - gi - 1);
    assert(tail =~= bs0.skip(gi + 1)) by {
        assert forall|k: int| 0 <= k < tail.len() implies tail[k] == bs0[gi + 1 + k] by {
            assert(sk[k + 1] == (seq![head] + tail)[k + 1]);
            assert((seq![head] + tail)[k + 1] == tail[k]);
            assert(sk[k + 1] == bs0[gi + 1 + k]);
        }
        assert(forall|k: int| 0 <= k < bs0.len() - (gi + 1)
            ==> #[trigger] bs0.skip(gi + 1)[k] == bs0[gi + 1 + k]);
    }
}

/// Wrap up the allocation proof when the chosen block is taken whole.
proof fn kmalloc_finish_whole(
    mem0: Seq<u32>, mem1: Seq<u32>, off: int, gprev: int, gpfree: bool, gi: int,
    tsize: int, bsize: int, size: u32, p: int,
)
    requires
        2 <= mem0.len() <= 0x8000,
        wf_from(mem0, 0, 0, false),
        0 <= off < mem0.len(),
        wf_from(mem0, off, gprev, gpfree),
        reaches(mem0, 0, 0, false, off, gprev, gpfree, gi),
        0 <= gi,
        blocks_from(mem0, off) == blocks_from(mem0, 0).skip(gi),
        blocks_from(mem0, 0)[gi] == (off, bsize, false),
        gi < blocks_from(mem0, 0).len(),
        forall|j: int| 0 <= j < gi ==> ((#[trigger] blocks_from(mem0, 0)[j]).2
            || blocks_from(mem0, 0)[j].1 < need_words(size)),
        bsize == hdr_size(mem0[off]),
        !hdr_taken(mem0[off]),
        gprev == hdr_prev(mem0[off]),
        !gpfree,
        tsize == bsize,
        bsize >= need_words(size) >= 1,
        tsize == if bsize == need_words(size) + 1 { bsize } else { need_words(size) },
        mem1.len() == mem0.len(),
        hdr_size(mem1[off]) == tsize,
        hdr_prev(mem1[off]) == gprev,
        hdr_taken(mem1[off]),
        forall|j: int| 0 <= j < mem0.len() && j != off ==> mem1[j] == mem0[j],
        p == off + 1,
    ensures
        wf_from(mem1, 0, 0, false),
        kmalloc_post(mem0, mem1, size, p, gi),
{
    let next = off + 1 + bsize;
    lemma_agree_suffix(mem0, mem1, next, bsize, true);
    assert(wf_from(mem1, next, bsize, false)) by {
        assert(wf_from(mem1, next, bsize, true));
        if next < mem1.len() {
            assert(wf_from(mem1, next + 1 + hdr_size(mem1[next]), hdr_size(mem1[next]),
                !hdr_taken(mem1[next])));
        }
    }
    assert(wf_from(mem1, off, gprev, gpfree));
    lemma_replace_suffix(mem0, mem1, 0, 0, false, off, gprev, gpfree, gi);
    let bs0 = blocks_from(mem0, 0);
    assert(blocks_from(mem1, off) == seq![(off, tsize, true)] + blocks_from(mem1, next));
    assert(blocks_from(mem1, next) == blocks_from(mem0, next));
    assert(blocks_from(mem0, off) == seq![(off, bsize, false)] + blocks_from(mem0, next));
    lemma_skip_unfold(bs0, gi, (off, bsize, false), blocks_from(mem0, next));
    assert(blocks_from(mem1, 0) =~= bs0.take(gi) + seq![(off, bsize, true)] + bs0.skip(gi + 1));
}

/// Wrap up the allocation proof when the chosen block is split.
proof fn kmalloc_finish_split(
    mem0: Seq<u32>, mem1: Seq<u32>, off: int, gprev: int, gpfree: bool, gi: int,
    tsize: int, bsize: int, size: u32, p: int,
)
    requires
        2 <= mem0.len() <= 0x8000,
        wf_from(mem0, 0, 0, false),
        0 <= off < mem0.len(),
        wf_from(mem0, off, gprev, gpfree),
        reaches(mem0, 0, 0, false, off, gprev, gpfree, gi),
        0 <= gi,
        blocks_from(mem0, off) == blocks_from(mem0, 0).skip(gi),
        blocks_from(mem0, 0)[gi] == (off, bsize, false),
        gi < blocks_from(mem0, 0).len(),
        forall|j: int| 0 <= j < gi ==> ((#[trigger] blocks_from(mem0, 0)[j]).2
            || blocks_from(mem0, 0)[j].1 < need_words(size)),
        bsize == hdr_size(mem0[off]),
        !hdr_taken(mem0[off]),
        gprev == hdr_prev(mem0[off]),
        !gpfree,
        bsize > tsize,
        bsize >= need_words(size) >= 1,
        tsize == if bsize == need_words(size) + 1 { bsize } else { need_words(size) },
        mem1.len() == mem0.len(),
        hdr_size(mem1[off]) == tsize,
        hdr_prev(mem1[off]) == gprev,
        hdr_taken(mem1[off]),
        hdr_size(mem1[off + 1 + tsize]) == bsize - tsize - 1,
        hdr_prev(mem1[off + 1 + tsize]) == tsize,
        !hdr_taken(mem1[off + 1 + tsize]),
        off + 1 + bsize < mem0.len() ==> {
            let succ = off + 1 + bsize;
            &&& hdr_size(mem1[succ]) == hdr_size(mem0[succ])
            &&& hdr_taken(mem1[succ]) == hdr_taken(mem0[succ])
            &&& hdr_prev(mem1[succ]) == bsize - tsize - 1
        },
        forall|j: int| 0 <= j < mem0.len() && j != off && j != off + 1 + tsize
            && j != off + 1 + bsize ==> mem1[j] == mem0[j],
        p == off + 1,
    ensures
        wf_from(mem1, 0, 0, false),
        kmalloc_post(mem0, mem1, size, p, gi),
{
    let rem_off = off + 1 + tsize;
    let rem = bsize - tsize - 1;
    let succ = off + 1 + bsize;
    assert(wf_from(mem0, succ, bsize, true));
    assert(1 <= rem);
    // Walk of the new suffix: taken block, free tail, then the old follower.
    if succ < mem0.len() {
        let succ2 = succ + 1 + hdr_size(mem0[succ]);
        assert(hdr_taken(mem0[succ]));
        assert(wf_from(mem0, succ2, hdr_size(mem0[succ]), !hdr_taken(mem0[succ])));
        lemma_agree_suffix(mem0, mem1, succ2, hdr_size(mem0[succ]), !hdr_taken(mem0[succ]));
        assert(wf_from(mem1, succ, rem, true));
        assert(blocks_from(mem1, succ) == blocks_from(mem0, succ)) by {
            assert(blocks_from(mem1, succ2) == blocks_from(mem0, succ2));
            assert(blocks_from(mem1, succ)
                == seq![(succ, hdr_size(mem1[succ]), hdr_taken(mem1[succ]))]
                    + blocks_from(mem1, succ2));
            assert(blocks_from(mem0, succ)
                == seq![(succ, hdr_size(mem0[succ]), hdr_taken(mem0[succ]))]
                    + blocks_from(mem0, succ2));
        }
    } else {
        assert(wf_from(mem1, succ, rem, true));
        assert(blocks_from(mem1, succ) =~= blocks_from(mem0, succ));
    }
    assert(wf_from(mem1, rem_off, tsize, false));
    assert(wf_from(mem1, off, gprev, gpfree));
    lemma_replace_suffix(mem0, mem1, 0, 0, false, off, gprev, gpfree, gi);
    let bs0 = blocks_from(mem0, 0);
    assert(rem_off + 1 + rem == succ && succ <= mem1.len());
    assert(blocks_from(mem1, rem_off) == seq![(rem_off, rem, false)] + blocks_from(mem1, succ));
    assert(blocks_from(mem1, off) == seq![(off, tsize, true)] + blocks_from(mem1, rem_off));
    assert(blocks_from(mem0, off) == seq![(off, bsize, false)] + blocks_from(mem0, succ));
    lemma_skip_unfold(bs0, gi, (off, bsize, false), blocks_from(mem0, succ));
    assert(blocks_from(mem1, 0) =~= bs0.take(gi)
        + seq![(off, tsize, true), (rem_off, rem, false)] + bs0.skip(gi + 1));
}

/// Dropping a prefix equal to `bs.take(n)` leaves `bs.skip(n)`.
proof fn lemma_take_skip(bs: Seq<(int, int, bool)>, n: int, tail: Seq<(int, int, bool)>)
    requires
        0 <= n <= bs.len(),
        bs == bs.take(n) + tail,
    ensures
        tail == bs.skip(n),
{
    assert(tail =~= bs.skip(n)) by {
        assert(bs.take(n).len() == n);
        assert forall|k: int| 0 <= k < tail.len() implies tail[k] == bs[n + k] by {
            assert((bs.take(n) + tail)[n + k] == tail[k]);
        }
        assert(forall|k: int| 0 <= k < bs.len() - n ==> #[trigger] bs.skip(n)[k] == bs[n + k]);
    }
}

/// What `kfree` guarantees when it frees the taken block whose payload starts
/// at `ptr`: the freed block and its free physical neighbours become one free
/// block spanning their joint extent, all other blocks are untouched, and no
/// word changed outside the freed block's header, the merged predecessor's
/// header, and the follower's header.
pub open spec fn kfree_post(pre: Seq<u32>, post: Seq<u32>, ptr: int) -> bool {
    let bs = blocks_from(pre, 0);
    exists|i: int| {
        let lo = if i > 0 && !bs[i - 1].2 { i - 1 } else { i };
        let hi = if i + 1 < bs.len() && !bs[i + 1].2 { i + 2 } else { i + 1 };
        let end = if hi < bs.len() { bs[hi].0 } else { pre.len() as int };
        &&& 0 <= i < bs.len()
        &&& (#[trigger] bs[i]).0 == ptr - 1
        &&& bs[i].2
        &&& blocks_from(post, 0) == bs.take(lo) + seq![(bs[lo].0, end - bs[lo].0 - 1, false)]
            + bs.skip(hi)
        &&& forall|j: int| 0 <= j < post.len() && j != ptr - 1 && j != bs[lo].0 && j != end
            ==> post[j] == pre[j]
    }
}

impl Heap {
    /// Whether `ptr` is the payload offset of some block of the region, taken
    /// or free; `kfree` accepts exactly these pointers (and ignores
    /// out-of-range ones).
    pub fn is_block_start(&self, ptr: usize) -> (r: bool)
        requires
            self.wf(),
        ensures
            r <==> (1 <= ptr < self@.len() && is_block_offset(self@, ptr - 1)),
    {
        if ptr == 0 || ptr >= self.mem.len() {
            return false;
        }
        let len = self.mem.len();
        let ghost mem0 = self@;
        let mut off: usize = 0;
        let ghost mut gprev: int = 0;
        let ghost mut gpfree: bool = false;
        let ghost mut gi: int = 0;
        proof {
            lemma_wf_blocks(mem0, 0, 0, false);
            assert(blocks_from(mem0, 0).skip(0) =~= blocks_from(mem0, 0));
        }
        while off < ptr - 1
            invariant
                self.wf(),
                len == mem0.len(),
                mem0 == self@,
                1 <= ptr < len,
                0 <= off <= len,
                0 <= gi <= blocks_from(mem0, 0).len(),
                wf_from(mem0, off as int, gprev, gpfree),
                blocks_from(mem0, off as int) == blocks_from(mem0, 0).skip(gi),
                forall|j: int| 0 <= j < gi ==> (#[trigger] blocks_from(mem0, 0)[j]).0 < ptr - 1,
            decreases len - off,
        {
            let h = self.mem[off];
            let bsize: u32 = h & CUR_SIZE_MASK;
            let ghost bs0 = blocks_from(mem0, 0);
            proof {
                assert(bsize == hdr_size(h));
                assert(blocks_from(mem0, off as int)[0]
                    == ((off as int), hdr_size(h), hdr_taken(h)));
                assert(blocks_from(mem0, off as int).len() >= 1);
                assert(bs0.skip(gi).len() == bs0.len() - gi);
                assert(gi < bs0.len());
                assert(bs0[gi] == bs0.skip(gi)[0]);
                assert(blocks_from(mem0, off as int)
                    == seq![((off as int), hdr_size(h), hdr_taken(h))]
                        + blocks_from(mem0, off as int + 1 + bsize));
                lemma_skip_unfold(bs0, gi, ((off as int), hdr_size(h), hdr_taken(h)),
                    blocks_from(mem0, off as int + 1 + bsize));
                gprev = hdr_size(h);
                gpfree = !hdr_taken(h);
                gi = gi + 1;
            }
            off = off + 1 + (bsize as usize);
        }
        proof {
            lemma_wf_blocks(mem0, 0, 0, false);
            if off == ptr - 1 {
                assert(blocks_from(mem0, off as int)[0].0 == off as int);
                assert(blocks_from(mem0, off as int).len() >= 1);
                assert(blocks_from(mem0, 0)[gi] == blocks_from(mem0, 0).skip(gi)[0]);
                assert(is_block_offset(mem0, ptr - 1));
            } else {
                assert(off > ptr - 1);
                assert forall|j: int| 0 <= j < blocks_from(mem0, 0).len()
                    implies (#[trigger] blocks_from(mem0, 0)[j]).0 != ptr - 1 by {
                    if j >= gi {
                        let bs0 = blocks_from(mem0, 0);
                        assert(bs0.skip(gi)[j - gi] == bs0[j]);
                        lemma_blocks_nondecreasing(mem0, off as int, gprev, gpfree, j - gi);
                        assert(bs0[j].0 >= off as int);
                    }
                }
            }
        }
        off == ptr - 1
    }

    /// Free the block whose payload starts at word `ptr`: clear its taken
    /// flag, absorb a free physical successor and a free physical predecessor
    /// into one block, and repair the follower's previous-size field. An
    /// out-of-range pointer is ignored with a false return; freeing an
    /// already-free block changes nothing.
    #[verifier::rlimit(100)]
    #[verifier::spinoff_prover]
    pub fn kfree(&mut self, ptr: usize) -> (r: bool)
        requires
            old(self).wf(),
            1 <= ptr < old(self)@.len() ==> is_block_offset(old(self)@, ptr - 1),
        ensures
            final(self).wf(),
            final(self)@.len() == old(self)@.len(),
            r <==> 1 <= ptr < old(self)@.len(),
            !(1 <= ptr < old(self)@.len()) ==> final(self)@ == old(self)@,
            1 <= ptr < old(self)@.len() && !hdr_taken(old(self)@[ptr - 1])
                ==> final(self)@ == old(self)@,
            1 <= ptr < old(self)@.len() && hdr_taken(old(self)@[ptr - 1])
                ==> kfree_post(old(self)@, final(self)@, ptr as int),
    {
        let len = self.mem.len();
        if ptr == 0 || ptr >= len {
            return false;
        }
        let o: usize = ptr - 1;
        let ghost mem0 = self@;
        let ghost bs = blocks_from(mem0, 0);
        let ghost i = choose|i: int| 0 <= i < bs.len() && (#[trigger] bs[i]).0 == o as int;
        proof {
            lemma_block_fact(mem0, i);
            if i > 0 {
                lemma_block_fact(mem0, i - 1);
            }
            assert(bs[i] == ((o as int), hdr_size(mem0[o as int]), hdr_taken(mem0[o as int])));
        }
        let h = self.mem[o];
        let mut size: u32 = h & CUR_SIZE_MASK;
        let prev: u32 = (h >> 16u32) & CUR_SIZE_MASK;
        let taken: bool = h & TAKEN_MASK != 0;
        proof {
            assert(size == hdr_size(h) && prev == hdr_prev(h) && size < 0x8000 && prev < 0x8000)
                by (bit_vector)
                requires size == h & CUR_SIZE_MASK && prev == (h >> 16u32) & CUR_SIZE_MASK;
        }
        if !taken {
            return true;
        }
        // Clear the taken flag.
        self.mem.set(o, pack_hdr(size, prev, false));
        // Absorb a free successor.
        let next: usize = o + 1 + (size as usize);
        let ghost mut merged_down = false;
        proof {
            if i + 1 < bs.len() {
                lemma_block_fact(mem0, i + 1);
                assert(bs[i + 1].0 == next as int && bs[i + 1].0 + 1 + bs[i + 1].1 <= len);
            } else {
                assert(bs[i].0 + 1 + bs[i].1 == len);
            }
        }
        if next < len {
            let nh = self.mem[next];
            let n_size: u32 = nh & CUR_SIZE_MASK;
            proof {
                assert(self@[next as int] == mem0[next as int]);
                assert(n_size == hdr_size(nh) && n_size < 0x8000) by (bit_vector)
                    requires n_size == nh & CUR_SIZE_MASK;
                assert(i + 1 < bs.len());
                assert(bs[i + 1] == ((next as int), hdr_size(mem0[next as int]),
                    hdr_taken(mem0[next as int])));
            }
            if nh & TAKEN_MASK == 0 {
                proof {
                    if i + 2 < bs.len() {
                        lemma_block_fact(mem0, i + 2);
                        assert(bs[i + 2].0 == next + 1 + bs[i + 1].1
                            && bs[i + 2].0 + 1 + bs[i + 2].1 <= len);
                    } else {
                        assert(bs[i + 1].0 + 1 + bs[i + 1].1 == len);
                    }
                    assert(o + 1 + (size + n_size + 1) <= len);
                }
                size = size + n_size + 1;
                self.mem.set(o, pack_hdr(size, prev, false));
                proof {
                    merged_down = true;
                }
            }
        }
        // Absorb a free predecessor.
        let mut base: usize = o;
        let mut msize: u32 = size;
        let ghost mut merged_up = false;
        let ghost mut bprev: int = prev as int;
        proof {
            if prev == 0 {
                assert(i == 0) by {
                    assert(hdr_prev(mem0[bs[i].0]) == (if i == 0 { 0int } else { bs[i - 1].1 }));
                    if i > 0 {
                        assert(bs[i - 1].1 >= 1);
                    }
                }
            }
        }
        if prev != 0 {
            proof {
                assert(i > 0) by {
                    assert(hdr_prev(mem0[bs[i].0]) == (if i == 0 { 0int } else { bs[i - 1].1 }));
                }
                assert(bs[i - 1].1 == prev as int);
                assert(bs[i].0 == bs[i - 1].0 + 1 + bs[i - 1].1);
            }
            let po: usize = o - (prev as usize) - 1;
            let ph = self.mem[po];
            proof {
                assert(po as int == bs[i - 1].0);
                assert(self@[po as int] == mem0[po as int]);
                assert(ph & TAKEN_MASK == 0 <==> !hdr_taken(ph)) by (bit_vector);
            }
            if ph & TAKEN_MASK == 0 {
                let p_prev: u32 = (ph >> 16u32) & CUR_SIZE_MASK;
                proof {
                    assert(p_prev == hdr_prev(ph) && p_prev < 0x8000) by (bit_vector)
                        requires p_prev == (ph >> 16u32) & CUR_SIZE_MASK;
                    assert(po + 1 + (prev + size + 1) == o + 1 + size <= len);
                }
                base = po;
                msize = prev + size + 1;
                self.mem.set(po, pack_hdr(msize, p_prev, false));
                proof {
                    merged_up = true;
                    bprev = p_prev as int;
                }
            }
        }
        // Repair the follower's previous-size field.
        let succ: usize = base + 1 + (msize as usize);
        if succ < len {
            let sh = self.mem[succ];
            let s_size: u32 = sh & CUR_SIZE_MASK;
            let s_taken: bool = sh & TAKEN_MASK != 0;
            proof {
                assert(self@[succ as int] == mem0[succ as int]);
                assert(s_size == hdr_size(sh) && s_size < 0x8000
                    && (s_taken <==> hdr_taken(sh))) by (bit_vector)
                    requires s_size == sh & CUR_SIZE_MASK && s_taken == (sh & TAKEN_MASK != 0);
                kfree_succ_facts(mem0, bs, i, o as int, base as int, msize as int,
                    merged_down, merged_up);
                assert(1 <= s_size);
            }
            let s_hdr = pack_hdr(s_size, msize, s_taken);
            self.mem.set(succ, s_hdr);
        }
        proof {
            kfree_finish(mem0, self@, bs, i, o as int, base as int, msize as int, bprev,
                merged_down, merged_up, ptr as int);
        }
        true
    }
}

/// Blocks later in the walk never sit at earlier offsets.
proof fn lemma_blocks_nondecreasing(mem: Seq<u32>, off: int, prev: int, prev_free: bool, j: int)
    requires
        0 <= off <= mem.len(),
        wf_from(mem, off, prev, prev_free),
        0 <= j < blocks_from(mem, off).len(),
    ensures
        blocks_from(mem, off)[j].0 >= off,
    decreases j,
{
    lemma_wf_blocks(mem, off, prev, prev_free);
    if j > 0 {
        lemma_blocks_nondecreasing(mem, off, prev, prev_free, j - 1);
    }
}

/// The facts `wf_from` gives about one block of the region, at index `j` of
/// the block list, without quantifiers.
pub proof fn lemma_block_fact(mem: Seq<u32>, j: int)
    requires
        0 <= mem.len(),
        wf_from(mem, 0, 0, false),
        0 <= j < blocks_from(mem, 0).len(),
    ensures
        ({
            let bs = blocks_from(mem, 0);
            let b = bs[j];
            &&& 0 <= b.0 && b.0 + 1 + b.1 <= mem.len()
            &&& 1 <= b.1
            &&& b.1 == hdr_size(mem[b.0])
            &&& b.2 == hdr_taken(mem[b.0])
            &&& (j == 0 ==> b.0 == 0)
            &&& (j > 0 ==> b.0 == bs[j - 1].0 + 1 + bs[j - 1].1)
            &&& hdr_prev(mem[b.0]) == (if j == 0 { 0int } else { bs[j - 1].1 })
            &&& (!b.2 ==> (j == 0 || bs[j - 1].2))
            &&& (j + 1 == bs.len() ==> b.0 + 1 + b.1 == mem.len())
            &&& reaches(mem, 0, 0, false, b.0, if j == 0 { 0int } else { bs[j - 1].1 },
                    if j == 0 { false } else { !bs[j - 1].2 }, j)
            &&& wf_from(mem, b.0, if j == 0 { 0int } else { bs[j - 1].1 },
                    if j == 0 { false } else { !bs[j - 1].2 })
        }),
{
    lemma_wf_blocks(mem, 0, 0, false);
    lemma_blocks_reaches(mem, 0, 0, false);
    let bs = blocks_from(mem, 0);
    let b = bs[j];
    lemma_reaches_mono(mem, 0, 0, false, b.0, if j == 0 { 0int } else { bs[j - 1].1 },
        if j == 0 { false } else { !bs[j - 1].2 }, j);
}

/// Shared shape of the freed extent: relates the merged block's base and size
/// to the surrounding entries of the block list.
spec fn kfree_shape(
    mem0: Seq<u32>, bs: Seq<(int, int, bool)>, i: int, o: int, base: int, msize: int,
    merged_down: bool, merged_up: bool,
) -> bool {
    &&& 2 <= mem0.len() <= 0x8000
    &&& wf_from(mem0, 0, 0, false)
    &&& bs == blocks_from(mem0, 0)
    &&& 0 <= i < bs.len()
    &&& bs[i].0 == o
    &&& bs[i].2
    &&& (merged_down <==> (i + 1 < bs.len() && !bs[i + 1].2))
    &&& (merged_up ==> i > 0 && !bs[i - 1].2 && base == bs[i - 1].0)
    &&& (!merged_up ==> base == o && (i == 0 || bs[i - 1].2))
    &&& {
        let size2 = if merged_down { bs[i].1 + bs[i + 1].1 + 1 } else { bs[i].1 };
        msize == if merged_up { bs[i - 1].1 + size2 + 1 } else { size2 }
    }
}

/// The word just past the merged extent is the follower block's header (or
/// the end of the region), and that follower is taken.
#[verifier::rlimit(100)]
#[verifier::spinoff_prover]
proof fn kfree_succ_facts(
    mem0: Seq<u32>, bs: Seq<(int, int, bool)>, i: int, o: int, base: int, msize: int,
    merged_down: bool, merged_up: bool,
)
    requires
        kfree_shape(mem0, bs, i, o, base, msize, merged_down, merged_up),
    ensures
        ({
            let hi = if i + 1 < bs.len() && !bs[i + 1].2 { i + 2 } else { i + 1 };
            let end = if hi < bs.len() { bs[hi].0 } else { mem0.len() as int };
            &&& base + 1 + msize == end
            &&& 1 <= msize
            &&& base + 1 + msize <= mem0.len()
            &&& (end < mem0.len() ==> hi < bs.len() && bs[hi].0 == end && bs[hi].2
                && bs[hi].1 == hdr_size(mem0[end]) && 1 <= hdr_size(mem0[end])
                && hdr_taken(mem0[end]))
        }),
{
    lemma_block_fact(mem0, i);
    let hi = if i + 1 < bs.len() && !bs[i + 1].2 { i + 2 } else { i + 1 };
    let end = if hi < bs.len() { bs[hi].0 } else { mem0.len() as int };
    if merged_down {
        lemma_block_fact(mem0, i + 1);
        assert(bs[i + 1].0 == bs[i].0 + 1 + bs[i].1);
        if i + 2 < bs.len() {
            lemma_block_fact(mem0, i + 2);
            assert(bs[i + 2].0 == bs[i + 1].0 + 1 + bs[i + 1].1);
            assert(bs[i + 2].2) by {
                assert(!bs[i + 2].2 ==> bs[i + 1].2);
            }
        } else {
            assert(bs[i + 1].0 + 1 + bs[i + 1].1 == mem0.len());
        }
    } else {
        if i + 1 < bs.len() {
            lemma_block_fact(mem0, i + 1);
            assert(bs[i + 1].0 == bs[i].0 + 1 + bs[i].1);
            assert(bs[i + 1].2);
        } else {
            assert(bs[i].0 + 1 + bs[i].1 == mem0.len());
        }
    }
    if merged_up {
        lemma_block_fact(mem0, i - 1);
        assert(bs[i].0 == bs[i - 1].0 + 1 + bs[i - 1].1);
    }
}

/// Wrap up the free proof: the merged free block walks correctly in place of
/// the freed block and its absorbed neighbours, and every other block stays.
#[verifier::rlimit(100)]
#[verifier::spinoff_prover]
proof fn kfree_finish(
    mem0: Seq<u32>, mem1: Seq<u32>, bs: Seq<(int, int, bool)>, i: int, o: int, base: int,
    msize: int, bprev: int, merged_down: bool, merged_up: bool, ptr: int,
)
    requires
        kfree_shape(mem0, bs, i, o, base, msize, merged_down, merged_up),
        ptr == o + 1,
        bprev == hdr_prev(mem0[base]),
        mem1.len() == mem0.len(),
        hdr_size(mem1[base]) == msize,
        hdr_prev(mem1[base]) == bprev,
        !hdr_taken(mem1[base]),
        base + 1 + msize < mem0.len() ==> {
            let succ = base + 1 + msize;
            &&& hdr_size(mem1[succ]) == hdr_size(mem0[succ])
            &&& hdr_taken(mem1[succ]) == hdr_taken(mem0[succ])
            &&& hdr_prev(mem1[succ]) == msize
        },
        forall|j: int| 0 <= j < mem0.len() && j != o && j != base && j != base + 1 + msize
            ==> mem1[j] == mem0[j],
    ensures
        wf_from(mem1, 0, 0, false),
        kfree_post(mem0, mem1, ptr),
{
    kfree_succ_facts(mem0, bs, i, o, base, msize, merged_down, merged_up);
    lemma_block_fact(mem0, i);
    if i > 0 {
        lemma_block_fact(mem0, i - 1);
    }
    if i > 1 {
        lemma_block_fact(mem0, i - 2);
    }
    let lo = if i > 0 && !bs[i - 1].2 { i - 1 } else { i };
    let hi = if i + 1 < bs.len() && !bs[i + 1].2 { i + 2 } else { i + 1 };
    let end = if hi < bs.len() { bs[hi].0 } else { mem0.len() as int };
    let succ = base + 1 + msize;
    assert(succ == end);
    assert(base == bs[lo].0);
    // The walk state carried into the merged block.
    lemma_block_fact(mem0, lo);
    let pb = if lo == 0 { 0int } else { bs[lo - 1].1 };
    assert(hdr_prev(mem0[bs[lo].0]) == pb);
    assert(bprev == pb);
    let fb = if lo == 0 { false } else { !bs[lo - 1].2 };
    assert(!fb) by {
        if lo > 0 {
            if merged_up {
                assert(!bs[i - 1].2 ==> (i - 1 == 0 || bs[i - 2].2));
            }
        }
    }
    // The new suffix from the merged block on.
    if succ < mem0.len() {
        assert(bs[hi].0 == succ && bs[hi].2);
        lemma_block_fact(mem0, hi);
        let p_hi = if hi == 0 { 0int } else { bs[hi - 1].1 };
        let f_hi = if hi == 0 { false } else { !bs[hi - 1].2 };
        assert(reaches(mem0, 0, 0, false, bs[hi].0, p_hi, f_hi, hi));
        assert(wf_from(mem0, succ, p_hi, f_hi));
        let succ2 = succ + 1 + hdr_size(mem0[succ]);
        assert(wf_from(mem0, succ2, hdr_size(mem0[succ]), !hdr_taken(mem0[succ])));
        lemma_agree_suffix(mem0, mem1, succ2, hdr_size(mem0[succ]), !hdr_taken(mem0[succ]));
        assert(wf_from(mem1, succ, msize, true));
        assert(blocks_from(mem1, succ) == blocks_from(mem0, succ)) by {
            assert(blocks_from(mem1, succ2) == blocks_from(mem0, succ2));
            assert(blocks_from(mem1, succ)
                == seq![(succ, hdr_size(mem1[succ]), hdr_taken(mem1[succ]))]
                    + blocks_from(mem1, succ2));
            assert(blocks_from(mem0, succ)
                == seq![(succ, hdr_size(mem0[succ]), hdr_taken(mem0[succ]))]
                    + blocks_from(mem0, succ2));
        }
        // The old suffix from the follower equals the tail of the block list.
        lemma_replace_suffix(mem0, mem0, 0, 0, false, bs[hi].0, p_hi, f_hi, hi);
        lemma_take_skip(bs, hi, blocks_from(mem0, succ));
    } else {
        assert(wf_from(mem1, succ, msize, true));
        assert(blocks_from(mem1, succ) =~= Seq::<(int, int, bool)>::empty());
        assert(hi >= bs.len()) by {
            if hi < bs.len() {
                lemma_block_fact(mem0, hi);
                assert(bs[hi].0 + 1 + bs[hi].1 <= mem0.len());
            }
        }
        assert(blocks_from(mem0, succ) =~= bs.skip(hi));
        assert(blocks_from(mem1, succ) =~= bs.skip(hi));
    }
    assert(blocks_from(mem1, succ) == bs.skip(hi));
    assert(wf_from(mem1, base, bprev, fb));
    assert(blocks_from(mem1, base) == seq![(base, msize, false)] + blocks_from(mem1, succ));
    // Stitch the untouched prefix back on.
    assert(reaches(mem0, 0, 0, false, base, pb, fb, lo));
    lemma_replace_suffix(mem0, mem1, 0, 0, false, base, pb, fb, lo);
    assert(blocks_from(mem1, 0) =~= bs.take(lo) + seq![(bs[lo].0, end - bs[lo].0 - 1, false)]
        + bs.skip(hi));
    assert(kfree_post(mem0, mem1, ptr)) by {
        assert(0 <= i < bs.len() && bs[i].0 == ptr - 1 && bs[i].2);
    }
}

/// Word `idx` lies strictly inside the payload of some block of the walk that
/// starts at `off`: it is never a header word.
pub open spec fn payload_interior(mem: Seq<u32>, off: int, idx: int) -> bool
    decreases mem.len() - off when 0 <= off <= mem.len()
{
    if off >= mem.len() {
        false
    } else {
        let sz = hdr_size(mem[off]);
        if idx <= off + sz {
            off < idx
        } else {
            off + 1 + sz <= mem.len() && payload_interior(mem, off + 1 + sz, idx)
        }
    }
}

/// A word strictly inside the payload of block `i` is payload-interior for
/// the walk from any earlier block's offset.
proof fn lemma_payload_from_block(mem: Seq<u32>, j: int, i: int, idx: int)
    requires
        wf_from(mem, 0, 0, false),
        0 <= j <= i < blocks_from(mem, 0).len(),
        blocks_from(mem, 0)[i].0 < idx <= blocks_from(mem, 0)[i].0 + blocks_from(mem, 0)[i].1,
    ensures
        payload_interior(mem, blocks_from(mem, 0)[j].0, idx),
    decreases i - j,
{
    let bs = blocks_from(mem, 0);
    lemma_block_fact(mem, j);
    lemma_block_fact(mem, i);
    if j == i {
        assert(payload_interior(mem, bs[i].0, idx));
    } else {
        lemma_block_fact(mem, j + 1);
        assert(bs[j + 1].0 == bs[j].0 + 1 + bs[j].1);
        // Offsets never decrease along the walk, so `idx` lies past block `j`.
        let pj = if j + 1 == 0 { 0int } else { bs[j].1 };
        let fj = if j + 1 == 0 { false } else { !bs[j].2 };
        lemma_replace_suffix(mem, mem, 0, 0, false, bs[j + 1].0, pj, fj, j + 1);
        lemma_take_skip(bs, j + 1, blocks_from(mem, bs[j + 1].0));
        assert(blocks_from(mem, bs[j + 1].0)[i - j - 1] == bs[i]);
        lemma_blocks_nondecreasing(mem, bs[j + 1].0, pj, fj, i - j - 1);
        assert(bs[i].0 >= bs[j + 1].0);
        assert(idx > bs[j].0 + bs[j].1);
        lemma_payload_from_block(mem, j + 1, i, idx);
        assert(payload_interior(mem, bs[j].0, idx));
    }
}

/// Changing one payload-interior word leaves every header as it was, so the
/// region still walks correctly and carries the same blocks.
proof fn lemma_payload_write(
    mem1: Seq<u32>, mem2: Seq<u32>, off: int, prev: int, prev_free: bool, idx: int,
)
    requires
        0 <= off <= mem1.len(),
        wf_from(mem1, off, prev, prev_free),
        payload_interior(mem1, off, idx),
        mem2.len() == mem1.len(),
        forall|j: int| 0 <= j < mem1.len() && j != idx ==> mem2[j] == mem1[j],
    ensures
        wf_from(mem2, off, prev, prev_free),
        blocks_from(mem2, off) == blocks_from(mem1, off),
    decreases mem1.len() - off,
{
    let sz = hdr_size(mem1[off]);
    let next = off + 1 + sz;
    assert(mem2[off] == mem1[off]);
    if idx <= off + sz {
        lemma_agree_suffix(mem1, mem2, next, sz, !hdr_taken(mem1[off]));
        assert(blocks_from(mem2, off) == blocks_from(mem1, off));
    } else {
        lemma_payload_write(mem1, mem2, next, sz, !hdr_taken(mem1[off]), idx);
        assert(blocks_from(mem2, off) == blocks_from(mem1, off));
    }
}

impl Heap {
    /// Write one word into the payload of the taken block whose header sits
    /// at index `blk` of the block list. Headers are untouched: the block
    /// structure is exactly what it was.
    pub fn write_word(&mut self, idx: usize, val: u32, Ghost(blk): Ghost<int>)
        requires
            old(self).wf(),
            0 <= blk < old(self).blocks().len(),
            old(self).blocks()[blk].2,
            old(self).blocks()[blk].0 < idx <= old(self).blocks()[blk].0
                + old(self).blocks()[blk].1,
        ensures
            final(self).wf(),
            final(self)@ == old(self)@.update(idx as int, val),
            final(self).blocks() == old(self).blocks(),
    {
        proof {
            lemma_block_fact(self@, blk);
        }
        self.mem.set(idx, val);
        proof {
            lemma_block_fact(old(self)@, 0);
            lemma_payload_from_block(old(self)@, 0, blk, idx as int);
            lemma_payload_write(old(self)@, self@, 0, 0, false, idx as int);
            assert(self@ =~= old(self)@.update(idx as int, val));
        }
    }
}

impl Heap {
    /// Snapshot of the block list: one (offset, payload words, taken) triple
    /// per block, in physical order. This is the walk that a console dump of
    /// the heap prints.
    pub fn block_headers(&self) -> (r: Vec<(u32, u32, bool)>)
        requires
            self.wf(),
        ensures
            r@.len() == self.blocks().len(),
            forall|k: int| 0 <= k < r@.len() ==> #[trigger] r@[k]
                == ((self.blocks()[k].0 as u32), (self.blocks()[k].1 as u32),
                    self.blocks()[k].2),
    {
        let len = self.mem.len();
        let ghost mem0 = self@;
        let ghost bs0 = blocks_from(mem0, 0);
        let mut r: Vec<(u32, u32, bool)> = Vec::new();
        let mut off: usize = 0;
        let ghost mut gprev: int = 0;
        let ghost mut gpfree: bool = false;
        let ghost mut gi: int = 0;
        proof {
            assert(bs0.skip(0) =~= bs0);
        }
        while off < len
            invariant
                self.wf(),
                len == mem0.len(),
                mem0 == self@,
                bs0 == blocks_from(mem0, 0),
                0 <= off <= len,
                0 <= gi <= bs0.len(),
                r@.len() == gi,
                wf_from(mem0, off as int, gprev, gpfree),
                blocks_from(mem0, off as int) == bs0.skip(gi),
                forall|k: int| 0 <= k < gi ==> #[trigger] r@[k]
                    == ((bs0[k].0 as u32), (bs0[k].1 as u32), bs0[k].2),
            decreases len - off,
        {
            let h = self.mem[off];
            let bsize: u32 = h & CUR_SIZE_MASK;
            let taken: bool = h & TAKEN_MASK != 0;
            proof {
                assert(bsize == hdr_size(h) && taken == hdr_taken(h));
                assert(blocks_from(mem0, off as int)[0]
                    == ((off as int), hdr_size(h), hdr_taken(h)));
                assert(blocks_from(mem0, off as int).len() >= 1);
                assert(bs0.skip(gi).len() == bs0.len() - gi);
                assert(gi < bs0.len());
                assert(bs0[gi] == bs0.skip(gi)[0]);
            }
            r.push((off as u32, bsize, taken));
            proof {
                assert(blocks_from(mem0, off as int)
                    == seq![((off as int), hdr_size(h), hdr_taken(h))]
                        + blocks_from(mem0, off as int + 1 + bsize));
                lemma_skip_unfold(bs0, gi, ((off as int), hdr_size(h), hdr_taken(h)),
                    blocks_from(mem0, off as int + 1 + bsize));
                gprev = hdr_size(h);
                gpfree = !hdr_taken(h);
                gi = gi + 1;
            }
            off = off + 1 + (bsize as usize);
        }
        proof {
            assert(blocks_from(mem0, off as int).len() == 0);
            assert(gi == bs0.len());
        }
        r
    }
}

/// Word `idx` lies in the payload of some taken block: the words a caller
/// may write through the heap's interface.
pub open spec fn user_word_at(mem: Seq<u32>, idx: int) -> bool {
    exists|i: int| 0 <= i < blocks_from(mem, 0).len()
        && (#[trigger] blocks_from(mem, 0)[i]).2
        && blocks_from(mem, 0)[i].0 < idx
        && idx <= blocks_from(mem, 0)[i].0 + blocks_from(mem, 0)[i].1
}

impl Heap {
    /// Whether word `idx` is allocated storage: the payload of a taken block.
    pub fn is_user_word(&self, idx: usize) -> (r: bool)
        requires
            self.wf(),
        ensures
            r == user_word_at(self@, idx as int),
    {
        let headers = self.block_headers();
        let ghost bs = self.blocks();
        let mut i: usize = 0;
        while i < headers.len()
            invariant
                self.wf(),
                bs == self.blocks(),
                headers@.len() == bs.len(),
                forall|k: int| 0 <= k < headers@.len() ==> #[trigger] headers@[k]
                    == ((bs[k].0 as u32), (bs[k].1 as u32), bs[k].2),
                i <= headers@.len(),
                forall|k: int| 0 <= k < i ==> !((#[trigger] bs[k]).2
                    && bs[k].0 < idx && idx <= bs[k].0 + bs[k].1),
            decreases headers@.len() - i,
        {
            let (off, size, taken) = headers[i];
            proof {
                lemma_block_fact(self@, i as int);
            }
            if taken && (off as usize) < idx && idx <= (off as usize) + (size as usize) {
                proof {
                    assert(bs[i as int].2 && bs[i as int].0 < idx
                        && idx <= bs[i as int].0 + bs[i as int].1);
                }
                return true;
            }
            i += 1;
        }
        false
    }

    /// Write one word into allocated storage, locating the taken block that
    /// holds it: how user data enters the heap. Refused, leaving the region
    /// unchanged, when the word is no taken block's payload.
    pub fn write_user_word(&mut self, idx: usize, val: u32) -> (r: bool)
        requires
            old(self).wf(),
        ensures
            final(self).wf(),
            final(self)@.len() == old(self)@.len(),
            final(self).blocks() == old(self).blocks(),
            r ==> final(self)@ == old(self)@.update(idx as int, val),
            !r ==> final(self)@ == old(self)@,
            r == user_word_at(old(self)@, idx as int),
    {
        let headers = self.block_headers();
        let ghost bs = self.blocks();
        let mut i: usize = 0;
        while i < headers.len()
            invariant
                self.wf(),
                self@ == old(self)@,
                bs == self.blocks(),
                idx <= usize::MAX,
                headers@.len() == bs.len(),
                forall|k: int| 0 <= k < headers@.len() ==> #[trigger] headers@[k]
                    == ((bs[k].0 as u32), (bs[k].1 as u32), bs[k].2),
                i <= headers@.len(),
                forall|k: int| 0 <= k < i ==> !((#[trigger] bs[k]).2
                    && bs[k].0 < idx && idx <= bs[k].0 + bs[k].1),
            decreases headers@.len() - i,
        {
            let (off, size, taken) = headers[i];
            proof {
                lemma_block_fact(self@, i as int);
            }
            if taken && (off as usize) < idx && idx <= (off as usize) + (size as usize) {
                proof {
                    assert(bs[i as int].0 == off && bs[i as int].1 == size && bs[i as int].2);
                }
                self.write_word(idx, val, Ghost(i as int));
                proof {
                    assert(old(self).blocks() == bs);
                    assert(exists|j: int| 0 <= j < old(self).blocks().len()
                        && (#[trigger] old(self).blocks()[j]).2
                        && old(self).blocks()[j].0 < idx
                        && idx <= old(self).blocks()[j].0 + old(self).blocks()[j].1) by {
                        assert(0 <= (i as int) && (i as int) < old(self).blocks().len()
                            && (old(self).blocks()[i as int]).2
                            && old(self).blocks()[i as int].0 < idx
                            && idx <= old(self).blocks()[i as int].0
                                + old(self).blocks()[i as int].1);
                    }
                }
                return true;
            }
            i += 1;
        }
        false
    }
}

/// An allocation never disturbs allocated storage: every payload word of a
/// taken block stays one, since only a free block is carved up.
pub proof fn lemma_kmalloc_keeps_user_word(
    pre: Seq<u32>, post: Seq<u32>, size: u32, p: int, idx: int,
)
    requires
        kmalloc_post_any(pre, post, size, p),
        user_word_at(pre, idx),
    ensures
        user_word_at(post, idx),
{
    let i = choose|i: int| kmalloc_post(pre, post, size, p, i);
    let bs = blocks_from(pre, 0);
    let j = choose|j: int| 0 <= j < bs.len() && (#[trigger] bs[j]).2
        && bs[j].0 < idx && idx <= bs[j].0 + bs[j].1;
    assert(j != i);
    let need = need_words(size);
    let tsize = if bs[i].1 == need + 1 { bs[i].1 } else { need };
    let nbs = blocks_from(post, 0);
    if bs[i].1 > tsize {
        assert(nbs == bs.take(i)
            + seq![(bs[i].0, tsize, true), (bs[i].0 + 1 + tsize, bs[i].1 - tsize - 1, false)]
            + bs.skip(i + 1));
        if j < i {
            assert(nbs[j] == bs.take(i)[j]);
            assert(nbs[j] == bs[j]);
        } else {
            assert(nbs[j + 1] == bs.skip(i + 1)[j - i - 1]);
            assert(nbs[j + 1] == bs[j]);
        }
    } else {
        assert(nbs == bs.take(i) + seq![(bs[i].0, bs[i].1, true)] + bs.skip(i + 1));
        if j < i {
            assert(nbs[j] == bs.take(i)[j]);
            assert(nbs[j] == bs[j]);
        } else {
            assert(nbs[j] == bs.skip(i + 1)[j - i - 1]);
            assert(nbs[j] == bs[j]);
        }
    }
}

impl Heap {
    /// Walking block headers from the base covers the region exactly: block
    /// offsets chain one past the previous block's payload, and the last
    /// block ends at the region's end.
    pub proof fn lemma_blocks_cover_region(&self)
        requires
            self.wf(),
        ensures
            self.blocks().len() >= 1,
            self.blocks()[0].0 == 0,
            forall|i: int| 0 < i < self.blocks().len() ==>
                (#[trigger] self.blocks()[i]).0 == self.blocks()[i - 1].0 + 1 + self.blocks()[i - 1].1,
            self.blocks().last().0 + 1 + self.blocks().last().1 == self@.len(),
    {
        lemma_wf_blocks(self@, 0, 0, false);
    }

    /// Coalescing is complete: two physically consecutive blocks are never
    /// both free.
    pub proof fn lemma_coalescing_complete(&self)
        requires
            self.wf(),
        ensures
            forall|i: int| 0 <= i < self.blocks().len() - 1 ==>
                (#[trigger] self.blocks()[i]).2 || self.blocks()[i + 1].2,
    {
        lemma_wf_blocks(self@, 0, 0, false);
        assert forall|i: int| 0 <= i < self.blocks().len() - 1 implies
            (#[trigger] self.blocks()[i]).2 || self.blocks()[i + 1].2 by {
            assert(!self.blocks()[i + 1].2 ==> self.blocks()[i].2);
        }
    }

    /// Every block after the first records its physical predecessor's payload
    /// size in its previous-size field; the first block records zero.
    pub proof fn lemma_prev_size_chain(&self)
        requires
            self.wf(),
        ensures
            self.blocks().len() >= 1,
            hdr_prev(self@[self.blocks()[0].0]) == 0,
            forall|i: int| 0 < i < self.blocks().len() ==>
                hdr_prev(self@[(#[trigger] self.blocks()[i]).0]) == self.blocks()[i - 1].1,
    {
        lemma_wf_blocks(self@, 0, 0, false);
    }
}

} // verus!
