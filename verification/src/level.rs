//! One hierarchy level: a pool of blocks with a free list of empty ones.
use vstd::prelude::*;
use crate::block::Block;

verus! {

/// Capacity of a block pool (std `Vec::capacity`).
///
/// What the allocator grants is not fixed by the arguments; only that the
/// capacity covers the length is stated.
#[verifier::external_body]
fn vec_capacity(v: &Vec<Block>) -> (cap: usize)
    ensures
        cap >= v@.len(),
{
    v.capacity()
}

/// Pool of blocks of one level.
///
/// Block 0 is always a zeroed block: missing next-level entries point there.
/// Empty blocks that were released form a single linked list: the mask of a
/// released block holds the index of the next released block (`u64::MAX`
/// terminates the list).
pub struct Level {
    pub blocks: Vec<Block>,
    /// First block of the list of released blocks.
    pub root_empty_block: u64,
    /// Length of the list of released blocks.
    pub empty_blocks_count: usize,
    /// Number of next-level indices each block holds.
    pub width: usize,
    /// The list of released blocks, first to last.
    pub free: Ghost<Seq<usize>>,
}

impl Level {
    /// Link stored in the `k`-th released block.
    pub open spec fn next_free(&self, k: int) -> u64 {
        if k + 1 < self.free@.len() {
            self.free@[k + 1] as u64
        } else {
            u64::MAX
        }
    }

    /// Block `i` is in use: allocated, not block 0 and not released.
    pub open spec fn is_live(&self, i: int) -> bool {
        &&& 0 < i < self.blocks@.len()
        &&& forall|k: int| 0 <= k < self.free@.len() ==> self.free@[k] as int != i
    }

    /// Same blocks and same list of released blocks.
    pub open spec fn same_contents(&self, other: &Level) -> bool {
        &&& self.blocks@ == other.blocks@
        &&& self.root_empty_block == other.root_empty_block
        &&& self.empty_blocks_count == other.empty_blocks_count
        &&& self.width == other.width
        &&& self.free@ == other.free@
    }

    pub open spec fn wf(&self) -> bool {
        &&& 1 <= self.blocks@.len()
        &&& forall|i: int|
            0 <= i < self.blocks@.len() ==> (#[trigger] self.blocks@[i]).block_indices@.len()
                == self.width
        &&& self.blocks@[0].is_zeroed()
        &&& self.empty_blocks_count == self.free@.len()
        &&& self.free@.len() < self.blocks@.len()
        &&& (self.free@.len() > 0 ==> self.root_empty_block == self.free@[0] as u64)
        &&& (self.free@.len() == 0 ==> self.root_empty_block == u64::MAX)
        &&& self.free@.no_duplicates()
        &&& forall|k: int|
            0 <= k < self.free@.len() ==> 0 < #[trigger] self.free@[k] < self.blocks@.len()
        &&& forall|k: int|
            0 <= k < self.free@.len() ==> #[trigger] self.blocks@[self.free@[k] as int].mask
                == self.next_free(k)
        &&& forall|k: int|
            0 <= k < self.free@.len() ==> (
            #[trigger] self.blocks@[self.free@[k] as int]).indices_zeroed()
    }

    /// Level with just the zeroed block 0.
    pub fn new(width: usize) -> (l: Level)
        ensures
            l.wf(),
            l.width == width,
            l.blocks@.len() == 1,
            l.free@.len() == 0,
    {
        let mut blocks = Vec::new();
        blocks.push(Block::empty(width));
        Level { blocks, root_empty_block: u64::MAX, empty_blocks_count: 0, width, free: Ghost(Seq::empty()) }
    }

    /// Level made of the given blocks; block 0 must be zeroed and every
    /// block must hold `width` indices.
    pub fn from_blocks_unchecked(blocks: Vec<Block>, width: usize) -> (l: Level)
        requires
            1 <= blocks@.len(),
            blocks@[0].is_zeroed(),
            forall|i: int| 0 <= i < blocks@.len() ==> (#[trigger] blocks@[i]).block_indices@.len() == width,
        ensures
            l.wf(),
            l.width == width,
            l.blocks@ == blocks@,
            l.free@.len() == 0,
    {
        Level { blocks, root_empty_block: u64::MAX, empty_blocks_count: 0, width, free: Ghost(Seq::empty()) }
    }

    pub fn blocks(&self) -> (r: &[Block])
        ensures
            r@ == self.blocks@,
    {
        self.blocks.as_slice()
    }

    /// Takes the first released block off the list and zeroes its mask.
    fn pop_empty_block(&mut self) -> (r: Option<usize>)
        requires
            old(self).wf(),
        ensures
            final(self).wf(),
            final(self).width == old(self).width,
            final(self).blocks@.len() == old(self).blocks@.len(),
            match r {
                None => old(self).free@.len() == 0 && *final(self) == *old(self),
                Some(i) => {
                    &&& old(self).free@.len() > 0
                    &&& i == old(self).free@[0]
                    &&& final(self).free@ == old(self).free@.drop_first()
                    &&& final(self).blocks@ == old(self).blocks@.update(i as int, final(self).blocks@[i as int])
                    &&& final(self).blocks@[i as int].is_zeroed()
                    &&& final(self).blocks@[i as int].block_indices@.len() == old(self).width
                },
            },
    {
        if self.empty_blocks_count == 0 {
            return None;
        }
        proof {
            assert(self.free@[0] < self.blocks@.len());
        }
        let index = self.root_empty_block as usize;
        let ghost old_free = self.free@;
        let ghost old_self = *self;
        let next = self.blocks[index].mask;
        self.blocks[index].mask = 0;
        self.root_empty_block = next;
        self.empty_blocks_count = self.empty_blocks_count - 1;
        self.free = Ghost(old_free.drop_first());
        proof {
            let nf = self.free@;
            assert(old_self.blocks@[old_free[0] as int].mask == old_self.next_free(0));
            assert forall|k: int| 0 <= k < nf.len() implies #[trigger] self.blocks@[nf[k] as int].mask == self.next_free(k) by {
                assert(nf[k] == old_free[k + 1]);
                assert(old_free[k + 1] != old_free[0]);
                assert(old_self.blocks@[old_free[k + 1] as int].mask == old_self.next_free(k + 1));
            }
            assert forall|k: int| 0 <= k < nf.len() implies (#[trigger] self.blocks@[nf[k] as int]).indices_zeroed() by {
                assert(nf[k] == old_free[k + 1]);
                assert(old_self.blocks@[old_free[k + 1] as int].indices_zeroed());
            }
            assert forall|k: int| 0 <= k < nf.len() implies 0 < #[trigger] nf[k] < self.blocks@.len() by {
                assert(nf[k] == old_free[k + 1]);
            }
            assert(old_self.blocks@[old_free[0] as int].indices_zeroed());
            assert(self.blocks@ =~= old_self.blocks@.update(index as int, self.blocks@[index as int]));
        }
        Some(index)
    }

    /// Puts the (zeroed, in use) block `block_index` on the list of released blocks.
    fn push_empty_block(&mut self, block_index: usize)
        requires
            old(self).wf(),
            old(self).is_live(block_index as int),
            old(self).blocks@[block_index as int].is_zeroed(),
        ensures
            final(self).wf(),
            final(self).width == old(self).width,
            final(self).free@ == seq![block_index].add(old(self).free@),
            final(self).blocks@.len() == old(self).blocks@.len(),
            forall|j: int| 0 <= j < old(self).blocks@.len() && j != block_index ==>
                #[trigger] final(self).blocks@[j] == old(self).blocks@[j],
            final(self).blocks@[block_index as int].indices_zeroed(),
    {
        let ghost old_self = *self;
        let _n = self.blocks.len();
        proof {
            let s = seq![block_index].add(old_self.free@);
            assert forall|a: int, b: int| 0 <= a < s.len() && 0 <= b < s.len() && a != b implies s[a] != s[b] by {
                if a > 0 && b > 0 {
                    assert(s[a] == old_self.free@[a - 1] && s[b] == old_self.free@[b - 1]);
                } else if a == 0 {
                    assert(s[b] == old_self.free@[b - 1]);
                } else {
                    assert(s[a] == old_self.free@[a - 1]);
                }
            }
            assert forall|k: int| 0 <= k < s.len() implies 0 < #[trigger] s[k] < old_self.blocks@.len() by {
                if k > 0 { assert(s[k] == old_self.free@[k - 1]); }
            }
            lemma_distinct_bounded(s, old_self.blocks@.len() as int);
        }
        let root = self.root_empty_block;
        self.blocks[block_index].mask = root;
        self.root_empty_block = block_index as u64;
        self.empty_blocks_count = self.empty_blocks_count + 1;
        self.free = Ghost(seq![block_index].add(old_self.free@));
        proof {
            let nf = self.free@;
            let of = old_self.free@;
            assert forall|k: int| 0 <= k < nf.len() implies #[trigger] self.blocks@[nf[k] as int].mask == self.next_free(k) by {
                if k > 0 {
                    assert(nf[k] == of[k - 1]);
                    assert(nf[k] != block_index);
                    assert(old_self.blocks@[of[k - 1] as int].mask == old_self.next_free(k - 1));
                }
            }
            assert forall|k: int| 0 <= k < nf.len() implies (#[trigger] self.blocks@[nf[k] as int]).indices_zeroed() by {
                if k > 0 {
                    assert(nf[k] == of[k - 1]);
                    assert(old_self.blocks@[of[k - 1] as int].indices_zeroed());
                }
            }
            assert forall|k: int| 0 <= k < nf.len() implies 0 < #[trigger] nf[k] < self.blocks@.len() by {
                if k > 0 {
                    assert(nf[k] == of[k - 1]);
                }
            }

        }
    }

    /// Inserts a zeroed block and returns its index: the most recently
    /// released block when there is one, else a block appended at the end.
    pub fn insert_empty_block(&mut self) -> (index: usize)
        requires
            old(self).wf(),
        ensures
            final(self).wf(),
            final(self).width == old(self).width,
            !old(self).is_live(index as int),
            final(self).is_live(index as int),
            forall|j: int| j != index ==> #[trigger] final(self).is_live(j) == old(self).is_live(j),
            final(self).blocks@.len() >= old(self).blocks@.len(),
            forall|j: int| 0 <= j < old(self).blocks@.len() && j != index ==>
                #[trigger] final(self).blocks@[j] == old(self).blocks@[j],
            final(self).blocks@[index as int].is_zeroed(),
            final(self).blocks@[index as int].block_indices@.len() == old(self).width,
            final(self).used_len() == old(self).used_len() + 1,
            old(self).free@.len() > 0 ==> {
                &&& index == old(self).free@[0]
                &&& final(self).free@ == old(self).free@.drop_first()
                &&& final(self).blocks@.len() == old(self).blocks@.len()
            },
            old(self).free@.len() == 0 ==> {
                &&& index == old(self).blocks@.len()
                &&& final(self).free@ == old(self).free@
                &&& final(self).blocks@.len() == old(self).blocks@.len() + 1
            },
    {
        let ghost old_self = *self;
        match self.pop_empty_block() {
            Some(index) => {
                proof {
                    let of = old_self.free@;
                    assert(of.contains(of[0]));
                    let nf = self.free@;
                    assert forall|j: int| j != index implies #[trigger] self.is_live(j) == old_self.is_live(j) by {
                        if self.is_live(j) {
                            assert forall|k: int| 0 <= k < of.len() implies of[k] as int != j by {
                                if k > 0 { assert(of[k] == nf[k - 1]); }
                            }
                        }
                        if old_self.is_live(j) {
                            assert forall|k: int| 0 <= k < nf.len() implies nf[k] as int != j by {
                                assert(nf[k] == of[k + 1]);
                            }
                        }
                    }
                    assert forall|k: int| 0 <= k < nf.len() implies nf[k] as int != index by {
                        assert(nf[k] == of[k + 1]);
                    }
                }
                index
            },
            None => {
                let index = self.blocks.len();
                let b = Block::empty(self.width);
                self.blocks.push(b);
                proof {
                    assert forall|k: int| 0 <= k < self.free@.len() implies #[trigger] self.blocks@[self.free@[k] as int].mask == self.next_free(k) by {
                        assert(old_self.blocks@[self.free@[k] as int].mask == old_self.next_free(k));
                    }
                    assert forall|k: int| 0 <= k < self.free@.len() implies (#[trigger] self.blocks@[self.free@[k] as int]).indices_zeroed() by {
                        assert(old_self.blocks@[self.free@[k] as int].indices_zeroed());
                    }
                    assert(self.blocks@[0] == old_self.blocks@[0]);
                    assert forall|j: int| j != index implies #[trigger] self.is_live(j) == old_self.is_live(j) by {}
                }
                index
            },
        }
    }

    /// Inserts `block` and returns its index (reusing a released block when
    /// there is one).
    pub fn insert_block(&mut self, block: Block) -> (index: usize)
        requires
            old(self).wf(),
            block.block_indices@.len() == old(self).width,
        ensures
            final(self).wf(),
            final(self).width == old(self).width,
            !old(self).is_live(index as int),
            final(self).is_live(index as int),
            forall|j: int| j != index ==> #[trigger] final(self).is_live(j) == old(self).is_live(j),
            final(self).blocks@.len() >= old(self).blocks@.len(),
            forall|j: int| 0 <= j < old(self).blocks@.len() && j != index ==>
                #[trigger] final(self).blocks@[j] == old(self).blocks@[j],
            final(self).blocks@[index as int] == block,
            final(self).used_len() == old(self).used_len() + 1,
    {
        let index = self.insert_empty_block();
        let ghost mid = *self;
        self.blocks.set(index, block);
        proof {
            assert(index != 0);
            assert forall|k: int| 0 <= k < self.free@.len() implies #[trigger] self.blocks@[self.free@[k] as int].mask == self.next_free(k) by {
                assert(self.free@[k] != index);
            }
            assert forall|k: int| 0 <= k < self.free@.len() implies (#[trigger] self.blocks@[self.free@[k] as int]).indices_zeroed() by {
                assert(self.free@[k] != index);
                assert(mid.blocks@[self.free@[k] as int].indices_zeroed());
            }
            assert(self.blocks@[0] == mid.blocks@[0]);
            assert forall|j: int| true implies #[trigger] self.is_live(j) == mid.is_live(j) by {}
        }
        index
    }

    /// Appends `block` without reusing released blocks; returns its index.
    pub fn push_block(&mut self, block: Block) -> (index: usize)
        requires
            old(self).wf(),
            block.block_indices@.len() == old(self).width,
        ensures
            final(self).wf(),
            final(self).width == old(self).width,
            index == old(self).blocks@.len(),
            final(self).blocks@ == old(self).blocks@.push(block),
            final(self).free@ == old(self).free@,
            final(self).is_live(index as int),
            forall|j: int| j != index ==> #[trigger] final(self).is_live(j) == old(self).is_live(j),
            final(self).used_len() == old(self).used_len() + 1,
    {
        let ghost old_self = *self;
        let index = self.blocks.len();
        self.blocks.push(block);
        proof {
            assert forall|k: int| 0 <= k < self.free@.len() implies #[trigger] self.blocks@[self.free@[k] as int].mask == self.next_free(k) by {
                assert(old_self.blocks@[self.free@[k] as int].mask == old_self.next_free(k));
            }
            assert forall|k: int| 0 <= k < self.free@.len() implies (#[trigger] self.blocks@[self.free@[k] as int]).indices_zeroed() by {
                assert(old_self.blocks@[self.free@[k] as int].indices_zeroed());
            }
            assert(self.blocks@[0] == old_self.blocks@[0]);

        }
        index
    }

    /// Releases the block `block_index`, which must be in use and zeroed. It
    /// goes to the front of the list of released blocks, so it is the first
    /// one [insert_empty_block](Self::insert_empty_block) reuses.
    pub fn remove_empty_block_unchecked(&mut self, block_index: usize)
        requires
            old(self).wf(),
            old(self).is_live(block_index as int),
            old(self).blocks@[block_index as int].is_zeroed(),
        ensures
            final(self).wf(),
            final(self).width == old(self).width,
            !final(self).is_live(block_index as int),
            forall|j: int| j != block_index ==> #[trigger] final(self).is_live(j) == old(self).is_live(j),
            final(self).blocks@.len() == old(self).blocks@.len(),
            forall|j: int| 0 <= j < old(self).blocks@.len() && j != block_index ==>
                #[trigger] final(self).blocks@[j] == old(self).blocks@[j],
            final(self).used_len() + 1 == old(self).used_len(),
            final(self).free@ == seq![block_index].add(old(self).free@),
    {
        let ghost old_self = *self;
        self.push_empty_block(block_index);
        proof {
            let of = old_self.free@;
            let nf = self.free@;
            assert(nf[0] == block_index);
            assert forall|j: int| j != block_index implies #[trigger] self.is_live(j) == old_self.is_live(j) by {
                if self.is_live(j) {
                    assert forall|k: int| 0 <= k < of.len() implies of[k] as int != j by {
                        assert(of[k] == nf[k + 1]);
                    }
                }
                if old_self.is_live(j) {
                    assert forall|k: int| 0 <= k < nf.len() implies nf[k] as int != j by {
                        if k > 0 { assert(nf[k] == of[k - 1]); }
                    }
                }
            }
        }
    }

    /// Reserves storage for `len` blocks in total (plus block 0).
    ///
    /// Only the capacity of the block storage changes, to at least `len + 1`
    /// blocks; the blocks, the free list and the counters stay as they are.
    /// The capacity is the allocator's and no specification here models it,
    /// so the contract states the unchanged contents only.
    pub fn reserve_for(&mut self, len: usize)
        requires
            old(self).wf(),
            len < usize::MAX,
        ensures
            final(self).same_contents(old(self)),
            final(self).wf(),
    {
        let len = len + 1;
        let cap = vec_capacity(&self.blocks);
        if cap >= len {
            return;
        }
        // `Vec::reserve` counts the additional blocks from the length.
        let additional = len - self.blocks.len();
        self.blocks.reserve(additional);
    }

    /// Blocks in use, including block 0.
    pub open spec fn used_len(&self) -> int {
        self.blocks@.len() - self.free@.len()
    }

    /// Blocks in use, including block 0.
    pub fn len(&self) -> (r: usize)
        requires
            self.wf(),
        ensures
            r == self.used_len(),
    {
        self.blocks.len() - self.empty_blocks_count
    }

    /// The blocks, for in-place modification.
    pub fn blocks_mut(&mut self) -> (r: &mut [Block])
        ensures
            r@ == old(self).blocks@,
            final(r)@ == final(self).blocks@,
            final(self).root_empty_block == old(self).root_empty_block,
            final(self).empty_blocks_count == old(self).empty_blocks_count,
            final(self).width == old(self).width,
            final(self).free@ == old(self).free@,
    {
        self.blocks.as_mut_slice()
    }

    /// Same blocks (masks and indices) and same list of released blocks.
    pub open spec fn same_view(&self, other: &Level) -> bool {
        &&& self.blocks@.len() == other.blocks@.len()
        &&& forall|i: int| 0 <= i < self.blocks@.len() ==> (#[trigger] self.blocks@[i]).mask == other.blocks@[i].mask
            && self.blocks@[i].block_indices@ == other.blocks@[i].block_indices@
        &&& self.root_empty_block == other.root_empty_block
        &&& self.empty_blocks_count == other.empty_blocks_count
        &&& self.width == other.width
        &&& self.free@ == other.free@
    }

    /// A copy of the level.
    pub fn clone_level(&self) -> (r: Level)
        ensures
            r.same_view(self),
            self.wf() ==> r.wf(),
    {
        let mut blocks: Vec<Block> = Vec::with_capacity(self.blocks.len());
        let mut i: usize = 0;
        while i < self.blocks.len()
            invariant
                i <= self.blocks@.len(),
                blocks@.len() == i,
                forall|j: int| 0 <= j < i ==> (#[trigger] blocks@[j]).mask == self.blocks@[j].mask
                    && blocks@[j].block_indices@ == self.blocks@[j].block_indices@,
            decreases self.blocks@.len() - i,
        {
            blocks.push(self.blocks[i].clone_block());
            i += 1;
        }
        let r = Level {
            blocks,
            root_empty_block: self.root_empty_block,
            empty_blocks_count: self.empty_blocks_count,
            width: self.width,
            free: Ghost(self.free@),
        };
        proof {
            if self.wf() {
                assert forall|k: int| 0 <= k < r.free@.len() implies #[trigger] r.blocks@[r.free@[k] as int].mask
                    == r.next_free(k) by {
                    assert(self.blocks@[self.free@[k] as int].mask == self.next_free(k));
                }
                assert forall|k: int| 0 <= k < r.free@.len() implies (#[trigger] r.blocks@[r.free@[k] as int]).indices_zeroed() by {
                    assert(self.blocks@[self.free@[k] as int].indices_zeroed());
                }
                assert forall|q: int| 0 <= q < r.blocks@.len() implies (#[trigger] r.blocks@[q]).block_indices@.len() == r.width by {
                    assert(self.blocks@[q].block_indices@.len() == self.width);
                }
                assert(r.blocks@[0].is_zeroed()) by {
                    assert(self.blocks@[0].is_zeroed());
                }
            }
        }
        r
    }

    /// Capacity of the block storage.
    pub fn cap(&self) -> (r: usize)
        ensures
            r >= self.blocks@.len(),
    {
        vec_capacity(&self.blocks)
    }
}

/// Replacing a block in use by another block of the same width keeps the
/// level well formed and leaves the set of blocks in use unchanged.
pub proof fn lemma_level_update_live(old_l: Level, new_l: Level, k: int)
    requires
        old_l.wf(),
        old_l.is_live(k),
        new_l.blocks@ == old_l.blocks@.update(k, new_l.blocks@[k]),
        new_l.blocks@[k].block_indices@.len() == old_l.width,
        new_l.root_empty_block == old_l.root_empty_block,
        new_l.empty_blocks_count == old_l.empty_blocks_count,
        new_l.width == old_l.width,
        new_l.free@ == old_l.free@,
    ensures
        new_l.wf(),
        forall|j: int| #[trigger] new_l.is_live(j) == old_l.is_live(j),
        new_l.used_len() == old_l.used_len(),
{
    assert forall|q: int| 0 <= q < new_l.free@.len() implies #[trigger] new_l.blocks@[new_l.free@[q] as int] == old_l.blocks@[old_l.free@[q] as int] by {
        assert(new_l.free@[q] as int != k);
    }
    assert forall|i: int| 0 <= i < new_l.blocks@.len() implies (#[trigger] new_l.blocks@[i]).block_indices@.len() == new_l.width by {
        if i != k { assert(new_l.blocks@[i] == old_l.blocks@[i]); }
    }
    assert(new_l.blocks@[0] == old_l.blocks@[0]);
}

/// Distinct indices, all in `1..n`, are fewer than `n`.
proof fn lemma_distinct_bounded(s: Seq<usize>, n: int)
    requires
        n >= 1,
        s.no_duplicates(),
        forall|k: int| 0 <= k < s.len() ==> 0 < #[trigger] s[k] < n,
    ensures
        s.len() < n,
    decreases s.len(),
{
    if s.len() > 0 {
        assert(0 < s[0] < n);
        if exists|k: int| 0 <= k < s.len() && s[k] as int == n - 1 {
            let i = choose|k: int| 0 <= k < s.len() && s[k] as int == n - 1;
            let t = s.remove(i);
            assert forall|k: int| 0 <= k < t.len() implies 0 < #[trigger] t[k] < n - 1 by {
                if k < i { assert(t[k] == s[k]); } else { assert(t[k] == s[k + 1]); }
            }
            assert forall|a: int, b: int| 0 <= a < t.len() && 0 <= b < t.len() && a != b implies t[a] != t[b] by {
                let a2 = if a < i { a } else { a + 1 };
                let b2 = if b < i { b } else { b + 1 };
                assert(t[a] == s[a2] && t[b] == s[b2]);
            }
            lemma_distinct_bounded(t, n - 1);
        } else {
            let t = s.drop_last();
            assert forall|k: int| 0 <= k < t.len() implies 0 < #[trigger] t[k] < n - 1 by {
                assert(t[k] == s[k]);
            }
            assert forall|a: int, b: int| 0 <= a < t.len() && 0 <= b < t.len() && a != b implies t[a] != t[b] by {
                assert(t[a] == s[a] && t[b] == s[b]);
            }
            lemma_distinct_bounded(t, n - 1);
        }
    }
}


/// The blocks in use.
pub open spec fn live_blocks(l: &Level) -> Set<int> {
    Set::new(|i: int| l.is_live(i))
}

/// The blocks counted as used are block 0 and the blocks in use: every
/// other block is on the list of released blocks.
pub proof fn lemma_level_live_count(l: &Level)
    requires
        l.wf(),
    ensures
        live_blocks(l).finite(),
        l.used_len() == 1 + live_blocks(l).len(),
{
    let n = l.blocks@.len() as int;
    let fs = l.free@.map_values(|x: usize| x as int);
    let range = vstd::set_lib::set_int_range(1, n);
    let live = live_blocks(l);
    assert(fs.no_duplicates()) by {
        assert forall|p: int, q: int| 0 <= p < fs.len() && 0 <= q < fs.len() && p != q implies fs[p] != fs[q] by {
            assert(l.free@[p] != l.free@[q]);
        }
    }
    assert forall|i: int| #[trigger] range.contains(i) == (fs.to_set().contains(i) || live.contains(i)) by {
        if fs.to_set().contains(i) {
            let k = choose|k: int| 0 <= k < fs.len() && fs[k] == i;
            assert(0 < l.free@[k] < l.blocks@.len());
        }
        if 1 <= i < n && !live.contains(i) {
            let k = choose|k: int| 0 <= k < l.free@.len() && l.free@[k] as int == i;
            assert(fs[k] == i);
        }
    }
    assert(range =~= fs.to_set() + live);
    assert(fs.to_set().disjoint(live)) by {
        assert forall|i: int| fs.to_set().contains(i) implies !live.contains(i) by {
            let k = choose|k: int| 0 <= k < fs.len() && fs[k] == i;
            assert(l.free@[k] as int == i);
        }
    }
    vstd::set_lib::lemma_int_range(1, n);
    vstd::set_lib::lemma_len_subset(live, range);
    vstd::set_lib::lemma_len_subset(fs.to_set(), range);
    fs.unique_seq_to_set();
    vstd::set_lib::lemma_set_disjoint_lens(fs.to_set(), live);
}

/// With no block in use, block 0 is the only block counted as used.
pub proof fn lemma_level_none_live(l: &Level)
    requires
        l.wf(),
        forall|i: int| !#[trigger] l.is_live(i),
    ensures
        l.used_len() == 1,
{
    lemma_level_live_count(l);
    assert(live_blocks(l) =~= Set::<int>::empty());
}

} // verus!
