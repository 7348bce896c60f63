use vstd::prelude::*;

verus! {

/// The contents of a block slot as plain values.
pub open spec fn slot_view(b: Option<Vec<i32>>) -> Option<Seq<i32>> {
    match b {
        Some(v) => Some(v@),
        None => None,
    }
}

/// The lowest empty slot of `blocks`, or `blocks.len()` when every slot is full.
pub open spec fn first_free(blocks: Seq<Option<Seq<i32>>>) -> int
    decreases blocks.len(),
{
    if blocks.len() == 0 {
        0
    } else if first_free(blocks.drop_last()) < blocks.len() - 1 {
        first_free(blocks.drop_last())
    } else if blocks.last() is None {
        blocks.len() - 1
    } else {
        blocks.len() as int
    }
}

/// `blocks` after storing `data` in slot `id`, with empty slots added first
/// when `id` is past the end.
pub open spec fn store_at(blocks: Seq<Option<Seq<i32>>>, id: int, data: Seq<i32>) -> Seq<
    Option<Seq<i32>>,
> {
    if id < blocks.len() {
        blocks.update(id, Some(data))
    } else {
        (blocks + Seq::new((id - blocks.len()) as nat, |i: int| None)).push(Some(data))
    }
}

/// `blocks` with slot `id` emptied, when there is such a slot.
pub open spec fn clear_at(blocks: Seq<Option<Seq<i32>>>, id: int) -> Seq<Option<Seq<i32>>> {
    if 0 <= id < blocks.len() {
        blocks.update(id, None)
    } else {
        blocks
    }
}

/// Manual KV block manager that allows downstream users to explicitly manage
/// and deduplicate KV cache blocks across batches.
pub struct SharedPrefixManager {
    blocks: Vec<Option<Vec<i32>>>,
}

impl View for SharedPrefixManager {
    type V = Seq<Option<Seq<i32>>>;

    closed spec fn view(&self) -> Seq<Option<Seq<i32>>> {
        self.blocks@.map_values(|b: Option<Vec<i32>>| slot_view(b))
    }
}

proof fn lemma_first_free(blocks: Seq<Option<Seq<i32>>>)
    ensures
        0 <= first_free(blocks) <= blocks.len(),
        first_free(blocks) < blocks.len() ==> blocks[first_free(blocks)] is None,
        forall|k: int| 0 <= k < first_free(blocks) ==> (#[trigger] blocks[k]) is Some,
    decreases blocks.len(),
{
    if blocks.len() > 0 {
        lemma_first_free(blocks.drop_last());
        assert forall|k: int| 0 <= k < first_free(blocks) implies (#[trigger] blocks[k]) is Some by {
            if k < blocks.len() - 1 {
                assert(blocks[k] == blocks.drop_last()[k]);
            }
        }
    }
}

impl Default for SharedPrefixManager {
    fn default() -> (r: Self)
        ensures
            r@ == Seq::<Option<Seq<i32>>>::empty(),
    {
        Self::new()
    }
}

impl SharedPrefixManager {
    /// A manager with no slots.
    pub fn new() -> (r: Self)
        ensures
            r@ == Seq::<Option<Seq<i32>>>::empty(),
    {
        let r = Self { blocks: Vec::new() };
        assert(r@ =~= Seq::<Option<Seq<i32>>>::empty());
        r
    }

    /// Inserts a block into the manager, returning a unique block_id.
    pub fn insert_block(&mut self, data: Vec<i32>) -> (id: usize)
        requires
            old(self)@.len() < usize::MAX,
        ensures
            id == first_free(old(self)@),
            final(self)@ == store_at(old(self)@, id as int, data@),
            id <= old(self)@.len(),
            id < old(self)@.len() ==> old(self)@[id as int] is None,
            forall|k: int| 0 <= k < id ==> (#[trigger] old(self)@[k]) is Some,
            final(self)@.len() == if id < old(self)@.len() { old(self)@.len() } else { old(self)@.len() + 1 },
            final(self)@[id as int] == Some(data@),
            forall|k: int|
                0 <= k < old(self)@.len() && k != id ==> #[trigger] final(self)@[k] == old(self)@[k],
    {
        proof {
            lemma_first_free(self@);
        }
        let n = self.blocks.len();
        let mut pos: usize = 0;
        while pos < n
            invariant
                n == self.blocks@.len(),
                self@ == old(self)@,
                pos <= n,
                forall|k: int| 0 <= k < pos ==> (#[trigger] self@[k]) is Some,
            ensures
                n == self.blocks@.len(),
                self@ == old(self)@,
                pos <= n,
                forall|k: int| 0 <= k < pos ==> (#[trigger] self@[k]) is Some,
                pos < n ==> self@[pos as int] is None,
            decreases n - pos,
        {
            if self.blocks[pos].is_none() {
                break;
            }
            pos += 1;
        }
        proof {
            lemma_first_free(self@);
            let f = first_free(self@);
            if f < pos {
                assert(self@[f] is Some);
            }
            if pos < f {
                assert(self@[pos as int] is Some);
            }
        }
        if pos < n {
            self.blocks.set(pos, Some(data));
        } else {
            self.blocks.push(Some(data));
        }
        proof {
            assert(self@ =~= store_at(old(self)@, pos as int, data@));
            lemma_store_then_read(old(self)@, pos as int, data@);
        }
        pos
    }

    /// Explicitly insert data at a given block_id.
    /// Useful if downstream wants to manage IDs themselves.
    pub fn insert_block_at(&mut self, block_id: usize, data: Vec<i32>)
        requires
            block_id < usize::MAX,
        ensures
            final(self)@ == store_at(old(self)@, block_id as int, data@),
            final(self)@.len() == if block_id < old(self)@.len() { old(self)@.len() as int } else { block_id + 1 },
            final(self)@[block_id as int] == Some(data@),
            forall|k: int|
                0 <= k < final(self)@.len() && k != block_id ==> #[trigger] final(self)@[k] == if k
                    < old(self)@.len() {
                    old(self)@[k]
                } else {
                    None::<Seq<i32>>
                },
    {
        proof {
            lemma_store_then_read(old(self)@, block_id as int, data@);
        }
        let ghost old_view = self@;
        if block_id >= self.blocks.len() {
            while self.blocks.len() < block_id + 1
                invariant
                    block_id < usize::MAX,
                    old_view.len() <= self@.len() <= block_id + 1,
                    self@ == old_view + Seq::new((self@.len() - old_view.len()) as nat, |i: int| None),
                decreases block_id + 1 - self.blocks.len(),
            {
                let ghost before = self@;
                self.blocks.push(None);
                proof {
                    assert(self@ =~= before.push(None));
                    assert(self@ =~= old_view + Seq::new((self@.len() - old_view.len()) as nat, |i: int| None));
                }
            }
            let ghost before = self@;
            self.blocks.set(block_id, Some(data));
            proof {
                assert(self@ =~= before.update(block_id as int, Some(data@)));
                let pad = Seq::new((block_id - old_view.len()) as nat, |i: int| None::<Seq<i32>>);
                assert(self@ =~= (old_view + pad).push(Some(data@)));
            }
        } else {
            self.blocks.set(block_id, Some(data));
            proof {
                assert(self@ =~= old_view.update(block_id as int, Some(data@)));
            }
        }
    }

    /// The data of block `block_id`, for `engine.set_kv_block`; `None` for an
    /// empty or unknown slot.
    pub fn get_block_ptr(&self, block_id: usize) -> (r: Option<&[i32]>)
        ensures
            match r {
                Some(s) => 0 <= block_id < self@.len() && self@[block_id as int] == Some(s@),
                None => block_id >= self@.len() || self@[block_id as int] is None,
            },
    {
        if block_id < self.blocks.len() {
            match &self.blocks[block_id] {
                Some(block) => Some(block.as_slice()),
                None => None,
            }
        } else {
            None
        }
    }

    /// Removes a block from the manager.
    pub fn remove_block(&mut self, block_id: usize)
        ensures
            final(self)@ == clear_at(old(self)@, block_id as int),
            final(self)@.len() == old(self)@.len(),
            block_id < old(self)@.len() ==> final(self)@[block_id as int] is None,
            forall|k: int|
                0 <= k < old(self)@.len() && k != block_id ==> #[trigger] final(self)@[k] == old(self)@[k],
    {
        if block_id < self.blocks.len() {
            self.blocks.set(block_id, None);
            proof {
                assert(self@ =~= old(self)@.update(block_id as int, None));
            }
        }
    }
}

/// A block stored at `id` is read back from `id`, and every other slot keeps
/// what it held.
pub proof fn lemma_store_then_read(blocks: Seq<Option<Seq<i32>>>, id: int, data: Seq<i32>)
    requires
        0 <= id,
    ensures
        store_at(blocks, id, data).len() == if id < blocks.len() { blocks.len() as int } else { id + 1 },
        store_at(blocks, id, data)[id] == Some(data),
        forall|k: int|
            0 <= k < store_at(blocks, id, data).len() && k != id ==> #[trigger] store_at(blocks, id, data)[k]
                == if k < blocks.len() { blocks[k] } else { None::<Seq<i32>> },
{
}

/// The id handed out by an insertion is a slot that was free (or one past the
/// end), and it holds the new block afterwards.
pub proof fn lemma_insert_uses_free_slot(blocks: Seq<Option<Seq<i32>>>, data: Seq<i32>)
    ensures
        first_free(blocks) == blocks.len() || blocks[first_free(blocks)] is None,
        store_at(blocks, first_free(blocks), data)[first_free(blocks)] == Some(data),
        forall|k: int| 0 <= k < first_free(blocks) ==> (#[trigger] blocks[k]) is Some,
{
    lemma_first_free(blocks);
}

/// A removal empties its own slot and no other: the number of slots is kept and
/// every other slot holds what it held.
pub proof fn lemma_remove_keeps_others(blocks: Seq<Option<Seq<i32>>>, id: int)
    ensures
        clear_at(blocks, id).len() == blocks.len(),
        0 <= id < blocks.len() ==> clear_at(blocks, id)[id] is None,
        forall|k: int| 0 <= k < blocks.len() && k != id ==> #[trigger] clear_at(blocks, id)[k] == blocks[k],
{
}

/// Removing one block and then another gives the same slots in either order.
pub proof fn lemma_removals_commute(blocks: Seq<Option<Seq<i32>>>, a: int, b: int)
    ensures
        clear_at(clear_at(blocks, a), b) == clear_at(clear_at(blocks, b), a),
{
    assert(clear_at(clear_at(blocks, a), b) =~= clear_at(clear_at(blocks, b), a));
}

/// After a removal, reading the slot gives nothing, and the slot is the first
/// one the next insertion may reuse unless a lower one is free.
pub proof fn lemma_remove_then_read(blocks: Seq<Option<Seq<i32>>>, id: int)
    requires
        0 <= id < blocks.len(),
    ensures
        clear_at(blocks, id)[id] is None,
        first_free(clear_at(blocks, id)) <= id,
{
    lemma_first_free(clear_at(blocks, id));
    let c = clear_at(blocks, id);
    if first_free(c) > id {
        assert(c[id] is Some);
    }
}

} // verus!
