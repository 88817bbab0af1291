//! A cursor over a borrowed slice of arbitrary items.

use vstd::prelude::*;
use vstd::slice::slice_index_get;
use vstd::slice::slice_subrange;

verus! {

/// A sequential cursor over a borrowed slice.
///
/// The cursor holds a non-owning view of the source slice and a logical
/// index.  Producing the next item advances the index by one; a saved
/// [`SliceTokensCheckpoint`] rewinds it.  The source itself is never copied
/// or mutated.
pub struct SliceTokens<'a, Item> {
    slice: &'a [Item],
    cursor: usize,
}

/// An opaque saved position of a [`SliceTokens`] cursor.
///
/// A checkpoint is only meaningful for the cursor that produced it (or one
/// over the same source): rewinding demands [`SliceTokens::accepts_checkpoint`].
pub struct SliceTokensCheckpoint(usize);

impl SliceTokensCheckpoint {
    /// The index this checkpoint restores.
    pub closed spec fn pos(self) -> nat {
        self.0 as nat
    }
}

impl<'a, Item> SliceTokens<'a, Item> {
    /// The items of the full original source slice.
    pub closed spec fn src(self) -> Seq<Item> {
        self.slice@
    }

    /// The index of the next item to produce.
    pub closed spec fn pos(self) -> nat {
        self.cursor as nat
    }

    /// The cursor never points past the end of its source.
    pub open spec fn wf(self) -> bool {
        self.pos() <= self.src().len()
    }

    /// The prefix of the source already produced.
    pub open spec fn consumed_items(self) -> Seq<Item> {
        self.src().subrange(0, self.pos() as int)
    }

    /// The suffix of the source not yet produced.
    pub open spec fn remaining_items(self) -> Seq<Item> {
        self.src().subrange(self.pos() as int, self.src().len() as int)
    }

    /// True when `cp` may rewind this cursor: its saved index lies within
    /// the source.  Every checkpoint saved from a cursor over the same
    /// source is accepted.
    pub open spec fn accepts_checkpoint(self, cp: SliceTokensCheckpoint) -> bool {
        cp.pos() <= self.src().len()
    }

    /// Return the parsed portion of the slice.
    pub fn consumed(&self) -> (r: &'a [Item])
        requires
            self.wf(),
        ensures
            r@ == self.consumed_items(),
    {
        slice_subrange(self.slice, 0, self.cursor)
    }

    /// Return the unparsed remainder of the slice.
    pub fn remaining(&self) -> (r: &'a [Item])
        requires
            self.wf(),
        ensures
            r@ == self.remaining_items(),
    {
        slice_subrange(self.slice, self.cursor, self.slice.len())
    }

    /// Produce the next item and advance by one index, or report exhaustion
    /// without moving.
    pub fn next(&mut self) -> (r: Option<&'a Item>)
        requires
            old(self).wf(),
        ensures
            final(self).wf(),
            final(self).src() == old(self).src(),
            match r {
                Some(item) => {
                    &&& old(self).pos() < old(self).src().len()
                    &&& *item == old(self).src()[old(self).pos() as int]
                    &&& *item == old(self).remaining_items()[0]
                    &&& final(self).pos() == old(self).pos() + 1
                    &&& final(self).consumed_items() == old(self).consumed_items().push(*item)
                    &&& final(self).remaining_items() == old(self).remaining_items().drop_first()
                },
                None => {
                    &&& old(self).pos() == old(self).src().len()
                    &&& old(self).remaining_items().len() == 0
                    &&& *final(self) == *old(self)
                },
            },
    {
        if self.cursor < self.slice.len() {
            let item = slice_index_get(self.slice, self.cursor);
            let ghost pre = *self;
            self.cursor = self.cursor + 1;
            proof {
                assert(self.consumed_items() =~= pre.consumed_items().push(*item));
                assert(self.remaining_items() =~= pre.remaining_items().drop_first());
            }
            Some(item)
        } else {
            None
        }
    }

    /// Capture the current index as an opaque checkpoint.
    pub fn save_checkpoint(&self) -> (cp: SliceTokensCheckpoint)
        requires
            self.wf(),
        ensures
            cp.pos() == self.pos(),
            self.accepts_checkpoint(cp),
    {
        SliceTokensCheckpoint(self.cursor)
    }

    /// Reset the cursor to a previously saved position.
    pub fn rewind_to_checkpoint(&mut self, checkpoint: SliceTokensCheckpoint)
        requires
            old(self).wf(),
            old(self).accepts_checkpoint(checkpoint),
        ensures
            final(self).wf(),
            final(self).src() == old(self).src(),
            final(self).pos() == checkpoint.pos(),
    {
        self.cursor = checkpoint.0;
    }

    /// A value that is already a cursor converts to itself.
    pub fn into_tokens(self) -> (t: Self)
        ensures
            t == self,
    {
        self
    }

    /// Recover the full original source slice, regardless of how much has
    /// been consumed.
    pub fn into_source(self) -> (r: &'a [Item])
        ensures
            r@ == self.src(),
    {
        self.slice
    }
}

/// Convert a borrowed slice into a cursor positioned at its start.
pub fn into_tokens<'a, Item>(slice: &'a [Item]) -> (t: SliceTokens<'a, Item>)
    ensures
        t.wf(),
        t.src() == slice@,
        t.pos() == 0,
        t.consumed_items() == Seq::<Item>::empty(),
        t.remaining_items() == slice@,
{
    let t = SliceTokens { slice: slice, cursor: 0 };
    proof {
        assert(t.consumed_items() =~= Seq::<Item>::empty());
        assert(t.remaining_items() =~= slice@);
    }
    t
}

/// Law: at every position, the consumed prefix followed by the remaining
/// suffix is exactly the original source.
pub proof fn lemma_consumed_remaining_concat<'a, Item>(t: SliceTokens<'a, Item>)
    requires
        t.wf(),
    ensures
        t.consumed_items() + t.remaining_items() == t.src(),
{
    assert(t.consumed_items() + t.remaining_items() =~= t.src());
}

/// Law: the views a cursor presents depend only on its source and its
/// position.  Rewinding to a checkpoint therefore restores the consumed and
/// remaining views to exactly what they were when the checkpoint was saved,
/// however many items were produced in between.
pub proof fn lemma_position_determines_views<'a, 'b, Item>(
    at_save: SliceTokens<'a, Item>,
    rewound: SliceTokens<'b, Item>,
)
    requires
        rewound.src() == at_save.src(),
        rewound.pos() == at_save.pos(),
    ensures
        rewound.consumed_items() == at_save.consumed_items(),
        rewound.remaining_items() == at_save.remaining_items(),
{
}

} // verus!
