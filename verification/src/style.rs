use vstd::prelude::*;

verus! {

/// What a style marks.
#[derive(Debug, Clone, Copy, PartialEq, Eq, Structural)]
pub enum MarkType {
    Plain,
    Mark,
    Tag,
    Hide,
    Search,
}

impl MarkType {
    /// The position of the kind in a table of styles.
    pub fn as_ix(&self) -> (ix: usize)
        ensures
            ix == match self {
                MarkType::Plain => 0usize,
                MarkType::Mark => 1usize,
                MarkType::Tag => 2usize,
                MarkType::Hide => 3usize,
                MarkType::Search => 4usize,
            },
    {
        match self {
            MarkType::Plain => 0,
            MarkType::Mark => 1,
            MarkType::Tag => 2,
            MarkType::Hide => 3,
            MarkType::Search => 4,
        }
    }
}

/// A style by name: the kind of mark and the turn in the cycle of that kind's
/// colors. Which color that is, the one who draws decides.
#[derive(Debug, Clone, Copy, PartialEq, Eq, Structural)]
pub struct MarkStyle {
    pub variant: MarkType,
    pub index: isize,
}

impl MarkStyle {
    /// The style of plain text.
    pub fn new() -> (style: MarkStyle)
        ensures
            style == (MarkStyle { variant: MarkType::Plain, index: 0 }),
    {
        MarkStyle { variant: MarkType::Plain, index: 0 }
    }

    /// Moves on to the next color. From the greatest index the cycle starts
    /// over at 0.
    pub fn cycle_forward(&mut self)
        ensures
            final(self).variant == old(self).variant,
            final(self).index == if old(self).index == isize::MAX {
                0
            } else {
                old(self).index + 1
            },
    {
        if self.index == isize::MAX {
            self.index = 0;
        } else {
            self.index += 1;
        }
    }

    /// Moves back to the color before. From the least index the cycle starts
    /// over at 0.
    pub fn cycle_backward(&mut self)
        ensures
            final(self).variant == old(self).variant,
            final(self).index == if old(self).index == isize::MIN {
                0
            } else {
                old(self).index - 1
            },
    {
        if self.index == isize::MIN {
            self.index = 0;
        } else {
            self.index -= 1;
        }
    }

    /// The same turn in the cycle of another kind.
    pub fn get(&self, variant: MarkType) -> (style: MarkStyle)
        ensures
            style == (MarkStyle { variant, index: self.index }),
    {
        MarkStyle { variant, index: self.index }
    }

    /// The color of this style among the `len` colors of its kind: the index
    /// taken around the cycle, forward from color 0 for an index from 0 up,
    /// backward from the last color for an index below 0.
    pub fn slot(&self, len: usize) -> (slot: usize)
        requires
            0 < len,
        ensures
            slot == slot_of(self.index as int, len as int),
            slot < len,
    {
        if self.index >= 0 {
            (self.index as usize) % len
        } else {
            let back = (-(self.index + 1)) as usize;
            len - 1 - back % len
        }
    }
}

/// Index `index` taken around a cycle of `len` colors.
pub open spec fn slot_of(index: int, len: int) -> int {
    if index >= 0 {
        index % len
    } else {
        len - 1 - (-(index + 1)) % len
    }
}

} // verus!
