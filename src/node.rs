//! Arena nodes and the links between them.
use vstd::prelude::*;

verus! {

/// Position of a node in the arena.
pub type Idx = usize;

/// A child link: an arena index, or `IDX_NONE` for no child.
#[derive(Clone, Copy, Debug, PartialEq, Eq, Structural)]
pub struct OptionIdx(pub Idx);

/// The index that a link holds when it points nowhere; no node is ever stored there.
pub const IDX_NONE: Idx = usize::MAX;

impl OptionIdx {
    pub open spec fn spec_option(self) -> Option<Idx> {
        if self.0 == IDX_NONE {
            None
        } else {
            Some(self.0)
        }
    }

    #[inline]
    pub fn to_option(self) -> (r: Option<Idx>)
        ensures
            r == self.spec_option(),
    {
        if self == OptionIdx(IDX_NONE) {
            None
        } else {
            Some(self.0)
        }
    }
}

pub struct Node<K, V> {
    pub key: K,
    pub value: V,
    pub left: OptionIdx,
    pub right: OptionIdx,
}

#[derive(Clone, Copy, Debug, PartialEq, Eq, Structural)]
pub enum Dir {
    Left,
    Right,
}

impl Dir {
    pub open spec fn spec_flip(self) -> Dir {
        match self {
            Dir::Right => Dir::Left,
            Dir::Left => Dir::Right,
        }
    }

    #[inline]
    pub fn flip(self) -> (r: Self)
        ensures
            r == self.spec_flip(),
    {
        match self {
            Dir::Right => Dir::Left,
            Dir::Left => Dir::Right,
        }
    }
}

impl<K, V> Node<K, V> {
    /// The link on side `d`.
    pub open spec fn link(self, d: Dir) -> OptionIdx {
        match d {
            Dir::Left => self.left,
            Dir::Right => self.right,
        }
    }

    /// The same node with the link on side `d` replaced.
    pub open spec fn with_link(self, d: Dir, to: OptionIdx) -> Node<K, V> {
        match d {
            Dir::Left => Node { left: to, ..self },
            Dir::Right => Node { right: to, ..self },
        }
    }
}

} // verus!
