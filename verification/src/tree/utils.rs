use vstd::prelude::*;

use crate::tree::node::Node;

verus! {

/// The colour of a tree node. A missing child counts as `Black`.
#[derive(Clone, Copy, PartialEq, Eq, Structural, Debug)]
pub enum Color {
    Red,
    Black,
}

/// One of the two child positions of a node. Carrying the direction as a
/// value lets the left- and right-handed rebalancing cases share one
/// implementation.
#[derive(Clone, Copy, PartialEq, Eq, Structural, Debug)]
pub enum Direction {
    Left,
    Right,
}

/// A rotation descriptor: a single rotation towards `dir`, or a double
/// rotation resolving the inner-grandchild case towards `dir`.
#[derive(Clone, Copy, Debug)]
pub enum RotationType {
    Single(Direction),
    Double(Direction),
}

impl Direction {
    /// The other direction.
    pub open spec fn flip(self) -> Direction {
        match self {
            Direction::Left => Direction::Right,
            Direction::Right => Direction::Left,
        }
    }

    pub fn opposite(&self) -> (d: Direction)
        ensures
            d == self.flip(),
    {
        match self {
            Direction::Left => Direction::Right,
            Direction::Right => Direction::Left,
        }
    }
}

impl RotationType {
    /// The direction the rotation turns towards.
    pub open spec fn direction(self) -> Direction {
        match self {
            RotationType::Single(d) => d,
            RotationType::Double(d) => d,
        }
    }

    pub fn get_direction(&self) -> (d: Direction)
        ensures
            d == self.direction(),
    {
        match self {
            RotationType::Single(d) => *d,
            RotationType::Double(d) => *d,
        }
    }
}

/// The colour of an optional node: a missing child reads as `Black`.
pub fn get_color(node_or_leaf: Option<&Box<Node>>) -> (c: Color)
    ensures
        c == (match node_or_leaf {
            Some(node) => node.color,
            None => Color::Black,
        }),
{
    match node_or_leaf {
        Some(node) => node.color,
        None => Color::Black,
    }
}

} // verus!
