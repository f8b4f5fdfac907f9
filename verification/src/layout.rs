use vstd::prelude::*;
use crate::style::StyledNode;

verus! {

/// A rectangle over the integers: the model of a `Rect`, in which sums and
/// differences of coordinates never overflow.
pub struct Area {
    pub x: int,
    pub y: int,
    pub width: int,
    pub height: int,
}

/// Whether `v` can be held in a coordinate of a `Rect`.
pub open spec fn is_coordinate(v: int) -> bool {
    i32::MIN <= v <= i32::MAX
}

impl Area {
    /// Whether a `Rect` can hold this rectangle.
    pub open spec fn fits(self) -> bool {
        &&& is_coordinate(self.x)
        &&& is_coordinate(self.y)
        &&& is_coordinate(self.width)
        &&& is_coordinate(self.height)
    }

    /// This rectangle with `edge` added on each side.
    pub open spec fn grown_by(self, edge: EdgeSizes) -> Area {
        Area {
            x: self.x - edge.left,
            y: self.y - edge.top,
            width: self.width + edge.left + edge.right,
            height: self.height + edge.top + edge.bottom,
        }
    }
}

/// A rectangle in whole pixels.
#[derive(Clone, Copy, Debug, PartialEq, Eq, Structural)]
pub struct Rect {
    pub x: i32,
    pub y: i32,
    pub width: i32,
    pub height: i32,
}

impl View for Rect {
    type V = Area;

    open spec fn view(&self) -> Area {
        Area { x: self.x as int, y: self.y as int, width: self.width as int, height: self.height as int }
    }
}

/// The thickness of the four sides of a padding, border or margin.
#[derive(Clone, Copy, Debug, PartialEq, Eq, Structural)]
pub struct EdgeSizes {
    pub left: i32,
    pub right: i32,
    pub top: i32,
    pub bottom: i32,
}

/// The geometry of a box: its content rectangle and the edges around it.
#[derive(Clone, Copy, Debug, PartialEq, Eq, Structural)]
pub struct Dimensions {
    pub content: Rect,
    pub padding: EdgeSizes,
    pub border: EdgeSizes,
    pub margin: EdgeSizes,
}

impl Dimensions {
    /// The content rectangle with the padding and the border around it. The
    /// margin is not part of it.
    pub open spec fn border_area(self) -> Area {
        self.content@.grown_by(self.padding).grown_by(self.border)
    }

    /// Whether a `Rect` can hold the border box.
    pub fn has_border_box(&self) -> (fits: bool)
        ensures
            fits == self.border_area().fits(),
    {
        let x: i64 = self.content.x as i64 - self.padding.left as i64 - self.border.left as i64;
        let y: i64 = self.content.y as i64 - self.padding.top as i64 - self.border.top as i64;
        let width: i64 = self.content.width as i64 + self.padding.left as i64
            + self.padding.right as i64 + self.border.left as i64 + self.border.right as i64;
        let height: i64 = self.content.height as i64 + self.padding.top as i64
            + self.padding.bottom as i64 + self.border.top as i64 + self.border.bottom as i64;
        fits_coordinate(x) && fits_coordinate(y) && fits_coordinate(width) && fits_coordinate(
            height,
        )
    }

    /// The border box.
    pub fn border_box(&self) -> (rect: Rect)
        requires
            self.border_area().fits(),
        ensures
            rect@ == self.border_area(),
    {
        let x: i64 = self.content.x as i64 - self.padding.left as i64 - self.border.left as i64;
        let y: i64 = self.content.y as i64 - self.padding.top as i64 - self.border.top as i64;
        let width: i64 = self.content.width as i64 + self.padding.left as i64
            + self.padding.right as i64 + self.border.left as i64 + self.border.right as i64;
        let height: i64 = self.content.height as i64 + self.padding.top as i64
            + self.padding.bottom as i64 + self.border.top as i64 + self.border.bottom as i64;
        Rect { x: x as i32, y: y as i32, width: width as i32, height: height as i32 }
    }
}

/// Whether `v` can be held in a coordinate of a `Rect`.
pub fn fits_coordinate(v: i64) -> (fits: bool)
    ensures
        fits == is_coordinate(v as int),
{
    -2147483648 <= v && v <= 2147483647
}

/// What a box was laid out for: a styled node shown as a block or inline, or
/// nothing, for a box that only groups inline boxes inside a block.
#[derive(Debug)]
pub enum BoxType<'a> {
    BlockNode(&'a StyledNode<'a>),
    InlineNode(&'a StyledNode<'a>),
    AnonymousBlock,
}

/// A box of the layout tree, with its children in document order.
#[derive(Debug)]
pub struct LayoutBox<'a> {
    pub dimensions: Dimensions,
    pub box_type: BoxType<'a>,
    pub children: Vec<LayoutBox<'a>>,
}

impl<'a> LayoutBox<'a> {
    /// The styled node that the box was laid out for, if any.
    pub open spec fn styled_node(self) -> Option<StyledNode<'a>> {
        match self.box_type {
            BoxType::BlockNode(style) => Some(*style),
            BoxType::InlineNode(style) => Some(*style),
            BoxType::AnonymousBlock => None,
        }
    }
}

} // verus!
