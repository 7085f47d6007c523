//! Route shapes: the marks that tell the routes of a world apart.

use vstd::prelude::*;

verus! {

/// The mark that a route is drawn with. A world holds at most one route of
/// each shape.
#[derive(Debug, Clone, Copy, PartialEq, Eq, Hash, Structural)]
pub enum RouteShape {
    Plus,
    Cross,
    Star,
}

impl RouteShape {
    /// Every shape, in declaration order.
    pub open spec fn all() -> Seq<RouteShape> {
        seq![RouteShape::Plus, RouteShape::Cross, RouteShape::Star]
    }

    /// Returns all shape variants.
    pub fn values() -> (v: Vec<RouteShape>)
        ensures
            v@ == RouteShape::all(),
    {
        let mut v: Vec<RouteShape> = Vec::new();
        v.push(RouteShape::Plus);
        v.push(RouteShape::Cross);
        v.push(RouteShape::Star);
        assert(v@ =~= RouteShape::all());
        v
    }
}

/// Handles the selection of one shape among a series of shapes.
#[derive(Debug, Clone)]
pub struct ShapeSelector {
    selected: Option<usize>,
    shapes: Vec<RouteShape>,
}

/// The state of a shape selector.
pub struct ShapeSelectorView {
    /// The place of the selected shape, if one is selected.
    pub selected: Option<int>,
    /// The shapes on offer.
    pub shapes: Seq<RouteShape>,
}

impl ShapeSelectorView {
    /// The selected place, if any, is that of a shape on offer.
    pub open spec fn wf(self) -> bool {
        self.selected matches Some(i) ==> 0 <= i < self.shapes.len()
    }
}

impl View for ShapeSelector {
    type V = ShapeSelectorView;

    closed spec fn view(&self) -> ShapeSelectorView {
        ShapeSelectorView {
            selected: match self.selected {
                Some(i) => Some(i as int),
                None => None,
            },
            shapes: self.shapes@,
        }
    }
}

impl ShapeSelector {
    /// Creates a new shape selector that offers every shape and has none
    /// selected.
    pub fn new() -> (selector: ShapeSelector)
        ensures
            selector@.selected is None,
            selector@.shapes == RouteShape::all(),
            selector@.wf(),
    {
        ShapeSelector { selected: None, shapes: RouteShape::values() }
    }

    /// Returns the selected shape, if any.
    pub fn selected(&self) -> (shape: Option<RouteShape>)
        requires
            self@.wf(),
        ensures
            shape == match self@.selected {
                Some(i) => Some(self@.shapes[i]),
                None => None,
            },
    {
        match self.selected {
            Some(index) => Some(self.shapes[index]),
            None => None,
        }
    }

    /// Selects the shape at the given place if it is not selected, and
    /// selects nothing if it is.
    pub fn toggle(&mut self, index: usize)
        requires
            index < old(self)@.shapes.len(),
        ensures
            final(self)@.shapes == old(self)@.shapes,
            final(self)@.selected == (if old(self)@.selected == Some(index as int) {
                None
            } else {
                Some(index as int)
            }),
            final(self)@.wf(),
    {
        self.selected = match self.selected {
            Some(current) => if current == index {
                None
            } else {
                Some(index)
            },
            None => Some(index),
        };
    }

    /// Returns the first place of the given shape among the shapes on offer.
    pub fn find(&self, shape: RouteShape) -> (place: Option<usize>)
        ensures
            match place {
                Some(i) => i < self@.shapes.len() && self@.shapes[i as int] == shape && forall|
                    k: int,
                | 0 <= k < i ==> self@.shapes[k] != shape,
                None => !self@.shapes.contains(shape),
            },
    {
        let mut i: usize = 0;
        while i < self.shapes.len()
            invariant
                i <= self.shapes@.len(),
                forall|k: int| 0 <= k < i ==> self.shapes@[k] != shape,
            decreases self.shapes@.len() - i,
        {
            if self.shapes[i] == shape {
                return Some(i);
            }
            i += 1;
        }
        None
    }

    /// Returns all shapes on offer in this selector.
    pub fn shapes(&self) -> (shapes: &[RouteShape])
        ensures
            shapes@ == self@.shapes,
    {
        self.shapes.as_slice()
    }
}

} // verus!
