//! The six directions from which side panels look at the cube.
use vstd::prelude::*;

verus! {

#[derive(Debug, Clone, Copy, PartialEq, Eq, Structural)]
pub enum ViewDirection {
    Top,
    Bottom,
    Left,
    Right,
    Front,
    Back,
}

/// The panel label of a direction.
pub open spec fn label_of(d: ViewDirection) -> Seq<char> {
    match d {
        ViewDirection::Top => "TOP"@,
        ViewDirection::Bottom => "BOTTOM"@,
        ViewDirection::Left => "LEFT"@,
        ViewDirection::Right => "RIGHT"@,
        ViewDirection::Front => "FRONT"@,
        ViewDirection::Back => "BACK"@,
    }
}

impl ViewDirection {
    /// All six directions, in panel order.
    pub fn all() -> (r: [ViewDirection; 6])
        ensures
            r@ == seq![
                ViewDirection::Top,
                ViewDirection::Left,
                ViewDirection::Right,
                ViewDirection::Back,
                ViewDirection::Front,
                ViewDirection::Bottom,
            ],
    {
        let r = [
            ViewDirection::Top,
            ViewDirection::Left,
            ViewDirection::Right,
            ViewDirection::Back,
            ViewDirection::Front,
            ViewDirection::Bottom,
        ];
        assert(r@ =~= seq![
            ViewDirection::Top,
            ViewDirection::Left,
            ViewDirection::Right,
            ViewDirection::Back,
            ViewDirection::Front,
            ViewDirection::Bottom,
        ]);
        r
    }

    /// The label shown on this direction's panel.
    pub fn label(&self) -> (r: &'static str)
        ensures
            r@ == label_of(*self),
    {
        match self {
            ViewDirection::Top => "TOP",
            ViewDirection::Bottom => "BOTTOM",
            ViewDirection::Left => "LEFT",
            ViewDirection::Right => "RIGHT",
            ViewDirection::Front => "FRONT",
            ViewDirection::Back => "BACK",
        }
    }
}

} // verus!
