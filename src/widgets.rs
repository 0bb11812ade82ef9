//! What a widget reports after handling an event.
use vstd::prelude::*;

verus! {

/// A size on screen, in pixels.
#[derive(Clone, Copy, Debug, PartialEq, Eq, Structural)]
pub struct ScreenDims {
    pub width: u64,
    pub height: u64,
}

/// A position on screen, in pixels from the top left corner.
#[derive(Clone, Copy, Debug, PartialEq, Eq, Structural)]
pub struct ScreenPt {
    pub x: i64,
    pub y: i64,
}

/// Create a new widget by implementing this trait.
pub trait WidgetImpl {
    /// What width and height does the widget occupy? If this changes, be sure to set
    /// `redo_layout` to true in `event`.
    fn get_dims(&self) -> ScreenDims;

    /// Your widget's top left corner should be here.
    fn set_pos(&mut self, top_left: ScreenPt);

    /// Your chance to react to an event. Any side effects outside of this widget are
    /// communicated through the output.
    fn event(&mut self, output: &mut WidgetOutput);

    /// If a new panel is being created to replace an older one, all widgets have the chance
    /// to preserve state from the previous version.
    fn can_restore(&self) -> bool {
        false
    }
}

#[derive(Debug, PartialEq, Eq)]
pub enum Outcome {
    /// An action was done
    Clicked(String),
    /// A dropdown, checkbox, spinner, etc changed values. Usually this triggers a refresh of
    /// everything, so not useful to plumb along what changed.
    Changed,
    /// Nothing happened
    Nothing,
}

pub struct WidgetOutput {
    /// This widget changed dimensions, so recalculate layout.
    pub redo_layout: bool,
    /// This widget produced an Outcome, and event handling should immediately stop. Most
    /// widgets shouldn't set this.
    pub outcome: Outcome,
}

impl WidgetOutput {
    /// No layout change and no outcome.
    pub fn new() -> (r: WidgetOutput)
        ensures
            !r.redo_layout,
            r.outcome is Nothing,
    {
        WidgetOutput { redo_layout: false, outcome: Outcome::Nothing }
    }
}

} // verus!
