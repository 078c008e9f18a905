//! What the calculator's window is made from.

use vstd::prelude::*;

verus! {

/// What a window asks of the engine behind it.
pub trait MathInput {
    /// The value of `expr`.
    fn calculate(&self, expr: &str) -> i32;
}

/// A window: its title, its size in pixels and the engine it asks.
pub struct CalculatorWindow {
    title: &'static str,
    width: u32,
    height: u32,
    input: Box<dyn MathInput>,
}

impl CalculatorWindow {
    /// The window's title.
    pub closed spec fn spec_title(&self) -> &'static str {
        self.title
    }

    /// The window's width in pixels.
    pub closed spec fn spec_width(&self) -> u32 {
        self.width
    }

    /// The window's height in pixels.
    pub closed spec fn spec_height(&self) -> u32 {
        self.height
    }

    /// The engine that the window asks.
    pub closed spec fn spec_input(&self) -> &Box<dyn MathInput> {
        &self.input
    }

    /// A window with the given title, size and engine.
    pub fn new(title: &'static str, width: u32, height: u32, input: Box<dyn MathInput>) -> (window:
        CalculatorWindow)
        ensures
            window.spec_title() == title,
            window.spec_width() == width,
            window.spec_height() == height,
            *window.spec_input() === input,
    {
        CalculatorWindow { title, width, height, input }
    }

    /// The window's title.
    #[verifier::when_used_as_spec(spec_title)]
    pub fn title(&self) -> (title: &'static str)
        ensures
            title == self.spec_title(),
    {
        self.title
    }

    /// The window's width in pixels.
    #[verifier::when_used_as_spec(spec_width)]
    pub fn width(&self) -> (width: u32)
        ensures
            width == self.spec_width(),
    {
        self.width
    }

    /// The window's height in pixels.
    #[verifier::when_used_as_spec(spec_height)]
    pub fn height(&self) -> (height: u32)
        ensures
            height == self.spec_height(),
    {
        self.height
    }

    /// The engine that the window asks.
    pub fn input(&self) -> (input: &Box<dyn MathInput>)
        ensures
            input == self.spec_input(),
    {
        &self.input
    }
}

} // verus!
