use vstd::prelude::*;

verus! {

/// A resampling kernel used by a resize.
#[derive(Clone, Copy, Debug, PartialEq, Eq, Structural)]
pub enum SampleFilter {
    Nearest,
    Triangle,
    CatmullRom,
    Gaussian,
    Lanczos3,
}

/// A named preset colour transform.
#[derive(Clone, Copy, Debug, PartialEq, Eq, Structural)]
pub enum Filter {
    Oceanic,
    Islands,
    Marine,
}

/// One step of an image transformation.
#[derive(Clone, Copy, Debug, PartialEq, Eq, Structural)]
pub enum Operation {
    Resize { width: u32, height: u32, filter: SampleFilter },
    Watermark { x: u32, y: u32 },
    Filter { kind: Filter },
}

/// An ordered list of operations, applied first to last.
#[derive(Clone, Debug, PartialEq, Eq)]
pub struct ImageSpec {
    pub specs: Vec<Operation>,
}

impl ImageSpec {
    pub open spec fn view(&self) -> Seq<Operation> {
        self.specs@
    }

    pub fn new(specs: Vec<Operation>) -> (r: ImageSpec)
        ensures
            r@ == specs@,
    {
        ImageSpec { specs }
    }
}

impl Operation {
    pub fn new_resize(width: u32, height: u32, filter: SampleFilter) -> (r: Operation)
        ensures
            r == (Operation::Resize { width, height, filter }),
    {
        Operation::Resize { width, height, filter }
    }

    pub fn new_watermark(x: u32, y: u32) -> (r: Operation)
        ensures
            r == (Operation::Watermark { x, y }),
    {
        Operation::Watermark { x, y }
    }

    pub fn new_filter(kind: Filter) -> (r: Operation)
        ensures
            r == (Operation::Filter { kind }),
    {
        Operation::Filter { kind }
    }
}

} // verus!
