//! The pixel-sink capability set: an abstract `plot` primitive with color and
//! dimension accessors, and a concrete sink that records every plotted pixel.
use vstd::prelude::*;

verus! {

/// An 8-bit-per-channel color.
#[derive(Clone, Copy, PartialEq, Eq, Structural, Debug)]
pub struct Rgb {
    pub r: u8,
    pub g: u8,
    pub b: u8,
}

impl Rgb {
    /// The color with the given channels.
    pub fn new(r: u8, g: u8, b: u8) -> (c: Rgb)
        ensures
            c == (Rgb { r, g, b }),
    {
        Rgb { r, g, b }
    }
}

/// One pixel write: position, interpolated depth in milli-units, and the
/// foreground color it was written with.
#[derive(Clone, Copy, PartialEq, Eq, Structural, Debug)]
pub struct PlotEvent {
    pub x: i64,
    pub y: i64,
    pub z: i64,
    pub color: Rgb,
}

/// A sink of pixel-plus-depth writes. The rasterization routines are written
/// purely against this capability set; `events` is the ordered record of every
/// `plot` call, which concrete sinks realize as they see fit.
pub trait Canvas: Sized {
    /// The ordered record of pixel writes so far.
    spec fn events(&self) -> Seq<PlotEvent>;

    /// The current foreground color.
    spec fn fg(&self) -> Rgb;

    /// The current background color.
    spec fn bg(&self) -> Rgb;

    /// The canvas width in pixels.
    spec fn dim_w(&self) -> u32;

    /// The canvas height in pixels.
    spec fn dim_h(&self) -> u32;

    /// Plot a point at (x, y) with depth z, in the current foreground color.
    fn plot(&mut self, x: i64, y: i64, z: i64)
        ensures
            final(self).events() == old(self).events().push(
                PlotEvent { x, y, z, color: old(self).fg() },
            ),
            final(self).fg() == old(self).fg(),
            final(self).bg() == old(self).bg(),
            final(self).dim_w() == old(self).dim_w(),
            final(self).dim_h() == old(self).dim_h(),
    ;

    /// Set the foreground color.
    fn set_fg_color(&mut self, color: Rgb)
        ensures
            final(self).events() == old(self).events(),
            final(self).fg() == color,
            final(self).bg() == old(self).bg(),
            final(self).dim_w() == old(self).dim_w(),
            final(self).dim_h() == old(self).dim_h(),
    ;

    /// Set the background color.
    fn set_bg_color(&mut self, color: Rgb)
        ensures
            final(self).events() == old(self).events(),
            final(self).fg() == old(self).fg(),
            final(self).bg() == color,
            final(self).dim_w() == old(self).dim_w(),
            final(self).dim_h() == old(self).dim_h(),
    ;

    /// The foreground color.
    fn get_fg_color(&self) -> (c: Rgb)
        ensures
            c == self.fg(),
    ;

    /// The background color.
    fn get_bg_color(&self) -> (c: Rgb)
        ensures
            c == self.bg(),
    ;

    /// How many plot calls have been recorded.
    fn events_len(&self) -> (n: usize)
        ensures
            n == self.events().len(),
    ;

    /// The width in pixels.
    fn width(&self) -> (w: u32)
        ensures
            w == self.dim_w(),
    ;

    /// The height in pixels.
    fn height(&self) -> (h: u32)
        ensures
            h == self.dim_h(),
    ;
}

/// A pixel sink that records the plot calls themselves, in order. It is the
/// library's own canvas; sinks that rasterize to a real buffer live with the
/// surrounding application.
pub struct TraceCanvas {
    pub w: u32,
    pub h: u32,
    pub fg_color: Rgb,
    pub bg_color: Rgb,
    pub log: Vec<PlotEvent>,
}

impl TraceCanvas {
    /// A recording canvas of the given dimensions, white on black.
    pub fn new(w: u32, h: u32) -> (c: TraceCanvas)
        ensures
            c.events().len() == 0,
            c.fg() == (Rgb { r: 255, g: 255, b: 255 }),
            c.bg() == (Rgb { r: 0, g: 0, b: 0 }),
            c.dim_w() == w,
            c.dim_h() == h,
    {
        TraceCanvas {
            w,
            h,
            fg_color: Rgb { r: 255, g: 255, b: 255 },
            bg_color: Rgb { r: 0, g: 0, b: 0 },
            log: Vec::new(),
        }
    }

    /// The recorded pixel writes, oldest first.
    pub fn recorded(&self) -> (r: &Vec<PlotEvent>)
        ensures
            r@ == self.events(),
    {
        &self.log
    }
}

impl Canvas for TraceCanvas {
    open spec fn events(&self) -> Seq<PlotEvent> {
        self.log@
    }

    open spec fn fg(&self) -> Rgb {
        self.fg_color
    }

    open spec fn bg(&self) -> Rgb {
        self.bg_color
    }

    open spec fn dim_w(&self) -> u32 {
        self.w
    }

    open spec fn dim_h(&self) -> u32 {
        self.h
    }

    fn plot(&mut self, x: i64, y: i64, z: i64) {
        let color: Rgb = self.fg_color;
        self.log.push(PlotEvent { x, y, z, color });
    }

    fn set_fg_color(&mut self, color: Rgb) {
        self.fg_color = color;
    }

    fn set_bg_color(&mut self, color: Rgb) {
        self.bg_color = color;
    }

    fn get_fg_color(&self) -> (c: Rgb) {
        self.fg_color
    }

    fn get_bg_color(&self) -> (c: Rgb) {
        self.bg_color
    }

    fn events_len(&self) -> (n: usize) {
        self.log.len()
    }

    fn width(&self) -> (w: u32) {
        self.w
    }

    fn height(&self) -> (h: u32) {
        self.h
    }
}

} // verus!
