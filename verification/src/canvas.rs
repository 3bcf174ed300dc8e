//! Canvas cells and coordinates.
//!
//! `Position` is a cell coordinate on an unbounded canvas (coordinates may
//! be negative).  `Canvas` is a sparse grid of non-space characters, and
//! `Viewport` maps between screen and canvas coordinates.

use vstd::prelude::*;

verus! {

/// A position on the canvas (can be negative for infinite canvas feel).
#[derive(Debug, Clone, Copy, PartialEq, Eq, Hash, Structural)]
pub struct Position {
    pub x: i32,
    pub y: i32,
}

impl Position {
    pub fn new(x: i32, y: i32) -> (p: Position)
        ensures
            p.x == x,
            p.y == y,
    {
        Position { x, y }
    }
}

/// The smaller of two coordinates.
pub open spec fn imin(a: int, b: int) -> int {
    if a <= b {
        a
    } else {
        b
    }
}

/// The larger of two coordinates.
pub open spec fn imax(a: int, b: int) -> int {
    if a <= b {
        b
    } else {
        a
    }
}

/// Division by two that truncates toward zero, as Rust's `/` does on
/// signed integers.
pub open spec fn div2_trunc(n: int) -> int {
    if n >= 0 {
        n / 2
    } else {
        -((-n) / 2)
    }
}

/// Midpoint of two coordinates, truncating toward zero.
pub fn mid_i32(a: i32, b: i32) -> (m: i32)
    ensures
        m == div2_trunc(a + b),
{
    let s: i64 = a as i64 + b as i64;
    if s >= 0 {
        ((s as u64) / 2) as i32
    } else {
        let h: u64 = ((-s) as u64) / 2;
        let m: i64 = -(h as i64);
        m as i32
    }
}

/// Line drawing style.
#[derive(Debug, Clone, Copy, PartialEq, Eq, Structural)]
pub enum LineStyle {
    /// Straight line with appropriate characters for direction.
    Straight,
    /// Orthogonal: horizontal first, then vertical.
    OrthogonalHV,
    /// Orthogonal: vertical first, then horizontal.
    OrthogonalVH,
}

impl Default for LineStyle {
    fn default() -> (r: Self)
        ensures
            r == LineStyle::Straight,
    {
        LineStyle::Straight
    }
}

impl LineStyle {
    /// Cycle to the next line style.
    pub fn next(self) -> (r: Self)
        ensures
            r == match self {
                LineStyle::Straight => LineStyle::OrthogonalHV,
                LineStyle::OrthogonalHV => LineStyle::OrthogonalVH,
                LineStyle::OrthogonalVH => LineStyle::Straight,
            },
    {
        match self {
            LineStyle::Straight => LineStyle::OrthogonalHV,
            LineStyle::OrthogonalHV => LineStyle::OrthogonalVH,
            LineStyle::OrthogonalVH => LineStyle::Straight,
        }
    }

    pub fn name(&self) -> (r: &'static str)
        ensures
            r@ == line_style_name(*self),
    {
        match self {
            LineStyle::Straight => "Straight",
            LineStyle::OrthogonalHV => "Ortho H→V",
            LineStyle::OrthogonalVH => "Ortho V→H",
        }
    }
}

/// Display name of a line style.
pub open spec fn line_style_name(s: LineStyle) -> Seq<char> {
    match s {
        LineStyle::Straight => "Straight"@,
        LineStyle::OrthogonalHV => "Ortho H→V"@,
        LineStyle::OrthogonalVH => "Ortho V→H"@,
    }
}

/// Viewport - what part of the canvas is visible.
#[derive(Debug, Clone)]
pub struct Viewport {
    pub offset_x: i32,
    pub offset_y: i32,
    pub width: u16,
    pub height: u16,
}

impl Viewport {
    pub fn new(width: u16, height: u16) -> (v: Viewport)
        ensures
            v.offset_x == 0,
            v.offset_y == 0,
            v.width == width,
            v.height == height,
    {
        Viewport { offset_x: 0, offset_y: 0, width, height }
    }

    /// Convert screen coordinates to canvas coordinates.
    pub fn screen_to_canvas(&self, screen_x: u16, screen_y: u16) -> (p: Position)
        requires
            screen_x + self.offset_x <= i32::MAX,
            screen_y + self.offset_y <= i32::MAX,
        ensures
            p.x == screen_x + self.offset_x,
            p.y == screen_y + self.offset_y,
    {
        Position::new(screen_x as i32 + self.offset_x, screen_y as i32 + self.offset_y)
    }

    /// Convert canvas coordinates to screen coordinates (if visible).
    pub fn canvas_to_screen(&self, pos: Position) -> (r: Option<(u16, u16)>)
        ensures
            match r {
                Some((sx, sy)) => {
                    &&& sx == pos.x - self.offset_x
                    &&& sy == pos.y - self.offset_y
                    &&& sx < self.width
                    &&& sy < self.height
                },
                None => {
                    ||| pos.x - self.offset_x < 0
                    ||| pos.x - self.offset_x >= self.width
                    ||| pos.y - self.offset_y < 0
                    ||| pos.y - self.offset_y >= self.height
                },
            },
    {
        let screen_x: i64 = pos.x as i64 - self.offset_x as i64;
        let screen_y: i64 = pos.y as i64 - self.offset_y as i64;
        if screen_x >= 0 && screen_x < self.width as i64 && screen_y >= 0 && screen_y < self.height as i64 {
            Some((screen_x as u16, screen_y as u16))
        } else {
            None
        }
    }

    /// Pan the viewport.
    pub fn pan(&mut self, dx: i32, dy: i32)
        requires
            i32::MIN <= old(self).offset_x + dx <= i32::MAX,
            i32::MIN <= old(self).offset_y + dy <= i32::MAX,
        ensures
            final(self).offset_x == old(self).offset_x + dx,
            final(self).offset_y == old(self).offset_y + dy,
            final(self).width == old(self).width,
            final(self).height == old(self).height,
    {
        self.offset_x = self.offset_x + dx;
        self.offset_y = self.offset_y + dy;
    }

    /// Resize the viewport.
    pub fn resize(&mut self, width: u16, height: u16)
        ensures
            final(self).width == width,
            final(self).height == height,
            final(self).offset_x == old(self).offset_x,
            final(self).offset_y == old(self).offset_y,
    {
        self.width = width;
        self.height = height;
    }
}

} // verus!
