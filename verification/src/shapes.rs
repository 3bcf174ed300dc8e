//! Shape records: the typed domain model that the document store keeps.
//!
//! `ShapeKind` is the discriminated record for every drawable object.  Its
//! ghost mirror `ShapeKindV` replaces `String` by `Seq<char>` and `Vec` by
//! `Seq` so that contracts can speak about shape contents exactly; `@` maps
//! one onto the other.

use vstd::prelude::*;

use crate::canvas::{div2_trunc, imax, imin, LineStyle, Position};
use vstd::string::StrSliceExecFns;

verus! {

/// Coordinates and radii of well-formed shapes stay within this magnitude,
/// so that every derived quantity (bounds, midpoints, translations by a
/// bounded delta) fits in an `i32` without overflow.
pub const COORD_LIMIT: i32 = 0x3fffffff;

/// Text carried by a well-formed shape (labels, content, freehand strokes)
/// stays under this length.
pub const TEXT_LIMIT: usize = 0xffff;

/// Color for shapes - 16-color terminal palette.
#[derive(Debug, Clone, Copy, PartialEq, Eq, Structural)]
pub enum ShapeColor {
    White,
    Black,
    Red,
    Green,
    Yellow,
    Blue,
    Magenta,
    Cyan,
    Gray,
    DarkGray,
    LightRed,
    LightGreen,
    LightYellow,
    LightBlue,
    LightMagenta,
    LightCyan,
}

impl Default for ShapeColor {
    fn default() -> (r: Self)
        ensures
            r == ShapeColor::White,
    {
        ShapeColor::White
    }
}

/// CSS color string of a shape color, as used by the SVG exporter.
pub open spec fn color_css(c: ShapeColor) -> Seq<char> {
    match c {
        ShapeColor::White => "white"@,
        ShapeColor::Black => "black"@,
        ShapeColor::Red => "#cd0000"@,
        ShapeColor::Green => "#00cd00"@,
        ShapeColor::Yellow => "#cdcd00"@,
        ShapeColor::Blue => "#0000cd"@,
        ShapeColor::Magenta => "#cd00cd"@,
        ShapeColor::Cyan => "#00cdcd"@,
        ShapeColor::Gray => "#808080"@,
        ShapeColor::DarkGray => "#555555"@,
        ShapeColor::LightRed => "#ff0000"@,
        ShapeColor::LightGreen => "#00ff00"@,
        ShapeColor::LightYellow => "#ffff00"@,
        ShapeColor::LightBlue => "#0000ff"@,
        ShapeColor::LightMagenta => "#ff00ff"@,
        ShapeColor::LightCyan => "#00ffff"@,
    }
}

/// Display name of a shape color.
pub open spec fn color_name(c: ShapeColor) -> Seq<char> {
    match c {
        ShapeColor::White => "White"@,
        ShapeColor::Black => "Black"@,
        ShapeColor::Red => "Red"@,
        ShapeColor::Green => "Green"@,
        ShapeColor::Yellow => "Yellow"@,
        ShapeColor::Blue => "Blue"@,
        ShapeColor::Magenta => "Magenta"@,
        ShapeColor::Cyan => "Cyan"@,
        ShapeColor::Gray => "Gray"@,
        ShapeColor::DarkGray => "DarkGray"@,
        ShapeColor::LightRed => "LightRed"@,
        ShapeColor::LightGreen => "LightGreen"@,
        ShapeColor::LightYellow => "LightYellow"@,
        ShapeColor::LightBlue => "LightBlue"@,
        ShapeColor::LightMagenta => "LightMagenta"@,
        ShapeColor::LightCyan => "LightCyan"@,
    }
}

/// The cycling order of the color picker.
pub open spec fn color_next(c: ShapeColor) -> ShapeColor {
    match c {
        ShapeColor::White => ShapeColor::Red,
        ShapeColor::Red => ShapeColor::Green,
        ShapeColor::Green => ShapeColor::Yellow,
        ShapeColor::Yellow => ShapeColor::Blue,
        ShapeColor::Blue => ShapeColor::Magenta,
        ShapeColor::Magenta => ShapeColor::Cyan,
        ShapeColor::Cyan => ShapeColor::LightRed,
        ShapeColor::LightRed => ShapeColor::LightGreen,
        ShapeColor::LightGreen => ShapeColor::LightYellow,
        ShapeColor::LightYellow => ShapeColor::LightBlue,
        ShapeColor::LightBlue => ShapeColor::LightMagenta,
        ShapeColor::LightMagenta => ShapeColor::LightCyan,
        ShapeColor::LightCyan => ShapeColor::Gray,
        ShapeColor::Gray => ShapeColor::DarkGray,
        ShapeColor::DarkGray => ShapeColor::Black,
        ShapeColor::Black => ShapeColor::White,
    }
}

impl ShapeColor {
    /// Convert to CSS color string for SVG export.
    pub fn to_css(self) -> (r: &'static str)
        ensures
            r@ == color_css(self),
    {
        match self {
            ShapeColor::White => "white",
            ShapeColor::Black => "black",
            ShapeColor::Red => "#cd0000",
            ShapeColor::Green => "#00cd00",
            ShapeColor::Yellow => "#cdcd00",
            ShapeColor::Blue => "#0000cd",
            ShapeColor::Magenta => "#cd00cd",
            ShapeColor::Cyan => "#00cdcd",
            ShapeColor::Gray => "#808080",
            ShapeColor::DarkGray => "#555555",
            ShapeColor::LightRed => "#ff0000",
            ShapeColor::LightGreen => "#00ff00",
            ShapeColor::LightYellow => "#ffff00",
            ShapeColor::LightBlue => "#0000ff",
            ShapeColor::LightMagenta => "#ff00ff",
            ShapeColor::LightCyan => "#00ffff",
        }
    }

    /// Get display name for status bar.
    pub fn name(self) -> (r: &'static str)
        ensures
            r@ == color_name(self),
    {
        match self {
            ShapeColor::White => "White",
            ShapeColor::Black => "Black",
            ShapeColor::Red => "Red",
            ShapeColor::Green => "Green",
            ShapeColor::Yellow => "Yellow",
            ShapeColor::Blue => "Blue",
            ShapeColor::Magenta => "Magenta",
            ShapeColor::Cyan => "Cyan",
            ShapeColor::Gray => "Gray",
            ShapeColor::DarkGray => "DarkGray",
            ShapeColor::LightRed => "LightRed",
            ShapeColor::LightGreen => "LightGreen",
            ShapeColor::LightYellow => "LightYellow",
            ShapeColor::LightBlue => "LightBlue",
            ShapeColor::LightMagenta => "LightMagenta",
            ShapeColor::LightCyan => "LightCyan",
        }
    }

    /// Cycle to next color.
    pub fn next(self) -> (r: Self)
        ensures
            r == color_next(self),
    {
        match self {
            ShapeColor::White => ShapeColor::Red,
            ShapeColor::Red => ShapeColor::Green,
            ShapeColor::Green => ShapeColor::Yellow,
            ShapeColor::Yellow => ShapeColor::Blue,
            ShapeColor::Blue => ShapeColor::Magenta,
            ShapeColor::Magenta => ShapeColor::Cyan,
            ShapeColor::Cyan => ShapeColor::LightRed,
            ShapeColor::LightRed => ShapeColor::LightGreen,
            ShapeColor::LightGreen => ShapeColor::LightYellow,
            ShapeColor::LightYellow => ShapeColor::LightBlue,
            ShapeColor::LightBlue => ShapeColor::LightMagenta,
            ShapeColor::LightMagenta => ShapeColor::LightCyan,
            ShapeColor::LightCyan => ShapeColor::Gray,
            ShapeColor::Gray => ShapeColor::DarkGray,
            ShapeColor::DarkGray => ShapeColor::Black,
            ShapeColor::Black => ShapeColor::White,
        }
    }
}

/// Different types of shapes we can draw.
///
/// Line and arrow endpoints may be snapped to another shape; the
/// `*_connection` fields then hold that shape's full 128-bit id.
#[derive(Debug, Clone, PartialEq, Eq)]
pub enum ShapeKind {
    /// A line from start to end.
    Line {
        start: Position,
        end: Position,
        style: LineStyle,
        start_connection: Option<u128>,
        end_connection: Option<u128>,
        label: Option<String>,
        color: ShapeColor,
    },
    /// An arrow (line with arrowhead at end).
    Arrow {
        start: Position,
        end: Position,
        style: LineStyle,
        start_connection: Option<u128>,
        end_connection: Option<u128>,
        label: Option<String>,
        color: ShapeColor,
    },
    /// A rectangle defined by two corners.
    Rectangle { start: Position, end: Position, label: Option<String>, color: ShapeColor },
    /// A double-line rectangle.
    DoubleBox { start: Position, end: Position, label: Option<String>, color: ShapeColor },
    /// A diamond (rhombus) defined by center and half-dimensions.
    Diamond {
        center: Position,
        half_width: i32,
        half_height: i32,
        label: Option<String>,
        color: ShapeColor,
    },
    /// An ellipse defined by center and radii.
    Ellipse {
        center: Position,
        radius_x: i32,
        radius_y: i32,
        label: Option<String>,
        color: ShapeColor,
    },
    /// Freehand stroke - series of points.
    Freehand { points: Vec<Position>, ch: char, label: Option<String>, color: ShapeColor },
    /// Text at a position.
    Text { pos: Position, content: String, color: ShapeColor },
    /// A triangle defined by three points.
    Triangle { p1: Position, p2: Position, p3: Position, label: Option<String>, color: ShapeColor },
    /// A parallelogram defined by start and end (slanted rectangle).
    Parallelogram { start: Position, end: Position, label: Option<String>, color: ShapeColor },
    /// A hexagon defined by center and radii.
    Hexagon {
        center: Position,
        radius_x: i32,
        radius_y: i32,
        label: Option<String>,
        color: ShapeColor,
    },
    /// A trapezoid defined by start and end.
    Trapezoid { start: Position, end: Position, label: Option<String>, color: ShapeColor },
    /// A rounded rectangle.
    RoundedRect { start: Position, end: Position, label: Option<String>, color: ShapeColor },
    /// A cylinder (database symbol).
    Cylinder { start: Position, end: Position, label: Option<String>, color: ShapeColor },
    /// A cloud shape.
    Cloud { start: Position, end: Position, label: Option<String>, color: ShapeColor },
    /// A star shape.
    Star {
        center: Position,
        outer_radius: i32,
        inner_radius: i32,
        label: Option<String>,
        color: ShapeColor,
    },
}

/// Ghost mirror of `ShapeKind` with mathematical text.
pub enum ShapeKindV {
    Line {
        start: Position,
        end: Position,
        style: LineStyle,
        start_connection: Option<u128>,
        end_connection: Option<u128>,
        label: Option<Seq<char>>,
        color: ShapeColor,
    },
    Arrow {
        start: Position,
        end: Position,
        style: LineStyle,
        start_connection: Option<u128>,
        end_connection: Option<u128>,
        label: Option<Seq<char>>,
        color: ShapeColor,
    },
    Rectangle { start: Position, end: Position, label: Option<Seq<char>>, color: ShapeColor },
    DoubleBox { start: Position, end: Position, label: Option<Seq<char>>, color: ShapeColor },
    Diamond {
        center: Position,
        half_width: i32,
        half_height: i32,
        label: Option<Seq<char>>,
        color: ShapeColor,
    },
    Ellipse {
        center: Position,
        radius_x: i32,
        radius_y: i32,
        label: Option<Seq<char>>,
        color: ShapeColor,
    },
    Freehand { points: Seq<Position>, ch: char, label: Option<Seq<char>>, color: ShapeColor },
    Text { pos: Position, content: Seq<char>, color: ShapeColor },
    Triangle {
        p1: Position,
        p2: Position,
        p3: Position,
        label: Option<Seq<char>>,
        color: ShapeColor,
    },
    Parallelogram { start: Position, end: Position, label: Option<Seq<char>>, color: ShapeColor },
    Hexagon {
        center: Position,
        radius_x: i32,
        radius_y: i32,
        label: Option<Seq<char>>,
        color: ShapeColor,
    },
    Trapezoid { start: Position, end: Position, label: Option<Seq<char>>, color: ShapeColor },
    RoundedRect { start: Position, end: Position, label: Option<Seq<char>>, color: ShapeColor },
    Cylinder { start: Position, end: Position, label: Option<Seq<char>>, color: ShapeColor },
    Cloud { start: Position, end: Position, label: Option<Seq<char>>, color: ShapeColor },
    Star {
        center: Position,
        outer_radius: i32,
        inner_radius: i32,
        label: Option<Seq<char>>,
        color: ShapeColor,
    },
}

/// View of an optional owned string as optional mathematical text.
pub open spec fn opt_text(o: Option<String>) -> Option<Seq<char>> {
    match o {
        Some(s) => Some(s@),
        None => None,
    }
}

impl View for ShapeKind {
    type V = ShapeKindV;

    open spec fn view(&self) -> ShapeKindV {
        match self {
            ShapeKind::Line { start, end, style, start_connection, end_connection, label, color } => ShapeKindV::Line {
                start: *start,
                end: *end,
                style: *style,
                start_connection: *start_connection,
                end_connection: *end_connection,
                label: opt_text(*label),
                color: *color,
            },
            ShapeKind::Arrow { start, end, style, start_connection, end_connection, label, color } => ShapeKindV::Arrow {
                start: *start,
                end: *end,
                style: *style,
                start_connection: *start_connection,
                end_connection: *end_connection,
                label: opt_text(*label),
                color: *color,
            },
            ShapeKind::Rectangle { start, end, label, color } => ShapeKindV::Rectangle {
                start: *start,
                end: *end,
                label: opt_text(*label),
                color: *color,
            },
            ShapeKind::DoubleBox { start, end, label, color } => ShapeKindV::DoubleBox {
                start: *start,
                end: *end,
                label: opt_text(*label),
                color: *color,
            },
            ShapeKind::Diamond { center, half_width, half_height, label, color } => ShapeKindV::Diamond {
                center: *center,
                half_width: *half_width,
                half_height: *half_height,
                label: opt_text(*label),
                color: *color,
            },
            ShapeKind::Ellipse { center, radius_x, radius_y, label, color } => ShapeKindV::Ellipse {
                center: *center,
                radius_x: *radius_x,
                radius_y: *radius_y,
                label: opt_text(*label),
                color: *color,
            },
            ShapeKind::Freehand { points, ch, label, color } => ShapeKindV::Freehand {
                points: points@,
                ch: *ch,
                label: opt_text(*label),
                color: *color,
            },
            ShapeKind::Text { pos, content, color } => ShapeKindV::Text {
                pos: *pos,
                content: content@,
                color: *color,
            },
            ShapeKind::Triangle { p1, p2, p3, label, color } => ShapeKindV::Triangle {
                p1: *p1,
                p2: *p2,
                p3: *p3,
                label: opt_text(*label),
                color: *color,
            },
            ShapeKind::Parallelogram { start, end, label, color } => ShapeKindV::Parallelogram {
                start: *start,
                end: *end,
                label: opt_text(*label),
                color: *color,
            },
            ShapeKind::Hexagon { center, radius_x, radius_y, label, color } => ShapeKindV::Hexagon {
                center: *center,
                radius_x: *radius_x,
                radius_y: *radius_y,
                label: opt_text(*label),
                color: *color,
            },
            ShapeKind::Trapezoid { start, end, label, color } => ShapeKindV::Trapezoid {
                start: *start,
                end: *end,
                label: opt_text(*label),
                color: *color,
            },
            ShapeKind::RoundedRect { start, end, label, color } => ShapeKindV::RoundedRect {
                start: *start,
                end: *end,
                label: opt_text(*label),
                color: *color,
            },
            ShapeKind::Cylinder { start, end, label, color } => ShapeKindV::Cylinder {
                start: *start,
                end: *end,
                label: opt_text(*label),
                color: *color,
            },
            ShapeKind::Cloud { start, end, label, color } => ShapeKindV::Cloud {
                start: *start,
                end: *end,
                label: opt_text(*label),
                color: *color,
            },
            ShapeKind::Star { center, outer_radius, inner_radius, label, color } => ShapeKindV::Star {
                center: *center,
                outer_radius: *outer_radius,
                inner_radius: *inner_radius,
                label: opt_text(*label),
                color: *color,
            },
        }
    }
}

/// A coordinate or dimension of a well-formed shape.
pub open spec fn coord_ok(v: i32) -> bool {
    -COORD_LIMIT <= v <= COORD_LIMIT
}

/// A position of a well-formed shape.
pub open spec fn pos_ok(p: Position) -> bool {
    coord_ok(p.x) && coord_ok(p.y)
}

/// Optional text of a well-formed shape.
pub open spec fn text_ok(l: Option<Seq<char>>) -> bool {
    match l {
        Some(s) => s.len() <= TEXT_LIMIT,
        None => true,
    }
}

/// Well-formedness of a shape record: every coordinate, dimension and text
/// stays within the limits that keep derived arithmetic within `i32` and
/// lengths within `usize`.  The store only holds bounded shapes.
pub open spec fn kind_bounded(k: ShapeKindV) -> bool {
    match k {
        ShapeKindV::Line { start, end, label, .. } => pos_ok(start) && pos_ok(end) && text_ok(label),
        ShapeKindV::Arrow { start, end, label, .. } => pos_ok(start) && pos_ok(end) && text_ok(label),
        ShapeKindV::Rectangle { start, end, label, .. } => pos_ok(start) && pos_ok(end) && text_ok(label),
        ShapeKindV::DoubleBox { start, end, label, .. } => pos_ok(start) && pos_ok(end) && text_ok(label),
        ShapeKindV::Diamond { center, half_width, half_height, label, .. } => pos_ok(center)
            && coord_ok(half_width) && coord_ok(half_height) && text_ok(label),
        ShapeKindV::Ellipse { center, radius_x, radius_y, label, .. } => pos_ok(center)
            && coord_ok(radius_x) && coord_ok(radius_y) && text_ok(label),
        ShapeKindV::Freehand { points, label, .. } => points.len() <= TEXT_LIMIT && text_ok(label)
            && (forall|i: int| 0 <= i < points.len() ==> pos_ok(#[trigger] points[i])),
        ShapeKindV::Text { pos, content, .. } => pos_ok(pos) && content.len() <= TEXT_LIMIT,
        ShapeKindV::Triangle { p1, p2, p3, label, .. } => pos_ok(p1) && pos_ok(p2) && pos_ok(p3)
            && text_ok(label),
        ShapeKindV::Parallelogram { start, end, label, .. } => pos_ok(start) && pos_ok(end)
            && text_ok(label),
        ShapeKindV::Hexagon { center, radius_x, radius_y, label, .. } => pos_ok(center)
            && coord_ok(radius_x) && coord_ok(radius_y) && text_ok(label),
        ShapeKindV::Trapezoid { start, end, label, .. } => pos_ok(start) && pos_ok(end) && text_ok(label),
        ShapeKindV::RoundedRect { start, end, label, .. } => pos_ok(start) && pos_ok(end) && text_ok(label),
        ShapeKindV::Cylinder { start, end, label, .. } => pos_ok(start) && pos_ok(end) && text_ok(label),
        ShapeKindV::Cloud { start, end, label, .. } => pos_ok(start) && pos_ok(end) && text_ok(label),
        ShapeKindV::Star { center, outer_radius, inner_radius, label, .. } => pos_ok(center)
            && coord_ok(outer_radius) && coord_ok(inner_radius) && text_ok(label),
    }
}

/// Clone an optional label, preserving its text.
fn clone_label(l: &Option<String>) -> (r: Option<String>)
    ensures
        opt_text(r) == opt_text(*l),
{
    match l {
        Some(s) => Some(s.clone()),
        None => None,
    }
}

/// Copy a point list.
fn clone_points(v: &Vec<Position>) -> (r: Vec<Position>)
    ensures
        r@ == v@,
{
    let mut out: Vec<Position> = Vec::new();
    let mut i: usize = 0;
    while i < v.len()
        invariant
            i <= v.len(),
            out@ == v@.subrange(0, i as int),
        decreases v.len() - i,
    {
        out.push(v[i]);
        i = i + 1;
    }
    proof {
        assert(out@ =~= v@);
    }
    out
}

impl ShapeKind {
    /// A deep copy whose view equals this shape's view.
    pub fn duplicate(&self) -> (r: ShapeKind)
        ensures
            r@ == self@,
    {
        match self {
            ShapeKind::Line { start, end, style, start_connection, end_connection, label, color } => ShapeKind::Line {
                start: *start,
                end: *end,
                style: *style,
                start_connection: *start_connection,
                end_connection: *end_connection,
                label: clone_label(label),
                color: *color,
            },
            ShapeKind::Arrow { start, end, style, start_connection, end_connection, label, color } => ShapeKind::Arrow {
                start: *start,
                end: *end,
                style: *style,
                start_connection: *start_connection,
                end_connection: *end_connection,
                label: clone_label(label),
                color: *color,
            },
            ShapeKind::Rectangle { start, end, label, color } => ShapeKind::Rectangle {
                start: *start,
                end: *end,
                label: clone_label(label),
                color: *color,
            },
            ShapeKind::DoubleBox { start, end, label, color } => ShapeKind::DoubleBox {
                start: *start,
                end: *end,
                label: clone_label(label),
                color: *color,
            },
            ShapeKind::Diamond { center, half_width, half_height, label, color } => ShapeKind::Diamond {
                center: *center,
                half_width: *half_width,
                half_height: *half_height,
                label: clone_label(label),
                color: *color,
            },
            ShapeKind::Ellipse { center, radius_x, radius_y, label, color } => ShapeKind::Ellipse {
                center: *center,
                radius_x: *radius_x,
                radius_y: *radius_y,
                label: clone_label(label),
                color: *color,
            },
            ShapeKind::Freehand { points, ch, label, color } => ShapeKind::Freehand {
                points: clone_points(points),
                ch: *ch,
                label: clone_label(label),
                color: *color,
            },
            ShapeKind::Text { pos, content, color } => ShapeKind::Text {
                pos: *pos,
                content: content.clone(),
                color: *color,
            },
            ShapeKind::Triangle { p1, p2, p3, label, color } => ShapeKind::Triangle {
                p1: *p1,
                p2: *p2,
                p3: *p3,
                label: clone_label(label),
                color: *color,
            },
            ShapeKind::Parallelogram { start, end, label, color } => ShapeKind::Parallelogram {
                start: *start,
                end: *end,
                label: clone_label(label),
                color: *color,
            },
            ShapeKind::Hexagon { center, radius_x, radius_y, label, color } => ShapeKind::Hexagon {
                center: *center,
                radius_x: *radius_x,
                radius_y: *radius_y,
                label: clone_label(label),
                color: *color,
            },
            ShapeKind::Trapezoid { start, end, label, color } => ShapeKind::Trapezoid {
                start: *start,
                end: *end,
                label: clone_label(label),
                color: *color,
            },
            ShapeKind::RoundedRect { start, end, label, color } => ShapeKind::RoundedRect {
                start: *start,
                end: *end,
                label: clone_label(label),
                color: *color,
            },
            ShapeKind::Cylinder { start, end, label, color } => ShapeKind::Cylinder {
                start: *start,
                end: *end,
                label: clone_label(label),
                color: *color,
            },
            ShapeKind::Cloud { start, end, label, color } => ShapeKind::Cloud {
                start: *start,
                end: *end,
                label: clone_label(label),
                color: *color,
            },
            ShapeKind::Star { center, outer_radius, inner_radius, label, color } => ShapeKind::Star {
                center: *center,
                outer_radius: *outer_radius,
                inner_radius: *inner_radius,
                label: clone_label(label),
                color: *color,
            },
        }
    }
}

/// Name of a shape's variant.
pub open spec fn kind_name(k: ShapeKindV) -> Seq<char> {
    match k {
        ShapeKindV::Line { .. } => "Line"@,
        ShapeKindV::Arrow { .. } => "Arrow"@,
        ShapeKindV::Rectangle { .. } => "Rectangle"@,
        ShapeKindV::DoubleBox { .. } => "DoubleBox"@,
        ShapeKindV::Diamond { .. } => "Diamond"@,
        ShapeKindV::Ellipse { .. } => "Ellipse"@,
        ShapeKindV::Freehand { .. } => "Freehand"@,
        ShapeKindV::Text { .. } => "Text"@,
        ShapeKindV::Triangle { .. } => "Triangle"@,
        ShapeKindV::Parallelogram { .. } => "Parallelogram"@,
        ShapeKindV::Hexagon { .. } => "Hexagon"@,
        ShapeKindV::Trapezoid { .. } => "Trapezoid"@,
        ShapeKindV::RoundedRect { .. } => "RoundedRect"@,
        ShapeKindV::Cylinder { .. } => "Cylinder"@,
        ShapeKindV::Cloud { .. } => "Cloud"@,
        ShapeKindV::Star { .. } => "Star"@,
    }
}

/// The label of a shape; text shapes carry their content instead and have
/// no separate label.
pub open spec fn kind_label(k: ShapeKindV) -> Option<Seq<char>> {
    match k {
        ShapeKindV::Line { label, .. } => label,
        ShapeKindV::Arrow { label, .. } => label,
        ShapeKindV::Rectangle { label, .. } => label,
        ShapeKindV::DoubleBox { label, .. } => label,
        ShapeKindV::Diamond { label, .. } => label,
        ShapeKindV::Ellipse { label, .. } => label,
        ShapeKindV::Freehand { label, .. } => label,
        ShapeKindV::Text { .. } => None,
        ShapeKindV::Triangle { label, .. } => label,
        ShapeKindV::Parallelogram { label, .. } => label,
        ShapeKindV::Hexagon { label, .. } => label,
        ShapeKindV::Trapezoid { label, .. } => label,
        ShapeKindV::RoundedRect { label, .. } => label,
        ShapeKindV::Cylinder { label, .. } => label,
        ShapeKindV::Cloud { label, .. } => label,
        ShapeKindV::Star { label, .. } => label,
    }
}

/// The same shape with its label replaced; a text shape is unchanged.
pub open spec fn kind_with_label(k: ShapeKindV, l: Option<Seq<char>>) -> ShapeKindV {
    match k {
        ShapeKindV::Line { start, end, style, start_connection, end_connection, color, .. } => ShapeKindV::Line {
            start, end, style, start_connection, end_connection, label: l, color,
        },
        ShapeKindV::Arrow { start, end, style, start_connection, end_connection, color, .. } => ShapeKindV::Arrow {
            start, end, style, start_connection, end_connection, label: l, color,
        },
        ShapeKindV::Rectangle { start, end, color, .. } => ShapeKindV::Rectangle { start, end, label: l, color },
        ShapeKindV::DoubleBox { start, end, color, .. } => ShapeKindV::DoubleBox { start, end, label: l, color },
        ShapeKindV::Diamond { center, half_width, half_height, color, .. } => ShapeKindV::Diamond {
            center, half_width, half_height, label: l, color,
        },
        ShapeKindV::Ellipse { center, radius_x, radius_y, color, .. } => ShapeKindV::Ellipse {
            center, radius_x, radius_y, label: l, color,
        },
        ShapeKindV::Freehand { points, ch, color, .. } => ShapeKindV::Freehand { points, ch, label: l, color },
        ShapeKindV::Text { pos, content, color } => ShapeKindV::Text { pos, content, color },
        ShapeKindV::Triangle { p1, p2, p3, color, .. } => ShapeKindV::Triangle { p1, p2, p3, label: l, color },
        ShapeKindV::Parallelogram { start, end, color, .. } => ShapeKindV::Parallelogram { start, end, label: l, color },
        ShapeKindV::Hexagon { center, radius_x, radius_y, color, .. } => ShapeKindV::Hexagon {
            center, radius_x, radius_y, label: l, color,
        },
        ShapeKindV::Trapezoid { start, end, color, .. } => ShapeKindV::Trapezoid { start, end, label: l, color },
        ShapeKindV::RoundedRect { start, end, color, .. } => ShapeKindV::RoundedRect { start, end, label: l, color },
        ShapeKindV::Cylinder { start, end, color, .. } => ShapeKindV::Cylinder { start, end, label: l, color },
        ShapeKindV::Cloud { start, end, color, .. } => ShapeKindV::Cloud { start, end, label: l, color },
        ShapeKindV::Star { center, outer_radius, inner_radius, color, .. } => ShapeKindV::Star {
            center, outer_radius, inner_radius, label: l, color,
        },
    }
}

/// The color of a shape.
pub open spec fn kind_color(k: ShapeKindV) -> ShapeColor {
    match k {
        ShapeKindV::Line { color, .. } => color,
        ShapeKindV::Arrow { color, .. } => color,
        ShapeKindV::Rectangle { color, .. } => color,
        ShapeKindV::DoubleBox { color, .. } => color,
        ShapeKindV::Diamond { color, .. } => color,
        ShapeKindV::Ellipse { color, .. } => color,
        ShapeKindV::Freehand { color, .. } => color,
        ShapeKindV::Text { color, .. } => color,
        ShapeKindV::Triangle { color, .. } => color,
        ShapeKindV::Parallelogram { color, .. } => color,
        ShapeKindV::Hexagon { color, .. } => color,
        ShapeKindV::Trapezoid { color, .. } => color,
        ShapeKindV::RoundedRect { color, .. } => color,
        ShapeKindV::Cylinder { color, .. } => color,
        ShapeKindV::Cloud { color, .. } => color,
        ShapeKindV::Star { color, .. } => color,
    }
}

/// The same shape with its color replaced.
pub open spec fn kind_with_color(k: ShapeKindV, c: ShapeColor) -> ShapeKindV {
    match k {
        ShapeKindV::Line { start, end, style, start_connection, end_connection, label, .. } => ShapeKindV::Line {
            start, end, style, start_connection, end_connection, label, color: c,
        },
        ShapeKindV::Arrow { start, end, style, start_connection, end_connection, label, .. } => ShapeKindV::Arrow {
            start, end, style, start_connection, end_connection, label, color: c,
        },
        ShapeKindV::Rectangle { start, end, label, .. } => ShapeKindV::Rectangle { start, end, label, color: c },
        ShapeKindV::DoubleBox { start, end, label, .. } => ShapeKindV::DoubleBox { start, end, label, color: c },
        ShapeKindV::Diamond { center, half_width, half_height, label, .. } => ShapeKindV::Diamond {
            center, half_width, half_height, label, color: c,
        },
        ShapeKindV::Ellipse { center, radius_x, radius_y, label, .. } => ShapeKindV::Ellipse {
            center, radius_x, radius_y, label, color: c,
        },
        ShapeKindV::Freehand { points, ch, label, .. } => ShapeKindV::Freehand { points, ch, label, color: c },
        ShapeKindV::Text { pos, content, .. } => ShapeKindV::Text { pos, content, color: c },
        ShapeKindV::Triangle { p1, p2, p3, label, .. } => ShapeKindV::Triangle { p1, p2, p3, label, color: c },
        ShapeKindV::Parallelogram { start, end, label, .. } => ShapeKindV::Parallelogram { start, end, label, color: c },
        ShapeKindV::Hexagon { center, radius_x, radius_y, label, .. } => ShapeKindV::Hexagon {
            center, radius_x, radius_y, label, color: c,
        },
        ShapeKindV::Trapezoid { start, end, label, .. } => ShapeKindV::Trapezoid { start, end, label, color: c },
        ShapeKindV::RoundedRect { start, end, label, .. } => ShapeKindV::RoundedRect { start, end, label, color: c },
        ShapeKindV::Cylinder { start, end, label, .. } => ShapeKindV::Cylinder { start, end, label, color: c },
        ShapeKindV::Cloud { start, end, label, .. } => ShapeKindV::Cloud { start, end, label, color: c },
        ShapeKindV::Star { center, outer_radius, inner_radius, label, .. } => ShapeKindV::Star {
            center, outer_radius, inner_radius, label, color: c,
        },
    }
}

/// Every shape but text supports a label.
pub open spec fn kind_supports_label(k: ShapeKindV) -> bool {
    !(k is Text)
}

/// Connection ids of a line or arrow; other shapes connect to nothing.
pub open spec fn kind_connections(k: ShapeKindV) -> (Option<u128>, Option<u128>) {
    match k {
        ShapeKindV::Line { start_connection, end_connection, .. } => (start_connection, end_connection),
        ShapeKindV::Arrow { start_connection, end_connection, .. } => (start_connection, end_connection),
        _ => (None, None),
    }
}

impl ShapeKind {
    /// Get the human-readable name of this shape type.
    pub fn variant_name(&self) -> (r: &'static str)
        ensures
            r@ == kind_name(self@),
    {
        match self {
            ShapeKind::Line { .. } => "Line",
            ShapeKind::Arrow { .. } => "Arrow",
            ShapeKind::Rectangle { .. } => "Rectangle",
            ShapeKind::DoubleBox { .. } => "DoubleBox",
            ShapeKind::Diamond { .. } => "Diamond",
            ShapeKind::Ellipse { .. } => "Ellipse",
            ShapeKind::Freehand { .. } => "Freehand",
            ShapeKind::Text { .. } => "Text",
            ShapeKind::Triangle { .. } => "Triangle",
            ShapeKind::Parallelogram { .. } => "Parallelogram",
            ShapeKind::Hexagon { .. } => "Hexagon",
            ShapeKind::Trapezoid { .. } => "Trapezoid",
            ShapeKind::RoundedRect { .. } => "RoundedRect",
            ShapeKind::Cylinder { .. } => "Cylinder",
            ShapeKind::Cloud { .. } => "Cloud",
            ShapeKind::Star { .. } => "Star",
        }
    }

    /// Get the label for this shape (if it supports labels).
    pub fn label(&self) -> (r: Option<&str>)
        ensures
            match (r, kind_label(self@)) {
                (Some(a), Some(b)) => a@ == b,
                (None, None) => true,
                _ => false,
            },
    {
        match self {
            ShapeKind::Line { label, .. }
            | ShapeKind::Arrow { label, .. }
            | ShapeKind::Rectangle { label, .. }
            | ShapeKind::DoubleBox { label, .. }
            | ShapeKind::Diamond { label, .. }
            | ShapeKind::Ellipse { label, .. }
            | ShapeKind::Freehand { label, .. }
            | ShapeKind::Triangle { label, .. }
            | ShapeKind::Parallelogram { label, .. }
            | ShapeKind::Hexagon { label, .. }
            | ShapeKind::Trapezoid { label, .. }
            | ShapeKind::RoundedRect { label, .. }
            | ShapeKind::Cylinder { label, .. }
            | ShapeKind::Cloud { label, .. }
            | ShapeKind::Star { label, .. } => match label {
                Some(l) => Some(l.as_str()),
                None => None,
            },
            ShapeKind::Text { .. } => None,
        }
    }

    /// Set the label for this shape (if it supports labels).
    pub fn with_label(self, new_label: Option<String>) -> (r: Self)
        ensures
            r@ == kind_with_label(self@, opt_text(new_label)),
    {
        match self {
            ShapeKind::Line { start, end, style, start_connection, end_connection, color, .. } => {
                ShapeKind::Line { start, end, style, start_connection, end_connection, label: new_label, color }
            },
            ShapeKind::Arrow { start, end, style, start_connection, end_connection, color, .. } => {
                ShapeKind::Arrow { start, end, style, start_connection, end_connection, label: new_label, color }
            },
            ShapeKind::Rectangle { start, end, color, .. } => ShapeKind::Rectangle { start, end, label: new_label, color },
            ShapeKind::DoubleBox { start, end, color, .. } => ShapeKind::DoubleBox { start, end, label: new_label, color },
            ShapeKind::Diamond { center, half_width, half_height, color, .. } => {
                ShapeKind::Diamond { center, half_width, half_height, label: new_label, color }
            },
            ShapeKind::Ellipse { center, radius_x, radius_y, color, .. } => {
                ShapeKind::Ellipse { center, radius_x, radius_y, label: new_label, color }
            },
            ShapeKind::Freehand { points, ch, color, .. } => {
                ShapeKind::Freehand { points, ch, label: new_label, color }
            },
            ShapeKind::Triangle { p1, p2, p3, color, .. } => {
                ShapeKind::Triangle { p1, p2, p3, label: new_label, color }
            },
            ShapeKind::Parallelogram { start, end, color, .. } => {
                ShapeKind::Parallelogram { start, end, label: new_label, color }
            },
            ShapeKind::Hexagon { center, radius_x, radius_y, color, .. } => {
                ShapeKind::Hexagon { center, radius_x, radius_y, label: new_label, color }
            },
            ShapeKind::Trapezoid { start, end, color, .. } => {
                ShapeKind::Trapezoid { start, end, label: new_label, color }
            },
            ShapeKind::RoundedRect { start, end, color, .. } => {
                ShapeKind::RoundedRect { start, end, label: new_label, color }
            },
            ShapeKind::Cylinder { start, end, color, .. } => {
                ShapeKind::Cylinder { start, end, label: new_label, color }
            },
            ShapeKind::Cloud { start, end, color, .. } => {
                ShapeKind::Cloud { start, end, label: new_label, color }
            },
            ShapeKind::Star { center, outer_radius, inner_radius, color, .. } => {
                ShapeKind::Star { center, outer_radius, inner_radius, label: new_label, color }
            },
            other => other,
        }
    }

    /// Get the color of this shape.
    pub fn color(&self) -> (r: ShapeColor)
        ensures
            r == kind_color(self@),
    {
        match self {
            ShapeKind::Line { color, .. }
            | ShapeKind::Arrow { color, .. }
            | ShapeKind::Rectangle { color, .. }
            | ShapeKind::DoubleBox { color, .. }
            | ShapeKind::Diamond { color, .. }
            | ShapeKind::Ellipse { color, .. }
            | ShapeKind::Freehand { color, .. }
            | ShapeKind::Text { color, .. }
            | ShapeKind::Triangle { color, .. }
            | ShapeKind::Parallelogram { color, .. }
            | ShapeKind::Hexagon { color, .. }
            | ShapeKind::Trapezoid { color, .. }
            | ShapeKind::RoundedRect { color, .. }
            | ShapeKind::Cylinder { color, .. }
            | ShapeKind::Cloud { color, .. }
            | ShapeKind::Star { color, .. } => *color,
        }
    }

    /// Set the color for this shape.
    pub fn with_color(self, new_color: ShapeColor) -> (r: Self)
        ensures
            r@ == kind_with_color(self@, new_color),
    {
        match self {
            ShapeKind::Line { start, end, style, start_connection, end_connection, label, .. } => {
                ShapeKind::Line { start, end, style, start_connection, end_connection, label, color: new_color }
            },
            ShapeKind::Arrow { start, end, style, start_connection, end_connection, label, .. } => {
                ShapeKind::Arrow { start, end, style, start_connection, end_connection, label, color: new_color }
            },
            ShapeKind::Rectangle { start, end, label, .. } => ShapeKind::Rectangle { start, end, label, color: new_color },
            ShapeKind::DoubleBox { start, end, label, .. } => ShapeKind::DoubleBox { start, end, label, color: new_color },
            ShapeKind::Diamond { center, half_width, half_height, label, .. } => {
                ShapeKind::Diamond { center, half_width, half_height, label, color: new_color }
            },
            ShapeKind::Ellipse { center, radius_x, radius_y, label, .. } => {
                ShapeKind::Ellipse { center, radius_x, radius_y, label, color: new_color }
            },
            ShapeKind::Freehand { points, ch, label, .. } => {
                ShapeKind::Freehand { points, ch, label, color: new_color }
            },
            ShapeKind::Text { pos, content, .. } => ShapeKind::Text { pos, content, color: new_color },
            ShapeKind::Triangle { p1, p2, p3, label, .. } => {
                ShapeKind::Triangle { p1, p2, p3, label, color: new_color }
            },
            ShapeKind::Parallelogram { start, end, label, .. } => {
                ShapeKind::Parallelogram { start, end, label, color: new_color }
            },
            ShapeKind::Hexagon { center, radius_x, radius_y, label, .. } => {
                ShapeKind::Hexagon { center, radius_x, radius_y, label, color: new_color }
            },
            ShapeKind::Trapezoid { start, end, label, .. } => {
                ShapeKind::Trapezoid { start, end, label, color: new_color }
            },
            ShapeKind::RoundedRect { start, end, label, .. } => {
                ShapeKind::RoundedRect { start, end, label, color: new_color }
            },
            ShapeKind::Cylinder { start, end, label, .. } => {
                ShapeKind::Cylinder { start, end, label, color: new_color }
            },
            ShapeKind::Cloud { start, end, label, .. } => {
                ShapeKind::Cloud { start, end, label, color: new_color }
            },
            ShapeKind::Star { center, outer_radius, inner_radius, label, .. } => {
                ShapeKind::Star { center, outer_radius, inner_radius, label, color: new_color }
            },
        }
    }

    /// Check if this shape supports labels.
    pub fn supports_label(&self) -> (r: bool)
        ensures
            r == kind_supports_label(self@),
    {
        !matches!(self, ShapeKind::Text { .. })
    }

    /// Get connection IDs for this shape (start_connection, end_connection).
    pub fn connections(&self) -> (r: (Option<u128>, Option<u128>))
        ensures
            r == kind_connections(self@),
    {
        match self {
            ShapeKind::Line { start_connection, end_connection, .. }
            | ShapeKind::Arrow { start_connection, end_connection, .. } => {
                (*start_connection, *end_connection)
            },
            _ => (None, None),
        }
    }
}

/// A position moved by a delta.
pub open spec fn translate_pos(p: Position, dx: int, dy: int) -> Position {
    Position { x: (p.x + dx) as i32, y: (p.y + dy) as i32 }
}

/// A shape moved by a delta.  Connections of lines and arrows are dropped:
/// a moved endpoint no longer sits on the shape it was snapped to.
pub open spec fn kind_translated(k: ShapeKindV, dx: int, dy: int) -> ShapeKindV {
    match k {
        ShapeKindV::Line { start, end, style, label, color, .. } => ShapeKindV::Line {
            start: translate_pos(start, dx, dy),
            end: translate_pos(end, dx, dy),
            style,
            start_connection: None,
            end_connection: None,
            label,
            color,
        },
        ShapeKindV::Arrow { start, end, style, label, color, .. } => ShapeKindV::Arrow {
            start: translate_pos(start, dx, dy),
            end: translate_pos(end, dx, dy),
            style,
            start_connection: None,
            end_connection: None,
            label,
            color,
        },
        ShapeKindV::Rectangle { start, end, label, color } => ShapeKindV::Rectangle {
            start: translate_pos(start, dx, dy),
            end: translate_pos(end, dx, dy),
            label,
            color,
        },
        ShapeKindV::DoubleBox { start, end, label, color } => ShapeKindV::DoubleBox {
            start: translate_pos(start, dx, dy),
            end: translate_pos(end, dx, dy),
            label,
            color,
        },
        ShapeKindV::Diamond { center, half_width, half_height, label, color } => ShapeKindV::Diamond {
            center: translate_pos(center, dx, dy),
            half_width,
            half_height,
            label,
            color,
        },
        ShapeKindV::Ellipse { center, radius_x, radius_y, label, color } => ShapeKindV::Ellipse {
            center: translate_pos(center, dx, dy),
            radius_x,
            radius_y,
            label,
            color,
        },
        ShapeKindV::Freehand { points, ch, label, color } => ShapeKindV::Freehand {
            points: points.map_values(|p: Position| translate_pos(p, dx, dy)),
            ch,
            label,
            color,
        },
        ShapeKindV::Text { pos, content, color } => ShapeKindV::Text {
            pos: translate_pos(pos, dx, dy),
            content,
            color,
        },
        ShapeKindV::Triangle { p1, p2, p3, label, color } => ShapeKindV::Triangle {
            p1: translate_pos(p1, dx, dy),
            p2: translate_pos(p2, dx, dy),
            p3: translate_pos(p3, dx, dy),
            label,
            color,
        },
        ShapeKindV::Parallelogram { start, end, label, color } => ShapeKindV::Parallelogram {
            start: translate_pos(start, dx, dy),
            end: translate_pos(end, dx, dy),
            label,
            color,
        },
        ShapeKindV::Hexagon { center, radius_x, radius_y, label, color } => ShapeKindV::Hexagon {
            center: translate_pos(center, dx, dy),
            radius_x,
            radius_y,
            label,
            color,
        },
        ShapeKindV::Trapezoid { start, end, label, color } => ShapeKindV::Trapezoid {
            start: translate_pos(start, dx, dy),
            end: translate_pos(end, dx, dy),
            label,
            color,
        },
        ShapeKindV::RoundedRect { start, end, label, color } => ShapeKindV::RoundedRect {
            start: translate_pos(start, dx, dy),
            end: translate_pos(end, dx, dy),
            label,
            color,
        },
        ShapeKindV::Cylinder { start, end, label, color } => ShapeKindV::Cylinder {
            start: translate_pos(start, dx, dy),
            end: translate_pos(end, dx, dy),
            label,
            color,
        },
        ShapeKindV::Cloud { start, end, label, color } => ShapeKindV::Cloud {
            start: translate_pos(start, dx, dy),
            end: translate_pos(end, dx, dy),
            label,
            color,
        },
        ShapeKindV::Star { center, outer_radius, inner_radius, label, color } => ShapeKindV::Star {
            center: translate_pos(center, dx, dy),
            outer_radius,
            inner_radius,
            label,
            color,
        },
    }
}

/// Translate a point list in place.
fn translate_points(v: &Vec<Position>, dx: i32, dy: i32) -> (r: Vec<Position>)
    requires
        coord_ok(dx),
        coord_ok(dy),
        forall|i: int| 0 <= i < v@.len() ==> pos_ok(#[trigger] v@[i]),
    ensures
        r@ == v@.map_values(|p: Position| translate_pos(p, dx as int, dy as int)),
{
    let mut out: Vec<Position> = Vec::new();
    let mut i: usize = 0;
    while i < v.len()
        invariant
            i <= v.len(),
            coord_ok(dx),
            coord_ok(dy),
            forall|j: int| 0 <= j < v@.len() ==> pos_ok(#[trigger] v@[j]),
            out@ == v@.subrange(0, i as int).map_values(
                |p: Position| translate_pos(p, dx as int, dy as int),
            ),
        decreases v.len() - i,
    {
        let p = v[i];
        out.push(Position::new(p.x + dx, p.y + dy));
        proof {
            assert(v@.subrange(0, i + 1).map_values(
                |p: Position| translate_pos(p, dx as int, dy as int),
            ) =~= v@.subrange(0, i as int).map_values(
                |p: Position| translate_pos(p, dx as int, dy as int),
            ).push(translate_pos(v@[i as int], dx as int, dy as int)));
        }
        i = i + 1;
    }
    proof {
        assert(v@.subrange(0, v@.len() as int) =~= v@);
    }
    out
}

impl ShapeKind {
    /// Create a translated copy of this shape.
    pub fn translated(&self, dx: i32, dy: i32) -> (r: Self)
        requires
            kind_bounded(self@),
            coord_ok(dx),
            coord_ok(dy),
        ensures
            r@ == kind_translated(self@, dx as int, dy as int),
    {
        match self {
            ShapeKind::Line { start, end, style, label, color, .. } => ShapeKind::Line {
                start: Position::new(start.x + dx, start.y + dy),
                end: Position::new(end.x + dx, end.y + dy),
                style: *style,
                start_connection: None,
                end_connection: None,
                label: clone_label(label),
                color: *color,
            },
            ShapeKind::Arrow { start, end, style, label, color, .. } => ShapeKind::Arrow {
                start: Position::new(start.x + dx, start.y + dy),
                end: Position::new(end.x + dx, end.y + dy),
                style: *style,
                start_connection: None,
                end_connection: None,
                label: clone_label(label),
                color: *color,
            },
            ShapeKind::Rectangle { start, end, label, color } => ShapeKind::Rectangle {
                start: Position::new(start.x + dx, start.y + dy),
                end: Position::new(end.x + dx, end.y + dy),
                label: clone_label(label),
                color: *color,
            },
            ShapeKind::DoubleBox { start, end, label, color } => ShapeKind::DoubleBox {
                start: Position::new(start.x + dx, start.y + dy),
                end: Position::new(end.x + dx, end.y + dy),
                label: clone_label(label),
                color: *color,
            },
            ShapeKind::Diamond { center, half_width, half_height, label, color } => ShapeKind::Diamond {
                center: Position::new(center.x + dx, center.y + dy),
                half_width: *half_width,
                half_height: *half_height,
                label: clone_label(label),
                color: *color,
            },
            ShapeKind::Ellipse { center, radius_x, radius_y, label, color } => ShapeKind::Ellipse {
                center: Position::new(center.x + dx, center.y + dy),
                radius_x: *radius_x,
                radius_y: *radius_y,
                label: clone_label(label),
                color: *color,
            },
            ShapeKind::Freehand { points, ch, label, color } => ShapeKind::Freehand {
                points: translate_points(points, dx, dy),
                ch: *ch,
                label: clone_label(label),
                color: *color,
            },
            ShapeKind::Text { pos, content, color } => ShapeKind::Text {
                pos: Position::new(pos.x + dx, pos.y + dy),
                content: content.clone(),
                color: *color,
            },
            ShapeKind::Triangle { p1, p2, p3, label, color } => ShapeKind::Triangle {
                p1: Position::new(p1.x + dx, p1.y + dy),
                p2: Position::new(p2.x + dx, p2.y + dy),
                p3: Position::new(p3.x + dx, p3.y + dy),
                label: clone_label(label),
                color: *color,
            },
            ShapeKind::Parallelogram { start, end, label, color } => ShapeKind::Parallelogram {
                start: Position::new(start.x + dx, start.y + dy),
                end: Position::new(end.x + dx, end.y + dy),
                label: clone_label(label),
                color: *color,
            },
            ShapeKind::Hexagon { center, radius_x, radius_y, label, color } => ShapeKind::Hexagon {
                center: Position::new(center.x + dx, center.y + dy),
                radius_x: *radius_x,
                radius_y: *radius_y,
                label: clone_label(label),
                color: *color,
            },
            ShapeKind::Trapezoid { start, end, label, color } => ShapeKind::Trapezoid {
                start: Position::new(start.x + dx, start.y + dy),
                end: Position::new(end.x + dx, end.y + dy),
                label: clone_label(label),
                color: *color,
            },
            ShapeKind::RoundedRect { start, end, label, color } => ShapeKind::RoundedRect {
                start: Position::new(start.x + dx, start.y + dy),
                end: Position::new(end.x + dx, end.y + dy),
                label: clone_label(label),
                color: *color,
            },
            ShapeKind::Cylinder { start, end, label, color } => ShapeKind::Cylinder {
                start: Position::new(start.x + dx, start.y + dy),
                end: Position::new(end.x + dx, end.y + dy),
                label: clone_label(label),
                color: *color,
            },
            ShapeKind::Cloud { start, end, label, color } => ShapeKind::Cloud {
                start: Position::new(start.x + dx, start.y + dy),
                end: Position::new(end.x + dx, end.y + dy),
                label: clone_label(label),
                color: *color,
            },
            ShapeKind::Star { center, outer_radius, inner_radius, label, color } => ShapeKind::Star {
                center: Position::new(center.x + dx, center.y + dy),
                outer_radius: *outer_radius,
                inner_radius: *inner_radius,
                label: clone_label(label),
                color: *color,
            },
        }
    }
}

/// Decide whether a coordinate is within the representable bounds.
fn coord_in_range(v: i32) -> (r: bool)
    ensures
        r == coord_ok(v),
{
    -COORD_LIMIT <= v && v <= COORD_LIMIT
}

/// Decide whether a position is within the representable bounds.
fn pos_in_range(p: &Position) -> (r: bool)
    ensures
        r == pos_ok(*p),
{
    coord_in_range(p.x) && coord_in_range(p.y)
}

/// Decide whether an optional label is short enough.
fn label_in_range(l: &Option<String>) -> (r: bool)
    ensures
        r == text_ok(opt_text(*l)),
{
    match l {
        Some(s) => s.as_str().unicode_len() <= TEXT_LIMIT,
        None => true,
    }
}

impl ShapeKind {
    /// Decide well-formedness: every coordinate, dimension and text within
    /// the limits the store accepts.
    pub fn is_bounded(&self) -> (r: bool)
        ensures
            r == kind_bounded(self@),
    {
        match self {
            ShapeKind::Line { start, end, label, .. }
            | ShapeKind::Arrow { start, end, label, .. }
            | ShapeKind::Rectangle { start, end, label, .. }
            | ShapeKind::DoubleBox { start, end, label, .. }
            | ShapeKind::Parallelogram { start, end, label, .. }
            | ShapeKind::Trapezoid { start, end, label, .. }
            | ShapeKind::RoundedRect { start, end, label, .. }
            | ShapeKind::Cylinder { start, end, label, .. }
            | ShapeKind::Cloud { start, end, label, .. } => pos_in_range(start) && pos_in_range(end)
                && label_in_range(label),
            ShapeKind::Diamond { center, half_width, half_height, label, .. } => pos_in_range(center)
                && coord_in_range(*half_width) && coord_in_range(*half_height) && label_in_range(
                label,
            ),
            ShapeKind::Ellipse { center, radius_x, radius_y, label, .. }
            | ShapeKind::Hexagon { center, radius_x, radius_y, label, .. } => pos_in_range(center)
                && coord_in_range(*radius_x) && coord_in_range(*radius_y) && label_in_range(label),
            ShapeKind::Star { center, outer_radius, inner_radius, label, .. } => pos_in_range(center)
                && coord_in_range(*outer_radius) && coord_in_range(*inner_radius) && label_in_range(
                label,
            ),
            ShapeKind::Freehand { points, label, .. } => {
                if points.len() > TEXT_LIMIT || !label_in_range(label) {
                    return false;
                }
                let mut i: usize = 0;
                while i < points.len()
                    invariant
                        i <= points@.len(),
                        kind_bounded(self@) == (forall|j: int|
                            0 <= j < points@.len() ==> pos_ok(#[trigger] points@[j])),
                        forall|j: int| 0 <= j < i ==> pos_ok(#[trigger] points@[j]),
                    decreases points@.len() - i,
                {
                    if !pos_in_range(&points[i]) {
                        proof {
                            assert(!pos_ok(points@[i as int]));
                        }
                        return false;
                    }
                    i = i + 1;
                }
                true
            },
            ShapeKind::Text { pos, content, .. } => pos_in_range(pos) && content.as_str().unicode_len()
                <= TEXT_LIMIT,
            ShapeKind::Triangle { p1, p2, p3, label, .. } => pos_in_range(p1) && pos_in_range(p2)
                && pos_in_range(p3) && label_in_range(label),
        }
    }
}

/// The eight snap points on the border of an axis-aligned box: the four
/// corners and the four edge midpoints.
pub open spec fn box_snaps(start: Position, end: Position) -> Seq<Position> {
    let minx = imin(start.x as int, end.x as int);
    let maxx = imax(start.x as int, end.x as int);
    let miny = imin(start.y as int, end.y as int);
    let maxy = imax(start.y as int, end.y as int);
    let midx = div2_trunc(minx + maxx);
    let midy = div2_trunc(miny + maxy);
    seq![
        Position { x: minx as i32, y: miny as i32 },
        Position { x: maxx as i32, y: miny as i32 },
        Position { x: minx as i32, y: maxy as i32 },
        Position { x: maxx as i32, y: maxy as i32 },
        Position { x: midx as i32, y: miny as i32 },
        Position { x: midx as i32, y: maxy as i32 },
        Position { x: minx as i32, y: midy as i32 },
        Position { x: maxx as i32, y: midy as i32 },
    ]
}

/// The four snap points of a center-and-radii shape: top, bottom, left,
/// right.
pub open spec fn radial_snaps(center: Position, rx: int, ry: int) -> Seq<Position> {
    seq![
        Position { x: center.x, y: (center.y - ry) as i32 },
        Position { x: center.x, y: (center.y + ry) as i32 },
        Position { x: (center.x - rx) as i32, y: center.y },
        Position { x: (center.x + rx) as i32, y: center.y },
    ]
}

/// The snap points of a shape: the anchors that line and arrow endpoints
/// can attach to.
pub open spec fn kind_snap_points(k: ShapeKindV) -> Seq<Position> {
    match k {
        ShapeKindV::Rectangle { start, end, .. } => box_snaps(start, end),
        ShapeKindV::DoubleBox { start, end, .. } => box_snaps(start, end),
        ShapeKindV::Line { start, end, .. } => seq![start, end],
        ShapeKindV::Arrow { start, end, .. } => seq![start, end],
        ShapeKindV::Diamond { center, half_width, half_height, .. } => radial_snaps(
            center,
            half_width as int,
            half_height as int,
        ),
        ShapeKindV::Ellipse { center, radius_x, radius_y, .. } => radial_snaps(
            center,
            radius_x as int,
            radius_y as int,
        ),
        ShapeKindV::Text { pos, content, .. } => seq![
            pos,
            Position { x: (pos.x + content.len() - 1) as i32, y: pos.y },
        ],
        ShapeKindV::Freehand { points, .. } => if points.len() == 0 {
            Seq::empty()
        } else if points.len() == 1 {
            seq![points[0]]
        } else {
            seq![points[0], points[points.len() - 1]]
        },
        ShapeKindV::Triangle { p1, p2, p3, .. } => seq![p1, p2, p3],
        ShapeKindV::Parallelogram { start, end, .. } => box_snaps(start, end),
        ShapeKindV::Trapezoid { start, end, .. } => box_snaps(start, end),
        ShapeKindV::RoundedRect { start, end, .. } => box_snaps(start, end),
        ShapeKindV::Cylinder { start, end, .. } => box_snaps(start, end),
        ShapeKindV::Cloud { start, end, .. } => box_snaps(start, end),
        ShapeKindV::Hexagon { center, radius_x, radius_y, .. } => radial_snaps(
            center,
            radius_x as int,
            radius_y as int,
        ),
        ShapeKindV::Star { center, outer_radius, .. } => radial_snaps(
            center,
            outer_radius as int,
            outer_radius as int,
        ),
    }
}

/// Build the eight box snap points.
fn push_box_snaps(start: Position, end: Position) -> (r: Vec<Position>)
    requires
        pos_ok(start),
        pos_ok(end),
    ensures
        r@ == box_snaps(start, end),
{
    let min_x = if start.x <= end.x { start.x } else { end.x };
    let max_x = if start.x <= end.x { end.x } else { start.x };
    let min_y = if start.y <= end.y { start.y } else { end.y };
    let max_y = if start.y <= end.y { end.y } else { start.y };
    let mid_x = crate::canvas::mid_i32(min_x, max_x);
    let mid_y = crate::canvas::mid_i32(min_y, max_y);
    let mut out: Vec<Position> = Vec::new();
    out.push(Position::new(min_x, min_y));
    out.push(Position::new(max_x, min_y));
    out.push(Position::new(min_x, max_y));
    out.push(Position::new(max_x, max_y));
    out.push(Position::new(mid_x, min_y));
    out.push(Position::new(mid_x, max_y));
    out.push(Position::new(min_x, mid_y));
    out.push(Position::new(max_x, mid_y));
    proof {
        assert(out@ =~= box_snaps(start, end));
    }
    out
}

/// Build the four radial snap points.
fn push_radial_snaps(center: Position, rx: i32, ry: i32) -> (r: Vec<Position>)
    requires
        pos_ok(center),
        coord_ok(rx),
        coord_ok(ry),
    ensures
        r@ == radial_snaps(center, rx as int, ry as int),
{
    let mut out: Vec<Position> = Vec::new();
    out.push(Position::new(center.x, center.y - ry));
    out.push(Position::new(center.x, center.y + ry));
    out.push(Position::new(center.x - rx, center.y));
    out.push(Position::new(center.x + rx, center.y));
    proof {
        assert(out@ =~= radial_snaps(center, rx as int, ry as int));
    }
    out
}

impl ShapeKind {
    /// Get snap points for this shape (used for connection updates during
    /// resize).
    pub fn snap_points(&self) -> (r: Vec<Position>)
        requires
            kind_bounded(self@),
        ensures
            r@ == kind_snap_points(self@),
    {
        match self {
            ShapeKind::Rectangle { start, end, .. } => push_box_snaps(*start, *end),
            ShapeKind::DoubleBox { start, end, .. } => push_box_snaps(*start, *end),
            ShapeKind::Parallelogram { start, end, .. } => push_box_snaps(*start, *end),
            ShapeKind::Trapezoid { start, end, .. } => push_box_snaps(*start, *end),
            ShapeKind::RoundedRect { start, end, .. } => push_box_snaps(*start, *end),
            ShapeKind::Cylinder { start, end, .. } => push_box_snaps(*start, *end),
            ShapeKind::Cloud { start, end, .. } => push_box_snaps(*start, *end),
            ShapeKind::Line { start, end, .. } | ShapeKind::Arrow { start, end, .. } => {
                let mut out: Vec<Position> = Vec::new();
                out.push(*start);
                out.push(*end);
                proof {
                    assert(out@ =~= kind_snap_points(self@));
                }
                out
            },
            ShapeKind::Diamond { center, half_width, half_height, .. } => push_radial_snaps(
                *center,
                *half_width,
                *half_height,
            ),
            ShapeKind::Ellipse { center, radius_x, radius_y, .. } => push_radial_snaps(
                *center,
                *radius_x,
                *radius_y,
            ),
            ShapeKind::Hexagon { center, radius_x, radius_y, .. } => push_radial_snaps(
                *center,
                *radius_x,
                *radius_y,
            ),
            ShapeKind::Star { center, outer_radius, .. } => push_radial_snaps(
                *center,
                *outer_radius,
                *outer_radius,
            ),
            ShapeKind::Text { pos, content, .. } => {
                let len = content.as_str().unicode_len();
                let mut out: Vec<Position> = Vec::new();
                out.push(*pos);
                out.push(Position::new(pos.x + len as i32 - 1, pos.y));
                proof {
                    assert(out@ =~= kind_snap_points(self@));
                }
                out
            },
            ShapeKind::Freehand { points, .. } => {
                let mut out: Vec<Position> = Vec::new();
                if points.len() > 0 {
                    out.push(points[0]);
                    if points.len() > 1 {
                        out.push(points[points.len() - 1]);
                    }
                }
                proof {
                    assert(out@ =~= kind_snap_points(self@));
                }
                out
            },
            ShapeKind::Triangle { p1, p2, p3, .. } => {
                let mut out: Vec<Position> = Vec::new();
                out.push(*p1);
                out.push(*p2);
                out.push(*p3);
                proof {
                    assert(out@ =~= kind_snap_points(self@));
                }
                out
            },
        }
    }

    /// Translate line/arrow endpoints by (dx, dy) for ends connected to
    /// `target_id`; `None` when nothing is connected to it.
    pub fn translate_connected_endpoints(&self, target_id: u128, dx: i32, dy: i32) -> (r: Option<
        ShapeKind,
    >)
        requires
            kind_bounded(self@),
            coord_ok(dx),
            coord_ok(dy),
        ensures
            match (r, kind_conn_translated(self@, target_id, dx as int, dy as int)) {
                (Some(a), Some(b)) => a@ == b,
                (None, None) => true,
                _ => false,
            },
    {
        match self {
            ShapeKind::Line { start, end, style, start_connection, end_connection, label, color } => {
                let move_start = *start_connection == Some(target_id);
                let move_end = *end_connection == Some(target_id);
                if move_start || move_end {
                    Some(ShapeKind::Line {
                        start: if move_start { Position::new(start.x + dx, start.y + dy) } else { *start },
                        end: if move_end { Position::new(end.x + dx, end.y + dy) } else { *end },
                        style: *style,
                        start_connection: *start_connection,
                        end_connection: *end_connection,
                        label: clone_label(label),
                        color: *color,
                    })
                } else {
                    None
                }
            },
            ShapeKind::Arrow { start, end, style, start_connection, end_connection, label, color } => {
                let move_start = *start_connection == Some(target_id);
                let move_end = *end_connection == Some(target_id);
                if move_start || move_end {
                    Some(ShapeKind::Arrow {
                        start: if move_start { Position::new(start.x + dx, start.y + dy) } else { *start },
                        end: if move_end { Position::new(end.x + dx, end.y + dy) } else { *end },
                        style: *style,
                        start_connection: *start_connection,
                        end_connection: *end_connection,
                        label: clone_label(label),
                        color: *color,
                    })
                } else {
                    None
                }
            },
            _ => None,
        }
    }
}

/// Magnitude of a coordinate difference.
pub open spec fn iabs(n: int) -> int {
    if n >= 0 {
        n
    } else {
        -n
    }
}

/// Manhattan distance between two positions.
pub open spec fn manhattan(p: Position, q: Position) -> int {
    iabs(p.x - q.x) + iabs(p.y - q.y)
}

/// The best (index, distance) among the first `n` snap candidates: the
/// earliest strictly-nearest one.
pub open spec fn best_snap(pos: Position, olds: Seq<Position>, n: int) -> Option<(int, int)>
    decreases n,
{
    if n <= 0 {
        None
    } else {
        let d = manhattan(pos, olds[n - 1]);
        match best_snap(pos, olds, n - 1) {
            None => Some((n - 1, d)),
            Some((bi, bd)) => if d < bd {
                Some((n - 1, d))
            } else {
                Some((bi, bd))
            },
        }
    }
}

/// Where a connected endpoint moves when a shape is resized: the new
/// snap point at the index of the Manhattan-nearest old snap point, or
/// nothing when there is no candidate at that index.
pub open spec fn corresponding_snap(
    pos: Position,
    olds: Seq<Position>,
    news: Seq<Position>,
) -> Option<Position> {
    match best_snap(pos, olds, olds.len() as int) {
        Some((bi, d)) => if bi < news.len() {
            Some(news[bi])
        } else {
            None
        },
        None => None,
    }
}

/// Find which old snap point a position matches and return the
/// corresponding new snap point.
pub fn find_corresponding_snap(pos: &Position, old_snaps: &Vec<Position>, new_snaps: &Vec<
    Position,
>) -> (r: Option<Position>)
    ensures
        r == corresponding_snap(*pos, old_snaps@, new_snaps@),
{
    let mut best_idx: Option<usize> = None;
    let mut best_dist: i64 = 0;
    let n = old_snaps.len();
    let mut i: usize = 0;
    while i < n
        invariant
            i <= n,
            n == old_snaps@.len(),
            match best_idx {
                Some(bi) => best_snap(*pos, old_snaps@, i as int) == Some(
                    (bi as int, best_dist as int),
                ),
                None => best_snap(*pos, old_snaps@, i as int) is None && i == 0,
            },
        decreases n - i,
    {
        let sp = old_snaps[i];
        let dx: i64 = pos.x as i64 - sp.x as i64;
        let dy: i64 = pos.y as i64 - sp.y as i64;
        let dist: i64 = (if dx >= 0 {
            dx
        } else {
            -dx
        }) + (if dy >= 0 {
            dy
        } else {
            -dy
        });
        proof {
            assert(dist == manhattan(*pos, old_snaps@[i as int]));
        }
        match best_idx {
            None => {
                best_idx = Some(i);
                best_dist = dist;
            },
            Some(_) => {
                if dist < best_dist {
                    best_idx = Some(i);
                    best_dist = dist;
                }
            },
        }
        i = i + 1;
    }
    match best_idx {
        Some(bi) => {
            if bi < new_snaps.len() {
                Some(new_snaps[bi])
            } else {
                None
            }
        },
        None => None,
    }
}

/// Where the endpoints of a line or arrow move when the shape they are
/// snapped to is resized; `None` when no endpoint is connected to it or
/// no endpoint finds a matching snap point.
pub open spec fn kind_resize_translated(
    k: ShapeKindV,
    target: u128,
    olds: Seq<Position>,
    news: Seq<Position>,
) -> Option<ShapeKindV> {
    match k {
        ShapeKindV::Line { start, end, style, start_connection, end_connection, label, color } => {
            let ms = start_connection == Some(target) && corresponding_snap(start, olds, news)
                is Some;
            let me = end_connection == Some(target) && corresponding_snap(end, olds, news)
                is Some;
            if ms || me {
                Some(
                    ShapeKindV::Line {
                        start: if ms {
                            corresponding_snap(start, olds, news)->0
                        } else {
                            start
                        },
                        end: if me {
                            corresponding_snap(end, olds, news)->0
                        } else {
                            end
                        },
                        style,
                        start_connection,
                        end_connection,
                        label,
                        color,
                    },
                )
            } else {
                None
            }
        },
        ShapeKindV::Arrow { start, end, style, start_connection, end_connection, label, color } => {
            let ms = start_connection == Some(target) && corresponding_snap(start, olds, news)
                is Some;
            let me = end_connection == Some(target) && corresponding_snap(end, olds, news)
                is Some;
            if ms || me {
                Some(
                    ShapeKindV::Arrow {
                        start: if ms {
                            corresponding_snap(start, olds, news)->0
                        } else {
                            start
                        },
                        end: if me {
                            corresponding_snap(end, olds, news)->0
                        } else {
                            end
                        },
                        style,
                        start_connection,
                        end_connection,
                        label,
                        color,
                    },
                )
            } else {
                None
            }
        },
        _ => None,
    }
}

impl ShapeKind {
    /// Move the endpoints snapped to `target_id` to their corresponding
    /// snap points after a resize; `None` when nothing applies.
    pub fn resize_connected_endpoints(
        &self,
        target_id: u128,
        old_snaps: &Vec<Position>,
        new_snaps: &Vec<Position>,
    ) -> (r: Option<ShapeKind>)
        ensures
            match (r, kind_resize_translated(self@, target_id, old_snaps@, new_snaps@)) {
                (Some(a), Some(b)) => a@ == b,
                (None, None) => true,
                _ => false,
            },
    {
        match self {
            ShapeKind::Line { start, end, style, start_connection, end_connection, label, color } => {
                let cs = find_corresponding_snap(start, old_snaps, new_snaps);
                let ce = find_corresponding_snap(end, old_snaps, new_snaps);
                let ms = *start_connection == Some(target_id) && cs.is_some();
                let me = *end_connection == Some(target_id) && ce.is_some();
                if ms || me {
                    Some(
                        ShapeKind::Line {
                            start: if ms {
                                match cs {
                                    Some(p) => p,
                                    None => *start,
                                }
                            } else {
                                *start
                            },
                            end: if me {
                                match ce {
                                    Some(p) => p,
                                    None => *end,
                                }
                            } else {
                                *end
                            },
                            style: *style,
                            start_connection: *start_connection,
                            end_connection: *end_connection,
                            label: clone_label(label),
                            color: *color,
                        },
                    )
                } else {
                    None
                }
            },
            ShapeKind::Arrow { start, end, style, start_connection, end_connection, label, color } => {
                let cs = find_corresponding_snap(start, old_snaps, new_snaps);
                let ce = find_corresponding_snap(end, old_snaps, new_snaps);
                let ms = *start_connection == Some(target_id) && cs.is_some();
                let me = *end_connection == Some(target_id) && ce.is_some();
                if ms || me {
                    Some(
                        ShapeKind::Arrow {
                            start: if ms {
                                match cs {
                                    Some(p) => p,
                                    None => *start,
                                }
                            } else {
                                *start
                            },
                            end: if me {
                                match ce {
                                    Some(p) => p,
                                    None => *end,
                                }
                            } else {
                                *end
                            },
                            style: *style,
                            start_connection: *start_connection,
                            end_connection: *end_connection,
                            label: clone_label(label),
                            color: *color,
                        },
                    )
                } else {
                    None
                }
            },
            _ => None,
        }
    }
}

/// The connection-following translation: a line or arrow whose start or
/// end is snapped to `target` has that endpoint moved by the delta;
/// anything else is left alone (`None`).
pub open spec fn kind_conn_translated(k: ShapeKindV, target: u128, dx: int, dy: int) -> Option<
    ShapeKindV,
> {
    match k {
        ShapeKindV::Line { start, end, style, start_connection, end_connection, label, color } => {
            let ms = start_connection == Some(target);
            let me = end_connection == Some(target);
            if ms || me {
                Some(ShapeKindV::Line {
                    start: if ms { translate_pos(start, dx, dy) } else { start },
                    end: if me { translate_pos(end, dx, dy) } else { end },
                    style,
                    start_connection,
                    end_connection,
                    label,
                    color,
                })
            } else {
                None
            }
        },
        ShapeKindV::Arrow { start, end, style, start_connection, end_connection, label, color } => {
            let ms = start_connection == Some(target);
            let me = end_connection == Some(target);
            if ms || me {
                Some(ShapeKindV::Arrow {
                    start: if ms { translate_pos(start, dx, dy) } else { start },
                    end: if me { translate_pos(end, dx, dy) } else { end },
                    style,
                    start_connection,
                    end_connection,
                    label,
                    color,
                })
            } else {
                None
            }
        },
        _ => None,
    }
}

} // verus!
