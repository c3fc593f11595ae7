//! What is painted onto a window: areas that are filled, and texts.

use vstd::prelude::*;

verus! {

/// A colour as the system holds it: blue, green and red from the highest byte to the lowest.
pub open spec fn colour_of(red: u8, green: u8, blue: u8) -> u32 {
    (red + green * 0x100 + blue * 0x1_0000) as u32
}

/// A colour as the system holds it.
#[must_use]
pub fn rgb(red: u8, green: u8, blue: u8) -> (r: u32)
    ensures
        r == colour_of(red, green, blue),
{
    red as u32 + green as u32 * 0x100 + blue as u32 * 0x1_0000
}

/// A rectangle in pixels; `right` and `bottom` lie just outside of it.
#[derive(Debug, Clone, Copy, PartialEq, Eq, Structural)]
pub struct Area {
    pub left: i32,
    pub top: i32,
    pub right: i32,
    pub bottom: i32,
}

/// The area between these edges.
pub open spec fn area(left: int, top: int, right: int, bottom: int) -> Area {
    Area { left: left as i32, top: top as i32, right: right as i32, bottom: bottom as i32 }
}

/// An area without its edges.
pub open spec fn inset(outer: Area, x: int, y: int) -> Area {
    area(outer.left + x, outer.top + y, outer.right - x, outer.bottom - y)
}

/// The area between these edges.
#[must_use]
pub fn rect_xy(left: i32, top: i32, right: i32, bottom: i32) -> (r: Area)
    ensures
        r == area(left as int, top as int, right as int, bottom as int),
{
    Area { left, top, right, bottom }
}

/// An area without its edges.
#[must_use]
pub fn inset_rect(rect: Area, x: i32, y: i32) -> (r: Area)
    requires
        i32::MIN <= rect.left + x <= i32::MAX,
        i32::MIN <= rect.top + y <= i32::MAX,
        i32::MIN <= rect.right - x <= i32::MAX,
        i32::MIN <= rect.bottom - y <= i32::MAX,
    ensures
        r == inset(rect, x as int, y as int),
{
    Area { left: rect.left + x, top: rect.top + y, right: rect.right - x, bottom: rect.bottom - y }
}

/// How a text is set into its area.
#[derive(Debug, Clone, Copy, PartialEq, Eq, Structural)]
pub enum TextStyle {
    /// One line at the left.
    Left,
    /// One line at the left, cut where it does not fit.
    LeftCut,
    /// One line at the right.
    Right,
    /// One line at the right, cut where it does not fit.
    RightCut,
    /// One line at the top left, cut where it does not fit.
    TopLeftCut,
    /// As many lines as it takes, cut where they do not fit.
    Block,
}

/// The system's number for a style: 2 for the right, 4 for halfway between top and bottom, 0x20 for a
/// single line, and 0x8000 for a cut that is marked.
pub open spec fn style_number(style: TextStyle) -> u32 {
    match style {
        TextStyle::Left => 0x24,
        TextStyle::LeftCut => 0x8024,
        TextStyle::Right => 0x26,
        TextStyle::RightCut => 0x8026,
        TextStyle::TopLeftCut => 0x8020,
        TextStyle::Block => 0x8000,
    }
}

impl TextStyle {
    /// The system's number for a style; see [`style_number`].
    #[must_use]
    pub fn number(self) -> (r: u32)
        ensures
            r == style_number(self),
    {
        match self {
            TextStyle::Left => 0x24,
            TextStyle::LeftCut => 0x8024,
            TextStyle::Right => 0x26,
            TextStyle::RightCut => 0x8026,
            TextStyle::TopLeftCut => 0x8020,
            TextStyle::Block => 0x8000,
        }
    }
}

/// Something that is painted.
#[derive(Debug)]
pub enum Paint {
    Fill { area: Area, colour: u32 },
    Text { area: Area, text: String, colour: u32, style: TextStyle },
}

/// Something that is painted.
pub enum PaintView {
    Fill { area: Area, colour: u32 },
    Text { area: Area, text: Seq<char>, colour: u32, style: TextStyle },
}

impl View for Paint {
    type V = PaintView;

    open spec fn view(&self) -> PaintView {
        match *self {
            Paint::Fill { area, colour } => PaintView::Fill { area, colour },
            Paint::Text { area, text, colour, style } => PaintView::Text {
                area,
                text: text@,
                colour,
                style,
            },
        }
    }
}

/// What is painted, in order.
pub open spec fn paints_view(paints: Seq<Paint>) -> Seq<PaintView> {
    paints.map_values(|paint: Paint| paint@)
}

/// Fills an area.
pub fn fill(out: &mut Vec<Paint>, area: Area, colour: u32)
    ensures
        paints_view(final(out)@) == paints_view(old(out)@).push(PaintView::Fill { area, colour }),
{
    out.push(Paint::Fill { area, colour });
    assert(paints_view(out@) =~= paints_view(old(out)@).push(PaintView::Fill { area, colour }));
}

/// Sets a text into an area.
pub fn draw_text(out: &mut Vec<Paint>, area: Area, text: &str, colour: u32, style: TextStyle)
    ensures
        paints_view(final(out)@) == paints_view(old(out)@).push(
            PaintView::Text { area, text: text@, colour, style },
        ),
{
    out.push(Paint::Text { area, text: text.to_owned(), colour, style });
    assert(paints_view(out@) =~= paints_view(old(out)@).push(
        PaintView::Text { area, text: text@, colour, style },
    ));
}

} // verus!
