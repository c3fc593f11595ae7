//! What the native window looks like: where its controls stand, and what is painted around them.

use vstd::prelude::*;

use crate::dashboard::OutlineRow;
use crate::desktop::UiScanProgress;
use crate::format::{format_bytes, format_count, grouped, size_text};
use crate::graph::{path_of, EntryView, FileGraph};
use crate::native_app::{drive_control_id, drive_number, NativeApp, NativeResult, NativeState,
    NativeTab, IDC_AUTO, IDC_CANCEL, IDC_FALLBACK, IDC_NTFS, IDC_PATH, IDC_SCAN, IDC_TAB_FILES,
    IDC_TAB_TREE, IDC_TAB_TREEMAP, IDC_TAB_TYPES};
use crate::numbers::{decimal, push_decimal};
use crate::paint::{area, colour_of, draw_text, fill, inset, inset_rect, paints_view, rect_xy, rgb,
    Area, Paint, PaintView, TextStyle};
use crate::scan::ScanSummary;
use crate::startup::ui_scanner_label;
use crate::stats::FileTypeStat;
use crate::text::{push_repeated, push_text};
use crate::treemap::FileRow;

verus! {

/// The height of the bar at the top.
pub const TOP_HEIGHT: i32 = 64;

/// The width of the rail at the left.
pub const RAIL_WIDTH: i32 = 312;

/// The height of a row of a table.
pub const ROW_HEIGHT: i32 = 27;

// Colours are red, green and blue from the lowest byte on.

pub const COLOR_BG: u32 = 18 + 20 * 0x100 + 22 * 0x1_0000;

pub const COLOR_TOP: u32 = 26 + 28 * 0x100 + 30 * 0x1_0000;

pub const COLOR_RAIL: u32 = 22 + 24 * 0x100 + 26 * 0x1_0000;

pub const COLOR_PANEL: u32 = 30 + 33 * 0x100 + 36 * 0x1_0000;

pub const COLOR_PANEL_ALT: u32 = 37 + 40 * 0x100 + 43 * 0x1_0000;

pub const COLOR_CONTROL: u32 = 17 + 19 * 0x100 + 21 * 0x1_0000;

pub const COLOR_LINE: u32 = 52 + 56 * 0x100 + 60 * 0x1_0000;

pub const COLOR_TEXT: u32 = 232 + 235 * 0x100 + 236 * 0x1_0000;

pub const COLOR_MUTED: u32 = 154 + 158 * 0x100 + 162 * 0x1_0000;

pub const COLOR_WARN: u32 = 224 + 164 * 0x100 + 82 * 0x1_0000;

pub const COLOR_ERROR: u32 = 238 + 112 * 0x100 + 104 * 0x1_0000;

// ---------------------------------------------------------------------------------------------
// Where the controls stand
// ---------------------------------------------------------------------------------------------

/// Where a control stands, and how large it is.
#[derive(Debug, Clone, Copy, PartialEq, Eq, Structural)]
pub struct Placed {
    pub id: u16,
    pub x: i32,
    pub y: i32,
    pub width: i32,
    pub height: i32,
}

/// Where the button of the `k`-th drive stands: three of them on a line.
pub open spec fn drive_place(k: nat) -> Placed {
    Placed {
        id: drive_number(k),
        x: (18 + 86 * (k % 3)) as i32,
        y: (222 + 34 * (k / 3)) as i32,
        width: 78,
        height: 28,
    }
}

/// Where the controls stand that are always there.
pub open spec fn fixed_places() -> Seq<Placed> {
    seq![
        Placed { id: IDC_PATH, x: 18, y: 128, width: 276, height: 26 },
        Placed { id: IDC_AUTO, x: 18, y: 184, width: 72, height: 30 },
        Placed { id: IDC_NTFS, x: 98, y: 184, width: 72, height: 30 },
        Placed { id: IDC_FALLBACK, x: 178, y: 184, width: 94, height: 30 },
        Placed { id: IDC_SCAN, x: 18, y: 258, width: 108, height: 34 },
        Placed { id: IDC_CANCEL, x: 136, y: 258, width: 108, height: 34 },
        Placed { id: IDC_TAB_TREE, x: 337, y: 82, width: 74, height: 30 },
        Placed { id: IDC_TAB_FILES, x: 417, y: 82, width: 74, height: 30 },
        Placed { id: IDC_TAB_TYPES, x: 497, y: 82, width: 74, height: 30 },
        Placed { id: IDC_TAB_TREEMAP, x: 577, y: 82, width: 104, height: 30 },
    ]
}

/// Where the controls stand, with buttons for so many drives.
#[must_use]
pub fn layout_controls(drives: usize) -> (r: Vec<Placed>)
    requires
        222 + 34 * (drives / 3) <= i32::MAX,
    ensures
        r@ == fixed_places() + Seq::new(drives as nat, |k: int| drive_place(k as nat)),
{
    let mut r: Vec<Placed> = vec![
        Placed { id: IDC_PATH, x: 18, y: 128, width: 276, height: 26 },
        Placed { id: IDC_AUTO, x: 18, y: 184, width: 72, height: 30 },
        Placed { id: IDC_NTFS, x: 98, y: 184, width: 72, height: 30 },
        Placed { id: IDC_FALLBACK, x: 178, y: 184, width: 94, height: 30 },
        Placed { id: IDC_SCAN, x: 18, y: 258, width: 108, height: 34 },
        Placed { id: IDC_CANCEL, x: 136, y: 258, width: 108, height: 34 },
        Placed { id: IDC_TAB_TREE, x: 337, y: 82, width: 74, height: 30 },
        Placed { id: IDC_TAB_FILES, x: 417, y: 82, width: 74, height: 30 },
        Placed { id: IDC_TAB_TYPES, x: 497, y: 82, width: 74, height: 30 },
        Placed { id: IDC_TAB_TREEMAP, x: 577, y: 82, width: 104, height: 30 },
    ];
    let mut x: i32 = 18;
    let mut y: i32 = 222;
    let mut k: usize = 0;
    assert(r@ =~= fixed_places() + Seq::new(0, |k: int| drive_place(k as nat)));
    while k < drives
        invariant
            k <= drives,
            222 + 34 * (drives / 3) <= i32::MAX,
            x == 18 + 86 * (k % 3),
            y == 222 + 34 * (k / 3),
            r@ == fixed_places() + Seq::new(k as nat, |k: int| drive_place(k as nat)),
        decreases drives - k,
    {
        let ghost before = r@;
        r.push(Placed { id: drive_control_id(k), x, y, width: 78, height: 28 });
        x += 86;
        if x + 78 > RAIL_WIDTH - 18 {
            x = 18;
            y += 34;
        }
        k += 1;
        assert(r@ =~= fixed_places() + Seq::new(k as nat, |k: int| drive_place(k as nat)));
    }
    r
}

// ---------------------------------------------------------------------------------------------
// The frame
// ---------------------------------------------------------------------------------------------

/// A text that is painted.
pub open spec fn text_at(at: Area, text: Seq<char>, colour: u32, style: TextStyle) -> PaintView {
    PaintView::Text { area: at, text, colour, style }
}

/// An area that is filled.
pub open spec fn filled(at: Area, colour: u32) -> PaintView {
    PaintView::Fill { area: at, colour }
}

/// The bars and the name of the program, painted over what is there.
pub open spec fn frame_over(under: Seq<PaintView>, client: Area) -> Seq<PaintView> {
    under.push(filled(client, COLOR_BG)).push(
        filled(area(0, 0, client.right as int, TOP_HEIGHT as int), COLOR_TOP),
    ).push(
        filled(
            area(0, TOP_HEIGHT as int, RAIL_WIDTH as int, client.bottom as int),
            COLOR_RAIL,
        ),
    ).push(
        filled(
            area(RAIL_WIDTH as int, TOP_HEIGHT as int, RAIL_WIDTH + 1, client.bottom as int),
            COLOR_LINE,
        ),
    ).push(text_at(area(18, 16, 220, 42), "DiskLoom"@, COLOR_TEXT, TextStyle::Left)).push(
        text_at(
            area(136, 16, 360, 42),
            "See your disk clearly."@,
            COLOR_MUTED,
            TextStyle::Left,
        ),
    )
}

fn draw_frame(out: &mut Vec<Paint>, client: Area)
    ensures
        paints_view(final(out)@) == frame_over(paints_view(old(out)@), client),
{
    fill(out, client, COLOR_BG);
    fill(out, rect_xy(0, 0, client.right, TOP_HEIGHT), COLOR_TOP);
    fill(out, rect_xy(0, TOP_HEIGHT, RAIL_WIDTH, client.bottom), COLOR_RAIL);
    fill(out, rect_xy(RAIL_WIDTH, TOP_HEIGHT, RAIL_WIDTH + 1, client.bottom), COLOR_LINE);
    draw_text(out, rect_xy(18, 16, 220, 42), "DiskLoom", COLOR_TEXT, TextStyle::Left);
    draw_text(
        out,
        rect_xy(136, 16, 360, 42),
        "See your disk clearly.",
        COLOR_MUTED,
        TextStyle::Left,
    );
}

// ---------------------------------------------------------------------------------------------
// The rail
// ---------------------------------------------------------------------------------------------

/// A label of the rail.
pub open spec fn label_at(y: int, text: Seq<char>) -> PaintView {
    text_at(area(18, y, RAIL_WIDTH - 18, y + 22), text, COLOR_MUTED, TextStyle::Left)
}

fn draw_label(out: &mut Vec<Paint>, y: i32, text: &str)
    requires
        0 <= y <= 1000,
    ensures
        paints_view(final(out)@) == paints_view(old(out)@).push(label_at(y as int, text@)),
{
    draw_text(out, rect_xy(18, y, RAIL_WIDTH - 18, y + 22), text, COLOR_MUTED, TextStyle::Left);
}

/// A number of the rail with its label, painted over what is there.
pub open spec fn metric_over(under: Seq<PaintView>, y: int, label: Seq<char>, value: Seq<char>) -> Seq<
    PaintView,
> {
    under.push(text_at(area(18, y, 110, y + 24), label, COLOR_MUTED, TextStyle::Left)).push(
        text_at(area(112, y, RAIL_WIDTH - 18, y + 24), value, COLOR_TEXT, TextStyle::LeftCut),
    )
}

fn draw_metric(out: &mut Vec<Paint>, y: i32, label: &str, value: &str)
    requires
        0 <= y <= 1000,
    ensures
        paints_view(final(out)@) == metric_over(paints_view(old(out)@), y as int, label@, value@),
{
    draw_text(out, rect_xy(18, y, 110, y + 24), label, COLOR_MUTED, TextStyle::Left);
    draw_text(
        out,
        rect_xy(112, y, RAIL_WIDTH - 18, y + 24),
        value,
        COLOR_TEXT,
        TextStyle::LeftCut,
    );
}

/// How far a scan is, in words.
pub open spec fn progress_text(progress: Option<UiScanProgress>, directories: Seq<char>) -> Seq<char> {
    match progress {
        Some(p) => found_text(p.summary, directories, p.elapsed_ms),
        None => "Starting scan"@,
    }
}

/// What a scan found, in words; directories go by the name that there is room for.
pub open spec fn found_text(summary: ScanSummary, directories: Seq<char>, elapsed_ms: u128) -> Seq<char> {
    grouped(summary.entries as nat) + " entries, "@ + grouped(summary.files as nat) + " files, "@
        + grouped(summary.directories as nat) + " "@ + directories + ", "@ + decimal(
        elapsed_ms as nat,
    ) + " ms"@
}

fn found_words(summary: ScanSummary, directories: &str, elapsed_ms: u128) -> (r: String)
    ensures
        r@ == found_text(summary, directories@, elapsed_ms),
{
    let mut r = format_count(summary.entries);
    push_text(&mut r, " entries, ");
    let files = format_count(summary.files);
    push_text(&mut r, &files);
    push_text(&mut r, " files, ");
    let count = format_count(summary.directories);
    push_text(&mut r, &count);
    push_text(&mut r, " ");
    push_text(&mut r, directories);
    push_text(&mut r, ", ");
    push_decimal(&mut r, elapsed_ms);
    push_text(&mut r, " ms");
    r
}

fn progress_words(progress: Option<UiScanProgress>, directories: &str) -> (r: String)
    ensures
        r@ == progress_text(progress, directories@),
{
    match progress {
        Some(p) => found_words(p.summary, directories, p.elapsed_ms),
        None => "Starting scan".to_owned(),
    }
}

/// The lower part of the rail, painted over what is there: how the scan stands.
pub open spec fn rail_state_over(under: Seq<PaintView>, state: NativeState) -> Seq<PaintView> {
    match state {
        NativeState::Idle => under.push(
            text_at(
                area(18, 426, RAIL_WIDTH - 18, 454),
                "Ready for direct NTFS or fallback scan"@,
                COLOR_MUTED,
                TextStyle::LeftCut,
            ),
        ),
        NativeState::Scanning(progress) => under.push(
            text_at(
                area(18, 426, RAIL_WIDTH - 18, 454),
                progress_text(progress, "dirs"@),
                COLOR_WARN,
                TextStyle::LeftCut,
            ),
        ),
        NativeState::Complete(result) => {
            let sized = metric_over(under, 420, "Size"@, size_text(result.total_size as nat));
            let allocated = metric_over(
                sized,
                450,
                "Allocated"@,
                size_text(result.total_allocated as nat),
            );
            let entries = metric_over(
                allocated,
                480,
                "Entries"@,
                grouped(result.summary.entries as nat),
            );
            let files = metric_over(entries, 510, "Files"@, grouped(result.summary.files as nat));
            metric_over(files, 540, "Dirs"@, grouped(result.summary.directories as nat))
        },
        NativeState::Error(error) => under.push(
            text_at(
                area(18, 426, RAIL_WIDTH - 18, 486),
                error@,
                COLOR_ERROR,
                TextStyle::Block,
            ),
        ),
    }
}

fn draw_rail_state(out: &mut Vec<Paint>, state: &NativeState)
    ensures
        paints_view(final(out)@) == rail_state_over(paints_view(old(out)@), *state),
{
    match state {
        NativeState::Idle => {
            draw_text(
                out,
                rect_xy(18, 426, RAIL_WIDTH - 18, 454),
                "Ready for direct NTFS or fallback scan",
                COLOR_MUTED,
                TextStyle::LeftCut,
            );
        },
        NativeState::Scanning(progress) => {
            let text = progress_words(*progress, "dirs");
            draw_text(
                out,
                rect_xy(18, 426, RAIL_WIDTH - 18, 454),
                &text,
                COLOR_WARN,
                TextStyle::LeftCut,
            );
        },
        NativeState::Complete(result) => {
            let size = format_bytes(result.total_size);
            draw_metric(out, 420, "Size", &size);
            let allocated = format_bytes(result.total_allocated);
            draw_metric(out, 450, "Allocated", &allocated);
            let entries = format_count(result.summary.entries);
            draw_metric(out, 480, "Entries", &entries);
            let files = format_count(result.summary.files);
            draw_metric(out, 510, "Files", &files);
            let directories = format_count(result.summary.directories);
            draw_metric(out, 540, "Dirs", &directories);
        },
        NativeState::Error(error) => {
            draw_text(
                out,
                rect_xy(18, 426, RAIL_WIDTH - 18, 486),
                error,
                COLOR_ERROR,
                TextStyle::Block,
            );
        },
    }
}

/// The rail at the left, painted over what is there.
pub open spec fn rail_over(under: Seq<PaintView>, app: NativeApp) -> Seq<PaintView> {
    rail_state_over(
        under.push(label_at(90, "Scan"@)).push(label_at(110, "Path"@)).push(
            label_at(166, "Scanner"@),
        ).push(
            text_at(
                area(18, 318, RAIL_WIDTH - 18, 344),
                "Status"@,
                COLOR_TEXT,
                TextStyle::Left,
            ),
        ).push(
            text_at(
                area(18, 346, RAIL_WIDTH - 18, 372),
                app.status@,
                COLOR_MUTED,
                TextStyle::LeftCut,
            ),
        ).push(
            text_at(
                area(18, 376, RAIL_WIDTH - 18, 402),
                "Current: "@ + ui_scanner_label(app.scanner_mode),
                COLOR_MUTED,
                TextStyle::LeftCut,
            ),
        ),
        app.state,
    )
}

fn draw_rail(out: &mut Vec<Paint>, app: &NativeApp)
    ensures
        paints_view(final(out)@) == rail_over(paints_view(old(out)@), *app),
{
    draw_label(out, 90, "Scan");
    draw_label(out, 110, "Path");
    draw_label(out, 166, "Scanner");
    draw_text(
        out,
        rect_xy(18, 318, RAIL_WIDTH - 18, 344),
        "Status",
        COLOR_TEXT,
        TextStyle::Left,
    );
    draw_text(
        out,
        rect_xy(18, 346, RAIL_WIDTH - 18, 372),
        &app.status,
        COLOR_MUTED,
        TextStyle::LeftCut,
    );
    let mut scanner = "Current: ".to_owned();
    push_text(&mut scanner, app.scanner_mode.label());
    draw_text(
        out,
        rect_xy(18, 376, RAIL_WIDTH - 18, 402),
        &scanner,
        COLOR_MUTED,
        TextStyle::LeftCut,
    );
    draw_rail_state(out, &app.state);
}

// ---------------------------------------------------------------------------------------------
// Tables
// ---------------------------------------------------------------------------------------------

/// Where the table stands.
pub open spec fn table_area(client: Area) -> Area {
    area(RAIL_WIDTH + 25, TOP_HEIGHT + 146, client.right - 24, client.bottom - 24)
}

/// Whether this is the inside of a window, as the system gives it.
pub open spec fn is_client(client: Area) -> bool {
    client.right >= 0 && client.bottom >= 0
}

/// Where the table stands.
#[must_use]
pub fn table_rect(client: Area) -> (r: Area)
    requires
        is_client(client),
    ensures
        r == table_area(client),
{
    rect_xy(RAIL_WIDTH + 25, TOP_HEIGHT + 146, client.right - 24, client.bottom - 24)
}

/// How many rows there is room for below the header of a table.
pub open spec fn room_for(table: Area) -> nat {
    let height = table.bottom - table.top - ROW_HEIGHT;
    if height < 0 {
        0
    } else {
        (height / (ROW_HEIGHT as int)) as nat
    }
}

/// How many rows there is room for below the header of a table.
#[must_use]
pub fn visible_rows(table: Area) -> (r: usize)
    requires
        i32::MIN <= table.bottom - table.top - ROW_HEIGHT,
        table.bottom - table.top <= i32::MAX,
    ensures
        r == room_for(table),
{
    if table.bottom - table.top < ROW_HEIGHT {
        0
    } else {
        ((table.bottom - table.top - ROW_HEIGHT) / ROW_HEIGHT) as usize
    }
}

/// The header of a table, painted over what is there.
pub open spec fn header_over(
    under: Seq<PaintView>,
    table: Area,
    first: Seq<char>,
    second: Seq<char>,
    third: Seq<char>,
    fourth: Seq<char>,
) -> Seq<PaintView> {
    let top = table.top as int;
    let bottom = table.top + ROW_HEIGHT;
    let right = table.right as int;
    under.push(filled(area(table.left as int, top, right, bottom), COLOR_PANEL_ALT)).push(
        text_at(
            area(table.left + 10, top, right - 360, bottom),
            first,
            COLOR_MUTED,
            TextStyle::Left,
        ),
    ).push(
        text_at(area(right - 350, top, right - 250, bottom), second, COLOR_MUTED, TextStyle::Right),
    ).push(
        text_at(area(right - 238, top, right - 128, bottom), third, COLOR_MUTED, TextStyle::Right),
    ).push(
        text_at(area(right - 118, top, right - 12, bottom), fourth, COLOR_MUTED, TextStyle::Left),
    )
}

/// Whether a table lies where one can.
pub open spec fn is_table(table: Area) -> bool {
    &&& table.left == RAIL_WIDTH + 25
    &&& table.top == TOP_HEIGHT + 146
    &&& table.right >= -24
    &&& table.bottom >= -24
}

fn draw_table_header(
    out: &mut Vec<Paint>,
    table: Area,
    first: &str,
    second: &str,
    third: &str,
    fourth: &str,
)
    requires
        is_table(table),
    ensures
        paints_view(final(out)@) == header_over(
            paints_view(old(out)@),
            table,
            first@,
            second@,
            third@,
            fourth@,
        ),
{
    let top = table.top;
    let bottom = table.top + ROW_HEIGHT;
    let right = table.right;
    fill(out, rect_xy(table.left, top, right, bottom), COLOR_PANEL_ALT);
    draw_text(
        out,
        rect_xy(table.left + 10, top, right - 360, bottom),
        first,
        COLOR_MUTED,
        TextStyle::Left,
    );
    draw_text(
        out,
        rect_xy(right - 350, top, right - 250, bottom),
        second,
        COLOR_MUTED,
        TextStyle::Right,
    );
    draw_text(
        out,
        rect_xy(right - 238, top, right - 128, bottom),
        third,
        COLOR_MUTED,
        TextStyle::Right,
    );
    draw_text(
        out,
        rect_xy(right - 118, top, right - 12, bottom),
        fourth,
        COLOR_MUTED,
        TextStyle::Left,
    );
}

/// The top of the `k`-th row below the header.
pub open spec fn row_top(table: Area, k: nat) -> int {
    table.top + ROW_HEIGHT * (k + 1)
}

/// The background of the `k`-th row: every other one is darker.
pub open spec fn row_background(table: Area, k: nat) -> PaintView {
    filled(
        area(
            table.left as int,
            row_top(table, k),
            table.right as int,
            row_top(table, k) + ROW_HEIGHT,
        ),
        if k % 2 == 0 {
            COLOR_PANEL
        } else {
            COLOR_BG
        },
    )
}

fn draw_row_bg(out: &mut Vec<Paint>, table: Area, k: usize) -> (top: i32)
    requires
        is_table(table),
        k < room_for(table),
    ensures
        top == row_top(table, k as nat),
        top + ROW_HEIGHT <= table.bottom,
        paints_view(final(out)@) == paints_view(old(out)@).push(row_background(table, k as nat)),
{
    let top = table.top + ROW_HEIGHT * (k as i32 + 1);
    let colour = if k % 2 == 0 {
        COLOR_PANEL
    } else {
        COLOR_BG
    };
    fill(out, rect_xy(table.left, top, table.right, top + ROW_HEIGHT), colour);
    top
}

/// The rows that are shown: from the first one that is not scrolled away, as many as there is room
/// for.
pub open spec fn shown_part<T>(rows: Seq<T>, scroll_top: nat, room: nat) -> Seq<T> {
    let from = if scroll_top < rows.len() {
        scroll_top as int
    } else {
        rows.len() as int
    };
    let to = if from + room < rows.len() {
        from + room
    } else {
        rows.len() as int
    };
    rows.subrange(from, to)
}

fn shown_range(len: usize, scroll_top: usize, room: usize) -> (r: (usize, usize))
    ensures
        r.0 <= r.1 <= len,
        r.1 - r.0 <= room,
        r.0 == if scroll_top < len {
            scroll_top
        } else {
            len
        },
        r.1 == if r.0 + room < len {
            r.0 + room
        } else {
            len as int
        },
{
    let from = if scroll_top < len {
        scroll_top
    } else {
        len
    };
    let to = if room < len - from {
        from + room
    } else {
        len
    };
    (from, to)
}

// ---------------------------------------------------------------------------------------------
// The tree
// ---------------------------------------------------------------------------------------------

/// How far a name is set in for its depth: two spaces a level, and no more than eight levels.
pub open spec fn indented(name: Seq<char>, depth: nat) -> Seq<char> {
    let levels = if depth < 8 {
        depth
    } else {
        8
    };
    Seq::new(2 * levels, |i: int| ' ') + name
}

fn indented_name(name: &str, depth: usize) -> (r: String)
    ensures
        r@ == indented(name@, depth as nat),
{
    let levels: usize = if depth < 8 {
        depth
    } else {
        8
    };
    let mut r = String::new();
    push_repeated(&mut r, ' ', 2 * levels);
    assert(r@ =~= Seq::new((2 * levels) as nat, |i: int| ' '));
    push_text(&mut r, name);
    r
}

/// A row of the tree, painted over what is there.
pub open spec fn tree_row_over(under: Seq<PaintView>, table: Area, k: nat, row: OutlineRow) -> Seq<
    PaintView,
> {
    let top = row_top(table, k);
    let bottom = top + ROW_HEIGHT;
    let right = table.right as int;
    under.push(row_background(table, k)).push(
        text_at(
            area(table.left + 10, top, right - 310, bottom),
            indented(row.name@, row.depth as nat),
            COLOR_TEXT,
            TextStyle::LeftCut,
        ),
    ).push(
        text_at(
            area(right - 300, top, right - 205, bottom),
            size_text(row.size as nat),
            COLOR_TEXT,
            TextStyle::RightCut,
        ),
    ).push(
        text_at(
            area(right - 195, top, right - 88, bottom),
            size_text(row.allocated as nat),
            COLOR_MUTED,
            TextStyle::RightCut,
        ),
    ).push(
        text_at(area(right - 76, top, right - 12, bottom), row.kind@, COLOR_MUTED, TextStyle::LeftCut),
    )
}

fn draw_tree_row(out: &mut Vec<Paint>, table: Area, k: usize, row: &OutlineRow)
    requires
        is_table(table),
        k < room_for(table),
    ensures
        paints_view(final(out)@) == tree_row_over(paints_view(old(out)@), table, k as nat, *row),
{
    let top = draw_row_bg(out, table, k);
    let bottom = top + ROW_HEIGHT;
    let right = table.right;
    let name = indented_name(&row.name, row.depth);
    draw_text(
        out,
        rect_xy(table.left + 10, top, right - 310, bottom),
        &name,
        COLOR_TEXT,
        TextStyle::LeftCut,
    );
    let size = format_bytes(row.size);
    draw_text(
        out,
        rect_xy(right - 300, top, right - 205, bottom),
        &size,
        COLOR_TEXT,
        TextStyle::RightCut,
    );
    let allocated = format_bytes(row.allocated);
    draw_text(
        out,
        rect_xy(right - 195, top, right - 88, bottom),
        &allocated,
        COLOR_MUTED,
        TextStyle::RightCut,
    );
    draw_text(
        out,
        rect_xy(right - 76, top, right - 12, bottom),
        row.kind,
        COLOR_MUTED,
        TextStyle::LeftCut,
    );
}

/// The first `n` of these rows of the tree, painted over what is there.
pub open spec fn tree_rows_over(
    under: Seq<PaintView>,
    table: Area,
    rows: Seq<OutlineRow>,
    n: nat,
) -> Seq<PaintView>
    decreases n,
{
    if n == 0 {
        under
    } else {
        let k = (n - 1) as nat;
        tree_row_over(tree_rows_over(under, table, rows, k), table, k, rows[k as int])
    }
}

/// The table of the tree, painted over what is there.
pub open spec fn tree_table_over(under: Seq<PaintView>, table: Area, rows: Seq<OutlineRow>, scroll_top: nat) -> Seq<
    PaintView,
> {
    let shown = shown_part(rows, scroll_top, room_for(table));
    tree_rows_over(
        header_over(under, table, "Name"@, "Size"@, "Allocated"@, "Kind"@),
        table,
        shown,
        shown.len(),
    )
}

fn draw_tree_table(out: &mut Vec<Paint>, table: Area, rows: &Vec<OutlineRow>, scroll_top: usize)
    requires
        is_table(table),
    ensures
        paints_view(final(out)@) == tree_table_over(
            paints_view(old(out)@),
            table,
            rows@,
            scroll_top as nat,
        ),
{
    draw_table_header(out, table, "Name", "Size", "Allocated", "Kind");
    let ghost under = paints_view(out@);
    let ghost shown = shown_part(rows@, scroll_top as nat, room_for(table));
    let (from, to) = shown_range(rows.len(), scroll_top, visible_rows(table));
    assert(shown =~= rows@.subrange(from as int, to as int));
    let mut k: usize = 0;
    while k < to - from
        invariant
            is_table(table),
            from <= to <= rows@.len(),
            to - from <= room_for(table),
            k <= to - from,
            shown == rows@.subrange(from as int, to as int),
            paints_view(out@) == tree_rows_over(under, table, shown, k as nat),
        decreases to - from - k,
    {
        assert(shown[k as int] == rows@[from + k]);
        draw_tree_row(out, table, k, &rows[from + k]);
        k += 1;
    }
}

// ---------------------------------------------------------------------------------------------
// The files
// ---------------------------------------------------------------------------------------------

/// The path of an entry as it is shown: nothing where there is no such entry.
pub open spec fn path_shown(g: Seq<EntryView>, id: u32) -> Seq<char> {
    if id < g.len() {
        path_of(g, id as int)
    } else {
        ""@
    }
}

/// A row of the files, painted over what is there.
pub open spec fn file_row_over(
    under: Seq<PaintView>,
    table: Area,
    k: nat,
    g: Seq<EntryView>,
    row: FileRow,
) -> Seq<PaintView> {
    let top = row_top(table, k);
    let bottom = top + ROW_HEIGHT;
    let right = table.right as int;
    under.push(row_background(table, k)).push(
        text_at(
            area(table.left + 10, top, right - 250, bottom),
            path_shown(g, row.id.0),
            COLOR_TEXT,
            TextStyle::LeftCut,
        ),
    ).push(
        text_at(
            area(right - 238, top, right - 128, bottom),
            size_text(row.size as nat),
            COLOR_TEXT,
            TextStyle::RightCut,
        ),
    ).push(
        text_at(
            area(right - 118, top, right - 12, bottom),
            size_text(row.allocated as nat),
            COLOR_MUTED,
            TextStyle::RightCut,
        ),
    )
}

fn draw_file_row(out: &mut Vec<Paint>, table: Area, k: usize, graph: &FileGraph, row: &FileRow)
    requires
        graph.wf(),
        is_table(table),
        k < room_for(table),
    ensures
        paints_view(final(out)@) == file_row_over(
            paints_view(old(out)@),
            table,
            k as nat,
            graph@,
            *row,
        ),
{
    let top = draw_row_bg(out, table, k);
    let bottom = top + ROW_HEIGHT;
    let right = table.right;
    let path = match graph.reconstruct_path(row.id) {
        Some(path) => path,
        None => "".to_owned(),
    };
    draw_text(
        out,
        rect_xy(table.left + 10, top, right - 250, bottom),
        &path,
        COLOR_TEXT,
        TextStyle::LeftCut,
    );
    let size = format_bytes(row.size);
    draw_text(
        out,
        rect_xy(right - 238, top, right - 128, bottom),
        &size,
        COLOR_TEXT,
        TextStyle::RightCut,
    );
    let allocated = format_bytes(row.allocated);
    draw_text(
        out,
        rect_xy(right - 118, top, right - 12, bottom),
        &allocated,
        COLOR_MUTED,
        TextStyle::RightCut,
    );
}

/// The first `n` of these rows of the files, painted over what is there.
pub open spec fn file_rows_over(
    under: Seq<PaintView>,
    table: Area,
    g: Seq<EntryView>,
    rows: Seq<FileRow>,
    n: nat,
) -> Seq<PaintView>
    decreases n,
{
    if n == 0 {
        under
    } else {
        let k = (n - 1) as nat;
        file_row_over(file_rows_over(under, table, g, rows, k), table, k, g, rows[k as int])
    }
}

/// The table of the files, painted over what is there.
pub open spec fn files_table_over(
    under: Seq<PaintView>,
    table: Area,
    g: Seq<EntryView>,
    rows: Seq<FileRow>,
    scroll_top: nat,
) -> Seq<PaintView> {
    let shown = shown_part(rows, scroll_top, room_for(table));
    file_rows_over(
        header_over(under, table, "Path"@, "Size"@, "Allocated"@, ""@),
        table,
        g,
        shown,
        shown.len(),
    )
}

fn draw_files_table(
    out: &mut Vec<Paint>,
    table: Area,
    graph: &FileGraph,
    rows: &Vec<FileRow>,
    scroll_top: usize,
)
    requires
        graph.wf(),
        is_table(table),
    ensures
        paints_view(final(out)@) == files_table_over(
            paints_view(old(out)@),
            table,
            graph@,
            rows@,
            scroll_top as nat,
        ),
{
    draw_table_header(out, table, "Path", "Size", "Allocated", "");
    let ghost under = paints_view(out@);
    let ghost shown = shown_part(rows@, scroll_top as nat, room_for(table));
    let (from, to) = shown_range(rows.len(), scroll_top, visible_rows(table));
    assert(shown =~= rows@.subrange(from as int, to as int));
    let mut k: usize = 0;
    while k < to - from
        invariant
            graph.wf(),
            is_table(table),
            from <= to <= rows@.len(),
            to - from <= room_for(table),
            k <= to - from,
            shown == rows@.subrange(from as int, to as int),
            paints_view(out@) == file_rows_over(under, table, graph@, shown, k as nat),
        decreases to - from - k,
    {
        assert(shown[k as int] == rows@[from + k]);
        draw_file_row(out, table, k, graph, &rows[from + k]);
        k += 1;
    }
}

// ---------------------------------------------------------------------------------------------
// The types
// ---------------------------------------------------------------------------------------------

/// A row of the types, painted over what is there.
pub open spec fn type_row_over(under: Seq<PaintView>, table: Area, k: nat, row: FileTypeStat) -> Seq<
    PaintView,
> {
    let top = row_top(table, k);
    let bottom = top + ROW_HEIGHT;
    let right = table.right as int;
    under.push(row_background(table, k)).push(
        text_at(
            area(table.left + 10, top, right - 360, bottom),
            row.extension@,
            COLOR_TEXT,
            TextStyle::LeftCut,
        ),
    ).push(
        text_at(
            area(right - 350, top, right - 250, bottom),
            grouped(row.files as nat),
            COLOR_TEXT,
            TextStyle::RightCut,
        ),
    ).push(
        text_at(
            area(right - 238, top, right - 128, bottom),
            size_text(row.size as nat),
            COLOR_TEXT,
            TextStyle::RightCut,
        ),
    ).push(
        text_at(
            area(right - 118, top, right - 12, bottom),
            size_text(row.allocated as nat),
            COLOR_MUTED,
            TextStyle::RightCut,
        ),
    )
}

fn draw_type_row(out: &mut Vec<Paint>, table: Area, k: usize, row: &FileTypeStat)
    requires
        is_table(table),
        k < room_for(table),
    ensures
        paints_view(final(out)@) == type_row_over(paints_view(old(out)@), table, k as nat, *row),
{
    let top = draw_row_bg(out, table, k);
    let bottom = top + ROW_HEIGHT;
    let right = table.right;
    draw_text(
        out,
        rect_xy(table.left + 10, top, right - 360, bottom),
        &row.extension,
        COLOR_TEXT,
        TextStyle::LeftCut,
    );
    let files = format_count(row.files);
    draw_text(
        out,
        rect_xy(right - 350, top, right - 250, bottom),
        &files,
        COLOR_TEXT,
        TextStyle::RightCut,
    );
    let size = format_bytes(row.size);
    draw_text(
        out,
        rect_xy(right - 238, top, right - 128, bottom),
        &size,
        COLOR_TEXT,
        TextStyle::RightCut,
    );
    let allocated = format_bytes(row.allocated);
    draw_text(
        out,
        rect_xy(right - 118, top, right - 12, bottom),
        &allocated,
        COLOR_MUTED,
        TextStyle::RightCut,
    );
}

/// The first `n` of these rows of the types, painted over what is there.
pub open spec fn type_rows_over(
    under: Seq<PaintView>,
    table: Area,
    rows: Seq<FileTypeStat>,
    n: nat,
) -> Seq<PaintView>
    decreases n,
{
    if n == 0 {
        under
    } else {
        let k = (n - 1) as nat;
        type_row_over(type_rows_over(under, table, rows, k), table, k, rows[k as int])
    }
}

/// The table of the types, painted over what is there.
pub open spec fn types_table_over(
    under: Seq<PaintView>,
    table: Area,
    rows: Seq<FileTypeStat>,
    scroll_top: nat,
) -> Seq<PaintView> {
    let shown = shown_part(rows, scroll_top, room_for(table));
    type_rows_over(
        header_over(under, table, "Type"@, "Files"@, "Size"@, "Allocated"@),
        table,
        shown,
        shown.len(),
    )
}

fn draw_types_table(out: &mut Vec<Paint>, table: Area, rows: &Vec<FileTypeStat>, scroll_top: usize)
    requires
        is_table(table),
    ensures
        paints_view(final(out)@) == types_table_over(
            paints_view(old(out)@),
            table,
            rows@,
            scroll_top as nat,
        ),
{
    draw_table_header(out, table, "Type", "Files", "Size", "Allocated");
    let ghost under = paints_view(out@);
    let ghost shown = shown_part(rows@, scroll_top as nat, room_for(table));
    let (from, to) = shown_range(rows.len(), scroll_top, visible_rows(table));
    assert(shown =~= rows@.subrange(from as int, to as int));
    let mut k: usize = 0;
    while k < to - from
        invariant
            is_table(table),
            from <= to <= rows@.len(),
            to - from <= room_for(table),
            k <= to - from,
            shown == rows@.subrange(from as int, to as int),
            paints_view(out@) == type_rows_over(under, table, shown, k as nat),
        decreases to - from - k,
    {
        assert(shown[k as int] == rows@[from + k]);
        draw_type_row(out, table, k, &rows[from + k]);
        k += 1;
    }
}

// ---------------------------------------------------------------------------------------------
// The treemap
// ---------------------------------------------------------------------------------------------

/// The colour of the `k`-th tile of the treemap.
pub open spec fn tile_colour(k: nat) -> u32 {
    let n = k % 5;
    if n == 0 {
        colour_of(92, 142, 124)
    } else if n == 1 {
        colour_of(122, 116, 178)
    } else if n == 2 {
        colour_of(177, 126, 76)
    } else if n == 3 {
        colour_of(78, 135, 172)
    } else {
        colour_of(170, 92, 110)
    }
}

/// A tile of the treemap, painted over what is there: nothing where it is empty, and its name only
/// where there is room for it.
pub open spec fn tile_over(under: Seq<PaintView>, tile: Area, k: nat, label: Seq<char>) -> Seq<PaintView> {
    if tile.right <= tile.left || tile.bottom <= tile.top {
        under
    } else {
        let painted = under.push(filled(tile, tile_colour(k)));
        if tile.right - tile.left > 96 && tile.bottom - tile.top > 26 {
            painted.push(text_at(inset(tile, 6, 4), label, COLOR_TEXT, TextStyle::TopLeftCut))
        } else {
            painted
        }
    }
}

/// Paints a tile of the treemap.
pub fn draw_tile(out: &mut Vec<Paint>, tile: Area, k: usize, label: &str)
    requires
        tile.right - tile.left <= i32::MAX,
        tile.bottom - tile.top <= i32::MAX,
    ensures
        paints_view(final(out)@) == tile_over(paints_view(old(out)@), tile, k as nat, label@),
{
    if tile.right <= tile.left || tile.bottom <= tile.top {
        return;
    }
    let n = k % 5;
    let colour: u32 = if n == 0 {
        rgb(92, 142, 124)
    } else if n == 1 {
        rgb(122, 116, 178)
    } else if n == 2 {
        rgb(177, 126, 76)
    } else if n == 3 {
        rgb(78, 135, 172)
    } else {
        rgb(170, 92, 110)
    };
    fill(out, tile, colour);
    if tile.right - tile.left > 96 && tile.bottom - tile.top > 26 {
        draw_text(out, inset_rect(tile, 6, 4), label, COLOR_TEXT, TextStyle::TopLeftCut);
    }
}

// ---------------------------------------------------------------------------------------------
// The main part
// ---------------------------------------------------------------------------------------------

/// Where a message stands that takes the place of a table.
pub open spec fn message_area(client: Area) -> Area {
    area(RAIL_WIDTH + 25, TOP_HEIGHT + 148, client.right - 24, client.bottom - 24)
}

/// A message in place of a table, painted over what is there.
pub open spec fn message_over(
    under: Seq<PaintView>,
    client: Area,
    text: Seq<char>,
    colour: u32,
    style: TextStyle,
) -> Seq<PaintView> {
    under.push(filled(message_area(client), COLOR_PANEL)).push(
        text_at(inset(message_area(client), 18, 16), text, colour, style),
    )
}

fn draw_message(out: &mut Vec<Paint>, client: Area, text: &str, colour: u32, style: TextStyle)
    requires
        is_client(client),
    ensures
        paints_view(final(out)@) == message_over(
            paints_view(old(out)@),
            client,
            text@,
            colour,
            style,
        ),
{
    let at = rect_xy(RAIL_WIDTH + 25, TOP_HEIGHT + 148, client.right - 24, client.bottom - 24);
    fill(out, at, COLOR_PANEL);
    draw_text(out, inset_rect(at, 18, 16), text, colour, style);
}

/// What stands above the table, painted over what is there: what the scan found, and why the volume
/// was not read.
pub open spec fn summary_over(under: Seq<PaintView>, client: Area, result: NativeResult) -> Seq<PaintView> {
    let left = RAIL_WIDTH + 25;
    let right = client.right - 24;
    let found = under.push(
        text_at(
            area(left, TOP_HEIGHT + 92, right, TOP_HEIGHT + 118),
            found_text(result.summary, "dirs"@, result.elapsed_ms) + ", "@ + result.scanner_label@,
            COLOR_MUTED,
            TextStyle::LeftCut,
        ),
    );
    match result.fallback_reason {
        Some(reason) => found.push(
            text_at(
                area(left, TOP_HEIGHT + 116, right, TOP_HEIGHT + 142),
                "Fallback reason: "@ + reason@,
                COLOR_WARN,
                TextStyle::LeftCut,
            ),
        ),
        None => found,
    }
}

fn draw_summary(out: &mut Vec<Paint>, client: Area, result: &NativeResult)
    requires
        is_client(client),
    ensures
        paints_view(final(out)@) == summary_over(paints_view(old(out)@), client, *result),
{
    let left = RAIL_WIDTH + 25;
    let right = client.right - 24;
    let mut summary = found_words(result.summary, "dirs", result.elapsed_ms);
    push_text(&mut summary, ", ");
    push_text(&mut summary, result.scanner_label);
    draw_text(
        out,
        rect_xy(left, TOP_HEIGHT + 92, right, TOP_HEIGHT + 118),
        &summary,
        COLOR_MUTED,
        TextStyle::LeftCut,
    );
    if let Some(reason) = &result.fallback_reason {
        let mut text = "Fallback reason: ".to_owned();
        push_text(&mut text, reason);
        draw_text(
            out,
            rect_xy(left, TOP_HEIGHT + 116, right, TOP_HEIGHT + 142),
            &text,
            COLOR_WARN,
            TextStyle::LeftCut,
        );
    }
}

/// What a scan found, painted over what is there. The tiles of the treemap come on top of this.
pub open spec fn result_over(
    under: Seq<PaintView>,
    client: Area,
    result: NativeResult,
    tab: NativeTab,
    scroll_top: nat,
) -> Seq<PaintView> {
    let above = summary_over(under, client, result);
    let table = table_area(client);
    match tab {
        NativeTab::Tree => tree_table_over(above, table, result.tree_rows@, scroll_top),
        NativeTab::Files => files_table_over(
            above,
            table,
            result.graph@,
            result.file_rows@,
            scroll_top,
        ),
        NativeTab::Types => types_table_over(above, table, result.type_rows@, scroll_top),
        NativeTab::Treemap => above.push(filled(table, COLOR_PANEL)),
    }
}

fn draw_result(
    out: &mut Vec<Paint>,
    client: Area,
    result: &NativeResult,
    tab: NativeTab,
    scroll_top: usize,
)
    requires
        is_client(client),
        result.wf(),
    ensures
        paints_view(final(out)@) == result_over(
            paints_view(old(out)@),
            client,
            *result,
            tab,
            scroll_top as nat,
        ),
{
    draw_summary(out, client, result);
    let table = table_rect(client);
    match tab {
        NativeTab::Tree => draw_tree_table(out, table, &result.tree_rows, scroll_top),
        NativeTab::Files => draw_files_table(
            out,
            table,
            &result.graph,
            &result.file_rows,
            scroll_top,
        ),
        NativeTab::Types => draw_types_table(out, table, &result.type_rows, scroll_top),
        NativeTab::Treemap => fill(out, table, COLOR_PANEL),
    }
}

/// The name of a view.
pub open spec fn tab_title(tab: NativeTab) -> Seq<char> {
    match tab {
        NativeTab::Tree => "Tree"@,
        NativeTab::Files => "Files"@,
        NativeTab::Types => "Types"@,
        NativeTab::Treemap => "Treemap"@,
    }
}

fn title_of(tab: NativeTab) -> (r: &'static str)
    ensures
        r@ == tab_title(tab),
{
    match tab {
        NativeTab::Tree => "Tree",
        NativeTab::Files => "Files",
        NativeTab::Types => "Types",
        NativeTab::Treemap => "Treemap",
    }
}

/// The main part of the window, painted over what is there.
pub open spec fn main_over(under: Seq<PaintView>, client: Area, app: NativeApp) -> Seq<PaintView> {
    let left = RAIL_WIDTH + 1;
    let titled = under.push(
        filled(
            area(left, TOP_HEIGHT as int, client.right as int, client.bottom as int),
            COLOR_BG,
        ),
    ).push(
        text_at(
            area(left + 24, TOP_HEIGHT + 58, client.right - 24, TOP_HEIGHT + 86),
            tab_title(app.active_tab),
            COLOR_TEXT,
            TextStyle::Left,
        ),
    );
    match app.state {
        NativeState::Idle => message_over(
            titled,
            client,
            "Choose a drive or path, then scan."@,
            COLOR_MUTED,
            TextStyle::Left,
        ),
        NativeState::Scanning(progress) => message_over(
            titled,
            client,
            progress_text(progress, "directories"@),
            COLOR_WARN,
            TextStyle::LeftCut,
        ),
        NativeState::Error(error) => message_over(
            titled,
            client,
            error@,
            COLOR_ERROR,
            TextStyle::Block,
        ),
        NativeState::Complete(result) => result_over(
            titled,
            client,
            *result,
            app.active_tab,
            app.scroll_top as nat,
        ),
    }
}

fn draw_main(out: &mut Vec<Paint>, client: Area, app: &NativeApp)
    requires
        is_client(client),
        app.wf(),
    ensures
        paints_view(final(out)@) == main_over(paints_view(old(out)@), client, *app),
{
    let left = RAIL_WIDTH + 1;
    fill(out, rect_xy(left, TOP_HEIGHT, client.right, client.bottom), COLOR_BG);
    draw_text(
        out,
        rect_xy(left + 24, TOP_HEIGHT + 58, client.right - 24, TOP_HEIGHT + 86),
        title_of(app.active_tab),
        COLOR_TEXT,
        TextStyle::Left,
    );
    match &app.state {
        NativeState::Idle => draw_message(
            out,
            client,
            "Choose a drive or path, then scan.",
            COLOR_MUTED,
            TextStyle::Left,
        ),
        NativeState::Scanning(progress) => {
            let text = progress_words(*progress, "directories");
            draw_message(out, client, &text, COLOR_WARN, TextStyle::LeftCut);
        },
        NativeState::Error(error) => draw_message(
            out,
            client,
            error,
            COLOR_ERROR,
            TextStyle::Block,
        ),
        NativeState::Complete(result) => draw_result(
            out,
            client,
            result,
            app.active_tab,
            app.scroll_top,
        ),
    }
}

/// Everything that is painted, from the bottom to the top. The tiles of the treemap come on top of
/// this.
#[must_use]
pub fn draw(app: &NativeApp, client: Area) -> (r: Vec<Paint>)
    requires
        is_client(client),
        app.wf(),
    ensures
        paints_view(r@) == main_over(
            rail_over(frame_over(Seq::empty(), client), *app),
            client,
            *app,
        ),
{
    let mut out: Vec<Paint> = Vec::new();
    assert(paints_view(out@) =~= Seq::<PaintView>::empty());
    draw_frame(&mut out, client);
    draw_rail(&mut out, app);
    draw_main(&mut out, client, app);
    out
}

// ---------------------------------------------------------------------------------------------
// Laws
// ---------------------------------------------------------------------------------------------

/// Whether two controls have no point in common.
pub open spec fn stand_apart(a: Placed, b: Placed) -> bool {
    a.x + a.width <= b.x || b.x + b.width <= a.x || a.y + a.height <= b.y || b.y + b.height <= a.y
}

/// The buttons of the drives stand apart from each other, and inside the rail.
pub proof fn the_buttons_of_drives_stand_apart(j: nat, k: nat)
    requires
        j < k,
        222 + 34 * (k / 3) <= i32::MAX,
    ensures
        stand_apart(drive_place(j), drive_place(k)),
        0 < drive_place(k).x,
        drive_place(k).x + drive_place(k).width < RAIL_WIDTH,
{
    assert(j / 3 <= k / 3);
    if j / 3 == k / 3 {
        assert(j % 3 < k % 3);
    }
}

/// The rows of a table stand one below the other from its header on, as many as fit, and not one more
/// would.
pub proof fn rows_stand_one_below_the_other(table: Area, k: nat)
    requires
        table.bottom - table.top >= ROW_HEIGHT,
    ensures
        row_top(table, 0) == table.top + ROW_HEIGHT,
        row_top(table, k + 1) == row_top(table, k) + ROW_HEIGHT,
        k < room_for(table) <==> row_top(table, k) + ROW_HEIGHT <= table.bottom,
{
    let height = table.bottom - table.top - ROW_HEIGHT;
    assert(27 * (height / 27) <= height < 27 * (height / 27) + 27);
}

/// What is shown of a list starts where it is scrolled to, holds no more rows than there is room for,
/// leaves none out, and ends before the list does only where there is no more room.
pub proof fn what_is_shown_is_an_unbroken_part<T>(rows: Seq<T>, scroll_top: nat, room: nat)
    ensures
        ({
            let shown = shown_part(rows, scroll_top, room);
            &&& shown.len() <= room
            &&& forall|k: int|
                0 <= k < shown.len() ==> scroll_top + k < rows.len() && #[trigger] shown[k]
                    == rows[scroll_top + k]
            &&& shown.len() < room ==> scroll_top + shown.len() >= rows.len()
        }),
{
}

/// Whether a text is painted in a row of a table, between `left` and `right` of its right edge.
pub open spec fn is_painted_in(
    paint: PaintView,
    table: Area,
    k: nat,
    left: int,
    right: int,
    text: Seq<char>,
) -> bool {
    paint matches PaintView::Text { area: at, text: shown, .. } && {
        &&& shown == text
        &&& at.top == table.top + 27 * (k + 1)
        &&& at.bottom == at.top + 27
        &&& at.left == table.right - left
        &&& at.right == table.right - right
    }
}

/// A row of the tree is painted behind what is there. Its size, its allocated size and what it is
/// stand one beside the other in the same row, and none of them overlaps another.
pub proof fn a_row_of_the_tree_is_painted(
    under: Seq<PaintView>,
    table: Area,
    k: nat,
    row: OutlineRow,
)
    requires
        is_table(table),
        k < room_for(table),
    ensures
        ({
            let all = tree_row_over(under, table, k, row);
            let n = under.len() as int;
            &&& all.take(n) == under
            &&& all.len() == n + 5
            &&& is_painted_in(all[n + 2], table, k, 300, 205, size_text(row.size as nat))
            &&& is_painted_in(all[n + 3], table, k, 195, 88, size_text(row.allocated as nat))
            &&& is_painted_in(all[n + 4], table, k, 76, 12, row.kind@)
            &&& all[n + 1] matches PaintView::Text { area: at, text, .. } && at.right
                == table.right - 310 && text.len() >= row.name@.len() && text.skip(
                text.len() - row.name@.len(),
            ) == row.name@
        }),
{
    let all = tree_row_over(under, table, k, row);
    assert(all.take(under.len() as int) =~= under);
    let text = indented(row.name@, row.depth as nat);
    assert(text.skip(text.len() - row.name@.len()) =~= row.name@);
}

/// A row of the files is painted behind what is there: the path of the file, then its size and its
/// allocated size beside each other in the same row.
pub proof fn a_row_of_the_files_is_painted(
    under: Seq<PaintView>,
    table: Area,
    k: nat,
    g: Seq<EntryView>,
    row: FileRow,
)
    requires
        is_table(table),
        k < room_for(table),
        row.id.0 < g.len(),
    ensures
        ({
            let all = file_row_over(under, table, k, g, row);
            let n = under.len() as int;
            &&& all.take(n) == under
            &&& all.len() == n + 4
            &&& all[n + 1] matches PaintView::Text { area: at, text, .. } && text == path_of(
                g,
                row.id.0 as int,
            ) && at.right == table.right - 250
            &&& is_painted_in(all[n + 2], table, k, 238, 128, size_text(row.size as nat))
            &&& is_painted_in(all[n + 3], table, k, 118, 12, size_text(row.allocated as nat))
        }),
{
    let all = file_row_over(under, table, k, g, row);
    assert(all.take(under.len() as int) =~= under);
}

/// A row of the types is painted behind what is there: the extension, then how many files have it,
/// their size and their allocated size beside each other in the same row.
pub proof fn a_row_of_the_types_is_painted(
    under: Seq<PaintView>,
    table: Area,
    k: nat,
    row: FileTypeStat,
)
    requires
        is_table(table),
        k < room_for(table),
    ensures
        ({
            let all = type_row_over(under, table, k, row);
            let n = under.len() as int;
            &&& all.take(n) == under
            &&& all.len() == n + 5
            &&& all[n + 1] matches PaintView::Text { area: at, text, .. } && text == row.extension@
                && at.right == table.right - 360
            &&& is_painted_in(all[n + 2], table, k, 350, 250, grouped(row.files as nat))
            &&& is_painted_in(all[n + 3], table, k, 238, 128, size_text(row.size as nat))
            &&& is_painted_in(all[n + 4], table, k, 118, 12, size_text(row.allocated as nat))
        }),
{
    let all = type_row_over(under, table, k, row);
    assert(all.take(under.len() as int) =~= under);
}

/// Deeper names are set further in, down to a depth from which they no longer are; the name itself
/// stays whole.
pub proof fn names_are_set_in_by_their_depth(name: Seq<char>, depth: nat)
    ensures
        depth < 8 ==> indented(name, depth + 1) == seq![' ', ' '] + indented(name, depth),
        depth >= 8 ==> indented(name, depth + 1) == indented(name, depth),
        indented(name, 0) == name,
{
    assert(indented(name, 0) =~= name);
    if depth < 8 {
        assert(indented(name, depth + 1) =~= seq![' ', ' '] + indented(name, depth));
    }
}

} // verus!
