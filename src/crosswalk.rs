//! Crosswalk markings: where the lines of a plain crosswalk go, which crossings are painted as
//! rainbows, and their stripes.
use vstd::prelude::*;
use crate::geom::{Pt2D, all_in_bounds, dist2};
use crate::edges::{isqrt, seg_len};

verus! {

#[derive(Clone, Copy, Debug, PartialEq, Eq, Structural)]
pub enum Color {
    White,
    Red,
    Orange,
    Yellow,
    Green,
    Blue,
    Violet,
}

/// One stripe of a rainbow crosswalk: its color, its width, and how far its center line lies
/// to the left of the crosswalk's center line (negative: to the right), in centimetres.
#[derive(Clone, Copy, Debug, PartialEq, Eq, Structural)]
pub struct Band {
    pub color: Color,
    pub width: u64,
    pub offset_left: i64,
}

/// The number of stripes of a rainbow crosswalk.
pub const NUM_BANDS: u64 = 8;

/// The crossings painted as rainbows, by the intersection's node and the crossed road's way.
pub open spec fn is_rainbow(node: i64, way: i64) -> bool {
    // Broadway and Pine
    ||| (node == 53073255 && way == 428246441)
    ||| (node == 53073255 && way == 332601014)
    // Broadway and Pike
    ||| (node == 53073254 && way == 6447455)
    ||| (node == 53073254 && way == 607690679)
    // 10th and Pine
    ||| (node == 53168934 && way == 6456052)
    // 10th and Pike
    ||| (node == 53200834 && way == 6456052)
    // 11th and Pine
    ||| (node == 53068795 && way == 607691081)
    ||| (node == 53068795 && way == 65588105)
    // 11th and Pike
    ||| (node == 53068794 && way == 65588105)
}

/// The color of stripe `i`, from left to right.
pub open spec fn band_color(i: int) -> Color {
    if i == 1 {
        Color::Red
    } else if i == 2 {
        Color::Orange
    } else if i == 3 {
        Color::Yellow
    } else if i == 4 {
        Color::Green
    } else if i == 5 {
        Color::Blue
    } else if i == 6 {
        Color::Violet
    } else {
        Color::White
    }
}

fn band_color_exec(i: u64) -> (r: Color)
    ensures
        r == band_color(i as int),
{
    if i == 1 {
        Color::Red
    } else if i == 2 {
        Color::Orange
    } else if i == 3 {
        Color::Yellow
    } else if i == 4 {
        Color::Green
    } else if i == 5 {
        Color::Blue
    } else if i == 6 {
        Color::Violet
    } else {
        Color::White
    }
}

/// `bands` are the stripes of a rainbow crosswalk `total_width` wide.
pub open spec fn rainbow_bands(bands: Seq<Band>, total_width: int) -> bool {
    let w = total_width / NUM_BANDS as int;
    &&& bands.len() == NUM_BANDS
    &&& forall|i: int| 0 <= i < NUM_BANDS ==> {
        &&& (#[trigger] bands[i]).color == band_color(i)
        &&& bands[i].width == w
        &&& bands[i].offset_left == (total_width - w) / 2 - w * i
    }
}

/// The stripes of the crossing of road `way` at intersection `node`, across a crosswalk
/// `total_width` wide, if that crossing is painted as a rainbow: eight equal stripes, white,
/// red, orange, yellow, green, blue, violet, white, from left to right.
pub fn make_rainbow_crosswalk(node: i64, way: i64, total_width: u64) -> (r: Option<Vec<Band>>)
    requires
        total_width <= 0x1_0000_0000,
    ensures
        r is None <==> !is_rainbow(node, way),
        r is Some ==> rainbow_bands(r->0@, total_width as int),
{
    let known = (node == 53073255 && way == 428246441) || (node == 53073255 && way == 332601014)
        || (node == 53073254 && way == 6447455) || (node == 53073254 && way == 607690679)
        || (node == 53168934 && way == 6456052) || (node == 53200834 && way == 6456052)
        || (node == 53068795 && way == 607691081) || (node == 53068795 && way == 65588105)
        || (node == 53068794 && way == 65588105);
    if !known {
        return None;
    }
    let w = total_width / NUM_BANDS;
    let first: i64 = ((total_width - w) / 2) as i64;
    let mut bands: Vec<Band> = Vec::new();
    let mut i: u64 = 0;
    while i < NUM_BANDS
        invariant
            total_width <= 0x1_0000_0000,
            w == total_width / NUM_BANDS,
            first == (total_width - w) / 2,
            i <= NUM_BANDS,
            bands@.len() == i,
            forall|j: int| 0 <= j < i ==> {
                &&& (#[trigger] bands@[j]).color == band_color(j)
                &&& bands@[j].width == w
                &&& bands@[j].offset_left == (total_width - w) / 2 - w * j
            },
        decreases NUM_BANDS - i,
    {
        assert(w * i <= 0x1_0000_0000 * 8) by (nonlinear_arith)
            requires w <= 0x1_0000_0000, i <= 8;
        bands.push(Band { color: band_color_exec(i), width: w, offset_left: first - (w * i) as i64 });
        i += 1;
    }
    Some(bands)
}

/// The length of the crossing line of a crosswalk whose geometry is `pts` (its middle segment,
/// from the second point to the third), or 0 when there is none.
pub open spec fn crossing_length(pts: Seq<Pt2D>) -> int {
    if pts.len() < 3 || pts[1] == pts[2] { 0 } else { isqrt(dist2(pts[1], pts[2])) }
}

/// The number of double lines of a crosswalk beyond the first, or -1 when there is no room.
pub open spec fn extra_marks(len: int, width: int) -> int {
    let tile = width * 3 / 5;
    let avail = len - 2 * width;
    if avail <= 0 || tile == 0 { -1 } else { avail / tile }
}

/// Where the first double line of a crosswalk starts: the lines are centered between two
/// boundaries `width` in from each end.
pub open spec fn first_mark(len: int, width: int) -> int {
    let tile = width * 3 / 5;
    let avail = len - 2 * width;
    width + (avail - tile * (avail / tile)) / 2
}

/// `marks` are the double lines of a plain crosswalk with geometry `pts` (see
/// `crosswalk_lines`).
pub open spec fn crosswalk_marks(marks: Seq<(u64, u64)>, pts: Seq<Pt2D>, width: int, thickness: int) -> bool {
    let len = crossing_length(pts);
    let n = extra_marks(len, width);
    let start = first_mark(len, width);
    let tile = width * 3 / 5;
    &&& marks.len() == n + 1
    &&& forall|k: int| 0 <= k < marks.len() ==> (#[trigger] marks[k]).0 == start + k * tile
        && marks[k].1 == start + k * tile + 2 * thickness
}

/// How a crosswalk is painted.
pub enum CrosswalkPaint {
    /// Rainbow stripes.
    Rainbow(Vec<Band>),
    /// Plain double lines, by their positions along the crossing line.
    Lines(Vec<(u64, u64)>),
}

/// The paint of the crosswalk with geometry `pts` across road `way` at intersection `node`,
/// over a lane `lane_width` wide: rainbow stripes where the crossing is painted as a rainbow
/// (see `make_rainbow_crosswalk`), else plain double lines (see `crosswalk_lines`).
pub fn make_crosswalk(node: i64, way: i64, lane_width: u64, pts: &Vec<Pt2D>, width: u64, thickness: u64) -> (r: CrosswalkPaint)
    requires
        lane_width <= 0x1_0000_0000,
        all_in_bounds(pts@),
        width <= 0x10_0000,
        thickness <= 0x10_0000,
    ensures
        match r {
            CrosswalkPaint::Rainbow(bands) => is_rainbow(node, way) && rainbow_bands(bands@, lane_width as int),
            CrosswalkPaint::Lines(marks) => !is_rainbow(node, way) && crosswalk_marks(marks@, pts@, width as int, thickness as int),
        },
{
    match make_rainbow_crosswalk(node, way, lane_width) {
        Some(bands) => CrosswalkPaint::Rainbow(bands),
        None => CrosswalkPaint::Lines(crosswalk_lines(pts, width, thickness)),
    }
}

/// The positions along the crossing line, from its start, of the two lines of each double
/// line of a crosswalk with geometry `pts`: one every `3/5` of `width`, starting at least
/// `width` in from either end and centered, the second line of each pair `2 * thickness`
/// after the first. Empty where the crossing line is missing or too short.
pub fn crosswalk_lines(pts: &Vec<Pt2D>, width: u64, thickness: u64) -> (r: Vec<(u64, u64)>)
    requires
        all_in_bounds(pts@),
        width <= 0x10_0000,
        thickness <= 0x10_0000,
    ensures
        crosswalk_marks(r@, pts@, width as int, thickness as int),
{
    let mut marks: Vec<(u64, u64)> = Vec::new();
    if pts.len() < 3 {
        return marks;
    }
    let a = pts[1];
    let b = pts[2];
    assert(a.in_bounds() && b.in_bounds());
    if a.x == b.x && a.y == b.y {
        return marks;
    }
    let len = seg_len(a, b);
    let tile = width * 3 / 5;
    if len <= 2 * width || tile == 0 {
        return marks;
    }
    let avail = len - 2 * width;
    let n = avail / tile;
    proof {
        vstd::arithmetic::div_mod::lemma_fundamental_div_mod(avail as int, tile as int);
        assert(0 <= tile * n <= avail);
    }
    let start = width + (avail - tile * n) / 2;
    let mut k: u64 = 0;
    while k <= n
        invariant
            n == extra_marks(len as int, width as int),
            start == first_mark(len as int, width as int),
            tile == width * 3 / 5,
            tile > 0,
            tile * n <= avail,
            avail < 0x4000_0000,
            start <= width + avail,
            width <= 0x10_0000,
            thickness <= 0x10_0000,
            k <= n + 1,
            marks@.len() == k,
            forall|j: int| 0 <= j < k ==> (#[trigger] marks@[j]).0 == start + j * tile
                && marks@[j].1 == start + j * tile + 2 * thickness,
        decreases n + 1 - k,
    {
        assert(tile * k <= tile * n) by (nonlinear_arith)
            requires k <= n, tile >= 0;
        assert(tile * k == k * tile) by (nonlinear_arith);
        let at = start + tile * k;
        marks.push((at, at + 2 * thickness));
        k += 1;
    }
    marks
}

} // verus!
