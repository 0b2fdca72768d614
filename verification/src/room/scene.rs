//! What the room's picture is checked against: the occlusion witnesses
//! placed about the chamber, and the one property that separates a
//! read-back frame from a blank.

use vstd::prelude::*;

use crate::room::room::{room_ok, Room};

verus! {

/// How far around the room to mesh, in voxels.
pub const MESH_REACH: i32 = 20;

/// One occlusion witness: a voxel-aligned box.
#[derive(Clone, Copy, Debug)]
pub struct Pillar {
    /// Why this pillar is in the picture, for the receipt.
    pub role: &'static str,
    /// Lowest voxel corner, world coordinates.
    pub min: [i32; 3],
    /// Extent in voxels.
    pub extent: [i32; 3],
}

/// The three witnesses, placed off the room's centre so a relief change
/// moves them with the chamber: one standing before the wall, one with its
/// base a voxel under the floor, and one entirely under the floor, inside
/// rock the carve's solid footprint guarantees.
pub fn d1_pillars(room: &Room) -> (pillars: [Pillar; 3])
    requires
        room_ok(*room),
    ensures
        ({
            let c = room.centre;
            let r = room.radius;
            &&& pillars[0].min == [(c[0] + 3) as i32, (c[1] - r) as i32, (c[2] - 2) as i32]
            &&& pillars[0].extent == [1i32, 3i32, 1i32]
            &&& pillars[0].role@ == "standing before the wall"@
            &&& pillars[1].min == [(c[0] + 2) as i32, (c[1] - r - 1) as i32, (c[2] - r) as i32]
            &&& pillars[1].extent == [1i32, 3i32, 1i32]
            &&& pillars[1].role@ == "base buried a voxel under the floor"@
            &&& pillars[2].min == [(c[0] + 4) as i32, (c[1] - r - 3) as i32, (c[2] - r) as i32]
            &&& pillars[2].extent == [1i32, 2i32, 1i32]
            &&& pillars[2].role@ == "entirely under the floor"@
        }),
{
    let c = room.centre;
    let r = room.radius;
    let pillars = [
        Pillar { role: "standing before the wall", min: [c[0] + 3, c[1] - r, c[2] - 2], extent: [1, 3, 1] },
        Pillar {
            role: "base buried a voxel under the floor",
            min: [c[0] + 2, c[1] - r - 1, c[2] - r],
            extent: [1, 3, 1],
        },
        Pillar { role: "entirely under the floor", min: [c[0] + 4, c[1] - r - 3, c[2] - r], extent: [1, 2, 1] },
    ];
    proof {
        assert(pillars[0].min =~= [(c[0] + 3) as i32, (c[1] - r) as i32, (c[2] - 2) as i32]);
        assert(pillars[0].extent =~= [1i32, 3i32, 1i32]);
        assert(pillars[1].min =~= [(c[0] + 2) as i32, (c[1] - r - 1) as i32, (c[2] - r) as i32]);
        assert(pillars[1].extent =~= [1i32, 3i32, 1i32]);
        assert(pillars[2].min =~= [(c[0] + 4) as i32, (c[1] - r - 3) as i32, (c[2] - r) as i32]);
        assert(pillars[2].extent =~= [1i32, 2i32, 1i32]);
    }
    pillars
}

/// A colour packed into one integer, one byte per channel: one-to-one on
/// colours.
pub open spec fn packed(r: u8, g: u8, b: u8) -> u32 {
    (r as int * 65536 + g as int * 256 + b as int) as u32
}

/// Packing keeps colours apart: two packed colours are equal exactly when
/// their red, green and blue are, so counting packed colours counts the
/// distinct RGB triples, alpha ignored.
pub proof fn law_packing_keeps_colours_apart(r: u8, g: u8, b: u8, r2: u8, g2: u8, b2: u8)
    ensures
        packed(r, g, b) == packed(r2, g2, b2) <==> (r == r2 && g == g2 && b == b2),
{
    let x = r as int * 65536 + g as int * 256 + b as int;
    let y = r2 as int * 65536 + g2 as int * 256 + b2 as int;
    assert(0 <= x < 0x1000000 && 0 <= y < 0x1000000);
    assert(packed(r, g, b) == x && packed(r2, g2, b2) == y);
    if x == y {
        assert(r == r2 && g == g2 && b == b2) by (nonlinear_arith)
            requires
                r as int * 65536 + g as int * 256 + b as int == r2 as int * 65536 + g2 as int * 256 + b2 as int,
                0 <= r <= 255, 0 <= g <= 255, 0 <= b <= 255,
                0 <= r2 <= 255, 0 <= g2 <= 255, 0 <= b2 <= 255,
        ;
    }
}

/// The packed colour of whole pixel `i` of RGBA bytes.
pub open spec fn pixel_code(pixels: Seq<u8>, i: int) -> u32 {
    packed(pixels[4 * i], pixels[4 * i + 1], pixels[4 * i + 2])
}

/// The colours of the first `n` whole pixels.
pub open spec fn colours_of(pixels: Seq<u8>, n: int) -> Set<u32> {
    Set::new(|c: u32| exists|i: int| 0 <= i < n && #[trigger] pixel_code(pixels, i) == c)
}

/// A read-back frame, with how many distinct colours are actually in it.
#[derive(Clone, Debug)]
pub struct Capture {
    pub pixels: Vec<u8>,
    pub size: [u32; 2],
    pub distinct: usize,
}

impl Capture {
    /// A frame of RGBA bytes, counting its distinct colours over whole
    /// pixels; a trailing partial pixel is not a colour.
    pub fn of(pixels: Vec<u8>, size: [u32; 2]) -> (capture: Self)
        ensures
            capture.pixels@ == pixels@,
            capture.size == size,
            capture.distinct == colours_of(pixels@, (pixels@.len() / 4) as int).len(),
    {
        broadcast use vstd::std_specs::hash::group_hash_axioms;

        let mut seen: std::collections::HashSet<u32> = std::collections::HashSet::new();
        let n: usize = pixels.len();
        let whole: usize = n / 4;
        let mut i: usize = 0;
        while i < whole
            invariant
                n == pixels@.len(),
                whole == pixels@.len() / 4,
                i <= whole,
                seen@ == colours_of(pixels@, i as int),
            decreases whole - i,
        {
            proof {
                assert(4 * i + 3 < n) by (nonlinear_arith)
                    requires
                        i < whole,
                        whole == n / 4,
                ;
            }
            let at: usize = 4 * i;
            let code: u32 = (pixels[at] as u32) * 65536 + (pixels[at + 1] as u32) * 256 + pixels[at + 2] as u32;
            proof {
                assert(code == pixel_code(pixels@, i as int));
            }
            seen.insert(code);
            proof {
                assert(seen@ =~= colours_of(pixels@, i + 1)) by {
                    assert forall|c: u32| colours_of(pixels@, i + 1).contains(c) implies seen@.contains(c) by {
                        let j = choose|j: int| 0 <= j < i + 1 && #[trigger] pixel_code(pixels@, j) == c;
                        if j < i {
                            assert(colours_of(pixels@, i as int).contains(c));
                        }
                    }
                    assert forall|c: u32| seen@.contains(c) implies colours_of(pixels@, i + 1).contains(c) by {
                        if c != code {
                            let j = choose|j: int| 0 <= j < i && #[trigger] pixel_code(pixels@, j) == c;
                            assert(0 <= j < i + 1 && pixel_code(pixels@, j) == c);
                        } else {
                            assert(pixel_code(pixels@, i as int) == c);
                        }
                    }
                }
            }
            i = i + 1;
        }
        let distinct = seen.len();
        Capture { pixels, size, distinct }
    }

    /// A frame of one flat colour is a failure that a written file hides.
    /// The threshold is deliberately low: this catches "nothing rendered",
    /// not "the picture is ugly".
    pub fn is_trivial(&self) -> (trivial: bool)
        ensures
            trivial == (self.distinct < 16),
    {
        self.distinct < 16
    }
}

/// Cyan, because nothing else in the room is: a green well lit, and green
/// and blue each well over red.
pub open spec fn cyan_spec(r: u8, g: u8, b: u8) -> bool {
    g > 60 && g * 10 > r * 16 && b * 10 > r * 16
}

/// Whether the pixel whose first bytes are red, green, blue is a witness
/// colour.
pub fn is_cyan(pixel: &[u8]) -> (cyan: bool)
    requires
        pixel@.len() >= 3,
    ensures
        cyan == cyan_spec(pixel@[0], pixel@[1], pixel@[2]),
{
    let (r, g, b) = (pixel[0] as u32, pixel[1] as u32, pixel[2] as u32);
    g > 60 && g * 10 > r * 16 && b * 10 > r * 16
}

/// Whether cell `k` of the 3x3 window about `(px, py)`, rows first, is
/// witness-coloured in an image `width` pixels wide.
pub open spec fn cyan_cell(pixels: Seq<u8>, width: int, px: int, py: int, k: int) -> bool {
    let x = px + k % 3 - 1;
    let y = py + k / 3 - 1;
    let at = (y * width + x) * 4;
    cyan_spec(pixels[at], pixels[at + 1], pixels[at + 2])
}

/// How many of the first `k` cells of the window are witness-coloured.
pub open spec fn cyan_cells(pixels: Seq<u8>, width: int, px: int, py: int, k: int) -> int
    decreases k,
{
    if k <= 0 {
        0
    } else {
        cyan_cells(pixels, width, px, py, k - 1) + if cyan_cell(pixels, width, px, py, k - 1) {
            1int
        } else {
            0int
        }
    }
}

/// How many of the 3x3 window around a probe pixel are witness-coloured.
pub fn cyan_at(capture: &Capture, pixel: [u32; 2]) -> (cyan: u32)
    requires
        1 <= pixel[0],
        1 <= pixel[1] < u32::MAX,
        ((pixel[1] + 1) * capture.size[0] + pixel[0] + 1) * 4 + 4 <= capture.pixels@.len(),
        ((pixel[1] + 1) * capture.size[0] + pixel[0] + 1) * 4 + 4 <= u32::MAX,
    ensures
        cyan == cyan_cells(capture.pixels@, capture.size[0] as int, pixel[0] as int, pixel[1] as int, 9),
{
    let width: u32 = capture.size[0];
    let ghost w = width as int;
    let ghost px = pixel[0] as int;
    let ghost py = pixel[1] as int;
    let ghost limit = ((py + 1) * w + px + 1) * 4 + 4;
    let mut cyan: u32 = 0;
    let mut dy: u32 = 0;
    while dy < 3
        invariant
            width == capture.size[0],
            w == width as int,
            px == pixel[0] as int,
            py == pixel[1] as int,
            1 <= px,
            1 <= py < u32::MAX,
            limit == ((py + 1) * w + px + 1) * 4 + 4,
            limit <= capture.pixels@.len(),
            limit <= u32::MAX,
            dy <= 3,
            cyan == cyan_cells(capture.pixels@, w, px, py, 3 * dy),
            cyan <= 3 * dy,
        decreases 3 - dy,
    {
        let y: u32 = pixel[1] - 1 + dy;
        let mut dx: u32 = 0;
        while dx < 3
            invariant
                width == capture.size[0],
                w == width as int,
                px == pixel[0] as int,
                py == pixel[1] as int,
                1 <= px,
                1 <= py < u32::MAX,
                limit == ((py + 1) * w + px + 1) * 4 + 4,
                limit <= capture.pixels@.len(),
                limit <= u32::MAX,
                dy < 3,
                y == py - 1 + dy,
                dx <= 3,
                cyan == cyan_cells(capture.pixels@, w, px, py, 3 * dy + dx),
                cyan <= 3 * dy + dx,
            decreases 3 - dx,
        {
            let x: u32 = pixel[0] - 1 + dx;
            proof {
                assert(y * w <= (py + 1) * w) by (nonlinear_arith)
                    requires
                        y <= py + 1,
                        0 <= w,
                ;
                assert(0 <= y * w) by (nonlinear_arith)
                    requires
                        0 <= y,
                        0 <= w,
                ;
            }
            let at: usize = ((y * width + x) * 4) as usize;
            proof {
                let k: int = 3 * dy + dx;
                assert(k % 3 == dx);
                assert(k / 3 == dy);
                assert(at == (y * w + x) * 4);
            }
            if is_cyan(&capture.pixels.as_slice()[at..at + 4]) {
                cyan = cyan + 1;
            }
            dx = dx + 1;
        }
        dy = dy + 1;
    }
    cyan
}

} // verus!
