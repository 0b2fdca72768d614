//! The hillside hunt: where in a grown world a room can be buried.
//!
//! The world answers two questions, the surface height over a column and
//! whether a voxel is rock, and answers them as it likes; the hunt is a
//! deterministic outward scan over those answers. It picks the first column,
//! ring by ring from the origin, rows of z ascending and x ascending within
//! a ring, whose footprint carries enough rock overhead and whose chamber
//! cube, one voxel wider than the carve, is rock throughout.

use vstd::prelude::*;

use crate::room::room::{chamber_at, chamber_spec, ROOM_RADIUS, SEARCH_RINGS};

verus! {

/// Whether `(x, z)` lies in the square of half-width `m` about `(cx, cz)`.
pub open spec fn in_square(x: int, z: int, cx: int, cz: int, m: int) -> bool {
    cx - m <= x <= cx + m && cz - m <= z <= cz + m
}

/// Whether `p` lies in the cube of half-extent `m` about `c`.
pub open spec fn in_cube(p: [i32; 3], c: [i32; 3], m: int) -> bool {
    &&& c[0] - m <= p[0] <= c[0] + m
    &&& c[1] - m <= p[1] <= c[1] + m
    &&& c[2] - m <= p[2] <= c[2] + m
}

/// Whether the column `(x, z)` was answered with a surface at `low` or
/// above.
pub open spec fn floored<F: Fn(i32, i32) -> Option<i32>>(surface: F, x: i32, z: i32, low: i32) -> bool {
    exists|v: i32| #[trigger] surface.ensures((x, z), Some(v)) && low <= v
}

/// Whether every column of the square of half-width `m` about `(ax, az)`
/// was answered with a surface at `low` or above.
pub open spec fn floored_over<F: Fn(i32, i32) -> Option<i32>>(surface: F, ax: i32, az: i32, m: int, low: i32) -> bool {
    forall|x: i32, z: i32| in_square(x as int, z as int, ax as int, az as int, m) ==> #[trigger] floored(surface, x, z, low)
}

/// Whether some column of the square of half-width `m` about `(ax, az)` was
/// answered `answer`.
pub open spec fn answered_in<F: Fn(i32, i32) -> Option<i32>>(
    surface: F,
    ax: i32,
    az: i32,
    m: int,
    answer: Option<i32>,
) -> bool {
    exists|x: i32, z: i32| in_square(x as int, z as int, ax as int, az as int, m) && #[trigger] surface.ensures((x, z), answer)
}

/// What the thinnest-column question may answer over the footprint of
/// half-width `m` about `(ax, az)`: the lowest surface, which every column
/// is at or above and one column is at; or nothing, because some column has
/// no surface at all.
pub open spec fn thinnest_answer<F: Fn(i32, i32) -> Option<i32>>(
    surface: F,
    ax: i32,
    az: i32,
    m: int,
    low: Option<i32>,
) -> bool {
    match low {
        Some(l) => floored_over(surface, ax, az, m, l) && answered_in(surface, ax, az, m, Some(l)),
        None => answered_in(surface, ax, az, m, None),
    }
}

/// What the buried question may answer about the cube of half-extent `m`
/// about `c`: rock throughout, every voxel answered solid; or not, some
/// voxel answered open.
pub open spec fn buried_answer<G: Fn([i32; 3]) -> bool>(solid: G, c: [i32; 3], m: int, buried: bool) -> bool {
    if buried {
        forall|p: [i32; 3]| in_cube(p, c, m) ==> #[trigger] solid.ensures((p,), true)
    } else {
        exists|p: [i32; 3]| in_cube(p, c, m) && #[trigger] solid.ensures((p,), false)
    }
}

/// Whether the column `(x, z)` holds a room of `radius` centred at `c`: the
/// footprint's thinnest surface places the chamber there, and its cube is
/// rock throughout.
pub open spec fn accepted<F: Fn(i32, i32) -> Option<i32>, G: Fn([i32; 3]) -> bool>(
    surface: F,
    solid: G,
    x: i32,
    z: i32,
    radius: i32,
    c: [i32; 3],
) -> bool {
    exists|l: i32|
        thinnest_answer(surface, x, z, radius + 1, Some(l)) && #[trigger] chamber_spec(x, z, l, radius) == Some(c)
            && buried_answer(solid, c, radius + 1, true)
}

/// Whether the column `(x, z)` was turned down: some footprint column has
/// no surface, or the thinnest places no chamber, or the chamber's cube is
/// not rock throughout.
pub open spec fn rejected<F: Fn(i32, i32) -> Option<i32>, G: Fn([i32; 3]) -> bool>(
    surface: F,
    solid: G,
    x: i32,
    z: i32,
    radius: i32,
) -> bool {
    ||| thinnest_answer(surface, x, z, radius + 1, None)
    ||| exists|l: i32|
        thinnest_answer(surface, x, z, radius + 1, Some(l)) && match #[trigger] chamber_spec(x, z, l, radius) {
            None => true,
            Some(c) => buried_answer(solid, c, radius + 1, false),
        }
}

pub open spec fn abs(v: int) -> int {
    if v < 0 {
        -v
    } else {
        v
    }
}

/// Which ring of the outward scan a column is on.
pub open spec fn ring(x: int, z: int) -> int {
    if abs(x) < abs(z) {
        abs(z)
    } else {
        abs(x)
    }
}

/// Whether the scan reaches `(x, z)` before `(cx, cz)`: on an inner ring,
/// or on the same ring in an earlier row, or earlier in the same row.
pub open spec fn scanned_before(x: int, z: int, cx: int, cz: int) -> bool {
    ||| ring(x, z) < ring(cx, cz)
    ||| ring(x, z) == ring(cx, cz) && z < cz
    ||| ring(x, z) == ring(cx, cz) && z == cz && x < cx
}

/// The lowest surface over a square footprint of half-width `margin` about
/// `at`; nothing if any column in it has no surface.
pub fn thinnest<F: Fn(i32, i32) -> Option<i32>>(surface: &F, at: [i32; 2], margin: i32) -> (low: Option<i32>)
    requires
        0 <= margin <= 16,
        -0x1000_0000 <= at[0] <= 0x1000_0000,
        -0x1000_0000 <= at[1] <= 0x1000_0000,
        forall|x: i32, z: i32| #[trigger] surface.requires((x, z)),
    ensures
        thinnest_answer(*surface, at[0], at[1], margin as int, low),
{
    let mut low: i32 = i32::MAX;
    let mut dz: i32 = -margin;
    while dz <= margin
        invariant
            0 <= margin <= 16,
            -0x1000_0000 <= at[0] <= 0x1000_0000,
            -0x1000_0000 <= at[1] <= 0x1000_0000,
            forall|x: i32, z: i32| #[trigger] surface.requires((x, z)),
            -margin <= dz <= margin + 1,
            dz == -margin ==> low == i32::MAX,
            forall|x: i32, z: i32|
                in_square(x as int, z as int, at[0] as int, at[1] as int, margin as int) && z < at[1] + dz
                    ==> #[trigger] floored(*surface, x, z, low),
            dz > -margin ==> exists|x: i32, z: i32|
                in_square(x as int, z as int, at[0] as int, at[1] as int, margin as int) && #[trigger] surface.ensures(
                    (x, z),
                    Some(low),
                ),
        decreases margin + 1 - dz,
    {
        let mut dx: i32 = -margin;
        while dx <= margin
            invariant
                0 <= margin <= 16,
                -0x1000_0000 <= at[0] <= 0x1000_0000,
                -0x1000_0000 <= at[1] <= 0x1000_0000,
                forall|x: i32, z: i32| #[trigger] surface.requires((x, z)),
                -margin <= dz <= margin,
                -margin <= dx <= margin + 1,
                dz == -margin && dx == -margin ==> low == i32::MAX,
                forall|x: i32, z: i32|
                    in_square(x as int, z as int, at[0] as int, at[1] as int, margin as int) && (z < at[1] + dz || (z
                        == at[1] + dz && x < at[0] + dx)) ==> #[trigger] floored(*surface, x, z, low),
                dz > -margin || dx > -margin ==> exists|x: i32, z: i32|
                    in_square(x as int, z as int, at[0] as int, at[1] as int, margin as int) && #[trigger] surface.ensures(
                        (x, z),
                        Some(low),
                    ),
            decreases margin + 1 - dx,
        {
            let cx: i32 = at[0] + dx;
            let cz: i32 = at[1] + dz;
            let answer = surface(cx, cz);
            match answer {
                None => {
                    proof {
                        assert(in_square(cx as int, cz as int, at[0] as int, at[1] as int, margin as int));
                    }
                    return None;
                },
                Some(v) => {
                    let ghost old_low = low;
                    if v < low {
                        low = v;
                    }
                    proof {
                        assert forall|x: i32, z: i32|
                            in_square(x as int, z as int, at[0] as int, at[1] as int, margin as int) && (z < at[1] + dz
                                || (z == at[1] + dz && x < at[0] + dx + 1)) implies #[trigger] floored(
                            *surface,
                            x,
                            z,
                            low,
                        ) by {
                            if x == cx && z == cz {
                                assert(surface.ensures((x, z), Some(v)));
                            } else {
                                assert(floored(*surface, x, z, old_low));
                                let w = choose|w: i32| #[trigger] surface.ensures((x, z), Some(w)) && old_low <= w;
                                assert(surface.ensures((x, z), Some(w)));
                            }
                        }
                        assert(in_square(cx as int, cz as int, at[0] as int, at[1] as int, margin as int));
                        if v <= old_low {
                            assert(surface.ensures((cx, cz), Some(low)));
                        }
                    }
                },
            }
            dx = dx + 1;
        }
        dz = dz + 1;
    }
    proof {
        assert forall|x: i32, z: i32| in_square(x as int, z as int, at[0] as int, at[1] as int, margin as int) implies #[trigger] floored(
            *surface,
            x,
            z,
            low,
        ) by {
            assert(z < at[1] + dz);
        }
        assert(dz > -margin);
        assert(floored_over(*surface, at[0], at[1], margin as int, low));
        assert(answered_in(*surface, at[0], at[1], margin as int, Some(low)));
    }
    Some(low)
}

/// Whether the cube of half-extent `margin` about `centre` is rock
/// throughout.
pub fn buried<G: Fn([i32; 3]) -> bool>(solid: &G, centre: [i32; 3], margin: i32) -> (rock: bool)
    requires
        0 <= margin <= 16,
        -0x1000_0000 <= centre[0] <= 0x1000_0000,
        i32::MIN + margin <= centre[1] <= i32::MAX - margin,
        -0x1000_0000 <= centre[2] <= 0x1000_0000,
        forall|p: [i32; 3]| #[trigger] solid.requires((p,)),
    ensures
        buried_answer(*solid, centre, margin as int, rock),
{
    let mut dy: i32 = -margin;
    while dy <= margin
        invariant
            0 <= margin <= 16,
            -0x1000_0000 <= centre[0] <= 0x1000_0000,
            i32::MIN + margin <= centre[1] <= i32::MAX - margin,
            -0x1000_0000 <= centre[2] <= 0x1000_0000,
            forall|p: [i32; 3]| #[trigger] solid.requires((p,)),
            -margin <= dy <= margin + 1,
            forall|p: [i32; 3]| in_cube(p, centre, margin as int) && p[1] < centre[1] + dy ==> #[trigger] solid.ensures((p,), true),
        decreases margin + 1 - dy,
    {
        let mut dz: i32 = -margin;
        while dz <= margin
            invariant
                0 <= margin <= 16,
                -0x1000_0000 <= centre[0] <= 0x1000_0000,
                i32::MIN + margin <= centre[1] <= i32::MAX - margin,
                -0x1000_0000 <= centre[2] <= 0x1000_0000,
                forall|p: [i32; 3]| #[trigger] solid.requires((p,)),
                -margin <= dy <= margin,
                -margin <= dz <= margin + 1,
                forall|p: [i32; 3]|
                    in_cube(p, centre, margin as int) && (p[1] < centre[1] + dy || (p[1] == centre[1] + dy && p[2]
                        < centre[2] + dz)) ==> #[trigger] solid.ensures((p,), true),
            decreases margin + 1 - dz,
        {
            let mut dx: i32 = -margin;
            while dx <= margin
                invariant
                    0 <= margin <= 16,
                    -0x1000_0000 <= centre[0] <= 0x1000_0000,
                    i32::MIN + margin <= centre[1] <= i32::MAX - margin,
                    -0x1000_0000 <= centre[2] <= 0x1000_0000,
                    forall|p: [i32; 3]| #[trigger] solid.requires((p,)),
                    -margin <= dy <= margin,
                    -margin <= dz <= margin,
                    -margin <= dx <= margin + 1,
                    forall|p: [i32; 3]|
                        in_cube(p, centre, margin as int) && (p[1] < centre[1] + dy || (p[1] == centre[1] + dy && (p[2]
                            < centre[2] + dz || (p[2] == centre[2] + dz && p[0] < centre[0] + dx)))) ==> #[trigger] solid.ensures(
                            (p,),
                            true,
                        ),
                decreases margin + 1 - dx,
            {
                let q: [i32; 3] = [centre[0] + dx, centre[1] + dy, centre[2] + dz];
                if !solid(q) {
                    proof {
                        assert(in_cube(q, centre, margin as int));
                    }
                    return false;
                }
                proof {
                    assert forall|p: [i32; 3]|
                        in_cube(p, centre, margin as int) && (p[1] < centre[1] + dy || (p[1] == centre[1] + dy && (p[2]
                            < centre[2] + dz || (p[2] == centre[2] + dz && p[0] < centre[0] + dx + 1)))) implies #[trigger] solid.ensures(
                        (p,),
                        true,
                    ) by {
                        if p[0] == q[0] && p[1] == q[1] && p[2] == q[2] {
                            assert(p =~= q);
                        }
                    }
                }
                dx = dx + 1;
            }
            dz = dz + 1;
        }
        dy = dy + 1;
    }
    true
}

/// Whether the column `(x, z)` holds a room of `radius`, and where its
/// centre would be.
pub fn column_site<F: Fn(i32, i32) -> Option<i32>, G: Fn([i32; 3]) -> bool>(
    surface: &F,
    solid: &G,
    x: i32,
    z: i32,
    radius: i32,
) -> (site: Option<[i32; 3]>)
    requires
        0 <= radius <= ROOM_RADIUS,
        -0x1000 <= x <= 0x1000,
        -0x1000 <= z <= 0x1000,
        forall|x: i32, z: i32| #[trigger] surface.requires((x, z)),
        forall|p: [i32; 3]| #[trigger] solid.requires((p,)),
    ensures
        match site {
            Some(c) => accepted(*surface, *solid, x, z, radius, c),
            None => rejected(*surface, *solid, x, z, radius),
        },
{
    let margin: i32 = radius + 1;
    let low = match thinnest(surface, [x, z], margin) {
        Some(l) => l,
        None => return None,
    };
    let centre = match chamber_at(x, z, low, radius) {
        Some(c) => c,
        None => {
            proof {
                assert(thinnest_answer(*surface, x, z, radius + 1, Some(low)));
            }
            return None;
        },
    };
    proof {
        assert(centre[1] <= low);
    }
    let rock = buried(solid, centre, margin);
    proof {
        assert(thinnest_answer(*surface, x, z, radius + 1, Some(low)));
    }
    if rock {
        Some(centre)
    } else {
        None
    }
}


/// The first column of the outward scan, out to [`SEARCH_RINGS`], that
/// holds a room of `radius`: its chamber centre, or nothing when every
/// column in range was turned down.
pub fn hillside<F: Fn(i32, i32) -> Option<i32>, G: Fn([i32; 3]) -> bool>(
    surface: &F,
    solid: &G,
    radius: i32,
) -> (centre: Option<[i32; 3]>)
    requires
        0 <= radius <= ROOM_RADIUS,
        forall|x: i32, z: i32| #[trigger] surface.requires((x, z)),
        forall|p: [i32; 3]| #[trigger] solid.requires((p,)),
    ensures
        match centre {
            Some(c) => {
                &&& ring(c[0] as int, c[2] as int) <= SEARCH_RINGS
                &&& accepted(*surface, *solid, c[0], c[2], radius, c)
                &&& forall|x: i32, z: i32|
                    scanned_before(x as int, z as int, c[0] as int, c[2] as int) ==> #[trigger] rejected(
                        *surface,
                        *solid,
                        x,
                        z,
                        radius,
                    )
            },
            None => forall|x: i32, z: i32|
                ring(x as int, z as int) <= SEARCH_RINGS ==> #[trigger] rejected(*surface, *solid, x, z, radius),
        },
{
    let mut r: i32 = 0;
    while r <= SEARCH_RINGS
        invariant
            0 <= radius <= ROOM_RADIUS,
            forall|x: i32, z: i32| #[trigger] surface.requires((x, z)),
            forall|p: [i32; 3]| #[trigger] solid.requires((p,)),
            0 <= r <= SEARCH_RINGS + 1,
            forall|x: i32, z: i32| ring(x as int, z as int) < r ==> #[trigger] rejected(*surface, *solid, x, z, radius),
        decreases SEARCH_RINGS + 1 - r,
    {
        let mut z: i32 = -r;
        while z <= r
            invariant
                0 <= radius <= ROOM_RADIUS,
                forall|x: i32, z: i32| #[trigger] surface.requires((x, z)),
                forall|p: [i32; 3]| #[trigger] solid.requires((p,)),
                0 <= r <= SEARCH_RINGS,
                -r <= z <= r + 1,
                forall|x: i32, w: i32|
                    ring(x as int, w as int) < r || (ring(x as int, w as int) == r && w < z) ==> #[trigger] rejected(
                        *surface,
                        *solid,
                        x,
                        w,
                        radius,
                    ),
            decreases r + 1 - z,
        {
            let mut x: i32 = -r;
            while x <= r
                invariant
                    0 <= radius <= ROOM_RADIUS,
                    forall|x: i32, z: i32| #[trigger] surface.requires((x, z)),
                    forall|p: [i32; 3]| #[trigger] solid.requires((p,)),
                    0 <= r <= SEARCH_RINGS,
                    -r <= z <= r,
                    -r <= x <= r + 1,
                    forall|v: i32, w: i32|
                        ring(v as int, w as int) < r || (ring(v as int, w as int) == r && (w < z || (w == z && v < x)))
                            ==> #[trigger] rejected(*surface, *solid, v, w, radius),
                decreases r + 1 - x,
            {
                let ax: i32 = if x < 0 {
                    -x
                } else {
                    x
                };
                let az: i32 = if z < 0 {
                    -z
                } else {
                    z
                };
                let on_ring = if ax < az {
                    az == r
                } else {
                    ax == r
                };
                if on_ring {
                    match column_site(surface, solid, x, z, radius) {
                        Some(c) => {
                            return Some(c);
                        },
                        None => {},
                    }
                }
                proof {
                    assert forall|v: i32, w: i32|
                        ring(v as int, w as int) < r || (ring(v as int, w as int) == r && (w < z || (w == z && v < x
                            + 1))) implies #[trigger] rejected(*surface, *solid, v, w, radius) by {
                        if v == x && w == z && !on_ring {
                            assert(ring(v as int, w as int) < r);
                        }
                    }
                }
                x = x + 1;
            }
            z = z + 1;
        }
        r = r + 1;
    }
    None
}

} // verus!
