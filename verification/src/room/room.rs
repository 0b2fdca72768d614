//! One room, carved into a hillside of a grown world.
//!
//! Nothing here invents terrain: the world decides the relief and raises
//! the bricks, and the room is one carve into rock the world already had.
//! What is decided here is the chamber itself once its centre is found: its
//! bounds, where the body stands, and which bricks are near enough to draw.

use vstd::prelude::*;

verus! {

/// The world this probe plays in. One seed, so the room is the same room on
/// every machine and in every replay.
pub const SEED: u64 = 4242;

/// Enclosure half-extent, in voxels.
pub const EXTENT: i32 = 64;

/// Place-graph side. Four by four regions over the enclosure.
pub const SIDE: u16 = 4;

/// Half-extent of the carved room: a nine-cubed chamber.
pub const ROOM_RADIUS: i32 = 4;

/// Voxels of rock the room must keep between its ceiling and the open air.
pub const ROOF: i32 = 2;

/// How far out the hillside hunt scans, in rings of columns.
pub const SEARCH_RINGS: i32 = 48;

/// The thinnest overburden a hillside may have and still hold this room:
/// floor clearance above bedrock, the room itself, and the roof.
pub const MIN_HILL: i32 = 2 * ROOM_RADIUS + ROOF + 2;

/// How far from the origin a chamber's centre may lie in any axis.
pub const CHAMBER_REACH: i32 = 0x1000_0000;

#[derive(Clone, Copy, Debug, PartialEq, Eq, Structural)]
pub enum RoomError {
    /// No column in range carried enough rock to bury a room of this size.
    NoHillside,
}

/// The carved chamber of a grown world, and the stance the body starts
/// from. The world it was carved from is named by its seed.
#[derive(Clone, Copy, Debug, PartialEq, Eq)]
pub struct Room {
    pub seed: u64,
    /// Centre of the carved chamber, in voxels.
    pub centre: [i32; 3],
    pub radius: i32,
    /// Where the body stands at tick zero: the middle of the room's floor.
    pub stance: [i32; 3],
}

pub open spec fn centre_ok(c: [i32; 3]) -> bool {
    &&& -CHAMBER_REACH <= c[0] <= CHAMBER_REACH
    &&& -CHAMBER_REACH <= c[1] <= CHAMBER_REACH
    &&& -CHAMBER_REACH <= c[2] <= CHAMBER_REACH
}

/// A room the probe can reason about: its radius and its stance are the
/// carve's.
pub open spec fn room_ok(room: Room) -> bool {
    &&& centre_ok(room.centre)
    &&& 0 <= room.radius <= ROOM_RADIUS
    &&& room.stance == [room.centre[0], (room.centre[1] - room.radius) as i32, room.centre[2]]
}

/// The interior bounds of a chamber of half-extent `r` about `c`.
pub open spec fn interior_spec(c: [i32; 3], r: int) -> ([i32; 3], [i32; 3]) {
    (
        [(c[0] - r) as i32, (c[1] - r) as i32, (c[2] - r) as i32],
        [(c[0] + r) as i32, (c[1] + r) as i32, (c[2] + r) as i32],
    )
}

/// Whether a brick's span along one axis comes within `reach` of `want`.
pub open spec fn axis_near(k: i16, brick: int, want: i32, reach: int) -> bool {
    let low = k * brick;
    let high = low + brick - 1;
    high >= want - reach && low <= want + reach
}

/// Whether a brick of side `brick` at `key` comes within `reach` of `centre`
/// on every axis.
pub open spec fn near_spec(key: [i16; 3], brick: int, centre: [i32; 3], reach: int) -> bool {
    axis_near(key[0], brick, centre[0], reach) && axis_near(key[1], brick, centre[1], reach) && axis_near(
        key[2],
        brick,
        centre[2],
        reach,
    )
}

pub(crate) fn axis_near_exec(k: i16, brick: i32, want: i32, reach: i32) -> (near: bool)
    requires
        0 < brick <= 0x10000,
        0 <= reach,
        i32::MIN <= want - reach,
        want + reach <= i32::MAX,
    ensures
        near == axis_near(k, brick as int, want, reach as int),
{
    let k = k as i32;
    proof {
        assert(-0x8000_0000 <= k * brick <= 0x7fff * 0x10000) by (nonlinear_arith)
            requires
                -0x8000 <= k <= 0x7fff,
                0 < brick <= 0x10000,
        ;
        assert(k * brick + brick - 1 <= 0x7fff_ffff) by (nonlinear_arith)
            requires
                -0x8000 <= k <= 0x7fff,
                0 < brick <= 0x10000,
        ;
    }
    let low = k * brick;
    let high = low + (brick - 1);
    high >= want - reach && low <= want + reach
}

/// The keys near the centre, in the order given.
pub open spec fn nearby_spec(keys: Seq<[i16; 3]>, brick: int, centre: [i32; 3], reach: int) -> Seq<[i16; 3]>
    decreases keys.len(),
{
    if keys.len() == 0 {
        Seq::empty()
    } else {
        let before = nearby_spec(keys.drop_last(), brick, centre, reach);
        if near_spec(keys.last(), brick, centre, reach) {
            before.push(keys.last())
        } else {
            before
        }
    }
}

/// Where a chamber would sit over a column whose thinnest overburden over
/// the footprint is `low`: deep enough to keep its roof, high enough to
/// keep a floor, or nowhere.
pub open spec fn chamber_spec(x: i32, z: i32, low: i32, radius: i32) -> Option<[i32; 3]> {
    if low < MIN_HILL {
        None
    } else {
        let y = low - ROOF - radius;
        if y - radius < 2 {
            None
        } else {
            Some([x, y as i32, z])
        }
    }
}

impl Room {
    /// The chamber carved about `centre` in the world grown from `seed`.
    pub fn carved(seed: u64, centre: [i32; 3]) -> (room: Room)
        requires
            centre_ok(centre),
        ensures
            room_ok(room),
            room.seed == seed,
            room.centre == centre,
            room.radius == ROOM_RADIUS,
    {
        Room {
            seed,
            centre,
            radius: ROOM_RADIUS,
            stance: [centre[0], centre[1] - ROOM_RADIUS, centre[2]],
        }
    }

    /// The room's interior bounds, in voxels: lowest air and highest air.
    pub fn interior(&self) -> (bounds: ([i32; 3], [i32; 3]))
        requires
            room_ok(*self),
        ensures
            bounds == interior_spec(self.centre, self.radius as int),
    {
        let r = self.radius;
        let c = self.centre;
        let bounds = ([c[0] - r, c[1] - r, c[2] - r], [c[0] + r, c[1] + r, c[2] + r]);
        proof {
            assert(bounds.0 =~= interior_spec(c, r as int).0);
            assert(bounds.1 =~= interior_spec(c, r as int).1);
        }
        bounds
    }

    /// The bricks worth drawing: those of `keys` within `reach` voxels of
    /// the room on every axis, for bricks `brick` voxels on a side.
    pub fn nearby_bricks(&self, keys: &[[i16; 3]], brick: i32, reach: i32) -> (near: Vec<[i16; 3]>)
        requires
            0 < brick <= 0x10000,
            0 <= reach,
            forall|a: int| 0 <= a < 3 ==> i32::MIN <= #[trigger] self.centre[a] - reach && self.centre[a] + reach <= i32::MAX,
        ensures
            near@ == nearby_spec(keys@, brick as int, self.centre, reach as int),
    {
        let mut near: Vec<[i16; 3]> = Vec::new();
        let mut i: usize = 0;
        while i < keys.len()
            invariant
                i <= keys@.len(),
                0 < brick <= 0x10000,
                0 <= reach,
                forall|a: int| 0 <= a < 3 ==> i32::MIN <= #[trigger] self.centre[a] - reach && self.centre[a] + reach <= i32::MAX,
                near@ == nearby_spec(keys@.take(i as int), brick as int, self.centre, reach as int),
            decreases keys@.len() - i,
        {
            let key = keys[i];
            let c = self.centre;
            proof {
                assert(i32::MIN <= c[0] - reach && c[0] + reach <= i32::MAX);
                assert(i32::MIN <= c[1] - reach && c[1] + reach <= i32::MAX);
                assert(i32::MIN <= c[2] - reach && c[2] + reach <= i32::MAX);
            }
            let all = axis_near_exec(key[0], brick, c[0], reach) && axis_near_exec(key[1], brick, c[1], reach)
                && axis_near_exec(key[2], brick, c[2], reach);
            proof {
                assert(keys@.take(i + 1).drop_last() =~= keys@.take(i as int));
                assert(keys@.take(i + 1).last() == key);
            }
            if all {
                near.push(key);
            }
            i = i + 1;
        }
        proof {
            assert(keys@.take(i as int) =~= keys@);
        }
        near
    }
}

/// Where a chamber would sit over the column `(x, z)`, given the thinnest
/// overburden over its footprint.
pub fn chamber_at(x: i32, z: i32, low: i32, radius: i32) -> (centre: Option<[i32; 3]>)
    requires
        0 <= radius <= ROOM_RADIUS,
    ensures
        centre == chamber_spec(x, z, low, radius),
{
    if low < MIN_HILL {
        return None;
    }
    let y = low - ROOF - radius;
    if y - radius < 2 {
        return None;
    }
    Some([x, y, z])
}

} // verus!
