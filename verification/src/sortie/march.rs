//! Walking toward somewhere, one step of the terrain at a time.
//!
//! What this module owns is only which step to ask for: the sign heading
//! toward a goal, and one deterministic shoulder-around when the terrain
//! refuses it. The terrain answers each asked step with where the body
//! landed; a landing where the body already stood is a refusal.
//!
//! `shoulder` is the walker's memory of which way it last shouldered around
//! an obstacle: +1 clockwise, -1 counter, 0 free. With it, a walker follows
//! a wall one way until the direct heading opens again.

use vstd::prelude::*;

verus! {

/// How far from the origin any position or goal may lie, in each axis.
/// Differences of two such coordinates, and a step or a dig beside one,
/// stay inside the integers positions are kept in.
pub const REACH: i32 = 0x2000_0000;

pub open spec fn in_reach(v: int) -> bool {
    -REACH <= v <= REACH
}

/// A position the march can reason about.
pub open spec fn on_map(p: [i32; 3]) -> bool {
    in_reach(p[0] as int) && in_reach(p[1] as int) && in_reach(p[2] as int)
}

/// A goal column the march can reason about.
pub open spec fn goal_on_map(g: [i32; 2]) -> bool {
    in_reach(g[0] as int) && in_reach(g[1] as int)
}

pub open spec fn sign(v: int) -> int {
    if v > 0 {
        1
    } else if v < 0 {
        -1
    } else {
        0
    }
}

pub open spec fn abs(v: int) -> int {
    if v < 0 {
        -v
    } else {
        v
    }
}

pub open spec fn max(a: int, b: int) -> int {
    if a < b {
        b
    } else {
        a
    }
}

/// The sign heading from a body toward a goal column, in x and z.
pub open spec fn heading_spec(at: [i32; 3], goal: [i32; 2]) -> (int, int) {
    (sign(goal[0] - at[0]), sign(goal[1] - at[2]))
}

/// The heading turned a quarter: clockwise for a non-negative sign,
/// counter-clockwise otherwise.
pub open spec fn side_spec(h: (int, int), s: int) -> (int, int) {
    if s >= 0 {
        (h.1, -h.0)
    } else {
        (-h.1, h.0)
    }
}

/// One column over in x and z, at the same height.
pub open spec fn shifted(at: [i32; 3], d: (int, int)) -> [i32; 3] {
    [(at[0] + d.0) as i32, at[1], (at[2] + d.1) as i32]
}

/// Whether a body is standing on the goal column.
pub open spec fn arrived_spec(at: [i32; 3], goal: [i32; 2]) -> bool {
    at[0] == goal[0] && at[2] == goal[1]
}

/// Chebyshev distance in the walking plane.
pub open spec fn apart_spec(a: [i32; 3], b: [i32; 3]) -> int {
    max(abs(a[0] - b[0]), abs(a[2] - b[2]))
}

/// Chebyshev distance from a body to a goal column.
pub open spec fn distance_spec(at: [i32; 3], goal: [i32; 2]) -> int {
    max(abs(at[0] - goal[0]), abs(at[2] - goal[1]))
}

/// One walking tick toward a goal, given where the terrain lands each
/// asked step: the direct heading first, then the remembered shoulder, then
/// the other one. Where everything refuses, the body stays and so does its
/// memory.
pub open spec fn toward_spec(
    step: spec_fn([i32; 3], [i32; 3]) -> [i32; 3],
    at: [i32; 3],
    goal: [i32; 2],
    shoulder: i8,
) -> ([i32; 3], i8) {
    let h = heading_spec(at, goal);
    if h == (0int, 0int) {
        (at, shoulder)
    } else {
        let direct = step(at, shifted(at, h));
        if direct != at {
            (direct, 0)
        } else {
            let first: i8 = if shoulder == 0 {
                1
            } else {
                shoulder
            };
            let along = step(at, shifted(at, side_spec(h, first as int)));
            if along != at {
                (along, first)
            } else {
                let other = step(at, shifted(at, side_spec(h, -first)));
                if other != at {
                    (other, (-first) as i8)
                } else {
                    (at, shoulder)
                }
            }
        }
    }
}

/// Whether two positions are the same voxel.
pub fn same_spot(a: [i32; 3], b: [i32; 3]) -> (same: bool)
    ensures
        same == (a == b),
{
    let same = a[0] == b[0] && a[1] == b[1] && a[2] == b[2];
    proof {
        if same {
            assert(a =~= b);
        }
    }
    same
}

/// Whether a body is standing on the goal column.
pub fn arrived(at: [i32; 3], goal: [i32; 2]) -> (b: bool)
    ensures
        b == arrived_spec(at, goal),
{
    at[0] == goal[0] && at[2] == goal[1]
}

fn abs_diff(a: i32, b: i32) -> (d: i32)
    requires
        in_reach(a as int),
        in_reach(b as int),
    ensures
        d == abs(a - b),
{
    if a < b {
        b - a
    } else {
        a - b
    }
}

/// Chebyshev distance in the walking plane.
pub fn apart(a: [i32; 3], b: [i32; 3]) -> (d: i32)
    requires
        on_map(a),
        on_map(b),
    ensures
        d == apart_spec(a, b),
{
    let dx = abs_diff(a[0], b[0]);
    let dz = abs_diff(a[2], b[2]);
    if dx < dz {
        dz
    } else {
        dx
    }
}

/// Chebyshev distance from a body to a goal column.
pub fn distance_to(at: [i32; 3], goal: [i32; 2]) -> (d: i32)
    requires
        on_map(at),
        goal_on_map(goal),
    ensures
        d == distance_spec(at, goal),
{
    let dx = abs_diff(at[0], goal[0]);
    let dz = abs_diff(at[2], goal[1]);
    if dx < dz {
        dz
    } else {
        dx
    }
}

fn sign_of(v: i32) -> (s: i32)
    ensures
        s == sign(v as int),
{
    if v > 0 {
        1
    } else if v < 0 {
        -1
    } else {
        0
    }
}

/// The sign heading from a body toward a goal column.
pub fn heading(at: [i32; 3], goal: [i32; 2]) -> (h: [i32; 2])
    requires
        on_map(at),
        goal_on_map(goal),
    ensures
        (h[0] as int, h[1] as int) == heading_spec(at, goal),
{
    [sign_of(goal[0] - at[0]), sign_of(goal[1] - at[2])]
}

/// What a walker wants next: a step asked of the terrain, or where the
/// walk ended and the shoulder it remembers.
#[derive(Clone, Copy, Debug, PartialEq, Eq)]
pub enum Stride {
    Ask([i32; 3]),
    Stop { at: [i32; 3], shoulder: i8 },
}

/// One walk in progress: where it started, its heading, the shoulder it
/// started with, the shoulder it tries first, and how many steps it has
/// asked.
#[derive(Clone, Copy, Debug, PartialEq, Eq)]
pub struct Toward {
    pub from: [i32; 3],
    pub heading: [i32; 2],
    pub shoulder: i8,
    pub first: i8,
    pub asked: u8,
}

pub open spec fn h_of(t: Toward) -> (int, int) {
    (t.heading[0] as int, t.heading[1] as int)
}

/// How a walk starts.
pub open spec fn begin_spec(at: [i32; 3], goal: [i32; 2], shoulder: i8) -> (Toward, Stride) {
    let h = heading_spec(at, goal);
    let first: i8 = if shoulder == 0 {
        1
    } else {
        shoulder
    };
    let t = Toward { from: at, heading: [h.0 as i32, h.1 as i32], shoulder, first, asked: 1 };
    if h == (0int, 0int) {
        (t, Stride::Stop { at, shoulder })
    } else {
        (t, Stride::Ask(shifted(at, h)))
    }
}

/// How a walk goes on from the terrain's answer to the step last asked.
pub open spec fn answer_spec(t: Toward, landed: [i32; 3]) -> (Toward, Stride) {
    if landed != t.from {
        let kept: i8 = if t.asked == 1 {
            0
        } else if t.asked == 2 {
            t.first
        } else {
            (-t.first) as i8
        };
        (t, Stride::Stop { at: landed, shoulder: kept })
    } else if t.asked == 1 {
        (Toward { asked: 2, ..t }, Stride::Ask(shifted(t.from, side_spec(h_of(t), t.first as int))))
    } else if t.asked == 2 {
        (Toward { asked: 3, ..t }, Stride::Ask(shifted(t.from, side_spec(h_of(t), -t.first))))
    } else {
        (t, Stride::Stop { at: t.from, shoulder: t.shoulder })
    }
}

/// A shoulder is free, clockwise or counter-clockwise.
pub open spec fn shoulder_ok(s: i8) -> bool {
    -1 <= s <= 1
}

/// A walk in progress that can still be answered.
pub open spec fn toward_ok(t: Toward) -> bool {
    &&& on_map(t.from)
    &&& -1 <= t.heading[0] <= 1
    &&& -1 <= t.heading[1] <= 1
    &&& shoulder_ok(t.shoulder)
    &&& (t.first == 1 || t.first == -1)
    &&& 1 <= t.asked <= 3
}

impl Toward {
    /// Starts a walk toward `goal`: asks the direct step, or stops at once
    /// when already on the goal column.
    pub fn begin(at: [i32; 3], goal: [i32; 2], shoulder: i8) -> (walk: (Toward, Stride))
        requires
            on_map(at),
            goal_on_map(goal),
            shoulder_ok(shoulder),
        ensures
            walk == begin_spec(at, goal, shoulder),
            toward_ok(walk.0),
    {
        let h = heading(at, goal);
        let first: i8 = if shoulder == 0 {
            1
        } else {
            shoulder
        };
        let t = Toward { from: at, heading: h, shoulder, first, asked: 1 };
        proof {
            let hs = heading_spec(at, goal);
            assert(h =~= [hs.0 as i32, hs.1 as i32]);
            let asked: [i32; 3] = [(at[0] + h[0]) as i32, at[1], (at[2] + h[1]) as i32];
            assert(asked =~= shifted(at, hs));
        }
        if h[0] == 0 && h[1] == 0 {
            (t, Stride::Stop { at, shoulder })
        } else {
            (t, Stride::Ask([at[0] + h[0], at[1], at[2] + h[1]]))
        }
    }

    /// Goes on from where the terrain landed the step last asked.
    pub fn answer(&mut self, landed: [i32; 3]) -> (stride: Stride)
        requires
            toward_ok(*old(self)),
        ensures
            (*final(self), stride) == answer_spec(*old(self), landed),
            toward_ok(*final(self)),
    {
        if !same_spot(landed, self.from) {
            let kept: i8 = if self.asked == 1 {
                0
            } else if self.asked == 2 {
                self.first
            } else {
                -self.first
            };
            return Stride::Stop { at: landed, shoulder: kept };
        }
        let h = self.heading;
        let from = self.from;
        if self.asked == 1 {
            self.asked = 2;
            let d: [i32; 2] = if self.first >= 0 {
                [h[1], -h[0]]
            } else {
                [-h[1], h[0]]
            };
            Stride::Ask([from[0] + d[0], from[1], from[2] + d[1]])
        } else if self.asked == 2 {
            self.asked = 3;
            let d: [i32; 2] = if -self.first >= 0 {
                [h[1], -h[0]]
            } else {
                [-h[1], h[0]]
            };
            Stride::Ask([from[0] + d[0], from[1], from[2] + d[1]])
        } else {
            Stride::Stop { at: from, shoulder: self.shoulder }
        }
    }
}

/// A walk driven by a terrain that answers every asked step with `step`.
pub open spec fn driven(
    step: spec_fn([i32; 3], [i32; 3]) -> [i32; 3],
    at: [i32; 3],
    goal: [i32; 2],
    shoulder: i8,
) -> Stride {
    let (t0, s0) = begin_spec(at, goal, shoulder);
    match s0 {
        Stride::Stop { .. } => s0,
        Stride::Ask(to0) => {
            let (t1, s1) = answer_spec(t0, step(at, to0));
            match s1 {
                Stride::Stop { .. } => s1,
                Stride::Ask(to1) => {
                    let (t2, s2) = answer_spec(t1, step(at, to1));
                    match s2 {
                        Stride::Stop { .. } => s2,
                        Stride::Ask(to2) => answer_spec(t2, step(at, to2)).1,
                    }
                },
            }
        },
    }
}

/// Driving a walk with the terrain's answers gives the walk's own law: it
/// ends where `toward_spec` says, remembering the shoulder it says, having
/// asked at most three steps, each one column over at the walker's height.
pub proof fn law_walk_follows_the_terrain(
    step: spec_fn([i32; 3], [i32; 3]) -> [i32; 3],
    at: [i32; 3],
    goal: [i32; 2],
    shoulder: i8,
)
    requires
        on_map(at),
        goal_on_map(goal),
        shoulder_ok(shoulder),
    ensures
        driven(step, at, goal, shoulder) == (Stride::Stop {
            at: toward_spec(step, at, goal, shoulder).0,
            shoulder: toward_spec(step, at, goal, shoulder).1,
        }),
{
    let h = heading_spec(at, goal);
    let (t0, s0) = begin_spec(at, goal, shoulder);
    assert(h_of(t0) == h);
}


/// Whether `(x, z)` offers a standing spot at `at`: its surface was
/// answered `at[1] - 1` and a body was answered able to stand there.
pub open spec fn stance_at<F: Fn(i32, i32) -> Option<i32>, S: Fn([i32; 3]) -> bool>(
    surface: F,
    stands: S,
    x: i32,
    z: i32,
    at: [i32; 3],
) -> bool {
    &&& at[0] == x
    &&& at[2] == z
    &&& surface.ensures((x, z), Some((at[1] - 1) as i32))
    &&& stands.ensures((at,), true)
}

/// Whether `(x, z)` offers no standing spot: it has no surface, or a body
/// was answered unable to stand on the one it has.
pub open spec fn no_stance<F: Fn(i32, i32) -> Option<i32>, S: Fn([i32; 3]) -> bool>(
    surface: F,
    stands: S,
    x: i32,
    z: i32,
) -> bool {
    ||| surface.ensures((x, z), None::<i32>)
    ||| exists|t: i32| #[trigger] surface.ensures((x, z), Some(t)) && stands.ensures(([x, (t + 1) as i32, z],), false)
}

/// Whether every surface the terrain may answer leaves a voxel above it.
pub open spec fn surfaces_below_top<F: Fn(i32, i32) -> Option<i32>>(surface: F) -> bool {
    forall|x: i32, z: i32, t: i32| #[trigger] surface.ensures((x, z), Some(t)) ==> t < i32::MAX
}

/// A standing spot on the open surface of a column, if the column has one.
pub fn stand<F: Fn(i32, i32) -> Option<i32>, S: Fn([i32; 3]) -> bool>(surface: &F, stands: &S, x: i32, z: i32) -> (at:
    Option<[i32; 3]>)
    requires
        forall|x: i32, z: i32| #[trigger] surface.requires((x, z)),
        forall|p: [i32; 3]| #[trigger] stands.requires((p,)),
        surfaces_below_top(*surface),
    ensures
        match at {
            Some(p) => stance_at(*surface, *stands, x, z, p),
            None => no_stance(*surface, *stands, x, z),
        },
{
    let top = match surface(x, z) {
        Some(t) => t,
        None => return None,
    };
    let p: [i32; 3] = [x, top + 1, z];
    if stands(p) {
        Some(p)
    } else {
        None
    }
}

} // verus!
