//! The residency policy pulled by continuous zoom.
//!
//! The world owns the exact ground and the brick map owns its allocation;
//! this policy owns which bricks the current camera needs, the page band
//! that bounds them, and the budget that bounds the presentation working
//! set. A change of page is planned from the ground's brick keys, the map
//! is built from the plan outside, and the plan is committed once the map's
//! size is known to fit.

use vstd::prelude::*;

use crate::room::hunt::{ring, scanned_before};
use crate::room::room::{axis_near, axis_near_exec, CHAMBER_REACH};
use crate::sortie::march::{no_stance, stance_at, stand, surfaces_below_top};

verus! {

/// A region-sized world whose complete exact brick set does not fit the
/// tracer atlas, so the working set is selected, not accidental.
pub const WORLD_EXTENT: i32 = 256;

/// The close working-set radius, in world voxels.
pub const PAGE_CLOSE: i32 = 40;

/// The leading working-set radius.
pub const PAGE_LEADING: i32 = 88;

/// The planning working-set radius: the largest page there is.
pub const PAGE_PLANNING: i32 = 128;

/// One MiB for exact terrain pointers and material atlas at the far page.
pub const RESIDENT_BUDGET_BYTES: u64 = 1_048_576;

/// The deterministic headed zoom and recovery trace, in frames.
pub const V1_FRAMES: u64 = 96;

/// The page radii, close to far.
pub fn page_ranges() -> (ranges: [i32; 3])
    ensures
        ranges == [PAGE_CLOSE, PAGE_LEADING, PAGE_PLANNING],
{
    [PAGE_CLOSE, PAGE_LEADING, PAGE_PLANNING]
}

#[derive(Clone, Copy, Debug, PartialEq, Eq, Structural)]
pub enum ResidencyError {
    /// What the camera sees reaches past the largest page.
    VisibleRange { actual: i32, maximum: i32 },
    /// The working set's map would not fit the budget.
    Budget { actual: u64, maximum: u64 },
    ProjectionRevisionOverflow,
}

/// The smallest page that covers what the camera sees, if any does.
pub open spec fn band_spec(visible: int) -> Option<i32> {
    if visible <= PAGE_CLOSE {
        Some(PAGE_CLOSE)
    } else if visible <= PAGE_LEADING {
        Some(PAGE_LEADING)
    } else if visible <= PAGE_PLANNING {
        Some(PAGE_PLANNING)
    } else {
        None
    }
}

/// The smallest page that covers `visible`, or the error that none does.
pub fn band(visible: i32) -> (page: Result<i32, ResidencyError>)
    ensures
        match band_spec(visible as int) {
            Some(r) => page == Ok::<i32, ResidencyError>(r),
            None => page == Err::<i32, ResidencyError>(
                ResidencyError::VisibleRange { actual: visible, maximum: PAGE_PLANNING },
            ),
        },
{
    let ranges = page_ranges();
    let mut i: usize = 0;
    while i < 3
        invariant
            i <= 3,
            ranges == [PAGE_CLOSE, PAGE_LEADING, PAGE_PLANNING],
            forall|j: int| 0 <= j < i ==> ranges[j] < visible,
        decreases 3 - i,
    {
        if ranges[i] >= visible {
            return Ok(ranges[i]);
        }
        i = i + 1;
    }
    Err(ResidencyError::VisibleRange { actual: visible, maximum: ranges[2] })
}

/// Whether a brick at `key` comes within `range` of the focus across the
/// ground plane: residency covers whole columns, whatever their height.
pub open spec fn selected_key(key: [i16; 3], brick: int, focus: [i32; 3], range: int) -> bool {
    axis_near(key[0], brick, focus[0], range) && axis_near(key[2], brick, focus[2], range)
}

/// The ground's keys a page about `focus` selects, in the ground's order.
pub open spec fn selected_spec(keys: Seq<[i16; 3]>, brick: int, focus: [i32; 3], range: int) -> Seq<[i16; 3]>
    decreases keys.len(),
{
    if keys.len() == 0 {
        Seq::empty()
    } else {
        let before = selected_spec(keys.drop_last(), brick, focus, range);
        if selected_key(keys.last(), brick, focus, range) {
            before.push(keys.last())
        } else {
            before
        }
    }
}

/// What a key is selected from is what is selected: nothing new appears.
pub proof fn lemma_selected_within(keys: Seq<[i16; 3]>, brick: int, focus: [i32; 3], range: int, k: [i16; 3])
    requires
        selected_spec(keys, brick, focus, range).contains(k),
    ensures
        keys.contains(k),
        selected_key(k, brick, focus, range),
    decreases keys.len(),
{
    let before = selected_spec(keys.drop_last(), brick, focus, range);
    if keys.len() > 0 {
        if selected_key(keys.last(), brick, focus, range) && k == keys.last() {
            assert(keys[keys.len() - 1] == k);
        } else {
            if selected_key(keys.last(), brick, focus, range) {
                let i = choose|i: int| 0 <= i < before.push(keys.last()).len() && before.push(keys.last())[i] == k;
                assert(before[i] == k);
            }
            lemma_selected_within(keys.drop_last(), brick, focus, range, k);
            let i = choose|i: int| 0 <= i < keys.drop_last().len() && keys.drop_last()[i] == k;
            assert(keys[i] == k);
        }
    }
}

/// A selection from keys that are each present once holds each key once.
pub proof fn lemma_selected_unique(keys: Seq<[i16; 3]>, brick: int, focus: [i32; 3], range: int)
    requires
        keys.no_duplicates(),
    ensures
        selected_spec(keys, brick, focus, range).no_duplicates(),
    decreases keys.len(),
{
    if keys.len() > 0 {
        let rest = keys.drop_last();
        assert(rest.no_duplicates()) by {
            assert forall|i: int, j: int| 0 <= i < rest.len() && 0 <= j < rest.len() && i != j implies rest[i]
                != rest[j] by {
                assert(rest[i] == keys[i] && rest[j] == keys[j]);
            }
        }
        lemma_selected_unique(rest, brick, focus, range);
        let before = selected_spec(rest, brick, focus, range);
        if selected_key(keys.last(), brick, focus, range) {
            if before.contains(keys.last()) {
                lemma_selected_within(rest, brick, focus, range, keys.last());
                let i = choose|i: int| 0 <= i < rest.len() && rest[i] == keys.last();
                assert(keys[i] == keys[keys.len() - 1]);
            }
            let after = before.push(keys.last());
            assert forall|i: int, j: int| 0 <= i < after.len() && 0 <= j < after.len() && i != j implies after[i]
                != after[j] by {
                if i < before.len() && j < before.len() {
                    assert(after[i] == before[i] && after[j] == before[j]);
                } else if i < before.len() {
                    assert(after[i] == before[i]);
                    assert(before.contains(after[i]));
                } else if j < before.len() {
                    assert(after[j] == before[j]);
                    assert(before.contains(after[j]));
                }
            }
        }
    }
}

/// How many keys of `a` are missing from `b`.
pub open spec fn count_absent(a: Seq<[i16; 3]>, b: Seq<[i16; 3]>) -> nat
    decreases a.len(),
{
    if a.len() == 0 {
        0
    } else {
        count_absent(a.drop_last(), b) + if b.contains(a.last()) {
            0nat
        } else {
            1nat
        }
    }
}

proof fn lemma_count_absent_bound(a: Seq<[i16; 3]>, b: Seq<[i16; 3]>)
    ensures
        count_absent(a, b) <= a.len(),
    decreases a.len(),
{
    if a.len() > 0 {
        lemma_count_absent_bound(a.drop_last(), b);
    }
}

/// Whether two key lists hold the same keys, as sets.
pub open spec fn same_members(a: Seq<[i16; 3]>, b: Seq<[i16; 3]>) -> bool {
    forall|k: [i16; 3]| a.contains(k) <==> b.contains(k)
}

/// Whether two brick keys are the same key.
fn same_key(a: [i16; 3], b: [i16; 3]) -> (same: bool)
    ensures
        same == (a == b),
{
    let same = a[0] == b[0] && a[1] == b[1] && a[2] == b[2];
    proof {
        if same {
            assert(a =~= b);
        }
    }
    same
}

/// Whether `keys` holds `key`.
fn holds(keys: &Vec<[i16; 3]>, key: [i16; 3]) -> (held: bool)
    ensures
        held == keys@.contains(key),
{
    let mut i: usize = 0;
    while i < keys.len()
        invariant
            i <= keys@.len(),
            forall|j: int| 0 <= j < i ==> keys@[j] != key,
        decreases keys@.len() - i,
    {
        if same_key(keys[i], key) {
            return true;
        }
        i = i + 1;
    }
    false
}

/// Whether every key of `a` is in `b`.
fn all_held(a: &Vec<[i16; 3]>, b: &Vec<[i16; 3]>) -> (all: bool)
    ensures
        all == (forall|k: [i16; 3]| a@.contains(k) ==> b@.contains(k)),
{
    let mut i: usize = 0;
    while i < a.len()
        invariant
            i <= a@.len(),
            forall|j: int| 0 <= j < i ==> b@.contains(#[trigger] a@[j]),
        decreases a@.len() - i,
    {
        if !holds(b, a[i]) {
            proof {
                assert(a@.contains(a@[i as int]));
            }
            return false;
        }
        i = i + 1;
    }
    true
}

/// How many keys of `a` are missing from `b`.
fn absent(a: &Vec<[i16; 3]>, b: &Vec<[i16; 3]>) -> (n: usize)
    ensures
        n == count_absent(a@, b@),
{
    let mut n: usize = 0;
    let mut i: usize = 0;
    while i < a.len()
        invariant
            i <= a@.len(),
            n == count_absent(a@.take(i as int), b@),
            n <= i,
        decreases a@.len() - i,
    {
        proof {
            assert(a@.take(i + 1).drop_last() =~= a@.take(i as int));
            assert(a@.take(i + 1).last() == a@[i as int]);
        }
        if !holds(b, a[i]) {
            n = n + 1;
        }
        i = i + 1;
    }
    proof {
        assert(a@.take(i as int) =~= a@);
    }
    n
}

/// The ground's keys that a page of `range` about `focus` selects, for
/// bricks `brick` voxels on a side.
pub fn selected_keys(keys: &[[i16; 3]], focus: [i32; 3], range: i32, brick: i32) -> (selected: Vec<[i16; 3]>)
    requires
        0 < brick <= 0x10000,
        0 <= range,
        i32::MIN <= focus[0] - range && focus[0] + range <= i32::MAX,
        i32::MIN <= focus[2] - range && focus[2] + range <= i32::MAX,
    ensures
        selected@ == selected_spec(keys@, brick as int, focus, range as int),
{
    let mut selected: Vec<[i16; 3]> = Vec::new();
    let mut i: usize = 0;
    while i < keys.len()
        invariant
            i <= keys@.len(),
            0 < brick <= 0x10000,
            0 <= range,
            i32::MIN <= focus[0] - range && focus[0] + range <= i32::MAX,
            i32::MIN <= focus[2] - range && focus[2] + range <= i32::MAX,
            selected@ == selected_spec(keys@.take(i as int), brick as int, focus, range as int),
        decreases keys@.len() - i,
    {
        let key = keys[i];
        let near = axis_near_exec(key[0], brick, focus[0], range) && axis_near_exec(key[2], brick, focus[2], range);
        proof {
            assert(keys@.take(i + 1).drop_last() =~= keys@.take(i as int));
            assert(keys@.take(i + 1).last() == key);
        }
        if near {
            selected.push(key);
        }
        i = i + 1;
    }
    proof {
        assert(keys@.take(i as int) =~= keys@);
    }
    selected
}

/// How far out the search for the planning region's focus scans, in rings
/// of columns.
pub const FOCUS_RINGS: i32 = 64;

/// The planning region's focus: the first column of the outward scan, out
/// to [`FOCUS_RINGS`], with a surface a body can stand on.
pub fn focus_stance<F: Fn(i32, i32) -> Option<i32>, S: Fn([i32; 3]) -> bool>(surface: &F, stands: &S) -> (focus:
    Option<[i32; 3]>)
    requires
        forall|x: i32, z: i32| #[trigger] surface.requires((x, z)),
        forall|p: [i32; 3]| #[trigger] stands.requires((p,)),
        surfaces_below_top(*surface),
    ensures
        match focus {
            Some(at) => {
                &&& ring(at[0] as int, at[2] as int) <= FOCUS_RINGS
                &&& stance_at(*surface, *stands, at[0], at[2], at)
                &&& forall|x: i32, z: i32|
                    scanned_before(x as int, z as int, at[0] as int, at[2] as int) ==> #[trigger] no_stance(
                        *surface,
                        *stands,
                        x,
                        z,
                    )
            },
            None => forall|x: i32, z: i32|
                ring(x as int, z as int) <= FOCUS_RINGS ==> #[trigger] no_stance(*surface, *stands, x, z),
        },
{
    let mut r: i32 = 0;
    while r <= FOCUS_RINGS
        invariant
            forall|x: i32, z: i32| #[trigger] surface.requires((x, z)),
            forall|p: [i32; 3]| #[trigger] stands.requires((p,)),
            surfaces_below_top(*surface),
            0 <= r <= FOCUS_RINGS + 1,
            forall|x: i32, z: i32| ring(x as int, z as int) < r ==> #[trigger] no_stance(*surface, *stands, x, z),
        decreases FOCUS_RINGS + 1 - r,
    {
        let mut z: i32 = -r;
        while z <= r
            invariant
                forall|x: i32, z: i32| #[trigger] surface.requires((x, z)),
                forall|p: [i32; 3]| #[trigger] stands.requires((p,)),
                surfaces_below_top(*surface),
                0 <= r <= FOCUS_RINGS,
                -r <= z <= r + 1,
                forall|x: i32, w: i32|
                    ring(x as int, w as int) < r || (ring(x as int, w as int) == r && w < z) ==> #[trigger] no_stance(
                        *surface,
                        *stands,
                        x,
                        w,
                    ),
            decreases r + 1 - z,
        {
            let mut x: i32 = -r;
            while x <= r
                invariant
                    forall|x: i32, z: i32| #[trigger] surface.requires((x, z)),
                    forall|p: [i32; 3]| #[trigger] stands.requires((p,)),
                    surfaces_below_top(*surface),
                    0 <= r <= FOCUS_RINGS,
                    -r <= z <= r,
                    -r <= x <= r + 1,
                    forall|v: i32, w: i32|
                        ring(v as int, w as int) < r || (ring(v as int, w as int) == r && (w < z || (w == z && v < x)))
                            ==> #[trigger] no_stance(*surface, *stands, v, w),
                decreases r + 1 - x,
            {
                let ax: i32 = if x < 0 {
                    -x
                } else {
                    x
                };
                let az: i32 = if z < 0 {
                    -z
                } else {
                    z
                };
                let on_ring = if ax < az {
                    az == r
                } else {
                    ax == r
                };
                if on_ring {
                    match stand(surface, stands, x, z) {
                        Some(at) => {
                            return Some(at);
                        },
                        None => {},
                    }
                }
                proof {
                    assert forall|v: i32, w: i32|
                        ring(v as int, w as int) < r || (ring(v as int, w as int) == r && (w < z || (w == z && v < x
                            + 1))) implies #[trigger] no_stance(*surface, *stands, v, w) by {
                        if v == x && w == z && !on_ring {
                            assert(ring(v as int, w as int) < r);
                        }
                    }
                }
                x = x + 1;
            }
            z = z + 1;
        }
        r = r + 1;
    }
    None
}

/// Where the focus goes when moved `delta` columns along x: onto the
/// surface there, if a body can stand on it; otherwise it stays.
pub fn moved_focus<F: Fn(i32, i32) -> Option<i32>, S: Fn([i32; 3]) -> bool>(
    focus: [i32; 3],
    delta: i32,
    surface: &F,
    stands: &S,
) -> (moved: Option<[i32; 3]>)
    requires
        i32::MIN <= focus[0] + delta <= i32::MAX,
        forall|x: i32, z: i32| #[trigger] surface.requires((x, z)),
        forall|p: [i32; 3]| #[trigger] stands.requires((p,)),
        surfaces_below_top(*surface),
    ensures
        match moved {
            Some(at) => stance_at(*surface, *stands, (focus[0] + delta) as i32, focus[2], at),
            None => no_stance(*surface, *stands, (focus[0] + delta) as i32, focus[2]),
        },
{
    stand(surface, stands, focus[0] + delta, focus[2])
}

/// What a committed page cost and changed.
#[derive(Clone, Copy, Debug, PartialEq, Eq, Structural)]
pub struct ResidencyMetrics {
    pub projection_revision: u64,
    pub visible_range: i32,
    pub resident_range: i32,
    pub loaded_bricks: usize,
    pub evicted_bricks: usize,
    pub resident_bricks: usize,
    pub pointer_bytes: u64,
    pub atlas_bytes: u64,
    pub resident_bytes: u64,
}

/// A change of page, before its map is built: the page, its keys, the
/// projection revision the map is to carry, and what changes.
#[derive(Clone, Debug)]
pub struct ResidencyPlan {
    pub visible_range: i32,
    pub resident_range: i32,
    pub keys: Vec<[i16; 3]>,
    pub projection_revision: u64,
    pub loaded_bricks: usize,
    pub evicted_bricks: usize,
}

pub struct PlanView {
    pub visible_range: i32,
    pub resident_range: i32,
    pub keys: Seq<[i16; 3]>,
    pub projection_revision: u64,
    pub loaded_bricks: int,
    pub evicted_bricks: int,
}

impl View for ResidencyPlan {
    type V = PlanView;

    open spec fn view(&self) -> PlanView {
        PlanView {
            visible_range: self.visible_range,
            resident_range: self.resident_range,
            keys: self.keys@,
            projection_revision: self.projection_revision,
            loaded_bricks: self.loaded_bricks as int,
            evicted_bricks: self.evicted_bricks as int,
        }
    }
}

/// Which page is resident: its radius, its keys, and the projection
/// revision its map carries.
pub struct ResidencyPolicy {
    current_range: Option<i32>,
    current_keys: Vec<[i16; 3]>,
    projection_revision: u64,
}

pub struct PolicyView {
    pub current_range: Option<i32>,
    pub current_keys: Seq<[i16; 3]>,
    pub projection_revision: u64,
}

impl View for ResidencyPolicy {
    type V = PolicyView;

    closed spec fn view(&self) -> PolicyView {
        PolicyView {
            current_range: self.current_range,
            current_keys: self.current_keys@,
            projection_revision: self.projection_revision,
        }
    }
}

/// What planning a page gives: an error when no page covers the view or
/// the revision would overflow; nothing when the page and its keys are
/// already resident; else the change, with the revision advanced by one
/// unless nothing was ever resident.
pub open spec fn plan_spec(p: PolicyView, ground_keys: Seq<[i16; 3]>, focus: [i32; 3], brick: int, visible: i32) -> Result<
    Option<PlanView>,
    ResidencyError,
> {
    match band_spec(visible as int) {
        None => Err(ResidencyError::VisibleRange { actual: visible, maximum: PAGE_PLANNING }),
        Some(r) => {
            let keys = selected_spec(ground_keys, brick, focus, r as int);
            if p.current_range == Some(r) && same_members(keys, p.current_keys) {
                Ok(None)
            } else if p.current_range is Some && p.projection_revision == u64::MAX {
                Err(ResidencyError::ProjectionRevisionOverflow)
            } else {
                Ok(
                    Some(
                        PlanView {
                            visible_range: visible,
                            resident_range: r,
                            keys,
                            projection_revision: if p.current_range is None {
                                p.projection_revision
                            } else {
                                (p.projection_revision + 1) as u64
                            },
                            loaded_bricks: count_absent(keys, p.current_keys) as int,
                            evicted_bricks: count_absent(p.current_keys, keys) as int,
                        },
                    ),
                )
            }
        },
    }
}

/// What committing a plan whose map takes `pointer_bytes` and `atlas_bytes`
/// gives: the metrics, or the budget error.
pub open spec fn committed_spec(plan: PlanView, pointer_bytes: u64, atlas_bytes: u64) -> Result<
    ResidencyMetrics,
    ResidencyError,
> {
    let total = pointer_bytes + atlas_bytes;
    if total > RESIDENT_BUDGET_BYTES {
        Err(ResidencyError::Budget { actual: total as u64, maximum: RESIDENT_BUDGET_BYTES })
    } else {
        Ok(
            ResidencyMetrics {
                projection_revision: plan.projection_revision,
                visible_range: plan.visible_range,
                resident_range: plan.resident_range,
                loaded_bricks: plan.loaded_bricks as usize,
                evicted_bricks: plan.evicted_bricks as usize,
                resident_bricks: plan.keys.len() as usize,
                pointer_bytes,
                atlas_bytes,
                resident_bytes: total as u64,
            },
        )
    }
}

/// The policy once a plan is committed.
pub open spec fn after_commit(plan: PlanView) -> PolicyView {
    PolicyView {
        current_range: Some(plan.resident_range),
        current_keys: plan.keys,
        projection_revision: plan.projection_revision,
    }
}

impl ResidencyPolicy {
    /// Nothing resident yet, at projection revision zero.
    pub fn new() -> (policy: Self)
        ensures
            policy@.current_range is None,
            policy@.current_keys == Seq::<[i16; 3]>::empty(),
            policy@.projection_revision == 0,
    {
        ResidencyPolicy { current_range: None, current_keys: Vec::new(), projection_revision: 0 }
    }

    pub fn current_range(&self) -> (range: Option<i32>)
        ensures
            range == self@.current_range,
    {
        self.current_range
    }

    pub fn projection_revision(&self) -> (revision: u64)
        ensures
            revision == self@.projection_revision,
    {
        self.projection_revision
    }

    /// The keys of the resident page.
    pub fn current_keys(&self) -> (keys: &[[i16; 3]])
        ensures
            keys@ == self@.current_keys,
    {
        self.current_keys.as_slice()
    }

    /// Plans the page a camera seeing `visible` voxels about `focus` needs,
    /// from the ground's brick keys: nothing when it is already resident.
    pub fn plan(&self, ground_keys: &[[i16; 3]], focus: [i32; 3], brick: i32, visible: i32) -> (planned: Result<
        Option<ResidencyPlan>,
        ResidencyError,
    >)
        requires
            0 < brick <= 0x10000,
            i32::MIN + PAGE_PLANNING <= focus[0] <= i32::MAX - PAGE_PLANNING,
            i32::MIN + PAGE_PLANNING <= focus[2] <= i32::MAX - PAGE_PLANNING,
        ensures
            match plan_spec(self@, ground_keys@, focus, brick as int, visible) {
                Ok(Some(p)) => planned matches Ok(Some(q)) && q@ == p,
                Ok(None) => planned matches Ok(None),
                Err(e) => planned == Err::<Option<ResidencyPlan>, ResidencyError>(e),
            },
    {
        let resident_range = match band(visible) {
            Ok(r) => r,
            Err(e) => return Err(e),
        };
        let keys = selected_keys(ground_keys, focus, resident_range, brick);
        let unchanged = match self.current_range {
            Some(r) => r == resident_range && all_held(&keys, &self.current_keys) && all_held(
                &self.current_keys,
                &keys,
            ),
            None => false,
        };
        if unchanged {
            return Ok(None);
        }
        let projection_revision = match self.current_range {
            None => self.projection_revision,
            Some(_) => match self.projection_revision.checked_add(1) {
                Some(next) => next,
                None => return Err(ResidencyError::ProjectionRevisionOverflow),
            },
        };
        let loaded_bricks = absent(&keys, &self.current_keys);
        let evicted_bricks = absent(&self.current_keys, &keys);
        let plan = ResidencyPlan {
            visible_range: visible,
            resident_range,
            keys,
            projection_revision,
            loaded_bricks,
            evicted_bricks,
        };
        Ok(Some(plan))
    }

    /// Commits a planned page whose map was built at `pointer_bytes` and
    /// `atlas_bytes`: refused, and nothing changed, when it is over budget;
    /// else the page becomes resident.
    pub fn commit(&mut self, plan: ResidencyPlan, pointer_bytes: u64, atlas_bytes: u64) -> (metrics: Result<
        ResidencyMetrics,
        ResidencyError,
    >)
        requires
            pointer_bytes + atlas_bytes <= u64::MAX,
        ensures
            metrics == committed_spec(plan@, pointer_bytes, atlas_bytes),
            metrics is Ok ==> final(self)@ == after_commit(plan@),
            metrics is Err ==> final(self)@ == old(self)@,
    {
        let resident_bytes: u64 = pointer_bytes + atlas_bytes;
        if resident_bytes > RESIDENT_BUDGET_BYTES {
            return Err(ResidencyError::Budget { actual: resident_bytes, maximum: RESIDENT_BUDGET_BYTES });
        }
        let metrics = ResidencyMetrics {
            projection_revision: plan.projection_revision,
            visible_range: plan.visible_range,
            resident_range: plan.resident_range,
            loaded_bricks: plan.loaded_bricks,
            evicted_bricks: plan.evicted_bricks,
            resident_bricks: plan.keys.len(),
            pointer_bytes,
            atlas_bytes,
            resident_bytes,
        };
        self.current_range = Some(plan.resident_range);
        self.current_keys = plan.keys;
        self.projection_revision = plan.projection_revision;
        Ok(metrics)
    }
}

impl Default for ResidencyPolicy {
    fn default() -> (policy: Self)
        ensures
            policy@.current_range is None,
            policy@.current_keys == Seq::<[i16; 3]>::empty(),
            policy@.projection_revision == 0,
    {
        ResidencyPolicy::new()
    }
}

/// A page once committed is resident: planning the same view of the same
/// ground about the same focus again changes nothing.
pub proof fn law_a_resident_page_is_not_planned_again(
    p: PolicyView,
    ground_keys: Seq<[i16; 3]>,
    focus: [i32; 3],
    brick: int,
    visible: i32,
    pointer_bytes: u64,
    atlas_bytes: u64,
)
    requires
        plan_spec(p, ground_keys, focus, brick, visible) is Ok,
        plan_spec(p, ground_keys, focus, brick, visible)->Ok_0 is Some,
        committed_spec(
            plan_spec(p, ground_keys, focus, brick, visible)->Ok_0->Some_0,
            pointer_bytes,
            atlas_bytes,
        ) is Ok,
    ensures
        plan_spec(
            after_commit(plan_spec(p, ground_keys, focus, brick, visible)->Ok_0->Some_0),
            ground_keys,
            focus,
            brick,
            visible,
        ) == Ok::<Option<PlanView>, ResidencyError>(None),
{
}

/// Every committed change of page after the first advances the projection
/// revision by exactly one; the first keeps the revision it started at.
pub proof fn law_each_change_advances_the_revision_by_one(
    p: PolicyView,
    ground_keys: Seq<[i16; 3]>,
    focus: [i32; 3],
    brick: int,
    visible: i32,
)
    requires
        plan_spec(p, ground_keys, focus, brick, visible) is Ok,
        plan_spec(p, ground_keys, focus, brick, visible)->Ok_0 is Some,
    ensures
        ({
            let q = plan_spec(p, ground_keys, focus, brick, visible)->Ok_0->Some_0;
            &&& p.current_range is Some ==> q.projection_revision == p.projection_revision + 1
            &&& p.current_range is None ==> q.projection_revision == p.projection_revision
        }),
{
}

/// A change of page loads only keys that were not resident and evicts only
/// keys that are no longer selected: neither count exceeds its page.
pub proof fn law_loads_and_evictions_are_bounded_by_their_pages(
    p: PolicyView,
    ground_keys: Seq<[i16; 3]>,
    focus: [i32; 3],
    brick: int,
    visible: i32,
)
    requires
        plan_spec(p, ground_keys, focus, brick, visible) is Ok,
        plan_spec(p, ground_keys, focus, brick, visible)->Ok_0 is Some,
    ensures
        ({
            let q = plan_spec(p, ground_keys, focus, brick, visible)->Ok_0->Some_0;
            &&& 0 <= q.loaded_bricks <= q.keys.len()
            &&& 0 <= q.evicted_bricks <= p.current_keys.len()
        }),
{
    let q = plan_spec(p, ground_keys, focus, brick, visible)->Ok_0->Some_0;
    lemma_count_absent_bound(q.keys, p.current_keys);
    lemma_count_absent_bound(p.current_keys, q.keys);
}

/// Selecting from the ground's keys, each present once, selects each at
/// most once: a page holds no key twice.
pub proof fn law_a_page_holds_each_key_once(ground_keys: Seq<[i16; 3]>, brick: int, focus: [i32; 3], range: int)
    requires
        ground_keys.no_duplicates(),
    ensures
        selected_spec(ground_keys, brick, focus, range).no_duplicates(),
        forall|k: [i16; 3]|
            selected_spec(ground_keys, brick, focus, range).contains(k) ==> ground_keys.contains(k)
                && selected_key(k, brick, focus, range),
{
    lemma_selected_unique(ground_keys, brick, focus, range);
    assert forall|k: [i16; 3]| selected_spec(ground_keys, brick, focus, range).contains(k) implies ground_keys.contains(
        k,
    ) && selected_key(k, brick, focus, range) by {
        lemma_selected_within(ground_keys, brick, focus, range, k);
    }
}

} // verus!
