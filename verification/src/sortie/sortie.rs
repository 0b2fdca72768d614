//! One sortie and return: the joint receipt's machine.
//!
//! Every tick moves the played body toward its goal and lets each companion
//! move by their agreed part. There is no call that moves a companion
//! directly: the drivers read agreements, positions, and the terrain's
//! answers, never an order.
//!
//! The terrain is outside work. A tick asks it, one request at a time,
//! where a body stepping one column over lands, or how much a dig at head
//! height hews out; [`Sortie::advance`] starts a tick, and
//! [`Sortie::stepped`] and [`Sortie::carved`] hand the answers back until
//! the tick is over.
//!
//! A drop past [`SAFE_FALL`] is a wound, uniformly, for anyone. What downs
//! a body is narrower: only the home body downs, because downing is a
//! control fact, the one the pact watches for. An injury is a body-revision
//! fact: the wound bumps the subject's [`BodyRevisionId`] in the shared
//! facets, and the wound record names the revision it created.

use vstd::prelude::*;

use crate::identity::control::{step, Control, ControlIntent};
use crate::identity::facets::Facets;
use crate::identity::{BodyRevisionId, SubjectId, Tick};
use crate::keyed::{lemma_map_of_index, Keyed};
use crate::social::agreement::{covers_spec, AgreementId, AgreementState, EndReason};
use crate::social::deed::DeedKind;
use crate::social::offer::Work;
use crate::social::relation::{fold_room, lemma_room_extend, lemma_self_is_stranger};
use crate::social::response::RulingKind;
use crate::social::society::Society;
use crate::social::willing::routine_spec;
use crate::sortie::march::{
    abs, apart, apart_spec, arrived, arrived_spec, distance_spec, distance_to, goal_on_map, on_map,
    answer_spec, heading_spec, same_spot, shifted, shoulder_ok, side_spec, toward_ok, Stride, Toward,
};
use crate::sortie::party::{Pact, Part};

verus! {

/// A fall this far is taken in stride; past it is a wound.
pub const SAFE_FALL: i32 = 4;

/// How far ahead the scout ranges before holding for the others.
pub const LEAD: i32 = 8;

/// How close the healer keeps to the played body.
pub const TRAIL: i32 = 6;

/// Tending reaches one column over and a cliff's height down: the healer
/// works from the ledge rather than taking the same fall.
pub const TEND_REACH: i32 = 1;

pub const TEND_DROP: i32 = SAFE_FALL + 2;

/// Ticks without progress before the played body starts digging.
pub const STUCK: u64 = 4;

/// A sortie that has not come home in this many ticks has failed loudly.
pub const MAX_TICKS: u64 = 512;

/// A fall past comfort, and the body revision it created.
#[derive(Clone, Copy, Debug, PartialEq, Eq, Structural)]
pub struct Wound {
    pub subject: SubjectId,
    pub at: Tick,
    pub fell: i32,
    pub revision: BodyRevisionId,
}

/// What came back, and from where.
#[derive(Clone, Copy, Debug, PartialEq, Eq)]
pub struct Salvage {
    pub what: u8,
    pub from: [i32; 3],
}

/// The sortie's own record, one entry per thing that happened.
#[derive(Clone, Copy, Debug, PartialEq, Eq, Structural)]
pub enum SortieEvent {
    Departed { at: Tick },
    Fell { who: SubjectId, at: Tick, dropped: i32 },
    Wounded { who: SubjectId, at: Tick, revision: BodyRevisionId },
    Downed { who: SubjectId, at: Tick },
    PactInvoked { at: Tick, under: AgreementId },
    TaggedIn { at: Tick, to: SubjectId },
    Tended { at: Tick, by: SubjectId, whom: SubjectId },
    TaggedOut { at: Tick },
    /// The played body carved rock out of its way. `removed` is voxels.
    Dug { at: Tick, removed: u32 },
    Took { at: Tick, what: u8 },
    SharedOut { at: Tick, with: SubjectId },
    Returned { at: Tick },
}

/// What a tick needs next from the terrain, or that it is over.
#[derive(Clone, Copy, Debug, PartialEq, Eq)]
pub enum Need {
    /// Where does a body standing at `from` land, stepping toward `to`?
    /// Answered through [`Sortie::stepped`].
    Step { from: [i32; 3], to: [i32; 3] },
    /// Carve a ball of `radius` at `at`: how many voxels came out?
    /// Answered through [`Sortie::carved`].
    Carve { at: [i32; 3], radius: u32 },
    /// The tick is over.
    Ticked,
    /// Nothing more happens: the sortie is home, or out of time.
    Halted,
}

/// What follows a walk once it ends.
#[derive(Clone, Copy, Debug, PartialEq, Eq, Structural)]
pub enum After {
    /// The played body's walk toward the leg's goal: progress is counted.
    Played,
    /// The played body's walk toward the downed.
    Rescue,
    /// A companion's walk, by the part at this index.
    Companion(usize),
}

/// Where a tick stands.
#[derive(Clone, Copy, Debug, PartialEq, Eq)]
pub enum Stage {
    /// Between ticks.
    Idle,
    /// A walk is waiting for the terrain's answer to its step.
    Walking { walker: SubjectId, walk: Toward, after: After, goal: [i32; 2] },
    /// The played body's dig is waiting for the terrain's count.
    Digging,
}

pub struct Sortie {
    pub society: Society,
    pub facets: Facets,
    pub control: Control,
    positions: Keyed<[i32; 3]>,
    parts: Vec<(SubjectId, Part)>,
    pact: Option<Pact>,
    outing: Option<AgreementId>,
    tend: Work,
    home: [i32; 3],
    site: [i32; 3],
    find: u8,
    /// The waypoints of the return, ending at home.
    way_home: Vec<[i32; 2]>,
    way_index: usize,
    downed: Option<SubjectId>,
    /// Which way each walker last shouldered around an obstacle.
    shoulders: Keyed<i8>,
    /// The played body's best distance toward its goal, and how long since
    /// it improved.
    progress: (i32, u64),
    tick: u64,
    pub wounds: Vec<Wound>,
    pub carried: Option<Salvage>,
    /// Voxels the played body hewed out of the world getting there and back.
    pub hewn: u32,
    pub events: Vec<SortieEvent>,
    trail: Vec<Vec<[i32; 3]>>,
    done: bool,
    stage: Stage,
    /// Where the home body stood, and the leg's goal, as the companions'
    /// turn of the tick began.
    anchor: [i32; 3],
    leg_goal: [i32; 2],
    /// Who began a walk by their part in this tick's companions' turn.
    walked: Ghost<Set<u64>>,
}

pub open spec fn xz(p: [i32; 3]) -> [i32; 2] {
    [p[0], p[2]]
}

pub open spec fn is_downed_event(e: SortieEvent) -> bool {
    e is Downed
}

pub open spec fn names_in_parts(parts: Seq<(SubjectId, Part)>, k: u64) -> bool {
    exists|i: int| 0 <= i < parts.len() && (#[trigger] parts[i]).0.0 == k
}

impl Sortie {
    pub closed spec fn society_spec(&self) -> Society {
        self.society
    }

    pub closed spec fn facets_spec(&self) -> Facets {
        self.facets
    }

    pub closed spec fn control_spec(&self) -> Control {
        self.control
    }

    pub closed spec fn events_spec(&self) -> Seq<SortieEvent> {
        self.events@
    }

    pub closed spec fn wounds_spec(&self) -> Seq<Wound> {
        self.wounds@
    }

    pub closed spec fn carried_spec(&self) -> Option<Salvage> {
        self.carried
    }

    pub closed spec fn hewn_spec(&self) -> u32 {
        self.hewn
    }

    pub closed spec fn positions_spec(&self) -> Map<u64, [i32; 3]> {
        self.positions.view()
    }

    pub closed spec fn parts_spec(&self) -> Seq<(SubjectId, Part)> {
        self.parts@
    }

    pub closed spec fn pact_spec(&self) -> Option<Pact> {
        self.pact
    }

    pub closed spec fn outing_spec(&self) -> Option<AgreementId> {
        self.outing
    }

    pub closed spec fn home_spec(&self) -> [i32; 3] {
        self.home
    }

    pub closed spec fn site_spec(&self) -> [i32; 3] {
        self.site
    }

    /// What the site yields to whoever reaches it.
    pub closed spec fn find_spec(&self) -> u8 {
        self.find
    }

    pub closed spec fn way_spec(&self) -> Seq<[i32; 2]> {
        self.way_home@
    }

    pub closed spec fn way_index_spec(&self) -> int {
        self.way_index as int
    }

    pub closed spec fn downed_spec(&self) -> Option<SubjectId> {
        self.downed
    }

    pub closed spec fn tick_spec(&self) -> u64 {
        self.tick
    }

    pub closed spec fn done_spec(&self) -> bool {
        self.done
    }

    pub closed spec fn stage_spec(&self) -> Stage {
        self.stage
    }

    pub closed spec fn trail_spec(&self) -> Seq<Vec<[i32; 3]>> {
        self.trail@
    }

    /// The played body's best distance toward its goal, and how many turns
    /// since it improved.
    pub closed spec fn progress_spec(&self) -> (i32, u64) {
        self.progress
    }

    /// The work the pact's healer is asked for when tending.
    pub closed spec fn tend_spec(&self) -> Work {
        self.tend
    }

    /// Where the home body stood as the companions' turn of the tick began.
    pub closed spec fn anchor_spec(&self) -> [i32; 3] {
        self.anchor
    }

    /// Who began a walk by their part in this tick's companions' turn.
    pub closed spec fn walked_spec(&self) -> Set<u64> {
        self.walked@
    }

    /// The leg's goal as the companions' turn of the tick began.
    pub closed spec fn leg_goal_spec(&self) -> [i32; 2] {
        self.leg_goal
    }

    /// The tick the sortie departed at.
    pub open spec fn departed_at(&self) -> u64 {
        self.events_spec()[0]->Departed_at.0
    }

    /// Whether a subject may ever move: the home body, the pact's successor,
    /// or someone with an agreed part.
    pub open spec fn walks(&self, k: u64) -> bool {
        ||| k == self.control_spec().home_spec().0
        ||| (self.pact_spec() matches Some(p) && p.successor.0 == k)
        ||| names_in_parts(self.parts_spec(), k)
    }

    /// The leg's goal: the site until the find is carried, then the next
    /// waypoint of the way home.
    pub open spec fn goal_spec(&self) -> [i32; 2] {
        if self.carried_spec() is None {
            xz(self.site_spec())
        } else {
            self.way_spec()[self.way_index_spec()]
        }
    }

    /// The walker whose step is awaited, if any.
    pub open spec fn walker(&self) -> Option<SubjectId> {
        match self.stage_spec() {
            Stage::Walking { walker, .. } => Some(walker),
            _ => None,
        }
    }

    pub open spec fn tagged_in_spec(&self) -> bool {
        self.control_spec().played_spec() != self.control_spec().home_spec()
    }

    pub closed spec fn stores_wf(&self) -> bool {
        &&& self.positions.wf()
        &&& self.shoulders.wf()
        &&& forall|k: u64| #[trigger] self.shoulders.view().contains_key(k) ==> shoulder_ok(self.shoulders.view()[k])
        &&& self.way_index < self.way_home@.len()
        &&& forall|i: int| 0 <= i < self.way_home@.len() ==> goal_on_map(#[trigger] self.way_home@[i])
        &&& self.progress.1 <= STUCK
        &&& on_map(self.anchor)
        &&& goal_on_map(self.leg_goal)
        &&& self.done ==> self.stage == Stage::Idle
        &&& match self.stage {
            Stage::Idle => true,
            Stage::Digging => true,
            Stage::Walking { walker, walk, after, .. } => {
                &&& toward_ok(walk)
                &&& !(walk.heading[0] == 0 && walk.heading[1] == 0)
                &&& (after is Played ==> self.progress.1 < STUCK)
                &&& self.positions.view().contains_key(walker.0)
                &&& self.positions.view()[walker.0] == walk.from
                &&& (after matches After::Companion(j) ==> j < self.parts@.len() && self.parts@[j as int].0
                    == walker)
                &&& (after is Played || after is Rescue ==> walker == self.control.played_spec())
            },
        }
    }

    /// The goal column of the walk whose step is awaited.
    pub open spec fn walk_goal(&self) -> [i32; 2] {
        self.stage_spec()->Walking_goal
    }

    /// Why `walker` walks toward `goal`, by the standing rule `after` names:
    /// the played body toward the leg's goal, on its own feet and in its own
    /// body; the tagged-in successor toward the downed, until within tending
    /// reach; a scout toward the leg's goal, while less than a lead ahead of
    /// where the home body stood and not yet there; a healer toward the
    /// downed until within reach, or, with nobody down, back toward where
    /// the home body stood once more than a trail away from it. Nobody walks
    /// by a part while played or downed.
    pub open spec fn walk_called_for(&self, walker: SubjectId, goal: [i32; 2], after: After) -> bool {
        let pos = self.positions_spec();
        let played = self.control_spec().played_spec();
        match after {
            After::Played => {
                &&& walker == played
                &&& !self.tagged_in_spec()
                &&& self.downed_spec() != Some(played)
                &&& goal == self.goal_spec()
            },
            After::Rescue => {
                &&& walker == played
                &&& self.tagged_in_spec()
                &&& self.downed_spec() is Some
                &&& goal == xz(pos[self.downed_spec()->Some_0.0])
                &&& !in_tend_reach_spec(pos[walker.0], pos[self.downed_spec()->Some_0.0])
            },
            After::Companion(j) => {
                &&& j < self.parts_spec().len()
                &&& self.parts_spec()[j as int].0 == walker
                &&& walker != played
                &&& self.downed_spec() != Some(walker)
                &&& match self.parts_spec()[j as int].1 {
                    Part::Scout { .. } => {
                        &&& goal == self.leg_goal_spec()
                        &&& distance_spec(pos[walker.0], goal) + LEAD > distance_spec(self.anchor_spec(), goal)
                        &&& !arrived_spec(pos[walker.0], goal)
                    },
                    Part::Healer { .. } => match self.downed_spec() {
                        Some(d) => goal == xz(pos[d.0]) && !in_tend_reach_spec(pos[walker.0], pos[d.0]),
                        None => goal == xz(self.anchor_spec()) && apart_spec(pos[walker.0], self.anchor_spec())
                            > TRAIL,
                    },
                }
            },
        }
    }

    /// A walk under way is one its rule calls for, headed for its goal; a
    /// dig under way is the played body's, on its own feet and in its own
    /// body.
    pub open spec fn walk_rule(&self) -> bool {
        match self.stage_spec() {
            Stage::Walking { walker, walk, after, goal } => {
                &&& self.walk_called_for(walker, goal, after)
                &&& (after is Companion ==> !tend_due(*self))
                &&& (after matches After::Companion(j) ==> {
                    &&& self.walked_spec().contains(walker.0)
                    &&& forall|k: int| 0 <= k < j ==> #[trigger] turn_taken(*self, k)
                })
                &&& walk.heading[0] == heading_spec(walk.from, goal).0
                &&& walk.heading[1] == heading_spec(walk.from, goal).1
            },
            Stage::Digging => {
                &&& !self.tagged_in_spec()
                &&& self.downed_spec() != Some(self.control_spec().played_spec())
            },
            Stage::Idle => true,
        }
    }

    /// Everything a sortie keeps true between any two answers.
    pub open spec fn wf(&self) -> bool {
        &&& self.stores_wf()
        &&& self.walk_rule()
        &&& self.society_spec().wf()
        &&& self.facets_spec().wf()
        &&& self.control_spec().wf()
        &&& forall|k: u64| #[trigger] self.positions_spec().contains_key(k) ==> on_map(self.positions_spec()[k])
        &&& self.positions_spec().contains_key(self.control_spec().home_spec().0)
        &&& self.positions_spec().contains_key(self.control_spec().played_spec().0)
        &&& forall|i: int|
            0 <= i < self.parts_spec().len() ==> self.positions_spec().contains_key(
                (#[trigger] self.parts_spec()[i]).0.0,
            )
        &&& (self.pact_spec() matches Some(p) ==> self.positions_spec().contains_key(p.successor.0))
        &&& on_map(self.home_spec())
        &&& on_map(self.site_spec())
        &&& self.events_spec().len() > 0
        &&& self.events_spec()[0] is Departed
        &&& self.departed_at() <= self.tick_spec()
        &&& self.tick_spec() - self.departed_at() <= MAX_TICKS
        &&& self.departed_at() + MAX_TICKS < u64::MAX
        &&& forall|i: int|
            0 <= i < self.events_spec().len() && is_downed_event(#[trigger] self.events_spec()[i]) ==> self.events_spec()[i]->Downed_who
                == self.control_spec().home_spec()
        &&& (self.tagged_in_spec() ==> {
            &&& self.downed_spec() == Some(self.control_spec().home_spec())
            &&& self.pact_spec() is Some
            &&& self.control_spec().played_spec() == self.pact_spec()->Some_0.successor
            &&& self.society_spec().agreements_spec().contains_key(self.pact_spec()->Some_0.under.0)
            &&& self.society_spec().agreements_spec()[self.pact_spec()->Some_0.under.0].state
                == AgreementState::Standing
        })
        &&& (self.downed_spec() matches Some(d) ==> d == self.control_spec().home_spec())
        &&& (self.pact_spec() matches Some(p) ==> self.society_spec().agreements_spec().contains_key(p.under.0)
            ==> self.society_spec().companions_spec().contains_key(
            self.society_spec().agreements_spec()[p.under.0].holder.0,
        ))
        &&& (!self.done_spec() ==> (self.outing_spec() matches Some(o) ==> {
            &&& self.society_spec().agreements_spec().contains_key(o.0)
            &&& self.society_spec().agreements_spec()[o.0].state == AgreementState::Standing
            &&& (self.society_spec().agreements_spec()[o.0].asker == self.control_spec().home_spec()
                || self.society_spec().agreements_spec()[o.0].holder == self.control_spec().home_spec())
        }))
    }

    /// Room in the society's log for every deed one more answer can add,
    /// with every standing still folding inside its integers.
    pub open spec fn room_for_deeds(&self) -> bool {
        fold_room(self.society_spec().deeds(), (self.parts_spec().len() + 3) as nat)
    }

    /// Whether the society's log has the room the next answer needs.
    pub fn has_room(&self) -> (room: bool)
        requires
            self.wf(),
        ensures
            room == self.room_for_deeds(),
    {
        if self.parts.len() > 6550 {
            proof {
                lemma_self_is_stranger(self.society.deeds(), SubjectId(0));
            }
            return false;
        }
        self.society.has_room(self.parts.len() as u64 + 3)
    }
}

/// `t` begins with all of `s`.
pub open spec fn grows_from<A>(s: Seq<A>, t: Seq<A>) -> bool {
    s.len() <= t.len() && forall|i: int| 0 <= i < s.len() ==> #[trigger] t[i] == s[i]
}

/// What no step of a sortie changes, and what only grows: who stands where
/// among those who never walk, the record so far, and the arrangements the
/// march runs under.
pub open spec fn frame(b: Sortie, a: Sortie) -> bool {
    &&& a.positions_spec().dom() == b.positions_spec().dom()
    &&& forall|k: u64|
        #[trigger] b.positions_spec().contains_key(k) && !b.walks(k) ==> a.positions_spec()[k]
            == b.positions_spec()[k]
    &&& grows_from(b.events_spec(), a.events_spec())
    &&& grows_from(b.wounds_spec(), a.wounds_spec())
    &&& grows_from(b.trail_spec(), a.trail_spec())
    &&& a.parts_spec() == b.parts_spec()
    &&& a.pact_spec() == b.pact_spec()
    &&& a.outing_spec() == b.outing_spec()
    &&& a.home_spec() == b.home_spec()
    &&& a.site_spec() == b.site_spec()
    &&& a.way_spec() == b.way_spec()
    &&& a.control_spec().home_spec() == b.control_spec().home_spec()
    &&& (b.done_spec() ==> a.done_spec())
    &&& a.hewn_spec() >= b.hewn_spec()
    &&& grows_from(b.society_spec().deeds(), a.society_spec().deeds())
}

/// Nothing invoked the pact.
pub open spec fn no_pact(b: Sortie, a: Sortie) -> bool {
    forall|i: int| b.events_spec().len() <= i < a.events_spec().len() ==> !(#[trigger] a.events_spec()[i] is PactInvoked)
}

/// Nobody was wounded, and every body is the one it was.
pub open spec fn no_wound(b: Sortie, a: Sortie) -> bool {
    &&& a.wounds_spec() == b.wounds_spec()
    &&& a.facets_spec().bodies_spec() == b.facets_spec().bodies_spec()
    &&& forall|i: int|
        b.events_spec().len() <= i < a.events_spec().len() ==> !(#[trigger] a.events_spec()[i] is Fell)
            && !(a.events_spec()[i] is Wounded)
}

/// Part `j`'s rule calls for a walk: the scout while less than a lead ahead
/// of where the home body stood and not yet on the leg's goal; the healer
/// toward the downed while out of tending reach, or, with nobody down, back
/// toward where the home body stood once more than a trail away. Nobody
/// walks by a part while played or downed.
pub open spec fn part_walk_due(s: Sortie, j: int) -> bool {
    let walker = s.parts_spec()[j].0;
    let pos = s.positions_spec();
    &&& 0 <= j < s.parts_spec().len()
    &&& walker != s.control_spec().played_spec()
    &&& s.downed_spec() != Some(walker)
    &&& match s.parts_spec()[j].1 {
        Part::Scout { .. } => {
            &&& distance_spec(pos[walker.0], s.leg_goal_spec()) + LEAD > distance_spec(
                s.anchor_spec(),
                s.leg_goal_spec(),
            )
            &&& !arrived_spec(pos[walker.0], s.leg_goal_spec())
        },
        Part::Healer { .. } => match s.downed_spec() {
            Some(d) => !in_tend_reach_spec(pos[walker.0], pos[d.0]),
            None => apart_spec(pos[walker.0], s.anchor_spec()) > TRAIL,
        },
    }
}

/// Part `j` has had its turn this tick: its walk was begun, or its rule
/// calls for none.
pub open spec fn turn_taken(s: Sortie, j: int) -> bool {
    s.walked_spec().contains(s.parts_spec()[j].0.0) || !part_walk_due(s, j)
}

/// A walk from `from` ended at `to`: a fall past comfort wounds the walker
/// by the drop, one past the body it wore, records the fall, and downs the
/// home body if nobody was down.
pub open spec fn fell_as_walked(b: Sortie, a: Sortie, walker: SubjectId, from: [i32; 3], to: [i32; 3]) -> bool {
    let dropped = from[1] - to[1];
    let at = Tick(b.tick_spec());
    to != from && dropped > SAFE_FALL ==> {
        &&& a.wounds_spec().last() == (Wound {
            subject: walker,
            at,
            fell: dropped as i32,
            revision: BodyRevisionId((worn(b.facets_spec(), walker) + 1) as u64),
        })
        &&& a.events_spec().contains(SortieEvent::Fell { who: walker, at, dropped: dropped as i32 })
        &&& (walker == b.control_spec().home_spec() && b.downed_spec() is None ==> a.events_spec().contains(
            SortieEvent::Downed { who: walker, at },
        ))
    }
}

/// What the terrain's answer to the awaited step does: the walk asks its
/// next step and nothing else changes, or the walk ends there, with the
/// walker standing where it ended and wounded exactly when it fell past
/// comfort, as [`fell_as_walked`] says.
pub open spec fn answered(b: Sortie, a: Sortie, landed: [i32; 3], need: Need) -> bool {
    match b.stage_spec() {
        Stage::Walking { walker, walk, after, goal } => match answer_spec(walk, landed) {
            (t, Stride::Ask(to)) => {
                &&& need == (Need::Step { from: walk.from, to })
                &&& a.stage_spec() == (Stage::Walking { walker, walk: t, after, goal })
                &&& a.positions_spec() == b.positions_spec()
                &&& a.events_spec() == b.events_spec()
                &&& a.wounds_spec() == b.wounds_spec()
            },
            (_, Stride::Stop { at, .. }) => {
                &&& a.positions_spec()[walker.0] == at
                &&& (at != walk.from && walk.from[1] - at[1] > SAFE_FALL) <==> a.wounds_spec().len()
                    == b.wounds_spec().len() + 1
                &&& fell_as_walked(b, a, walker, walk.from, at)
            },
        },
        _ => true,
    }
}

/// An event a tick's end never records: no tending, fall or wound.
pub open spec fn quiet_event(e: SortieEvent) -> bool {
    !(e is Tended) && !(e is Fell) && !(e is Wounded)
}

/// Every fall and wound recorded since `b` is `who`'s.
pub open spec fn falls_name(b: Sortie, a: Sortie, who: SubjectId) -> bool {
    forall|i: int|
        b.events_spec().len() <= i < a.events_spec().len() ==> {
            let e = #[trigger] a.events_spec()[i];
            &&& (e is Fell ==> e->Fell_who == who)
            &&& (e is Wounded ==> e->Wounded_who == who)
        }
}

/// The body a subject wears, counting an unrecorded body as revision zero.
pub open spec fn worn(facets: Facets, subject: SubjectId) -> u64 {
    if facets.bodies_spec().contains_key(subject.0) {
        facets.bodies_spec()[subject.0].0
    } else {
        0
    }
}

/// At most one wound, and if one, the wound law: a fall past comfort, a
/// new body revision one past the one worn, and the facets wearing it.
pub open spec fn wound_law(b: Sortie, a: Sortie) -> bool {
    ||| no_wound(b, a)
    ||| {
        let w = a.wounds_spec().last();
        &&& a.wounds_spec() == b.wounds_spec().push(w)
        &&& w.fell > SAFE_FALL
        &&& w.revision.0 == worn(b.facets_spec(), w.subject) + 1
        &&& a.facets_spec().bodies_spec() == b.facets_spec().bodies_spec().insert(w.subject.0, w.revision)
        &&& falls_name(b, a, w.subject)
    }
}

/// The pact may fire: the played body is the downed home body, nobody is
/// tagged in, and the pact's agreement stands.
pub open spec fn pact_may_fire(b: Sortie) -> bool {
    &&& b.pact_spec() is Some
    &&& b.downed_spec() == Some(b.control_spec().played_spec())
    &&& !b.tagged_in_spec()
    &&& b.society_spec().agreements_spec().contains_key(b.pact_spec()->Some_0.under.0)
    &&& b.society_spec().agreements_spec()[b.pact_spec()->Some_0.under.0].state == AgreementState::Standing
}

/// Whether the home body recorded sharing with `with` at `at`.
pub open spec fn shared_with(s: Sortie, with: SubjectId, at: Tick) -> bool {
    exists|j: int|
        0 <= j < s.society_spec().deeds().len() && {
            let d = #[trigger] s.society_spec().deeds()[j];
            &&& d.at == at
            &&& d.doer == s.control_spec().home_spec()
            &&& d.toward == Some(with)
            &&& d.kind == DeedKind::Shared
        }
}

/// What a sortie that has come home shows: the return recorded last, at
/// the tick it happened; the salvage carried; the played body home, its
/// own, and on its feet; a share recorded, and announced, with everyone
/// who marched under a part; and the expedition agreement ended for work
/// done.
pub open spec fn returned(s: Sortie) -> bool {
    let home = s.control_spec().home_spec();
    let at = Tick(s.tick_spec());
    &&& s.events_spec().len() > 0
    &&& s.events_spec().last() == (SortieEvent::Returned { at })
    &&& s.carried_spec() is Some
    &&& !s.tagged_in_spec()
    &&& s.downed_spec() is None
    &&& arrived_spec(s.positions_spec()[home.0], [s.home_spec()[0], s.home_spec()[2]])
    &&& forall|i: int|
        0 <= i < s.parts_spec().len() ==> shared_with(s, (#[trigger] s.parts_spec()[i]).0, at)
            && s.events_spec().contains(SortieEvent::SharedOut { at, with: s.parts_spec()[i].0 })
    &&& (s.outing_spec() matches Some(o) ==> s.society_spec().agreements_spec().contains_key(o.0)
        && s.society_spec().agreements_spec()[o.0].state == (AgreementState::Ended {
        at,
        why: EndReason::WorkDone,
    }))
}

/// Whether the society's log holds a deed done at `at` by `doer` toward
/// `toward` of `kind`.
pub open spec fn logged(s: Sortie, at: Tick, doer: SubjectId, toward: SubjectId, kind: DeedKind) -> bool {
    exists|j: int|
        0 <= j < s.society_spec().deeds().len() && {
            let d = #[trigger] s.society_spec().deeds()[j];
            &&& d.at == at
            &&& d.doer == doer
            &&& d.toward == Some(toward)
            &&& d.kind == kind
        }
}

/// Whether the society's log holds, at `at`, work performed under `id`.
pub open spec fn performed_under(s: Sortie, at: Tick, id: AgreementId) -> bool {
    exists|j: int|
        0 <= j < s.society_spec().deeds().len() && {
            let d = #[trigger] s.society_spec().deeds()[j];
            &&& d.at == at
            &&& d.kind == DeedKind::PerformedUnderAgreement(id)
        }
}

/// Every tending a step records rests on the pact's agreement exercised at
/// that tick and on the healer standing by the fallen, both in the log.
pub open spec fn tend_law(b: Sortie, a: Sortie) -> bool {
    forall|i: int|
        b.events_spec().len() <= i < a.events_spec().len() && (#[trigger] a.events_spec()[i] is Tended) ==> {
            let e = a.events_spec()[i];
            &&& a.pact_spec() is Some
            &&& logged(a, e->Tended_at, e->Tended_by, e->Tended_whom, DeedKind::StoodBy)
            &&& performed_under(a, e->Tended_at, a.pact_spec()->Some_0.under)
        }
}

proof fn lemma_tend_law_trans(a: Sortie, b: Sortie, c: Sortie)
    requires
        tend_law(a, b),
        tend_law(b, c),
        frame(b, c),
        grows_from(a.events_spec(), b.events_spec()),
    ensures
        tend_law(a, c),
{
    assert forall|i: int|
        a.events_spec().len() <= i < c.events_spec().len() && (#[trigger] c.events_spec()[i] is Tended) implies {
        let e = c.events_spec()[i];
        &&& c.pact_spec() is Some
        &&& logged(c, e->Tended_at, e->Tended_by, e->Tended_whom, DeedKind::StoodBy)
        &&& performed_under(c, e->Tended_at, c.pact_spec()->Some_0.under)
    } by {
        if i < b.events_spec().len() {
            let e = b.events_spec()[i];
            assert(c.events_spec()[i] == e);
            let j = choose|j: int|
                0 <= j < b.society_spec().deeds().len() && {
                    let d = #[trigger] b.society_spec().deeds()[j];
                    &&& d.at == e->Tended_at
                    &&& d.doer == e->Tended_by
                    &&& d.toward == Some(e->Tended_whom)
                    &&& d.kind == DeedKind::StoodBy
                };
            assert(c.society_spec().deeds()[j] == b.society_spec().deeds()[j]);
            let k = choose|k: int|
                0 <= k < b.society_spec().deeds().len() && {
                    let d = #[trigger] b.society_spec().deeds()[k];
                    &&& d.at == e->Tended_at
                    &&& d.kind == DeedKind::PerformedUnderAgreement(b.pact_spec()->Some_0.under)
                };
            assert(c.society_spec().deeds()[k] == b.society_spec().deeds()[k]);
        }
    }
}

/// A step that takes the salvage takes the site's find, from the site,
/// with the played body's home standing on the site's column, and says so.
pub open spec fn took_law(b: Sortie, a: Sortie) -> bool {
    b.carried_spec() is None && a.carried_spec() is Some ==> {
        &&& a.carried_spec() == Some(Salvage { what: a.find_spec(), from: a.site_spec() })
        &&& arrived_spec(
            a.positions_spec()[a.control_spec().home_spec().0],
            [a.site_spec()[0], a.site_spec()[2]],
        )
        &&& a.events_spec().contains(SortieEvent::Took { at: Tick(a.tick_spec()), what: a.find_spec() })
    }
}

/// A step that brings the sortie home leaves it as [`returned`] says.
pub open spec fn return_law(b: Sortie, a: Sortie) -> bool {
    !b.done_spec() && a.done_spec() ==> returned(a)
}

proof fn lemma_frame_trans(a: Sortie, b: Sortie, c: Sortie)
    requires
        frame(a, b),
        frame(b, c),
    ensures
        frame(a, c),
{
    assert forall|k: u64| #[trigger] a.positions_spec().contains_key(k) && !a.walks(k) implies c.positions_spec()[k]
        == a.positions_spec()[k] by {
        assert(b.positions_spec().contains_key(k));
        assert(!b.walks(k));
    }
    assert forall|i: int| 0 <= i < a.events_spec().len() implies #[trigger] c.events_spec()[i] == a.events_spec()[i] by {
        assert(c.events_spec()[i] == b.events_spec()[i]);
    }
    assert forall|i: int| 0 <= i < a.wounds_spec().len() implies #[trigger] c.wounds_spec()[i] == a.wounds_spec()[i] by {
        assert(c.wounds_spec()[i] == b.wounds_spec()[i]);
    }
    assert forall|i: int| 0 <= i < a.trail_spec().len() implies #[trigger] c.trail_spec()[i] == a.trail_spec()[i] by {
        assert(c.trail_spec()[i] == b.trail_spec()[i]);
    }
    assert forall|i: int| 0 <= i < a.society_spec().deeds().len() implies #[trigger] c.society_spec().deeds()[i]
        == a.society_spec().deeds()[i] by {
        assert(c.society_spec().deeds()[i] == b.society_spec().deeds()[i]);
    }
}

proof fn lemma_no_pact_trans(a: Sortie, b: Sortie, c: Sortie)
    requires
        grows_from(a.events_spec(), b.events_spec()),
        grows_from(b.events_spec(), c.events_spec()),
        no_pact(a, b),
        no_pact(b, c),
    ensures
        no_pact(a, c),
{
    assert forall|i: int| a.events_spec().len() <= i < c.events_spec().len() implies !(
    #[trigger] c.events_spec()[i] is PactInvoked) by {
        if i < b.events_spec().len() {
            assert(c.events_spec()[i] == b.events_spec()[i]);
        }
    }
}

proof fn lemma_wound_law_trans(a: Sortie, b: Sortie, c: Sortie)
    requires
        wound_law(a, b),
        wound_law(b, c),
        no_wound(a, b) || no_wound(b, c),
        grows_from(a.events_spec(), b.events_spec()),
        grows_from(b.events_spec(), c.events_spec()),
    ensures
        wound_law(a, c),
{
    let (ea, eb, ec) = (a.events_spec(), b.events_spec(), c.events_spec());
    assert forall|i: int| 0 <= i < eb.len() implies #[trigger] ec[i] == eb[i] by {}
    if no_wound(a, b) {
        if no_wound(b, c) {
            assert forall|i: int| ea.len() <= i < ec.len() implies !(#[trigger] ec[i] is Fell) && !(ec[i] is Wounded) by {
                if i < eb.len() {
                    assert(ec[i] == eb[i]);
                }
            }
        } else {
            let w = c.wounds_spec().last();
            assert(worn(a.facets_spec(), w.subject) == worn(b.facets_spec(), w.subject));
            assert(falls_name(a, c, w.subject)) by {
                assert forall|i: int| ea.len() <= i < ec.len() implies {
                    let e = #[trigger] ec[i];
                    &&& (e is Fell ==> e->Fell_who == w.subject)
                    &&& (e is Wounded ==> e->Wounded_who == w.subject)
                } by {
                    if i < eb.len() {
                        assert(ec[i] == eb[i]);
                    }
                }
            }
        }
    } else {
        let w = b.wounds_spec().last();
        assert(c.wounds_spec() == b.wounds_spec());
        assert(falls_name(a, c, w.subject)) by {
            assert forall|i: int| ea.len() <= i < ec.len() implies {
                let e = #[trigger] ec[i];
                &&& (e is Fell ==> e->Fell_who == w.subject)
                &&& (e is Wounded ==> e->Wounded_who == w.subject)
            } by {
                if i < eb.len() {
                    assert(ec[i] == eb[i]);
                }
            }
        }
    }
}

/// What the terrain's answers may be: positions the march can reason about,
/// and, for a walker who may fall, a body revision with one more to come.
pub open spec fn body_has_room(facets: Facets, subject: SubjectId) -> bool {
    worn(facets, subject) < u64::MAX
}

impl Sortie {
    /// The positions in subject order, as a trail row.
    pub closed spec fn row_spec(&self) -> Seq<[i32; 3]> {
        self.positions.entries_spec().map_values(|e: (u64, [i32; 3])| e.1)
    }

    /// Musters at home. Everyone stands at the settlement whether or not
    /// they march: a refused companion is still a person with a position.
    /// `find` is what the site yields to whoever reaches it.
    pub fn muster(
        society: Society,
        facets: Facets,
        control: Control,
        everyone: &[SubjectId],
        parts: Vec<(SubjectId, Part)>,
        pact: Option<Pact>,
        outing: Option<AgreementId>,
        tend: Work,
        home: [i32; 3],
        site: [i32; 3],
        find: u8,
        way_home: Vec<[i32; 2]>,
        at: Tick,
    ) -> (sortie: Self)
        requires
            society.wf(),
            facets.wf(),
            control.wf(),
            control.played_spec() == control.home_spec(),
            everyone@.contains(control.home_spec()),
            forall|i: int| 0 <= i < parts@.len() ==> everyone@.contains(#[trigger] parts@[i].0),
            pact matches Some(p) ==> everyone@.contains(p.successor),
            pact matches Some(p) ==> (society.agreements_spec().contains_key(p.under.0)
                ==> society.companions_spec().contains_key(society.agreements_spec()[p.under.0].holder.0)),
            outing matches Some(o) ==> {
                &&& society.agreements_spec().contains_key(o.0)
                &&& society.agreements_spec()[o.0].state == AgreementState::Standing
                &&& (society.agreements_spec()[o.0].asker == control.home_spec()
                    || society.agreements_spec()[o.0].holder == control.home_spec())
            },
            on_map(home),
            on_map(site),
            way_home@.len() > 0,
            forall|i: int| 0 <= i < way_home@.len() ==> goal_on_map(#[trigger] way_home@[i]),
            at.0 + MAX_TICKS < u64::MAX,
        ensures
            sortie.wf(),
            forall|k: u64|
                sortie.positions_spec().contains_key(k) <==> exists|i: int|
                    0 <= i < everyone@.len() && (#[trigger] everyone@[i]).0 == k,
            forall|k: u64| #[trigger] sortie.positions_spec().contains_key(k) ==> sortie.positions_spec()[k] == home,
            sortie.society_spec() == society,
            sortie.facets_spec() == facets,
            sortie.control_spec() == control,
            sortie.parts_spec() == parts@,
            sortie.pact_spec() == pact,
            sortie.outing_spec() == outing,
            sortie.home_spec() == home,
            sortie.site_spec() == site,
            sortie.way_spec() == way_home@,
            sortie.tick_spec() == at.0,
            sortie.events_spec() == seq![SortieEvent::Departed { at }],
            sortie.wounds_spec() == Seq::<Wound>::empty(),
            sortie.carried_spec() is None,
            sortie.hewn_spec() == 0,
            !sortie.done_spec(),
            sortie.stage_spec() == Stage::Idle,
            sortie.trail_spec().len() == 1,
            sortie.trail_spec()[0]@ == sortie.row_spec(),
    {
        let mut positions: Keyed<[i32; 3]> = Keyed::new();
        let mut i: usize = 0;
        while i < everyone.len()
            invariant
                i <= everyone@.len(),
                positions.wf(),
                forall|k: u64|
                    positions.view().contains_key(k) <==> exists|j: int|
                        0 <= j < i && (#[trigger] everyone@[j]).0 == k,
                forall|k: u64| #[trigger] positions.view().contains_key(k) ==> positions.view()[k] == home,
            decreases everyone@.len() - i,
        {
            let subject = everyone[i];
            positions.insert(subject.0, home);
            proof {
                assert forall|k: u64|
                    positions.view().contains_key(k) <==> exists|j: int|
                        0 <= j < i + 1 && (#[trigger] everyone@[j]).0 == k by {
                    if positions.view().contains_key(k) && k != subject.0 {
                        let j = choose|j: int| 0 <= j < i && (#[trigger] everyone@[j]).0 == k;
                    }
                    if exists|j: int| 0 <= j < i + 1 && (#[trigger] everyone@[j]).0 == k {
                        let j = choose|j: int| 0 <= j < i + 1 && (#[trigger] everyone@[j]).0 == k;
                        if j < i {
                            assert(exists|j2: int| 0 <= j2 < i && (#[trigger] everyone@[j2]).0 == k);
                        }
                    }
                }
            }
            i = i + 1;
        }
        let mut events: Vec<SortieEvent> = Vec::new();
        events.push(SortieEvent::Departed { at });
        let mut sortie = Sortie {
            society,
            facets,
            control,
            positions,
            parts,
            pact,
            outing,
            tend,
            home,
            site,
            find,
            way_home,
            way_index: 0,
            downed: None,
            shoulders: Keyed::new(),
            progress: (i32::MAX, 0),
            tick: at.0,
            wounds: Vec::new(),
            carried: None,
            hewn: 0,
            events,
            trail: Vec::new(),
            done: false,
            stage: Stage::Idle,
            anchor: home,
            leg_goal: [home[0], home[2]],
            walked: Ghost(Set::empty()),
        };
        proof {
            let contains = |k: u64| exists|j: int| 0 <= j < everyone@.len() && (#[trigger] everyone@[j]).0 == k;
            let home_id = sortie.control.home_spec();
            let j = choose|j: int| 0 <= j < everyone@.len() && everyone@[j] == home_id;
            assert(everyone@[j].0 == home_id.0);
            assert forall|i: int| 0 <= i < sortie.parts@.len() implies sortie.positions.view().contains_key(
                (#[trigger] sortie.parts@[i]).0.0,
            ) by {
                let who = sortie.parts@[i].0;
                assert(everyone@.contains(who));
                let j = choose|j: int| 0 <= j < everyone@.len() && everyone@[j] == who;
                assert(everyone@[j].0 == who.0);
            }
            if let Some(p) = sortie.pact {
                let j = choose|j: int| 0 <= j < everyone@.len() && everyone@[j] == p.successor;
                assert(everyone@[j].0 == p.successor.0);
            }
            assert forall|k: u64| #[trigger] sortie.shoulders.view().contains_key(k) implies shoulder_ok(
                sortie.shoulders.view()[k],
            ) by {}
            assert forall|i: int|
                0 <= i < sortie.events@.len() && is_downed_event(#[trigger] sortie.events@[i]) implies sortie.events@[i]->Downed_who
                == sortie.control.home_spec() by {}
        }
        sortie.push_trail();
        sortie
    }

    pub fn tick(&self) -> (now: Tick)
        ensures
            now == Tick(self.tick_spec()),
    {
        Tick(self.tick)
    }

    pub fn done(&self) -> (done: bool)
        ensures
            done == self.done_spec(),
    {
        self.done
    }

    /// Where someone stands.
    pub fn at(&self, subject: SubjectId) -> (position: [i32; 3])
        requires
            self.wf(),
            self.positions_spec().contains_key(subject.0),
        ensures
            position == self.positions_spec()[subject.0],
    {
        self.pos(subject)
    }

    /// Every trail row, one per tick and one at the muster: the positions
    /// in subject order.
    pub fn trail(&self) -> (rows: &[Vec<[i32; 3]>])
        ensures
            rows@ == self.trail_spec(),
    {
        self.trail.as_slice()
    }

    /// The walker whose step the terrain is asked about, if any.
    pub fn awaiting(&self) -> (walker: Option<SubjectId>)
        ensures
            walker == self.walker(),
    {
        match self.stage {
            Stage::Walking { walker, .. } => Some(walker),
            _ => None,
        }
    }

    fn pos(&self, subject: SubjectId) -> (position: [i32; 3])
        requires
            self.positions.wf(),
            self.positions.view().contains_key(subject.0),
        ensures
            position == self.positions.view()[subject.0],
    {
        match self.positions.get(subject.0) {
            Some(p) => *p,
            None => [0, 0, 0],
        }
    }

    fn push_trail(&mut self)
        requires
            old(self).positions.wf(),
        ensures
            *final(self) == (Sortie { trail: final(self).trail, ..*old(self) }),
            final(self).trail@.len() == old(self).trail@.len() + 1,
            forall|i: int| 0 <= i < old(self).trail@.len() ==> #[trigger] final(self).trail@[i] == old(self).trail@[i],
            final(self).trail@.last()@ == old(self).row_spec(),
    {
        let values = self.positions.values();
        let mut row: Vec<[i32; 3]> = Vec::new();
        let mut i: usize = 0;
        while i < values.len()
            invariant
                i <= values@.len(),
                values@.len() == self.positions.entries_spec().len(),
                forall|j: int| 0 <= j < values@.len() ==> *#[trigger] values@[j] == self.positions.entries_spec()[j].1,
                row@.len() == i,
                forall|j: int| 0 <= j < i ==> #[trigger] row@[j] == self.positions.entries_spec()[j].1,
            decreases values@.len() - i,
        {
            row.push(*values[i]);
            i = i + 1;
        }
        proof {
            assert(row@ =~= self.row_spec());
        }
        self.trail.push(row);
    }
}

impl Sortie {
    /// The wound law: a new body revision one past the one worn, worn from
    /// now on, and recorded.
    fn wound(&mut self, subject: SubjectId, fell: i32)
        requires
            old(self).wf(),
            old(self).stage == Stage::Idle,
            body_has_room(old(self).facets, subject),
            fell > SAFE_FALL,
        ensures
            final(self).wf(),
            *final(self) == (Sortie {
                facets: final(self).facets,
                wounds: final(self).wounds,
                events: final(self).events,
                ..*old(self)
            }),
            ({
                let revision = BodyRevisionId((worn(old(self).facets, subject) + 1) as u64);
                &&& final(self).wounds@ == old(self).wounds@.push(
                    Wound { subject, at: Tick(old(self).tick), fell, revision },
                )
                &&& final(self).events@ == old(self).events@.push(
                    SortieEvent::Wounded { who: subject, at: Tick(old(self).tick), revision },
                )
                &&& final(self).facets.bodies_spec() == old(self).facets.bodies_spec().insert(subject.0, revision)
                &&& final(self).facets.members_spec() == old(self).facets.members_spec()
            }),
            tend_law(*old(self), *final(self)),
    {
        let worn = match self.facets.body_of(subject) {
            Some(r) => r.0,
            None => 0,
        };
        let revision = BodyRevisionId(worn + 1);
        self.facets.wears(subject, revision);
        let at = Tick(self.tick);
        self.wounds.push(Wound { subject, at, fell, revision });
        self.events.push(SortieEvent::Wounded { who: subject, at, revision });
        proof {
            lemma_placed(*old(self), *self);
            assert(self.events@[0] == old(self).events@[0]);
            let e = self.events@;
            assert forall|i: int| 0 <= i < e.len() && is_downed_event(#[trigger] e[i]) implies e[i]->Downed_who
                == self.control.home_spec() by {
                if i < e.len() - 1 {
                    assert(e[i] == old(self).events@[i]);
                }
            }
        }
    }

    /// A walk ends: the shoulder remembered, the body moved, and the wound
    /// law applied to whoever fell. Only the home body downs.
    fn finish_walk(&mut self, subject: SubjectId, from: [i32; 3], to: [i32; 3], shoulder: i8)
        requires
            old(self).wf(),
            old(self).stage == Stage::Idle,
            old(self).positions.view().contains_key(subject.0),
            old(self).positions.view()[subject.0] == from,
            on_map(to),
            shoulder_ok(shoulder),
            old(self).walks(subject.0),
            from[1] - to[1] > SAFE_FALL ==> body_has_room(old(self).facets, subject),
        ensures
            final(self).wf(),
            frame(*old(self), *final(self)),
            no_pact(*old(self), *final(self)),
            wound_law(*old(self), *final(self)),
            *final(self) == (Sortie {
                positions: final(self).positions,
                shoulders: final(self).shoulders,
                facets: final(self).facets,
                wounds: final(self).wounds,
                events: final(self).events,
                downed: final(self).downed,
                ..*old(self)
            }),
            final(self).positions.view() == (if to == from {
                old(self).positions.view()
            } else {
                old(self).positions.view().insert(subject.0, to)
            }),
            final(self).shoulders.view() == old(self).shoulders.view().insert(subject.0, shoulder),
            final(self).downed == (if to != from && from[1] - to[1] > SAFE_FALL && subject
                == old(self).control.home_spec() && old(self).downed is None {
                Some(subject)
            } else {
                old(self).downed
            }),
            (to != from && from[1] - to[1] > SAFE_FALL) <==> final(self).wounds@.len()
                == old(self).wounds@.len() + 1,
            fell_as_walked(*old(self), *final(self), subject, from, to),
            tend_law(*old(self), *final(self)),
    {
        self.shoulders.insert(subject.0, shoulder);
        proof {
            assert forall|k: u64| #[trigger] self.shoulders.view().contains_key(k) implies shoulder_ok(
                self.shoulders.view()[k],
            ) by {
                if k != subject.0 {
                    assert(old(self).shoulders.view().contains_key(k));
                }
            }
        }
        if same_spot(to, from) {
            proof {
                assert(self.positions.view() == old(self).positions.view());
                assert(no_wound(*old(self), *self));
                lemma_frame_refl(*old(self), *self);
            }
            return;
        }
        self.positions.insert(subject.0, to);
        proof {
            assert forall|k: u64| #[trigger] self.positions_spec().contains_key(k) implies on_map(
                self.positions_spec()[k],
            ) by {
                if k != subject.0 {
                    assert(old(self).positions_spec().contains_key(k));
                }
            }
            assert(self.positions_spec().dom() =~= old(self).positions_spec().dom());
            lemma_placed(*old(self), *self);
        }
        let dropped = from[1] - to[1];
        if dropped > SAFE_FALL {
            let at = Tick(self.tick);
            self.events.push(SortieEvent::Fell { who: subject, at, dropped });
            proof {
                assert(self.events@[0] == old(self).events@[0]);
                let e = self.events@;
                assert forall|i: int| 0 <= i < e.len() && is_downed_event(#[trigger] e[i]) implies e[i]->Downed_who
                    == self.control.home_spec() by {
                    if i < e.len() - 1 {
                        assert(e[i] == old(self).events@[i]);
                    }
                }
            }
            let ghost mid = *self;
            self.wound(subject, dropped);
            if subject == self.control.home() && self.downed.is_none() {
                self.downed = Some(subject);
                let ghost before_downed = self.events@;
                self.events.push(SortieEvent::Downed { who: subject, at });
                proof {
                    let e = self.events@;
                    assert forall|i: int| 0 <= i < e.len() && is_downed_event(#[trigger] e[i]) implies e[i]->Downed_who
                        == self.control.home_spec() by {
                        if i < e.len() - 1 {
                            assert(e[i] == before_downed[i]);
                        }
                    }
                }
            }
            proof {
                let e = self.events@;
                let o = old(self).events@;
                assert forall|i: int| 0 <= i < o.len() implies #[trigger] e[i] == o[i] by {
                    assert(mid.events@[i] == o[i]);
                }
                assert forall|i: int| o.len() <= i < e.len() implies !(#[trigger] e[i] is PactInvoked) by {
                    if i == o.len() {
                        assert(mid.events@[i] == e[i]);
                    }
                }
                assert forall|i: int| 0 <= i < old(self).wounds@.len() implies #[trigger] self.wounds@[i]
                    == old(self).wounds@[i] by {}
                assert(self.wounds@.last().subject == subject);
                let o_len = o.len() as int;
                assert(mid.events@[o_len] == (SortieEvent::Fell { who: subject, at, dropped }));
                assert(e[o_len] == mid.events@[o_len]);
                if subject == old(self).control.home_spec() && old(self).downed is None {
                    assert(e[e.len() - 1] == (SortieEvent::Downed { who: subject, at }));
                }
                lemma_frame_shape(*old(self), *self, subject);
            }
        } else {
            proof {
                assert(no_wound(*old(self), *self));
                lemma_frame_shape(*old(self), *self, subject);
            }
        }
    }
}

proof fn lemma_frame_refl(b: Sortie, a: Sortie)
    requires
        a == (Sortie { shoulders: a.shoulders, ..b }),
    ensures
        frame(b, a),
        no_pact(b, a),
        no_wound(b, a),
{
}

/// Moving a walker, and growing the record, keeps the frame.
proof fn lemma_frame_shape(b: Sortie, a: Sortie, subject: SubjectId)
    requires
        a == (Sortie {
            positions: a.positions,
            shoulders: a.shoulders,
            facets: a.facets,
            wounds: a.wounds,
            events: a.events,
            downed: a.downed,
            ..b
        }),
        b.walks(subject.0),
        a.positions.view().dom() == b.positions.view().dom(),
        forall|k: u64| k != subject.0 && #[trigger] b.positions.view().contains_key(k) ==> a.positions.view()[k]
            == b.positions.view()[k],
        grows_from(b.events@, a.events@),
        grows_from(b.wounds@, a.wounds@),
    ensures
        frame(b, a),
{
}

/// The parts' walkers stay placed while the parts and the placed stay.
proof fn lemma_placed(b: Sortie, a: Sortie)
    requires
        forall|i: int|
            0 <= i < b.parts_spec().len() ==> b.positions_spec().contains_key((#[trigger] b.parts_spec()[i]).0.0),
        a.parts_spec() == b.parts_spec(),
        a.positions_spec().dom() == b.positions_spec().dom(),
    ensures
        forall|i: int|
            0 <= i < a.parts_spec().len() ==> a.positions_spec().contains_key((#[trigger] a.parts_spec()[i]).0.0),
{
    assert forall|i: int| 0 <= i < a.parts_spec().len() implies a.positions_spec().contains_key(
        (#[trigger] a.parts_spec()[i]).0.0,
    ) by {
        assert(b.parts_spec()[i] == a.parts_spec()[i]);
        assert(b.positions_spec().contains_key(b.parts_spec()[i].0.0));
    }
}

/// Tending reaches one column over and a cliff's height down.
pub open spec fn in_tend_reach_spec(at: [i32; 3], down: [i32; 3]) -> bool {
    apart_spec(at, down) <= TEND_REACH && abs(at[1] - down[1]) <= TEND_DROP
}

impl Sortie {
    fn in_tend_reach(&self, healer: SubjectId, fallen: SubjectId) -> (reach: bool)
        requires
            self.wf(),
            self.positions_spec().contains_key(healer.0),
            self.positions_spec().contains_key(fallen.0),
        ensures
            reach == in_tend_reach_spec(self.positions_spec()[healer.0], self.positions_spec()[fallen.0]),
    {
        let at = self.pos(healer);
        let down = self.pos(fallen);
        let dy = if at[1] < down[1] {
            down[1] - at[1]
        } else {
            at[1] - down[1]
        };
        apart(at, down) <= TEND_REACH && dy <= TEND_DROP
    }

    /// The leg's goal: the site until the find is carried, then the next
    /// waypoint of the way home.
    fn goal(&self) -> (goal: [i32; 2])
        requires
            self.wf(),
        ensures
            goal == self.goal_spec(),
            goal_on_map(goal),
    {
        if self.carried.is_none() {
            let g = [self.site[0], self.site[2]];
            proof {
                assert(g =~= xz(self.site));
            }
            g
        } else {
            self.way_home[self.way_index]
        }
    }

    /// Tending: the tagged-in healer within reach of the downed, under the
    /// pact's standing agreement. Performed, it stands by the fallen, clears
    /// the downing, and hands control home.
    fn tending(&mut self)
        requires
            old(self).wf(),
            old(self).stage == Stage::Idle,
            fold_room(old(self).society.deeds(), (old(self).parts@.len() + 3) as nat),
        ensures
            final(self).wf(),
            frame(*old(self), *final(self)),
            no_pact(*old(self), *final(self)),
            no_wound(*old(self), *final(self)),
            *final(self) == (Sortie {
                society: final(self).society,
                control: final(self).control,
                events: final(self).events,
                downed: final(self).downed,
                ..*old(self)
            }),
            old(self).society.deeds().len() <= final(self).society.deeds().len() <= old(self).society.deeds().len()
                + 2,
            tend_law(*old(self), *final(self)),
            !tend_due(*final(self)),
    {
        if !self.control.tagged_in() {
            proof {
                lemma_frame_same(*old(self), *self);
            }
            return;
        }
        let down = match self.downed {
            Some(d) => d,
            None => {
                proof {
                    lemma_frame_same(*old(self), *self);
                }
                return;
            },
        };
        let healer = self.control.played();
        let under = match self.pact {
            Some(p) => p.under,
            None => {
                proof {
                    lemma_frame_same(*old(self), *self);
                }
                return;
            },
        };
        if !self.in_tend_reach(healer, down) {
            proof {
                lemma_frame_same(*old(self), *self);
            }
            return;
        }
        let tend = self.tend;
        let at = Tick(self.tick);
        let tended = self.society.exercise(under, &tend, at);
        let performed = match tended {
            Ok(ruling) => match ruling.kind {
                RulingKind::Performed => true,
                _ => false,
            },
            Err(_) => false,
        };
        proof {
            if tended is Err {
                assert(false);
            }
            lemma_placed(*old(self), *self);
        }
        if !performed {
            proof {
                lemma_frame_same(*old(self), *self);
            }
            return;
        }
        let ghost exercised = self.society;
        self.society.record(at, healer, Some(down), DeedKind::StoodBy);
        self.events.push(SortieEvent::Tended { at, by: healer, whom: down });
        self.downed = None;
        let tagged_out = self.control.apply(ControlIntent::TagOut { at });
        self.events.push(SortieEvent::TaggedOut { at });
        proof {
            let o = old(self).society.agreements_spec();
            let n = self.society.agreements_spec();
            assert(n == exercised.agreements_spec());
            if let Some(p) = self.pact {
                if n.contains_key(p.under.0) {
                    assert(o.contains_key(p.under.0));
                }
            }
            if !self.done {
                if let Some(g) = self.outing {
                    assert(o.contains_key(g.0));
                }
            }
            let e = self.events@;
            let oe = old(self).events@;
            assert(e[0] == oe[0]);
            assert forall|i: int| 0 <= i < e.len() && is_downed_event(#[trigger] e[i]) implies e[i]->Downed_who
                == self.control.home_spec() by {
                if i < oe.len() {
                    assert(e[i] == oe[i]);
                }
            }
            assert forall|i: int| 0 <= i < oe.len() implies #[trigger] e[i] == oe[i] by {}
            assert forall|i: int| oe.len() <= i < e.len() implies !(#[trigger] e[i] is PactInvoked) by {}
            lemma_placed(*old(self), *self);
            let ds = self.society.deeds();
            let n = old(self).society.deeds().len() as int;
            assert(ds[n] == exercised.deeds()[n]);
            assert(ds[n].at == at && ds[n].kind == DeedKind::PerformedUnderAgreement(under));
            assert(performed_under(*self, at, under));
            assert(ds[n + 1].at == at && ds[n + 1].doer == healer && ds[n + 1].toward == Some(down)
                && ds[n + 1].kind == DeedKind::StoodBy);
            assert(logged(*self, at, healer, down, DeedKind::StoodBy));
            assert(e[oe.len() as int] == (SortieEvent::Tended { at, by: healer, whom: down }));
        }
    }
}

proof fn lemma_frame_same(b: Sortie, a: Sortie)
    requires
        a == b,
    ensures
        frame(b, a),
        no_pact(b, a),
        no_wound(b, a),
{
}

impl Sortie {
    /// The end of a tick: the find and the turn for home, the waypoints
    /// that fall as the leader reaches them, and home again with the share,
    /// the settled accounts, and the end. Then the trail row.
    fn finale(&mut self) -> (need: Need)
        requires
            old(self).wf(),
            old(self).stage == Stage::Idle,
            !old(self).done,
            fold_room(old(self).society.deeds(), (old(self).parts@.len() + 1) as nat),
            !tend_due(*old(self)),
            forall|i: int| 0 <= i < old(self).parts@.len() ==> #[trigger] turn_taken(*old(self), i),
        ensures
            final(self).wf(),
            frame(*old(self), *final(self)),
            no_pact(*old(self), *final(self)),
            no_wound(*old(self), *final(self)),
            need == Need::Ticked,
            settled(*final(self)),
            final(self).stage == Stage::Idle,
            final(self).positions == old(self).positions,
            final(self).tick == old(self).tick,
            final(self).trail@.len() == old(self).trail@.len() + 1,
            final(self).trail@.last()@ == old(self).row_spec(),
            log_grows_by_at_most(*old(self), *final(self), old(self).parts@.len() + 1),
            return_law(*old(self), *final(self)),
            took_law(*old(self), *final(self)),
            tend_law(*old(self), *final(self)),
    {
        let at = Tick(self.tick);
        let leader_at = self.pos(self.control.home());
        if self.carried.is_none() && arrived(leader_at, [self.site[0], self.site[2]]) {
            let salvage = Salvage { what: self.find, from: self.site };
            self.carried = Some(salvage);
            self.events.push(SortieEvent::Took { at, what: salvage.what });
            self.progress = (i32::MAX, 0);
            proof {
                let e = self.events@;
                let oe = old(self).events@;
                assert(e[0] == oe[0]);
                assert forall|i: int| 0 <= i < e.len() && is_downed_event(#[trigger] e[i]) implies e[i]->Downed_who
                    == self.control.home_spec() by {
                    if i < oe.len() {
                        assert(e[i] == oe[i]);
                    }
                }
                lemma_placed(*old(self), *self);
            }
        }
        proof {
            lemma_grown(*old(self), *self);
            if old(self).carried_spec() is None && self.carried_spec() is Some {
                assert(self.events@[self.events@.len() - 1] == (SortieEvent::Took { at, what: self.find }));
            }
        }
        loop
            invariant
                self.wf(),
                self.stage == Stage::Idle,
                !self.done,
                *self == (Sortie {
                    carried: self.carried,
                    events: self.events,
                    progress: self.progress,
                    way_index: self.way_index,
                    ..*old(self)
                }),
                grows_from(old(self).events@, self.events@),
                forall|i: int| old(self).events@.len() <= i < self.events@.len() ==> !(#[trigger] self.events@[i] is PactInvoked),
                forall|i: int| old(self).events@.len() <= i < self.events@.len() ==> quiet_event(#[trigger] self.events@[i]),
                took_law(*old(self), *self),
                self.carried is None ==> !arrived_spec(self.positions_spec()[self.control.home_spec().0], xz(self.site)),
            ensures
                self.wf(),
                self.stage == Stage::Idle,
                !self.done,
                *self == (Sortie {
                    carried: self.carried,
                    events: self.events,
                    progress: self.progress,
                    way_index: self.way_index,
                    ..*old(self)
                }),
                grows_from(old(self).events@, self.events@),
                forall|i: int| old(self).events@.len() <= i < self.events@.len() ==> !(#[trigger] self.events@[i] is PactInvoked),
                forall|i: int| old(self).events@.len() <= i < self.events@.len() ==> quiet_event(#[trigger] self.events@[i]),
                took_law(*old(self), *self),
                self.carried is None ==> !arrived_spec(self.positions_spec()[self.control.home_spec().0], xz(self.site)),
                self.carried is Some && self.way_index + 1 < self.way_home@.len() ==> !arrived_spec(
                    self.positions_spec()[self.control.home_spec().0],
                    self.way_home@[self.way_index as int],
                ),
            decreases self.way_home@.len() - self.way_index,
        {
            if self.carried.is_none() || self.way_index >= self.way_home.len() - 1 {
                break;
            }
            let leader = self.pos(self.control.home());
            if !arrived(leader, self.way_home[self.way_index]) {
                break;
            }
            let ghost prior = *self;
            self.way_index = self.way_index + 1;
            self.progress = (i32::MAX, 0);
            proof {
                lemma_placed(prior, *self);
            }
        }
        let home_id = self.control.home();
        let leader_at = self.pos(home_id);
        if self.carried.is_some() && !self.control.tagged_in() && self.downed.is_none() && self.way_index
            == self.way_home.len() - 1 && arrived(leader_at, [self.home[0], self.home[2]]) {
            let ghost base = self.society.deeds().len();
            let ghost before_shares = *self;
            let mut i: usize = 0;
            while i < self.parts.len()
                invariant
                    self.wf(),
                    self.stage == Stage::Idle,
                    !self.done,
                    !self.tagged_in_spec(),
                    self.downed is None,
                    i <= self.parts@.len(),
                    base == before_shares.society.deeds().len(),
                    self.society.deeds().len() == base + i,
                    fold_room(before_shares.society.deeds(), (self.parts@.len() + 1) as nat),
                    forall|j: int| 0 <= j < base ==> #[trigger] self.society.deeds()[j] == before_shares.society.deeds()[j],
                    *self == (Sortie { society: self.society, events: self.events, ..before_shares }),
                    self.society.agreements_spec() == before_shares.society.agreements_spec(),
                    self.society.companions_spec() == before_shares.society.companions_spec(),
                    grows_from(before_shares.events@, self.events@),
                    forall|j: int| before_shares.events@.len() <= j < self.events@.len() ==> !(#[trigger] self.events@[j] is PactInvoked),
                    forall|j: int| old(self).events@.len() <= j < self.events@.len() ==> quiet_event(#[trigger] self.events@[j]),
                    home_id == self.control.home_spec(),
                    at == Tick(self.tick),
                    took_law(*old(self), *self),
                    grows_from(old(self).society.deeds(), self.society.deeds()),
                    forall|j: int|
                        0 <= j < i ==> shared_with(*self, (#[trigger] self.parts@[j]).0, at) && self.events@.contains(
                            SortieEvent::SharedOut { at, with: self.parts@[j].0 },
                        ),
                decreases self.parts@.len() - i,
            {
                let companion = self.parts[i].0;
                let ghost prior = *self;
                self.society.record(at, home_id, Some(companion), DeedKind::Shared);
                self.events.push(SortieEvent::SharedOut { at, with: companion });
                proof {
                    let e = self.events@;
                    let pe = prior.events@;
                    assert(e[0] == pe[0]);
                    assert forall|j: int| 0 <= j < e.len() && is_downed_event(#[trigger] e[j]) implies e[j]->Downed_who
                        == self.control.home_spec() by {
                        if j < pe.len() {
                            assert(e[j] == pe[j]);
                        }
                    }
                    assert forall|j: int| 0 <= j < before_shares.events@.len() implies #[trigger] e[j]
                        == before_shares.events@[j] by {
                        assert(pe[j] == before_shares.events@[j]);
                    }
                    assert forall|j: int| before_shares.events@.len() <= j < e.len() implies !(
                    #[trigger] e[j] is PactInvoked) by {
                        if j < pe.len() {
                            assert(e[j] == pe[j]);
                        }
                    }
                    assert forall|j: int| old(self).events@.len() <= j < e.len() implies  quiet_event(
                    #[trigger] e[j]) by {
                        if j < pe.len() {
                            assert(e[j] == pe[j]);
                        }
                    }
                    if let Some(p) = self.pact {
                        if self.society.agreements_spec().contains_key(p.under.0) {
                            assert(prior.society.agreements_spec().contains_key(p.under.0));
                        }
                    }
                    if let Some(g) = self.outing {
                        assert(prior.society.agreements_spec().contains_key(g.0));
                    }
                    lemma_placed(prior, *self);
                    if old(self).carried_spec() is None && self.carried_spec() is Some {
                        let k = choose|k: int|
                            0 <= k < pe.len() && pe[k] == (SortieEvent::Took { at: Tick(self.tick), what: self.find });
                        assert(e[k] == pe[k]);
                    }
                    let n = prior.society.deeds().len() as int;
                    assert(self.society.deeds()[n].toward == Some(companion));
                    assert forall|j: int| 0 <= j < old(self).society.deeds().len() implies #[trigger] self.society.deeds()[j]
                        == old(self).society.deeds()[j] by {
                        assert(self.society.deeds()[j] == prior.society.deeds()[j]);
                    }
                    assert(shared_with(*self, companion, at));
                    assert(e[e.len() - 1] == (SortieEvent::SharedOut { at, with: companion }));
                    assert forall|j: int| 0 <= j < i + 1 implies shared_with(*self, (#[trigger] self.parts@[j]).0, at)
                        && self.events@.contains(SortieEvent::SharedOut { at, with: self.parts@[j].0 }) by {
                        if j < i {
                            assert(shared_with(prior, prior.parts@[j].0, at));
                            let w = choose|w: int|
                                0 <= w < prior.society_spec().deeds().len() && {
                                    let d = #[trigger] prior.society_spec().deeds()[w];
                                    &&& d.at == at
                                    &&& d.doer == prior.control_spec().home_spec()
                                    &&& d.toward == Some(prior.parts@[j].0)
                                    &&& d.kind == DeedKind::Shared
                                };
                            assert(self.society_spec().deeds()[w] == prior.society_spec().deeds()[w]);
                            let k = choose|k: int|
                                0 <= k < pe.len() && pe[k] == (SortieEvent::SharedOut { at, with: prior.parts@[j].0 });
                            assert(e[k] == pe[k]);
                        } else {
                            assert(e[e.len() - 1] == (SortieEvent::SharedOut { at, with: self.parts@[j].0 }));
                        }
                    }
                }
                i = i + 1;
            }
            let ghost shared = *self;
            if let Some(outing) = self.outing {
                proof {
                    lemma_room_extend(before_shares.society.deeds(), self.society.deeds(), self.parts@.len() as nat, 1);
                }
                let ended = self.society.end(outing, home_id, EndReason::WorkDone, at);
                proof {
                    if ended is Err {
                        assert(false);
                    }
                    if let Some(p) = self.pact {
                        if self.society.agreements_spec().contains_key(p.under.0) {
                            assert(shared.society.agreements_spec().contains_key(p.under.0));
                        }
                    }
                }
            }
            self.events.push(SortieEvent::Returned { at });
            self.done = true;
            proof {
                let e = self.events@;
                let pe = shared.events@;
                assert(e[0] == pe[0]);
                assert forall|j: int| 0 <= j < e.len() && is_downed_event(#[trigger] e[j]) implies e[j]->Downed_who
                    == self.control.home_spec() by {
                    if j < pe.len() {
                        assert(e[j] == pe[j]);
                    }
                }
                assert forall|j: int| 0 <= j < old(self).events@.len() implies #[trigger] e[j]
                    == old(self).events@[j] by {
                    assert(pe[j] == old(self).events@[j]);
                }
                assert forall|j: int| old(self).events@.len() <= j < e.len() implies !(
                #[trigger] e[j] is PactInvoked) by {
                    if j < pe.len() {
                        assert(e[j] == pe[j]);
                    }
                }
                assert forall|j: int| old(self).events@.len() <= j < e.len() implies  quiet_event(
                #[trigger] e[j]) by {
                    if j < pe.len() {
                        assert(e[j] == pe[j]);
                    }
                }
                lemma_placed(shared, *self);
                assert forall|i: int| 0 <= i < self.parts@.len() implies shared_with(
                    *self,
                    (#[trigger] self.parts@[i]).0,
                    at,
                ) && self.events@.contains(SortieEvent::SharedOut { at, with: self.parts@[i].0 }) by {
                    assert(shared.parts@[i] == self.parts@[i]);
                    assert(shared_with(shared, shared.parts@[i].0, at));
                    let w = choose|w: int|
                        0 <= w < shared.society_spec().deeds().len() && {
                            let d = #[trigger] shared.society_spec().deeds()[w];
                            &&& d.at == at
                            &&& d.doer == shared.control_spec().home_spec()
                            &&& d.toward == Some(shared.parts@[i].0)
                            &&& d.kind == DeedKind::Shared
                        };
                    assert(self.society_spec().deeds()[w] == shared.society_spec().deeds()[w]);
                    let k = choose|k: int|
                        0 <= k < pe.len() && pe[k] == (SortieEvent::SharedOut { at, with: shared.parts@[i].0 });
                    assert(e[k] == pe[k]);
                }
                assert(e[e.len() - 1] == (SortieEvent::Returned { at }));
                assert(returned(*self));
                assert forall|j: int| 0 <= j < old(self).society.deeds().len() implies #[trigger] self.society.deeds()[j]
                    == old(self).society.deeds()[j] by {
                    assert(self.society.deeds()[j] == shared.society.deeds()[j]);
                }
                if old(self).carried_spec() is None && self.carried_spec() is Some {
                    let k = choose|k: int|
                        0 <= k < pe.len() && pe[k] == (SortieEvent::Took { at: Tick(self.tick), what: self.find });
                    assert(e[k] == pe[k]);
                }
            }
        }
        let ghost before_row = *self;
        self.push_trail();
        proof {
            assert forall|j: int| 0 <= j < old(self).trail@.len() implies #[trigger] self.trail@[j]
                == old(self).trail@[j] by {
                assert(before_row.trail@[j] == old(self).trail@[j]);
            }
            lemma_placed(before_row, *self);
            assert forall|i: int| 0 <= i < self.parts@.len() implies #[trigger] turn_taken(*self, i) by {
                assert(turn_taken(*old(self), i));
            }
        }
        Need::Ticked
    }
}

proof fn lemma_grown(b: Sortie, a: Sortie)
    requires
        a == (Sortie { carried: a.carried, events: a.events, progress: a.progress, ..b }),
        grows_from(b.events@, a.events@),
    ensures
        grows_from(b.events@, a.events@),
{
}

/// Exercising agreement `id` for `work` would be performed: the agreement
/// is live, its terms cover the work, its holder is a companion, and the
/// holder finds the work routine.
pub open spec fn performs(s: Society, id: AgreementId, work: Work) -> bool {
    let a = s.agreements_spec()[id.0];
    &&& s.live_error(id) is None
    &&& covers_spec(a.work, a.terms, work)
    &&& s.companions_spec().contains_key(a.holder.0)
    &&& routine_spec(
        s.companions_spec()[a.holder.0].skills@,
        a.asker,
        s.standing_spec(a.holder, a.asker),
        s.deeds(),
        work,
    ).0
}

/// The tending the pact calls for could be done now: the tagged-in healer
/// stands within tending reach of the downed, and exercising the pact's
/// agreement for the tending would be performed.
pub open spec fn tend_due(s: Sortie) -> bool {
    let pos = s.positions_spec();
    &&& s.tagged_in_spec()
    &&& s.downed_spec() is Some
    &&& s.pact_spec() is Some
    &&& in_tend_reach_spec(pos[s.control_spec().played_spec().0], pos[s.downed_spec()->Some_0.0])
    &&& performs(s.society_spec(), s.pact_spec()->Some_0.under, s.tend_spec())
}

/// How a tick leaves the sortie once it is over: the find taken once the
/// home body stands on the site's column, every waypoint of the way home
/// it stands on passed, the sortie over once it has come home, no
/// tending the pact calls for left undone, and every part whose rule calls
/// for a walk walked.
pub open spec fn settled(s: Sortie) -> bool {
    let leader = s.positions_spec()[s.control_spec().home_spec().0];
    &&& (s.carried_spec() is None ==> !arrived_spec(leader, xz(s.site_spec())))
    &&& (s.carried_spec() is Some && s.way_index_spec() + 1 < s.way_spec().len() ==> !arrived_spec(
        leader,
        s.way_spec()[s.way_index_spec()],
    ))
    &&& (s.carried_spec() is Some && !s.tagged_in_spec() && s.downed_spec() is None && s.way_index_spec() + 1
        == s.way_spec().len() && arrived_spec(leader, xz(s.home_spec())) ==> s.done_spec())
    &&& !tend_due(s)
    &&& forall|j: int| 0 <= j < s.parts_spec().len() ==> #[trigger] turn_taken(s, j)
}

/// The step asked goes toward the goal: the direct column, or one of the
/// two a quarter turn either side of it.
pub open spec fn toward_column(from: [i32; 3], to: [i32; 3], goal: [i32; 2]) -> bool {
    let h = heading_spec(from, goal);
    ||| to == shifted(from, h)
    ||| to == shifted(from, side_spec(h, 1))
    ||| to == shifted(from, side_spec(h, -1))
}

/// The played body has stalled: on its own feet and in its own body, it
/// has come no closer to the leg's goal than its best for [`STUCK`] turns.
pub open spec fn stalled(s: Sortie) -> bool {
    let played = s.control_spec().played_spec();
    &&& !s.tagged_in_spec()
    &&& s.downed_spec() != Some(played)
    &&& s.progress_spec().1 >= STUCK
    &&& distance_spec(s.positions_spec()[played.0], s.goal_spec()) >= s.progress_spec().0
}

/// The played body's turn calls for a step toward the leg's goal: it is on
/// its own feet and in its own body, has not stalled, and does not yet
/// stand on the goal's column.
pub open spec fn played_walk_due(s: Sortie) -> bool {
    let played = s.control_spec().played_spec();
    &&& !s.tagged_in_spec()
    &&& s.downed_spec() != Some(played)
    &&& !stalled(s)
    &&& !arrived_spec(s.positions_spec()[played.0], s.goal_spec())
}

/// The tagged-in successor's turn calls for a step toward the downed: it
/// stands out of tending reach and off the downed's column.
pub open spec fn rescue_walk_due(s: Sortie) -> bool {
    let pos = s.positions_spec();
    let played = s.control_spec().played_spec();
    &&& s.tagged_in_spec()
    &&& s.downed_spec() is Some
    &&& !in_tend_reach_spec(pos[played.0], pos[s.downed_spec()->Some_0.0])
    &&& !arrived_spec(pos[played.0], xz(pos[s.downed_spec()->Some_0.0]))
}

/// The pact fires this tick and its successor, another than the home body,
/// stands out of tending reach of the downed home body and off its column.
pub open spec fn pact_rescue_due(s: Sortie) -> bool {
    let pos = s.positions_spec();
    let home = s.control_spec().home_spec();
    let successor = s.pact_spec()->Some_0.successor;
    &&& pact_may_fire(s)
    &&& successor != home
    &&& !in_tend_reach_spec(pos[successor.0], pos[home.0])
    &&& !arrived_spec(pos[successor.0], xz(pos[home.0]))
}

/// What a tick asks of the terrain, and where it stands after asking: a
/// step one column over at the walker's own height, toward the goal the
/// walker's rule calls for; the played body's dig at head height one
/// column toward the leg's goal; or nothing, the tick over and the sortie
/// [`settled`].
pub open spec fn asks(s: Sortie, need: Need) -> bool {
    match need {
        Need::Step { from, to } => {
            &&& s.walker() is Some
            &&& s.positions_spec()[s.walker()->Some_0.0] == from
            &&& s.walk_rule()
            &&& toward_column(from, to, s.walk_goal())
            &&& to[1] == from[1]
            &&& apart_spec(from, to) == 1
        },
        Need::Carve { at, radius } => {
            let p = s.positions_spec()[s.control_spec().played_spec().0];
            let h = heading_spec(p, s.goal_spec());
            &&& s.stage_spec() == Stage::Digging
            &&& s.walk_rule()
            &&& radius == 1
            &&& at == [(p[0] + h.0) as i32, (p[1] + 2) as i32, (p[2] + h.1) as i32]
            &&& at[1] == p[1] + 2
            &&& apart_spec(at, p) <= 1
        },
        Need::Ticked => s.stage_spec() == Stage::Idle && settled(s),
        Need::Halted => s.stage_spec() == Stage::Idle,
    }
}

proof fn lemma_unit_step(at: [i32; 3], h: (int, int))
    requires
        on_map(at),
        -1 <= h.0 <= 1,
        -1 <= h.1 <= 1,
        h != (0int, 0int),
    ensures
        crate::sortie::march::shifted(at, h)[1] == at[1],
        apart_spec(at, crate::sortie::march::shifted(at, h)) == 1,
{
}

impl Sortie {
    /// Starts someone's walk toward `goal`: the step it asks, or nothing
    /// when they already stand on the goal column.
    fn begin_walk(&mut self, subject: SubjectId, goal: [i32; 2], after: After) -> (asked: Option<Need>)
        requires
            old(self).wf(),
            old(self).stage == Stage::Idle,
            !old(self).done,
            old(self).positions.view().contains_key(subject.0),
            old(self).walks(subject.0),
            goal_on_map(goal),
            after matches After::Companion(j) ==> j < old(self).parts@.len() && old(self).parts@[j as int].0 == subject,
            after is Played || after is Rescue ==> subject == old(self).control.played_spec(),
            after is Played ==> old(self).progress.1 < STUCK,
            old(self).walk_called_for(subject, goal, after),
            after is Companion ==> !tend_due(*old(self)),
            after matches After::Companion(j) ==> {
                &&& old(self).walked_spec().contains(subject.0)
                &&& forall|k: int| 0 <= k < j ==> #[trigger] turn_taken(*old(self), k)
            },
        ensures
            final(self).wf(),
            frame(*old(self), *final(self)),
            no_pact(*old(self), *final(self)),
            no_wound(*old(self), *final(self)),
            !final(self).done,
            final(self).society == old(self).society,
            final(self).tend == old(self).tend,
            final(self).progress == old(self).progress,
            final(self).anchor == old(self).anchor,
            final(self).leg_goal == old(self).leg_goal,
            final(self).walked == old(self).walked,
            final(self).downed == old(self).downed,
            final(self).control == old(self).control,
            final(self).tick == old(self).tick,
            final(self).carried == old(self).carried,
            final(self).way_index == old(self).way_index,
            final(self).trail == old(self).trail,
            final(self).positions.view() == old(self).positions.view(),
            match asked {
                Some(need) => need is Step && asks(*final(self), need) && final(self).walker() == Some(subject),
                None => final(self).stage == Stage::Idle,
            },
            (asked is Some) == !arrived_spec(old(self).positions_spec()[subject.0], goal),
            tend_law(*old(self), *final(self)),
    {
        let shoulder: i8 = match self.shoulders.get(subject.0) {
            Some(s) => *s,
            None => 0,
        };
        let from = self.pos(subject);
        let (walk, stride) = Toward::begin(from, goal, shoulder);
        match stride {
            Stride::Ask(to) => {
                self.stage = Stage::Walking { walker: subject, walk, after, goal };
                proof {
                    assert forall|k: int| 0 <= k < self.parts@.len() && turn_taken(*old(self), k) implies #[trigger] turn_taken(*self, k) by {}
                    lemma_unit_step(from, crate::sortie::march::heading_spec(from, goal));
                    lemma_placed(*old(self), *self);
                    lemma_frame_quiet(*old(self), *self);
                }
                Some(Need::Step { from, to })
            },
            Stride::Stop { at, shoulder } => {
                self.finish_walk(subject, from, at, shoulder);
                None
            },
        }
    }

    /// The companions' turn, from the part at index `k` on, in part order.
    /// A companion with no part stands where they stand: nothing here can
    /// move them.
    fn companions_from(&mut self, k: usize) -> (need: Need)
        requires
            old(self).wf(),
            old(self).stage == Stage::Idle,
            !old(self).done,
            k <= old(self).parts@.len(),
            fold_room(old(self).society.deeds(), (old(self).parts@.len() + 1) as nat),
            !tend_due(*old(self)),
            forall|i: int| 0 <= i < k ==> #[trigger] turn_taken(*old(self), i),
        ensures
            final(self).wf(),
            frame(*old(self), *final(self)),
            no_pact(*old(self), *final(self)),
            no_wound(*old(self), *final(self)),
            asks(*final(self), need),
            need is Step || need is Ticked,
            final(self).tick == old(self).tick,
            log_grows_by_at_most(*old(self), *final(self), old(self).parts@.len() + 1),
            return_law(*old(self), *final(self)),
            took_law(*old(self), *final(self)),
            final(self).positions_spec() == old(self).positions_spec(),
            tend_law(*old(self), *final(self)),
            trail_law(*old(self), *final(self), need),
    {
        let mut j: usize = k;
        loop
            invariant
                self.wf(),
                self.stage == Stage::Idle,
                !self.done,
                k <= j <= self.parts@.len(),
                frame(*old(self), *self),
                no_pact(*old(self), *self),
                no_wound(*old(self), *self),
                self.society == old(self).society,
                self.tick == old(self).tick,
                self.carried == old(self).carried,
                self.positions_spec() == old(self).positions_spec(),
                tend_law(*old(self), *self),
                fold_room(self.society.deeds(), (self.parts@.len() + 1) as nat),
                !tend_due(*self),
                self.trail == old(self).trail,
                forall|i: int| 0 <= i < j ==> #[trigger] turn_taken(*self, i),
                self.control == old(self).control,
                self.downed == old(self).downed,
                self.anchor == old(self).anchor,
                self.leg_goal == old(self).leg_goal,
            ensures
                forall|i: int| 0 <= i < self.parts@.len() ==> #[trigger] turn_taken(*self, i),
            decreases self.parts@.len() - j,
        {
            if j >= self.parts.len() {
                break;
            }
            let ghost start = *self;
            let (subject, part) = self.parts[j];
            let played = self.control.played();
            proof {
                assert(self.parts_spec()[j as int] == self.parts@[j as int]);
                assert(names_in_parts(self.parts_spec(), subject.0));
            }
            let stays = subject == played || match self.downed {
                Some(d) => d == subject,
                None => false,
            };
            if !stays {
                let at = self.pos(subject);
                let target: Option<[i32; 2]> = match part {
                    Part::Scout { .. } => {
                        let mine = distance_to(at, self.leg_goal);
                        let theirs = distance_to(self.anchor, self.leg_goal);
                        if mine + LEAD > theirs && !arrived(at, self.leg_goal) {
                            Some(self.leg_goal)
                        } else {
                            None
                        }
                    },
                    Part::Healer { .. } => match self.downed {
                        Some(down) => if !self.in_tend_reach(subject, down) {
                            let fallen = self.pos(down);
                            Some([fallen[0], fallen[2]])
                        } else {
                            None
                        },
                        None => if apart(at, self.anchor) > TRAIL {
                            Some([self.anchor[0], self.anchor[2]])
                        } else {
                            None
                        },
                    },
                };
                if let Some(goal) = target {
                    let ghost unmarked = *self;
                    self.walked = Ghost(self.walked@.insert(subject.0));
                    proof {
                        assert forall|i: int| 0 <= i < j implies #[trigger] turn_taken(*self, i) by {
                            assert(turn_taken(unmarked, i));
                        }
                        lemma_placed(unmarked, *self);
                        lemma_frame_quiet(unmarked, *self);
                        lemma_frame_trans(*old(self), unmarked, *self);
                    }
                    let ghost before = *self;
                    match self.begin_walk(subject, goal, After::Companion(j)) {
                        Some(need) => {
                            proof {
                                lemma_frame_trans(*old(self), before, *self);
                                lemma_no_pact_trans(*old(self), before, *self);
                                lemma_tend_law_trans(*old(self), before, *self);
                            }
                            return need;
                        },
                        None => {
                            proof {
                                lemma_frame_trans(*old(self), before, *self);
                                lemma_no_pact_trans(*old(self), before, *self);
                                lemma_tend_law_trans(*old(self), before, *self);
                            }
                        },
                    }
                }
            }
            proof {
                assert forall|i: int| 0 <= i < j + 1 implies #[trigger] turn_taken(*self, i) by {
                    if i < j {
                        assert(turn_taken(start, i));
                        if start.walked_spec().contains(start.parts_spec()[i].0.0) {
                            assert(self.walked_spec().contains(self.parts_spec()[i].0.0));
                        }
                    } else {
                        assert(self.parts_spec()[i] == (subject, part));
                    }
                }
            }
            j = j + 1;
        }
        let ghost before = *self;
        let need = self.finale();
        proof {
            lemma_frame_trans(*old(self), before, *self);
            lemma_no_pact_trans(*old(self), before, *self);
            lemma_tend_law_trans(*old(self), before, *self);
        }
        need
    }

    /// After the played body's move: tending, then the companions.
    fn after_played(&mut self) -> (need: Need)
        requires
            old(self).wf(),
            old(self).stage == Stage::Idle,
            !old(self).done,
            fold_room(old(self).society.deeds(), (old(self).parts@.len() + 3) as nat),
        ensures
            final(self).wf(),
            frame(*old(self), *final(self)),
            no_pact(*old(self), *final(self)),
            no_wound(*old(self), *final(self)),
            asks(*final(self), need),
            need is Step || need is Ticked,
            final(self).tick == old(self).tick,
            log_grows_by_at_most(*old(self), *final(self), old(self).parts@.len() + 3),
            return_law(*old(self), *final(self)),
            took_law(*old(self), *final(self)),
            final(self).positions_spec() == old(self).positions_spec(),
            tend_law(*old(self), *final(self)),
            trail_law(*old(self), *final(self), need),
    {
        self.tending();
        let ghost tended = *self;
        let anchor = self.pos(self.control.home());
        let goal = self.goal();
        self.anchor = anchor;
        self.leg_goal = goal;
        self.walked = Ghost(Set::empty());
        proof {
            lemma_placed(tended, *self);
            lemma_frame_trans(*old(self), tended, *self);
            lemma_no_pact_trans(*old(self), tended, *self);
            lemma_tend_law_trans(*old(self), tended, *self);
            lemma_room_extend(old(self).society.deeds(), self.society.deeds(), 2, (self.parts@.len() + 1) as nat);
        }
        let ghost before = *self;
        let need = self.companions_from(0);
        proof {
            lemma_frame_trans(*old(self), before, *self);
            lemma_no_pact_trans(*old(self), before, *self);
            lemma_tend_law_trans(*old(self), before, *self);
        }
        need
    }

    /// What follows a walk once it ends.
    fn continue_after(&mut self, after: After) -> (need: Need)
        requires
            old(self).wf(),
            old(self).stage == Stage::Idle,
            !old(self).done,
            fold_room(old(self).society.deeds(), (old(self).parts@.len() + 3) as nat),
            after matches After::Companion(j) ==> j < old(self).parts@.len(),
            after is Played ==> old(self).progress.1 < STUCK,
            after is Companion ==> !tend_due(*old(self)),
            after matches After::Companion(j) ==> forall|k: int| 0 <= k <= j ==> #[trigger] turn_taken(*old(self), k),
        ensures
            final(self).wf(),
            frame(*old(self), *final(self)),
            no_pact(*old(self), *final(self)),
            no_wound(*old(self), *final(self)),
            asks(*final(self), need),
            need is Step || need is Ticked,
            final(self).tick == old(self).tick,
            log_grows_by_at_most(*old(self), *final(self), old(self).parts@.len() + 3),
            return_law(*old(self), *final(self)),
            took_law(*old(self), *final(self)),
            final(self).positions_spec() == old(self).positions_spec(),
            tend_law(*old(self), *final(self)),
            trail_law(*old(self), *final(self), need),
    {
        match after {
            After::Played => {
                let played = self.control.played();
                let goal = self.goal();
                let d = distance_to(self.pos(played), goal);
                if d < self.progress.0 {
                    self.progress = (d, 0);
                } else {
                    self.progress = (self.progress.0, self.progress.1 + 1);
                }
                proof {
                    lemma_placed(*old(self), *self);
                }
                let ghost before = *self;
                let need = self.after_played();
                proof {
                    lemma_frame_trans(*old(self), before, *self);
                    lemma_no_pact_trans(*old(self), before, *self);
                    lemma_tend_law_trans(*old(self), before, *self);
                }
                need
            },
            After::Rescue => self.after_played(),
            After::Companion(j) => {
                proof {
                    assert(j < self.parts.len());
                }
                self.companions_from(j + 1)
            },
        }
    }
}

/// Changing only how the tick stands, never who stands where or what
/// happened, keeps the frame.
proof fn lemma_frame_quiet(b: Sortie, a: Sortie)
    requires
        a == (Sortie {
            shoulders: a.shoulders,
            stage: a.stage,
            anchor: a.anchor,
            leg_goal: a.leg_goal,
            walked: a.walked,
            progress: a.progress,
            way_index: a.way_index,
            tick: a.tick,
            ..b
        }),
    ensures
        frame(b, a),
        no_pact(b, a),
        no_wound(b, a),
{
}

/// Every pact invocation a step of the sortie recorded happened while the
/// pact could fire: the played body was the downed home body, nobody was
/// tagged in, and the pact's agreement stood.
pub open spec fn pact_law(b: Sortie, a: Sortie) -> bool {
    forall|i: int|
        b.events_spec().len() <= i < a.events_spec().len() && (#[trigger] a.events_spec()[i] is PactInvoked)
            ==> pact_may_fire(b)
}

/// The trail gains one row when a tick is over, the positions as it ended,
/// and no row before.
pub open spec fn trail_law(b: Sortie, a: Sortie, need: Need) -> bool {
    &&& a.trail_spec().len() == b.trail_spec().len() + if need is Ticked {
        1int
    } else {
        0int
    }
    &&& need is Ticked ==> a.trail_spec().last()@ == a.row_spec()
}

/// How far a tick can add to the society's log: the tending's two deeds,
/// a share per part, and the ending.
pub open spec fn log_grows_by_at_most(b: Sortie, a: Sortie, n: nat) -> bool {
    b.society_spec().deeds().len() <= a.society_spec().deeds().len() <= b.society_spec().deeds().len() + n
}

impl Sortie {
    /// The played body's turn: toward the leg's goal, digging when it has
    /// made no progress for a while, or toward the downed while tagged in.
    fn played_turn(&mut self) -> (need: Need)
        requires
            old(self).wf(),
            old(self).stage == Stage::Idle,
            !old(self).done,
            fold_room(old(self).society.deeds(), (old(self).parts@.len() + 3) as nat),
        ensures
            final(self).wf(),
            frame(*old(self), *final(self)),
            no_pact(*old(self), *final(self)),
            no_wound(*old(self), *final(self)),
            asks(*final(self), need),
            need !is Halted,
            (need is Carve) == stalled(*old(self)),
            played_walk_due(*old(self)) || rescue_walk_due(*old(self)) ==> need is Step && final(self).walker()
                == Some(old(self).control_spec().played_spec()),
            final(self).tick == old(self).tick,
            log_grows_by_at_most(*old(self), *final(self), old(self).parts@.len() + 3),
            return_law(*old(self), *final(self)),
            took_law(*old(self), *final(self)),
            final(self).positions_spec() == old(self).positions_spec(),
            tend_law(*old(self), *final(self)),
            trail_law(*old(self), *final(self), need),
    {
        let played = self.control.played();
        let is_down = match self.downed {
            Some(d) => d == played,
            None => false,
        };
        if is_down {
            return self.after_played();
        }
        if self.control.tagged_in() {
            let down = match self.downed {
                Some(d) => d,
                None => return self.after_played(),
            };
            if self.in_tend_reach(played, down) {
                return self.after_played();
            }
            let at = self.pos(down);
            let ghost before = *self;
            match self.begin_walk(played, [at[0], at[2]], After::Rescue) {
                Some(need) => return need,
                None => {
                    let ghost walked = *self;
                    let need = self.after_played();
                    proof {
                        lemma_frame_trans(*old(self), before, *self);
                        lemma_no_pact_trans(*old(self), before, *self);
                        lemma_tend_law_trans(before, walked, *self);
                        lemma_tend_law_trans(*old(self), before, *self);
                    }
                    return need;
                },
            }
        }
        let goal = self.goal();
        let from = self.pos(played);
        let before = distance_to(from, goal);
        if before < self.progress.0 {
            self.progress = (before, 0);
        }
        if self.progress.1 >= STUCK {
            self.progress = (self.progress.0, 0);
            self.stage = Stage::Digging;
            let h = crate::sortie::march::heading(from, goal);
            let at: [i32; 3] = [from[0] + h[0], from[1] + 2, from[2] + h[1]];
            proof {
                lemma_placed(*old(self), *self);
                lemma_frame_quiet(*old(self), *self);
            }
            return Need::Carve { at, radius: 1 };
        }
        proof {
            lemma_placed(*old(self), *self);
            lemma_frame_quiet(*old(self), *self);
        }
        let ghost counted = *self;
        match self.begin_walk(played, goal, After::Played) {
            Some(need) => {
                proof {
                    lemma_frame_trans(*old(self), counted, *self);
                    lemma_no_pact_trans(*old(self), counted, *self);
                    lemma_tend_law_trans(*old(self), counted, *self);
                }
                need
            },
            None => {
                let ghost walked = *self;
                let need = self.continue_after(After::Played);
                proof {
                    lemma_frame_trans(*old(self), counted, walked);
                    lemma_no_pact_trans(*old(self), counted, walked);
                    lemma_tend_law_trans(*old(self), counted, walked);
                    lemma_frame_trans(*old(self), walked, *self);
                    lemma_no_pact_trans(*old(self), walked, *self);
                    lemma_tend_law_trans(*old(self), walked, *self);
                }
                need
            },
        }
    }

    /// The pact watches for the played body going down. It fires only
    /// while its agreement stands, and only while nobody is tagged in.
    fn watch_pact(&mut self)
        requires
            old(self).wf(),
            old(self).stage == Stage::Idle,
            !old(self).done,
        ensures
            final(self).wf(),
            frame(*old(self), *final(self)),
            no_wound(*old(self), *final(self)),
            pact_law(*old(self), *final(self)),
            final(self).stage == Stage::Idle,
            !final(self).done,
            final(self).tick == old(self).tick,
            final(self).society == old(self).society,
            final(self).carried == old(self).carried,
            final(self).positions_spec() == old(self).positions_spec(),
            !pact_may_fire(*old(self)) ==> *final(self) == *old(self),
            final(self).downed == old(self).downed,
            final(self).trail == old(self).trail,
            pact_may_fire(*old(self)) ==> {
                let p = old(self).pact_spec()->Some_0;
                &&& final(self).events_spec() == old(self).events_spec().push(
                    SortieEvent::PactInvoked { at: Tick(old(self).tick_spec()), under: p.under },
                ).push(SortieEvent::TaggedIn { at: Tick(old(self).tick_spec()), to: p.successor })
                &&& final(self).control_spec().played_spec() == p.successor
            },
            tend_law(*old(self), *final(self)),
    {
        let pact = match self.pact {
            Some(p) => p,
            None => {
                proof {
                    lemma_frame_same(*old(self), *self);
                }
                return;
            },
        };
        let fires = match self.downed {
            Some(down) => !self.control.tagged_in() && down == self.control.played() && match self.society.agreement(
                pact.under,
            ) {
                Some(agreement) => agreement.standing(),
                None => false,
            },
            None => false,
        };
        if !fires {
            proof {
                lemma_frame_same(*old(self), *self);
            }
            return;
        }
        let at = Tick(self.tick);
        self.events.push(SortieEvent::PactInvoked { at, under: pact.under });
        let tagged = self.control.apply(ControlIntent::TagIn { to: pact.successor, at });
        self.events.push(SortieEvent::TaggedIn { at, to: pact.successor });
        proof {
            let e = self.events@;
            let oe = old(self).events@;
            assert(e[0] == oe[0]);
            assert forall|i: int| 0 <= i < e.len() && is_downed_event(#[trigger] e[i]) implies e[i]->Downed_who
                == self.control.home_spec() by {
                if i < oe.len() {
                    assert(e[i] == oe[i]);
                }
            }
            assert forall|i: int| 0 <= i < oe.len() implies #[trigger] e[i] == oe[i] by {}
            lemma_placed(*old(self), *self);
        }
    }

    /// One tick of the march. The only input is time passing: the played
    /// body walks toward the leg's goal, companions walk by their parts,
    /// and the standing rules do the rest. What the tick needs from the
    /// terrain comes back as a [`Need`]; `Halted` when the sortie is home or
    /// out of time, and then nothing changes.
    pub fn advance(&mut self) -> (need: Need)
        requires
            old(self).wf(),
            old(self).stage_spec() == Stage::Idle,
            old(self).room_for_deeds(),
        ensures
            final(self).wf(),
            (old(self).done_spec() || old(self).tick_spec() - old(self).departed_at() >= MAX_TICKS) ==> need
                == Need::Halted && *final(self) == *old(self),
            !(old(self).done_spec() || old(self).tick_spec() - old(self).departed_at() >= MAX_TICKS) ==> {
                &&& need !is Halted
                &&& final(self).tick_spec() == old(self).tick_spec() + 1
            },
            frame(*old(self), *final(self)),
            pact_law(*old(self), *final(self)),
            no_wound(*old(self), *final(self)),
            asks(*final(self), need),
            log_grows_by_at_most(*old(self), *final(self), old(self).parts_spec().len() + 3),
            return_law(*old(self), *final(self)),
            took_law(*old(self), *final(self)),
            final(self).positions_spec() == old(self).positions_spec(),
            !(old(self).done_spec() || old(self).tick_spec() - old(self).departed_at() >= MAX_TICKS) && pact_may_fire(
                *old(self),
            ) ==> final(self).events_spec().contains(
                SortieEvent::PactInvoked { at: Tick((old(self).tick_spec() + 1) as u64), under: old(self).pact_spec()->Some_0.under },
            ),
            tend_law(*old(self), *final(self)),
            trail_law(*old(self), *final(self), need),
            !(old(self).done_spec() || old(self).tick_spec() - old(self).departed_at() >= MAX_TICKS) ==> ((need is Carve)
                == stalled(*old(self))),
            !(old(self).done_spec() || old(self).tick_spec() - old(self).departed_at() >= MAX_TICKS) && !pact_may_fire(
                *old(self),
            ) && (played_walk_due(*old(self)) || rescue_walk_due(*old(self))) ==> need is Step && final(self).walker()
                == Some(old(self).control_spec().played_spec()),
            !(old(self).done_spec() || old(self).tick_spec() - old(self).departed_at() >= MAX_TICKS) && pact_rescue_due(
                *old(self),
            ) ==> need is Step && final(self).walker() == Some(old(self).pact_spec()->Some_0.successor),
    {
        let first = match self.events[0] {
            SortieEvent::Departed { at } => at.0,
            _ => 0,
        };
        if self.done || self.tick - first >= MAX_TICKS {
            proof {
                lemma_frame_same(*old(self), *self);
            }
            return Need::Halted;
        }
        self.tick = self.tick + 1;
        proof {
            lemma_placed(*old(self), *self);
            lemma_frame_quiet(*old(self), *self);
        }
        let ghost ticked = *self;
        self.watch_pact();
        let ghost watched = *self;
        let need = self.played_turn();
        proof {
            assert(ticked.trail_spec() == old(self).trail_spec());
            assert(watched.trail_spec() == ticked.trail_spec());
            assert(stalled(ticked) == stalled(*old(self)));
            assert(played_walk_due(ticked) == played_walk_due(*old(self)));
            assert(rescue_walk_due(ticked) == rescue_walk_due(*old(self)));
            if pact_may_fire(ticked) {
                assert(!stalled(watched));
                if pact_rescue_due(*old(self)) {
                    assert(rescue_walk_due(watched));
                }
            } else {
                assert(watched == ticked);
            }
            if pact_may_fire(*old(self)) {
                assert(pact_may_fire(ticked));
                let k = (ticked.events_spec().len()) as int;
                assert(watched.events_spec()[k] == (SortieEvent::PactInvoked {
                    at: Tick(ticked.tick_spec()),
                    under: ticked.pact_spec()->Some_0.under,
                }));
                assert(self.events_spec()[k] == watched.events_spec()[k]);
            }
            lemma_frame_trans(*old(self), ticked, watched);
            lemma_tend_law_trans(*old(self), ticked, watched);
            lemma_frame_trans(*old(self), watched, *self);
            lemma_tend_law_trans(*old(self), watched, *self);
            assert forall|i: int|
                old(self).events_spec().len() <= i < self.events_spec().len() && (
                #[trigger] self.events_spec()[i] is PactInvoked) implies pact_may_fire(*old(self)) by {
                if i < watched.events_spec().len() {
                    assert(self.events_spec()[i] == watched.events_spec()[i]);
                    assert(pact_may_fire(ticked));
                }
            }
        }
        need
    }
}

impl Sortie {
    /// Hands back where the terrain landed the step asked of it. The walk
    /// goes on with its next step, or ends there: the body moved, a fall
    /// past comfort wounds whoever took it, and the tick goes on.
    pub fn stepped(&mut self, landed: [i32; 3]) -> (need: Need)
        requires
            old(self).wf(),
            old(self).walker() is Some,
            on_map(landed),
            body_has_room(old(self).facets_spec(), old(self).walker()->Some_0),
            old(self).room_for_deeds(),
        ensures
            final(self).wf(),
            frame(*old(self), *final(self)),
            no_pact(*old(self), *final(self)),
            wound_law(*old(self), *final(self)),
            answered(*old(self), *final(self), landed, need),
            falls_name(*old(self), *final(self), old(self).walker()->Some_0),
            asks(*final(self), need),
            need !is Halted,
            final(self).tick_spec() == old(self).tick_spec(),
            log_grows_by_at_most(*old(self), *final(self), old(self).parts_spec().len() + 3),
            return_law(*old(self), *final(self)),
            took_law(*old(self), *final(self)),
            forall|k: u64| #[trigger] old(self).positions_spec().contains_key(k) ==> final(self).positions_spec()[k] == old(self).positions_spec()[k] || (old(self).walker() == Some(SubjectId(k)) && final(self).positions_spec()[k] == landed),
            tend_law(*old(self), *final(self)),
            trail_law(*old(self), *final(self), need),
    {
        let (walker, walk, after, goal) = match self.stage {
            Stage::Walking { walker, walk, after, goal } => (walker, walk, after, goal),
            _ => return Need::Ticked,
        };
        let mut walk = walk;
        let stride = walk.answer(landed);
        match stride {
            Stride::Ask(to) => {
                self.stage = Stage::Walking { walker, walk, after, goal };
                proof {
                    let h = crate::sortie::march::h_of(walk);
                    let side = crate::sortie::march::side_spec(h, if walk.asked == 2 {
                        walk.first as int
                    } else {
                        -walk.first
                    });
                    lemma_unit_step(walk.from, side);
                    lemma_placed(*old(self), *self);
                    lemma_frame_quiet(*old(self), *self);
                    assert forall|k: int| 0 <= k < self.parts@.len() && turn_taken(*old(self), k) implies #[trigger] turn_taken(*self, k) by {}
                }
                Need::Step { from: walk.from, to }
            },
            Stride::Stop { at, shoulder } => {
                self.stage = Stage::Idle;
                proof {
                    lemma_placed(*old(self), *self);
                    lemma_frame_quiet(*old(self), *self);
                    if let After::Companion(j) = after {
                        assert(self.parts_spec()[j as int] == self.parts@[j as int]);
                        assert(names_in_parts(self.parts_spec(), walker.0));
                    }
                }
                let ghost idle = *self;
                self.finish_walk(walker, walk.from, at, shoulder);
                let ghost walked = *self;
                proof {
                    if let After::Companion(j) = after {
                        assert forall|k: int| 0 <= k <= j implies #[trigger] turn_taken(walked, k) by {
                            if walked.parts_spec()[k].0 != walker {
                                if k < j {
                                    assert(turn_taken(*old(self), k));
                                }
                                assert(walked.positions_spec()[walked.parts_spec()[k].0.0] == old(self).positions_spec()[old(self).parts_spec()[k].0.0]);
                            }
                        }
                    }
                }
                let need = self.continue_after(after);
                proof {
                    lemma_frame_trans(*old(self), idle, walked);
                    lemma_no_pact_trans(*old(self), idle, walked);
                    lemma_tend_law_trans(*old(self), idle, walked);
                    lemma_frame_trans(*old(self), walked, *self);
                    lemma_no_pact_trans(*old(self), walked, *self);
                    lemma_tend_law_trans(*old(self), walked, *self);
                    lemma_wound_law_trans(*old(self), walked, *self);
                    let t = Tick(old(self).tick_spec());
                    let down = SortieEvent::Downed { who: walker, at: t };
                    if walked.events_spec().contains(down) {
                        let k = choose|k: int| 0 <= k < walked.events_spec().len() && walked.events_spec()[k] == down;
                        assert(self.events_spec()[k] == walked.events_spec()[k]);
                    }
                    let fall = SortieEvent::Fell { who: walker, at: t, dropped: (walk.from[1] - at[1]) as i32 };
                    if walked.events_spec().contains(fall) {
                        let k = choose|k: int| 0 <= k < walked.events_spec().len() && walked.events_spec()[k] == fall;
                        assert(self.events_spec()[k] == walked.events_spec()[k]);
                    }
                }
                need
            },
        }
    }

    /// Hands back how many voxels the played body's dig hewed out. They
    /// come home with the party; the tick goes on.
    pub fn carved(&mut self, removed: u32) -> (need: Need)
        requires
            old(self).wf(),
            old(self).stage_spec() == Stage::Digging,
            old(self).hewn_spec() + removed <= u32::MAX,
            old(self).room_for_deeds(),
        ensures
            final(self).wf(),
            frame(*old(self), *final(self)),
            no_pact(*old(self), *final(self)),
            no_wound(*old(self), *final(self)),
            asks(*final(self), need),
            need !is Halted,
            final(self).tick_spec() == old(self).tick_spec(),
            log_grows_by_at_most(*old(self), *final(self), old(self).parts_spec().len() + 3),
            grows_from(
                old(self).events_spec().push(SortieEvent::Dug { at: Tick(old(self).tick_spec()), removed }),
                final(self).events_spec(),
            ) || removed == 0,
            return_law(*old(self), *final(self)),
            took_law(*old(self), *final(self)),
            final(self).positions_spec() == old(self).positions_spec(),
            tend_law(*old(self), *final(self)),
            trail_law(*old(self), *final(self), need),
    {
        self.stage = Stage::Idle;
        if removed > 0 {
            self.hewn = self.hewn + removed;
            self.events.push(SortieEvent::Dug { at: Tick(self.tick), removed });
        }
        proof {
            let e = self.events@;
            let oe = old(self).events@;
            assert(e[0] == oe[0]);
            assert forall|i: int| 0 <= i < e.len() && is_downed_event(#[trigger] e[i]) implies e[i]->Downed_who
                == self.control.home_spec() by {
                if i < oe.len() {
                    assert(e[i] == oe[i]);
                }
            }
            assert forall|i: int| 0 <= i < oe.len() implies #[trigger] e[i] == oe[i] by {}
            lemma_placed(*old(self), *self);
        }
        let ghost dug = *self;
        let need = self.after_played();
        proof {
            lemma_frame_trans(*old(self), dug, *self);
            lemma_no_pact_trans(*old(self), dug, *self);
            lemma_tend_law_trans(*old(self), dug, *self);
            if removed > 0 {
                assert forall|i: int| 0 <= i < dug.events@.len() implies #[trigger] self.events@[i]
                    == dug.events@[i] by {}
            }
        }
        need
    }
}

} // verus!
