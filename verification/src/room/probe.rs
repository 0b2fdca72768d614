//! The played body, and the discipline that makes a run repeatable.
//!
//! A tick is one heading from a fixed trace, asked of the terrain as one
//! step; nothing else moves. The probe keeps the position log because the
//! log, not the final position, is what a replay has to match.
//!
//! A save names its world by seed and carries a hash of the ground it was
//! taken from, so resuming into a world that regrew differently is a
//! reported failure rather than a silently divergent replay.

use vstd::prelude::*;

use crate::room::room::{room_ok, Room, RoomError};

verus! {

/// How long a full run is: eight runs of eight headings. The trace is
/// played once, not looped.
pub const TICKS: usize = 64;

/// The heading of tick `i`, in x and z: the four cardinals, then the four
/// diagonals, eight ticks each. Each run is longer than the room is wide,
/// so every leg ends pressed against a wall.
pub open spec fn trace_spec(i: int) -> [i32; 2] {
    let run = i / 8;
    if run == 0 {
        [1i32, 0i32]
    } else if run == 1 {
        [0i32, 1i32]
    } else if run == 2 {
        [-1i32, 0i32]
    } else if run == 3 {
        [0i32, -1i32]
    } else if run == 4 {
        [1i32, 1i32]
    } else if run == 5 {
        [-1i32, -1i32]
    } else if run == 6 {
        [-1i32, 1i32]
    } else {
        [1i32, -1i32]
    }
}

/// The heading of tick `i`.
pub fn trace_at(i: usize) -> (heading: [i32; 2])
    requires
        i < TICKS,
    ensures
        heading == trace_spec(i as int),
{
    let run = i / 8;
    let h: [i32; 2] = if run == 0 {
        [1, 0]
    } else if run == 1 {
        [0, 1]
    } else if run == 2 {
        [-1, 0]
    } else if run == 3 {
        [0, -1]
    } else if run == 4 {
        [1, 1]
    } else if run == 5 {
        [-1, -1]
    } else if run == 6 {
        [-1, 1]
    } else {
        [1, -1]
    };
    proof {
        assert(h =~= trace_spec(i as int));
    }
    h
}

/// A probe run, captured whole.
#[derive(Clone, Debug, PartialEq, Eq)]
pub struct Save {
    pub seed: u64,
    /// A hash of the encoded ground, so a resume can prove it is standing
    /// in the world the save was taken from.
    pub ground_hash: u64,
    pub tick: usize,
    pub at: [i32; 3],
    pub log: Vec<[i32; 3]>,
}

#[derive(Clone, Copy, Debug, PartialEq, Eq, Structural)]
pub enum ProbeError {
    Room(RoomError),
    /// The save's world does not regrow to the ground it was taken from.
    GroundDiverged,
    Encode,
    Decode,
}

/// One body in one room, driven by the trace.
#[derive(Clone, Debug)]
pub struct Probe {
    room: Room,
    tick: usize,
    at: [i32; 3],
    log: Vec<[i32; 3]>,
}

/// A probe as values.
pub struct ProbeView {
    pub room: Room,
    pub tick: usize,
    pub at: [i32; 3],
    pub log: Seq<[i32; 3]>,
}

/// A save as values.
pub struct SaveView {
    pub seed: u64,
    pub ground_hash: u64,
    pub tick: usize,
    pub at: [i32; 3],
    pub log: Seq<[i32; 3]>,
}

impl View for Save {
    type V = SaveView;

    open spec fn view(&self) -> SaveView {
        SaveView { seed: self.seed, ground_hash: self.ground_hash, tick: self.tick, at: self.at, log: self.log@ }
    }
}

impl View for Probe {
    type V = ProbeView;

    closed spec fn view(&self) -> ProbeView {
        ProbeView { room: self.room, tick: self.tick, at: self.at, log: self.log@ }
    }
}

/// Where the body asks to go on the tick it stands at.
pub open spec fn toward_spec(at: [i32; 3], tick: int) -> [i32; 3] {
    [(at[0] + trace_spec(tick)[0]) as i32, at[1], (at[2] + trace_spec(tick)[1]) as i32]
}

/// Whether the next asked step stays inside the integers positions are
/// kept in.
pub open spec fn steppable(at: [i32; 3]) -> bool {
    i32::MIN < at[0] < i32::MAX && i32::MIN < at[2] < i32::MAX
}

/// What a save of a probe records, against a hash of its ground.
pub open spec fn saved(p: ProbeView, ground_hash: u64) -> SaveView {
    SaveView { seed: p.room.seed, ground_hash, tick: p.tick, at: p.at, log: p.log }
}

/// What resuming a save into a regrown room gives, given the regrown
/// ground's hash.
pub open spec fn resumed(room: Room, save: SaveView, ground_hash: u64) -> Result<ProbeView, ProbeError> {
    if ground_hash != save.ground_hash {
        Err(ProbeError::GroundDiverged)
    } else {
        Ok(ProbeView { room, tick: save.tick, at: save.at, log: save.log })
    }
}

/// The position a run's `k`-th new tick started from: where the run
/// began, or the position logged just before.
pub open spec fn stepped_from(start_at: [i32; 3], log: Seq<[i32; 3]>, base: int, k: int) -> [i32; 3] {
    if k == 0 {
        start_at
    } else {
        log[base + k - 1]
    }
}

/// Whether the `k`-th position a run logged after `base` is where `step`
/// landed the trace's step from the position before it.
pub open spec fn logged_step<F: Fn([i32; 3], [i32; 3]) -> [i32; 3]>(
    step: F,
    start_at: [i32; 3],
    start_tick: int,
    log: Seq<[i32; 3]>,
    base: int,
    k: int,
) -> bool {
    let from = stepped_from(start_at, log, base, k);
    step.ensures((from, toward_spec(from, start_tick + k)), log[base + k])
}

impl Probe {
    /// A fresh run at tick zero, standing on the room's floor.
    pub fn new(room: Room) -> (probe: Self)
        requires
            room_ok(room),
        ensures
            probe@.room == room,
            probe@.tick == 0,
            probe@.at == room.stance,
            probe@.log == seq![room.stance],
    {
        let at = room.stance;
        let mut log = Vec::new();
        log.push(at);
        let probe = Probe { room, tick: 0, at, log };
        proof {
            assert(probe@.log =~= seq![room.stance]);
        }
        probe
    }

    pub fn room(&self) -> (room: &Room)
        ensures
            *room == self@.room,
    {
        &self.room
    }

    pub fn tick_count(&self) -> (tick: usize)
        ensures
            tick == self@.tick,
    {
        self.tick
    }

    pub fn at(&self) -> (at: [i32; 3])
        ensures
            at == self@.at,
    {
        self.at
    }

    pub fn log(&self) -> (log: &[[i32; 3]])
        ensures
            log@ == self@.log,
    {
        self.log.as_slice()
    }

    /// Whether the trace still has moves left in it.
    pub fn running(&self) -> (running: bool)
        ensures
            running == (self@.tick < TICKS),
    {
        self.tick < TICKS
    }

    /// The heading the body last took; before the first tick, the one it is
    /// about to take.
    pub fn heading(&self) -> (heading: [i32; 2])
        ensures
            heading == trace_spec(
                if self@.tick == 0 {
                    0
                } else if self@.tick - 1 > TICKS - 1 {
                    TICKS - 1
                } else {
                    self@.tick - 1
                },
            ),
    {
        let last = if self.tick == 0 {
            0
        } else {
            self.tick - 1
        };
        let i = if last > TICKS - 1 {
            TICKS - 1
        } else {
            last
        };
        trace_at(i)
    }

    /// The step this tick asks of the terrain: one heading from where the
    /// body stands, or nothing once the trace is spent.
    pub fn toward(&self) -> (toward: Option<[i32; 3]>)
        requires
            steppable(self@.at),
        ensures
            toward == (if self@.tick < TICKS {
                Some(toward_spec(self@.at, self@.tick as int))
            } else {
                None
            }),
    {
        if self.tick >= TICKS {
            return None;
        }
        let h = trace_at(self.tick);
        let to: [i32; 3] = [self.at[0] + h[0], self.at[1], self.at[2] + h[1]];
        proof {
            assert(to =~= toward_spec(self@.at, self@.tick as int));
        }
        Some(to)
    }

    /// Where the terrain landed this tick's step: the body stands there,
    /// the log takes it, and the tick is spent.
    pub fn land(&mut self, landed: [i32; 3])
        requires
            old(self)@.tick < TICKS,
        ensures
            final(self)@ == (ProbeView {
                tick: (old(self)@.tick + 1) as usize,
                at: landed,
                log: old(self)@.log.push(landed),
                ..old(self)@
            }),
    {
        self.at = landed;
        self.log.push(landed);
        self.tick = self.tick + 1;
    }

    /// One tick: one heading, one step of the terrain's kinematics, one
    /// logged position. False, and nothing changes, once the trace is spent.
    pub fn advance<F: Fn([i32; 3], [i32; 3]) -> [i32; 3]>(&mut self, step: &F) -> (moved: bool)
        requires
            steppable(old(self)@.at),
            forall|from: [i32; 3], to: [i32; 3]| #[trigger] step.requires((from, to)),
        ensures
            moved == (old(self)@.tick < TICKS),
            !moved ==> final(self)@ == old(self)@,
            moved ==> {
                &&& step.ensures((old(self)@.at, toward_spec(old(self)@.at, old(self)@.tick as int)), final(self)@.at)
                &&& final(self)@ == (ProbeView {
                    tick: (old(self)@.tick + 1) as usize,
                    at: final(self)@.at,
                    log: old(self)@.log.push(final(self)@.at),
                    ..old(self)@
                })
            },
    {
        let to = match self.toward() {
            Some(to) => to,
            None => return false,
        };
        let landed = step(self.at, to);
        self.land(landed);
        true
    }

    /// Runs until the trace is spent, or `ticks` have passed. Every position
    /// logged on the way is where the kinematics landed the trace's step
    /// from the one before.
    pub fn run<F: Fn([i32; 3], [i32; 3]) -> [i32; 3]>(&mut self, ticks: usize, step: &F)
        requires
            steppable(old(self)@.at),
            forall|from: [i32; 3], to: [i32; 3]| #[trigger] step.requires((from, to)),
            forall|from: [i32; 3], to: [i32; 3], landed: [i32; 3]|
                #[trigger] step.ensures((from, to), landed) ==> steppable(landed),
        ensures
            final(self)@.tick == if old(self)@.tick >= TICKS {
                old(self)@.tick as int
            } else if old(self)@.tick + ticks > TICKS {
                TICKS as int
            } else {
                old(self)@.tick + ticks
            },
            final(self)@.room == old(self)@.room,
            final(self)@.log.len() == old(self)@.log.len() + (final(self)@.tick - old(self)@.tick),
            final(self)@.log.take(old(self)@.log.len() as int) == old(self)@.log,
            final(self)@.tick == old(self)@.tick ==> final(self)@.at == old(self)@.at,
            final(self)@.tick > old(self)@.tick ==> final(self)@.at == final(self)@.log.last(),
            forall|k: int|
                0 <= k < final(self)@.tick - old(self)@.tick ==> #[trigger] logged_step(
                    *step,
                    old(self)@.at,
                    old(self)@.tick as int,
                    final(self)@.log,
                    old(self)@.log.len() as int,
                    k,
                ),
    {
        let ghost start = self@;
        let mut i: usize = 0;
        while i < ticks
            invariant
                i <= ticks,
                steppable(self@.at),
                forall|from: [i32; 3], to: [i32; 3]| #[trigger] step.requires((from, to)),
                forall|from: [i32; 3], to: [i32; 3], landed: [i32; 3]|
                    #[trigger] step.ensures((from, to), landed) ==> steppable(landed),
                self@.room == start.room,
                self@.tick == start.tick + i,
                self@.tick <= TICKS || i == 0,
                self@.log.len() == start.log.len() + i,
                self@.log.take(start.log.len() as int) == start.log,
                i == 0 ==> self@.at == start.at,
                i > 0 ==> self@.at == self@.log.last(),
                forall|k: int|
                    0 <= k < i ==> #[trigger] logged_step(
                        *step,
                        start.at,
                        start.tick as int,
                        self@.log,
                        start.log.len() as int,
                        k,
                    ),
            ensures
                i == ticks || self@.tick >= TICKS,
            decreases ticks - i,
        {
            let ghost before = self@;
            if !self.advance(step) {
                break;
            }
            proof {
                assert(self@.log.take(start.log.len() as int) =~= start.log) by {
                    assert(before.log.take(start.log.len() as int) == start.log);
                    assert forall|j: int| 0 <= j < start.log.len() implies self@.log[j] == before.log[j] by {}
                }
                assert forall|k: int| 0 <= k < i + 1 implies #[trigger] logged_step(
                    *step,
                    start.at,
                    start.tick as int,
                    self@.log,
                    start.log.len() as int,
                    k,
                ) by {
                    let base = start.log.len() as int;
                    if k < i {
                        assert(logged_step(*step, start.at, start.tick as int, before.log, base, k));
                        assert(self@.log[base + k] == before.log[base + k]);
                        if k > 0 {
                            assert(self@.log[base + k - 1] == before.log[base + k - 1]);
                        }
                    } else {
                        assert(self@.log[base + k] == self@.at);
                        if k > 0 {
                            assert(self@.log[base + k - 1] == before.log.last());
                        }
                    }
                }
            }
            i = i + 1;
        }
    }

    /// The save of this run, against the hash of the ground it stands in.
    pub fn save_of(&self, ground_hash: u64) -> (save: Save)
        ensures
            save@ == saved(self@, ground_hash),
    {
        let mut log: Vec<[i32; 3]> = Vec::new();
        let mut i: usize = 0;
        while i < self.log.len()
            invariant
                i <= self.log@.len(),
                log@ == self.log@.take(i as int),
            decreases self.log@.len() - i,
        {
            log.push(self.log[i]);
            i = i + 1;
            proof {
                assert(log@ =~= self.log@.take(i as int));
            }
        }
        proof {
            assert(self.log@.take(i as int) =~= self.log@);
        }
        Save { seed: self.room.seed, ground_hash, tick: self.tick, at: self.at, log }
    }

    /// Resumes a save in a freshly regrown room. The world is rebuilt from
    /// the seed rather than carried in the save, and then checked: a ground
    /// that regrew differently is a loud failure.
    pub fn resume(room: Room, save: Save, ground_hash: u64) -> (probe: Result<Probe, ProbeError>)
        ensures
            match resumed(room, save@, ground_hash) {
                Ok(p) => probe is Ok && probe->Ok_0@ == p,
                Err(e) => probe is Err && probe->Err_0 == e,
            },
    {
        if ground_hash != save.ground_hash {
            return Err(ProbeError::GroundDiverged);
        }
        Ok(Probe { room, tick: save.tick, at: save.at, log: save.log })
    }
}

/// A save resumed in the same room, over ground with the same hash, is the
/// run it was taken from: same tick, same place, same log.
pub proof fn law_save_resumes_the_run(p: ProbeView, ground_hash: u64)
    ensures
        resumed(p.room, saved(p, ground_hash), ground_hash) == Ok::<ProbeView, ProbeError>(p),
{
}

/// A save over ground whose hash differs from the one it recorded is
/// refused, never replayed over.
pub proof fn law_diverged_ground_is_refused(room: Room, save: SaveView, ground_hash: u64)
    requires
        ground_hash != save.ground_hash,
    ensures
        resumed(room, save, ground_hash) == Err::<ProbeView, ProbeError>(ProbeError::GroundDiverged),
{
}

} // verus!
