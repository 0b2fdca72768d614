//! Controlled-subject session state: who the player is being.
//!
//! The pointer moves only through a recorded intent, and replaying the
//! intents reproduces it exactly. [`Control::played`] is one subject, so two
//! characters at once is a state this type cannot represent.

use vstd::prelude::*;

use crate::identity::{IdentityError, SubjectId, Tick};

verus! {

/// Every way the played subject may change, and the only ways.
#[derive(Clone, Copy, Debug, PartialEq, Eq, Structural)]
pub enum ControlIntent {
    /// Opens the log. Exactly once, first.
    Begin { subject: SubjectId, at: Tick },
    /// Becomes a companion for a while. Home is remembered.
    TagIn { to: SubjectId, at: Tick },
    /// Returns to home.
    TagOut { at: Tick },
    /// Home itself changes: the played subject died, and a companion is now
    /// the one you are.
    Succeed { to: SubjectId, at: Tick },
}

/// The pointer's state as `(home, played)`, moved by one intent: the new
/// state, or the refusal that leaves it where it was.
pub open spec fn step(state: (SubjectId, SubjectId), intent: ControlIntent) -> Result<
    (SubjectId, SubjectId),
    IdentityError,
> {
    let (home, played) = state;
    match intent {
        ControlIntent::Begin { .. } => Err(IdentityError::AlreadyBegun),
        ControlIntent::TagIn { to, .. } => if played != home {
            Err(IdentityError::AlreadyTaggedIn)
        } else {
            Ok((home, to))
        },
        ControlIntent::TagOut { .. } => if played == home {
            Err(IdentityError::NotTaggedIn)
        } else {
            Ok((home, home))
        },
        ControlIntent::Succeed { to, .. } => Ok((to, to)),
    }
}

/// What a log of intents replays to: the `(home, played)` pointer, or the
/// first refusal met on the way. A log must open with its one `Begin`.
pub open spec fn replayed(intents: Seq<ControlIntent>) -> Result<
    (SubjectId, SubjectId),
    IdentityError,
>
    decreases intents.len(),
{
    if intents.len() == 0 {
        Err(IdentityError::NotBegun)
    } else if intents.len() == 1 {
        match intents[0] {
            ControlIntent::Begin { subject, .. } => Ok((subject, subject)),
            _ => Err(IdentityError::NotBegun),
        }
    } else {
        match replayed(intents.drop_last()) {
            Ok(state) => step(state, intents.last()),
            Err(e) => Err(e),
        }
    }
}

/// Once a prefix of a log is refused, the whole log is refused the same way.
proof fn lemma_refusal_persists(intents: Seq<ControlIntent>, k: int)
    requires
        1 <= k <= intents.len(),
        replayed(intents.subrange(0, k)) is Err,
    ensures
        replayed(intents) == replayed(intents.subrange(0, k)),
    decreases intents.len() - k,
{
    if k == intents.len() {
        assert(intents.subrange(0, k) =~= intents);
    } else {
        let next = intents.subrange(0, k + 1);
        assert(next.drop_last() =~= intents.subrange(0, k));
        lemma_refusal_persists(intents, k + 1);
    }
}

/// Who the player is being, and how they came to be being them.
#[derive(Clone, Debug, PartialEq, Eq)]
pub struct Control {
    home: SubjectId,
    played: SubjectId,
    log: Vec<ControlIntent>,
}

impl Control {
    pub closed spec fn home_spec(&self) -> SubjectId {
        self.home
    }

    pub closed spec fn played_spec(&self) -> SubjectId {
        self.played
    }

    pub closed spec fn log_spec(&self) -> Seq<ControlIntent> {
        self.log@
    }

    /// The pointer is what its own log replays to: it is derived, never
    /// stored on its own.
    pub open spec fn wf(&self) -> bool {
        replayed(self.log_spec()) == Ok::<(SubjectId, SubjectId), IdentityError>(
            (self.home_spec(), self.played_spec()),
        )
    }

    pub fn begin(subject: SubjectId, at: Tick) -> (control: Self)
        ensures
            control.wf(),
            control.home_spec() == subject,
            control.played_spec() == subject,
            control.log_spec() == seq![ControlIntent::Begin { subject, at }],
    {
        let mut log = Vec::new();
        log.push(ControlIntent::Begin { subject, at });
        Self { home: subject, played: subject, log }
    }

    /// The subject the player is embodying right now. One, always.
    pub fn played(&self) -> (played: SubjectId)
        ensures
            played == self.played_spec(),
    {
        self.played
    }

    /// The subject a tag-out returns to.
    pub fn home(&self) -> (home: SubjectId)
        ensures
            home == self.home_spec(),
    {
        self.home
    }

    pub fn tagged_in(&self) -> (tagged: bool)
        ensures
            tagged == (self.played_spec() != self.home_spec()),
    {
        self.played != self.home
    }

    pub fn log(&self) -> (log: &[ControlIntent])
        ensures
            log@ == self.log_spec(),
    {
        self.log.as_slice()
    }

    /// Moves the pointer by one intent and records it, or refuses and
    /// changes nothing.
    pub fn apply(&mut self, intent: ControlIntent) -> (result: Result<(), IdentityError>)
        requires
            old(self).wf(),
        ensures
            final(self).wf(),
            match step((old(self).home_spec(), old(self).played_spec()), intent) {
                Ok(state) => {
                    &&& result is Ok
                    &&& final(self).home_spec() == state.0
                    &&& final(self).played_spec() == state.1
                    &&& final(self).log_spec() == old(self).log_spec().push(intent)
                },
                Err(e) => {
                    &&& result == Err::<(), IdentityError>(e)
                    &&& final(self).home_spec() == old(self).home_spec()
                    &&& final(self).played_spec() == old(self).played_spec()
                    &&& final(self).log_spec() == old(self).log_spec()
                },
            },
    {
        match intent {
            ControlIntent::Begin { .. } => return Err(IdentityError::AlreadyBegun),
            ControlIntent::TagIn { to, .. } => {
                if self.played != self.home {
                    return Err(IdentityError::AlreadyTaggedIn);
                }
                self.played = to;
            },
            ControlIntent::TagOut { .. } => {
                if self.played == self.home {
                    return Err(IdentityError::NotTaggedIn);
                }
                self.played = self.home;
            },
            ControlIntent::Succeed { to, .. } => {
                self.home = to;
                self.played = to;
            },
        }
        let ghost before = self.log@;
        self.log.push(intent);
        proof {
            assert(self.log@.drop_last() =~= before);
            assert(before.len() >= 1);
        }
        Ok(())
    }

    /// Rebuilds the session from its intents. A save carries the log; the
    /// pointer is derived from it.
    pub fn replay(intents: &[ControlIntent]) -> (result: Result<Self, IdentityError>)
        ensures
            match replayed(intents@) {
                Ok(state) => {
                    &&& result is Ok
                    &&& result->Ok_0.wf()
                    &&& result->Ok_0.home_spec() == state.0
                    &&& result->Ok_0.played_spec() == state.1
                    &&& result->Ok_0.log_spec() == intents@
                },
                Err(e) => result == Err::<Self, IdentityError>(e),
            },
    {
        if intents.len() == 0 {
            return Err(IdentityError::NotBegun);
        }
        let (subject, at) = match intents[0] {
            ControlIntent::Begin { subject, at } => (subject, at),
            _ => {
                proof {
                    assert(intents@.subrange(0, 1).drop_last().len() == 0);
                    lemma_refusal_persists(intents@, 1);
                }
                return Err(IdentityError::NotBegun);
            },
        };
        let mut control = Self::begin(subject, at);
        proof {
            assert(control.log@ =~= intents@.subrange(0, 1));
        }
        let mut i: usize = 1;
        while i < intents.len()
            invariant
                1 <= i <= intents@.len(),
                control.wf(),
                control.log@ == intents@.subrange(0, i as int),
            decreases intents@.len() - i,
        {
            let intent = intents[i];
            let applied = control.apply(intent);
            proof {
                assert(intents@.subrange(0, i + 1).drop_last() =~= intents@.subrange(0, i as int));
                assert(intents@.subrange(0, i + 1).last() == intent);
            }
            if let Err(e) = applied {
                proof {
                    lemma_refusal_persists(intents@, i + 1);
                }
                return Err(e);
            }
            i = i + 1;
            proof {
                assert(control.log@ =~= intents@.subrange(0, i as int));
            }
        }
        proof {
            assert(intents@.subrange(0, i as int) =~= intents@);
        }
        Ok(control)
    }
}

/// Replaying a log extended by one intent gives exactly what applying that
/// intent to the session gives: the same pointer, or the same refusal.
pub proof fn law_replay_follows_apply(control: Control, intent: ControlIntent)
    requires
        control.wf(),
    ensures
        replayed(control.log_spec().push(intent)) == step(
            (control.home_spec(), control.played_spec()),
            intent,
        ),
{
    let log = control.log_spec();
    assert(log.push(intent).drop_last() =~= log);
    assert(log.len() >= 1);
}

} // verus!
