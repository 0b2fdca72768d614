//! A companion, their declared crafts, and their own read of a piece of work.
//!
//! Skills here are what someone says they can do, not what a fight would
//! prove: a grade is a plain declared integer. The played character is
//! admitted the same way as anyone else.

use vstd::prelude::*;

use crate::identity::SubjectId;
use crate::social::offer::Work;

verus! {

/// Plain words for plain work. Small vocabulary, kept small.
#[derive(Clone, Copy, Debug, PartialEq, Eq, Structural, PartialOrd, Ord, Hash)]
pub enum Craft {
    Scouting,
    Smithing,
    Healing,
    Hauling,
    Watching,
}

pub open spec fn craft_name(craft: Craft) -> Seq<char> {
    match craft {
        Craft::Scouting => "scouting"@,
        Craft::Smithing => "smithing"@,
        Craft::Healing => "healing"@,
        Craft::Hauling => "hauling"@,
        Craft::Watching => "watching"@,
    }
}

impl Craft {
    pub fn name(&self) -> (n: &'static str)
        ensures
            n@ == craft_name(*self),
    {
        match self {
            Craft::Scouting => "scouting",
            Craft::Smithing => "smithing",
            Craft::Healing => "healing",
            Craft::Hauling => "hauling",
            Craft::Watching => "watching",
        }
    }
}

#[derive(Clone, Copy, Debug, PartialEq, Eq, Structural)]
pub struct Skill {
    pub craft: Craft,
    pub grade: u8,
}

impl Skill {
    pub fn new(craft: Craft, grade: u8) -> (skill: Self)
        ensures
            skill == (Skill { craft, grade }),
    {
        Self { craft, grade }
    }
}

/// The highest grade declared in `craft`, or zero where none is.
pub open spec fn grade_of(skills: Seq<Skill>, craft: Craft) -> u8
    decreases skills.len(),
{
    if skills.len() == 0 {
        0
    } else {
        let before = grade_of(skills.drop_last(), craft);
        if skills.last().craft == craft && skills.last().grade > before {
            skills.last().grade
        } else {
            before
        }
    }
}

#[derive(Clone, Debug, PartialEq, Eq)]
pub struct Companion {
    pub subject: SubjectId,
    pub name: String,
    /// Declared, ordered, and theirs. Not combat stats.
    pub skills: Vec<Skill>,
    /// How much a given danger costs this person: a bold companion is
    /// negative, a careful one positive.
    pub caution: i16,
}

/// Their own read of a piece of work against their declared craft.
pub open spec fn read_of(skills: Seq<Skill>, work: Work) -> Confidence {
    Confidence { craft: work.craft, demanded: work.grade, held: grade_of(skills, work.craft) }
}

impl Companion {
    pub fn new(subject: SubjectId, name: &str, skills: Vec<Skill>, caution: i16) -> (companion: Self)
        ensures
            companion.subject == subject,
            companion.name@ == name@,
            companion.skills@ == skills@,
            companion.caution == caution,
    {
        Self { subject, name: name.to_owned(), skills, caution }
    }

    pub fn grade_in(&self, craft: Craft) -> (grade: u8)
        ensures
            grade == grade_of(self.skills@, craft),
    {
        let mut best: u8 = 0;
        let mut i: usize = 0;
        while i < self.skills.len()
            invariant
                i <= self.skills@.len(),
                best == grade_of(self.skills@.subrange(0, i as int), craft),
            decreases self.skills@.len() - i,
        {
            let skill = self.skills[i];
            proof {
                assert(self.skills@.subrange(0, i + 1).drop_last() =~= self.skills@.subrange(
                    0,
                    i as int,
                ));
            }
            if skill.craft == craft && skill.grade > best {
                best = skill.grade;
            }
            i = i + 1;
        }
        proof {
            assert(self.skills@.subrange(0, i as int) =~= self.skills@);
        }
        best
    }

    /// Their own read of whether this work is within them. Their read, not a
    /// verdict on them.
    pub fn read(&self, work: &Work) -> (confidence: Confidence)
        ensures
            confidence == read_of(self.skills@, *work),
    {
        Confidence { craft: work.craft, demanded: work.grade, held: self.grade_in(work.craft) }
    }
}

/// A companion's own read of a piece of work against their declared craft.
#[derive(Clone, Copy, Debug, PartialEq, Eq, Structural)]
pub struct Confidence {
    pub craft: Craft,
    pub demanded: u8,
    pub held: u8,
}

impl Confidence {
    pub open spec fn margin_spec(&self) -> int {
        self.held - self.demanded
    }

    pub fn margin(&self) -> (m: i16)
        ensures
            m as int == self.margin_spec(),
    {
        self.held as i16 - self.demanded as i16
    }

    /// Whether they believe they can do it at all. Below this they refuse,
    /// and the refusal is about the work rather than the asker.
    pub fn sufficient(&self) -> (b: bool)
        ensures
            b == (self.margin_spec() >= 0),
    {
        self.margin() >= 0
    }
}

} // verus!
