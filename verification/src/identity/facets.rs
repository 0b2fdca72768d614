//! Character and faction facets, kept separate.
//!
//! A role is held, not been. An office is a record in its own right, a holding
//! is a tenure with a start and an end, and both outlive the person. Each facet
//! is its own store keyed by subject, and a person is the join, not a struct.

use vstd::prelude::*;

use crate::identity::{BodyRevisionId, FactionId, IdentityError, OfficeId, SubjectId, Tick};
use crate::keyed::{increasing, lemma_map_of_index, map_of, Keyed};

verus! {

/// A role that exists apart from whoever holds it.
#[derive(Clone, Debug, PartialEq, Eq)]
pub struct Office {
    pub id: OfficeId,
    pub faction: FactionId,
    pub name: String,
}

/// One person's tenure in one office. Appended, then closed by an `until`;
/// never rewritten otherwise, so the line of holders stays readable.
#[derive(Clone, Copy, Debug, PartialEq, Eq, Structural)]
pub struct Holding {
    pub office: OfficeId,
    pub holder: SubjectId,
    pub since: Tick,
    pub until: Option<Tick>,
}

impl Holding {
    pub fn current(&self) -> (b: bool)
        ensures
            b == self.until.is_none(),
    {
        self.until.is_none()
    }
}

/// The holder of the newest open tenure of `office`, if any.
pub open spec fn current_holder(holdings: Seq<Holding>, office: OfficeId) -> Option<SubjectId>
    decreases holdings.len(),
{
    if holdings.len() == 0 {
        None
    } else if holdings.last().office == office && holdings.last().until is None {
        Some(holdings.last().holder)
    } else {
        current_holder(holdings.drop_last(), office)
    }
}

/// The position of the newest open tenure of `office`, or -1.
pub open spec fn current_index(holdings: Seq<Holding>, office: OfficeId) -> int
    decreases holdings.len(),
{
    if holdings.len() == 0 {
        -1
    } else if holdings.last().office == office && holdings.last().until is None {
        holdings.len() - 1
    } else {
        current_index(holdings.drop_last(), office)
    }
}

/// Every tenure of `office`, oldest first.
pub open spec fn line(holdings: Seq<Holding>, office: OfficeId) -> Seq<Holding>
    decreases holdings.len(),
{
    if holdings.len() == 0 {
        Seq::empty()
    } else {
        let before = line(holdings.drop_last(), office);
        if holdings.last().office == office {
            before.push(holdings.last())
        } else {
            before
        }
    }
}

/// The offices `subject` holds now, in the order they were taken up.
pub open spec fn held_by(holdings: Seq<Holding>, subject: SubjectId) -> Seq<OfficeId>
    decreases holdings.len(),
{
    if holdings.len() == 0 {
        Seq::empty()
    } else {
        let before = held_by(holdings.drop_last(), subject);
        if holdings.last().holder == subject && holdings.last().until is None {
            before.push(holdings.last().office)
        } else {
            before
        }
    }
}

proof fn lemma_current_index(holdings: Seq<Holding>, office: OfficeId)
    ensures
        -1 <= current_index(holdings, office) < holdings.len(),
        current_index(holdings, office) == -1 <==> current_holder(holdings, office) is None,
        current_index(holdings, office) == -1 ==> forall|j: int|
            0 <= j < holdings.len() ==> !(#[trigger] holdings[j].office == office
                && holdings[j].until is None),
        current_index(holdings, office) >= 0 ==> {
            let i = current_index(holdings, office);
            &&& holdings[i].office == office
            &&& holdings[i].until is None
            &&& current_holder(holdings, office) == Some(holdings[i].holder)
            &&& forall|j: int|
                i < j < holdings.len() ==> !(#[trigger] holdings[j].office == office
                    && holdings[j].until is None)
        },
    decreases holdings.len(),
{
    if holdings.len() > 0 {
        let d = holdings.drop_last();
        lemma_current_index(d, office);
        let last = holdings.len() - 1;
        if !(holdings[last].office == office && holdings[last].until is None) {
            assert forall|j: int| 0 <= j < last implies #[trigger] holdings[j] == d[j] by {}
        }
    }
}

/// The facet stores. Iteration order is part of the contract, because
/// replays compare outcomes.
#[derive(Clone, Debug, PartialEq, Eq)]
pub struct Facets {
    bodies: Keyed<BodyRevisionId>,
    memberships: Keyed<Keyed<()>>,
    offices: Keyed<Office>,
    holdings: Vec<Holding>,
}

impl Facets {
    pub closed spec fn bodies_spec(&self) -> Map<u64, BodyRevisionId> {
        self.bodies.view()
    }

    /// Membership as a set of (subject, faction) pairs.
    pub closed spec fn members_spec(&self) -> Set<(u64, u64)> {
        Set::new(
            |p: (u64, u64)|
                self.memberships.view().contains_key(p.0) && self.memberships.view()[p.0].view().contains_key(
                    p.1,
                ),
        )
    }

    pub closed spec fn offices_spec(&self) -> Map<u64, Office> {
        self.offices.view()
    }

    pub closed spec fn holdings_spec(&self) -> Seq<Holding> {
        self.holdings@
    }

    pub closed spec fn stores_wf(&self) -> bool {
        &&& self.bodies.wf()
        &&& self.memberships.wf()
        &&& self.offices.wf()
        &&& forall|k: u64| #[trigger]
            self.memberships.view().contains_key(k) ==> self.memberships.view()[k].wf()
        &&& forall|k: u64| #[trigger]
            self.offices.view().contains_key(k) ==> self.offices.view()[k].id.0 == k
    }

    /// Well-formed facets: every tenure is of a founded office, and no office
    /// has two open tenures at once.
    pub open spec fn wf(&self) -> bool {
        &&& self.stores_wf()
        &&& forall|i: int|
            0 <= i < self.holdings_spec().len() ==> self.offices_spec().contains_key(
                (#[trigger] self.holdings_spec()[i]).office.0,
            )
        &&& forall|i: int, j: int|
            0 <= i < j < self.holdings_spec().len() && #[trigger] self.holdings_spec()[i].office
                == #[trigger] self.holdings_spec()[j].office ==> !(self.holdings_spec()[i].until is None
                && self.holdings_spec()[j].until is None)
    }

    pub fn new() -> (facets: Self)
        ensures
            facets.wf(),
            facets.bodies_spec() == Map::<u64, BodyRevisionId>::empty(),
            facets.members_spec() == Set::<(u64, u64)>::empty(),
            facets.offices_spec() == Map::<u64, Office>::empty(),
            facets.holdings_spec() == Seq::<Holding>::empty(),
    {
        let facets = Facets {
            bodies: Keyed::new(),
            memberships: Keyed::new(),
            offices: Keyed::new(),
            holdings: Vec::new(),
        };
        assert(facets.members_spec() =~= Set::<(u64, u64)>::empty());
        facets
    }

    /// Points a subject at a body revision. Replacing the chassis replaces
    /// this and nothing else.
    pub fn wears(&mut self, subject: SubjectId, body: BodyRevisionId)
        requires
            old(self).wf(),
        ensures
            final(self).wf(),
            final(self).bodies_spec() == old(self).bodies_spec().insert(subject.0, body),
            final(self).members_spec() == old(self).members_spec(),
            final(self).offices_spec() == old(self).offices_spec(),
            final(self).holdings_spec() == old(self).holdings_spec(),
    {
        self.bodies.insert(subject.0, body);
    }

    pub fn body_of(&self, subject: SubjectId) -> (body: Option<BodyRevisionId>)
        requires
            self.wf(),
        ensures
            body == (if self.bodies_spec().contains_key(subject.0) {
                Some(self.bodies_spec()[subject.0])
            } else {
                None
            }),
    {
        match self.bodies.get(subject.0) {
            Some(body) => Some(*body),
            None => None,
        }
    }

    pub fn join(&mut self, subject: SubjectId, faction: FactionId)
        requires
            old(self).wf(),
        ensures
            final(self).wf(),
            final(self).members_spec() == old(self).members_spec().insert((subject.0, faction.0)),
            final(self).bodies_spec() == old(self).bodies_spec(),
            final(self).offices_spec() == old(self).offices_spec(),
            final(self).holdings_spec() == old(self).holdings_spec(),
    {
        let ghost before = self.memberships.view();
        let mut inner = match self.memberships.remove(subject.0) {
            Some(inner) => inner,
            None => Keyed::new(),
        };
        inner.insert(faction.0, ());
        self.memberships.insert(subject.0, inner);
        proof {
            assert(self.members_spec() =~= old(self).members_spec().insert((subject.0, faction.0)));
        }
    }

    pub fn leave(&mut self, subject: SubjectId, faction: FactionId)
        requires
            old(self).wf(),
        ensures
            final(self).wf(),
            final(self).members_spec() == old(self).members_spec().remove((subject.0, faction.0)),
            final(self).bodies_spec() == old(self).bodies_spec(),
            final(self).offices_spec() == old(self).offices_spec(),
            final(self).holdings_spec() == old(self).holdings_spec(),
    {
        let ghost outer = self.memberships.view();
        let ghost pair = (subject.0, faction.0);
        if let Some(mut inner) = self.memberships.remove(subject.0) {
            let ghost was = inner.view();
            let ghost removed = self.memberships.view();
            assert(removed == outer.remove(subject.0));
            inner.remove(faction.0);
            let ghost now = inner.view();
            assert(now == was.remove(faction.0));
            if !inner.is_empty() {
                self.memberships.insert(subject.0, inner);
                proof {
                    assert(self.memberships.view() == removed.insert(subject.0, inner));
                    assert forall|p: (u64, u64)|
                        self.members_spec().contains(p) == (old(self).members_spec().contains(p)
                            && p != pair) by {
                        if p.0 != subject.0 {
                            assert(self.memberships.view().contains_key(p.0) == outer.contains_key(
                                p.0,
                            ));
                        } else {
                            assert(self.memberships.view()[p.0] == inner);
                        }
                    }
                }
            } else {
                proof {
                    assert(now =~= Map::<u64, ()>::empty());
                    assert forall|p: (u64, u64)|
                        self.members_spec().contains(p) == (old(self).members_spec().contains(p)
                            && p != pair) by {
                        if p.0 != subject.0 {
                            assert(self.memberships.view().contains_key(p.0) == outer.contains_key(
                                p.0,
                            ));
                        } else {
                            assert(!self.memberships.view().contains_key(p.0));
                            if p.1 != faction.0 {
                                assert(!now.contains_key(p.1));
                            }
                        }
                    }
                }
            }
            proof {
                assert(self.members_spec() =~= old(self).members_spec().remove(pair));
            }
        } else {
            proof {
                assert forall|p: (u64, u64)|
                    self.members_spec().contains(p) == (old(self).members_spec().contains(p) && p
                        != pair) by {}
                assert(self.members_spec() =~= old(self).members_spec().remove(pair));
            }
        }
    }

    pub fn belongs_to(&self, subject: SubjectId, faction: FactionId) -> (b: bool)
        requires
            self.wf(),
        ensures
            b == self.members_spec().contains((subject.0, faction.0)),
    {
        match self.memberships.get(subject.0) {
            Some(inner) => inner.contains_key(faction.0),
            None => false,
        }
    }

    /// The factions a subject belongs to, in increasing id order.
    pub fn factions_of(&self, subject: SubjectId) -> (factions: Vec<FactionId>)
        requires
            self.wf(),
        ensures
            forall|i: int, j: int|
                0 <= i < j < factions@.len() ==> #[trigger] factions@[i].0 < #[trigger] factions@[j].0,
            forall|f: u64|
                self.members_spec().contains((subject.0, f)) <==> factions@.contains(FactionId(f)),
    {
        let mut factions: Vec<FactionId> = Vec::new();
        match self.memberships.get(subject.0) {
            Some(inner) => {
                let keys = inner.keys();
                let ghost s = inner.entries_spec();
                let mut i: usize = 0;
                while i < keys.len()
                    invariant
                        i <= keys@.len(),
                        keys@.len() == s.len(),
                        forall|j: int| 0 <= j < keys@.len() ==> #[trigger] keys@[j] == s[j].0,
                        factions@.len() == i,
                        forall|j: int| 0 <= j < i ==> #[trigger] factions@[j] == FactionId(s[j].0),
                    decreases keys@.len() - i,
                {
                    factions.push(FactionId(keys[i]));
                    i = i + 1;
                }
                proof {
                    assert forall|a: int, b: int| 0 <= a < b < factions@.len() implies #[trigger] factions@[a].0
                        < #[trigger] factions@[b].0 by {
                        assert(s[a].0 < s[b].0);
                    }
                    assert forall|f: u64|
                        self.members_spec().contains((subject.0, f)) <==> factions@.contains(
                            FactionId(f),
                        ) by {
                        if self.members_spec().contains((subject.0, f)) {
                            let j = choose|j: int| 0 <= j < s.len() && #[trigger] s[j].0 == f;
                            assert(factions@[j] == FactionId(f));
                        }
                        if factions@.contains(FactionId(f)) {
                            let j = choose|j: int| 0 <= j < factions@.len() && factions@[j] == FactionId(f);
                            lemma_map_of_index(s, j);
                        }
                    }
                }
            },
            None => {},
        }
        factions
    }

    pub fn found(&mut self, office: Office) -> (result: Result<(), IdentityError>)
        requires
            old(self).wf(),
        ensures
            final(self).wf(),
            final(self).bodies_spec() == old(self).bodies_spec(),
            final(self).members_spec() == old(self).members_spec(),
            final(self).holdings_spec() == old(self).holdings_spec(),
            old(self).offices_spec().contains_key(office.id.0) ==> {
                &&& result == Err::<(), IdentityError>(IdentityError::OfficeExists(office.id))
                &&& final(self).offices_spec() == old(self).offices_spec()
            },
            !old(self).offices_spec().contains_key(office.id.0) ==> {
                &&& result is Ok
                &&& final(self).offices_spec() == old(self).offices_spec().insert(office.id.0, office)
            },
    {
        if self.offices.contains_key(office.id.0) {
            return Err(IdentityError::OfficeExists(office.id));
        }
        let key = office.id.0;
        self.offices.insert(key, office);
        Ok(())
    }

    pub fn office(&self, id: OfficeId) -> (office: Option<&Office>)
        requires
            self.wf(),
        ensures
            match office {
                Some(o) => self.offices_spec().contains_key(id.0) && *o == self.offices_spec()[id.0],
                None => !self.offices_spec().contains_key(id.0),
            },
    {
        self.offices.get(id.0)
    }

    /// Every office, in increasing id order.
    pub fn offices(&self) -> (offices: Vec<&Office>)
        requires
            self.wf(),
        ensures
            forall|i: int, j: int|
                0 <= i < j < offices@.len() ==> #[trigger] offices@[i].id.0 < #[trigger] offices@[j].id.0,
            forall|k: u64|
                self.offices_spec().contains_key(k) <==> exists|i: int|
                    0 <= i < offices@.len() && #[trigger] offices@[i].id.0 == k,
            forall|i: int|
                0 <= i < offices@.len() ==> *#[trigger] offices@[i] == self.offices_spec()[offices@[i].id.0],
    {
        let offices = self.offices.values();
        proof {
            let s = self.offices.entries_spec();
            assert forall|i: int| 0 <= i < offices@.len() implies #[trigger] offices@[i].id.0 == s[i].0 && *offices@[i]
                == self.offices_spec()[offices@[i].id.0] by {
                lemma_map_of_index(s, i);
                assert(self.offices.view().contains_key(s[i].0));
            }
            assert forall|i: int, j: int| 0 <= i < j < offices@.len() implies #[trigger] offices@[i].id.0
                < #[trigger] offices@[j].id.0 by {
                assert(offices@[i].id.0 == s[i].0);
                assert(offices@[j].id.0 == s[j].0);
            }
            assert forall|k: u64|
                self.offices_spec().contains_key(k) <==> exists|i: int|
                    0 <= i < offices@.len() && #[trigger] offices@[i].id.0 == k by {
                if self.offices_spec().contains_key(k) {
                    let i = choose|i: int| 0 <= i < s.len() && #[trigger] s[i].0 == k;
                    assert(offices@[i].id.0 == s[i].0);
                }
            }
        }
        offices
    }

    fn current_position(&self, office: OfficeId) -> (i: Option<usize>)
        ensures
            match i {
                Some(i) => i == current_index(self.holdings_spec(), office),
                None => current_index(self.holdings_spec(), office) == -1,
            },
    {
        let mut i = self.holdings.len();
        proof {
            assert(self.holdings@.subrange(0, i as int) =~= self.holdings@);
        }
        while i > 0
            invariant
                i <= self.holdings@.len(),
                current_index(self.holdings@, office) == current_index(
                    self.holdings@.subrange(0, i as int),
                    office,
                ),
            decreases i,
        {
            let h = self.holdings[i - 1];
            proof {
                assert(self.holdings@.subrange(0, i - 1) =~= self.holdings@.subrange(
                    0,
                    i as int,
                ).drop_last());
            }
            if h.office == office && h.until.is_none() {
                return Some(i - 1);
            }
            i = i - 1;
        }
        None
    }

    pub fn holder_of(&self, office: OfficeId) -> (holder: Option<SubjectId>)
        ensures
            holder == current_holder(self.holdings_spec(), office),
    {
        proof {
            lemma_current_index(self.holdings@, office);
        }
        match self.current_position(office) {
            Some(i) => Some(self.holdings[i].holder),
            None => None,
        }
    }

    /// Takes up an office. Refuses rather than displaces: a holder is vacated
    /// first, which is the transition worth recording.
    pub fn hold(&mut self, office: OfficeId, holder: SubjectId, since: Tick) -> (result: Result<
        (),
        IdentityError,
    >)
        requires
            old(self).wf(),
        ensures
            final(self).wf(),
            final(self).bodies_spec() == old(self).bodies_spec(),
            final(self).members_spec() == old(self).members_spec(),
            final(self).offices_spec() == old(self).offices_spec(),
            !old(self).offices_spec().contains_key(office.0) ==> {
                &&& result == Err::<(), IdentityError>(IdentityError::NoSuchOffice(office))
                &&& final(self).holdings_spec() == old(self).holdings_spec()
            },
            old(self).offices_spec().contains_key(office.0) ==> match current_holder(
                old(self).holdings_spec(),
                office,
            ) {
                Some(sitting) => {
                    &&& result == Err::<(), IdentityError>(IdentityError::OfficeHeld(office, sitting))
                    &&& final(self).holdings_spec() == old(self).holdings_spec()
                },
                None => {
                    &&& result is Ok
                    &&& final(self).holdings_spec() == old(self).holdings_spec().push(
                        Holding { office, holder, since, until: None },
                    )
                },
            },
    {
        if !self.offices.contains_key(office.0) {
            return Err(IdentityError::NoSuchOffice(office));
        }
        if let Some(sitting) = self.holder_of(office) {
            return Err(IdentityError::OfficeHeld(office, sitting));
        }
        proof {
            lemma_current_index(self.holdings@, office);
        }
        self.holdings.push(Holding { office, holder, since, until: None });
        Ok(())
    }

    /// Closes the current tenure. The office record is untouched: it is still
    /// there for the next holder.
    pub fn vacate(&mut self, office: OfficeId, at: Tick) -> (result: Result<SubjectId, IdentityError>)
        requires
            old(self).wf(),
        ensures
            final(self).wf(),
            final(self).bodies_spec() == old(self).bodies_spec(),
            final(self).members_spec() == old(self).members_spec(),
            final(self).offices_spec() == old(self).offices_spec(),
            !old(self).offices_spec().contains_key(office.0) ==> {
                &&& result == Err::<SubjectId, IdentityError>(IdentityError::NoSuchOffice(office))
                &&& final(self).holdings_spec() == old(self).holdings_spec()
            },
            old(self).offices_spec().contains_key(office.0) ==> match current_holder(
                old(self).holdings_spec(),
                office,
            ) {
                Some(sitting) => {
                    let i = current_index(old(self).holdings_spec(), office);
                    &&& result == Ok::<SubjectId, IdentityError>(sitting)
                    &&& final(self).holdings_spec() == old(self).holdings_spec().update(
                        i,
                        Holding { until: Some(at), ..old(self).holdings_spec()[i] },
                    )
                },
                None => {
                    &&& result == Err::<SubjectId, IdentityError>(IdentityError::OfficeVacant(office))
                    &&& final(self).holdings_spec() == old(self).holdings_spec()
                },
            },
    {
        if !self.offices.contains_key(office.0) {
            return Err(IdentityError::NoSuchOffice(office));
        }
        proof {
            lemma_current_index(self.holdings@, office);
        }
        match self.current_position(office) {
            None => Err(IdentityError::OfficeVacant(office)),
            Some(i) => {
                let held = self.holdings[i];
                self.holdings.set(i, Holding { until: Some(at), ..held });
                Ok(held.holder)
            },
        }
    }

    pub fn offices_held_by(&self, subject: SubjectId) -> (offices: Vec<OfficeId>)
        ensures
            offices@ == held_by(self.holdings_spec(), subject),
    {
        let mut offices: Vec<OfficeId> = Vec::new();
        let mut i: usize = 0;
        while i < self.holdings.len()
            invariant
                i <= self.holdings@.len(),
                offices@ == held_by(self.holdings@.subrange(0, i as int), subject),
            decreases self.holdings@.len() - i,
        {
            let h = self.holdings[i];
            proof {
                assert(self.holdings@.subrange(0, i + 1).drop_last() =~= self.holdings@.subrange(
                    0,
                    i as int,
                ));
            }
            if h.holder == subject && h.until.is_none() {
                offices.push(h.office);
            }
            i = i + 1;
        }
        proof {
            assert(self.holdings@.subrange(0, i as int) =~= self.holdings@);
        }
        offices
    }

    /// Every tenure of one office, oldest first. The line of holders.
    pub fn line_of(&self, office: OfficeId) -> (tenures: Vec<Holding>)
        ensures
            tenures@ == line(self.holdings_spec(), office),
    {
        let mut tenures: Vec<Holding> = Vec::new();
        let mut i: usize = 0;
        while i < self.holdings.len()
            invariant
                i <= self.holdings@.len(),
                tenures@ == line(self.holdings@.subrange(0, i as int), office),
            decreases self.holdings@.len() - i,
        {
            let h = self.holdings[i];
            proof {
                assert(self.holdings@.subrange(0, i + 1).drop_last() =~= self.holdings@.subrange(
                    0,
                    i as int,
                ));
            }
            if h.office == office {
                tenures.push(h);
            }
            i = i + 1;
        }
        proof {
            assert(self.holdings@.subrange(0, i as int) =~= self.holdings@);
        }
        tenures
    }
}

/// An office is vacated, not displaced: in well-formed facets no office
/// has two open tenures at once.
pub proof fn law_one_open_tenure(facets: Facets, office: OfficeId, i: int, j: int)
    requires
        facets.wf(),
        0 <= i < facets.holdings_spec().len(),
        0 <= j < facets.holdings_spec().len(),
        facets.holdings_spec()[i].office == office,
        facets.holdings_spec()[j].office == office,
        facets.holdings_spec()[i].until is None,
        facets.holdings_spec()[j].until is None,
    ensures
        i == j,
{
    if i < j {
        assert(!(facets.holdings_spec()[i].until is None && facets.holdings_spec()[j].until is None));
    } else if j < i {
        assert(!(facets.holdings_spec()[j].until is None && facets.holdings_spec()[i].until is None));
    }
}

} // verus!
