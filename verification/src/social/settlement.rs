//! The settlement: dwellings, and the tenancies that agreements create.
//!
//! **Residence is derived, never bookkept.** A tenancy records only which
//! dwelling, which tenant, which agreement put them there, and when. Where
//! someone lives now is folded from that record and the agreement's own
//! state: a tenancy is current exactly while its agreement stands, so ending
//! the agreement is moving out.

use vstd::prelude::*;

use crate::identity::{SubjectId, Tick};
use crate::keyed::{lemma_map_of_index, Keyed};
use crate::social::agreement::{Agreement, AgreementChange, AgreementEvent, AgreementId, AgreementState};
use crate::social::deed::{Deed, DeedId, DeedKind};
use crate::social::offer::{Offer, Work};
use crate::social::response::{views, PremiseView, Ruling, RulingKind, Verdict};
use crate::social::society::{SocialError, Society};

verus! {

#[derive(Clone, Copy, Debug, Default, PartialEq, Eq, Structural, PartialOrd, Ord, Hash)]
pub struct DwellingId(pub u64);

/// A place someone could live. A record in its own right, like an office:
/// it outlives every tenant it ever has.
#[derive(Clone, Debug, PartialEq, Eq)]
pub struct Dwelling {
    pub id: DwellingId,
    pub name: String,
}

/// One person's residence in one dwelling, and the agreement that put them
/// there. Appended and never rewritten.
#[derive(Clone, Copy, Debug, PartialEq, Eq, Structural)]
pub struct Tenancy {
    pub dwelling: DwellingId,
    pub tenant: SubjectId,
    pub under: AgreementId,
    pub since: Tick,
}

/// Where someone wakes and what they do, read at a moment. Both are `None`
/// for anyone the settlement has not housed.
#[derive(Clone, Copy, Debug, Default, PartialEq, Eq, Structural)]
pub struct DailyRound {
    pub home: Option<DwellingId>,
    pub does: Option<Work>,
}

#[derive(Clone, Copy, Debug, PartialEq, Eq, Structural)]
pub enum SettleError {
    Social(SocialError),
    NoSuchDwelling(DwellingId),
    /// Someone already lives there under a standing agreement. Dwellings are
    /// vacated by an ending, not displaced by a newer offer.
    Occupied(DwellingId, SubjectId),
}

impl From<SocialError> for SettleError {
    fn from(err: SocialError) -> (settled: Self) {
        SettleError::Social(err)
    }
}

impl vstd::std_specs::convert::FromSpecImpl<SocialError> for SettleError {
    open spec fn obeys_from_spec() -> bool {
        true
    }

    open spec fn from_spec(err: SocialError) -> SettleError {
        SettleError::Social(err)
    }
}

/// Whether the agreement under a tenancy still stands.
pub open spec fn stands(agreements: Map<u64, Agreement>, tenancy: Tenancy) -> bool {
    agreements.contains_key(tenancy.under.0) && agreements[tenancy.under.0].state
        == AgreementState::Standing
}

/// The newest tenancy of `subject` whose agreement stands.
pub open spec fn current_of(tenancies: Seq<Tenancy>, agreements: Map<u64, Agreement>, subject: SubjectId) -> Option<
    Tenancy,
>
    decreases tenancies.len(),
{
    if tenancies.len() == 0 {
        None
    } else if tenancies.last().tenant == subject && stands(agreements, tenancies.last()) {
        Some(tenancies.last())
    } else {
        current_of(tenancies.drop_last(), agreements, subject)
    }
}

/// The tenant of the newest tenancy of `dwelling` whose agreement stands.
pub open spec fn tenant_in(tenancies: Seq<Tenancy>, agreements: Map<u64, Agreement>, dwelling: DwellingId) -> Option<
    SubjectId,
>
    decreases tenancies.len(),
{
    if tenancies.len() == 0 {
        None
    } else if tenancies.last().dwelling == dwelling && stands(agreements, tenancies.last()) {
        Some(tenancies.last().tenant)
    } else {
        tenant_in(tenancies.drop_last(), agreements, dwelling)
    }
}

/// Where someone wakes and what they do: the current tenancy's dwelling,
/// and the work of the agreement under it.
pub open spec fn round_of(tenancies: Seq<Tenancy>, agreements: Map<u64, Agreement>, subject: SubjectId) -> DailyRound {
    match current_of(tenancies, agreements, subject) {
        Some(tenancy) => DailyRound {
            home: Some(tenancy.dwelling),
            does: Some(agreements[tenancy.under.0].work),
        },
        None => DailyRound { home: None, does: None },
    }
}

#[derive(Clone, Debug, PartialEq, Eq)]
pub struct Settlement {
    dwellings: Keyed<Dwelling>,
    tenancies: Vec<Tenancy>,
}

impl Settlement {
    pub closed spec fn dwellings_spec(&self) -> Map<u64, Dwelling> {
        self.dwellings.view()
    }

    pub closed spec fn tenancies_spec(&self) -> Seq<Tenancy> {
        self.tenancies@
    }

    pub open spec fn wf(&self) -> bool {
        &&& self.dwellings_wf()
        &&& forall|k: u64| #[trigger]
            self.dwellings_spec().contains_key(k) ==> self.dwellings_spec()[k].id.0 == k
    }

    pub closed spec fn dwellings_wf(&self) -> bool {
        self.dwellings.wf()
    }

    pub fn new() -> (settlement: Self)
        ensures
            settlement.wf(),
            settlement.dwellings_spec() == Map::<u64, Dwelling>::empty(),
            settlement.tenancies_spec() == Seq::<Tenancy>::empty(),
    {
        Settlement { dwellings: Keyed::new(), tenancies: Vec::new() }
    }

    /// Raises a dwelling. Founding is a world act rather than a deed done to
    /// a person, so it moves nobody's standing.
    pub fn found(&mut self, dwelling: Dwelling)
        requires
            old(self).wf(),
        ensures
            final(self).wf(),
            final(self).dwellings_spec() == old(self).dwellings_spec().insert(dwelling.id.0, dwelling),
            final(self).tenancies_spec() == old(self).tenancies_spec(),
    {
        let key = dwelling.id.0;
        self.dwellings.insert(key, dwelling);
        proof {
            assert forall|k: u64| #[trigger] self.dwellings_spec().contains_key(k) implies self.dwellings_spec()[k].id.0 == k by {
                if k != key {
                    assert(old(self).dwellings_spec().contains_key(k));
                }
            }
        }
    }

    pub fn dwelling(&self, id: DwellingId) -> (dwelling: Option<&Dwelling>)
        requires
            self.wf(),
        ensures
            match dwelling {
                Some(d) => self.dwellings_spec().contains_key(id.0) && *d == self.dwellings_spec()[id.0],
                None => !self.dwellings_spec().contains_key(id.0),
            },
    {
        self.dwellings.get(id.0)
    }

    /// Every dwelling, in id order.
    pub fn dwellings(&self) -> (all: Vec<&Dwelling>)
        requires
            self.wf(),
        ensures
            forall|i: int, j: int|
                0 <= i < j < all@.len() ==> (#[trigger] all@[i]).id.0 < (#[trigger] all@[j]).id.0,
            forall|i: int|
                0 <= i < all@.len() ==> self.dwellings_spec().contains_key((#[trigger] all@[i]).id.0)
                    && *all@[i] == self.dwellings_spec()[all@[i].id.0],
            forall|k: u64|
                self.dwellings_spec().contains_key(k) ==> exists|i: int|
                    0 <= i < all@.len() && (#[trigger] all@[i]).id.0 == k,
    {
        let all = self.dwellings.values();
        proof {
            let s = self.dwellings.entries_spec();
            assert forall|i: int| 0 <= i < all@.len() implies (#[trigger] all@[i]).id.0 == s[i].0
                && self.dwellings_spec().contains_key(all@[i].id.0) && *all@[i]
                == self.dwellings_spec()[all@[i].id.0] by {
                lemma_map_of_index(s, i);
                assert(self.dwellings_spec().contains_key(s[i].0));
            }
            assert forall|i: int, j: int| 0 <= i < j < all@.len() implies (#[trigger] all@[i]).id.0
                < (#[trigger] all@[j]).id.0 by {
                assert(all@[i].id.0 == s[i].0);
                assert(all@[j].id.0 == s[j].0);
            }
            assert forall|k: u64| self.dwellings_spec().contains_key(k) implies exists|i: int|
                0 <= i < all@.len() && (#[trigger] all@[i]).id.0 == k by {
                let i = choose|i: int| 0 <= i < s.len() && #[trigger] s[i].0 == k;
                assert(all@[i].id.0 == s[i].0);
            }
        }
        all
    }

    /// Every tenancy ever, oldest first. History, not occupancy.
    pub fn tenancies(&self) -> (all: &[Tenancy])
        ensures
            all@ == self.tenancies_spec(),
    {
        self.tenancies.as_slice()
    }

    fn stands(society: &Society, tenancy: &Tenancy) -> (b: bool)
        requires
            society.wf(),
        ensures
            b == stands(society.agreements_spec(), *tenancy),
    {
        match society.agreement(tenancy.under) {
            Some(agreement) => agreement.standing(),
            None => false,
        }
    }

    /// The tenancy someone currently lives under: the newest whose agreement
    /// still stands.
    fn current_of(&self, society: &Society, subject: SubjectId) -> (current: Option<Tenancy>)
        requires
            society.wf(),
        ensures
            current == current_of(self.tenancies_spec(), society.agreements_spec(), subject),
    {
        let mut i = self.tenancies.len();
        proof {
            assert(self.tenancies@.subrange(0, i as int) =~= self.tenancies@);
        }
        while i > 0
            invariant
                society.wf(),
                i <= self.tenancies@.len(),
                current_of(self.tenancies@, society.agreements_spec(), subject) == current_of(
                    self.tenancies@.subrange(0, i as int),
                    society.agreements_spec(),
                    subject,
                ),
            decreases i,
        {
            let tenancy = self.tenancies[i - 1];
            proof {
                assert(self.tenancies@.subrange(0, i - 1) =~= self.tenancies@.subrange(
                    0,
                    i as int,
                ).drop_last());
            }
            if tenancy.tenant == subject && Self::stands(society, &tenancy) {
                return Some(tenancy);
            }
            i = i - 1;
        }
        None
    }

    /// Where someone lives, or `None` for the unhoused and the moved-out.
    pub fn home_of(&self, society: &Society, subject: SubjectId) -> (home: Option<DwellingId>)
        requires
            society.wf(),
        ensures
            home == round_of(self.tenancies_spec(), society.agreements_spec(), subject).home,
    {
        match self.current_of(society, subject) {
            Some(tenancy) => Some(tenancy.dwelling),
            None => None,
        }
    }

    /// Who lives somewhere, or `None` for a vacant dwelling.
    pub fn tenant_of(&self, society: &Society, dwelling: DwellingId) -> (tenant: Option<SubjectId>)
        requires
            society.wf(),
        ensures
            tenant == tenant_in(self.tenancies_spec(), society.agreements_spec(), dwelling),
    {
        let mut i = self.tenancies.len();
        proof {
            assert(self.tenancies@.subrange(0, i as int) =~= self.tenancies@);
        }
        while i > 0
            invariant
                society.wf(),
                i <= self.tenancies@.len(),
                tenant_in(self.tenancies@, society.agreements_spec(), dwelling) == tenant_in(
                    self.tenancies@.subrange(0, i as int),
                    society.agreements_spec(),
                    dwelling,
                ),
            decreases i,
        {
            let tenancy = self.tenancies[i - 1];
            proof {
                assert(self.tenancies@.subrange(0, i - 1) =~= self.tenancies@.subrange(
                    0,
                    i as int,
                ).drop_last());
            }
            if tenancy.dwelling == dwelling && Self::stands(society, &tenancy) {
                return Some(tenancy.tenant);
            }
            i = i - 1;
        }
        None
    }

    /// Where someone wakes and what they do daily, both read through the
    /// agreement that houses them.
    pub fn daily(&self, society: &Society, subject: SubjectId) -> (round: DailyRound)
        requires
            society.wf(),
        ensures
            round == round_of(self.tenancies_spec(), society.agreements_spec(), subject),
    {
        let current = self.current_of(society, subject);
        proof {
            law_residence_is_derived(self.tenancies_spec(), society.agreements_spec(), subject);
        }
        match current {
            None => DailyRound { home: None, does: None },
            Some(tenancy) => DailyRound {
                home: Some(tenancy.dwelling),
                does: match society.agreement(tenancy.under) {
                    Some(agreement) => Some(agreement.work),
                    None => None,
                },
            },
        }
    }

    /// Offers someone housing and work in one arrangement. The answer is
    /// theirs, weighed exactly as any other offer; a tenancy exists only if
    /// the agreement formed, so a home nobody agreed to cannot be created.
    pub fn offer_home(&mut self, society: &mut Society, offer: &Offer, dwelling: DwellingId, at: Tick) -> (result:
        Result<Ruling, SettleError>)
        requires
            old(self).wf(),
            old(society).ready(),
            old(society).can_weigh(*offer),
            old(society).next_agreement_spec() < u64::MAX,
        ensures
            final(self).wf(),
            final(society).wf(),
            final(self).dwellings_spec() == old(self).dwellings_spec(),
            final(society).next_agreement_spec() <= old(society).next_agreement_spec() + 1,
            !old(self).dwellings_spec().contains_key(dwelling.0) ==> {
                &&& result == Err::<Ruling, SettleError>(SettleError::NoSuchDwelling(dwelling))
                &&& *final(society) == *old(society)
                &&& final(self).tenancies_spec() == old(self).tenancies_spec()
            },
            old(self).dwellings_spec().contains_key(dwelling.0) ==> match tenant_in(
                old(self).tenancies_spec(),
                old(society).agreements_spec(),
                dwelling,
            ) {
                Some(sitting) => {
                    &&& result == Err::<Ruling, SettleError>(SettleError::Occupied(dwelling, sitting))
                    &&& *final(society) == *old(society)
                    &&& final(self).tenancies_spec() == old(self).tenancies_spec()
                },
                None => match old(society).offer_error(*offer) {
                    Some(e) => {
                        &&& result == Err::<Ruling, SettleError>(SettleError::Social(e))
                        &&& *final(society) == *old(society)
                        &&& final(self).tenancies_spec() == old(self).tenancies_spec()
                    },
                    None => if old(society).weighed(*offer).0 != Verdict::Accept {
                        &&& result is Ok
                        &&& result->Ok_0.by == offer.asked_of
                        &&& result->Ok_0.at == at
                        &&& result->Ok_0.kind == RulingKind::Declined
                        &&& views(result->Ok_0.premises@) == old(society).weighed(*offer).1
                        &&& result->Ok_0.recorded is None
                        &&& *final(society) == *old(society)
                        &&& final(self).tenancies_spec() == old(self).tenancies_spec()
                    } else {
                        let id = AgreementId(old(society).next_agreement_spec());
                        let formed = final(society).agreements_spec()[id.0];
                        &&& result is Ok
                        &&& result->Ok_0.by == offer.asked_of
                        &&& result->Ok_0.at == at
                        &&& result->Ok_0.kind == RulingKind::Formed(id)
                        &&& views(result->Ok_0.premises@) == old(society).weighed(*offer).1.push(
                            PremiseView::AgreementTerm {
                                agreement: id,
                                share: offer.terms.share,
                                danger_cap: offer.terms.danger_cap,
                                covers: true,
                            },
                        )
                        &&& result->Ok_0.recorded == Some(DeedId(old(society).deeds().len() as u64))
                        &&& final(society).agreements_spec().contains_key(id.0)
                        &&& formed.id == id
                        &&& formed.holder == offer.asked_of
                        &&& formed.asker == offer.asked_by
                        &&& formed.work == offer.work
                        &&& formed.terms == offer.terms
                        &&& formed.formed_at == at
                        &&& formed.state == AgreementState::Standing
                        &&& formed.history@ == seq![
                            AgreementEvent { at, deed: DeedId(old(society).deeds().len() as u64), what: AgreementChange::Formed },
                        ]
                        &&& final(society).next_agreement_spec() == old(society).next_agreement_spec() + 1
                        &&& final(society).deeds() == old(society).deeds().push(
                            Deed {
                                id: DeedId(old(society).deeds().len() as u64),
                                at,
                                doer: offer.asked_of,
                                toward: Some(offer.asked_by),
                                kind: DeedKind::AgreementFormed(id),
                            },
                        )
                        &&& final(society).companions_spec() == old(society).companions_spec()
                        &&& final(society).agreements_spec().dom() == old(society).agreements_spec().dom().insert(id.0)
                        &&& forall|k: u64| k != id.0 && #[trigger] old(society).agreements_spec().contains_key(k)
                            ==> final(society).agreements_spec()[k] == old(society).agreements_spec()[k]
                        &&& final(self).tenancies_spec() == old(self).tenancies_spec().push(
                            Tenancy { dwelling, tenant: offer.asked_of, under: id, since: at },
                        )
                    },
                },
            },
    {
        if !self.dwellings.contains_key(dwelling.0) {
            return Err(SettleError::NoSuchDwelling(dwelling));
        }
        if let Some(sitting) = self.tenant_of(society, dwelling) {
            return Err(SettleError::Occupied(dwelling, sitting));
        }
        let ruling = match society.form(offer, at) {
            Ok(ruling) => ruling,
            Err(e) => return Err(SettleError::Social(e)),
        };
        if let RulingKind::Formed(id) = ruling.kind {
            self.tenancies.push(Tenancy { dwelling, tenant: offer.asked_of, under: id, since: at });
        }
        proof {
            assert forall|k: u64| #[trigger] self.dwellings_spec().contains_key(k) implies self.dwellings_spec()[k].id.0 == k by {
                assert(old(self).dwellings_spec().contains_key(k));
            }
        }
        Ok(ruling)
    }
}

/// Where someone lives is exactly a tenancy of theirs whose agreement
/// stands: with no standing agreement under any of their tenancies, they
/// live nowhere.
pub proof fn law_residence_is_derived(tenancies: Seq<Tenancy>, agreements: Map<u64, Agreement>, subject: SubjectId)
    ensures
        current_of(tenancies, agreements, subject) is None <==> forall|i: int|
            0 <= i < tenancies.len() && (#[trigger] tenancies[i]).tenant == subject ==> !stands(agreements, tenancies[i]),
        current_of(tenancies, agreements, subject) matches Some(t) ==> t.tenant == subject && stands(
            agreements,
            t,
        ) && tenancies.contains(t),
    decreases tenancies.len(),
{
    if tenancies.len() > 0 {
        let before = tenancies.drop_last();
        law_residence_is_derived(before, agreements, subject);
        assert forall|i: int| 0 <= i < before.len() implies #[trigger] before[i] == tenancies[i] by {}
        let last = tenancies.len() - 1;
        assert(tenancies.last() == tenancies[last]);
        if tenancies[last].tenant == subject && stands(agreements, tenancies[last]) {
            assert(tenancies.contains(tenancies[last]));
        } else {
            assert((forall|i: int|
                0 <= i < tenancies.len() && (#[trigger] tenancies[i]).tenant == subject ==> !stands(
                    agreements,
                    tenancies[i],
                )) <==> (forall|i: int|
                0 <= i < before.len() && (#[trigger] before[i]).tenant == subject ==> !stands(
                    agreements,
                    before[i],
                ))) by {
                if forall|i: int|
                    0 <= i < before.len() && (#[trigger] before[i]).tenant == subject ==> !stands(
                        agreements,
                        before[i],
                    ) {
                    assert forall|i: int|
                        0 <= i < tenancies.len() && (#[trigger] tenancies[i]).tenant == subject implies !stands(
                            agreements,
                            tenancies[i],
                        ) by {
                        if i < last {
                            assert(before[i] == tenancies[i]);
                        }
                    }
                }
            }
            if let Some(t) = current_of(tenancies, agreements, subject) {
                let k = choose|k: int| 0 <= k < before.len() && before[k] == t;
                assert(tenancies[k] == t);
            }
        }
    }
}

/// One person's home moves only with the standing of the agreements under
/// their own tenancies: two societies that agree on those give the same
/// daily round, whatever else differs between them.
pub proof fn law_home_follows_own_agreements(
    tenancies: Seq<Tenancy>,
    before: Map<u64, Agreement>,
    after: Map<u64, Agreement>,
    subject: SubjectId,
)
    requires
        forall|i: int|
            0 <= i < tenancies.len() && (#[trigger] tenancies[i]).tenant == subject ==> stands(before, tenancies[i])
                == stands(after, tenancies[i]) && (stands(before, tenancies[i]) ==> before[tenancies[i].under.0].work
                == after[tenancies[i].under.0].work),
    ensures
        round_of(tenancies, before, subject) == round_of(tenancies, after, subject),
    decreases tenancies.len(),
{
    if tenancies.len() > 0 {
        let shorter = tenancies.drop_last();
        assert forall|i: int|
            0 <= i < shorter.len() && (#[trigger] shorter[i]).tenant == subject implies stands(before, shorter[i])
                == stands(after, shorter[i]) && (stands(before, shorter[i]) ==> before[shorter[i].under.0].work
                == after[shorter[i].under.0].work) by {
            assert(shorter[i] == tenancies[i]);
        }
        law_home_follows_own_agreements(shorter, before, after, subject);
        let last = tenancies.len() - 1;
        if tenancies[last].tenant == subject {
            assert(stands(before, tenancies[last]) == stands(after, tenancies[last]));
        }
    }
}

/// A tenancy just taken up under a standing agreement is where its tenant
/// lives from then on, whatever older homes they still hold: it decides
/// their home and their daily work, and it names them as the dwelling's
/// tenant.
pub proof fn law_the_newest_home_is_where_one_lives(
    tenancies: Seq<Tenancy>,
    agreements: Map<u64, Agreement>,
    t: Tenancy,
)
    requires
        stands(agreements, t),
    ensures
        current_of(tenancies.push(t), agreements, t.tenant) == Some(t),
        round_of(tenancies.push(t), agreements, t.tenant) == (DailyRound {
            home: Some(t.dwelling),
            does: Some(agreements[t.under.0].work),
        }),
        tenant_in(tenancies.push(t), agreements, t.dwelling) == Some(t.tenant),
{
    assert(tenancies.push(t).last() == t);
}

/// Someone's home is their newest tenancy whose agreement stands: no
/// tenancy of theirs taken up after it still stands.
pub proof fn law_home_is_the_newest_standing_tenancy(
    tenancies: Seq<Tenancy>,
    agreements: Map<u64, Agreement>,
    subject: SubjectId,
)
    ensures
        (current_of(tenancies, agreements, subject) matches Some(t) ==> exists|i: int|
            0 <= i < tenancies.len() && tenancies[i] == t && forall|j: int|
                i < j < tenancies.len() && (#[trigger] tenancies[j]).tenant == subject ==> !stands(
                    agreements,
                    tenancies[j],
                )),
    decreases tenancies.len(),
{
    if tenancies.len() > 0 {
        let before = tenancies.drop_last();
        let last = tenancies.len() - 1;
        assert(tenancies.last() == tenancies[last]);
        if tenancies[last].tenant == subject && stands(agreements, tenancies[last]) {
            assert(tenancies[last] == tenancies[last]);
        } else {
            law_home_is_the_newest_standing_tenancy(before, agreements, subject);
            if let Some(t) = current_of(tenancies, agreements, subject) {
                let i = choose|i: int|
                    0 <= i < before.len() && before[i] == t && forall|j: int|
                        i < j < before.len() && (#[trigger] before[j]).tenant == subject ==> !stands(
                            agreements,
                            before[j],
                        );
                assert(tenancies[i] == t);
                assert forall|j: int|
                    i < j < tenancies.len() && (#[trigger] tenancies[j]).tenant == subject implies !stands(
                        agreements,
                        tenancies[j],
                    ) by {
                    if j < last {
                        assert(before[j] == tenancies[j]);
                    }
                }
            }
        }
    }
}

/// A dwelling's tenant is the tenant of its newest tenancy whose agreement
/// stands: no tenancy of the dwelling taken up after it still stands.
pub proof fn law_a_dwelling_holds_its_newest_tenant(
    tenancies: Seq<Tenancy>,
    agreements: Map<u64, Agreement>,
    dwelling: DwellingId,
)
    ensures
        (tenant_in(tenancies, agreements, dwelling) matches Some(who) ==> exists|i: int|
            0 <= i < tenancies.len() && tenancies[i].tenant == who && tenancies[i].dwelling == dwelling && stands(
                agreements,
                tenancies[i],
            ) && forall|j: int|
                i < j < tenancies.len() && (#[trigger] tenancies[j]).dwelling == dwelling ==> !stands(
                    agreements,
                    tenancies[j],
                )),
    decreases tenancies.len(),
{
    if tenancies.len() > 0 {
        let before = tenancies.drop_last();
        let last = tenancies.len() - 1;
        assert(tenancies.last() == tenancies[last]);
        if tenancies[last].dwelling == dwelling && stands(agreements, tenancies[last]) {
            assert(tenancies[last] == tenancies[last]);
        } else {
            law_a_dwelling_holds_its_newest_tenant(before, agreements, dwelling);
            if let Some(who) = tenant_in(tenancies, agreements, dwelling) {
                let i = choose|i: int|
                    0 <= i < before.len() && before[i].tenant == who && before[i].dwelling == dwelling && stands(
                        agreements,
                        before[i],
                    ) && forall|j: int|
                        i < j < before.len() && (#[trigger] before[j]).dwelling == dwelling ==> !stands(
                            agreements,
                            before[j],
                        );
                assert(tenancies[i] == before[i]);
                assert forall|j: int|
                    i < j < tenancies.len() && (#[trigger] tenancies[j]).dwelling == dwelling implies !stands(
                        agreements,
                        tenancies[j],
                    ) by {
                    if j < last {
                        assert(before[j] == tenancies[j]);
                    }
                }
            }
        }
    }
}

} // verus!
