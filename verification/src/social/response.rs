//! Answers, and the premises behind them.
//!
//! Every answer carries an ordered list of [`Premise`], and a premise is
//! machine-readable rather than a rendered sentence: it names the deed ids,
//! the standing, the confidence read, and the thresholds that actually
//! produced the answer. Refusal is a [`Verdict`], not an error.

use vstd::prelude::*;

use crate::identity::{SubjectId, Tick};
use crate::social::agreement::{AgreementId, EndReason};
use crate::social::companion::Craft;
use crate::social::deed::{DeedId, DeedKind};
use crate::social::offer::Terms;

verus! {

/// How an offer was answered.
#[derive(Clone, Copy, Debug, PartialEq, Eq, Structural)]
pub enum Verdict {
    Accept,
    /// A first-class outcome. Recorded, weightless, and theirs.
    Refuse,
    /// Yes, on these terms instead.
    Counteroffer(Terms),
}

impl Verdict {
    pub fn accepted(&self) -> (b: bool)
        ensures
            b == (*self == Verdict::Accept),
    {
        match self {
            Verdict::Accept => true,
            _ => false,
        }
    }

    pub fn name(&self) -> (n: &'static str)
        ensures
            n@ == match *self {
                Verdict::Accept => "accepts"@,
                Verdict::Refuse => "refuses"@,
                Verdict::Counteroffer(_) => "counteroffers"@,
            },
    {
        match self {
            Verdict::Accept => "accepts",
            Verdict::Refuse => "refuses",
            Verdict::Counteroffer(_) => "counteroffers",
        }
    }
}

/// One step of the reasoning, as data. The list is ordered: evidence, then
/// what the evidence adds up to, then the checks it was put against.
#[derive(Clone, Debug, PartialEq, Eq)]
pub enum Premise {
    /// A deed being weighed, and what it was worth.
    Deed { deed: DeedId, at: Tick, doer: SubjectId, kind: DeedKind, trust: i16, affinity: i16 },
    /// What those deeds add up to.
    Standing { toward: SubjectId, trust: i16, affinity: i16, from_deeds: Vec<DeedId> },
    /// Their own read of the work.
    Confidence { craft: Craft, demanded: u8, held: u8, margin: i16 },
    /// The trust this danger asks for, against the trust they hold.
    TrustAsked { danger: u8, asked: i16, held: i16, met: bool },
    /// The danger against what they would bear for this person.
    DangerWeighed { danger: u8, bearable: i16, affinity: i16, caution: i16, borne: bool },
    /// A standing agreement's terms, and whether they cover the work asked.
    AgreementTerm { agreement: AgreementId, share: u8, danger_cap: u8, covers: bool },
    /// A change asked of an existing arrangement.
    TermChange { agreement: AgreementId, from: Terms, to: Terms },
    /// Why an arrangement ended.
    Ending { agreement: AgreementId, why: EndReason },
}

/// A premise as a mathematical value: the same facts, with the cited deeds
/// as a sequence.
pub enum PremiseView {
    Deed { deed: DeedId, at: Tick, doer: SubjectId, kind: DeedKind, trust: i16, affinity: i16 },
    Standing { toward: SubjectId, trust: i16, affinity: i16, from_deeds: Seq<DeedId> },
    Confidence { craft: Craft, demanded: u8, held: u8, margin: i16 },
    TrustAsked { danger: u8, asked: i16, held: i16, met: bool },
    DangerWeighed { danger: u8, bearable: i16, affinity: i16, caution: i16, borne: bool },
    AgreementTerm { agreement: AgreementId, share: u8, danger_cap: u8, covers: bool },
    TermChange { agreement: AgreementId, from: Terms, to: Terms },
    Ending { agreement: AgreementId, why: EndReason },
}

impl View for Premise {
    type V = PremiseView;

    open spec fn view(&self) -> PremiseView {
        match *self {
            Premise::Deed { deed, at, doer, kind, trust, affinity } => PremiseView::Deed {
                deed,
                at,
                doer,
                kind,
                trust,
                affinity,
            },
            Premise::Standing { toward, trust, affinity, from_deeds } => PremiseView::Standing {
                toward,
                trust,
                affinity,
                from_deeds: from_deeds@,
            },
            Premise::Confidence { craft, demanded, held, margin } => PremiseView::Confidence {
                craft,
                demanded,
                held,
                margin,
            },
            Premise::TrustAsked { danger, asked, held, met } => PremiseView::TrustAsked {
                danger,
                asked,
                held,
                met,
            },
            Premise::DangerWeighed { danger, bearable, affinity, caution, borne } =>
                PremiseView::DangerWeighed { danger, bearable, affinity, caution, borne },
            Premise::AgreementTerm { agreement, share, danger_cap, covers } =>
                PremiseView::AgreementTerm { agreement, share, danger_cap, covers },
            Premise::TermChange { agreement, from, to } => PremiseView::TermChange {
                agreement,
                from,
                to,
            },
            Premise::Ending { agreement, why } => PremiseView::Ending { agreement, why },
        }
    }
}

/// A premise list as values.
pub open spec fn views(premises: Seq<Premise>) -> Seq<PremiseView> {
    premises.map_values(|p: Premise| p@)
}

/// The deed ids one premise rests on.
pub open spec fn premise_deeds(premise: PremiseView) -> Seq<DeedId> {
    match premise {
        PremiseView::Deed { deed, .. } => seq![deed],
        PremiseView::Standing { from_deeds, .. } => from_deeds,
        _ => Seq::empty(),
    }
}

/// Deed ids oldest first: strictly increasing, so each once.
pub open spec fn ascending_ids(ids: Seq<DeedId>) -> bool {
    forall|i: int, j: int| 0 <= i < j < ids.len() ==> (#[trigger] ids[i]).0 < (#[trigger] ids[j]).0
}

/// Whether some premise in the list cites `id`.
pub open spec fn cites(premises: Seq<PremiseView>, id: DeedId) -> bool {
    exists|i: int| 0 <= i < premises.len() && premise_deeds(#[trigger] premises[i]).contains(id)
}

/// A citation list is fixed by what it cites: two lists of deed ids, each
/// oldest first, holding the same ids are the same list.
pub proof fn law_cited_is_exact(a: Seq<DeedId>, b: Seq<DeedId>)
    requires
        ascending_ids(a),
        ascending_ids(b),
        forall|id: DeedId| a.contains(id) <==> b.contains(id),
    ensures
        a == b,
    decreases a.len() + b.len(),
{
    if a.len() == 0 {
        if b.len() > 0 {
            assert(b.contains(b[0]));
        }
    } else if b.len() == 0 {
        assert(a.contains(a[0]));
    } else {
        let (x, y) = (a.last(), b.last());
        assert(a.contains(x));
        assert(b.contains(y));
        let i = choose|i: int| 0 <= i < b.len() && b[i] == x;
        let j = choose|j: int| 0 <= j < a.len() && a[j] == y;
        if i < b.len() - 1 {
            assert(b[i].0 < b[b.len() - 1].0);
        }
        if j < a.len() - 1 {
            assert(a[j].0 < a[a.len() - 1].0);
        }
        assert(x == y);
        let (a2, b2) = (a.drop_last(), b.drop_last());
        assert forall|id: DeedId| a2.contains(id) <==> b2.contains(id) by {
            if a2.contains(id) {
                let k = choose|k: int| 0 <= k < a2.len() && a2[k] == id;
                assert(a[k] == id && a[k].0 < a[a.len() - 1].0);
                assert(b.contains(id));
                let m = choose|m: int| 0 <= m < b.len() && b[m] == id;
                assert(m != b.len() - 1);
                assert(b2[m] == id);
            }
            if b2.contains(id) {
                let k = choose|k: int| 0 <= k < b2.len() && b2[k] == id;
                assert(b[k] == id && b[k].0 < b[b.len() - 1].0);
                assert(a.contains(id));
                let m = choose|m: int| 0 <= m < a.len() && a[m] == id;
                assert(m != a.len() - 1);
                assert(a2[m] == id);
            }
        }
        law_cited_is_exact(a2, b2);
        assert(a =~= a2.push(x));
        assert(b =~= b2.push(y));
    }
}

impl Premise {
    /// The deed ids this premise rests on. The explanation surface is only
    /// honest if it points at real entries.
    pub fn deeds(&self) -> (ids: Vec<DeedId>)
        ensures
            ids@ == premise_deeds(self@),
    {
        match self {
            Premise::Deed { deed, .. } => {
                let mut ids = Vec::new();
                ids.push(*deed);
                proof {
                    assert(ids@ =~= seq![*deed]);
                }
                ids
            },
            Premise::Standing { from_deeds, .. } => copy_ids(from_deeds),
            _ => Vec::new(),
        }
    }
}

/// A fresh vector holding the same ids.
pub fn copy_ids(ids: &Vec<DeedId>) -> (copy: Vec<DeedId>)
    ensures
        copy@ == ids@,
{
    let mut copy: Vec<DeedId> = Vec::new();
    let mut i: usize = 0;
    while i < ids.len()
        invariant
            i <= ids@.len(),
            copy@ == ids@.subrange(0, i as int),
        decreases ids@.len() - i,
    {
        copy.push(ids[i]);
        i = i + 1;
        proof {
            assert(copy@ =~= ids@.subrange(0, i as int));
        }
    }
    proof {
        assert(ids@.subrange(0, i as int) =~= ids@);
    }
    copy
}

fn contains_id(ids: &Vec<DeedId>, id: DeedId) -> (b: bool)
    ensures
        b == ids@.contains(id),
{
    let mut i: usize = 0;
    while i < ids.len()
        invariant
            i <= ids@.len(),
            forall|j: int| 0 <= j < i ==> ids@[j] != id,
        decreases ids@.len() - i,
    {
        if ids[i] == id {
            return true;
        }
        i = i + 1;
    }
    false
}

/// `id` put into a list of ids kept oldest first, unless already there.
fn insert_id(ids: &mut Vec<DeedId>, id: DeedId)
    requires
        ascending_ids(old(ids)@),
    ensures
        ascending_ids(final(ids)@),
        forall|x: DeedId| #[trigger] final(ids)@.contains(x) <==> (old(ids)@.contains(x) || x == id),
{
    let mut k: usize = 0;
    while k < ids.len() && ids[k].0 < id.0
        invariant
            k <= ids@.len(),
            forall|t: int| 0 <= t < k ==> (#[trigger] ids@[t]).0 < id.0,
        decreases ids@.len() - k,
    {
        k = k + 1;
    }
    if k < ids.len() && ids[k].0 == id.0 {
        proof {
            assert(ids@[k as int] == id);
        }
        return;
    }
    let ghost before = ids@;
    ids.insert(k, id);
    proof {
        assert forall|i: int, j: int| 0 <= i < j < ids@.len() implies (#[trigger] ids@[i]).0 < (
        #[trigger] ids@[j]).0 by {
            if j < k {
                assert(ids@[i] == before[i] && ids@[j] == before[j]);
            } else if j == k {
                assert(ids@[i] == before[i]);
            } else if i < k {
                assert(ids@[i] == before[i] && ids@[j] == before[j - 1]);
            } else if i == k {
                assert(ids@[j] == before[j - 1]);
                assert(before[k as int].0 > id.0);
                if j - 1 > k {
                    assert(before[k as int].0 < before[j - 1].0);
                }
            } else {
                assert(ids@[i] == before[i - 1] && ids@[j] == before[j - 1]);
            }
        }
        assert forall|x: DeedId| #[trigger] ids@.contains(x) <==> (before.contains(x) || x == id) by {
            if ids@.contains(x) {
                let t = choose|t: int| 0 <= t < ids@.len() && ids@[t] == x;
                if t < k {
                    assert(before[t] == x);
                } else if t > k {
                    assert(before[t - 1] == x);
                }
            }
            if before.contains(x) {
                let t = choose|t: int| 0 <= t < before.len() && before[t] == x;
                if t < k {
                    assert(ids@[t] == x);
                } else {
                    assert(ids@[t + 1] == x);
                }
            }
            if x == id {
                assert(ids@[k as int] == x);
            }
        }
    }
}

/// Every deed id cited anywhere in a premise list, oldest first,
/// deduplicated.
pub fn cited_deeds(premises: &[Premise]) -> (ids: Vec<DeedId>)
    ensures
        ascending_ids(ids@),
        ids@.no_duplicates(),
        forall|id: DeedId| #[trigger] ids@.contains(id) <==> cites(views(premises@), id),
{
    let ghost ps = views(premises@);
    let mut ids: Vec<DeedId> = Vec::new();
    let mut i: usize = 0;
    while i < premises.len()
        invariant
            i <= premises@.len(),
            ps == views(premises@),
            ascending_ids(ids@),
            forall|id: DeedId| #[trigger] ids@.contains(id) <==> cites(ps.subrange(0, i as int), id),
        decreases premises@.len() - i,
    {
        let found = premises[i].deeds();
        let ghost acc = ids@;
        let mut j: usize = 0;
        while j < found.len()
            invariant
                j <= found@.len(),
                ascending_ids(ids@),
                forall|id: DeedId| #[trigger] ids@.contains(id) <==> (acc.contains(id) || found@.subrange(
                    0,
                    j as int,
                ).contains(id)),
            decreases found@.len() - j,
        {
            let ghost prior = ids@;
            insert_id(&mut ids, found[j]);
            proof {
                let f = found@.subrange(0, j + 1);
                assert forall|id: DeedId| #[trigger] ids@.contains(id) <==> (acc.contains(id) || f.contains(id)) by {
                    if f.contains(id) && id != found@[j as int] {
                        let t = choose|t: int| 0 <= t < f.len() && f[t] == id;
                        assert(found@.subrange(0, j as int)[t] == id);
                    }
                    if found@.subrange(0, j as int).contains(id) {
                        let t = choose|t: int| 0 <= t < j && found@.subrange(0, j as int)[t] == id;
                        assert(f[t] == id);
                    }
                    assert(f[j as int] == found@[j as int]);
                }
            }
            j = j + 1;
        }
        proof {
            assert(found@.subrange(0, j as int) =~= found@);
            assert(ps[i as int] == premises@[i as int]@);
            let q = ps.subrange(0, i + 1);
            assert forall|id: DeedId| #[trigger] ids@.contains(id) <==> cites(q, id) by {
                if cites(q, id) {
                    let t = choose|t: int| 0 <= t < q.len() && premise_deeds(#[trigger] q[t]).contains(id);
                    if t < i {
                        assert(ps.subrange(0, i as int)[t] == q[t]);
                    }
                }
                if cites(ps.subrange(0, i as int), id) {
                    let t = choose|t: int|
                        0 <= t < i && premise_deeds(#[trigger] ps.subrange(0, i as int)[t]).contains(id);
                    assert(q[t] == ps.subrange(0, i as int)[t]);
                }
                if found@.contains(id) {
                    assert(q[i as int] == ps[i as int]);
                }
            }
        }
        i = i + 1;
    }
    proof {
        assert(ps.subrange(0, i as int) =~= ps);
        assert forall|a: int, b: int| 0 <= a < ids@.len() && 0 <= b < ids@.len() && a != b implies ids@[a]
            != ids@[b] by {
            if a < b {
                assert(ids@[a].0 < ids@[b].0);
            } else {
                assert(ids@[b].0 < ids@[a].0);
            }
        }
    }
    ids
}

/// An answer to an offer.
#[derive(Clone, Debug, PartialEq, Eq)]
pub struct Response {
    pub by: SubjectId,
    pub at: Tick,
    pub verdict: Verdict,
    pub premises: Vec<Premise>,
    /// Answering is itself a deed, so it is in the log like anything else.
    pub recorded: DeedId,
}

impl Response {
    /// Every deed id the premises cite, oldest first, each once.
    pub fn cited_deeds(&self) -> (ids: Vec<DeedId>)
        ensures
            ascending_ids(ids@),
            forall|id: DeedId| #[trigger] ids@.contains(id) <==> cites(views(self.premises@), id),
    {
        cited_deeds(self.premises.as_slice())
    }
}

/// What happened to a standing agreement.
#[derive(Clone, Copy, Debug, PartialEq, Eq, Structural)]
pub enum RulingKind {
    Formed(AgreementId),
    /// Asked under the agreement and done, without renegotiation.
    Performed,
    /// Asked under the agreement and declined anyway, because the premises
    /// it rested on have changed. An agreement is not a command.
    Declined,
    /// The work asked is not the work agreed.
    OutsideTerms,
    Renegotiated { from: Terms, to: Terms },
    Ended(EndReason),
}

impl RulingKind {
    pub fn name(&self) -> (n: &'static str)
        ensures
            n@ == match *self {
                RulingKind::Formed(_) => "forms the arrangement"@,
                RulingKind::Performed => "does the agreed work"@,
                RulingKind::Declined => "declines, under the arrangement"@,
                RulingKind::OutsideTerms => "says that is not what we agreed"@,
                RulingKind::Renegotiated { .. } => "changes the terms"@,
                RulingKind::Ended(_) => "ends the arrangement"@,
            },
    {
        match self {
            RulingKind::Formed(_) => "forms the arrangement",
            RulingKind::Performed => "does the agreed work",
            RulingKind::Declined => "declines, under the arrangement",
            RulingKind::OutsideTerms => "says that is not what we agreed",
            RulingKind::Renegotiated { .. } => "changes the terms",
            RulingKind::Ended(_) => "ends the arrangement",
        }
    }
}

/// An answer about a standing agreement: an outcome and its premises.
/// `recorded` is `None` when nothing changed, since only transitions are
/// deeds.
#[derive(Clone, Debug, PartialEq, Eq)]
pub struct Ruling {
    pub by: SubjectId,
    pub at: Tick,
    pub kind: RulingKind,
    pub premises: Vec<Premise>,
    pub recorded: Option<DeedId>,
}

impl Ruling {
    /// Every deed id the premises cite, oldest first, each once.
    pub fn cited_deeds(&self) -> (ids: Vec<DeedId>)
        ensures
            ascending_ids(ids@),
            forall|id: DeedId| #[trigger] ids@.contains(id) <==> cites(views(self.premises@), id),
    {
        cited_deeds(self.premises.as_slice())
    }
}

} // verus!
