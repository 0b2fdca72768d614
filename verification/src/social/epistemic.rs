//! An append-only, observer-scoped record of claims about accepted deeds.
//!
//! [`DeedLog`] owns objective events. This record can only observe an
//! existing deed at or after its tick. Entry order, including within one
//! tick, is authoritative and named by [`EpistemicId`].
//!
//! Every operation is stated as a function of the entries so far: it either
//! appends exactly the entry that function names, or answers the error it
//! names and leaves the record as it was. Replay runs each decoded entry
//! back through the same functions, so a record built by the live
//! operations replays to itself.

use vstd::prelude::*;

use crate::identity::{SubjectId, Tick};
use crate::social::deed::{Deed, DeedId, DeedLog};

verus! {

#[derive(Clone, Copy, Debug, Default, PartialEq, Eq, Structural, PartialOrd, Ord, Hash)]
pub struct EpistemicId(pub u64);

#[derive(Clone, Copy, Debug, Default, PartialEq, Eq, Structural, PartialOrd, Ord, Hash)]
pub struct ObservationId(pub u64);

#[derive(Clone, Copy, Debug, Default, PartialEq, Eq, Structural, PartialOrd, Ord, Hash)]
pub struct ClaimId(pub u64);

#[derive(Clone, Copy, Debug, Default, PartialEq, Eq, Structural, PartialOrd, Ord, Hash)]
pub struct ReportId(pub u64);

/// Support can be a direct sighting or an addressed transmission.
#[derive(Clone, Copy, Debug, PartialEq, Eq, Structural, PartialOrd, Ord)]
pub enum Evidence {
    Observation(ObservationId),
    Report(ReportId),
}

/// A reading of one deed.
#[derive(Clone, Copy, Debug, PartialEq, Eq, Structural, PartialOrd, Ord)]
pub struct Proposition {
    pub event: DeedId,
    pub reading: EventReading,
}

#[derive(Clone, Copy, Debug, PartialEq, Eq, Structural, PartialOrd, Ord)]
pub enum EventReading {
    Helped,
    Betrayed,
}

/// A claimant's current derived reading and its pointable revision entry.
#[derive(Clone, Debug, PartialEq, Eq)]
pub struct Belief {
    pub holder: SubjectId,
    pub claim: ClaimId,
    pub revision: EpistemicId,
    pub proposition: Proposition,
    pub supports: Vec<Evidence>,
}

#[derive(Clone, Debug, PartialEq, Eq)]
pub struct EpistemicEntry {
    pub id: EpistemicId,
    pub at: Tick,
    pub record: EpistemicRecord,
}

#[derive(Clone, Debug, PartialEq, Eq)]
pub enum EpistemicRecord {
    Observation { observation: ObservationId, observer: SubjectId, event: DeedId },
    Claim { claim: ClaimId, claimant: SubjectId, proposition: Proposition, supports: Vec<Evidence> },
    Report {
        report: ReportId,
        reporter: SubjectId,
        hearer: SubjectId,
        claim: ClaimId,
        proposition: Proposition,
    },
    Correction {
        corrector: SubjectId,
        corrects: ClaimId,
        replacement: Proposition,
        supports: Vec<Evidence>,
    },
}

#[derive(Clone, Debug, PartialEq, Eq)]
pub struct ClaimHistory {
    pub claim: ClaimId,
    pub reports: Vec<ReportId>,
    pub corrections: Vec<EpistemicId>,
}

#[derive(Clone, Copy, Debug, PartialEq, Eq, Structural)]
pub enum EpistemicError {
    UnknownEvent(DeedId),
    ObservationBeforeEvent { event: DeedId, deed_at: Tick, observation_at: Tick },
    OutOfOrder { previous: Tick, next: Tick },
    MissingSupport,
    ForeignEvidence(Evidence),
    MismatchedSupport(Evidence),
    UnknownObservation(ObservationId),
    UnknownReport(ReportId),
    UnknownClaim(ClaimId),
    CannotReport { reporter: SubjectId, claim: ClaimId, proposition: Proposition },
    NotClaimant { corrector: SubjectId, claim: ClaimId },
    CorrectionChangesEvent { claim: ClaimId, expected: DeedId, found: DeedId },
    UnchangedCorrection(ClaimId),
    ReplayEntryId { expected: EpistemicId, found: EpistemicId },
    ReplayObservationId { expected: ObservationId, found: ObservationId },
    ReplayClaimId { expected: ClaimId, found: ClaimId },
    ReplayReportId { expected: ReportId, found: ReportId },
    ReplayRecordMismatch(EpistemicId),
}

// ---------------------------------------------------------------------------
// The record as mathematical values.

/// A record with its supports as a sequence.
pub enum RecordView {
    Observation { observation: ObservationId, observer: SubjectId, event: DeedId },
    Claim { claim: ClaimId, claimant: SubjectId, proposition: Proposition, supports: Seq<Evidence> },
    Report {
        report: ReportId,
        reporter: SubjectId,
        hearer: SubjectId,
        claim: ClaimId,
        proposition: Proposition,
    },
    Correction {
        corrector: SubjectId,
        corrects: ClaimId,
        replacement: Proposition,
        supports: Seq<Evidence>,
    },
}

pub struct EntryView {
    pub id: EpistemicId,
    pub at: Tick,
    pub record: RecordView,
}

pub struct BeliefView {
    pub holder: SubjectId,
    pub claim: ClaimId,
    pub revision: EpistemicId,
    pub proposition: Proposition,
    pub supports: Seq<Evidence>,
}

impl View for EpistemicRecord {
    type V = RecordView;

    open spec fn view(&self) -> RecordView {
        match self {
            EpistemicRecord::Observation { observation, observer, event } => RecordView::Observation {
                observation: *observation,
                observer: *observer,
                event: *event,
            },
            EpistemicRecord::Claim { claim, claimant, proposition, supports } => RecordView::Claim {
                claim: *claim,
                claimant: *claimant,
                proposition: *proposition,
                supports: supports@,
            },
            EpistemicRecord::Report { report, reporter, hearer, claim, proposition } => RecordView::Report {
                report: *report,
                reporter: *reporter,
                hearer: *hearer,
                claim: *claim,
                proposition: *proposition,
            },
            EpistemicRecord::Correction { corrector, corrects, replacement, supports } => RecordView::Correction {
                corrector: *corrector,
                corrects: *corrects,
                replacement: *replacement,
                supports: supports@,
            },
        }
    }
}

impl View for EpistemicEntry {
    type V = EntryView;

    open spec fn view(&self) -> EntryView {
        EntryView { id: self.id, at: self.at, record: self.record@ }
    }
}

impl View for Belief {
    type V = BeliefView;

    open spec fn view(&self) -> BeliefView {
        BeliefView {
            holder: self.holder,
            claim: self.claim,
            revision: self.revision,
            proposition: self.proposition,
            supports: self.supports@,
        }
    }
}

/// What an entry can be looked up by.
pub enum Seek {
    Observation(ObservationId),
    Claim(ClaimId),
    Report(ReportId),
}

pub open spec fn sought(e: EntryView, k: Seek) -> bool {
    match k {
        Seek::Observation(o) => e.record matches RecordView::Observation { observation, .. } && observation == o,
        Seek::Claim(c) => e.record matches RecordView::Claim { claim, .. } && claim == c,
        Seek::Report(r) => e.record matches RecordView::Report { report, .. } && report == r,
    }
}

/// The position of the first entry that `k` seeks, or -1.
pub open spec fn first_of(s: Seq<EntryView>, k: Seek) -> int
    decreases s.len(),
{
    if s.len() == 0 {
        -1
    } else {
        let before = first_of(s.drop_last(), k);
        if before >= 0 {
            before
        } else if sought(s.last(), k) {
            s.len() - 1
        } else {
            -1
        }
    }
}

/// The number of entries of one kind: observations 0, claims 1, reports 2,
/// corrections 3.
pub open spec fn kind_of(r: RecordView) -> int {
    match r {
        RecordView::Observation { .. } => 0,
        RecordView::Claim { .. } => 1,
        RecordView::Report { .. } => 2,
        RecordView::Correction { .. } => 3,
    }
}

pub open spec fn count_kind(s: Seq<EntryView>, kind: int) -> nat
    decreases s.len(),
{
    if s.len() == 0 {
        0
    } else {
        count_kind(s.drop_last(), kind) + if kind_of(s.last().record) == kind {
            1nat
        } else {
            0nat
        }
    }
}

/// Who observed, and which deed, for an observation on record.
pub open spec fn observation_of(s: Seq<EntryView>, o: ObservationId) -> Option<(SubjectId, DeedId)> {
    let k = first_of(s, Seek::Observation(o));
    if k < 0 {
        None
    } else {
        match s[k].record {
            RecordView::Observation { observer, event, .. } => Some((observer, event)),
            _ => None,
        }
    }
}

/// A claim as first made: its entry, its claimant, its proposition, its
/// supports.
pub struct ClaimFacts {
    pub entry: EpistemicId,
    pub claimant: SubjectId,
    pub proposition: Proposition,
    pub supports: Seq<Evidence>,
}

pub open spec fn claim_of(s: Seq<EntryView>, c: ClaimId) -> Option<ClaimFacts> {
    let k = first_of(s, Seek::Claim(c));
    if k < 0 {
        None
    } else {
        match s[k].record {
            RecordView::Claim { claimant, proposition, supports, .. } => Some(
                ClaimFacts { entry: s[k].id, claimant, proposition, supports },
            ),
            _ => None,
        }
    }
}

/// Reporter, hearer, claim and proposition of a report on record.
pub open spec fn report_of(s: Seq<EntryView>, r: ReportId) -> Option<(SubjectId, SubjectId, ClaimId, Proposition)> {
    let k = first_of(s, Seek::Report(r));
    if k < 0 {
        None
    } else {
        match s[k].record {
            RecordView::Report { reporter, hearer, claim, proposition, .. } => Some(
                (reporter, hearer, claim, proposition),
            ),
            _ => None,
        }
    }
}

pub open spec fn corrects_claim(e: EntryView, c: ClaimId) -> bool {
    e.record matches RecordView::Correction { corrects, .. } && corrects == c
}

/// The position of the newest correction of `c`, or -1.
pub open spec fn latest_correction(s: Seq<EntryView>, c: ClaimId) -> int
    decreases s.len(),
{
    if s.len() == 0 {
        -1
    } else if corrects_claim(s.last(), c) {
        s.len() - 1
    } else {
        latest_correction(s.drop_last(), c)
    }
}

/// The claim's current reading: its newest correction, or the claim itself.
pub open spec fn revision_of(s: Seq<EntryView>, c: ClaimId) -> Option<(EpistemicId, Proposition, Seq<Evidence>)> {
    match claim_of(s, c) {
        None => None,
        Some(facts) => {
            let k = latest_correction(s, c);
            if k < 0 {
                Some((facts.entry, facts.proposition, facts.supports))
            } else {
                match s[k].record {
                    RecordView::Correction { replacement, supports, .. } => Some(
                        (s[k].id, replacement, supports),
                    ),
                    _ => None,
                }
            }
        },
    }
}

/// Whether `hearer` was told exactly `p` under claim `c`.
pub open spec fn told(e: EntryView, hearer: SubjectId, c: ClaimId, p: Proposition) -> bool {
    e.record matches RecordView::Report { hearer: h, claim, proposition, .. } && h == hearer && claim == c
        && proposition == p
}

pub open spec fn was_told(s: Seq<EntryView>, hearer: SubjectId, c: ClaimId, p: Proposition) -> bool {
    exists|i: int| 0 <= i < s.len() && told(#[trigger] s[i], hearer, c, p)
}

// ---------------------------------------------------------------------------
// Supports: deduplicated and ordered, observations first, each by id.

pub open spec fn evidence_key(e: Evidence) -> int {
    match e {
        Evidence::Observation(o) => o.0 as int,
        Evidence::Report(r) => 0x1_0000_0000_0000_0000 + r.0,
    }
}

pub open spec fn strictly_ordered(r: Seq<Evidence>) -> bool {
    forall|i: int, j: int| 0 <= i < j < r.len() ==> evidence_key(#[trigger] r[i]) < evidence_key(#[trigger] r[j])
}

pub open spec fn same_members(a: Seq<Evidence>, b: Seq<Evidence>) -> bool {
    forall|e: Evidence| a.contains(e) <==> b.contains(e)
}

/// The supports in the form a claim keeps them: each piece of evidence once,
/// in evidence order.
pub open spec fn normalized(s: Seq<Evidence>) -> Seq<Evidence> {
    choose|r: Seq<Evidence>| strictly_ordered(r) && same_members(r, s)
}

proof fn lemma_key_injective(a: Evidence, b: Evidence)
    ensures
        evidence_key(a) == evidence_key(b) ==> a == b,
{
}

/// Two ordered sequences with the same members are the same sequence.
proof fn lemma_ordered_unique(a: Seq<Evidence>, b: Seq<Evidence>)
    requires
        strictly_ordered(a),
        strictly_ordered(b),
        same_members(a, b),
    ensures
        a == b,
    decreases a.len(),
{
    if a.len() == 0 {
        if b.len() > 0 {
            assert(b.contains(b[0]));
        }
        assert(a =~= b);
    } else {
        assert(a.contains(a[0]));
        assert(b.len() > 0);
        assert(b.contains(b[0]));
        let ja = choose|j: int| 0 <= j < b.len() && b[j] == a[0];
        let jb = choose|j: int| 0 <= j < a.len() && a[j] == b[0];
        if ja > 0 {
            assert(evidence_key(b[0]) < evidence_key(b[ja]));
        }
        if jb > 0 {
            assert(evidence_key(a[0]) < evidence_key(a[jb]));
        }
        lemma_key_injective(a[0], b[0]);
        assert(a[0] == b[0]);
        let ta = a.drop_first();
        let tb = b.drop_first();
        assert forall|e: Evidence| ta.contains(e) <==> tb.contains(e) by {
            if ta.contains(e) {
                let i = choose|i: int| 0 <= i < ta.len() && ta[i] == e;
                assert(a[i + 1] == e);
                assert(evidence_key(a[0]) < evidence_key(a[i + 1]));
                assert(a.contains(e));
                let j = choose|j: int| 0 <= j < b.len() && b[j] == e;
                assert(j != 0);
                assert(tb[j - 1] == e);
            }
            if tb.contains(e) {
                let i = choose|i: int| 0 <= i < tb.len() && tb[i] == e;
                assert(b[i + 1] == e);
                assert(evidence_key(b[0]) < evidence_key(b[i + 1]));
                assert(b.contains(e));
                let j = choose|j: int| 0 <= j < a.len() && a[j] == e;
                assert(j != 0);
                assert(ta[j - 1] == e);
            }
        }
        lemma_ordered_unique(ta, tb);
        assert forall|i: int| 0 <= i < a.len() implies a[i] == b[i] by {
            if i > 0 {
                assert(a[i] == ta[i - 1]);
                assert(b[i] == tb[i - 1]);
            }
        }
        assert(a =~= b);
    }
}

/// Any ordered sequence with the members of `s` is `normalized(s)`.
proof fn lemma_normalized(r: Seq<Evidence>, s: Seq<Evidence>)
    requires
        strictly_ordered(r),
        same_members(r, s),
    ensures
        normalized(s) == r,
        strictly_ordered(normalized(s)),
        same_members(normalized(s), s),
{
    let n = normalized(s);
    assert(strictly_ordered(n) && same_members(n, s));
    assert(same_members(n, r));
    lemma_ordered_unique(n, r);
}

/// Normalizing supports that are already normalized changes nothing.
pub proof fn lemma_normalized_idempotent(s: Seq<Evidence>, r: Seq<Evidence>)
    requires
        strictly_ordered(r),
        same_members(r, s),
    ensures
        normalized(normalized(s)) == normalized(s),
        s.len() > 0 ==> normalized(s).len() > 0,
{
    lemma_normalized(r, s);
    lemma_normalized(r, r);
    if s.len() > 0 {
        assert(s.contains(s[0]));
        assert(r.contains(s[0]));
    }
}

/// What is wrong with one piece of support for `actor` holding `p`, if
/// anything.
pub open spec fn support_error(s: Seq<EntryView>, actor: SubjectId, p: Proposition, e: Evidence) -> Option<
    EpistemicError,
> {
    match e {
        Evidence::Observation(o) => match observation_of(s, o) {
            None => Some(EpistemicError::UnknownObservation(o)),
            Some((observer, event)) => if observer != actor {
                Some(EpistemicError::ForeignEvidence(e))
            } else if event != p.event {
                Some(EpistemicError::MismatchedSupport(e))
            } else {
                None
            },
        },
        Evidence::Report(r) => match report_of(s, r) {
            None => Some(EpistemicError::UnknownReport(r)),
            Some((_, hearer, _, reported)) => if hearer != actor {
                Some(EpistemicError::ForeignEvidence(e))
            } else if reported != p {
                Some(EpistemicError::MismatchedSupport(e))
            } else {
                None
            },
        },
    }
}

/// The first support, in order, with something wrong.
pub open spec fn first_support_error(
    s: Seq<EntryView>,
    actor: SubjectId,
    p: Proposition,
    list: Seq<Evidence>,
) -> Option<EpistemicError>
    decreases list.len(),
{
    if list.len() == 0 {
        None
    } else {
        match first_support_error(s, actor, p, list.drop_last()) {
            Some(e) => Some(e),
            None => support_error(s, actor, p, list.last()),
        }
    }
}

/// The supports an actor may record for `p`: at least one, each their own
/// and each about the same deed (or the same proposition, for a report).
pub open spec fn supports_result(s: Seq<EntryView>, actor: SubjectId, p: Proposition, given: Seq<Evidence>) -> Result<
    Seq<Evidence>,
    EpistemicError,
> {
    if given.len() == 0 {
        Err(EpistemicError::MissingSupport)
    } else {
        match first_support_error(s, actor, p, normalized(given)) {
            Some(e) => Err(e),
            None => Ok(normalized(given)),
        }
    }
}

/// Entries are appended in tick order; the same tick may repeat.
pub open spec fn order_error(s: Seq<EntryView>, at: Tick) -> Option<EpistemicError> {
    if s.len() > 0 && at.0 < s.last().at.0 {
        Some(EpistemicError::OutOfOrder { previous: s.last().at, next: at })
    } else {
        None
    }
}

/// Appends `record` at `at`, if the tick keeps the order.
pub open spec fn appended(s: Seq<EntryView>, at: Tick, record: RecordView) -> Result<EntryView, EpistemicError> {
    match order_error(s, at) {
        Some(e) => Err(e),
        None => Ok(EntryView { id: EpistemicId(s.len() as u64), at, record }),
    }
}

// ---------------------------------------------------------------------------
// The four live operations, as functions of the record so far.

pub open spec fn observe_result(deeds: Seq<Deed>, s: Seq<EntryView>, at: Tick, observer: SubjectId, event: DeedId) -> Result<
    EntryView,
    EpistemicError,
> {
    if event.0 >= deeds.len() {
        Err(EpistemicError::UnknownEvent(event))
    } else if at.0 < deeds[event.0 as int].at.0 {
        Err(
            EpistemicError::ObservationBeforeEvent {
                event,
                deed_at: deeds[event.0 as int].at,
                observation_at: at,
            },
        )
    } else {
        appended(
            s,
            at,
            RecordView::Observation {
                observation: ObservationId(count_kind(s, 0) as u64),
                observer,
                event,
            },
        )
    }
}

pub open spec fn claim_result(
    s: Seq<EntryView>,
    at: Tick,
    claimant: SubjectId,
    proposition: Proposition,
    given: Seq<Evidence>,
) -> Result<EntryView, EpistemicError> {
    match supports_result(s, claimant, proposition, given) {
        Err(e) => Err(e),
        Ok(supports) => appended(
            s,
            at,
            RecordView::Claim { claim: ClaimId(count_kind(s, 1) as u64), claimant, proposition, supports },
        ),
    }
}

pub open spec fn report_result(
    s: Seq<EntryView>,
    at: Tick,
    reporter: SubjectId,
    hearer: SubjectId,
    claim: ClaimId,
    proposition: Proposition,
) -> Result<EntryView, EpistemicError> {
    match claim_of(s, claim) {
        None => Err(EpistemicError::UnknownClaim(claim)),
        Some(facts) => {
            let owned_current = facts.claimant == reporter && revision_of(s, claim).unwrap().1
                == proposition;
            let received = was_told(s, reporter, claim, proposition);
            if proposition.event != facts.proposition.event || !(owned_current || received) {
                Err(EpistemicError::CannotReport { reporter, claim, proposition })
            } else {
                appended(
                    s,
                    at,
                    RecordView::Report {
                        report: ReportId(count_kind(s, 2) as u64),
                        reporter,
                        hearer,
                        claim,
                        proposition,
                    },
                )
            }
        },
    }
}

pub open spec fn correct_result(
    s: Seq<EntryView>,
    at: Tick,
    corrector: SubjectId,
    corrects: ClaimId,
    replacement: Proposition,
    given: Seq<Evidence>,
) -> Result<EntryView, EpistemicError> {
    match claim_of(s, corrects) {
        None => Err(EpistemicError::UnknownClaim(corrects)),
        Some(facts) => if facts.claimant != corrector {
            Err(EpistemicError::NotClaimant { corrector, claim: corrects })
        } else if replacement.event != facts.proposition.event {
            Err(
                EpistemicError::CorrectionChangesEvent {
                    claim: corrects,
                    expected: facts.proposition.event,
                    found: replacement.event,
                },
            )
        } else if revision_of(s, corrects).unwrap().1 == replacement {
            Err(EpistemicError::UnchangedCorrection(corrects))
        } else {
            match supports_result(s, corrector, replacement, given) {
                Err(e) => Err(e),
                Ok(supports) => appended(
                    s,
                    at,
                    RecordView::Correction { corrector, corrects, replacement, supports },
                ),
            }
        },
    }
}

/// One decoded entry admitted after `s`: its id must come next, the live
/// operation it records must succeed, the ids that operation assigns must
/// be the ones recorded, and what it appends must be the entry itself.
pub open spec fn admitted(deeds: Seq<Deed>, s: Seq<EntryView>, entry: EntryView) -> Result<
    EntryView,
    EpistemicError,
> {
    if entry.id != EpistemicId(s.len() as u64) {
        Err(EpistemicError::ReplayEntryId { expected: EpistemicId(s.len() as u64), found: entry.id })
    } else {
        let made = match entry.record {
            RecordView::Observation { observer, event, .. } => observe_result(deeds, s, entry.at, observer, event),
            RecordView::Claim { claimant, proposition, supports, .. } => claim_result(
                s,
                entry.at,
                claimant,
                proposition,
                supports,
            ),
            RecordView::Report { reporter, hearer, claim, proposition, .. } => report_result(
                s,
                entry.at,
                reporter,
                hearer,
                claim,
                proposition,
            ),
            RecordView::Correction { corrector, corrects, replacement, supports } => correct_result(
                s,
                entry.at,
                corrector,
                corrects,
                replacement,
                supports,
            ),
        };
        match made {
            Err(e) => Err(e),
            Ok(m) => match (entry.record, m.record) {
                (
                    RecordView::Observation { observation: found, .. },
                    RecordView::Observation { observation: expected, .. },
                ) if found != expected => Err(EpistemicError::ReplayObservationId { expected, found }),
                (RecordView::Claim { claim: found, .. }, RecordView::Claim { claim: expected, .. }) if found
                    != expected => Err(EpistemicError::ReplayClaimId { expected, found }),
                (RecordView::Report { report: found, .. }, RecordView::Report { report: expected, .. }) if found
                    != expected => Err(EpistemicError::ReplayReportId { expected, found }),
                _ => if m != entry {
                    Err(EpistemicError::ReplayRecordMismatch(entry.id))
                } else {
                    Ok(m)
                },
            },
        }
    }
}

/// Decoded entries admitted one by one from an empty record.
pub open spec fn replayed(deeds: Seq<Deed>, entries: Seq<EntryView>) -> Result<Seq<EntryView>, EpistemicError>
    decreases entries.len(),
{
    if entries.len() == 0 {
        Ok(Seq::empty())
    } else {
        match replayed(deeds, entries.drop_last()) {
            Err(e) => Err(e),
            Ok(s) => match admitted(deeds, s, entries.last()) {
                Err(e) => Err(e),
                Ok(m) => Ok(s.push(m)),
            },
        }
    }
}

// ---------------------------------------------------------------------------
// Reading the record back.

/// The claims `holder` made, in entry order.
pub open spec fn claims_by(s: Seq<EntryView>, holder: SubjectId) -> Seq<ClaimId>
    decreases s.len(),
{
    if s.len() == 0 {
        Seq::empty()
    } else {
        let before = claims_by(s.drop_last(), holder);
        match s.last().record {
            RecordView::Claim { claim, claimant, .. } if claimant == holder => before.push(claim),
            _ => before,
        }
    }
}

pub open spec fn belief_of(s: Seq<EntryView>, holder: SubjectId, c: ClaimId) -> BeliefView {
    let r = revision_of(s, c).unwrap();
    BeliefView { holder, claim: c, revision: r.0, proposition: r.1, supports: r.2 }
}

pub open spec fn is_report_to(e: EntryView, hearer: SubjectId) -> bool {
    e.record matches RecordView::Report { hearer: h, .. } && h == hearer
}

/// The reports addressed to `hearer`, in entry order.
pub open spec fn received_spec(s: Seq<EntryView>, hearer: SubjectId) -> Seq<EntryView>
    decreases s.len(),
{
    if s.len() == 0 {
        Seq::empty()
    } else if is_report_to(s.last(), hearer) {
        received_spec(s.drop_last(), hearer).push(s.last())
    } else {
        received_spec(s.drop_last(), hearer)
    }
}

/// The reports made under claim `c`, in entry order.
pub open spec fn reports_on(s: Seq<EntryView>, c: ClaimId) -> Seq<ReportId>
    decreases s.len(),
{
    if s.len() == 0 {
        Seq::empty()
    } else {
        let before = reports_on(s.drop_last(), c);
        match s.last().record {
            RecordView::Report { report, claim, .. } if claim == c => before.push(report),
            _ => before,
        }
    }
}

/// The corrections of claim `c`, in entry order.
pub open spec fn corrections_of(s: Seq<EntryView>, c: ClaimId) -> Seq<EpistemicId>
    decreases s.len(),
{
    if s.len() == 0 {
        Seq::empty()
    } else if corrects_claim(s.last(), c) {
        corrections_of(s.drop_last(), c).push(s.last().id)
    } else {
        corrections_of(s.drop_last(), c)
    }
}

/// The facts every record keeps: each entry numbered by its position, ticks
/// never going back, and the next ids of each kind counted from the
/// entries.
pub open spec fn numbered_in_order(s: Seq<EntryView>) -> bool {
    &&& forall|i: int| 0 <= i < s.len() ==> (#[trigger] s[i]).id == EpistemicId(i as u64)
    &&& forall|i: int, j: int| 0 <= i <= j < s.len() ==> (#[trigger] s[i]).at.0 <= (#[trigger] s[j]).at.0
}

// ---------------------------------------------------------------------------
// Lemmas about the record's folds.

pub open spec fn views_of(entries: Seq<EpistemicEntry>) -> Seq<EntryView> {
    entries.map_values(|e: EpistemicEntry| e@)
}

proof fn lemma_take_step<A>(s: Seq<A>, i: int)
    requires
        0 <= i < s.len(),
    ensures
        s.take(i + 1).drop_last() == s.take(i),
        s.take(i + 1).last() == s[i],
        s.take(i + 1).len() == i + 1,
{
    assert(s.take(i + 1).drop_last() =~= s.take(i));
}

proof fn lemma_push_step<A>(s: Seq<A>, e: A)
    ensures
        s.push(e).drop_last() == s,
        s.push(e).last() == e,
{
    assert(s.push(e).drop_last() =~= s);
}

proof fn lemma_first_of_bounds(s: Seq<EntryView>, k: Seek)
    ensures
        -1 <= first_of(s, k) < s.len(),
        first_of(s, k) >= 0 ==> sought(s[first_of(s, k)], k),
        first_of(s, k) >= 0 ==> forall|j: int| 0 <= j < first_of(s, k) ==> !sought(#[trigger] s[j], k),
        first_of(s, k) == -1 ==> forall|j: int| 0 <= j < s.len() ==> !sought(#[trigger] s[j], k),
    decreases s.len(),
{
    if s.len() > 0 {
        let d = s.drop_last();
        lemma_first_of_bounds(d, k);
        let r = first_of(s, k);
        assert forall|j: int| 0 <= j < s.len() && (r == -1 || j < r) implies !sought(#[trigger] s[j], k) by {
            if j < d.len() {
                assert(d[j] == s[j]);
            }
        }
        if r >= 0 && r < d.len() {
            assert(d[r] == s[r]);
        }
    }
}

proof fn lemma_first_of_extends(s: Seq<EntryView>, n: int, k: Seek)
    requires
        0 <= n <= s.len(),
        first_of(s.take(n), k) >= 0,
    ensures
        first_of(s, k) == first_of(s.take(n), k),
    decreases s.len(),
{
    if n == s.len() {
        assert(s.take(n) =~= s);
    } else {
        let d = s.drop_last();
        assert(d.take(n) =~= s.take(n));
        lemma_first_of_extends(d, n, k);
    }
}

proof fn lemma_count_kind_bound(s: Seq<EntryView>, kind: int)
    ensures
        count_kind(s, kind) <= s.len(),
    decreases s.len(),
{
    if s.len() > 0 {
        lemma_count_kind_bound(s.drop_last(), kind);
    }
}

/// A replay that failed on a prefix fails the same way on the whole.
proof fn lemma_replay_error_persists(deeds: Seq<Deed>, entries: Seq<EntryView>, n: int)
    requires
        0 <= n <= entries.len(),
        replayed(deeds, entries.take(n)) is Err,
    ensures
        replayed(deeds, entries) == replayed(deeds, entries.take(n)),
    decreases entries.len(),
{
    if n == entries.len() {
        assert(entries.take(n) =~= entries);
    } else {
        let d = entries.drop_last();
        assert(d.take(n) =~= entries.take(n));
        lemma_replay_error_persists(deeds, d, n);
    }
}

/// Where an ordered sequence would take a new piece of evidence.
proof fn lemma_split_point(r: Seq<Evidence>, e: Evidence) -> (j: int)
    requires
        strictly_ordered(r),
    ensures
        0 <= j <= r.len(),
        forall|i: int| 0 <= i < j ==> evidence_key(#[trigger] r[i]) < evidence_key(e),
        forall|i: int| j <= i < r.len() ==> evidence_key(#[trigger] r[i]) >= evidence_key(e),
    decreases r.len(),
{
    if r.len() == 0 {
        0
    } else if evidence_key(r.last()) < evidence_key(e) {
        assert forall|i: int| 0 <= i < r.len() implies evidence_key(#[trigger] r[i]) < evidence_key(e) by {
            if i < r.len() - 1 {
                assert(evidence_key(r[i]) < evidence_key(r[r.len() - 1]));
            }
        }
        r.len() as int
    } else {
        let d = r.drop_last();
        let j = lemma_split_point(d, e);
        assert forall|i: int| 0 <= i < j implies evidence_key(#[trigger] r[i]) < evidence_key(e) by {
            assert(r[i] == d[i]);
        }
        assert forall|i: int| j <= i < r.len() implies evidence_key(#[trigger] r[i]) >= evidence_key(e) by {
            if i < r.len() - 1 {
                assert(r[i] == d[i]);
            }
        }
        j
    }
}

/// Inserting a new piece of evidence at its split point keeps the order
/// and adds exactly that member.
proof fn lemma_insert_ordered(r: Seq<Evidence>, e: Evidence, j: int)
    requires
        strictly_ordered(r),
        0 <= j <= r.len(),
        forall|i: int| 0 <= i < j ==> evidence_key(#[trigger] r[i]) < evidence_key(e),
        forall|i: int| j <= i < r.len() ==> evidence_key(#[trigger] r[i]) >= evidence_key(e),
        !r.contains(e),
    ensures
        strictly_ordered(r.insert(j, e)),
        forall|x: Evidence| r.insert(j, e).contains(x) <==> (r.contains(x) || x == e),
{
    let t = r.insert(j, e);
    assert forall|i: int| j < i < t.len() implies evidence_key(#[trigger] t[i]) > evidence_key(e) by {
        assert(t[i] == r[i - 1]);
        lemma_key_injective(r[i - 1], e);
        if evidence_key(r[i - 1]) == evidence_key(e) {
            assert(r.contains(r[i - 1]));
        }
    }
    assert forall|a: int, b: int| 0 <= a < b < t.len() implies evidence_key(#[trigger] t[a]) < evidence_key(
        #[trigger] t[b],
    ) by {
        if a < j && b < j {
            assert(t[a] == r[a] && t[b] == r[b]);
        } else if a < j && b == j {
            assert(t[a] == r[a]);
        } else if a < j {
            assert(t[a] == r[a]);
        } else if a == j {
        } else {
            assert(t[a] == r[a - 1] && t[b] == r[b - 1]);
        }
    }
    assert forall|x: Evidence| t.contains(x) <==> (r.contains(x) || x == e) by {
        if t.contains(x) {
            let i = choose|i: int| 0 <= i < t.len() && t[i] == x;
            if i < j {
                assert(r[i] == x);
            } else if i > j {
                assert(r[i - 1] == x);
            }
        }
        if r.contains(x) {
            let i = choose|i: int| 0 <= i < r.len() && r[i] == x;
            if i < j {
                assert(t[i] == x);
            } else {
                assert(t[i + 1] == x);
            }
        }
        if x == e {
            assert(t[j] == e);
        }
    }
}

/// Every list of supports has an ordered form.
proof fn lemma_normal_form(s: Seq<Evidence>) -> (r: Seq<Evidence>)
    ensures
        strictly_ordered(r),
        same_members(r, s),
    decreases s.len(),
{
    if s.len() == 0 {
        Seq::empty()
    } else {
        let d = s.drop_last();
        let e = s.last();
        let r0 = lemma_normal_form(d);
        if r0.contains(e) {
            assert forall|x: Evidence| r0.contains(x) <==> s.contains(x) by {
                if s.contains(x) {
                    let i = choose|i: int| 0 <= i < s.len() && s[i] == x;
                    if i < s.len() - 1 {
                        assert(d[i] == x);
                    }
                }
                if d.contains(x) {
                    let i = choose|i: int| 0 <= i < d.len() && d[i] == x;
                    assert(s[i] == x);
                }
            }
            r0
        } else {
            let j = lemma_split_point(r0, e);
            lemma_insert_ordered(r0, e, j);
            let r = r0.insert(j, e);
            assert forall|x: Evidence| r.contains(x) <==> s.contains(x) by {
                if s.contains(x) {
                    let i = choose|i: int| 0 <= i < s.len() && s[i] == x;
                    if i < s.len() - 1 {
                        assert(d[i] == x);
                    }
                }
                if d.contains(x) {
                    let i = choose|i: int| 0 <= i < d.len() && d[i] == x;
                    assert(s[i] == x);
                }
            }
            r
        }
    }
}

/// Whatever `s` is, `normalized(s)` is ordered and has its members.
pub proof fn lemma_normalized_holds(s: Seq<Evidence>)
    ensures
        strictly_ordered(normalized(s)),
        same_members(normalized(s), s),
        normalized(normalized(s)) == normalized(s),
        s.len() > 0 ==> normalized(s).len() > 0,
{
    let r = lemma_normal_form(s);
    lemma_normalized_idempotent(s, r);
    lemma_normalized(r, s);
}

// ---------------------------------------------------------------------------
// Laws of the record.

/// A replay that succeeds gives back exactly the entries it was handed.
pub proof fn law_replay_gives_back_its_input(deeds: Seq<Deed>, entries: Seq<EntryView>)
    requires
        replayed(deeds, entries) is Ok,
    ensures
        replayed(deeds, entries) == Ok::<Seq<EntryView>, EpistemicError>(entries),
    decreases entries.len(),
{
    if entries.len() > 0 {
        let d = entries.drop_last();
        law_replay_gives_back_its_input(deeds, d);
        let m = admitted(deeds, d, entries.last())->Ok_0;
        assert(m == entries.last());
        assert(d.push(entries.last()) =~= entries);
    } else {
        assert(entries =~= Seq::<EntryView>::empty());
    }
}

/// An entry takes the next place in the record: its id is its position,
/// and its tick is no earlier than the last entry's.
pub open spec fn next_place(s: Seq<EntryView>, m: EntryView) -> bool {
    &&& m.id == EpistemicId(s.len() as u64)
    &&& s.len() > 0 ==> s.last().at.0 <= m.at.0
}

/// Whatever any of the four live operations would append takes the next
/// place in the record; where one refuses, it appends nothing.
pub proof fn law_an_entry_takes_the_next_place(deeds: Seq<Deed>, s: Seq<EntryView>)
    ensures
        forall|at: Tick, observer: SubjectId, event: DeedId|
            #[trigger] observe_result(deeds, s, at, observer, event) matches Ok(m) ==> next_place(s, m),
        forall|at: Tick, claimant: SubjectId, p: Proposition, given: Seq<Evidence>|
            #[trigger] claim_result(s, at, claimant, p, given) matches Ok(m) ==> next_place(s, m),
        forall|at: Tick, reporter: SubjectId, hearer: SubjectId, claim: ClaimId, p: Proposition|
            #[trigger] report_result(s, at, reporter, hearer, claim, p) matches Ok(m) ==> next_place(s, m),
        forall|at: Tick, corrector: SubjectId, corrects: ClaimId, p: Proposition, given: Seq<Evidence>|
            #[trigger] correct_result(s, at, corrector, corrects, p, given) matches Ok(m) ==> next_place(s, m),
{
}

/// Every record the live operations build, starting from an empty one, is
/// numbered in order: each keeps the record well formed, and a well-formed
/// record's ids are its positions and its ticks never go back.
pub proof fn law_the_record_is_numbered_in_order(log: EpistemicLog)
    requires
        log.wf(),
    ensures
        forall|i: int| 0 <= i < log.entries_spec().len() ==> (#[trigger] log.entries_spec()[i]).id == EpistemicId(i as u64),
        forall|i: int, j: int|
            0 <= i <= j < log.entries_spec().len() ==> (#[trigger] log.entries_spec()[i]).at.0 <= (
            #[trigger] log.entries_spec()[j]).at.0,
{
}

/// Replaying against a deed log that has only grown since gives the same
/// record: a deed once accepted stays where it was, so every observation
/// still finds its deed, and nothing else reads the deed log.
pub proof fn law_replay_over_a_grown_log(deeds: Seq<Deed>, grown: Seq<Deed>, entries: Seq<EntryView>)
    requires
        replayed(deeds, entries) is Ok,
        deeds.len() <= grown.len(),
        forall|i: int| 0 <= i < deeds.len() ==> #[trigger] grown[i] == deeds[i],
    ensures
        replayed(grown, entries) == replayed(deeds, entries),
    decreases entries.len(),
{
    if entries.len() > 0 {
        let d = entries.drop_last();
        law_replay_over_a_grown_log(deeds, grown, d);
        let s = replayed(deeds, d)->Ok_0;
        let e = entries.last();
        if let RecordView::Observation { observer, event, .. } = e.record {
            if e.id == EpistemicId(s.len() as u64) {
                assert(observe_result(deeds, s, e.at, observer, event) is Ok);
                assert(grown[event.0 as int] == deeds[event.0 as int]);
                assert(observe_result(grown, s, e.at, observer, event) == observe_result(
                    deeds,
                    s,
                    e.at,
                    observer,
                    event,
                ));
            }
        }
    }
}

/// A record that replays against a deed log still replays after a live
/// observation made against that log or any it has since grown into: the
/// round trip holds for every record the live operations build while the
/// deed log only grows.
pub proof fn law_the_record_replays_as_the_log_grows(
    deeds: Seq<Deed>,
    grown: Seq<Deed>,
    s: Seq<EntryView>,
    at: Tick,
    observer: SubjectId,
    event: DeedId,
)
    requires
        replayed(deeds, s) == Ok::<Seq<EntryView>, EpistemicError>(s),
        deeds.len() <= grown.len(),
        forall|i: int| 0 <= i < deeds.len() ==> #[trigger] grown[i] == deeds[i],
        observe_result(grown, s, at, observer, event) is Ok,
    ensures
        replayed(grown, s) == Ok::<Seq<EntryView>, EpistemicError>(s),
        replayed(grown, s.push(observe_result(grown, s, at, observer, event)->Ok_0)) == Ok::<
            Seq<EntryView>,
            EpistemicError,
        >(s.push(observe_result(grown, s, at, observer, event)->Ok_0)),
{
    law_replay_over_a_grown_log(deeds, grown, s);
    law_observation_replays(grown, s, at, observer, event);
}

/// An observation appended by the live operation replays to itself.
pub proof fn law_observation_replays(deeds: Seq<Deed>, s: Seq<EntryView>, at: Tick, observer: SubjectId, event: DeedId)
    requires
        replayed(deeds, s) == Ok::<Seq<EntryView>, EpistemicError>(s),
        observe_result(deeds, s, at, observer, event) is Ok,
    ensures
        replayed(deeds, s.push(observe_result(deeds, s, at, observer, event)->Ok_0)) == Ok::<
            Seq<EntryView>,
            EpistemicError,
        >(s.push(observe_result(deeds, s, at, observer, event)->Ok_0)),
{
    lemma_push_step(s, observe_result(deeds, s, at, observer, event)->Ok_0);
}

/// A claim appended by the live operation replays to itself: its recorded
/// supports are already in the form the operation would give them.
pub proof fn law_claim_replays(
    deeds: Seq<Deed>,
    s: Seq<EntryView>,
    at: Tick,
    claimant: SubjectId,
    proposition: Proposition,
    given: Seq<Evidence>,
)
    requires
        replayed(deeds, s) == Ok::<Seq<EntryView>, EpistemicError>(s),
        claim_result(s, at, claimant, proposition, given) is Ok,
    ensures
        replayed(deeds, s.push(claim_result(s, at, claimant, proposition, given)->Ok_0)) == Ok::<
            Seq<EntryView>,
            EpistemicError,
        >(s.push(claim_result(s, at, claimant, proposition, given)->Ok_0)),
{
    lemma_normalized_holds(given);
    lemma_push_step(s, claim_result(s, at, claimant, proposition, given)->Ok_0);
}

/// A report appended by the live operation replays to itself.
pub proof fn law_report_replays(
    deeds: Seq<Deed>,
    s: Seq<EntryView>,
    at: Tick,
    reporter: SubjectId,
    hearer: SubjectId,
    claim: ClaimId,
    proposition: Proposition,
)
    requires
        replayed(deeds, s) == Ok::<Seq<EntryView>, EpistemicError>(s),
        report_result(s, at, reporter, hearer, claim, proposition) is Ok,
    ensures
        replayed(deeds, s.push(report_result(s, at, reporter, hearer, claim, proposition)->Ok_0)) == Ok::<
            Seq<EntryView>,
            EpistemicError,
        >(s.push(report_result(s, at, reporter, hearer, claim, proposition)->Ok_0)),
{
    lemma_push_step(s, report_result(s, at, reporter, hearer, claim, proposition)->Ok_0);
}

/// A correction appended by the live operation replays to itself.
pub proof fn law_correction_replays(
    deeds: Seq<Deed>,
    s: Seq<EntryView>,
    at: Tick,
    corrector: SubjectId,
    corrects: ClaimId,
    replacement: Proposition,
    given: Seq<Evidence>,
)
    requires
        replayed(deeds, s) == Ok::<Seq<EntryView>, EpistemicError>(s),
        correct_result(s, at, corrector, corrects, replacement, given) is Ok,
    ensures
        replayed(deeds, s.push(correct_result(s, at, corrector, corrects, replacement, given)->Ok_0)) == Ok::<
            Seq<EntryView>,
            EpistemicError,
        >(s.push(correct_result(s, at, corrector, corrects, replacement, given)->Ok_0)),
{
    lemma_normalized_holds(given);
    lemma_push_step(s, correct_result(s, at, corrector, corrects, replacement, given)->Ok_0);
}


proof fn lemma_support_error_persists(
    s: Seq<EntryView>,
    actor: SubjectId,
    p: Proposition,
    list: Seq<Evidence>,
    n: int,
)
    requires
        0 <= n <= list.len(),
        first_support_error(s, actor, p, list.take(n)) is Some,
    ensures
        first_support_error(s, actor, p, list) == first_support_error(s, actor, p, list.take(n)),
    decreases list.len(),
{
    if n == list.len() {
        assert(list.take(n) =~= list);
    } else {
        let d = list.drop_last();
        assert(d.take(n) =~= list.take(n));
        lemma_support_error_persists(s, actor, p, d, n);
    }
}

proof fn lemma_latest_correction_bounds(s: Seq<EntryView>, c: ClaimId)
    ensures
        -1 <= latest_correction(s, c) < s.len(),
        latest_correction(s, c) >= 0 ==> corrects_claim(s[latest_correction(s, c)], c),
    decreases s.len(),
{
    if s.len() > 0 {
        let d = s.drop_last();
        lemma_latest_correction_bounds(d, c);
        let k = latest_correction(d, c);
        if k >= 0 {
            assert(d[k] == s[k]);
        }
    }
}

/// A claim on record always has a current reading.
proof fn lemma_revision_exists(s: Seq<EntryView>, c: ClaimId)
    ensures
        claim_of(s, c) is Some <==> revision_of(s, c) is Some,
        claim_of(s, c) is Some <==> first_of(s, Seek::Claim(c)) >= 0,
{
    lemma_first_of_bounds(s, Seek::Claim(c));
    lemma_latest_correction_bounds(s, c);
}

/// A claim on record reads as first made whatever is appended after it:
/// its entry, claimant, proposition and supports stay; corrections change
/// its reading, never the claim.
pub proof fn law_a_claim_stays_as_first_made(s: Seq<EntryView>, e: EntryView, c: ClaimId)
    requires
        claim_of(s, c) is Some,
    ensures
        first_of(s.push(e), Seek::Claim(c)) == first_of(s, Seek::Claim(c)),
        claim_of(s.push(e), c) == claim_of(s, c),
{
    lemma_revision_exists(s, c);
    lemma_first_of_bounds(s, Seek::Claim(c));
    lemma_push_step(s, e);
    let k = first_of(s, Seek::Claim(c));
    assert(s.push(e)[k] == s[k]);
}

/// A correction is the claim's reading from the moment it is on record:
/// after it, the claim's revision is that correction's entry, and every
/// holder's belief in the claim carries its proposition and its supports,
/// whatever corrections of the claim came before.
pub proof fn law_the_newest_correction_is_the_reading(
    s: Seq<EntryView>,
    e: EntryView,
    holder: SubjectId,
    c: ClaimId,
)
    requires
        claim_of(s, c) is Some,
        corrects_claim(e, c),
    ensures
        claim_of(s.push(e), c) == claim_of(s, c),
        latest_correction(s.push(e), c) == s.len(),
        e.record matches RecordView::Correction { replacement, supports, .. } ==> {
            &&& revision_of(s.push(e), c) == Some((e.id, replacement, supports))
            &&& belief_of(s.push(e), holder, c) == BeliefView {
                holder,
                claim: c,
                revision: e.id,
                proposition: replacement,
                supports,
            }
        },
{
    law_a_claim_stays_as_first_made(s, e, c);
    lemma_push_step(s, e);
}

/// An entry that does not correct a claim leaves the claim's reading as it
/// was: only its own corrections move it.
pub proof fn law_other_entries_keep_the_reading(s: Seq<EntryView>, e: EntryView, holder: SubjectId, c: ClaimId)
    requires
        claim_of(s, c) is Some,
        !corrects_claim(e, c),
    ensures
        revision_of(s.push(e), c) == revision_of(s, c),
        belief_of(s.push(e), holder, c) == belief_of(s, holder, c),
{
    law_a_claim_stays_as_first_made(s, e, c);
    lemma_push_step(s, e);
    lemma_latest_correction_bounds(s, c);
    let k = latest_correction(s, c);
    if k >= 0 {
        assert(s.push(e)[k] == s[k]);
    }
}

// ---------------------------------------------------------------------------
// The record.

/// Deterministic admitted history. Built by the live operations, or by
/// [`EpistemicLog::replay`] from decoded entries.
#[derive(Clone, Debug, PartialEq, Eq)]
pub struct EpistemicLog {
    entries: Vec<EpistemicEntry>,
    next_entry: u64,
    next_observation: u64,
    next_claim: u64,
    next_report: u64,
}

fn copy_evidence(v: &Vec<Evidence>) -> (copy: Vec<Evidence>)
    ensures
        copy@ == v@,
{
    let mut copy: Vec<Evidence> = Vec::new();
    let mut i: usize = 0;
    while i < v.len()
        invariant
            i <= v@.len(),
            copy@ == v@.take(i as int),
        decreases v@.len() - i,
    {
        copy.push(v[i]);
        i = i + 1;
        proof {
            assert(copy@ =~= v@.take(i as int));
        }
    }
    proof {
        assert(v@.take(i as int) =~= v@);
    }
    copy
}

fn same_evidence(a: &Vec<Evidence>, b: &Vec<Evidence>) -> (same: bool)
    ensures
        same == (a@ == b@),
{
    if a.len() != b.len() {
        return false;
    }
    let mut i: usize = 0;
    while i < a.len()
        invariant
            a@.len() == b@.len(),
            i <= a@.len(),
            forall|j: int| 0 <= j < i ==> a@[j] == b@[j],
        decreases a@.len() - i,
    {
        if a[i] != b[i] {
            return false;
        }
        i = i + 1;
    }
    proof {
        assert(a@ =~= b@);
    }
    true
}

fn same_entry(a: &EpistemicEntry, b: &EpistemicEntry) -> (same: bool)
    ensures
        same == (a@ == b@),
{
    if a.id != b.id || a.at != b.at {
        return false;
    }
    match (&a.record, &b.record) {
        (
            EpistemicRecord::Observation { observation: o1, observer: w1, event: e1 },
            EpistemicRecord::Observation { observation: o2, observer: w2, event: e2 },
        ) => *o1 == *o2 && *w1 == *w2 && *e1 == *e2,
        (
            EpistemicRecord::Claim { claim: c1, claimant: w1, proposition: p1, supports: s1 },
            EpistemicRecord::Claim { claim: c2, claimant: w2, proposition: p2, supports: s2 },
        ) => *c1 == *c2 && *w1 == *w2 && *p1 == *p2 && same_evidence(s1, s2),
        (
            EpistemicRecord::Report { report: r1, reporter: a1, hearer: h1, claim: c1, proposition: p1 },
            EpistemicRecord::Report { report: r2, reporter: a2, hearer: h2, claim: c2, proposition: p2 },
        ) => *r1 == *r2 && *a1 == *a2 && *h1 == *h2 && *c1 == *c2 && *p1 == *p2,
        (
            EpistemicRecord::Correction { corrector: w1, corrects: c1, replacement: p1, supports: s1 },
            EpistemicRecord::Correction { corrector: w2, corrects: c2, replacement: p2, supports: s2 },
        ) => *w1 == *w2 && *c1 == *c2 && *p1 == *p2 && same_evidence(s1, s2),
        _ => false,
    }
}

fn evidence_before(a: Evidence, b: Evidence) -> (before: bool)
    ensures
        before == (evidence_key(a) < evidence_key(b)),
{
    match (a, b) {
        (Evidence::Observation(x), Evidence::Observation(y)) => x.0 < y.0,
        (Evidence::Observation(_), Evidence::Report(_)) => true,
        (Evidence::Report(_), Evidence::Observation(_)) => false,
        (Evidence::Report(x), Evidence::Report(y)) => x.0 < y.0,
    }
}

/// The supports with each piece of evidence once, in evidence order.
fn normalize(given: &[Evidence]) -> (ordered: Vec<Evidence>)
    ensures
        ordered@ == normalized(given@),
{
    let mut out: Vec<Evidence> = Vec::new();
    let mut i: usize = 0;
    while i < given.len()
        invariant
            i <= given@.len(),
            strictly_ordered(out@),
            same_members(out@, given@.take(i as int)),
        decreases given@.len() - i,
    {
        let e = given[i];
        let mut j: usize = 0;
        while j < out.len() && evidence_before(out[j], e)
            invariant
                j <= out@.len(),
                strictly_ordered(out@),
                forall|k: int| 0 <= k < j ==> evidence_key(#[trigger] out@[k]) < evidence_key(e),
            decreases out@.len() - j,
        {
            j = j + 1;
        }
        proof {
            assert forall|k: int| j <= k < out@.len() implies evidence_key(#[trigger] out@[k]) >= evidence_key(e) by {
                if k > j {
                    assert(evidence_key(out@[j as int]) < evidence_key(out@[k]));
                }
            }
            lemma_take_step(given@, i as int);
        }
        let present = j < out.len() && out[j] == e;
        if !present {
            proof {
                if out@.contains(e) {
                    let k = choose|k: int| 0 <= k < out@.len() && out@[k] == e;
                    lemma_key_injective(out@[k], e);
                    if k < j {
                    } else if k > j {
                        assert(evidence_key(out@[j as int]) < evidence_key(out@[k]));
                    }
                }
                lemma_insert_ordered(out@, e, j as int);
            }
            out.insert(j, e);
        }
        proof {
            let t = given@.take(i + 1);
            assert forall|x: Evidence| out@.contains(x) <==> t.contains(x) by {
                let d = given@.take(i as int);
                if t.contains(x) {
                    let k = choose|k: int| 0 <= k < t.len() && t[k] == x;
                    if k < i {
                        assert(d[k] == x);
                    }
                }
                if d.contains(x) {
                    let k = choose|k: int| 0 <= k < d.len() && d[k] == x;
                    assert(t[k] == x);
                }
                if present && x == e {
                    assert(out@[j as int] == e);
                }
                assert(t[i as int] == e);
            }
        }
        i = i + 1;
    }
    proof {
        assert(given@.take(i as int) =~= given@);
        lemma_normalized(out@, given@);
    }
    out
}

impl EpistemicLog {
    pub closed spec fn entries_spec(&self) -> Seq<EntryView> {
        views_of(self.entries@)
    }

    pub closed spec fn counters_wf(&self) -> bool {
        let s = self.entries_spec();
        &&& self.next_entry == s.len()
        &&& self.next_observation == count_kind(s, 0)
        &&& self.next_claim == count_kind(s, 1)
        &&& self.next_report == count_kind(s, 2)
    }

    /// Entries numbered by position, ticks in order, and each kind's next
    /// id counted from the entries.
    pub open spec fn wf(&self) -> bool {
        &&& numbered_in_order(self.entries_spec())
        &&& self.counters_wf()
    }

    pub fn new() -> (log: Self)
        ensures
            log.wf(),
            log.entries_spec() == Seq::<EntryView>::empty(),
    {
        let log = EpistemicLog {
            entries: Vec::new(),
            next_entry: 0,
            next_observation: 0,
            next_claim: 0,
            next_report: 0,
        };
        proof {
            assert(log.entries_spec() =~= Seq::<EntryView>::empty());
        }
        log
    }

    pub fn entries(&self) -> (all: &[EpistemicEntry])
        ensures
            views_of(all@) == self.entries_spec(),
    {
        self.entries.as_slice()
    }

    pub fn len(&self) -> (n: usize)
        ensures
            n == self.entries_spec().len(),
    {
        self.entries.len()
    }

    pub fn is_empty(&self) -> (b: bool)
        ensures
            b == (self.entries_spec().len() == 0),
    {
        self.entries.len() == 0
    }

    /// Appends a record under the next entry id, if its tick keeps the
    /// order, and counts it toward its kind's next id.
    fn append(&mut self, at: Tick, record: EpistemicRecord) -> (id: Result<EpistemicId, EpistemicError>)
        requires
            old(self).wf(),
            old(self).entries_spec().len() < u64::MAX,
        ensures
            final(self).wf(),
            match appended(old(self).entries_spec(), at, record@) {
                Err(e) => id == Err::<EpistemicId, EpistemicError>(e) && *final(self) == *old(self),
                Ok(entry) => id == Ok::<EpistemicId, EpistemicError>(entry.id) && final(self).entries_spec()
                    == old(self).entries_spec().push(entry),
            },
    {
        let ghost s = self.entries_spec();
        let n = self.entries.len();
        if n > 0 {
            let previous = self.entries[n - 1].at;
            if at.0 < previous.0 {
                return Err(EpistemicError::OutOfOrder { previous, next: at });
            }
        }
        proof {
            lemma_count_kind_bound(s, 0);
            lemma_count_kind_bound(s, 1);
            lemma_count_kind_bound(s, 2);
        }
        let kind: u8 = match &record {
            EpistemicRecord::Observation { .. } => 0,
            EpistemicRecord::Claim { .. } => 1,
            EpistemicRecord::Report { .. } => 2,
            EpistemicRecord::Correction { .. } => 3,
        };
        let id = EpistemicId(self.next_entry);
        let ghost entry = EntryView { id, at, record: record@ };
        self.entries.push(EpistemicEntry { id, at, record });
        self.next_entry = self.next_entry + 1;
        if kind == 0 {
            self.next_observation = self.next_observation + 1;
        } else if kind == 1 {
            self.next_claim = self.next_claim + 1;
        } else if kind == 2 {
            self.next_report = self.next_report + 1;
        }
        proof {
            let t = self.entries_spec();
            assert(t =~= s.push(entry));
            lemma_push_step(s, entry);
            assert forall|i: int, j: int| 0 <= i <= j < t.len() implies (#[trigger] t[i]).at.0 <= (
            #[trigger] t[j]).at.0 by {
                if j == t.len() - 1 && i < j {
                    assert(t[i] == s[i]);
                    assert(s[i].at.0 <= s[s.len() - 1].at.0);
                } else if j < t.len() - 1 {
                    assert(t[i] == s[i] && t[j] == s[j]);
                }
            }
            assert forall|i: int| 0 <= i < t.len() implies (#[trigger] t[i]).id == EpistemicId(i as u64) by {
                if i < s.len() {
                    assert(t[i] == s[i]);
                }
            }
        }
        Ok(id)
    }

    /// The position of the first entry with this observation id.
    fn observation_at(&self, observation: ObservationId) -> (k: Option<usize>)
        ensures
            match k {
                Some(i) => i as int == first_of(self.entries_spec(), Seek::Observation(observation)),
                None => first_of(self.entries_spec(), Seek::Observation(observation)) == -1,
            },
    {
        let ghost s = self.entries_spec();
        let ghost k = Seek::Observation(observation);
        let mut i: usize = 0;
        while i < self.entries.len()
            invariant
                i <= s.len(),
                s == self.entries_spec(),
                k == Seek::Observation(observation),
                first_of(s.take(i as int), k) == -1,
            decreases s.len() - i,
        {
            proof {
                lemma_take_step(s, i as int);
                assert(s[i as int] == self.entries@[i as int]@);
            }
            if let EpistemicRecord::Observation { observation: found, .. } = &self.entries[i].record {
                if *found == observation {
                    proof {
                        assert(sought(s[i as int], k));
                        assert(first_of(s.take(i + 1), k) == i);
                        lemma_first_of_extends(s, i + 1, k);
                    }
                    return Some(i);
                }
            }
            i = i + 1;
        }
        proof {
            assert(s.take(i as int) =~= s);
        }
        None
    }

    /// The position of the first entry with this claim id.
    fn claim_at(&self, claim: ClaimId) -> (k: Option<usize>)
        ensures
            match k {
                Some(i) => i as int == first_of(self.entries_spec(), Seek::Claim(claim)),
                None => first_of(self.entries_spec(), Seek::Claim(claim)) == -1,
            },
    {
        let ghost s = self.entries_spec();
        let ghost k = Seek::Claim(claim);
        let mut i: usize = 0;
        while i < self.entries.len()
            invariant
                i <= s.len(),
                s == self.entries_spec(),
                k == Seek::Claim(claim),
                first_of(s.take(i as int), k) == -1,
            decreases s.len() - i,
        {
            proof {
                lemma_take_step(s, i as int);
                assert(s[i as int] == self.entries@[i as int]@);
            }
            if let EpistemicRecord::Claim { claim: found, .. } = &self.entries[i].record {
                if *found == claim {
                    proof {
                        assert(sought(s[i as int], k));
                        assert(first_of(s.take(i + 1), k) == i);
                        lemma_first_of_extends(s, i + 1, k);
                    }
                    return Some(i);
                }
            }
            i = i + 1;
        }
        proof {
            assert(s.take(i as int) =~= s);
        }
        None
    }

    /// The position of the first entry with this report id.
    fn report_at(&self, report: ReportId) -> (k: Option<usize>)
        ensures
            match k {
                Some(i) => i as int == first_of(self.entries_spec(), Seek::Report(report)),
                None => first_of(self.entries_spec(), Seek::Report(report)) == -1,
            },
    {
        let ghost s = self.entries_spec();
        let ghost k = Seek::Report(report);
        let mut i: usize = 0;
        while i < self.entries.len()
            invariant
                i <= s.len(),
                s == self.entries_spec(),
                k == Seek::Report(report),
                first_of(s.take(i as int), k) == -1,
            decreases s.len() - i,
        {
            proof {
                lemma_take_step(s, i as int);
                assert(s[i as int] == self.entries@[i as int]@);
            }
            if let EpistemicRecord::Report { report: found, .. } = &self.entries[i].record {
                if *found == report {
                    proof {
                        assert(sought(s[i as int], k));
                        assert(first_of(s.take(i + 1), k) == i);
                        lemma_first_of_extends(s, i + 1, k);
                    }
                    return Some(i);
                }
            }
            i = i + 1;
        }
        proof {
            assert(s.take(i as int) =~= s);
        }
        None
    }

    fn observation_details(&self, observation: ObservationId) -> (details: Result<(SubjectId, DeedId), EpistemicError>)
        ensures
            match observation_of(self.entries_spec(), observation) {
                None => details == Err::<(SubjectId, DeedId), EpistemicError>(
                    EpistemicError::UnknownObservation(observation),
                ),
                Some(d) => details == Ok::<(SubjectId, DeedId), EpistemicError>(d),
            },
    {
        proof {
            lemma_first_of_bounds(self.entries_spec(), Seek::Observation(observation));
        }
        match self.observation_at(observation) {
            None => Err(EpistemicError::UnknownObservation(observation)),
            Some(i) => match &self.entries[i].record {
                EpistemicRecord::Observation { observer, event, .. } => Ok((*observer, *event)),
                _ => Err(EpistemicError::UnknownObservation(observation)),
            },
        }
    }

    fn claim_details(&self, claim: ClaimId) -> (details: Result<(SubjectId, Proposition), EpistemicError>)
        ensures
            match claim_of(self.entries_spec(), claim) {
                None => details == Err::<(SubjectId, Proposition), EpistemicError>(
                    EpistemicError::UnknownClaim(claim),
                ),
                Some(facts) => details == Ok::<(SubjectId, Proposition), EpistemicError>(
                    (facts.claimant, facts.proposition),
                ),
            },
    {
        proof {
            lemma_first_of_bounds(self.entries_spec(), Seek::Claim(claim));
        }
        match self.claim_at(claim) {
            None => Err(EpistemicError::UnknownClaim(claim)),
            Some(i) => match &self.entries[i].record {
                EpistemicRecord::Claim { claimant, proposition, .. } => Ok((*claimant, *proposition)),
                _ => Err(EpistemicError::UnknownClaim(claim)),
            },
        }
    }

    fn report_details(&self, report: ReportId) -> (details: Result<
        (SubjectId, SubjectId, ClaimId, Proposition),
        EpistemicError,
    >)
        ensures
            match report_of(self.entries_spec(), report) {
                None => details == Err::<(SubjectId, SubjectId, ClaimId, Proposition), EpistemicError>(
                    EpistemicError::UnknownReport(report),
                ),
                Some(d) => details == Ok::<(SubjectId, SubjectId, ClaimId, Proposition), EpistemicError>(d),
            },
    {
        proof {
            lemma_first_of_bounds(self.entries_spec(), Seek::Report(report));
        }
        match self.report_at(report) {
            None => Err(EpistemicError::UnknownReport(report)),
            Some(i) => match &self.entries[i].record {
                EpistemicRecord::Report { reporter, hearer, claim, proposition, .. } => Ok(
                    (*reporter, *hearer, *claim, *proposition),
                ),
                _ => Err(EpistemicError::UnknownReport(report)),
            },
        }
    }

    /// The claim's current reading: the claim itself, folded through every
    /// later correction of it.
    fn current_revision(&self, claim: ClaimId) -> (current: Result<
        (EpistemicId, Proposition, Vec<Evidence>),
        EpistemicError,
    >)
        ensures
            match revision_of(self.entries_spec(), claim) {
                None => current is Err && current->Err_0 == EpistemicError::UnknownClaim(claim),
                Some(r) => current is Ok && current->Ok_0.0 == r.0 && current->Ok_0.1 == r.1
                    && current->Ok_0.2@ == r.2,
            },
    {
        let ghost s = self.entries_spec();
        proof {
            lemma_first_of_bounds(s, Seek::Claim(claim));
        }
        let at = match self.claim_at(claim) {
            None => return Err(EpistemicError::UnknownClaim(claim)),
            Some(i) => i,
        };
        let (mut id, mut proposition, mut supports) = match &self.entries[at].record {
            EpistemicRecord::Claim { proposition, supports, .. } => (
                self.entries[at].id,
                *proposition,
                copy_evidence(supports),
            ),
            _ => return Err(EpistemicError::UnknownClaim(claim)),
        };
        let mut i: usize = 0;
        while i < self.entries.len()
            invariant
                i <= s.len(),
                s == self.entries_spec(),
                0 <= at < s.len(),
                claim_of(s, claim) is Some,
                ({
                    let k = latest_correction(s.take(i as int), claim);
                    let facts = claim_of(s, claim)->Some_0;
                    if k < 0 {
                        id == facts.entry && proposition == facts.proposition && supports@ == facts.supports
                    } else {
                        s[k].record matches RecordView::Correction { replacement, supports: sv, .. } && id
                            == s[k].id && proposition == replacement && supports@ == sv
                    }
                }),
            decreases s.len() - i,
        {
            proof {
                lemma_take_step(s, i as int);
                assert(s[i as int] == self.entries@[i as int]@);
            }
            if let EpistemicRecord::Correction { corrects, replacement, supports: found, .. } = &self.entries[i].record {
                if *corrects == claim {
                    id = self.entries[i].id;
                    proposition = *replacement;
                    supports = copy_evidence(found);
                }
            }
            proof {
                let t = s.take(i + 1);
                if !corrects_claim(s[i as int], claim) {
                    let k = latest_correction(s.take(i as int), claim);
                    assert(latest_correction(t, claim) == k);
                }
            }
            i = i + 1;
        }
        proof {
            assert(s.take(i as int) =~= s);
        }
        Ok((id, proposition, supports))
    }
}

impl EpistemicLog {
    /// The supports `actor` may record for `p`, in their recorded form.
    fn supports_for(&self, actor: SubjectId, p: Proposition, given: &[Evidence]) -> (supports: Result<
        Vec<Evidence>,
        EpistemicError,
    >)
        ensures
            match supports_result(self.entries_spec(), actor, p, given@) {
                Err(e) => supports is Err && supports->Err_0 == e,
                Ok(r) => supports is Ok && supports->Ok_0@ == r,
            },
    {
        let ghost s = self.entries_spec();
        if given.len() == 0 {
            return Err(EpistemicError::MissingSupport);
        }
        let list = normalize(given);
        let mut i: usize = 0;
        while i < list.len()
            invariant
                i <= list@.len(),
                s == self.entries_spec(),
                list@ == normalized(given@),
                given@.len() > 0,
                first_support_error(s, actor, p, list@.take(i as int)) is None,
            decreases list@.len() - i,
        {
            let support = list[i];
            proof {
                lemma_take_step(list@, i as int);
            }
            let wrong: Option<EpistemicError> = match support {
                Evidence::Observation(id) => match self.observation_details(id) {
                    Err(e) => Some(e),
                    Ok((observer, event)) => if observer != actor {
                        Some(EpistemicError::ForeignEvidence(support))
                    } else if event != p.event {
                        Some(EpistemicError::MismatchedSupport(support))
                    } else {
                        None
                    },
                },
                Evidence::Report(id) => match self.report_details(id) {
                    Err(e) => Some(e),
                    Ok((_, hearer, _, reported)) => if hearer != actor {
                        Some(EpistemicError::ForeignEvidence(support))
                    } else if reported != p {
                        Some(EpistemicError::MismatchedSupport(support))
                    } else {
                        None
                    },
                },
            };
            proof {
                assert(wrong == support_error(s, actor, p, support));
            }
            if let Some(e) = wrong {
                proof {
                    let t = list@.take(i + 1);
                    assert(t.drop_last() == list@.take(i as int));
                    assert(t.last() == support);
                    assert(first_support_error(s, actor, p, t) == Some(e));
                    lemma_support_error_persists(s, actor, p, list@, i + 1);
                }
                return Err(e);
            }
            i = i + 1;
        }
        proof {
            assert(list@.take(i as int) =~= list@);
        }
        Ok(list)
    }

    /// Records that `observer` saw a deed already accepted by `deeds`.
    pub fn observe(&mut self, deeds: &DeedLog, at: Tick, observer: SubjectId, event: DeedId) -> (observed: Result<
        ObservationId,
        EpistemicError,
    >)
        requires
            old(self).wf(),
            deeds.wf(),
            old(self).entries_spec().len() < u64::MAX,
        ensures
            final(self).wf(),
            match observe_result(deeds.deeds_spec(), old(self).entries_spec(), at, observer, event) {
                Err(e) => observed == Err::<ObservationId, EpistemicError>(e) && *final(self) == *old(self),
                Ok(entry) => observed == Ok::<ObservationId, EpistemicError>(
                    ObservationId(count_kind(old(self).entries_spec(), 0) as u64),
                ) && final(self).entries_spec() == old(self).entries_spec().push(entry),
            },
    {
        let deed = match deeds.get(event) {
            Some(deed) => deed,
            None => return Err(EpistemicError::UnknownEvent(event)),
        };
        if at.0 < deed.at.0 {
            return Err(
                EpistemicError::ObservationBeforeEvent { event, deed_at: deed.at, observation_at: at },
            );
        }
        let observation = ObservationId(self.next_observation);
        match self.append(at, EpistemicRecord::Observation { observation, observer, event }) {
            Err(e) => Err(e),
            Ok(_) => Ok(observation),
        }
    }

    /// Records `claimant`'s reading of a deed, on supports of their own.
    pub fn claim(&mut self, at: Tick, claimant: SubjectId, proposition: Proposition, supports: &[Evidence]) -> (claimed:
        Result<ClaimId, EpistemicError>)
        requires
            old(self).wf(),
            old(self).entries_spec().len() < u64::MAX,
        ensures
            final(self).wf(),
            match claim_result(old(self).entries_spec(), at, claimant, proposition, supports@) {
                Err(e) => claimed == Err::<ClaimId, EpistemicError>(e) && *final(self) == *old(self),
                Ok(entry) => claimed == Ok::<ClaimId, EpistemicError>(
                    ClaimId(count_kind(old(self).entries_spec(), 1) as u64),
                ) && final(self).entries_spec() == old(self).entries_spec().push(entry),
            },
    {
        let supports = match self.supports_for(claimant, proposition, supports) {
            Err(e) => return Err(e),
            Ok(supports) => supports,
        };
        let claim = ClaimId(self.next_claim);
        match self.append(at, EpistemicRecord::Claim { claim, claimant, proposition, supports }) {
            Err(e) => Err(e),
            Ok(_) => Ok(claim),
        }
    }

    /// Whether `hearer` was told exactly `p` under claim `c`.
    fn was_told(&self, hearer: SubjectId, c: ClaimId, p: Proposition) -> (b: bool)
        ensures
            b == was_told(self.entries_spec(), hearer, c, p),
    {
        let ghost s = self.entries_spec();
        let mut i: usize = 0;
        while i < self.entries.len()
            invariant
                i <= s.len(),
                s == self.entries_spec(),
                forall|j: int| 0 <= j < i ==> !told(#[trigger] s[j], hearer, c, p),
            decreases s.len() - i,
        {
            proof {
                assert(s[i as int] == self.entries@[i as int]@);
            }
            if let EpistemicRecord::Report { hearer: h, claim, proposition, .. } = &self.entries[i].record {
                if *h == hearer && *claim == c && *proposition == p {
                    proof {
                        assert(told(s[i as int], hearer, c, p));
                    }
                    return true;
                }
            }
            i = i + 1;
        }
        false
    }

    /// Transmits an exact proposition the reporter owns or was previously
    /// told.
    pub fn report(
        &mut self,
        at: Tick,
        reporter: SubjectId,
        hearer: SubjectId,
        claim: ClaimId,
        proposition: Proposition,
    ) -> (reported: Result<ReportId, EpistemicError>)
        requires
            old(self).wf(),
            old(self).entries_spec().len() < u64::MAX,
        ensures
            final(self).wf(),
            match report_result(old(self).entries_spec(), at, reporter, hearer, claim, proposition) {
                Err(e) => reported == Err::<ReportId, EpistemicError>(e) && *final(self) == *old(self),
                Ok(entry) => reported == Ok::<ReportId, EpistemicError>(
                    ReportId(count_kind(old(self).entries_spec(), 2) as u64),
                ) && final(self).entries_spec() == old(self).entries_spec().push(entry),
            },
    {
        proof {
            lemma_revision_exists(self.entries_spec(), claim);
        }
        let (claimant, claimed) = match self.claim_details(claim) {
            Err(e) => return Err(e),
            Ok(details) => details,
        };
        let owned_current = if claimant == reporter {
            match self.current_revision(claim) {
                Err(e) => return Err(e),
                Ok(current) => current.1 == proposition,
            }
        } else {
            false
        };
        let received = self.was_told(reporter, claim, proposition);
        if proposition.event != claimed.event || !(owned_current || received) {
            return Err(EpistemicError::CannotReport { reporter, claim, proposition });
        }
        let report = ReportId(self.next_report);
        match self.append(at, EpistemicRecord::Report { report, reporter, hearer, claim, proposition }) {
            Err(e) => Err(e),
            Ok(_) => Ok(report),
        }
    }

    /// Self-revises a claim, keeping its original entry and every earlier
    /// revision.
    pub fn correct(
        &mut self,
        at: Tick,
        corrector: SubjectId,
        corrects: ClaimId,
        replacement: Proposition,
        supports: &[Evidence],
    ) -> (corrected: Result<EpistemicId, EpistemicError>)
        requires
            old(self).wf(),
            old(self).entries_spec().len() < u64::MAX,
        ensures
            final(self).wf(),
            match correct_result(old(self).entries_spec(), at, corrector, corrects, replacement, supports@) {
                Err(e) => corrected == Err::<EpistemicId, EpistemicError>(e) && *final(self) == *old(self),
                Ok(entry) => corrected == Ok::<EpistemicId, EpistemicError>(entry.id)
                    && final(self).entries_spec() == old(self).entries_spec().push(entry),
            },
    {
        proof {
            lemma_revision_exists(self.entries_spec(), corrects);
        }
        let (claimant, original) = match self.claim_details(corrects) {
            Err(e) => return Err(e),
            Ok(details) => details,
        };
        if claimant != corrector {
            return Err(EpistemicError::NotClaimant { corrector, claim: corrects });
        }
        if replacement.event != original.event {
            return Err(
                EpistemicError::CorrectionChangesEvent {
                    claim: corrects,
                    expected: original.event,
                    found: replacement.event,
                },
            );
        }
        let unchanged = match self.current_revision(corrects) {
            Err(e) => return Err(e),
            Ok(current) => current.1 == replacement,
        };
        if unchanged {
            return Err(EpistemicError::UnchangedCorrection(corrects));
        }
        let supports = match self.supports_for(corrector, replacement, supports) {
            Err(e) => return Err(e),
            Ok(supports) => supports,
        };
        self.append(at, EpistemicRecord::Correction { corrector, corrects, replacement, supports })
    }
}

impl EpistemicLog {
    /// Every report addressed to `hearer`, in entry order.
    pub fn received_by(&self, hearer: SubjectId) -> (received: Vec<&EpistemicEntry>)
        ensures
            received@.len() == received_spec(self.entries_spec(), hearer).len(),
            forall|i: int|
                0 <= i < received@.len() ==> (#[trigger] received@[i])@ == received_spec(
                    self.entries_spec(),
                    hearer,
                )[i],
    {
        let ghost s = self.entries_spec();
        let mut out: Vec<&EpistemicEntry> = Vec::new();
        let mut i: usize = 0;
        while i < self.entries.len()
            invariant
                i <= s.len(),
                s == self.entries_spec(),
                out@.len() == received_spec(s.take(i as int), hearer).len(),
                forall|j: int| 0 <= j < out@.len() ==> (#[trigger] out@[j])@ == received_spec(s.take(i as int), hearer)[j],
            decreases s.len() - i,
        {
            proof {
                lemma_take_step(s, i as int);
                assert(s[i as int] == self.entries@[i as int]@);
            }
            let entry = &self.entries[i];
            let to_them = match &entry.record {
                EpistemicRecord::Report { hearer: found, .. } => *found == hearer,
                _ => false,
            };
            if to_them {
                out.push(entry);
            }
            i = i + 1;
        }
        proof {
            assert(s.take(i as int) =~= s);
        }
        out
    }

    /// Every claim `holder` made, each at its current reading.
    pub fn beliefs_of(&self, holder: SubjectId) -> (beliefs: Vec<Belief>)
        ensures
            beliefs@.len() == claims_by(self.entries_spec(), holder).len(),
            forall|i: int|
                0 <= i < beliefs@.len() ==> (#[trigger] beliefs@[i])@ == belief_of(
                    self.entries_spec(),
                    holder,
                    claims_by(self.entries_spec(), holder)[i],
                ),
    {
        let ghost s = self.entries_spec();
        let mut out: Vec<Belief> = Vec::new();
        let mut i: usize = 0;
        while i < self.entries.len()
            invariant
                i <= s.len(),
                s == self.entries_spec(),
                out@.len() == claims_by(s.take(i as int), holder).len(),
                forall|j: int|
                    0 <= j < out@.len() ==> (#[trigger] out@[j])@ == belief_of(
                        s,
                        holder,
                        claims_by(s.take(i as int), holder)[j],
                    ),
                forall|j: int|
                    0 <= j < claims_by(s.take(i as int), holder).len() ==> claim_of(
                        s,
                        #[trigger] claims_by(s.take(i as int), holder)[j],
                    ) is Some,
            decreases s.len() - i,
        {
            proof {
                lemma_take_step(s, i as int);
                assert(s[i as int] == self.entries@[i as int]@);
            }
            let mut mine: Option<ClaimId> = None;
            if let EpistemicRecord::Claim { claim, claimant, .. } = &self.entries[i].record {
                if *claimant == holder {
                    mine = Some(*claim);
                }
            }
            if let Some(claim) = mine {
                proof {
                    assert(sought(s[i as int], Seek::Claim(claim)));
                    lemma_first_of_bounds(s, Seek::Claim(claim));
                    lemma_revision_exists(s, claim);
                }
                match self.current_revision(claim) {
                    Ok((revision, proposition, supports)) => {
                        out.push(Belief { holder, claim, revision, proposition, supports });
                    },
                    Err(_) => {},
                }
            }
            proof {
                let t = s.take(i + 1);
                assert(claims_by(t, holder) == (match s[i as int].record {
                    RecordView::Claim { claim, claimant, .. } if claimant == holder => claims_by(
                        s.take(i as int),
                        holder,
                    ).push(claim),
                    _ => claims_by(s.take(i as int), holder),
                }));
            }
            i = i + 1;
        }
        proof {
            assert(s.take(i as int) =~= s);
        }
        out
    }

    /// What became of a claim: every report under it and every correction
    /// of it, in entry order.
    pub fn history_of(&self, claim: ClaimId) -> (history: Result<ClaimHistory, EpistemicError>)
        ensures
            claim_of(self.entries_spec(), claim) is None ==> history is Err && history->Err_0
                == EpistemicError::UnknownClaim(claim),
            claim_of(self.entries_spec(), claim) is Some ==> history is Ok && history->Ok_0.claim == claim
                && history->Ok_0.reports@ == reports_on(self.entries_spec(), claim)
                && history->Ok_0.corrections@ == corrections_of(self.entries_spec(), claim),
    {
        let ghost s = self.entries_spec();
        proof {
            lemma_revision_exists(s, claim);
        }
        if self.claim_at(claim).is_none() {
            return Err(EpistemicError::UnknownClaim(claim));
        }
        let mut reports: Vec<ReportId> = Vec::new();
        let mut corrections: Vec<EpistemicId> = Vec::new();
        let mut i: usize = 0;
        while i < self.entries.len()
            invariant
                i <= s.len(),
                s == self.entries_spec(),
                reports@ == reports_on(s.take(i as int), claim),
                corrections@ == corrections_of(s.take(i as int), claim),
            decreases s.len() - i,
        {
            proof {
                lemma_take_step(s, i as int);
                assert(s[i as int] == self.entries@[i as int]@);
            }
            match &self.entries[i].record {
                EpistemicRecord::Report { report, claim: found, .. } => {
                    if *found == claim {
                        reports.push(*report);
                    }
                },
                EpistemicRecord::Correction { corrects, .. } => {
                    if *corrects == claim {
                        corrections.push(self.entries[i].id);
                    }
                },
                _ => {},
            }
            i = i + 1;
        }
        proof {
            assert(s.take(i as int) =~= s);
        }
        Ok(ClaimHistory { claim, reports, corrections })
    }
}

impl EpistemicLog {
    /// Admits decoded entries through the same validation as the live
    /// operations, one by one, refusing any whose ids or contents are not
    /// what those operations would have recorded.
    pub fn replay(deeds: &DeedLog, entries: &[EpistemicEntry]) -> (result: Result<EpistemicLog, EpistemicError>)
        requires
            deeds.wf(),
            entries@.len() < u64::MAX,
        ensures
            match replayed(deeds.deeds_spec(), views_of(entries@)) {
                Err(e) => result is Err && result->Err_0 == e,
                Ok(s) => result is Ok && result->Ok_0.wf() && result->Ok_0.entries_spec() == s,
            },
    {
        let ghost d = deeds.deeds_spec();
        let ghost input = views_of(entries@);
        let mut log = EpistemicLog::new();
        let mut i: usize = 0;
        while i < entries.len()
            invariant
                i <= input.len(),
                input == views_of(entries@),
                input.len() < u64::MAX,
                d == deeds.deeds_spec(),
                deeds.wf(),
                log.wf(),
                replayed(d, input.take(i as int)) == Ok::<Seq<EntryView>, EpistemicError>(log.entries_spec()),
                log.entries_spec() == input.take(i as int),
            decreases input.len() - i,
        {
            let entry = &entries[i];
            let ghost before = log.entries_spec();
            proof {
                lemma_take_step(input, i as int);
                assert(input[i as int] == entry@);
                assert(replayed(d, input.take(i + 1)) == match admitted(d, before, entry@) {
                    Err(e) => Err(e),
                    Ok(m) => Ok(before.push(m)),
                });
            }
            let expected = EpistemicId(log.next_entry);
            if entry.id != expected {
                proof {
                    lemma_replay_error_persists(d, input, i + 1);
                }
                return Err(EpistemicError::ReplayEntryId { expected, found: entry.id });
            }
            let made: Result<(), EpistemicError> = match &entry.record {
                EpistemicRecord::Observation { observation, observer, event } => {
                    match log.observe(deeds, entry.at, *observer, *event) {
                        Err(e) => Err(e),
                        Ok(found) => if found != *observation {
                            Err(EpistemicError::ReplayObservationId { expected: found, found: *observation })
                        } else {
                            Ok(())
                        },
                    }
                },
                EpistemicRecord::Claim { claim, claimant, proposition, supports } => {
                    match log.claim(entry.at, *claimant, *proposition, supports.as_slice()) {
                        Err(e) => Err(e),
                        Ok(found) => if found != *claim {
                            Err(EpistemicError::ReplayClaimId { expected: found, found: *claim })
                        } else {
                            Ok(())
                        },
                    }
                },
                EpistemicRecord::Report { report, reporter, hearer, claim, proposition } => {
                    match log.report(entry.at, *reporter, *hearer, *claim, *proposition) {
                        Err(e) => Err(e),
                        Ok(found) => if found != *report {
                            Err(EpistemicError::ReplayReportId { expected: found, found: *report })
                        } else {
                            Ok(())
                        },
                    }
                },
                EpistemicRecord::Correction { corrector, corrects, replacement, supports } => {
                    match log.correct(entry.at, *corrector, *corrects, *replacement, supports.as_slice()) {
                        Err(e) => Err(e),
                        Ok(_) => Ok(()),
                    }
                },
            };
            if let Err(e) = made {
                proof {
                    assert(replayed(d, input.take(i + 1)) == Err::<Seq<EntryView>, EpistemicError>(e));
                    lemma_replay_error_persists(d, input, i + 1);
                }
                return Err(e);
            }
            let n = log.entries.len();
            proof {
                assert(log.entries_spec()[n - 1] == log.entries@[n - 1]@);
            }
            if !same_entry(&log.entries[n - 1], entry) {
                proof {
                    assert(replayed(d, input.take(i + 1)) == Err::<Seq<EntryView>, EpistemicError>(
                        EpistemicError::ReplayRecordMismatch(entry.id),
                    ));
                    lemma_replay_error_persists(d, input, i + 1);
                }
                return Err(EpistemicError::ReplayRecordMismatch(entry.id));
            }
            proof {
                assert(log.entries_spec() =~= input.take(i + 1));
            }
            i = i + 1;
        }
        proof {
            assert(input.take(i as int) =~= input);
        }
        Ok(log)
    }
}

} // verus!
