//! The willingness rule.
//!
//! Deliberately small, so a player can hold it in their head and predict an
//! answer from the relationship surface. Three gates, in this order:
//!
//! 1. **Can I do it?** Confidence, from their own declared craft. Short here
//!    and they refuse, and the refusal is about the work, not the asker.
//! 2. **Would I risk that for you?** Trust against what the danger asks.
//!    Short here and they refuse, and the refusal is about the asker.
//! 3. **Is it more than I would bear?** Danger against what affection and
//!    nerve will carry. Short here and they counteroffer rather than refuse.
//!
//! Every gate reached appends its premise, and gates past the deciding one
//! are not evaluated and so are not claimed.

use vstd::prelude::*;

use crate::identity::SubjectId;
use crate::social::companion::{read_of, Companion, Skill};
use crate::social::deed::{numbered, weight_of, Deed, DeedId, DeedLog};
use crate::social::offer::{Terms, Work};
use crate::social::relation::{lemma_standing_names_logged_deeds, moves, standing_of, Standing, StandingView};
use crate::social::response::{copy_ids, views, Premise, PremiseView, Verdict};

verus! {

/// Half of `a`, rounded toward zero, as integer division does.
pub open spec fn halved(a: int) -> int {
    if a >= 0 {
        a / 2
    } else {
        -((-a) / 2)
    }
}

/// The trust a danger asks for. One integer, no curve.
pub fn trust_asked(danger: u8) -> (asked: i16)
    ensures
        asked == danger as i16,
{
    danger as i16
}

/// The danger a companion would bear for a person they feel this way about.
/// Affection buys risk; caution sells it.
pub open spec fn bearable_spec(affinity: int, caution: int) -> int {
    3 + halved(affinity) - caution
}

pub fn bearable(affinity: i16, caution: i16) -> (limit: i16)
    requires
        i16::MIN <= bearable_spec(affinity as int, caution as int) <= i16::MAX,
    ensures
        limit as int == bearable_spec(affinity as int, caution as int),
{
    3 + affinity / 2 - caution
}

/// An answer and the reasoning that produced it, before either becomes a
/// recorded thing.
pub struct Weighed {
    pub verdict: Verdict,
    pub premises: Vec<Premise>,
}

/// The premise a deed contributes: the deed and what it was worth.
pub open spec fn deed_premise(deed: Deed) -> PremiseView {
    PremiseView::Deed {
        deed: deed.id,
        at: deed.at,
        doer: deed.doer,
        kind: deed.kind,
        trust: weight_of(deed.kind).0 as i16,
        affinity: weight_of(deed.kind).1 as i16,
    }
}

/// The deeds named by `ids` that the log holds, as premises, in order.
pub open spec fn deed_premises(log: Seq<Deed>, ids: Seq<DeedId>) -> Seq<PremiseView>
    decreases ids.len(),
{
    if ids.len() == 0 {
        Seq::empty()
    } else {
        let before = deed_premises(log, ids.drop_last());
        let id = ids.last();
        if id.0 < log.len() {
            before.push(deed_premise(log[id.0 as int]))
        } else {
            before
        }
    }
}

/// The premise a standing contributes.
pub open spec fn standing_premise(standing: StandingView, toward: SubjectId) -> PremiseView {
    PremiseView::Standing {
        toward,
        trust: standing.trust as i16,
        affinity: standing.affinity as i16,
        from_deeds: standing.from_deeds,
    }
}

/// The deeds behind a standing, then the standing itself: the evidence,
/// then what it adds up to.
pub open spec fn evidence_spec(log: Seq<Deed>, standing: StandingView, toward: SubjectId) -> Seq<
    PremiseView,
> {
    deed_premises(log, standing.from_deeds).push(standing_premise(standing, toward))
}

/// Their own read of the work, as a premise.
pub open spec fn confidence_premise_spec(skills: Seq<Skill>, work: Work) -> PremiseView {
    let read = read_of(skills, work);
    PremiseView::Confidence {
        craft: read.craft,
        demanded: read.demanded,
        held: read.held,
        margin: read.margin_spec() as i16,
    }
}

pub open spec fn able_spec(skills: Seq<Skill>, work: Work) -> bool {
    read_of(skills, work).margin_spec() >= 0
}

pub open spec fn trust_met(standing: StandingView, work: Work) -> bool {
    standing.trust >= work.danger as int
}

pub open spec fn trust_premise(standing: StandingView, work: Work) -> PremiseView {
    PremiseView::TrustAsked {
        danger: work.danger,
        asked: work.danger as i16,
        held: standing.trust as i16,
        met: trust_met(standing, work),
    }
}

/// A danger cap as it can be written: the limit held between 0 and 255.
pub open spec fn cap_of(limit: int) -> u8 {
    if limit < 0 {
        0
    } else if limit > 255 {
        255
    } else {
        limit as u8
    }
}

/// One more share, saturating.
pub open spec fn one_more(share: u8) -> u8 {
    if share == 255 {
        255
    } else {
        (share + 1) as u8
    }
}

/// Whether the third gate's arithmetic fits where the rule reaches it.
pub open spec fn weigh_fits(skills: Seq<Skill>, caution: i16, standing: StandingView, work: Work) -> bool {
    able_spec(skills, work) && trust_met(standing, work) ==> i16::MIN <= bearable_spec(
        standing.affinity,
        caution as int,
    ) <= i16::MAX
}

/// The three gates for a fresh offer: the verdict, and the premises of
/// every gate reached.
pub open spec fn weigh_spec(
    skills: Seq<Skill>,
    caution: i16,
    toward: SubjectId,
    standing: StandingView,
    log: Seq<Deed>,
    work: Work,
    terms: Terms,
) -> (Verdict, Seq<PremiseView>) {
    let confidence = confidence_premise_spec(skills, work);
    if !able_spec(skills, work) {
        (Verdict::Refuse, seq![confidence])
    } else {
        let asked = evidence_spec(log, standing, toward).push(confidence).push(
            trust_premise(standing, work),
        );
        if !trust_met(standing, work) {
            (Verdict::Refuse, asked)
        } else {
            let limit = bearable_spec(standing.affinity, caution as int);
            let borne = work.danger as int <= limit;
            let weighed = asked.push(
                PremiseView::DangerWeighed {
                    danger: work.danger,
                    bearable: limit as i16,
                    affinity: standing.affinity as i16,
                    caution,
                    borne,
                },
            );
            if !borne {
                (Verdict::Counteroffer(Terms { share: one_more(terms.share), danger_cap: cap_of(limit) }), weighed)
            } else {
                (Verdict::Accept, weighed)
            }
        }
    }
}

/// The two gates that still apply inside a standing agreement: whether
/// they will, and the premises.
pub open spec fn routine_spec(
    skills: Seq<Skill>,
    toward: SubjectId,
    standing: StandingView,
    log: Seq<Deed>,
    work: Work,
) -> (bool, Seq<PremiseView>) {
    let read = evidence_spec(log, standing, toward).push(confidence_premise_spec(skills, work));
    if !able_spec(skills, work) {
        (false, read)
    } else {
        (trust_met(standing, work), read.push(trust_premise(standing, work)))
    }
}

/// The deeds behind a standing, then the standing itself. Always in this
/// order: the evidence, then what it adds up to.
pub fn evidence(log: &DeedLog, standing: &Standing, toward: SubjectId) -> (premises: Vec<Premise>)
    requires
        log.wf(),
    ensures
        views(premises@) == evidence_spec(log.deeds_spec(), standing@, toward),
{
    let mut premises: Vec<Premise> = Vec::new();
    let ghost ids = standing.from_deeds@;
    let mut i: usize = 0;
    while i < standing.from_deeds.len()
        invariant
            log.wf(),
            ids == standing.from_deeds@,
            i <= ids.len(),
            views(premises@) == deed_premises(log.deeds_spec(), ids.subrange(0, i as int)),
        decreases ids.len() - i,
    {
        let id = standing.from_deeds[i];
        proof {
            assert(ids.subrange(0, i + 1).drop_last() =~= ids.subrange(0, i as int));
        }
        match log.get(id) {
            Some(deed) => {
                let (trust, affinity) = deed.kind.weight();
                let ghost before = premises@;
                premises.push(
                    Premise::Deed {
                        deed: deed.id,
                        at: deed.at,
                        doer: deed.doer,
                        kind: deed.kind,
                        trust,
                        affinity,
                    },
                );
                proof {
                    assert(views(premises@) =~= views(before).push(deed_premise(*deed)));
                }
            },
            None => {},
        }
        i = i + 1;
    }
    proof {
        assert(ids.subrange(0, i as int) =~= ids);
    }
    let ghost before = premises@;
    premises.push(
        Premise::Standing {
            toward,
            trust: standing.trust,
            affinity: standing.affinity,
            from_deeds: copy_ids(&standing.from_deeds),
        },
    );
    proof {
        assert(views(premises@) =~= views(before).push(standing_premise(standing@, toward)));
    }
    premises
}

fn confidence_premise(companion: &Companion, work: &Work) -> (r: (bool, Premise))
    ensures
        r.0 == able_spec(companion.skills@, *work),
        r.1@ == confidence_premise_spec(companion.skills@, *work),
{
    let read = companion.read(work);
    (
        read.sufficient(),
        Premise::Confidence {
            craft: read.craft,
            demanded: read.demanded,
            held: read.held,
            margin: read.margin(),
        },
    )
}

/// The three gates, for a fresh offer.
pub fn weigh(
    companion: &Companion,
    toward: SubjectId,
    standing: &Standing,
    log: &DeedLog,
    work: &Work,
    terms: &Terms,
) -> (weighed: Weighed)
    requires
        log.wf(),
        weigh_fits(companion.skills@, companion.caution, standing@, *work),
    ensures
        weighed.verdict == weigh_spec(
            companion.skills@,
            companion.caution,
            toward,
            standing@,
            log.deeds_spec(),
            *work,
            *terms,
        ).0,
        views(weighed.premises@) == weigh_spec(
            companion.skills@,
            companion.caution,
            toward,
            standing@,
            log.deeds_spec(),
            *work,
            *terms,
        ).1,
{
    let (able, confidence) = confidence_premise(companion, work);
    if !able {
        // Nothing about the asker is in play, so nothing about the asker is
        // cited. The premises say only what decided it.
        let mut premises = Vec::new();
        premises.push(confidence);
        proof {
            assert(views(premises@) =~= seq![confidence@]);
        }
        return Weighed { verdict: Verdict::Refuse, premises };
    }
    let mut premises = evidence(log, standing, toward);
    let ghost evidence_views = views(premises@);
    premises.push(confidence);
    let asked = trust_asked(work.danger);
    let met = standing.trust >= asked;
    premises.push(Premise::TrustAsked { danger: work.danger, asked, held: standing.trust, met });
    proof {
        assert(views(premises@) =~= evidence_views.push(
            confidence_premise_spec(companion.skills@, *work),
        ).push(trust_premise(standing@, *work)));
    }
    if !met {
        return Weighed { verdict: Verdict::Refuse, premises };
    }
    let limit = bearable(standing.affinity, companion.caution);
    let borne = (work.danger as i16) <= limit;
    let ghost asked_views = views(premises@);
    premises.push(
        Premise::DangerWeighed {
            danger: work.danger,
            bearable: limit,
            affinity: standing.affinity,
            caution: companion.caution,
            borne,
        },
    );
    proof {
        assert(views(premises@) =~= asked_views.push(
            PremiseView::DangerWeighed {
                danger: work.danger,
                bearable: limit,
                affinity: standing.affinity,
                caution: companion.caution,
                borne,
            },
        ));
    }
    if !borne {
        let cap: u8 = if limit < 0 {
            0
        } else if limit > 255 {
            255
        } else {
            limit as u8
        };
        let counter = Terms::new(terms.share.saturating_add(1), cap);
        return Weighed { verdict: Verdict::Counteroffer(counter), premises };
    }
    Weighed { verdict: Verdict::Accept, premises }
}

/// The two gates that still apply inside a standing agreement. Danger was
/// settled when the terms were, so only capability and trust are live, and
/// either of them can still fail: that is how an agreement stays an
/// agreement rather than becoming an order.
pub fn weigh_routine(
    companion: &Companion,
    toward: SubjectId,
    standing: &Standing,
    log: &DeedLog,
    work: &Work,
) -> (r: (bool, Vec<Premise>))
    requires
        log.wf(),
    ensures
        r.0 == routine_spec(companion.skills@, toward, standing@, log.deeds_spec(), *work).0,
        views(r.1@) == routine_spec(companion.skills@, toward, standing@, log.deeds_spec(), *work).1,
{
    let (able, confidence) = confidence_premise(companion, work);
    let mut premises = evidence(log, standing, toward);
    let ghost evidence_views = views(premises@);
    premises.push(confidence);
    proof {
        assert(views(premises@) =~= evidence_views.push(
            confidence_premise_spec(companion.skills@, *work),
        ));
    }
    if !able {
        return (false, premises);
    }
    let asked = trust_asked(work.danger);
    let met = standing.trust >= asked;
    let ghost read_views = views(premises@);
    premises.push(Premise::TrustAsked { danger: work.danger, asked, held: standing.trust, met });
    proof {
        assert(views(premises@) =~= read_views.push(trust_premise(standing@, *work)));
    }
    (met, premises)
}

proof fn lemma_deed_premises_extend(log: Seq<Deed>, d: Deed, ids: Seq<DeedId>)
    requires
        forall|i: int| 0 <= i < ids.len() ==> (#[trigger] ids[i]).0 < log.len(),
    ensures
        deed_premises(log.push(d), ids) == deed_premises(log, ids),
    decreases ids.len(),
{
    if ids.len() > 0 {
        let before = ids.drop_last();
        assert forall|i: int| 0 <= i < before.len() implies (#[trigger] before[i]).0 < log.len() by {
            assert(before[i] == ids[i]);
        }
        lemma_deed_premises_extend(log, d, before);
        assert(ids[ids.len() - 1].0 < log.len());
        assert(log.push(d)[ids.last().0 as int] == log[ids.last().0 as int]);
    }
}

/// A deed that does not move how `holder` reads `toward` leaves `holder`'s
/// answer to `toward` exactly as it was: the verdict and every premise.
/// Asking one person leaves everyone else's answers where they were.
pub proof fn law_unrelated_deed_keeps_the_answer(
    log: Seq<Deed>,
    d: Deed,
    skills: Seq<Skill>,
    caution: i16,
    holder: SubjectId,
    toward: SubjectId,
    work: Work,
    terms: Terms,
)
    requires
        numbered(log),
        !moves(d, holder, toward),
    ensures
        standing_of(log.push(d), holder, toward) == standing_of(log, holder, toward),
        weigh_spec(skills, caution, toward, standing_of(log.push(d), holder, toward), log.push(d), work, terms)
            == weigh_spec(skills, caution, toward, standing_of(log, holder, toward), log, work, terms),
        routine_spec(skills, toward, standing_of(log.push(d), holder, toward), log.push(d), work)
            == routine_spec(skills, toward, standing_of(log, holder, toward), log, work),
{
    assert(log.push(d).drop_last() =~= log);
    let st = standing_of(log, holder, toward);
    lemma_standing_names_logged_deeds(log, holder, toward);
    lemma_deed_premises_extend(log, d, st.from_deeds);
}

/// The verdict of a fresh offer, gate by gate: refused by one who cannot do
/// the work or does not trust the asker enough for its danger; accepted by
/// one who can, does, and would bear the danger; otherwise countered with one
/// more share and a danger cap at what they would bear, held between 0 and
/// 255, so that the counter never asks for more danger than was offered.
pub proof fn law_a_counter_asks_only_what_would_be_borne(
    skills: Seq<Skill>,
    caution: i16,
    toward: SubjectId,
    standing: StandingView,
    log: Seq<Deed>,
    work: Work,
    terms: Terms,
)
    ensures
        ({
            let verdict = weigh_spec(skills, caution, toward, standing, log, work, terms).0;
            let bearable = bearable_spec(standing.affinity, caution as int);
            &&& verdict is Refuse <==> !able_spec(skills, work) || standing.trust < work.danger
            &&& verdict is Accept <==> able_spec(skills, work) && standing.trust >= work.danger
                && work.danger <= bearable
            &&& verdict is Counteroffer <==> able_spec(skills, work) && standing.trust >= work.danger
                && work.danger > bearable
            &&& verdict matches Verdict::Counteroffer(counter) ==> {
                &&& counter.danger_cap == (if bearable < 0 {
                    0
                } else if bearable > 255 {
                    255
                } else {
                    bearable
                })
                &&& bearable >= 0 ==> counter.danger_cap <= bearable
                &&& counter.danger_cap <= work.danger
                &&& counter.share == (if terms.share < 255 {
                    terms.share + 1
                } else {
                    255
                })
            }
        }),
{
}

} // verus!
