//! Standing: one person's read of another, as two small integers.
//!
//! Standing is never authored. It is folded out of the deed log, and it
//! carries the ids of the deeds that produced it, so the explanation surface
//! can point at the evidence instead of asserting a number.

use vstd::prelude::*;

use crate::identity::SubjectId;
use crate::keyed::{has_key, increasing, lemma_map_of_index, map_of, Keyed};
use crate::social::deed::{numbered, weight_of, Deed, DeedId, DeedKind, DeedLog};
use crate::social::response::copy_ids;

verus! {

/// Trust is what they would risk on you. Affinity is whether they like you.
#[derive(Clone, Debug, Default, PartialEq, Eq)]
pub struct Standing {
    pub trust: i16,
    pub affinity: i16,
    /// Oldest first, in log order.
    pub from_deeds: Vec<DeedId>,
}

/// A standing as values.
pub struct StandingView {
    pub trust: int,
    pub affinity: int,
    pub from_deeds: Seq<DeedId>,
}

impl View for Standing {
    type V = StandingView;

    open spec fn view(&self) -> StandingView {
        StandingView { trust: self.trust as int, affinity: self.affinity as int, from_deeds: self.from_deeds@ }
    }
}

pub open spec fn stranger_view() -> StandingView {
    StandingView { trust: 0, affinity: 0, from_deeds: Seq::empty() }
}

/// Whether a deed moves `holder`'s read of `toward`: it was done by `toward`
/// to `holder`, and they are two different people.
pub open spec fn moves(deed: Deed, holder: SubjectId, toward: SubjectId) -> bool {
    deed.toward == Some(holder) && deed.doer == toward && holder != toward
}

/// How `holder` reads `toward` after these deeds: every deed `toward` did to
/// `holder` adds its weight and its id, oldest first.
pub open spec fn standing_of(log: Seq<Deed>, holder: SubjectId, toward: SubjectId) -> StandingView
    decreases log.len(),
{
    if log.len() == 0 {
        stranger_view()
    } else {
        let before = standing_of(log.drop_last(), holder, toward);
        if moves(log.last(), holder, toward) {
            StandingView {
                trust: before.trust + weight_of(log.last().kind).0,
                affinity: before.affinity + weight_of(log.last().kind).1,
                from_deeds: before.from_deeds.push(log.last().id),
            }
        } else {
            before
        }
    }
}

pub open spec fn in_i16(v: int) -> bool {
    i16::MIN <= v <= i16::MAX
}

/// Whether every standing the log ever passes through fits in the integers
/// a standing is kept in.
pub open spec fn fits(log: Seq<Deed>) -> bool
    decreases log.len(),
{
    if log.len() == 0 {
        true
    } else {
        &&& fits(log.drop_last())
        &&& match log.last().toward {
            Some(holder) => holder != log.last().doer ==> {
                let s = standing_of(log, holder, log.last().doer);
                in_i16(s.trust) && in_i16(s.affinity)
            },
            None => true,
        }
    }
}

/// A standing no deed has moved is a stranger's.
pub proof fn lemma_unmoved_is_stranger(log: Seq<Deed>, holder: SubjectId, toward: SubjectId)
    ensures
        standing_of(log, holder, toward).from_deeds.len() == 0 ==> standing_of(log, holder, toward)
            == stranger_view(),
    decreases log.len(),
{
    if log.len() > 0 {
        lemma_unmoved_is_stranger(log.drop_last(), holder, toward);
    }
}

/// Every prefix of a fitting log fits.
pub proof fn lemma_fits_prefix(log: Seq<Deed>, k: int)
    requires
        fits(log),
        0 <= k <= log.len(),
    ensures
        fits(log.subrange(0, k)),
    decreases log.len() - k,
{
    if k < log.len() {
        lemma_fits_prefix(log.drop_last(), k);
        assert(log.drop_last().subrange(0, k) =~= log.subrange(0, k));
    } else {
        assert(log.subrange(0, k) =~= log);
    }
}

/// A standing moves at most five in either column per deed behind it.
pub proof fn lemma_standing_bound(log: Seq<Deed>, holder: SubjectId, toward: SubjectId)
    ensures
        -5 * log.len() <= standing_of(log, holder, toward).trust <= 5 * log.len(),
        -5 * log.len() <= standing_of(log, holder, toward).affinity <= 5 * log.len(),
        standing_of(log, holder, toward).from_deeds.len() <= log.len(),
    decreases log.len(),
{
    if log.len() > 0 {
        lemma_standing_bound(log.drop_last(), holder, toward);
    }
}

/// A log of at most 6553 deeds cannot carry any standing past the integers
/// it is kept in.
pub proof fn lemma_short_log_fits(log: Seq<Deed>)
    requires
        log.len() <= 6553,
    ensures
        fits(log),
    decreases log.len(),
{
    if log.len() > 0 {
        lemma_short_log_fits(log.drop_last());
        if let Some(holder) = log.last().toward {
            lemma_standing_bound(log, holder, log.last().doer);
        }
    }
}

/// Room in the log for `n` more deeds: every standing it folds through
/// fits, each standing has five to spare in either column for every deed
/// to come, and ids remain to number them.
pub open spec fn fold_room(log: Seq<Deed>, n: nat) -> bool {
    &&& fits(log)
    &&& log.len() + n < u64::MAX
    &&& forall|h: SubjectId, t: SubjectId|
        #![trigger standing_of(log, h, t)]
        {
            let s = standing_of(log, h, t);
            &&& i16::MIN + 5 * n <= s.trust <= i16::MAX - 5 * n
            &&& i16::MIN + 5 * n <= s.affinity <= i16::MAX - 5 * n
        }
}

proof fn lemma_weight_bound(kind: DeedKind)
    ensures
        -5 <= weight_of(kind).0 <= 5,
        -5 <= weight_of(kind).1 <= 5,
{
}

/// One more deed spends one deed of room.
pub proof fn lemma_room_push(log: Seq<Deed>, n: nat, d: Deed)
    requires
        fold_room(log, n + 1),
    ensures
        fold_room(log.push(d), n),
{
    let l = log.push(d);
    assert(l.drop_last() =~= log);
    lemma_weight_bound(d.kind);
    assert forall|h: SubjectId, t: SubjectId| #![trigger standing_of(l, h, t)] {
        let s = standing_of(l, h, t);
        &&& i16::MIN + 5 * n <= s.trust <= i16::MAX - 5 * n
        &&& i16::MIN + 5 * n <= s.affinity <= i16::MAX - 5 * n
    } by {
        assert(standing_of(log, h, t) == standing_of(l.drop_last(), h, t));
    }
    if let Some(holder) = d.toward {
        assert(standing_of(log, holder, d.doer) == standing_of(l.drop_last(), holder, d.doer));
    }
}

/// A log grown by at most `n` deeds keeps the room it had beyond them.
pub proof fn lemma_room_extend(b: Seq<Deed>, a: Seq<Deed>, n: nat, m: nat)
    requires
        fold_room(b, n + m),
        b.len() <= a.len() <= b.len() + n,
        forall|i: int| 0 <= i < b.len() ==> #[trigger] a[i] == b[i],
    ensures
        fold_room(a, m),
    decreases a.len() - b.len(),
{
    if a.len() == b.len() {
        assert(a =~= b);
    } else {
        let a2 = a.drop_last();
        lemma_room_extend(b, a2, (n - 1) as nat, m + 1);
        lemma_room_push(a2, m, a.last());
        assert(a2.push(a.last()) =~= a);
    }
}

/// A log short enough leaves room for what could follow it.
pub proof fn lemma_short_log_room(log: Seq<Deed>, n: nat)
    requires
        log.len() + n <= 6553,
    ensures
        fold_room(log, n),
{
    lemma_short_log_fits(log);
    assert forall|h: SubjectId, t: SubjectId| #![trigger standing_of(log, h, t)] {
        let s = standing_of(log, h, t);
        &&& i16::MIN + 5 * n <= s.trust <= i16::MAX - 5 * n
        &&& i16::MIN + 5 * n <= s.affinity <= i16::MAX - 5 * n
    } by {
        lemma_standing_bound(log, h, t);
    }
}

/// Nobody's read of themselves is moved by any deed.
pub proof fn lemma_self_is_stranger(log: Seq<Deed>, h: SubjectId)
    ensures
        standing_of(log, h, h) == stranger_view(),
    decreases log.len(),
{
    if log.len() > 0 {
        lemma_self_is_stranger(log.drop_last(), h);
    }
}

/// One holder's standings as ((holder, toward), standing) pairs.
pub open spec fn inner_pairs(holder: u64, s: Seq<(u64, Standing)>) -> Seq<((SubjectId, SubjectId), Standing)> {
    s.map_values(|e: (u64, Standing)| ((SubjectId(holder), SubjectId(e.0)), e.1))
}

/// Every holder's standings, holder by holder.
pub open spec fn pairs_of(s: Seq<(u64, Keyed<Standing>)>) -> Seq<((SubjectId, SubjectId), Standing)>
    decreases s.len(),
{
    if s.len() == 0 {
        Seq::empty()
    } else {
        pairs_of(s.drop_last()) + inner_pairs(s.last().0, s.last().1.entries_spec())
    }
}

/// Whether the pair (holder, toward) is listed.
pub open spec fn listed(ps: Seq<((SubjectId, SubjectId), Standing)>, h: u64, t: u64) -> bool {
    exists|k: int| 0 <= k < ps.len() && #[trigger] ps[k].0 == (SubjectId(h), SubjectId(t))
}

/// Pairs in holder order, then toward order: each pair once.
pub open spec fn pair_before(a: (SubjectId, SubjectId), b: (SubjectId, SubjectId)) -> bool {
    a.0.0 < b.0.0 || (a.0.0 == b.0.0 && a.1.0 < b.1.0)
}

/// Where a listed pair comes from: the entry of its toward in its holder's
/// map.
pub open spec fn located(s: Seq<(u64, Keyed<Standing>)>, p: ((SubjectId, SubjectId), Standing)) -> bool {
    exists|i: int, e: int|
        0 <= i < s.len() && 0 <= e < s[i].1.entries_spec().len() && #[trigger] s[i].0 == p.0.0.0
            && #[trigger] s[i].1.entries_spec()[e] == (p.0.1.0, p.1)
}

pub open spec fn in_outer(s: Seq<(u64, Keyed<Standing>)>, h: u64, t: u64) -> bool {
    exists|i: int| 0 <= i < s.len() && #[trigger] s[i].0 == h && has_key(s[i].1.entries_spec(), t)
}

proof fn lemma_pairs_of(s: Seq<(u64, Keyed<Standing>)>)
    requires
        increasing(s),
        forall|i: int| 0 <= i < s.len() ==> (#[trigger] s[i]).1.wf(),
    ensures
        forall|h: u64, t: u64| listed(pairs_of(s), h, t) <==> in_outer(s, h, t),
        forall|k: int| 0 <= k < pairs_of(s).len() ==> located(s, #[trigger] pairs_of(s)[k]),
        forall|a: int, b: int|
            0 <= a < b < pairs_of(s).len() ==> pair_before(
                (#[trigger] pairs_of(s)[a]).0,
                (#[trigger] pairs_of(s)[b]).0,
            ),
    decreases s.len(),
{
    if s.len() > 0 {
        let s2 = s.drop_last();
        let last = s.last();
        let e = last.1.entries_spec();
        let before = pairs_of(s2);
        let tail = inner_pairs(last.0, e);
        assert forall|i: int| 0 <= i < s2.len() implies (#[trigger] s2[i]).1.wf() by {
            assert(s2[i] == s[i]);
        }
        lemma_pairs_of(s2);
        let ps = pairs_of(s);
        assert(ps == before + tail);
        assert forall|h: u64, t: u64| listed(ps, h, t) <==> in_outer(s, h, t) by {
            if listed(ps, h, t) {
                let k = choose|k: int| 0 <= k < ps.len() && #[trigger] ps[k].0 == (SubjectId(h), SubjectId(t));
                if k < before.len() {
                    assert(before[k] == ps[k]);
                    assert(listed(before, h, t));
                    assert(in_outer(s2, h, t));
                    let i = choose|i: int| 0 <= i < s2.len() && #[trigger] s2[i].0 == h && has_key(s2[i].1.entries_spec(), t);
                    assert(s[i] == s2[i]);
                } else {
                    let j = k - before.len();
                    assert(tail[j] == ps[k]);
                    assert(e[j].0 == t);
                    assert(s[s.len() - 1] == last);
                    assert(has_key(e, t));
                }
            }
            if in_outer(s, h, t) {
                let i = choose|i: int| 0 <= i < s.len() && #[trigger] s[i].0 == h && has_key(s[i].1.entries_spec(), t);
                if i < s.len() - 1 {
                    assert(s2[i] == s[i]);
                    assert(in_outer(s2, h, t));
                    let k = choose|k: int| 0 <= k < before.len() && #[trigger] before[k].0 == (SubjectId(h), SubjectId(t));
                    assert(ps[k] == before[k]);
                } else {
                    let j = choose|j: int| 0 <= j < e.len() && #[trigger] e[j].0 == t;
                    assert(tail[j].0 == (SubjectId(h), SubjectId(t)));
                    assert(ps[before.len() + j] == tail[j]);
                }
            }
        }
        assert forall|k: int| 0 <= k < ps.len() implies located(s, #[trigger] ps[k]) by {
            if k < before.len() {
                assert(before[k] == ps[k]);
                assert(located(s2, before[k]));
                let (i, e) = choose|i: int, e: int|
                    0 <= i < s2.len() && 0 <= e < s2[i].1.entries_spec().len() && #[trigger] s2[i].0
                        == before[k].0.0.0 && #[trigger] s2[i].1.entries_spec()[e] == (before[k].0.1.0, before[k].1);
                assert(s[i] == s2[i]);
            } else {
                let e = k - before.len();
                assert(ps[k] == tail[e]);
                assert(s[s.len() - 1] == last);
                assert(s[s.len() - 1].1.entries_spec()[e] == (ps[k].0.1.0, ps[k].1));
            }
        }
        assert forall|a: int, b: int| 0 <= a < b < ps.len() implies pair_before(
            (#[trigger] ps[a]).0,
            (#[trigger] ps[b]).0,
        ) by {
            if b < before.len() {
                assert(ps[a] == before[a] && ps[b] == before[b]);
            } else if a < before.len() {
                assert(ps[a] == before[a]);
                assert(ps[b] == tail[b - before.len()]);
                assert(located(s2, before[a]));
                let (i, e) = choose|i: int, e: int|
                    0 <= i < s2.len() && 0 <= e < s2[i].1.entries_spec().len() && #[trigger] s2[i].0
                        == before[a].0.0.0 && #[trigger] s2[i].1.entries_spec()[e] == (before[a].0.1.0, before[a].1);
                assert(s[i] == s2[i]);
                assert(s[i].0 < s[s.len() - 1].0);
            } else {
                assert(ps[a] == tail[a - before.len()]);
                assert(ps[b] == tail[b - before.len()]);
                assert(e[a - before.len()].0 < e[b - before.len()].0);
            }
        }
    }
}

impl Standing {
    pub fn stranger() -> (s: Self)
        ensures
            s@ == stranger_view(),
    {
        Standing { trust: 0, affinity: 0, from_deeds: Vec::new() }
    }

    pub fn known(&self) -> (b: bool)
        ensures
            b == (self@.from_deeds.len() > 0),
    {
        self.from_deeds.len() != 0
    }

    /// A standing with the same values.
    pub fn copy(&self) -> (s: Self)
        ensures
            s@ == self@,
    {
        Standing { trust: self.trust, affinity: self.affinity, from_deeds: copy_ids(&self.from_deeds) }
    }
}

/// Keyed by holder, then by whom they read: how the holder reads the other
/// one. Asymmetric on purpose.
#[derive(Clone, Debug, PartialEq, Eq)]
pub struct Relations {
    standings: Keyed<Keyed<Standing>>,
}

impl Relations {
    pub closed spec fn present(&self, holder: u64, toward: u64) -> bool {
        self.standings.view().contains_key(holder) && self.standings.view()[holder].view().contains_key(
            toward,
        )
    }

    pub closed spec fn entry(&self, holder: u64, toward: u64) -> StandingView {
        self.standings.view()[holder].view()[toward]@
    }

    /// How `holder` reads `toward`; a stranger where nothing was recorded.
    pub open spec fn standing_at(&self, holder: SubjectId, toward: SubjectId) -> StandingView {
        if self.present(holder.0, toward.0) {
            self.entry(holder.0, toward.0)
        } else {
            stranger_view()
        }
    }

    pub closed spec fn wf(&self) -> bool {
        &&& self.standings.wf()
        &&& forall|h: u64| #[trigger]
            self.standings.view().contains_key(h) ==> self.standings.view()[h].wf()
    }

    /// The fold over the whole log is what `derive` computed.
    pub open spec fn derived_from(&self, log: Seq<Deed>) -> bool {
        &&& self.wf()
        &&& forall|h: SubjectId, t: SubjectId| #[trigger]
            self.standing_at(h, t) == standing_of(log, h, t)
        &&& forall|h: SubjectId, t: SubjectId| #[trigger]
            self.present(h.0, t.0) == (standing_of(log, h, t).from_deeds.len() > 0)
    }

    /// The whole fold, where every standing it passes through fits; `None`
    /// where one would leave the integers standings are kept in.
    pub fn try_derive(log: &DeedLog) -> (relations: Option<Self>)
        ensures
            relations is Some <==> fits(log.deeds_spec()),
            relations matches Some(r) ==> r.derived_from(log.deeds_spec()),
    {
        let deeds = log.deeds();
        let ghost all = deeds@;
        let mut standings: Keyed<Keyed<Standing>> = Keyed::new();
        let mut i: usize = 0;
        proof {
            assert forall|h: SubjectId, t: SubjectId|
                #[trigger] standing_of(all.subrange(0, 0), h, t) == stranger_view() by {}
        }
        while i < deeds.len()
            invariant
                i <= all.len(),
                deeds@ == all,
                all == log.deeds_spec(),
                fits(all.subrange(0, i as int)),
                standings.wf(),
                forall|h: u64| #[trigger] standings.view().contains_key(h) ==> standings.view()[h].wf(),
                forall|h: SubjectId, t: SubjectId|
                    #![trigger standing_of(all.subrange(0, i as int), h, t)]
                    (standings.view().contains_key(h.0) && standings.view()[h.0].view().contains_key(
                        t.0,
                    )) == (standing_of(all.subrange(0, i as int), h, t).from_deeds.len() > 0),
                forall|h: SubjectId, t: SubjectId|
                    #![trigger standing_of(all.subrange(0, i as int), h, t)]
                    (standings.view().contains_key(h.0) && standings.view()[h.0].view().contains_key(
                        t.0,
                    )) ==> standings.view()[h.0].view()[t.0]@ == standing_of(
                        all.subrange(0, i as int),
                        h,
                        t,
                    ),
            decreases all.len() - i,
        {
            let deed = deeds[i];
            let ghost prefix = all.subrange(0, i as int);
            let ghost next = all.subrange(0, i + 1);
            proof {
                assert(next.drop_last() =~= prefix);
                assert(next.last() == deed);
                if fits(all) {
                    lemma_fits_prefix(all, i + 1);
                }
            }
            if let Some(toward) = deed.toward {
                if toward != deed.doer {
                    let (trust, affinity) = deed.kind.weight();
                    let holder_key = toward.0;
                    let doer_key = deed.doer.0;
                    let ghost outer = standings.view();
                    let ghost key_present = outer.contains_key(holder_key) && outer[holder_key].view().contains_key(doer_key);
                    proof {
                        lemma_unmoved_is_stranger(prefix, toward, deed.doer);
                        assert(toward == SubjectId(holder_key));
                        assert(deed.doer == SubjectId(doer_key));
                        assert(key_present == (standing_of(prefix, toward, deed.doer).from_deeds.len() > 0));
                        if key_present {
                            assert(outer[holder_key].view()[doer_key]@ == standing_of(prefix, toward, deed.doer));
                        }
                    }
                    let mut inner = match standings.remove(holder_key) {
                        Some(inner) => inner,
                        None => Keyed::new(),
                    };
                    let ghost inner_before = inner.view();
                    proof {
                        if outer.contains_key(holder_key) {
                            assert(inner_before == outer[holder_key].view());
                        }
                    }
                    let mut standing = match inner.remove(doer_key) {
                        Some(standing) => standing,
                        None => Standing::stranger(),
                    };
                    proof {
                        assert(standing@ == standing_of(prefix, toward, deed.doer));
                        assert(standing_of(next, toward, deed.doer).trust == standing@.trust
                            + weight_of(deed.kind).0);
                    }
                    let moved_trust = match standing.trust.checked_add(trust) {
                        Some(v) => v,
                        None => {
                            proof {
                                if fits(all) {
                                    lemma_fits_prefix(all, i + 1);
                                    assert(fits(next));
                                    let sn = standing_of(next, toward, deed.doer);
                                    assert(in_i16(sn.trust) && in_i16(sn.affinity));
                                    assert(sn.affinity == standing@.affinity + weight_of(deed.kind).1);
                                }
                            }
                            return None;
                        },
                    };
                    let moved_affinity = match standing.affinity.checked_add(affinity) {
                        Some(v) => v,
                        None => {
                            proof {
                                if fits(all) {
                                    lemma_fits_prefix(all, i + 1);
                                    assert(fits(next));
                                    let sn = standing_of(next, toward, deed.doer);
                                    assert(in_i16(sn.trust) && in_i16(sn.affinity));
                                    assert(sn.affinity == standing@.affinity + weight_of(deed.kind).1);
                                }
                            }
                            return None;
                        },
                    };
                    standing.trust = moved_trust;
                    standing.affinity = moved_affinity;
                    proof {
                        assert(fits(next));
                    }
                    standing.from_deeds.push(deed.id);
                    proof {
                        assert(standing@.from_deeds =~= standing_of(next, toward, deed.doer).from_deeds);
                    }
                    inner.insert(doer_key, standing);
                    standings.insert(holder_key, inner);
                    proof {
                        assert forall|h: SubjectId, t: SubjectId|
                            #![trigger standing_of(next, h, t)]
                            (standings.view().contains_key(h.0)
                                && standings.view()[h.0].view().contains_key(t.0)) == (standing_of(
                                next,
                                h,
                                t,
                            ).from_deeds.len() > 0) && ((standings.view().contains_key(h.0)
                                && standings.view()[h.0].view().contains_key(t.0))
                                ==> standings.view()[h.0].view()[t.0]@ == standing_of(next, h, t)) by {
                            let was = standing_of(prefix, h, t);
                            if h.0 == holder_key && t.0 == doer_key {
                                assert(h == toward);
                                assert(t == deed.doer);
                            } else if h.0 == holder_key {
                                assert(h == toward);
                                assert(t != deed.doer);
                                assert(standing_of(next, h, t) == was);
                                assert(standings.view()[h.0].view().contains_key(t.0) == inner_before.contains_key(t.0));
                                if outer.contains_key(h.0) {
                                    assert(inner_before == outer[h.0].view());
                                } else {
                                    assert(!inner_before.contains_key(t.0));
                                }
                            } else {
                                assert(h != toward);
                                assert(standing_of(next, h, t) == was);
                                assert(standings.view().contains_key(h.0) == outer.contains_key(h.0));
                            }
                        }
                    }
                } else {
                    proof {
                        assert forall|h: SubjectId, t: SubjectId|
                            #![trigger standing_of(next, h, t)]
                            standing_of(next, h, t) == standing_of(prefix, h, t) by {}
                    }
                }
            } else {
                proof {
                    assert forall|h: SubjectId, t: SubjectId|
                        #![trigger standing_of(next, h, t)]
                        standing_of(next, h, t) == standing_of(prefix, h, t) by {}
                }
            }
            i = i + 1;
        }
        proof {
            assert(all.subrange(0, i as int) =~= all);
        }
        let relations = Relations { standings };
        proof {
            assert forall|h: SubjectId, t: SubjectId| #[trigger]
                relations.standing_at(h, t) == standing_of(all, h, t) by {
                assert(standing_of(all.subrange(0, i as int), h, t) == standing_of(all, h, t));
                lemma_unmoved_is_stranger(all, h, t);
            }
            assert forall|h: SubjectId, t: SubjectId| #[trigger]
                relations.present(h.0, t.0) == (standing_of(all, h, t).from_deeds.len() > 0) by {
                assert(standing_of(all.subrange(0, i as int), h, t) == standing_of(all, h, t));
            }
        }
        Some(relations)
    }

    /// The whole fold. Every deed aimed at somebody moves that person's read
    /// of the doer, by the doer's own deed weights.
    pub fn derive(log: &DeedLog) -> (relations: Self)
        requires
            fits(log.deeds_spec()),
        ensures
            relations.derived_from(log.deeds_spec()),
    {
        match Relations::try_derive(log) {
            Some(r) => r,
            None => {
                proof {
                    assert(false);
                }
                Relations { standings: Keyed::new() }
            },
        }
    }

    /// How `holder` reads `toward`. A stranger is a zero, not an absence.
    pub fn of(&self, holder: SubjectId, toward: SubjectId) -> (standing: Standing)
        requires
            self.wf(),
        ensures
            standing@ == self.standing_at(holder, toward),
    {
        match self.standings.get(holder.0) {
            Some(inner) => match inner.get(toward.0) {
                Some(standing) => standing.copy(),
                None => Standing::stranger(),
            },
            None => Standing::stranger(),
        }
    }

    pub closed spec fn pairs(&self) -> Seq<((SubjectId, SubjectId), Standing)> {
        pairs_of(self.standings.entries_spec())
    }

    /// Every recorded standing as ((holder, toward), standing), in holder
    /// order and then toward order.
    pub fn iter(&self) -> (all: Vec<((SubjectId, SubjectId), &Standing)>)
        ensures
            all@.len() == self.pairs().len(),
            forall|i: int|
                0 <= i < all@.len() ==> (#[trigger] all@[i]).0 == self.pairs()[i].0 && *all@[i].1
                    == self.pairs()[i].1,
    {
        let mut all: Vec<((SubjectId, SubjectId), &Standing)> = Vec::new();
        let ghost outer = self.standings.entries_spec();
        let mut i: usize = 0;
        while i < self.standings.len()
            invariant
                outer == self.standings.entries_spec(),
                i <= outer.len(),
                all@.len() == pairs_of(outer.subrange(0, i as int)).len(),
                forall|k: int|
                    0 <= k < all@.len() ==> (#[trigger] all@[k]).0 == pairs_of(
                        outer.subrange(0, i as int),
                    )[k].0 && *all@[k].1 == pairs_of(outer.subrange(0, i as int))[k].1,
            decreases outer.len() - i,
        {
            let (holder, inner) = self.standings.entry(i);
            let ghost inner_entries = inner.entries_spec();
            let ghost before = pairs_of(outer.subrange(0, i as int));
            let mut j: usize = 0;
            while j < inner.len()
                invariant
                    outer == self.standings.entries_spec(),
                    i < outer.len(),
                    inner_entries == inner.entries_spec(),
                    j <= inner_entries.len(),
                    all@.len() == before.len() + j,
                    forall|k: int|
                        0 <= k < before.len() ==> (#[trigger] all@[k]).0 == before[k].0 && *all@[k].1
                            == before[k].1,
                    forall|k: int|
                        before.len() <= k < all@.len() ==> (#[trigger] all@[k]).0 == (
                        SubjectId(holder),
                        SubjectId(inner_entries[k - before.len()].0),
                    ) && *all@[k].1 == inner_entries[k - before.len()].1,
                decreases inner_entries.len() - j,
            {
                let (toward, standing) = inner.entry(j);
                all.push(((SubjectId(holder), SubjectId(toward)), standing));
                j = j + 1;
            }
            proof {
                assert(outer.subrange(0, i + 1).drop_last() =~= outer.subrange(0, i as int));
                assert(outer.subrange(0, i + 1).last() == outer[i as int]);
                let after = pairs_of(outer.subrange(0, i + 1));
                assert(after == before + inner_pairs(holder, inner_entries));
                assert forall|k: int| 0 <= k < all@.len() implies (#[trigger] all@[k]).0 == after[k].0
                    && *all@[k].1 == after[k].1 by {
                    if k >= before.len() {
                        assert(after[k] == inner_pairs(holder, inner_entries)[k - before.len()]);
                    }
                }
            }
            i = i + 1;
        }
        proof {
            assert(outer.subrange(0, i as int) =~= outer);
        }
        all
    }

    /// How many (holder, toward) standings are recorded: one for each
    /// pair listed by `iter`.
    pub fn len(&self) -> (n: usize)
        ensures
            n == self.pairs().len(),
    {
        let all = self.iter();
        all.len()
    }

    /// The standing listed at `k` is the one recorded for its pair.
    pub proof fn lemma_pair_standing(r: Relations, k: int)
        requires
            r.wf(),
            0 <= k < r.pairs().len(),
        ensures
            r.present(r.pairs()[k].0.0.0, r.pairs()[k].0.1.0),
            r.standing_at(r.pairs()[k].0.0, r.pairs()[k].0.1) == r.pairs()[k].1@,
    {
        let s = r.standings.entries_spec();
        assert forall|i: int| 0 <= i < s.len() implies (#[trigger] s[i]).1.wf() by {
            lemma_map_of_index(s, i);
            assert(r.standings.view().contains_key(s[i].0));
            assert(r.standings.view()[s[i].0].wf());
        }
        lemma_pairs_of(s);
        let p = r.pairs()[k];
        assert(located(s, p));
        let (i, e) = choose|i: int, e: int|
            0 <= i < s.len() && 0 <= e < s[i].1.entries_spec().len() && #[trigger] s[i].0 == p.0.0.0
                && #[trigger] s[i].1.entries_spec()[e] == (p.0.1.0, p.1);
        lemma_map_of_index(s, i);
        lemma_map_of_index(s[i].1.entries_spec(), e);
    }

    /// What `iter` lists, and so what `len` counts: every recorded pair,
    /// each once, in holder order and then toward order, and nothing else.
    pub proof fn law_pairs_are_the_recorded_ones(&self)
        requires
            self.wf(),
        ensures
            forall|h: u64, t: u64| listed(self.pairs(), h, t) <==> self.present(h, t),
            forall|a: int, b: int|
                0 <= a < b < self.pairs().len() ==> pair_before(
                    (#[trigger] self.pairs()[a]).0,
                    (#[trigger] self.pairs()[b]).0,
                ),
    {
        let s = self.standings.entries_spec();
        assert forall|i: int| 0 <= i < s.len() implies (#[trigger] s[i]).1.wf() by {
            lemma_map_of_index(s, i);
            assert(self.standings.view().contains_key(s[i].0));
            assert(self.standings.view()[s[i].0].wf());
        }
        lemma_pairs_of(s);
        assert forall|h: u64, t: u64| in_outer(s, h, t) <==> self.present(h, t) by {
            if in_outer(s, h, t) {
                let i = choose|i: int| 0 <= i < s.len() && #[trigger] s[i].0 == h && has_key(s[i].1.entries_spec(), t);
                lemma_map_of_index(s, i);
            }
            if self.present(h, t) {
                assert(has_key(s, h));
                let i = choose|i: int| 0 <= i < s.len() && #[trigger] s[i].0 == h;
                lemma_map_of_index(s, i);
            }
        }
    }

    pub fn is_empty(&self) -> (b: bool)
        requires
            self.wf(),
        ensures
            b == (forall|h: u64, t: u64| !self.present(h, t)),
    {
        let mut i: usize = 0;
        while i < self.standings.len()
            invariant
                self.wf(),
                i <= self.standings.entries_spec().len(),
                forall|a: int| 0 <= a < i ==> (#[trigger] self.standings.entries_spec()[a]).1.view().is_empty(),
            decreases self.standings.entries_spec().len() - i,
        {
            let (key, inner) = self.standings.entry(i);
            proof {
                lemma_map_of_index(self.standings.entries_spec(), i as int);
                assert(self.standings.view().contains_key(key));
                assert(inner.wf());
            }
            if !inner.is_empty() {
                proof {
                    let e = inner.entries_spec()[0];
                    lemma_map_of_index(inner.entries_spec(), 0);
                    assert(self.present(self.standings.entries_spec()[i as int].0, e.0));
                }
                return false;
            }
            proof {
                assert(inner.view() =~= Map::<u64, Standing>::empty());
            }
            i = i + 1;
        }
        proof {
            assert forall|h: u64, t: u64| !self.present(h, t) by {
                if self.standings.view().contains_key(h) {
                    let a = choose|a: int| 0 <= a < self.standings.entries_spec().len() && #[trigger] self.standings.entries_spec()[a].0 == h;
                    lemma_map_of_index(self.standings.entries_spec(), a);
                }
            }
        }
        true
    }
}

/// Every deed a standing names is a deed of the log it was folded from.
pub proof fn lemma_standing_names_logged_deeds(log: Seq<Deed>, holder: SubjectId, toward: SubjectId)
    requires
        numbered(log),
    ensures
        forall|i: int|
            0 <= i < standing_of(log, holder, toward).from_deeds.len() ==> (#[trigger] standing_of(
                log,
                holder,
                toward,
            ).from_deeds[i]).0 < log.len(),
    decreases log.len(),
{
    if log.len() > 0 {
        let d = log.drop_last();
        assert forall|i: int| 0 <= i < d.len() implies (#[trigger] d[i]).id == DeedId(i as u64) by {
            assert(d[i] == log[i]);
        }
        lemma_standing_names_logged_deeds(d, holder, toward);
        assert(log[log.len() - 1].id == DeedId((log.len() - 1) as u64));
        let before = standing_of(d, holder, toward);
        let after = standing_of(log, holder, toward);
        assert forall|i: int| 0 <= i < after.from_deeds.len() implies (#[trigger] after.from_deeds[i]).0 < log.len() by {
            if i < before.from_deeds.len() {
                assert(before.from_deeds[i].0 < d.len());
            }
        }
    }
}

/// A refusal costs the refuser nothing: whoever reads the one who said no,
/// reads them with the same trust and the same affinity as before it.
pub proof fn law_a_refusal_costs_the_refuser_nothing(log: Seq<Deed>, refusal: Deed, holder: SubjectId, toward: SubjectId)
    requires
        refusal.kind == DeedKind::OfferRefused,
    ensures
        standing_of(log.push(refusal), holder, toward).trust == standing_of(log, holder, toward).trust,
        standing_of(log.push(refusal), holder, toward).affinity == standing_of(log, holder, toward).affinity,
{
    assert(log.push(refusal).drop_last() =~= log);
}

} // verus!
