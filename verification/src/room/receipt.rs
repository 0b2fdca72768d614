//! What the headed room probes record, and when a record is a receipt.
//!
//! A probe injects one fault into one frame attempt, then watches which
//! attempts acquired a surface, which presented one, and which were
//! suppressed. A receipt is owed only once the attempts tell the whole
//! story the policy promises: the faulty frame never reached the surface,
//! and a healthy frame presented after it.

use vstd::prelude::*;

use vstd::string::StringSliceAdditionalSpecFns;

use crate::room::frame_health::{spelled, spelled_as, FrameHealth, PresentationPolicy, RecordView, ValidationRecord};

verus! {

/// Whether some attempt of `attempts` came after `after`.
pub open spec fn any_after(attempts: Seq<u64>, after: u64) -> bool {
    exists|i: int| 0 <= i < attempts.len() && #[trigger] attempts[i] > after
}

/// Whether no attempt of `a` is among `b`.
pub open spec fn none_among(a: Seq<u64>, b: Seq<u64>) -> bool {
    forall|i: int| 0 <= i < a.len() ==> !b.contains(#[trigger] a[i])
}

fn holds(attempts: &Vec<u64>, attempt: u64) -> (held: bool)
    ensures
        held == attempts@.contains(attempt),
{
    let mut i: usize = 0;
    while i < attempts.len()
        invariant
            i <= attempts@.len(),
            forall|j: int| 0 <= j < i ==> attempts@[j] != attempt,
        decreases attempts@.len() - i,
    {
        if attempts[i] == attempt {
            return true;
        }
        i = i + 1;
    }
    false
}

fn some_after(attempts: &Vec<u64>, after: u64) -> (found: bool)
    ensures
        found == any_after(attempts@, after),
{
    let mut i: usize = 0;
    while i < attempts.len()
        invariant
            i <= attempts@.len(),
            forall|j: int| 0 <= j < i ==> attempts@[j] <= after,
        decreases attempts@.len() - i,
    {
        if attempts[i] > after {
            return true;
        }
        i = i + 1;
    }
    false
}

fn all_absent(a: &Vec<u64>, b: &Vec<u64>) -> (absent: bool)
    ensures
        absent == none_among(a@, b@),
{
    let mut i: usize = 0;
    while i < a.len()
        invariant
            i <= a@.len(),
            forall|j: int| 0 <= j < i ==> !b@.contains(#[trigger] a@[j]),
        decreases a@.len() - i,
    {
        if holds(b, a[i]) {
            return false;
        }
        i = i + 1;
    }
    true
}

/// Whether record `i` is the first recorded against `frame`.
pub open spec fn first_for_frame(records: Seq<RecordView>, frame: u64, i: int) -> bool {
    &&& 0 <= i < records.len()
    &&& records[i].frame == frame
    &&& forall|j: int| 0 <= j < i ==> (#[trigger] records[j]).frame != frame
}

/// The headed validation probe: one injected invalid copy, and the surface
/// attempts around it.
pub struct HeadedValidationProbe {
    pub policy: PresentationPolicy,
    pub injected_attempt: Option<u64>,
    pub surface_acquire_attempts: Vec<u64>,
    pub surface_present_attempts: Vec<u64>,
    pub suppressed_attempts: Vec<u64>,
}

/// What the attempts must show for a headed receipt: the first suppressed
/// attempt is the injected one (awaited), or comes after the injected one
/// had presented (optimistic); no suppressed attempt acquired or presented;
/// and a healthy attempt presented after the suppression.
pub open spec fn headed_story(p: HeadedValidationProbe, injected: u64) -> bool {
    let suppressed = p.suppressed_attempts@;
    let acquired = p.surface_acquire_attempts@;
    let presented = p.surface_present_attempts@;
    &&& suppressed.len() > 0
    &&& any_after(presented, suppressed[0])
    &&& match p.policy {
        PresentationPolicy::AwaitedDiagnostic => suppressed[0] == injected,
        PresentationPolicy::Optimistic => presented.contains(injected) && suppressed[0] > injected,
    }
    &&& none_among(suppressed, acquired)
    &&& none_among(suppressed, presented)
}

/// The policy a headed probe setting names: awaited or optimistic, in any
/// ASCII case; anything else names none.
pub open spec fn headed_policy_named(value: Seq<u8>) -> Option<PresentationPolicy> {
    if spelled(value, "awaited".spec_bytes()) || spelled(value, "awaited-diagnostic".spec_bytes()) {
        Some(PresentationPolicy::AwaitedDiagnostic)
    } else if spelled(value, "optimistic".spec_bytes()) {
        Some(PresentationPolicy::Optimistic)
    } else {
        None
    }
}

/// Whether a rebuild probe setting asks for the probe: off for empty, 0 or
/// false; on for 1 or true, in any ASCII case; anything else says neither.
pub open spec fn rebuild_named(value: Seq<u8>) -> Option<bool> {
    if value.len() == 0 || spelled(value, "0".spec_bytes()) || spelled(value, "false".spec_bytes()) {
        Some(false)
    } else if spelled(value, "1".spec_bytes()) || spelled(value, "true".spec_bytes()) {
        Some(true)
    } else {
        None
    }
}

impl HeadedValidationProbe {
    pub fn new(policy: PresentationPolicy) -> (probe: Self)
        ensures
            probe.policy == policy,
            probe.injected_attempt is None,
            probe.surface_acquire_attempts@ == Seq::<u64>::empty(),
            probe.surface_present_attempts@ == Seq::<u64>::empty(),
            probe.suppressed_attempts@ == Seq::<u64>::empty(),
    {
        HeadedValidationProbe {
            policy,
            injected_attempt: None,
            surface_acquire_attempts: Vec::new(),
            surface_present_attempts: Vec::new(),
            suppressed_attempts: Vec::new(),
        }
    }

    /// The policy a `PAREDROS_RG3_HEADED_PROBE` setting names, if any.
    pub fn policy_named(value: &str) -> (policy: Option<PresentationPolicy>)
        ensures
            policy == headed_policy_named(value.spec_bytes()),
    {
        if spelled_as(value, "awaited") || spelled_as(value, "awaited-diagnostic") {
            Some(PresentationPolicy::AwaitedDiagnostic)
        } else if spelled_as(value, "optimistic") {
            Some(PresentationPolicy::Optimistic)
        } else {
            None
        }
    }

    /// Claims `attempt` for the one injected fault: true, and recorded, the
    /// first time; false, and nothing changes, ever after. The caller makes
    /// the invalid copy only on true.
    pub fn inject_once(&mut self, attempt: u64) -> (first: bool)
        ensures
            first == old(self).injected_attempt is None,
            first ==> final(self).injected_attempt == Some(attempt),
            !first ==> final(self).injected_attempt == old(self).injected_attempt,
            final(self).policy == old(self).policy,
            final(self).surface_acquire_attempts@ == old(self).surface_acquire_attempts@,
            final(self).surface_present_attempts@ == old(self).surface_present_attempts@,
            final(self).suppressed_attempts@ == old(self).suppressed_attempts@,
    {
        if self.injected_attempt.is_some() {
            return false;
        }
        self.injected_attempt = Some(attempt);
        true
    }

    pub fn record_suppressed(&mut self, attempt: u64)
        ensures
            final(self).suppressed_attempts@ == old(self).suppressed_attempts@.push(attempt),
            final(self).policy == old(self).policy,
            final(self).injected_attempt == old(self).injected_attempt,
            final(self).surface_acquire_attempts@ == old(self).surface_acquire_attempts@,
            final(self).surface_present_attempts@ == old(self).surface_present_attempts@,
    {
        self.suppressed_attempts.push(attempt);
    }

    /// The validation recorded against the injected attempt, once the
    /// attempts tell the whole story; nothing before.
    pub fn completed_record<'a>(&self, health: &'a FrameHealth) -> (record: Option<&'a ValidationRecord>)
        ensures
            match record {
                Some(r) => {
                    &&& self.injected_attempt is Some
                    &&& headed_story(*self, self.injected_attempt->Some_0)
                    &&& exists|i: int|
                        first_for_frame(health.validations_spec(), self.injected_attempt->Some_0, i)
                            && #[trigger] health.validations_spec()[i] == r@
                },
                None => !(self.injected_attempt is Some && headed_story(*self, self.injected_attempt->Some_0)
                    && exists|i: int|
                    0 <= i < health.validations_spec().len() && (#[trigger] health.validations_spec()[i]).frame
                        == self.injected_attempt->Some_0),
            },
    {
        let injected = match self.injected_attempt {
            Some(a) => a,
            None => return None,
        };
        let records = health.validations();
        let ghost views = health.validations_spec();
        let mut i: usize = 0;
        while i < records.len() && records[i].frame != injected
            invariant
                i <= records@.len(),
                records@.map_values(|r: ValidationRecord| r@) == views,
                forall|j: int| 0 <= j < i ==> (#[trigger] views[j]).frame != injected,
            decreases records@.len() - i,
        {
            proof {
                assert(views[i as int] == records@[i as int]@);
            }
            i = i + 1;
        }
        if i == records.len() {
            return None;
        }
        let at: usize = i;
        if self.suppressed_attempts.len() == 0 {
            return None;
        }
        let suppressed: u64 = self.suppressed_attempts[0];
        let healthy_presented = some_after(&self.surface_present_attempts, suppressed);
        let policy_contract = match self.policy {
            PresentationPolicy::AwaitedDiagnostic => suppressed == injected,
            PresentationPolicy::Optimistic => holds(&self.surface_present_attempts, injected) && suppressed > injected,
        };
        let never_acquired = all_absent(&self.suppressed_attempts, &self.surface_acquire_attempts);
        let never_presented = all_absent(&self.suppressed_attempts, &self.surface_present_attempts);
        if healthy_presented && policy_contract && never_acquired && never_presented {
            proof {
                assert(views[at as int] == records@[at as int]@);
                assert(first_for_frame(views, injected, at as int));
            }
            Some(&records[at])
        } else {
            None
        }
    }
}

/// The rebuild-all probe: one latched shared fault, the device generation
/// it struck, and the generation rebuilt after it.
pub struct RebuildProbe {
    pub injected_attempt: Option<u64>,
    pub fault_generation: Option<u64>,
    pub rebuilt_generation: Option<u64>,
    pub surface_acquire_attempts: Vec<u64>,
    pub surface_present_attempts: Vec<u64>,
    pub suppressed_attempts: Vec<u64>,
}

/// What the attempts must show for a rebuild receipt: the fault struck one
/// generation and a later one was rebuilt and is current; the faulty
/// attempt alone was suppressed and never reached the surface; and a later
/// attempt presented.
pub open spec fn rebuild_story(p: RebuildProbe, current_generation: u64) -> bool {
    match (p.injected_attempt, p.fault_generation, p.rebuilt_generation) {
        (Some(injected), Some(fault), Some(rebuilt)) => {
            &&& rebuilt > fault
            &&& current_generation == rebuilt
            &&& p.suppressed_attempts@ == seq![injected]
            &&& !p.surface_acquire_attempts@.contains(injected)
            &&& !p.surface_present_attempts@.contains(injected)
            &&& any_after(p.surface_present_attempts@, injected)
        },
        _ => false,
    }
}

impl RebuildProbe {
    pub fn new() -> (probe: Self)
        ensures
            probe.injected_attempt is None,
            probe.fault_generation is None,
            probe.rebuilt_generation is None,
            probe.surface_acquire_attempts@ == Seq::<u64>::empty(),
            probe.surface_present_attempts@ == Seq::<u64>::empty(),
            probe.suppressed_attempts@ == Seq::<u64>::empty(),
    {
        RebuildProbe {
            injected_attempt: None,
            fault_generation: None,
            rebuilt_generation: None,
            surface_acquire_attempts: Vec::new(),
            surface_present_attempts: Vec::new(),
            suppressed_attempts: Vec::new(),
        }
    }

    /// Whether a `PAREDROS_RG3_REBUILD_PROBE` setting asks for the probe,
    /// if it says either.
    pub fn requested(value: &str) -> (asked: Option<bool>)
        ensures
            asked == rebuild_named(value.spec_bytes()),
    {
        if value.as_bytes().len() == 0 || spelled_as(value, "0") || spelled_as(value, "false") {
            Some(false)
        } else if spelled_as(value, "1") || spelled_as(value, "true") {
            Some(true)
        } else {
            None
        }
    }

    /// Claims `attempt`, on device `generation`, for the one shared fault:
    /// true, and recorded, the first time; false ever after. The caller
    /// latches the fault only on true.
    pub fn inject_once(&mut self, attempt: u64, generation: u64) -> (first: bool)
        ensures
            first == old(self).injected_attempt is None,
            first ==> final(self).injected_attempt == Some(attempt) && final(self).fault_generation == Some(
                generation,
            ),
            !first ==> final(self).injected_attempt == old(self).injected_attempt && final(self).fault_generation
                == old(self).fault_generation,
            final(self).rebuilt_generation == old(self).rebuilt_generation,
            final(self).surface_acquire_attempts@ == old(self).surface_acquire_attempts@,
            final(self).surface_present_attempts@ == old(self).surface_present_attempts@,
            final(self).suppressed_attempts@ == old(self).suppressed_attempts@,
    {
        if self.injected_attempt.is_some() {
            return false;
        }
        self.injected_attempt = Some(attempt);
        self.fault_generation = Some(generation);
        true
    }

    pub fn record_rebuild(&mut self, fault_attempt: u64, rebuilt_generation: u64)
        ensures
            final(self).suppressed_attempts@ == old(self).suppressed_attempts@.push(fault_attempt),
            final(self).rebuilt_generation == Some(rebuilt_generation),
            final(self).injected_attempt == old(self).injected_attempt,
            final(self).fault_generation == old(self).fault_generation,
            final(self).surface_acquire_attempts@ == old(self).surface_acquire_attempts@,
            final(self).surface_present_attempts@ == old(self).surface_present_attempts@,
    {
        self.suppressed_attempts.push(fault_attempt);
        self.rebuilt_generation = Some(rebuilt_generation);
    }

    /// Whether the rebuild story is complete at `current_generation`.
    pub fn complete(&self, current_generation: u64) -> (done: bool)
        ensures
            done == rebuild_story(*self, current_generation),
    {
        let injected = match self.injected_attempt {
            Some(a) => a,
            None => return false,
        };
        let fault_generation = match self.fault_generation {
            Some(g) => g,
            None => return false,
        };
        let rebuilt_generation = match self.rebuilt_generation {
            Some(g) => g,
            None => return false,
        };
        let only_injected = self.suppressed_attempts.len() == 1 && self.suppressed_attempts[0] == injected;
        proof {
            if only_injected {
                assert(self.suppressed_attempts@ =~= seq![injected]);
            }
        }
        rebuilt_generation > fault_generation && current_generation == rebuilt_generation && only_injected && !holds(
            &self.surface_acquire_attempts,
            injected,
        ) && !holds(&self.surface_present_attempts, injected) && some_after(&self.surface_present_attempts, injected)
    }
}


/// How many of `s` lie below `m`.
pub open spec fn count_below(s: Seq<u64>, m: u64) -> nat
    decreases s.len(),
{
    if s.len() == 0 {
        0
    } else {
        count_below(s.drop_last(), m) + if s.last() < m {
            1nat
        } else {
            0nat
        }
    }
}

/// How many of `s` lie at or below `m`.
pub open spec fn count_at_most(s: Seq<u64>, m: u64) -> nat
    decreases s.len(),
{
    if s.len() == 0 {
        0
    } else {
        count_at_most(s.drop_last(), m) + if s.last() <= m {
            1nat
        } else {
            0nat
        }
    }
}

/// Whether `m` is the median of `s`: one of its values, with at most half
/// of the values below it and more than half at or below it. This is the
/// value at index `len / 2` of `s` sorted.
pub open spec fn is_median(s: Seq<u64>, m: u64) -> bool {
    &&& s.contains(m)
    &&& count_below(s, m) <= s.len() / 2
    &&& s.len() / 2 < count_at_most(s, m)
}

pub open spec fn ascending(s: Seq<u64>) -> bool {
    forall|i: int, j: int| 0 <= i <= j < s.len() ==> s[i] <= s[j]
}

proof fn lemma_counts_bounded(s: Seq<u64>, m: u64)
    ensures
        count_below(s, m) <= count_at_most(s, m) <= s.len(),
    decreases s.len(),
{
    if s.len() > 0 {
        lemma_counts_bounded(s.drop_last(), m);
    }
}

proof fn lemma_counts_push(s: Seq<u64>, x: u64, m: u64)
    ensures
        count_below(s.push(x), m) == count_below(s, m) + if x < m {
            1nat
        } else {
            0nat
        },
        count_at_most(s.push(x), m) == count_at_most(s, m) + if x <= m {
            1nat
        } else {
            0nat
        },
{
    assert(s.push(x).drop_last() =~= s);
}

proof fn lemma_counts_insert(s: Seq<u64>, p: int, x: u64, m: u64)
    requires
        0 <= p <= s.len(),
    ensures
        count_below(s.insert(p, x), m) == count_below(s, m) + if x < m {
            1nat
        } else {
            0nat
        },
        count_at_most(s.insert(p, x), m) == count_at_most(s, m) + if x <= m {
            1nat
        } else {
            0nat
        },
    decreases s.len(),
{
    if p == s.len() {
        assert(s.insert(p, x) =~= s.push(x));
        lemma_counts_push(s, x, m);
    } else {
        let t = s.insert(p, x);
        assert(t.drop_last() =~= s.drop_last().insert(p, x));
        assert(t.last() == s.last());
        lemma_counts_insert(s.drop_last(), p, x, m);
    }
}

proof fn lemma_all_at_most(s: Seq<u64>, m: u64)
    requires
        forall|i: int| 0 <= i < s.len() ==> s[i] <= m,
    ensures
        count_at_most(s, m) == s.len(),
    decreases s.len(),
{
    if s.len() > 0 {
        lemma_all_at_most(s.drop_last(), m);
    }
}

proof fn lemma_sorted_rank(s: Seq<u64>, k: int)
    requires
        ascending(s),
        0 <= k < s.len(),
    ensures
        count_below(s, s[k]) <= k,
        k + 1 <= count_at_most(s, s[k]),
    decreases s.len(),
{
    let d = s.drop_last();
    let n = s.len() as int;
    if k == n - 1 {
        lemma_counts_bounded(d, s[k]);
        assert forall|i: int| 0 <= i < d.len() implies d[i] <= s[k] by {
            assert(d[i] == s[i]);
        }
        lemma_all_at_most(d, s[k]);
    } else {
        assert(s.last() >= s[k]);
        assert(d[k] == s[k]);
        lemma_sorted_rank(d, k);
    }
}

proof fn lemma_absent_counts(s: Seq<u64>, m: u64)
    requires
        !s.contains(m),
    ensures
        count_at_most(s, m) == count_below(s, m),
    decreases s.len(),
{
    if s.len() > 0 {
        assert(s.last() != m) by {
            assert(s[s.len() - 1] == s.last());
        }
        assert(!s.drop_last().contains(m)) by {
            if s.drop_last().contains(m) {
                let i = choose|i: int| 0 <= i < s.drop_last().len() && s.drop_last()[i] == m;
                assert(s[i] == m);
            }
        }
        lemma_absent_counts(s.drop_last(), m);
    }
}

proof fn lemma_counts_monotone(s: Seq<u64>, a: u64, b: u64)
    requires
        a < b,
    ensures
        count_at_most(s, a) <= count_below(s, b),
    decreases s.len(),
{
    if s.len() > 0 {
        lemma_counts_monotone(s.drop_last(), a, b);
    }
}

/// A list has one median: two values that both are its median are the
/// same value.
pub proof fn law_the_median_is_one_value(s: Seq<u64>, a: u64, b: u64)
    requires
        is_median(s, a),
        is_median(s, b),
    ensures
        a == b,
{
    if a < b {
        lemma_counts_monotone(s, a, b);
    } else if b < a {
        lemma_counts_monotone(s, b, a);
    }
}

/// The median of a non-empty list of samples: the middle value once
/// sorted.
pub fn median(values: &[u64]) -> (m: u64)
    requires
        values@.len() > 0,
    ensures
        is_median(values@, m),
{
    let mut sorted: Vec<u64> = Vec::new();
    let mut i: usize = 0;
    while i < values.len()
        invariant
            i <= values@.len(),
            sorted@.len() == i,
            ascending(sorted@),
            forall|m: u64|
                #[trigger] count_below(sorted@, m) == count_below(values@.take(i as int), m) && count_at_most(
                    sorted@,
                    m,
                ) == count_at_most(values@.take(i as int), m),
        decreases values@.len() - i,
    {
        let x: u64 = values[i];
        let mut j: usize = 0;
        while j < sorted.len() && sorted[j] <= x
            invariant
                j <= sorted@.len(),
                forall|t: int| 0 <= t < j ==> sorted@[t] <= x,
            decreases sorted@.len() - j,
        {
            j = j + 1;
        }
        let ghost before = sorted@;
        sorted.insert(j, x);
        proof {
            assert forall|a: int, b: int| 0 <= a <= b < sorted@.len() implies sorted@[a] <= sorted@[b] by {
                if a < j && b < j {
                    assert(sorted@[a] == before[a] && sorted@[b] == before[b]);
                } else if a < j && b == j {
                    assert(sorted@[a] == before[a]);
                } else if a < j {
                    assert(sorted@[a] == before[a] && sorted@[b] == before[b - 1]);
                    assert(before[a] <= before[b - 1]);
                } else if a == j && b > j {
                    assert(sorted@[b] == before[b - 1]);
                    assert(before[j as int] > x);
                    assert(before[j as int] <= before[b - 1]);
                } else if a > j {
                    assert(sorted@[a] == before[a - 1] && sorted@[b] == before[b - 1]);
                }
            }
            assert(values@.take(i + 1) =~= values@.take(i as int).push(x));
            assert forall|m: u64|
                #[trigger] count_below(sorted@, m) == count_below(values@.take(i + 1), m) && count_at_most(
                    sorted@,
                    m,
                ) == count_at_most(values@.take(i + 1), m) by {
                lemma_counts_insert(before, j as int, x, m);
                lemma_counts_push(values@.take(i as int), x, m);
            }
        }
        i = i + 1;
    }
    let middle: usize = sorted.len() / 2;
    let m: u64 = sorted[middle];
    proof {
        assert(values@.take(i as int) =~= values@);
        lemma_sorted_rank(sorted@, middle as int);
        assert(count_below(sorted@, m) == count_below(values@, m));
        if !values@.contains(m) {
            lemma_absent_counts(values@, m);
        }
    }
    m
}

} // verus!
