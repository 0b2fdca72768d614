//! Host-owned frame validation and presentation policy.
//!
//! A validation error found in a frame's scope either suppresses that very
//! frame (awaited) or is latched and suppresses the first frame begun after
//! it (optimistic). A fault on the shared device is latched and answers
//! every later frame with a rebuild-all, until the outer lifecycle rebuilds.

use vstd::prelude::*;
use vstd::string::StringSliceAdditionalSpecFns;

verus! {

/// Whether a validation result suppresses the frame whose scope produced it
/// or is latched for the first still-unpresented frame observed afterward.
#[derive(Clone, Copy, Debug, PartialEq, Eq, Structural)]
pub enum PresentationPolicy {
    AwaitedDiagnostic,
    Optimistic,
}

/// A byte with ASCII capitals taken to lower case; every other byte as it
/// is.
pub open spec fn ascii_lower(b: u8) -> u8 {
    if 65 <= b <= 90 {
        (b + 32) as u8
    } else {
        b
    }
}

/// Whether `value`, ASCII capitals taken to lower case, spells `word`.
pub open spec fn spelled(value: Seq<u8>, word: Seq<u8>) -> bool {
    &&& value.len() == word.len()
    &&& forall|i: int| 0 <= i < value.len() ==> ascii_lower(#[trigger] value[i]) == word[i]
}

/// Whether `value` spells `word` without regard to ASCII case; `word` is
/// written in lower case.
pub fn spelled_as(value: &str, word: &str) -> (same: bool)
    ensures
        same == spelled(value.spec_bytes(), word.spec_bytes()),
{
    let v = value.as_bytes();
    let w = word.as_bytes();
    if v.len() != w.len() {
        return false;
    }
    let mut i: usize = 0;
    while i < v.len()
        invariant
            v@ == value.spec_bytes(),
            w@ == word.spec_bytes(),
            v@.len() == w@.len(),
            i <= v@.len(),
            forall|j: int| 0 <= j < i ==> ascii_lower(#[trigger] v@[j]) == w@[j],
        decreases v@.len() - i,
    {
        let b: u8 = v[i];
        let lower = if 65 <= b && b <= 90 {
            b + 32
        } else {
            b
        };
        if lower != w[i] {
            return false;
        }
        i = i + 1;
    }
    true
}

/// The presentation policy a setting names: unset is optimistic; otherwise
/// awaited or optimistic, in any ASCII case; anything else names none.
pub open spec fn policy_named(value: Seq<u8>) -> Option<PresentationPolicy> {
    if value.len() == 0 {
        Some(PresentationPolicy::Optimistic)
    } else if spelled(value, "awaited".spec_bytes()) || spelled(value, "awaiteddiagnostic".spec_bytes()) || spelled(
        value,
        "awaited-diagnostic".spec_bytes(),
    ) {
        Some(PresentationPolicy::AwaitedDiagnostic)
    } else if spelled(value, "optimistic".spec_bytes()) {
        Some(PresentationPolicy::Optimistic)
    } else {
        None
    }
}

impl PresentationPolicy {
    /// The policy a `PAREDROS_FRAME_POLICY` setting names, if any.
    /// Interactive room rendering defaults to optimistic presentation.
    pub fn named(value: &str) -> (policy: Option<PresentationPolicy>)
        ensures
            policy == policy_named(value.spec_bytes()),
    {
        if value.as_bytes().len() == 0 {
            Some(PresentationPolicy::Optimistic)
        } else if spelled_as(value, "awaited") || spelled_as(value, "awaiteddiagnostic") || spelled_as(
            value,
            "awaited-diagnostic",
        ) {
            Some(PresentationPolicy::AwaitedDiagnostic)
        } else if spelled_as(value, "optimistic") {
            Some(PresentationPolicy::Optimistic)
        } else {
            None
        }
    }
}

/// A validation error attributed to one tenant operation and frame.
#[derive(Clone, Debug, PartialEq, Eq)]
pub struct ValidationRecord {
    pub tenant_name: String,
    pub producer_path: String,
    pub frame: u64,
    pub error: String,
}

/// A fault which affects the shared device and requires rebuild-all
/// handling.
#[derive(Clone, Debug, PartialEq, Eq)]
pub enum SharedFault {
    UncapturedError { error: String },
    DeviceLost { reason: String, message: String },
    PollFailure { error: String },
}

/// Result of the host's frame-health gate.
#[derive(Clone, Debug, PartialEq, Eq)]
pub enum FrameDecision {
    Proceed,
    Suppress,
    RebuildAll(SharedFault),
}

pub struct RecordView {
    pub tenant_name: Seq<char>,
    pub producer_path: Seq<char>,
    pub frame: u64,
    pub error: Seq<char>,
}

pub enum FaultView {
    UncapturedError { error: Seq<char> },
    DeviceLost { reason: Seq<char>, message: Seq<char> },
    PollFailure { error: Seq<char> },
}

pub enum DecisionView {
    Proceed,
    Suppress,
    RebuildAll(FaultView),
}

impl View for ValidationRecord {
    type V = RecordView;

    open spec fn view(&self) -> RecordView {
        RecordView {
            tenant_name: self.tenant_name@,
            producer_path: self.producer_path@,
            frame: self.frame,
            error: self.error@,
        }
    }
}

impl View for SharedFault {
    type V = FaultView;

    open spec fn view(&self) -> FaultView {
        match self {
            SharedFault::UncapturedError { error } => FaultView::UncapturedError { error: error@ },
            SharedFault::DeviceLost { reason, message } => FaultView::DeviceLost {
                reason: reason@,
                message: message@,
            },
            SharedFault::PollFailure { error } => FaultView::PollFailure { error: error@ },
        }
    }
}

impl View for FrameDecision {
    type V = DecisionView;

    open spec fn view(&self) -> DecisionView {
        match self {
            FrameDecision::Proceed => DecisionView::Proceed,
            FrameDecision::Suppress => DecisionView::Suppress,
            FrameDecision::RebuildAll(fault) => DecisionView::RebuildAll(fault@),
        }
    }
}

fn copy_record(record: &ValidationRecord) -> (copy: ValidationRecord)
    ensures
        copy@ == record@,
{
    ValidationRecord {
        tenant_name: record.tenant_name.clone(),
        producer_path: record.producer_path.clone(),
        frame: record.frame,
        error: record.error.clone(),
    }
}

fn copy_fault(fault: &SharedFault) -> (copy: SharedFault)
    ensures
        copy@ == fault@,
{
    match fault {
        SharedFault::UncapturedError { error } => SharedFault::UncapturedError { error: error.clone() },
        SharedFault::DeviceLost { reason, message } => SharedFault::DeviceLost {
            reason: reason.clone(),
            message: message.clone(),
        },
        SharedFault::PollFailure { error } => SharedFault::PollFailure { error: error.clone() },
    }
}

/// Host-owned state machine. It deliberately does not attempt tenant-local
/// recovery; shared faults are named as rebuild-all dispositions for the
/// caller's outer lifecycle.
#[derive(Debug)]
pub struct FrameHealth {
    policy: PresentationPolicy,
    pending_optimistic: Option<ValidationRecord>,
    shared_fault: Option<SharedFault>,
    validations: Vec<ValidationRecord>,
}

pub open spec fn fault_view(fault: Option<SharedFault>) -> Option<FaultView> {
    match fault {
        Some(f) => Some(f@),
        None => None,
    }
}

impl FrameHealth {
    pub closed spec fn policy_spec(&self) -> PresentationPolicy {
        self.policy
    }

    /// The optimistic validation still waiting for a frame to suppress.
    pub closed spec fn pending_spec(&self) -> Option<RecordView> {
        match self.pending_optimistic {
            Some(r) => Some(r@),
            None => None,
        }
    }

    /// The latched shared fault, if any.
    pub closed spec fn fault_spec(&self) -> Option<FaultView> {
        fault_view(self.shared_fault)
    }

    /// Every validation error recorded, oldest first.
    pub closed spec fn validations_spec(&self) -> Seq<RecordView> {
        self.validations@.map_values(|r: ValidationRecord| r@)
    }

    pub fn new(policy: PresentationPolicy) -> (health: Self)
        ensures
            health.policy_spec() == policy,
            health.pending_spec() is None,
            health.fault_spec() is None,
            health.validations_spec() == Seq::<RecordView>::empty(),
    {
        let health = FrameHealth {
            policy,
            pending_optimistic: None,
            shared_fault: None,
            validations: Vec::new(),
        };
        proof {
            assert(health.validations_spec() =~= Seq::<RecordView>::empty());
        }
        health
    }

    pub fn policy(&self) -> (policy: PresentationPolicy)
        ensures
            policy == self.policy_spec(),
    {
        self.policy
    }

    /// Resolves an earlier optimistic validation before trace advance or
    /// surface acquisition. Shared faults stay latched until the outer
    /// rebuild.
    pub fn begin_frame(&mut self, frame: u64) -> (decision: FrameDecision)
        ensures
            final(self).policy_spec() == old(self).policy_spec(),
            final(self).fault_spec() == old(self).fault_spec(),
            final(self).validations_spec() == old(self).validations_spec(),
            (decision@, final(self).pending_spec()) == fault_answer(old(self).fault_spec(), old(self).pending_spec()),
    {
        match &self.shared_fault {
            Some(fault) => {
                return FrameDecision::RebuildAll(copy_fault(fault));
            },
            None => {},
        }
        if self.pending_optimistic.is_some() {
            self.pending_optimistic = None;
            FrameDecision::Suppress
        } else {
            FrameDecision::Proceed
        }
    }

    /// Resolves the validation scope while still on the room's event-loop
    /// thread: no error lets the frame proceed; an error is recorded, and
    /// either suppresses this frame (awaited) or is latched for the next
    /// (optimistic).
    pub fn finish_validation(&mut self, tenant_name: &str, producer_path: &str, frame: u64, error: Option<String>) -> (decision:
        FrameDecision)
        ensures
            final(self).policy_spec() == old(self).policy_spec(),
            final(self).fault_spec() == old(self).fault_spec(),
            match error {
                None => {
                    &&& decision@ == DecisionView::Proceed
                    &&& final(self).validations_spec() == old(self).validations_spec()
                    &&& final(self).pending_spec() == old(self).pending_spec()
                },
                Some(e) => {
                    let record = RecordView {
                        tenant_name: tenant_name@,
                        producer_path: producer_path@,
                        frame,
                        error: e@,
                    };
                    &&& final(self).validations_spec() == old(self).validations_spec().push(record)
                    &&& match old(self).policy_spec() {
                        PresentationPolicy::AwaitedDiagnostic => decision@ == DecisionView::Suppress
                            && final(self).pending_spec() == old(self).pending_spec(),
                        PresentationPolicy::Optimistic => decision@ == DecisionView::Proceed
                            && final(self).pending_spec() == Some(record),
                    }
                },
            },
    {
        let error = match error {
            None => return FrameDecision::Proceed,
            Some(error) => error,
        };
        let record = ValidationRecord {
            tenant_name: tenant_name.to_owned(),
            producer_path: producer_path.to_owned(),
            frame,
            error,
        };
        let ghost before = self.validations@;
        self.validations.push(copy_record(&record));
        proof {
            assert(self.validations_spec() =~= old(self).validations_spec().push(record@));
        }
        match self.policy {
            PresentationPolicy::AwaitedDiagnostic => FrameDecision::Suppress,
            PresentationPolicy::Optimistic => {
                self.pending_optimistic = Some(record);
                FrameDecision::Proceed
            },
        }
    }

    /// Latches an uncaptured host or shared error. Tenant attribution
    /// belongs to a scoped validation record, so it is never inferred here.
    pub fn latch_uncaptured_error(&mut self, error: &str)
        ensures
            final(self).fault_spec() == Some(FaultView::UncapturedError { error: error@ }),
            final(self).policy_spec() == old(self).policy_spec(),
            final(self).pending_spec() == old(self).pending_spec(),
            final(self).validations_spec() == old(self).validations_spec(),
    {
        self.shared_fault = Some(SharedFault::UncapturedError { error: error.to_owned() });
    }

    /// Latches device loss as a rebuild-all fault.
    pub fn latch_device_lost(&mut self, reason: &str, message: &str)
        ensures
            final(self).fault_spec() == Some(FaultView::DeviceLost { reason: reason@, message: message@ }),
            final(self).policy_spec() == old(self).policy_spec(),
            final(self).pending_spec() == old(self).pending_spec(),
            final(self).validations_spec() == old(self).validations_spec(),
    {
        self.shared_fault = Some(
            SharedFault::DeviceLost { reason: reason.to_owned(), message: message.to_owned() },
        );
    }

    /// Latches a failed nonblocking device poll as a shared rebuild-all
    /// fault.
    pub fn latch_poll_failure(&mut self, error: &str)
        ensures
            final(self).fault_spec() == Some(FaultView::PollFailure { error: error@ }),
            final(self).policy_spec() == old(self).policy_spec(),
            final(self).pending_spec() == old(self).pending_spec(),
            final(self).validations_spec() == old(self).validations_spec(),
    {
        self.shared_fault = Some(SharedFault::PollFailure { error: error.to_owned() });
    }

    pub fn shared_fault(&self) -> (fault: Option<&SharedFault>)
        ensures
            match fault {
                Some(f) => self.fault_spec() == Some(f@),
                None => self.fault_spec() is None,
            },
    {
        match &self.shared_fault {
            Some(fault) => Some(fault),
            None => None,
        }
    }

    pub fn validations(&self) -> (all: &[ValidationRecord])
        ensures
            all@.map_values(|r: ValidationRecord| r@) == self.validations_spec(),
    {
        self.validations.as_slice()
    }
}

/// What a frame's beginning answers, and leaves pending, from a latched
/// fault and a pending optimistic validation: a fault answers rebuild-all
/// and stays; otherwise a pending validation suppresses this one frame.
pub open spec fn fault_answer(fault: Option<FaultView>, pending: Option<RecordView>) -> (
    DecisionView,
    Option<RecordView>,
) {
    match fault {
        Some(f) => (DecisionView::RebuildAll(f), pending),
        None => if pending is Some {
            (DecisionView::Suppress, None)
        } else {
            (DecisionView::Proceed, None)
        },
    }
}

} // verus!
