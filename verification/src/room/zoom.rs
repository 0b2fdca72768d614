//! What the continuous-zoom residency trace concludes from its frames: how
//! soon frame time recovers after a rapid zoom, whether the travel frame
//! republished an equal-extent projection, what a stable brick cache owes
//! every frame, and the summary numbers of the whole trace. The frames are
//! drawn and timed elsewhere; these are the judgments over their records.

use vstd::prelude::*;

use crate::room::receipt::{is_median, law_the_median_is_one_value, median};

verus! {

/// Bytes one brick slot uploads: eight voxels on a side, one byte each.
pub const SLOT_BYTES: u64 = 512;

/// One frame of the trace, as far as its judgments read it.
#[derive(Clone, Copy, Debug, PartialEq, Eq)]
pub struct FrameSample {
    pub frame: u64,
    pub resident_range: i32,
    pub resident_bytes: u64,
    pub page_transition: bool,
    pub brick_upload_bytes: u64,
    pub resource_creations: u32,
    pub bind_group_rebuilds: u32,
    pub projection_replaced: bool,
    pub frame_us: u64,
}

/// What the tracer reported of one frame's uploads and rebuilds.
#[derive(Clone, Copy, Debug, PartialEq, Eq)]
pub struct TracerReport {
    pub resource_creations: u32,
    pub bind_group_rebuilds: u32,
    pub map_recreated: bool,
    pub projection_replaced: bool,
    pub brick_upload_bytes: u64,
}

/// How frame time came back after a rapid zoom.
#[derive(Clone, Copy, Debug, PartialEq, Eq)]
pub struct Recovery {
    pub event_frame: u64,
    pub resident_range: i32,
    pub steady_median_us: u64,
    pub threshold_us: u64,
    pub event_frame_us: u64,
    pub recovered_at_frame: Option<u64>,
    pub recovery_frames: Option<u64>,
}

/// The trace's summary numbers.
#[derive(Clone, Copy, Debug, PartialEq, Eq)]
pub struct TraceSummary {
    pub frames: usize,
    pub page_transitions: usize,
    pub total_brick_upload_bytes: u64,
    pub maximum_resident_bytes: u64,
    pub frame_us_min: u64,
    pub frame_us_median: u64,
    pub frame_us_max: u64,
    pub steady_frame_us_median: u64,
}

/// Whether a frame counts as steady: no page changed on it, and, where a
/// range is given, it kept that resident range.
pub open spec fn steady(x: FrameSample, range: Option<i32>) -> bool {
    &&& !x.page_transition
    &&& match range {
        Some(r) => x.resident_range == r,
        None => true,
    }
}

/// The frame times of the steady frames, in trace order.
pub open spec fn steady_spans(s: Seq<FrameSample>, range: Option<i32>) -> Seq<u64>
    decreases s.len(),
{
    if s.len() == 0 {
        Seq::empty()
    } else if steady(s.last(), range) {
        steady_spans(s.drop_last(), range).push(s.last().frame_us)
    } else {
        steady_spans(s.drop_last(), range)
    }
}

/// Every frame's time, in trace order.
pub open spec fn spans(s: Seq<FrameSample>) -> Seq<u64> {
    Seq::new(s.len(), |i: int| s[i].frame_us)
}

/// Every frame's resident bytes, in trace order.
pub open spec fn resident(s: Seq<FrameSample>) -> Seq<u64> {
    Seq::new(s.len(), |i: int| s[i].resident_bytes)
}

/// How many frames changed page.
pub open spec fn transitions(s: Seq<FrameSample>) -> nat
    decreases s.len(),
{
    if s.len() == 0 {
        0
    } else {
        transitions(s.drop_last()) + if s.last().page_transition {
            1nat
        } else {
            0nat
        }
    }
}

/// The bytes all frames uploaded together.
pub open spec fn upload_total(s: Seq<FrameSample>) -> nat
    decreases s.len(),
{
    if s.len() == 0 {
        0
    } else {
        upload_total(s.drop_last()) + s.last().brick_upload_bytes as nat
    }
}

pub open spec fn is_least(s: Seq<u64>, m: u64) -> bool {
    s.contains(m) && forall|i: int| 0 <= i < s.len() ==> m <= s[i]
}

pub open spec fn is_greatest(s: Seq<u64>, m: u64) -> bool {
    s.contains(m) && forall|i: int| 0 <= i < s.len() ==> s[i] <= m
}

/// `i` is the first frame of the trace numbered `f`.
pub open spec fn first_numbered(s: Seq<FrameSample>, f: u64, i: int) -> bool {
    &&& 0 <= i < s.len()
    &&& s[i].frame == f
    &&& forall|j: int| 0 <= j < i ==> s[j].frame != f
}

pub open spec fn numbered(s: Seq<FrameSample>, f: u64) -> bool {
    exists|i: int| 0 <= i < s.len() && s[i].frame == f
}

/// The recovery threshold: a quarter above the steady median.
pub open spec fn threshold_of(m: u64) -> int {
    m + m / 4
}

/// A frame after the event, at the event's range, back under the threshold.
pub open spec fn recovers(x: FrameSample, f: u64, range: i32, threshold: u64) -> bool {
    &&& x.frame > f
    &&& x.resident_range == range
    &&& x.frame_us <= threshold
}

pub open spec fn first_recovery(s: Seq<FrameSample>, f: u64, range: i32, threshold: u64, k: int) -> bool {
    &&& 0 <= k < s.len()
    &&& recovers(s[k], f, range, threshold)
    &&& forall|j: int| 0 <= j < k ==> !recovers(s[j], f, range, threshold)
}

/// `r` is the recovery measured from the event frame at index `i`.
pub open spec fn recovery_from(s: Seq<FrameSample>, f: u64, i: int, r: Recovery) -> bool {
    &&& r.event_frame == f
    &&& r.resident_range == s[i].resident_range
    &&& r.event_frame_us == s[i].frame_us
    &&& is_median(steady_spans(s, Some(s[i].resident_range)), r.steady_median_us)
    &&& r.threshold_us == threshold_of(r.steady_median_us)
    &&& match r.recovered_at_frame {
        Some(g) => exists|k: int|
            first_recovery(s, f, r.resident_range, r.threshold_us, k) && s[k].frame == g,
        None => forall|k: int|
            0 <= k < s.len() ==> !recovers(#[trigger] s[k], f, r.resident_range, r.threshold_us),
    }
    &&& r.recovery_frames == match r.recovered_at_frame {
        Some(g) => Some((g - f) as u64),
        None => None,
    }
}

/// Where no recovery can be measured: no frame carries the event's number,
/// no steady frame shares its range, or the threshold leaves `u64`.
pub open spec fn unmeasurable(s: Seq<FrameSample>, f: u64) -> bool {
    ||| !numbered(s, f)
    ||| exists|i: int|
        #![trigger first_numbered(s, f, i)]
        first_numbered(s, f, i) && {
            let steady = steady_spans(s, Some(s[i].resident_range));
            ||| steady.len() == 0
            ||| exists|m: u64| is_median(steady, m) && threshold_of(m) > u64::MAX
        }
}

pub open spec fn summary_of(s: Seq<FrameSample>, t: TraceSummary) -> bool {
    &&& t.frames == s.len()
    &&& t.page_transitions == transitions(s)
    &&& t.total_brick_upload_bytes == upload_total(s)
    &&& is_greatest(resident(s), t.maximum_resident_bytes)
    &&& is_least(spans(s), t.frame_us_min)
    &&& is_greatest(spans(s), t.frame_us_max)
    &&& is_median(spans(s), t.frame_us_median)
    &&& is_median(steady_spans(s, None), t.steady_frame_us_median)
}

/// The travel frame proves an equal-extent republish: it changed page,
/// replaced the projection in place, created nothing, rebuilt no binding,
/// and uploaded something.
pub open spec fn republished(x: FrameSample) -> bool {
    &&& x.page_transition
    &&& x.projection_replaced
    &&& x.resource_creations == 0
    &&& x.bind_group_rebuilds == 0
    &&& x.brick_upload_bytes > 0
}

/// What a stable cache owes every frame after the first: nothing created,
/// no binding rebuilt, the map kept; a page change uploads the pointer
/// volume plus exactly its loaded slots, and any other frame uploads
/// nothing.
pub open spec fn stable_claim(
    frame: u64,
    page_transition: bool,
    pointer_bytes: u64,
    loaded_slots: u64,
    d: TracerReport,
) -> bool {
    frame == 0 || {
        &&& d.resource_creations == 0
        &&& d.bind_group_rebuilds == 0
        &&& !d.map_recreated
        &&& if page_transition {
            d.projection_replaced && d.brick_upload_bytes == pointer_bytes + loaded_slots * SLOT_BYTES
        } else {
            d.brick_upload_bytes == 0
        }
    }
}

proof fn lemma_first_numbered_unique(s: Seq<FrameSample>, f: u64, i: int, j: int)
    requires
        first_numbered(s, f, i),
        first_numbered(s, f, j),
    ensures
        i == j,
{
}

proof fn lemma_upload_prefix(s: Seq<FrameSample>, i: int)
    requires
        0 <= i <= s.len(),
    ensures
        upload_total(s.take(i)) <= upload_total(s),
    decreases s.len() - i,
{
    if i < s.len() {
        lemma_upload_prefix(s, i + 1);
        assert(s.take(i + 1).drop_last() =~= s.take(i));
    } else {
        assert(s.take(i) =~= s);
    }
}

/// The first index of a frame numbered `f`, or the trace's length.
fn first_at(samples: &Vec<FrameSample>, f: u64) -> (i: usize)
    ensures
        i <= samples@.len(),
        i < samples@.len() ==> first_numbered(samples@, f, i as int),
        i == samples@.len() ==> !numbered(samples@, f),
{
    let mut i: usize = 0;
    while i < samples.len() && samples[i].frame != f
        invariant
            i <= samples@.len(),
            forall|j: int| 0 <= j < i ==> samples@[j].frame != f,
        decreases samples@.len() - i,
    {
        i = i + 1;
    }
    i
}

fn steady_of(samples: &Vec<FrameSample>, range: Option<i32>) -> (v: Vec<u64>)
    ensures
        v@ == steady_spans(samples@, range),
{
    let mut v: Vec<u64> = Vec::new();
    let mut i: usize = 0;
    while i < samples.len()
        invariant
            i <= samples@.len(),
            v@ == steady_spans(samples@.take(i as int), range),
        decreases samples@.len() - i,
    {
        let x = samples[i];
        let keep = !x.page_transition && match range {
            Some(r) => x.resident_range == r,
            None => true,
        };
        if keep {
            v.push(x.frame_us);
        }
        proof {
            assert(samples@.take(i + 1).drop_last() =~= samples@.take(i as int));
        }
        i = i + 1;
    }
    proof {
        assert(samples@.take(i as int) =~= samples@);
    }
    v
}

/// How soon frame time recovers after the rapid zoom at `event_frame`: the
/// median time of the steady frames at the event's resident range, a
/// threshold a quarter above it, and the first later frame at that range
/// back under the threshold. `None` where no recovery can be measured.
pub fn recovery(samples: &Vec<FrameSample>, event_frame: u64) -> (r: Option<Recovery>)
    ensures
        r is None <==> unmeasurable(samples@, event_frame),
        r matches Some(r) ==> exists|i: int|
            first_numbered(samples@, event_frame, i) && recovery_from(samples@, event_frame, i, r),
{
    let ghost s = samples@;
    let i = first_at(samples, event_frame);
    if i == samples.len() {
        return None;
    }
    let event = samples[i];
    let steady = steady_of(samples, Some(event.resident_range));
    if steady.len() == 0 {
        return None;
    }
    let m = median(steady.as_slice());
    if m > u64::MAX - m / 4 {
        return None;
    }
    let threshold = m + m / 4;
    let mut k: usize = 0;
    while k < samples.len() && !(samples[k].frame > event_frame && samples[k].resident_range
        == event.resident_range && samples[k].frame_us <= threshold)
        invariant
            k <= samples@.len(),
            forall|j: int|
                0 <= j < k ==> !recovers(#[trigger] samples@[j], event_frame, event.resident_range, threshold),
        decreases samples@.len() - k,
    {
        k = k + 1;
    }
    let recovered_at_frame = if k < samples.len() {
        Some(samples[k].frame)
    } else {
        None
    };
    let recovery_frames = match recovered_at_frame {
        Some(g) => Some(g - event_frame),
        None => None,
    };
    let r = Recovery {
        event_frame,
        resident_range: event.resident_range,
        steady_median_us: m,
        threshold_us: threshold,
        event_frame_us: event.frame_us,
        recovered_at_frame,
        recovery_frames,
    };
    proof {
        let steady_s = steady_spans(s, Some(s[i as int].resident_range));
        assert(numbered(s, event_frame));
        assert forall|j: int| #![trigger first_numbered(s, event_frame, j)]
            first_numbered(s, event_frame, j) implies !({
            let st = steady_spans(s, Some(s[j].resident_range));
            ||| st.len() == 0
            ||| exists|m2: u64| is_median(st, m2) && threshold_of(m2) > u64::MAX
        }) by {
            lemma_first_numbered_unique(s, event_frame, i as int, j);
            assert forall|m2: u64| is_median(steady_s, m2) implies threshold_of(m2) <= u64::MAX by {
                law_the_median_is_one_value(steady_s, m, m2);
            }
        }
        if k < samples.len() {
            assert(first_recovery(s, event_frame, event.resident_range, threshold, k as int));
        }
        assert(recovery_from(s, event_frame, i as int, r));
    }
    Some(r)
}

/// The summary numbers of a whole trace: how many frames and page changes,
/// the bytes uploaded in all, the most bytes resident at once, the least,
/// median and greatest frame time, and the median time of the frames that
/// changed no page. `None` for an empty trace, one with no such steady
/// frame, or one whose uploads together leave `u64`.
pub fn summarize(samples: &Vec<FrameSample>) -> (t: Option<TraceSummary>)
    ensures
        t is None <==> (samples@.len() == 0 || steady_spans(samples@, None).len() == 0
            || upload_total(samples@) > u64::MAX),
        t matches Some(t) ==> summary_of(samples@, t),
{
    let ghost s = samples@;
    let n = samples.len();
    let steady = steady_of(samples, None);
    if n == 0 || steady.len() == 0 {
        return None;
    }
    let mut times: Vec<u64> = Vec::new();
    let mut changes: usize = 0;
    let mut total: u64 = 0;
    let mut most_resident: u64 = samples[0].resident_bytes;
    let mut least: u64 = samples[0].frame_us;
    let mut most: u64 = samples[0].frame_us;
    let mut i: usize = 0;
    while i < n
        invariant
            n == samples@.len(),
            n > 0,
            i <= n,
            times@ =~= spans(s.take(i as int)),
            changes == transitions(s.take(i as int)),
            changes <= i,
            total == upload_total(s.take(i as int)),
            i == 0 ==> most_resident == s[0].resident_bytes && least == s[0].frame_us && most == s[0].frame_us,
            i > 0 ==> is_greatest(resident(s.take(i as int)), most_resident),
            i > 0 ==> is_least(spans(s.take(i as int)), least),
            i > 0 ==> is_greatest(spans(s.take(i as int)), most),
            s == samples@,
        decreases n - i,
    {
        let x = samples[i];
        proof {
            assert(s.take(i + 1).drop_last() =~= s.take(i as int));
            assert(s.take(i + 1).last() == x);
        }
        match total.checked_add(x.brick_upload_bytes) {
            Some(sum) => {
                total = sum;
            },
            None => {
                proof {
                    lemma_upload_prefix(s, i + 1);
                }
                return None;
            },
        }
        if x.page_transition {
            changes = changes + 1;
        }
        if x.resident_bytes > most_resident {
            most_resident = x.resident_bytes;
        }
        if x.frame_us < least {
            least = x.frame_us;
        }
        if x.frame_us > most {
            most = x.frame_us;
        }
        let ghost before = times@;
        times.push(x.frame_us);
        proof {
            let p = s.take(i + 1);
            assert(spans(p) =~= spans(s.take(i as int)).push(x.frame_us));
            assert(resident(p) =~= resident(s.take(i as int)).push(x.resident_bytes));
            if i == 0 {
                assert(resident(p)[0] == most_resident);
                assert(spans(p)[0] == least);
            } else {
                let r0 = resident(s.take(i as int));
                let sp0 = spans(s.take(i as int));
                if most_resident == x.resident_bytes {
                    assert(resident(p)[i as int] == most_resident);
                } else {
                    let w = choose|w: int| 0 <= w < r0.len() && r0[w] == most_resident;
                    assert(resident(p)[w] == most_resident);
                }
                if least == x.frame_us {
                    assert(spans(p)[i as int] == least);
                } else {
                    let w = choose|w: int| 0 <= w < sp0.len() && sp0[w] == least;
                    assert(spans(p)[w] == least);
                }
                if most == x.frame_us {
                    assert(spans(p)[i as int] == most);
                } else {
                    let w = choose|w: int| 0 <= w < sp0.len() && sp0[w] == most;
                    assert(spans(p)[w] == most);
                }
            }
        }
        i = i + 1;
    }
    proof {
        assert(s.take(n as int) =~= s);
    }
    let frame_us_median = median(times.as_slice());
    let steady_frame_us_median = median(steady.as_slice());
    Some(
        TraceSummary {
            frames: n,
            page_transitions: changes,
            total_brick_upload_bytes: total,
            maximum_resident_bytes: most_resident,
            frame_us_min: least,
            frame_us_median,
            frame_us_max: most,
            steady_frame_us_median,
        },
    )
}

/// Whether the trace's frame numbered `travel_frame` proves an
/// equal-extent republish; `None` where no frame carries that number.
pub fn travel_proved(samples: &Vec<FrameSample>, travel_frame: u64) -> (proved: Option<bool>)
    ensures
        proved is None <==> !numbered(samples@, travel_frame),
        proved matches Some(b) ==> exists|i: int|
            first_numbered(samples@, travel_frame, i) && b == republished(samples@[i]),
{
    let i = first_at(samples, travel_frame);
    if i == samples.len() {
        return None;
    }
    let x = samples[i];
    Some(
        x.page_transition && x.projection_replaced && x.resource_creations == 0
            && x.bind_group_rebuilds == 0 && x.brick_upload_bytes > 0,
    )
}

/// Whether one frame kept the stable cache's promise.
pub fn stable_frame(
    frame: u64,
    page_transition: bool,
    pointer_bytes: u64,
    loaded_slots: u64,
    report: &TracerReport,
) -> (holds: bool)
    requires
        pointer_bytes + loaded_slots * SLOT_BYTES <= u64::MAX,
    ensures
        holds == stable_claim(frame, page_transition, pointer_bytes, loaded_slots, *report),
{
    if frame == 0 {
        return true;
    }
    if report.resource_creations != 0 || report.bind_group_rebuilds != 0 || report.map_recreated {
        return false;
    }
    if page_transition {
        report.projection_replaced && report.brick_upload_bytes == pointer_bytes + loaded_slots
            * SLOT_BYTES
    } else {
        report.brick_upload_bytes == 0
    }
}

} // verus!
