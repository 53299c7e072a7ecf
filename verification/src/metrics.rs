//! The aggregation core: a single consumer that applies a stream of
//! typed messages to the metrics registry and serializes it on
//! demand.
//!
//! The registry owns a gauge family keyed by device identifier and a
//! single monotonically increasing event counter. Only the consumer
//! mutates it; producers hand it immutable messages.

use vstd::prelude::*;

use crate::PowerState;
use crate::exposition::{render_registry, spec_exposition};
use crate::registry::{entries_map, sorted_entries, spec_set, GaugeFamily,
    lemma_spec_set_commutes, lemma_spec_set_idempotent, lemma_spec_set_map,
    lemma_spec_set_sorted};
use crate::watch::WatchError;

verus! {

/// A message from one of the producers: a probed device state, a
/// filesystem-event outcome, or a request to save a snapshot.
#[derive(Debug)]
pub enum MetricMessage {
    DiskStatus { disk: String, status: PowerState },
    NotifyEvent(Result<String, WatchError>),
    SaveFile,
}

/// The fatal error of the aggregation loop: a filesystem-event
/// outcome it cannot account for.
#[derive(Debug)]
pub struct MetricsError {
    pub watch: WatchError,
}

/// The registry state as mathematics: the sorted gauge entries and
/// the event counter.
pub struct RegistryModel {
    pub gauges: Seq<(Seq<char>, u64)>,
    pub counter: u64,
}

impl RegistryModel {
    /// The gauge family as a map from device identifier to value.
    pub open spec fn gauge_map(self) -> Map<Seq<char>, u64> {
        entries_map(self.gauges)
    }

    /// The entries are strictly sorted by device identifier.
    pub open spec fn wf(self) -> bool {
        sorted_entries(self.gauges)
    }
}

/// The counter increment: saturating, so that the counter never
/// decreases even at the numeric limit.
pub open spec fn spec_inc(c: u64) -> u64 {
    if c < u64::MAX {
        (c + 1) as u64
    } else {
        c
    }
}

/// What one message does to the registry. `None` stands for the
/// fatal outcome that stops the loop: a watch error.
///
/// A known device state overwrites that device's gauge; an `Unknown`
/// state is dropped and mutates nothing; a resolved filesystem event
/// increments the counter by one; a snapshot request changes nothing.
pub open spec fn spec_apply(v: RegistryModel, msg: MetricMessage) -> Option<RegistryModel> {
    match msg {
        MetricMessage::DiskStatus { disk, status } => match status.spec_gauge_value() {
            Some(value) => Some(
                RegistryModel { gauges: spec_set(v.gauges, disk@, value), counter: v.counter },
            ),
            None => Some(v),
        },
        MetricMessage::NotifyEvent(outcome) => match outcome {
            Ok(_) => Some(RegistryModel { gauges: v.gauges, counter: spec_inc(v.counter) }),
            Err(_) => None,
        },
        MetricMessage::SaveFile => Some(v),
    }
}

/// The registry state after a sequence of messages, applied in
/// order; `None` when some message along the way is fatal.
pub open spec fn spec_apply_all(v: RegistryModel, msgs: Seq<MetricMessage>) -> Option<
    RegistryModel,
>
    decreases msgs.len(),
{
    if msgs.len() == 0 {
        Some(v)
    } else {
        match spec_apply(v, msgs[0]) {
            Some(v2) => spec_apply_all(v2, msgs.skip(1)),
            None => None,
        }
    }
}

/// The registry state after the longest prefix of `msgs` that
/// applies without a fatal message.
pub open spec fn spec_run_state(v: RegistryModel, msgs: Seq<MetricMessage>) -> RegistryModel
    decreases msgs.len(),
{
    if msgs.len() == 0 {
        v
    } else {
        match spec_apply(v, msgs[0]) {
            Some(v2) => spec_run_state(v2, msgs.skip(1)),
            None => v,
        }
    }
}

/// The snapshot texts produced while applying `msgs`, one per
/// snapshot request reached before any fatal message.
pub open spec fn spec_outputs(v: RegistryModel, msgs: Seq<MetricMessage>) -> Seq<Seq<char>>
    decreases msgs.len(),
{
    if msgs.len() == 0 {
        Seq::empty()
    } else {
        match spec_apply(v, msgs[0]) {
            Some(v2) => (if msgs[0] is SaveFile {
                seq![spec_exposition(v.gauges, v.counter)]
            } else {
                Seq::empty()
            }) + spec_outputs(v2, msgs.skip(1)),
            None => Seq::empty(),
        }
    }
}

/// The first fatal watch error among `msgs`, if the messages before
/// it all apply.
pub open spec fn spec_first_error(v: RegistryModel, msgs: Seq<MetricMessage>) -> Option<
    MetricMessage,
>
    decreases msgs.len(),
{
    if msgs.len() == 0 {
        None
    } else {
        match spec_apply(v, msgs[0]) {
            Some(v2) => spec_first_error(v2, msgs.skip(1)),
            None => Some(msgs[0]),
        }
    }
}

/// The metrics registry and its consumer-side state: the gauge
/// family, the event counter, and the configured destination path of
/// the snapshot file.
///
/// Created once, it lives exactly as long as the aggregation loop
/// and is mutated by nothing else. Gauge entries are created lazily
/// on the first known observation and never removed; the counter
/// never decreases.
pub struct Metrics {
    gauges: GaugeFamily,
    counter: u64,
    textfile: String,
}

impl View for Metrics {
    type V = RegistryModel;

    closed spec fn view(&self) -> RegistryModel {
        RegistryModel { gauges: self.gauges@, counter: self.counter }
    }
}

impl Metrics {
    /// The configured destination path of the snapshot file.
    pub closed spec fn spec_textfile(&self) -> Seq<char> {
        self.textfile@
    }

    /// The registry invariant.
    pub open spec fn wf(&self) -> bool {
        self@.wf()
    }

    /// Creates an empty registry: no gauge entries, counter zero.
    pub fn new(textfile: String) -> (r: Metrics)
        ensures
            r.wf(),
            r@.gauges == Seq::<(Seq<char>, u64)>::empty(),
            r@.counter == 0,
            r.spec_textfile() == textfile@,
    {
        Metrics { gauges: GaugeFamily::new(), counter: 0, textfile }
    }

    /// The destination path for snapshot files, as configured.
    pub fn textfile(&self) -> (r: &String)
        ensures
            r@ == self.spec_textfile(),
    {
        &self.textfile
    }

    /// Serializes the current registry state to the exposition text.
    pub fn serialize(&self) -> (r: String)
        ensures
            r@ == spec_exposition(self@.gauges, self@.counter),
    {
        render_registry(&self.gauges, self.counter)
    }

    /// Applies one message to the registry.
    ///
    /// Returns the snapshot text to be written when the message asks
    /// for one, nothing for an ordinary update, and the fatal error
    /// for a watch-error outcome, which leaves the registry
    /// unchanged.
    pub fn handle_metrics_message(&mut self, msg: MetricMessage) -> (r: Result<
        Option<String>,
        MetricsError,
    >)
        requires
            old(self).wf(),
        ensures
            final(self).wf(),
            final(self).spec_textfile() == old(self).spec_textfile(),
            match spec_apply(old(self)@, msg) {
                Some(v2) => final(self)@ == v2 && r is Ok,
                None => final(self)@ == old(self)@ && r is Err,
            },
            match r {
                Ok(out) => match out {
                    Some(text) => msg is SaveFile && text@ == spec_exposition(
                        old(self)@.gauges,
                        old(self)@.counter,
                    ),
                    None => !(msg is SaveFile),
                },
                Err(e) => msg matches MetricMessage::NotifyEvent(Err(w)) && e.watch == w,
            },
    {
        match msg {
            MetricMessage::DiskStatus { disk, status } => {
                match status.gauge_value() {
                    Some(value) => {
                        self.gauges.set(disk.as_str(), value);
                    },
                    None => {},
                }
                Ok(None)
            },
            MetricMessage::NotifyEvent(outcome) => match outcome {
                Ok(_) => {
                    if self.counter < u64::MAX {
                        self.counter = self.counter + 1;
                    }
                    Ok(None)
                },
                Err(w) => Err(MetricsError { watch: w }),
            },
            MetricMessage::SaveFile => Ok(Some(self.serialize())),
        }
    }

    /// Applies a batch of messages in arrival order.
    ///
    /// Returns the snapshot texts produced along the way, or, on the
    /// first fatal message, the error; the registry then keeps the
    /// state reached just before it. No message after a fatal one is
    /// applied.
    #[verifier::loop_isolation(false)]
    pub fn receive_metrics(&mut self, msgs: Vec<MetricMessage>) -> (r: Result<
        Vec<String>,
        MetricsError,
    >)
        requires
            old(self).wf(),
        ensures
            final(self).wf(),
            final(self).spec_textfile() == old(self).spec_textfile(),
            final(self)@ == spec_run_state(old(self)@, msgs@),
            match r {
                Ok(outs) => spec_apply_all(old(self)@, msgs@) == Some(final(self)@)
                    && outs.deep_view() == spec_outputs(old(self)@, msgs@),
                Err(e) => spec_apply_all(old(self)@, msgs@) is None && Some(
                    MetricMessage::NotifyEvent(Err(e.watch)),
                ) == spec_first_error(old(self)@, msgs@),
            },
    {
        let ghost v0 = self@;
        let ghost all = msgs@;
        let mut outs: Vec<String> = Vec::new();
        let mut queue = msgs;
        let mut idx: usize = 0;
        let len = queue.len();
        proof {
            assert(all.skip(0) =~= all);
        }
        while idx < len
            invariant
                idx <= len,
                len == all.len(),
                queue@ == all.skip(idx as int),
                self.wf(),
                self.spec_textfile() == old(self).spec_textfile(),
                spec_apply_all(v0, all.take(idx as int)) == Some(self@),
                outs.deep_view() == spec_outputs(v0, all.take(idx as int)),
                spec_apply_all(v0, all) == spec_apply_all(self@, all.skip(idx as int)),
                spec_run_state(v0, all) == spec_run_state(self@, all.skip(idx as int)),
                spec_outputs(v0, all) == spec_outputs(v0, all.take(idx as int)) + spec_outputs(
                    self@,
                    all.skip(idx as int),
                ),
                spec_first_error(v0, all) == spec_first_error(self@, all.skip(idx as int)),
            decreases len - idx,
        {
            let ghost pre = self@;
            let ghost rest = all.skip(idx as int);
            let msg = queue.remove(0);
            proof {
                assert(rest[0] == all[idx as int]);
                assert(msg == rest[0]);
                assert(queue@ =~= all.skip(idx + 1));
            }
            let step = self.handle_metrics_message(msg);
            proof {
                assert(rest.skip(1) =~= all.skip(idx + 1));
                assert(all.take(idx + 1).drop_last() =~= all.take(idx as int));
                assert(all.take(idx + 1).last() == all[idx as int]);
                lemma_take_one_more(v0, all, idx as int);
            }
            match step {
                Ok(out) => {
                    match out {
                        Some(text) => {
                            outs.push(text);
                        },
                        None => {},
                    }
                    proof {
                        assert(outs.deep_view() =~= spec_outputs(v0, all.take(idx + 1)));
                    }
                },
                Err(e) => {
                    proof {
                        assert(spec_apply_all(pre, rest) is None);
                        assert(spec_run_state(pre, rest) == pre);
                        assert(spec_first_error(pre, rest) == Some(rest[0]));
                    }
                    return Err(e);
                },
            }
            idx = idx + 1;
        }
        proof {
            assert(all.take(len as int) =~= all);
            assert(all.skip(len as int) =~= Seq::<MetricMessage>::empty());
        }
        Ok(outs)
    }
}

/// A non-fatal message keeps the registry well formed.
pub proof fn lemma_apply_wf(v: RegistryModel, msg: MetricMessage)
    requires
        v.wf(),
        spec_apply(v, msg) is Some,
    ensures
        spec_apply(v, msg)->0.wf(),
{
    match msg {
        MetricMessage::DiskStatus { disk, status } => match status.spec_gauge_value() {
            Some(value) => {
                lemma_spec_set_sorted(v.gauges, disk@, value);
            },
            None => {},
        },
        _ => {},
    }
}

/// An `Unknown` probe result never mutates the registry: a device
/// that received a known state earlier keeps that state unchanged.
pub proof fn lemma_unknown_preserves_prior(
    v: RegistryModel,
    disk: String,
    status: PowerState,
)
    requires
        v.wf(),
        status.is_known(),
    ensures
        ({
            let after_known = spec_apply(
                v,
                MetricMessage::DiskStatus { disk, status },
            )->0;
            let after_unknown = spec_apply(
                after_known,
                MetricMessage::DiskStatus { disk, status: PowerState::Unknown },
            );
            &&& after_unknown == Some(after_known)
            &&& after_known.gauge_map().contains_key(disk@)
            &&& after_known.gauge_map()[disk@] == status.spec_gauge_value()->0
        }),
{
    let value = status.spec_gauge_value()->0;
    lemma_spec_set_map(v.gauges, disk@, value);
    assert(entries_map(spec_set(v.gauges, disk@, value)) == entries_map(v.gauges).insert(
        disk@,
        value,
    ));
}

/// Idempotence: applying the same device-status update any number of
/// times `n >= 1` ends in the same registry state as applying it
/// once.
pub proof fn lemma_update_idempotent(v: RegistryModel, disk: String, status: PowerState, n: nat)
    requires
        v.wf(),
        n >= 1,
    ensures
        spec_apply_all(
            v,
            Seq::new(n, |i: int| MetricMessage::DiskStatus { disk, status }),
        ) == spec_apply(v, MetricMessage::DiskStatus { disk, status }),
    decreases n,
{
    let m = MetricMessage::DiskStatus { disk, status };
    let msgs = Seq::new(n, |i: int| m);
    assert(msgs[0] == m);
    let v1 = spec_apply(v, m)->0;
    lemma_apply_wf(v, m);
    if n == 1 {
        assert(msgs.skip(1) =~= Seq::<MetricMessage>::empty());
        assert(spec_apply_all(v1, Seq::<MetricMessage>::empty()) == Some(v1));
    } else {
        lemma_update_idempotent(v1, disk, status, (n - 1) as nat);
        assert(msgs.skip(1) =~= Seq::new((n - 1) as nat, |i: int| m));
        assert(spec_apply(v1, m) == Some(v1)) by {
            match status.spec_gauge_value() {
                Some(value) => {
                    lemma_spec_set_idempotent(v.gauges, disk@, value);
                    assert(v1.gauges == spec_set(v.gauges, disk@, value));
                },
                None => {},
            }
        }
    }
}

/// Updates for two distinct devices commute: applying them in either
/// order ends in the same registry state, and therefore in
/// byte-identical serialized output.
pub proof fn lemma_update_order_immaterial(
    v: RegistryModel,
    d1: String,
    st1: PowerState,
    d2: String,
    st2: PowerState,
)
    requires
        v.wf(),
        d1@ != d2@,
        st1.is_known(),
        st2.is_known(),
    ensures
        ({
            let m1 = MetricMessage::DiskStatus { disk: d1, status: st1 };
            let m2 = MetricMessage::DiskStatus { disk: d2, status: st2 };
            let a = spec_apply(spec_apply(v, m1)->0, m2)->0;
            let b = spec_apply(spec_apply(v, m2)->0, m1)->0;
            &&& a == b
            &&& spec_exposition(a.gauges, a.counter) == spec_exposition(b.gauges, b.counter)
        }),
{
    let val1 = st1.spec_gauge_value()->0;
    let val2 = st2.spec_gauge_value()->0;
    lemma_spec_set_commutes(v.gauges, d1@, val1, d2@, val2);
}

/// True of the messages that the interleaving law ranges over:
/// device-status updates and successfully resolved filesystem
/// events.
pub open spec fn is_update_or_event(m: MetricMessage) -> bool {
    match m {
        MetricMessage::DiskStatus { .. } => true,
        MetricMessage::NotifyEvent(outcome) => outcome is Ok,
        MetricMessage::SaveFile => false,
    }
}

/// The number of resolved filesystem events in a message sequence.
pub open spec fn count_events(msgs: Seq<MetricMessage>) -> nat
    decreases msgs.len(),
{
    if msgs.len() == 0 {
        0
    } else {
        (match msgs[0] {
            MetricMessage::NotifyEvent(outcome) => if outcome is Ok {
                1 as nat
            } else {
                0 as nat
            },
            _ => 0 as nat,
        }) + count_events(msgs.skip(1))
    }
}

/// The value of the last known-state update for device `d` in
/// `msgs`, if there is one.
pub open spec fn last_update(msgs: Seq<MetricMessage>, d: Seq<char>) -> Option<u64>
    decreases msgs.len(),
{
    if msgs.len() == 0 {
        None
    } else {
        match last_update(msgs.skip(1), d) {
            Some(value) => Some(value),
            None => match msgs[0] {
                MetricMessage::DiskStatus { disk, status } => if disk@ == d
                    && status.spec_gauge_value() is Some {
                    Some(status.spec_gauge_value()->0)
                } else {
                    None
                },
                _ => None,
            },
        }
    }
}

/// Commutativity of interleaving: for any interleaving of resolved
/// filesystem events and device-status updates, none of them fatal,
/// the final counter grows by exactly the number of events, and each
/// device's gauge ends at its most recent update in the sequence, or
/// keeps its prior value if the sequence never updates it.
pub proof fn lemma_interleaving(v: RegistryModel, msgs: Seq<MetricMessage>)
    requires
        v.wf(),
        forall|i: int| 0 <= i < msgs.len() ==> is_update_or_event(#[trigger] msgs[i]),
        v.counter + count_events(msgs) <= u64::MAX,
    ensures
        spec_apply_all(v, msgs) is Some,
        ({
            let v2 = spec_apply_all(v, msgs)->0;
            &&& v2.wf()
            &&& v2.counter == v.counter + count_events(msgs)
            &&& forall|d: Seq<char>|
                match #[trigger] last_update(msgs, d) {
                    Some(value) => v2.gauge_map().contains_key(d) && v2.gauge_map()[d] == value,
                    None => v2.gauge_map().contains_key(d) == v.gauge_map().contains_key(d) && (
                    v.gauge_map().contains_key(d) ==> v2.gauge_map()[d] == v.gauge_map()[d]),
                }
        }),
    decreases msgs.len(),
{
    if msgs.len() == 0 {
        assert(spec_apply_all(v, msgs) == Some(v));
    } else {
        let m = msgs[0];
        assert(is_update_or_event(m));
        let v1 = spec_apply(v, m)->0;
        lemma_apply_wf(v, m);
        assert(v.counter + count_events(msgs.skip(1)) <= u64::MAX) by {
            assert(count_events(msgs.skip(1)) <= count_events(msgs));
        }
        assert(v1.counter + count_events(msgs.skip(1)) <= u64::MAX);
        lemma_interleaving(v1, msgs.skip(1));
        let v2 = spec_apply_all(v, msgs)->0;
        assert(v2 == spec_apply_all(v1, msgs.skip(1))->0);
        assert(v2.counter == v1.counter + count_events(msgs.skip(1)));
        match m {
            MetricMessage::NotifyEvent(outcome) => {
                assert(v1.counter == v.counter + 1);
                assert(v1.gauges == v.gauges);
                assert forall|d: Seq<char>| true implies match #[trigger] last_update(msgs, d) {
                    Some(value) => v2.gauge_map().contains_key(d) && v2.gauge_map()[d] == value,
                    None => v2.gauge_map().contains_key(d) == v.gauge_map().contains_key(d) && (
                    v.gauge_map().contains_key(d) ==> v2.gauge_map()[d] == v.gauge_map()[d]),
                } by {
                    assert(last_update(msgs, d) == last_update(msgs.skip(1), d));
                    assert(v1.gauge_map() == v.gauge_map());
                }
            },
            MetricMessage::DiskStatus { disk, status } => {
                assert(v1.counter == v.counter);
                assert forall|d: Seq<char>| true implies match #[trigger] last_update(msgs, d) {
                    Some(value) => v2.gauge_map().contains_key(d) && v2.gauge_map()[d] == value,
                    None => v2.gauge_map().contains_key(d) == v.gauge_map().contains_key(d) && (
                    v.gauge_map().contains_key(d) ==> v2.gauge_map()[d] == v.gauge_map()[d]),
                } by {
                    match last_update(msgs.skip(1), d) {
                        Some(value) => {
                            assert(last_update(msgs, d) == Some(value));
                        },
                        None => {
                            match status.spec_gauge_value() {
                                Some(value) => {
                                    lemma_spec_set_map(v.gauges, disk@, value);
                                    assert(v1.gauges == spec_set(v.gauges, disk@, value));
                                    assert(v1.gauge_map() == v.gauge_map().insert(
                                        disk@,
                                        value,
                                    ));
                                    if disk@ == d {
                                        assert(last_update(msgs, d) == Some(value));
                                        assert(v1.gauge_map().contains_key(d));
                                        assert(v1.gauge_map()[d] == value);
                                    } else {
                                        assert(last_update(msgs, d) is None);
                                        assert(v1.gauge_map().contains_key(d)
                                            == v.gauge_map().contains_key(d));
                                        assert(v.gauge_map().contains_key(d)
                                            ==> v1.gauge_map()[d] == v.gauge_map()[d]);
                                    }
                                },
                                None => {
                                    assert(v1 == v);
                                    assert(last_update(msgs, d) is None);
                                },
                            }
                        },
                    }
                }
            },
            MetricMessage::SaveFile => {},
        }
    }
}

/// Relates a run over one more message to the run over the prefix:

/// Relates a run over one more message to the run over the prefix:
/// used to push the loop invariant of the consumer forward.
proof fn lemma_take_one_more(v0: RegistryModel, all: Seq<MetricMessage>, idx: int)
    requires
        0 <= idx < all.len(),
    ensures
        ({
            let pre = spec_apply_all(v0, all.take(idx));
            pre is Some ==> {
                &&& spec_apply_all(v0, all.take(idx + 1)) == (match spec_apply(
                    pre->0,
                    all[idx],
                ) {
                    Some(v2) => Some(v2),
                    None => None::<RegistryModel>,
                })
                &&& spec_outputs(v0, all.take(idx + 1)) == spec_outputs(v0, all.take(idx)) + (
                if spec_apply(pre->0, all[idx]) is Some && all[idx] is SaveFile {
                    seq![spec_exposition(pre->0.gauges, pre->0.counter)]
                } else {
                    Seq::<Seq<char>>::empty()
                })
            }
        }),
    decreases idx,
{
    if idx == 0 {
        assert(all.take(0) =~= Seq::<MetricMessage>::empty());
        assert(all.take(1) =~= seq![all[0]]);
        assert(all.take(1)[0] == all[0]);
        assert(all.take(1).skip(1) =~= Seq::<MetricMessage>::empty());
        assert(seq![all[0]].skip(1) =~= Seq::<MetricMessage>::empty());
        let x = if spec_apply(v0, all[0]) is Some && all[0] is SaveFile {
            seq![spec_exposition(v0.gauges, v0.counter)]
        } else {
            Seq::<Seq<char>>::empty()
        };
        match spec_apply(v0, all[0]) {
            Some(v2) => {
                assert(spec_apply_all(v2, Seq::<MetricMessage>::empty()) == Some(v2));
                assert(spec_outputs(v2, Seq::<MetricMessage>::empty())
                    == Seq::<Seq<char>>::empty());
                assert(spec_apply_all(v0, all.take(1)) == Some(v2));
                assert(spec_outputs(v0, all.take(1)) == x + spec_outputs(
                    v2,
                    all.take(1).skip(1),
                ));
                assert(x + Seq::<Seq<char>>::empty() =~= Seq::<Seq<char>>::empty() + x);
                assert(spec_outputs(v0, all.take(0)) == Seq::<Seq<char>>::empty());
            },
            None => {
                assert(spec_apply_all(v0, all.take(1)) is None);
                assert(spec_outputs(v0, all.take(1)) == Seq::<Seq<char>>::empty());
                assert(Seq::<Seq<char>>::empty() + Seq::<Seq<char>>::empty()
                    =~= Seq::<Seq<char>>::empty());
            },
        }
        let pre0 = spec_apply_all(v0, all.take(0));
        assert(pre0 == Some(v0));
        assert(spec_apply_all(v0, all.take(1)) == (match spec_apply(v0, all[0]) {
            Some(v2) => Some(v2),
            None => None::<RegistryModel>,
        }));
        assert(spec_outputs(v0, all.take(1)) == spec_outputs(v0, all.take(0)) + (
        if spec_apply(v0, all[0]) is Some && all[0] is SaveFile {
            seq![spec_exposition(v0.gauges, v0.counter)]
        } else {
            Seq::<Seq<char>>::empty()
        }));
    } else {
        let t1 = all.take(idx + 1);
        let t0 = all.take(idx);
        assert(t0[0] == all[0]);
        assert(t1[0] == all[0]);
        match spec_apply(v0, all[0]) {
            Some(v2) => {
                lemma_take_one_more(v2, all.skip(1), idx - 1);
                assert(all.skip(1).take(idx - 1) =~= t0.skip(1));
                assert(all.skip(1).take(idx) =~= t1.skip(1));
                assert(all.skip(1)[idx - 1] == all[idx]);
                let pre = spec_apply_all(v0, t0);
                if pre is Some {
                    let head = if all[0] is SaveFile {
                        seq![spec_exposition(v0.gauges, v0.counter)]
                    } else {
                        Seq::<Seq<char>>::empty()
                    };
                    let x = if spec_apply(pre->0, all[idx]) is Some && all[idx] is SaveFile {
                        seq![spec_exposition(pre->0.gauges, pre->0.counter)]
                    } else {
                        Seq::<Seq<char>>::empty()
                    };
                    assert(spec_outputs(v0, t1) == head + spec_outputs(v2, t1.skip(1)));
                    assert(spec_outputs(v2, t1.skip(1)) == spec_outputs(v2, t0.skip(1)) + x);
                    assert(head + (spec_outputs(v2, t0.skip(1)) + x) =~= (head + spec_outputs(
                        v2,
                        t0.skip(1),
                    )) + x);
                    assert(spec_outputs(v0, t0) == head + spec_outputs(v2, t0.skip(1)));
                }
            },
            None => {},
        }
    }
}

} // verus!
