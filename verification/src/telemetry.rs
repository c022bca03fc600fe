//! Telemetry frames, the pipe that hands them over, and how readings of the
//! sensors become frames.

use std::sync::Arc;

use parking_lot::Mutex;
use triple_buffer::{Input, Output, TripleBuffer};
use vstd::prelude::*;

use crate::float::Single;
use crate::value::{clamped, greater_of, product, quotient, sum, whole, Format, Value};

verus! {

/// What the monitor shows: the shared contract between the worker that measures
/// and the views that draw.
#[derive(Clone, Copy, Debug)]
pub struct TelemetryFrame {
    /// Processor load in percent.
    pub cpu_total: Single,
    /// The last 60 processor loads, the newest at the end.
    pub cpu_history: [Single; 60],
    /// The last 60 network activities in percent, the newest at the end.
    pub net_activity_history: [Single; 60],
    pub mem_used_mb: u64,
    pub mem_total_mb: u64,
    pub net_in_bytes_sec: u64,
    pub net_out_bytes_sec: u64,
    pub temp_celsius: Single,
}

/// The bit pattern of zero.
pub open spec fn zero_bits() -> Single {
    Single { bits: 0 }
}

/// A history in which nothing was measured yet.
pub open spec fn blank_history() -> Seq<Single> {
    Seq::new(60, |i: int| zero_bits())
}

impl TelemetryFrame {
    /// Whether nothing was measured yet: every field is zero.
    pub open spec fn is_blank(self) -> bool {
        &&& self.cpu_total == zero_bits()
        &&& self.cpu_history@ == blank_history()
        &&& self.net_activity_history@ == blank_history()
        &&& self.mem_used_mb == 0
        &&& self.mem_total_mb == 0
        &&& self.net_in_bytes_sec == 0
        &&& self.net_out_bytes_sec == 0
        &&& self.temp_celsius == zero_bits()
    }
}

impl Default for TelemetryFrame {
    fn default() -> (frame: Self)
        ensures
            frame.is_blank(),
    {
        let zero = Single { bits: 0 };
        let history = [zero; 60];
        assert(history@ =~= blank_history());
        TelemetryFrame {
            cpu_total: zero,
            cpu_history: history,
            net_activity_history: history,
            mem_used_mb: 0,
            mem_total_mb: 0,
            net_in_bytes_sec: 0,
            net_out_bytes_sec: 0,
            temp_celsius: zero,
        }
    }
}

/// `triple_buffer::Input`, the writing end of a triple buffer.
#[verifier::external_type_specification]
#[verifier::external_body]
#[verifier::reject_recursive_types(T)]
pub struct ExInput<T: Send>(triple_buffer::Input<T>);

/// `triple_buffer::Output`, the reading end of a triple buffer.
#[verifier::external_type_specification]
#[verifier::external_body]
#[verifier::reject_recursive_types(T)]
pub struct ExOutput<T: Send>(triple_buffer::Output<T>);

/// `parking_lot::Mutex`, a lock around a value, whose home is the crate
/// `lock_api`.
#[verifier::external_type_specification]
#[verifier::external_body]
#[verifier::reject_recursive_types(R)]
#[verifier::reject_recursive_types(T)]
pub struct ExMutex<R, T: ?Sized>(parking_lot::lock_api::Mutex<R, T>);

/// `parking_lot::RawMutex`, which locks without holding a value.
#[verifier::external_type_specification]
#[verifier::external_body]
pub struct ExRawMutex(parking_lot::RawMutex);

/// The frames that a writing end has published: first the one that its buffer was
/// made with, then those written through the end, in order.
pub uninterp spec fn published(input: Input<TelemetryFrame>) -> Seq<TelemetryFrame>;

/// Which triple buffer a writing end belongs to.
pub uninterp spec fn input_buffer(input: Input<TelemetryFrame>) -> int;

/// Which triple buffer a reading end belongs to.
pub uninterp spec fn output_buffer(output: Output<TelemetryFrame>) -> int;

/// Which triple buffer the reading end behind a lock belongs to.
pub uninterp spec fn locked_buffer(consumer: Mutex<Output<TelemetryFrame>>) -> int;

/// The frames that reads through a lock give, over the whole run of the program.
pub uninterp spec fn delivered(consumer: Mutex<Output<TelemetryFrame>>) -> Set<TelemetryFrame>;

/// `TripleBuffer::new`, then `TripleBuffer::split`. The two ends belong to one
/// buffer, and all that the writing end has published is the initial frame.
#[verifier::external_body]
fn open_buffer(initial: TelemetryFrame) -> (ends: (Input<TelemetryFrame>, Output<TelemetryFrame>))
    ensures
        published(ends.0) == seq![initial],
        input_buffer(ends.0) == output_buffer(ends.1),
{
    TripleBuffer::new(initial).split()
}

/// `Input::write`. The frame is published after all earlier ones, and the end
/// stays with its buffer.
#[verifier::external_body]
fn write_frame(input: &mut Input<TelemetryFrame>, frame: TelemetryFrame)
    ensures
        published(*final(input)) == published(*old(input)).push(frame),
        input_buffer(*final(input)) == input_buffer(*old(input)),
{
    input.write(frame)
}

/// `Mutex::new` of `parking_lot`. The reading end behind the lock is the one that
/// was handed in.
#[verifier::external_body]
fn lock_around(output: Output<TelemetryFrame>) -> (consumer: Mutex<Output<TelemetryFrame>>)
    ensures
        locked_buffer(consumer) == output_buffer(output),
{
    Mutex::new(output)
}

/// `Mutex::lock` of `parking_lot`, then `Output::read`, and the frame copied out
/// from under the lock. Whoever shows the writing end of the same buffer keeps it
/// from being written to for the time of the call, so the frame is then the one
/// that was written last. Without the writing end the frame depends on how far
/// the producer has come, and nothing is said of it but that it is one of the
/// frames read through this lock.
///
/// The lock is given back before the function returns, so that a caller never
/// waits for itself. No function here but this one uses the reading end; code
/// that changed the frame in its buffer in place, or put another reading end
/// behind the lock, would break what is said.
#[verifier::external_body]
fn read_frame(
    consumer: &Mutex<Output<TelemetryFrame>>,
    _producer: Option<&Input<TelemetryFrame>>,
) -> (frame: TelemetryFrame)
    ensures
        delivered(*consumer).contains(frame),
        _producer matches Some(input) ==> input_buffer(*input) == locked_buffer(*consumer) ==> frame
            == published(*input).last(),
{
    *consumer.lock().read()
}

/// The producer's side of the pipe.
pub struct TelemetryPipe {
    producer: Input<TelemetryFrame>,
}

impl TelemetryPipe {
    /// The frames that were handed over, the initial one first.
    pub closed spec fn frames(&self) -> Seq<TelemetryFrame> {
        published(self.producer)
    }

    /// Whether `consumer` is the other side of this pipe.
    pub closed spec fn feeds(&self, consumer: Arc<Mutex<Output<TelemetryFrame>>>) -> bool {
        input_buffer(self.producer) == locked_buffer(*consumer)
    }

    /// A pipe that holds a blank frame, and its consumer's side.
    pub fn new() -> (ends: (TelemetryPipe, Arc<Mutex<Output<TelemetryFrame>>>))
        ensures
            ends.0.feeds(ends.1),
            ends.0.frames().len() == 1,
            ends.0.frames()[0].is_blank(),
    {
        let (input, output) = open_buffer(TelemetryFrame::default());
        (TelemetryPipe { producer: input }, Arc::new(lock_around(output)))
    }

    /// Hands `frame` over.
    pub fn push(&mut self, frame: TelemetryFrame)
        ensures
            final(self).frames() == old(self).frames().push(frame),
            forall|consumer: Arc<Mutex<Output<TelemetryFrame>>>|
                final(self).feeds(consumer) == old(self).feeds(consumer),
    {
        write_frame(&mut self.producer, frame);
    }
}

/// Reads the newest frame. A caller that holds the producer's side, so that
/// nothing is pushed meanwhile, knows which one that is.
pub fn latest_frame(
    consumer: &Arc<Mutex<Output<TelemetryFrame>>>,
    pipe: Option<&TelemetryPipe>,
) -> (frame: TelemetryFrame)
    ensures
        delivered(**consumer).contains(frame),
        pipe matches Some(p) ==> p.feeds(*consumer) ==> frame == p.frames().last(),
{
    match pipe {
        Some(p) => read_frame(consumer, Some(&p.producer)),
        None => read_frame(consumer, None),
    }
}

/// A history after one more measurement: the oldest value leaves.
pub open spec fn advanced(history: Seq<Single>, value: Single) -> Seq<Single> {
    history.drop_first().push(value)
}

/// Drops the oldest value of a history and appends a new one.
fn advance(history: &mut [Single; 60], value: Single)
    ensures
        final(history)@ == advanced(old(history)@, value),
{
    let ghost before = history@;
    let mut i: usize = 0;
    while i < 59
        invariant
            i <= 59,
            before.len() == 60,
            history@.len() == 60,
            forall|j: int| 0 <= j < i ==> history@[j] == before[j + 1],
            forall|j: int| i <= j < 60 ==> history@[j] == before[j],
        decreases 59 - i,
    {
        history[i] = history[i + 1];
        i = i + 1;
    }
    history[59] = value;
    assert(history@ =~= advanced(before, value));
}

/// The time between two refreshes, in milliseconds.
pub const REFRESH_MILLIS: u64 = 1000;

/// The bytes in a mebibyte.
pub const MEBIBYTE: u64 = 1_048_576;

/// Whether a frame holds what a single look at the system shows, and nothing else.
pub open spec fn sampled(
    frame: TelemetryFrame,
    cpu_usage: Single,
    used_memory: u64,
    total_memory: u64,
) -> bool {
    &&& frame.cpu_total == cpu_usage
    &&& frame.mem_used_mb == used_memory / MEBIBYTE
    &&& frame.mem_total_mb == total_memory / MEBIBYTE
    &&& (TelemetryFrame {
        cpu_total: zero_bits(),
        mem_used_mb: 0,
        mem_total_mb: 0,
        ..frame
    }).is_blank()
}

/// A frame with what a single look at the system shows: no histories, no network
/// traffic and no temperature.
pub fn sample_frame(cpu_usage: Single, used_memory: u64, total_memory: u64) -> (frame:
    TelemetryFrame)
    ensures
        frame.cpu_total == cpu_usage,
        frame.mem_used_mb == used_memory / MEBIBYTE,
        frame.mem_total_mb == total_memory / MEBIBYTE,
        (TelemetryFrame {
            cpu_total: zero_bits(),
            mem_used_mb: 0,
            mem_total_mb: 0,
            ..frame
        }).is_blank(),
        sampled(frame, cpu_usage, used_memory, total_memory),
{
    let mut frame = TelemetryFrame::default();
    frame.cpu_total = cpu_usage;
    frame.mem_used_mb = used_memory / MEBIBYTE;
    frame.mem_total_mb = total_memory / MEBIBYTE;
    frame
}

/// The total of byte counts.
pub open spec fn total_of(counts: Seq<u64>) -> nat
    decreases counts.len(),
{
    if counts.len() == 0 {
        0
    } else {
        total_of(counts.drop_last()) + counts.last() as nat
    }
}

/// Adds up the byte counts of all interfaces; `None` where the total takes more
/// than 64 bits.
pub fn total_bytes(counts: &Vec<u64>) -> (total: Option<u64>)
    ensures
        match total {
            Some(n) => n == total_of(counts@),
            None => total_of(counts@) > u64::MAX,
        },
{
    let mut total: u64 = 0;
    let mut i: usize = 0;
    while i < counts.len()
        invariant
            i <= counts.len(),
            total == total_of(counts@.take(i as int)),
        decreases counts.len() - i,
    {
        assert(counts@.take(i + 1).drop_last() =~= counts@.take(i as int));
        match total.checked_add(counts[i]) {
            Some(n) => {
                total = n;
            },
            None => {
                proof {
                    lemma_total_grows(counts@, i + 1);
                }
                return None;
            },
        }
        i = i + 1;
    }
    assert(counts@.take(i as int) =~= counts@);
    Some(total)
}

/// The total of the first counts is at most the total of all.
proof fn lemma_total_grows(counts: Seq<u64>, i: int)
    requires
        0 <= i <= counts.len(),
    ensures
        total_of(counts.take(i)) <= total_of(counts),
    decreases counts.len(),
{
    if i == counts.len() {
        assert(counts.take(i) =~= counts);
    } else {
        lemma_total_grows(counts.drop_last(), i);
        assert(counts.drop_last().take(i) =~= counts.take(i));
    }
}

/// The bytes that went in and out since the last refresh.
#[derive(Clone, Copy, Debug)]
pub struct Traffic {
    pub received: u64,
    pub transmitted: u64,
}

impl Traffic {
    /// The bytes of both directions, at most what 64 bits hold.
    pub open spec fn combined_bytes(self) -> u64 {
        if self.received + self.transmitted > u64::MAX {
            u64::MAX
        } else {
            (self.received + self.transmitted) as u64
        }
    }

    /// Adds both directions up.
    pub fn combined(&self) -> (bytes: u64)
        ensures
            bytes == self.combined_bytes(),
    {
        self.received.saturating_add(self.transmitted)
    }
}

/// Whether traffic is what all interfaces measured together; there is none where a
/// total takes more than 64 bits.
pub open spec fn measured(
    traffic: Option<Traffic>,
    received: Seq<u64>,
    transmitted: Seq<u64>,
) -> bool {
    match traffic {
        Some(t) => t.received == total_of(received) && t.transmitted == total_of(transmitted),
        None => total_of(received) > u64::MAX || total_of(transmitted) > u64::MAX,
    }
}

/// Adds up what every interface received and transmitted; `None` where one of
/// the totals takes more than 64 bits.
pub fn measure_traffic(received: &Vec<u64>, transmitted: &Vec<u64>) -> (traffic: Option<Traffic>)
    ensures
        match traffic {
            Some(t) => t.received == total_of(received@) && t.transmitted == total_of(
                transmitted@,
            ),
            None => total_of(received@) > u64::MAX || total_of(transmitted@) > u64::MAX,
        },
        measured(traffic, received@, transmitted@),
{
    match (total_bytes(received), total_bytes(transmitted)) {
        (Some(received), Some(transmitted)) => Some(Traffic { received, transmitted }),
        _ => None,
    }
}

/// The number whose decimal logarithm measures the activity of
/// `bytes_per_sec`: one more than the bytes.
pub open spec fn activity_argument(bytes_per_sec: u64) -> Value {
    sum(
        Format::Single,
        whole(Format::Single, bytes_per_sec as nat),
        whole(Format::Single, 1),
    )
}

/// Adds one to the bytes.
pub fn network_activity_argument(bytes_per_sec: u64) -> (argument: Single)
    ensures
        argument@ == activity_argument(bytes_per_sec),
{
    Single::from_whole(bytes_per_sec).plus(Single::from_whole(1))
}

/// The activity in percent: the logarithm in sevenths, kept within 0 to 100.
pub open spec fn activity_percent(bytes_per_sec: u64, log: Value) -> Value {
    if bytes_per_sec == 0 {
        whole(Format::Single, 0)
    } else {
        clamped(
            Format::Single,
            product(
                Format::Single,
                quotient(Format::Single, log, whole(Format::Single, 7)),
                whole(Format::Single, 100),
            ),
            whole(Format::Single, 0),
            whole(Format::Single, 100),
        )
    }
}

/// The network activity in percent of `bytes_per_sec`, where `log` is the
/// decimal logarithm of `network_activity_argument(bytes_per_sec)`. Ten million
/// bytes are 100 percent; no traffic is 0 percent whatever `log` is.
pub fn network_activity_percent(bytes_per_sec: u64, log: Single) -> (percent: Single)
    ensures
        percent@ == activity_percent(bytes_per_sec, log@),
{
    let zero = Single::from_whole(0);
    if bytes_per_sec == 0 {
        return zero;
    }
    let hundred = Single::from_whole(100);
    log.over(Single::from_whole(7)).times(hundred).clamp(zero, hundred)
}

/// The highest of the finite temperatures, where there is one.
pub open spec fn highest_finite(temperatures: Seq<Single>) -> Option<Value>
    decreases temperatures.len(),
{
    if temperatures.len() == 0 {
        None
    } else {
        let before = highest_finite(temperatures.drop_last());
        let last = temperatures.last()@;
        if last is Finite {
            match before {
                Some(highest) => Some(greater_of(Format::Single, highest, last)),
                None => Some(last),
            }
        } else {
            before
        }
    }
}

/// The highest of the finite temperatures; zero where none is finite.
pub open spec fn hottest(temperatures: Seq<Single>) -> Value {
    match highest_finite(temperatures) {
        Some(highest) => highest,
        None => whole(Format::Single, 0),
    }
}

/// The highest finite temperature that the components report, which may be below
/// zero; zero where none reports a finite one.
pub fn max_component_temperature(temperatures: &Vec<Single>) -> (highest: Single)
    ensures
        highest@ == hottest(temperatures@),
{
    let mut highest: Option<Single> = None;
    let mut i: usize = 0;
    while i < temperatures.len()
        invariant
            i <= temperatures.len(),
            highest_finite(temperatures@.take(i as int)) == match highest {
                Some(h) => Some(h@),
                None => None,
            },
        decreases temperatures.len() - i,
    {
        assert(temperatures@.take(i + 1).drop_last() =~= temperatures@.take(i as int));
        let temperature = temperatures[i];
        if temperature.is_finite() {
            highest = match highest {
                Some(h) => Some(h.max(temperature)),
                None => Some(temperature),
            };
        }
        i = i + 1;
    }
    assert(temperatures@.take(i as int) =~= temperatures@);
    match highest {
        Some(h) => h,
        None => Single::from_whole(0),
    }
}

/// What the sensors report at one refresh.
#[derive(Debug)]
pub struct Reading {
    pub cpu_usage: Single,
    pub used_memory: u64,
    pub total_memory: u64,
    pub traffic: Traffic,
    pub temperatures: Vec<Single>,
}

/// The state of the telemetry worker between two refreshes.
#[derive(Debug)]
pub struct TelemetryWorker {
    cpu_history: [Single; 60],
    net_activity_history: [Single; 60],
}

impl TelemetryWorker {
    /// The last 60 processor loads.
    pub closed spec fn cpu_loads(&self) -> Seq<Single> {
        self.cpu_history@
    }

    /// The last 60 network activities.
    pub closed spec fn activities(&self) -> Seq<Single> {
        self.net_activity_history@
    }

    /// Whether the worker went from `self` to `after` by a reading and made `frame`
    /// from it.
    pub open spec fn records(
        self,
        reading: Reading,
        log: Single,
        after: TelemetryWorker,
        frame: TelemetryFrame,
    ) -> bool {
        &&& after.cpu_loads() == advanced(self.cpu_loads(), reading.cpu_usage)
        &&& after.activities() == advanced(self.activities(), after.activities().last())
        &&& after.activities().last()@ == activity_percent(reading.traffic.combined_bytes(), log@)
        &&& frame.cpu_total == reading.cpu_usage
        &&& frame.cpu_history@ == after.cpu_loads()
        &&& frame.net_activity_history@ == after.activities()
        &&& frame.mem_used_mb == reading.used_memory / MEBIBYTE
        &&& frame.mem_total_mb == reading.total_memory / MEBIBYTE
        &&& frame.net_in_bytes_sec == reading.traffic.received
        &&& frame.net_out_bytes_sec == reading.traffic.transmitted
        &&& frame.temp_celsius@ == hottest(reading.temperatures@)
    }

    /// A worker that has measured nothing yet.
    pub fn new() -> (worker: Self)
        ensures
            worker.cpu_loads() == blank_history(),
            worker.activities() == blank_history(),
    {
        let history = [Single { bits: 0 }; 60];
        assert(history@ =~= blank_history());
        TelemetryWorker { cpu_history: history, net_activity_history: history }
    }

    /// Takes a reading in and makes the frame to hand over. `log` is the decimal
    /// logarithm of the combined traffic's `network_activity_argument`.
    pub fn record(&mut self, reading: &Reading, log: Single) -> (frame: TelemetryFrame)
        ensures
            final(self).cpu_loads() == advanced(old(self).cpu_loads(), reading.cpu_usage),
            final(self).activities() == advanced(
                old(self).activities(),
                final(self).activities().last(),
            ),
            final(self).activities().last()@ == activity_percent(
                reading.traffic.combined_bytes(),
                log@,
            ),
            frame.cpu_total == reading.cpu_usage,
            frame.cpu_history@ == final(self).cpu_loads(),
            frame.net_activity_history@ == final(self).activities(),
            frame.mem_used_mb == reading.used_memory / MEBIBYTE,
            frame.mem_total_mb == reading.total_memory / MEBIBYTE,
            frame.net_in_bytes_sec == reading.traffic.received,
            frame.net_out_bytes_sec == reading.traffic.transmitted,
            frame.temp_celsius@ == hottest(reading.temperatures@),
            old(self).records(*reading, log, *final(self), frame),
    {
        let percent = network_activity_percent(reading.traffic.combined(), log);
        advance(&mut self.cpu_history, reading.cpu_usage);
        advance(&mut self.net_activity_history, percent);
        TelemetryFrame {
            cpu_total: self.cpu_history[59],
            cpu_history: self.cpu_history,
            net_activity_history: self.net_activity_history,
            mem_used_mb: reading.used_memory / MEBIBYTE,
            mem_total_mb: reading.total_memory / MEBIBYTE,
            net_in_bytes_sec: reading.traffic.received,
            net_out_bytes_sec: reading.traffic.transmitted,
            temp_celsius: max_component_temperature(&reading.temperatures),
        }
    }
}

} // verus!
