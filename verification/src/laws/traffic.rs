//! What holds of the measurements themselves.

use vstd::arithmetic::power2::lemma_pow2_pos;
use vstd::prelude::*;

use crate::accuracy::{
    accuracy, distance, lemma_accuracy, lemma_ratio_close, lemma_whole_units_close,
};
use crate::draw::memory_share;
use crate::float::Single;
use crate::order::{
    is_value, lemma_quotient_at_most_one, lemma_whole_exact, lemma_whole_finite,
    lemma_wholes_ordered,
};
use crate::rounding::{lemma_nearest_monotone, lemma_units_monotone, units};
use crate::telemetry::{
    activity_argument, activity_percent, blank_history, hottest, measured, sampled, total_of,
    zero_bits, Reading, TelemetryFrame, TelemetryWorker, Traffic,
};
use crate::value::{exact, quotient, size, whole, Format, Value};

verus! {

/// All interfaces are counted: appending one adds its bytes to the total.
pub proof fn law_every_interface_counts(counts: Seq<u64>, count: u64)
    ensures
        total_of(counts.push(count)) == total_of(counts) + count,
        total_of(Seq::<u64>::empty()) == 0,
        total_of(seq![count]) == count,
{
    assert(counts.push(count).drop_last() =~= counts);
    assert(seq![count].drop_last() =~= Seq::<u64>::empty());
    reveal_with_fuel(total_of, 2);
}

/// Interfaces can be counted in groups: the total of all is that of the groups.
pub proof fn law_totals_add_up(counts: Seq<u64>, more: Seq<u64>)
    ensures
        total_of(counts + more) == total_of(counts) + total_of(more),
    decreases more.len(),
{
    if more.len() == 0 {
        assert(counts + more =~= counts);
    } else {
        law_totals_add_up(counts, more.drop_last());
        assert((counts + more).drop_last() =~= counts + more.drop_last());
    }
}

/// No interface is counted for more than the total.
pub proof fn law_total_covers_every_interface(counts: Seq<u64>, i: int)
    requires
        0 <= i < counts.len(),
    ensures
        total_of(counts) == total_of(counts.remove(i)) + counts[i],
{
    let (before, after) = (counts.take(i), counts.skip(i + 1));
    assert(counts =~= before.push(counts[i]) + after);
    assert(counts.remove(i) =~= before + after);
    law_totals_add_up(before.push(counts[i]), after);
    law_totals_add_up(before, after);
    law_every_interface_counts(before, counts[i]);
}

/// Both directions count alike, and nothing is lost as long as it fits.
pub proof fn law_directions_are_combined(traffic: Traffic)
    ensures
        traffic.received + traffic.transmitted <= u64::MAX ==> traffic.combined_bytes()
            == traffic.received + traffic.transmitted,
        traffic.received + traffic.transmitted > u64::MAX ==> traffic.combined_bytes() == u64::MAX,
        traffic.combined_bytes() == (Traffic {
            received: traffic.transmitted,
            transmitted: traffic.received,
        }).combined_bytes(),
{
}

/// The share times the total memory is the used memory, up to one part in `2^22`
/// of the total.
pub proof fn law_share_of_the_memory(used_mb: u64, total_mb: u64)
    requires
        0 < total_mb,
        used_mb <= total_mb,
    ensures
        ({
            let one = Format::Single.one();
            let share = exact(Format::Single, memory_share(used_mb, total_mb));
            0x40_0000 * distance(share * total_mb, used_mb * one) <= total_mb * one
        }),
{
    let f = Format::Single;
    let one = f.one();
    let (a, b) = (whole(f, used_mb as nat), whole(f, total_mb as nat));
    let q = quotient(f, a, b);
    lemma_ratio_close(used_mb, total_mb);
    lemma_accuracy(f);
    lemma_pow2_pos(f.precision());
    lemma_whole_finite(f, used_mb);
    lemma_whole_finite(f, total_mb);
    lemma_whole_exact(f, 0);
    lemma_whole_exact(f, 1);
    assert(0 * one == 0 && 1 * one == one) by (nonlinear_arith);
    assert(used_mb as nat * one * 1 <= total_mb as nat * one * 1) by (nonlinear_arith)
        requires
            used_mb <= total_mb,
    ;
    lemma_nearest_monotone(24, used_mb as nat * one, 1, total_mb as nat * one, 1);
    if a->mag < b->mag {
        lemma_units_monotone(24, a->mag, b->mag);
    }
    lemma_quotient_at_most_one(f, a, b);
    assert(memory_share(used_mb, total_mb) == q);
    let (x, y, z) = (exact(f, q) * total_mb, used_mb * one, total_mb * one);
    assert(y <= z) by (nonlinear_arith)
        requires
            used_mb <= total_mb,
            y == used_mb * one,
            z == total_mb * one,
    ;
    lemma_one_is_large();
    assert(0x1000_0000 * total_mb <= z) by (nonlinear_arith)
        requires
            z == total_mb * one,
            one >= 0x1000_0000,
    ;
}

/// One is many units.
pub proof fn lemma_one_is_large()
    ensures
        Format::Single.one() >= 0x1000_0000_0000_0000,
        Format::Double.one() >= 0x1000_0000_0000_0000,
{
    vstd::arithmetic::power2::lemma2_to64_rest();
    vstd::arithmetic::power2::lemma_pow2_strictly_increases(60, 149);
    vstd::arithmetic::power2::lemma_pow2_strictly_increases(60, 1074);
}

/// More memory in use never means a lower share.
pub proof fn law_share_keeps_the_order(used_mb: u64, more_mb: u64, total_mb: u64)
    requires
        0 < total_mb,
        used_mb <= more_mb,
    ensures
        exact(Format::Single, memory_share(used_mb, total_mb)) <= exact(
            Format::Single,
            memory_share(more_mb, total_mb),
        ),
{
    let f = Format::Single;
    let one = f.one();
    let (a, c, b) = (
        whole(f, used_mb as nat),
        whole(f, more_mb as nat),
        whole(f, total_mb as nat),
    );
    lemma_ratio_close(used_mb, total_mb);
    lemma_ratio_close(more_mb, total_mb);
    lemma_accuracy(f);
    lemma_pow2_pos(f.precision());
    lemma_whole_finite(f, used_mb);
    lemma_whole_finite(f, more_mb);
    lemma_whole_finite(f, total_mb);
    lemma_whole_exact(f, 0);
    lemma_whole_exact(f, 1);
    lemma_wholes_ordered(f, 0, 1);
    assert(0 * one == 0 && 1 * one == one) by (nonlinear_arith);
    assert(used_mb as nat * one * 1 <= more_mb as nat * one * 1) by (nonlinear_arith)
        requires
            used_mb <= more_mb,
    ;
    lemma_nearest_monotone(24, used_mb as nat * one, 1, more_mb as nat * one, 1);
    if a->mag < c->mag {
        lemma_units_monotone(24, a->mag, c->mag);
    }
    let (na, nc, nb) = (size(f, a), size(f, c), size(f, b));
    assert(na * one * nb <= nc * one * nb) by (nonlinear_arith)
        requires
            na <= nc,
    ;
    lemma_nearest_monotone(24, na * one, nb, nc * one, nb);
    let (q, r) = (quotient(f, a, b), quotient(f, c, b));
    if q->mag < r->mag {
        lemma_units_monotone(24, q->mag, r->mag);
    }
}

/// The number whose logarithm is taken is one more than the bytes: exactly below
/// `2^24`, and up to one part in `2^22` beyond.
pub proof fn law_argument_is_one_more(bytes_per_sec: u64)
    ensures
        activity_argument(bytes_per_sec) is Finite,
        ({
            let one = Format::Single.one();
            let argument = exact(Format::Single, activity_argument(bytes_per_sec));
            &&& bytes_per_sec < 0xff_ffff ==> argument == (bytes_per_sec + 1) * one
            &&& 0x40_0000 * distance(argument, (bytes_per_sec + 1) * one) <= (bytes_per_sec + 1)
                * one
        }),
{
    let f = Format::Single;
    let one = f.one();
    let n = bytes_per_sec as nat;
    let a = whole(f, n);
    lemma_accuracy(f);
    lemma_pow2_pos(f.precision());
    lemma_whole_finite(f, bytes_per_sec);
    lemma_whole_exact(f, 1);
    assert(1 * one == one) by (nonlinear_arith);
    assert(n * one + one == (n + 1) * one) by (nonlinear_arith);
    lemma_argument_finite(bytes_per_sec);
    lemma_whole_units_close(f, n * one);
    crate::accuracy::lemma_sum_close(f, a, whole(f, 1));
    if bytes_per_sec < 0xff_ffff {
        crate::laws::lemma_plus_one_exact(bytes_per_sec);
    }
}

/// One more than a number of 64 bits is finite in single precision.
proof fn lemma_argument_finite(bytes: u64)
    ensures
        activity_argument(bytes) is Finite,
{
    let f = Format::Single;
    let one = f.one();
    vstd::arithmetic::power2::lemma2_to64();
    vstd::arithmetic::power2::lemma2_to64_rest();
    lemma_pow2_pos(149);
    lemma_pow2_pos(24);
    lemma_whole_finite(f, bytes);
    lemma_whole_exact(f, 1);
    lemma_whole_units_close(f, bytes as nat * one);
    let a = whole(f, bytes as nat);
    // 2^66 is a value of the format.
    crate::rounding::lemma_units_form(24, 192, 0x80_0000);
    vstd::arithmetic::power2::lemma_pow2_adds(23, 192);
    vstd::arithmetic::power2::lemma_pow2_adds(64, 2);
    vstd::arithmetic::power2::lemma_pow2_adds(66, 149);
    let top: nat = 193 * 0x80_0000;
    assert(units(24, top) == 0x4_0000_0000_0000_0000 * one);
    let n = bytes * one;
    assert(n <= 0x1_0000_0000_0000_0000 * one) by (nonlinear_arith)
        requires
            n == bytes * one,
            bytes <= 0x1_0000_0000_0000_0000,
    ;
    assert(1 * one == one) by (nonlinear_arith);
    let s = (size(f, a) + one) as nat;
    assert(s <= 1 * units(24, top));
    crate::order::lemma_rounding_respects(f, s, 1, top);
    assert(exact(f, a) + exact(f, whole(f, 1)) == s);
    assert(s > 0);
}

/// Without traffic, or with a logarithm that is not above zero, there is no
/// activity.
pub proof fn law_no_activity_below_zero(bytes_per_sec: u64, log: Value)
    requires
        log is Finite,
        is_value(Format::Single, log),
        bytes_per_sec == 0 || exact(Format::Single, log) <= 0,
    ensures
        exact(Format::Single, activity_percent(bytes_per_sec, log)) == 0,
{
    let f = Format::Single;
    let one = f.one();
    lemma_accuracy(f);
    lemma_pow2_pos(f.precision());
    lemma_whole_exact(f, 0);
    lemma_whole_exact(f, 7);
    lemma_whole_exact(f, 100);
    lemma_wholes_ordered(f, 0, 100);
    assert(0 * one == 0) by (nonlinear_arith);
    if bytes_per_sec != 0 {
        if exact(f, log) == 0 {
            assert(0 * (7 * one) == 0 && (7 * one) * 0 == 0 && 0 * (100 * one) == 0 && one * 0 == 0)
                by (nonlinear_arith);
            crate::rounding::lemma_nearest_exact(24, 0, 7 * one, 0);
            crate::rounding::lemma_nearest_exact(24, 0, one, 0);
        } else {
            assert(log->Finite_neg);
        }
    }
}

/// With traffic, a logarithm that is not a number leaves the activity unknown.
pub proof fn law_activity_of_no_number(bytes_per_sec: u64)
    ensures
        bytes_per_sec > 0 ==> activity_percent(bytes_per_sec, Value::Nan) is Nan,
        exact(Format::Single, activity_percent(0, Value::Nan)) == 0,
        activity_percent(0, Value::Nan) is Finite,
{
    lemma_whole_exact(Format::Single, 0);
    assert(0 * Format::Single.one() == 0) by (nonlinear_arith);
}

/// Nothing is measured in a blank frame: all of its numbers are zero, and its
/// histories hold 60 of them.
pub proof fn law_blank_frame_shows_nothing(frame: TelemetryFrame, i: int)
    requires
        frame.is_blank(),
        0 <= i < 60,
    ensures
        exact(Format::Single, frame.cpu_total@) == 0,
        exact(Format::Single, frame.temp_celsius@) == 0,
        frame.cpu_history@.len() == 60,
        frame.net_activity_history@.len() == 60,
        exact(Format::Single, frame.cpu_history@[i]@) == 0,
        exact(Format::Single, frame.net_activity_history@[i]@) == 0,
        frame.mem_used_mb + frame.mem_total_mb + frame.net_in_bytes_sec + frame.net_out_bytes_sec
            == 0,
        !frame.cpu_total@->Finite_neg,
        frame.cpu_total@ is Finite,
{
    lemma_pow2_pos(24);
    assert(frame.cpu_history@[i] == blank_history()[i]);
    assert(frame.net_activity_history@[i] == blank_history()[i]);
}

/// Traffic is given exactly where both totals fit into 64 bits, and is then that of
/// all interfaces, each direction by itself.
pub proof fn law_traffic_is_that_of_all_interfaces(
    traffic: Option<Traffic>,
    received: Seq<u64>,
    transmitted: Seq<u64>,
)
    requires
        measured(traffic, received, transmitted),
    ensures
        traffic is Some <==> total_of(received) <= u64::MAX && total_of(transmitted) <= u64::MAX,
        traffic matches Some(t) ==> t.received == total_of(received),
        traffic matches Some(t) ==> t.transmitted == total_of(transmitted),
{
}

/// Whether so many mebibytes fit into so many bytes, and no more do.
pub open spec fn mebibytes_in(mebibytes: u64, bytes: u64) -> bool {
    mebibytes * 1024 * 1024 <= bytes < (mebibytes + 1) * 1024 * 1024
}

/// A recorded frame holds the reading: the load, the memory in whole mebibytes, both
/// rates, and a temperature that no finite one is above. The histories move by one
/// place, with the load and the activity of the traffic as their newest values.
pub proof fn law_frame_holds_the_reading(
    before: TelemetryWorker,
    reading: Reading,
    log: Single,
    after: TelemetryWorker,
    frame: TelemetryFrame,
    i: int,
)
    requires
        before.records(reading, log, after, frame),
        0 <= i < 59,
    ensures
        frame.cpu_total == reading.cpu_usage,
        frame.cpu_history@.len() == 60,
        frame.cpu_history@[59] == reading.cpu_usage,
        before.cpu_loads().len() == 60 ==> frame.cpu_history@[i] == before.cpu_loads()[i + 1],
        frame.net_activity_history@.len() == 60,
        frame.net_activity_history@[59]@ == activity_percent(
            reading.traffic.combined_bytes(),
            log@,
        ),
        before.activities().len() == 60 ==> frame.net_activity_history@[i]
            == before.activities()[i + 1],
        after.cpu_loads() == frame.cpu_history@,
        after.activities() == frame.net_activity_history@,
        mebibytes_in(frame.mem_used_mb, reading.used_memory),
        mebibytes_in(frame.mem_total_mb, reading.total_memory),
        frame.net_in_bytes_sec == reading.traffic.received,
        frame.net_out_bytes_sec == reading.traffic.transmitted,
        frame.temp_celsius@ == hottest(reading.temperatures@),
{
    assert(frame.cpu_history@.len() == 60 && frame.net_activity_history@.len() == 60);
}

/// A sample holds the load and the memory in whole mebibytes, and nothing else.
pub proof fn law_sample_holds_load_and_memory(
    frame: TelemetryFrame,
    cpu_usage: Single,
    used_memory: u64,
    total_memory: u64,
    i: int,
)
    requires
        sampled(frame, cpu_usage, used_memory, total_memory),
        0 <= i < 60,
    ensures
        frame.cpu_total == cpu_usage,
        mebibytes_in(frame.mem_used_mb, used_memory),
        mebibytes_in(frame.mem_total_mb, total_memory),
        frame.net_in_bytes_sec == 0,
        frame.net_out_bytes_sec == 0,
        exact(Format::Single, frame.temp_celsius@) == 0,
        exact(Format::Single, frame.cpu_history@[i]@) == 0,
        exact(Format::Single, frame.net_activity_history@[i]@) == 0,
{
    let rest = TelemetryFrame {
        cpu_total: zero_bits(),
        mem_used_mb: 0,
        mem_total_mb: 0,
        ..frame
    };
    law_blank_frame_shows_nothing(rest, i);
}

} // verus!
