//! Where the items of the menu bar lie, and what is drawn around them.

use vstd::arithmetic::power2::{lemma2_to64, lemma_pow2_adds, lemma_pow2_pos, pow2};
use vstd::prelude::*;

use crate::accuracy::{
    distance, lemma_accuracy, lemma_nearest_close, lemma_product_close, lemma_sum_close,
};
use crate::draw::{
    activity_sparklines, backdrop, cpu_bars, divider_after, level_meter, memory_share, sparkline,
    temperature_gauge, thousandths, DrawView,
};
use crate::geometry::{
    cpu_item, inset, larger, memory_item, minus, network_item, num, panel_of, plus,
    temperature_item, tenths, times, RectView,
};
use crate::laws::arithmetic::{law_difference_is_nearest, law_product_is_nearest};
use crate::order::{is_value, lemma_rounding_respects, lemma_scaled_exact, lemma_whole_exact};
use crate::rounding::{lemma_nearest_exact, units};
use crate::telemetry::TelemetryFrame;
use crate::value::{
    difference, exact, fraction, greater_of, negated, product, size, sum, whole, Format, Value,
};

verus! {

/// Whether `v` is `t` units, off by at most one part in `2^47` of `bound`.
pub open spec fn near(v: Value, t: int, bound: int) -> bool {
    v is Finite && 0x8000_0000_0000 * distance(exact(Format::Double, v), t) <= bound
}

/// A bound on the places along one direction of the view: how far off it lies, and
/// its size.
pub open spec fn extent(v: Value) -> int {
    distance(exact(Format::Double, v), 0) + 200 * Format::Double.one()
}

/// Both summands of a finite sum are finite.
pub proof fn lemma_finite_sum(a: Value, b: Value)
    requires
        plus(a, b) is Finite,
    ensures
        a is Finite,
        b is Finite,
{
}

/// One more sum: each is off by at most one part in `2^51` of a bound on all of
/// them.
pub proof fn lemma_step(a: Value, c: Value, t: int, n: int, bound: int)
    requires
        plus(a, c) is Finite,
        0x8_0000_0000_0000 * distance(exact(Format::Double, a), t) <= n * bound,
        distance(t, 0) <= bound,
        distance(t + exact(Format::Double, c), 0) <= bound,
        0 <= n <= 100,
    ensures
        0x8_0000_0000_0000 * distance(
            exact(Format::Double, plus(a, c)),
            t + exact(Format::Double, c),
        ) <= (n + 1) * bound,
{
    let f = Format::Double;
    lemma_finite_sum(a, c);
    lemma_sum_close(f, a, c);
    let nb = n * bound;
    assert(nb <= 100 * bound) by (nonlinear_arith)
        requires
            nb == n * bound,
            n <= 100,
            bound >= 0,
    ;
    assert((n + 1) * bound == nb + bound) by (nonlinear_arith)
        requires
            nb == n * bound,
    ;
}

/// What constants in halves are worth.
pub proof fn lemma_halves(n: nat)
    requires
        n < 0x10_0000,
    ensures
        tenths(5 * n) is Finite,
        2 * exact(Format::Double, tenths(5 * n)) == n * Format::Double.one(),
{
    let f = Format::Double;
    lemma2_to64();
    lemma_pow2_adds(1, 1073);
    let mag = lemma_scaled_exact(f, n, 1073);
    let g = pow2(1073);
    assert((5 * n) * f.one() == 10 * (n * g)) by (nonlinear_arith)
        requires
            f.one() == 2 * g,
    ;
    lemma_nearest_exact(53, (5 * n) * f.one(), 10, mag);
    assert(2 * (n * g) == n * f.one()) by (nonlinear_arith)
        requires
            f.one() == 2 * g,
    ;
}

/// The exact constants of the layout.
pub proof fn lemma_constants()
    ensures
        Format::Double.one() > 0,
        forall|n: nat| n < 1000 ==> (#[trigger] num(n)) is Finite && exact(Format::Double, num(n))
            == n * Format::Double.one() && is_value(Format::Double, num(n)),
{
    lemma_accuracy(Format::Double);
    assert forall|n: nat| n < 1000 implies (#[trigger] num(n)) is Finite && exact(
        Format::Double,
        num(n),
    ) == n * Format::Double.one() && is_value(Format::Double, num(n)) by {
        lemma_whole_exact(Format::Double, n);
    }
}

/// What of a length is left when `n` is taken off, but not below zero.
pub open spec fn left_over(v: Value, n: nat) -> int {
    let rest = exact(Format::Double, v) - n * Format::Double.one();
    if rest < 0 {
        0
    } else {
        rest
    }
}

/// The panel lies inside the bounds: a point at the left and the right, two points
/// below and above, and it is never smaller than nothing.
pub proof fn law_panel_lies_inside(bounds: RectView)
    requires
        panel_of(bounds).x is Finite,
        panel_of(bounds).y is Finite,
        bounds.width is Finite,
        bounds.height is Finite,
        panel_of(bounds).width is Finite,
        panel_of(bounds).height is Finite,
    ensures
        ({
            let f = Format::Double;
            let one = f.one();
            let panel = panel_of(bounds);
            &&& near(panel.x, exact(f, bounds.x) + one, extent(bounds.x))
            &&& near(panel.y, exact(f, bounds.y) + 2 * one, extent(bounds.y))
            &&& near(panel.width, left_over(bounds.width, 2), extent(bounds.width))
            &&& near(panel.height, left_over(bounds.height, 4), extent(bounds.height))
            &&& exact(f, panel.width) >= 0
            &&& exact(f, panel.height) >= 0
        }),
{
    let f = Format::Double;
    let one = f.one();
    lemma_constants();
    lemma_finite_sum(bounds.x, num(1));
    lemma_finite_sum(bounds.y, num(2));
    assert(0 * extent(bounds.x) == 0 && 0 * extent(bounds.y) == 0) by (nonlinear_arith);
    lemma_step(bounds.x, num(1), exact(f, bounds.x), 0, extent(bounds.x));
    lemma_step(bounds.y, num(2), exact(f, bounds.y), 0, extent(bounds.y));
    lemma_shrunk(bounds.width, 1);
    lemma_shrunk(bounds.height, 2);
}

/// What taking off twice a constant, but not below zero, gives.
proof fn lemma_shrunk(v: Value, n: nat)
    requires
        v is Finite,
        n < 100,
        greater_of(
            Format::Double,
            difference(Format::Double, v, product(Format::Double, num(n), num(2))),
            num(0),
        ) is Finite,
    ensures
        ({
            let r = greater_of(
                Format::Double,
                difference(Format::Double, v, product(Format::Double, num(n), num(2))),
                num(0),
            );
            &&& near(r, left_over(v, 2 * n), extent(v))
            &&& exact(Format::Double, r) >= 0
        }),
{
    let f = Format::Double;
    let one = f.one();
    lemma_constants();
    let twice = product(f, num(n), num(2));
    let (a, b) = (n * one, 2 * one);
    assert(a * b == one * ((2 * n) * one)) by (nonlinear_arith)
        requires
            a == n * one,
            b == 2 * one,
    ;
    lemma_whole_exact(f, n);
    lemma_whole_exact(f, 2);
    lemma_whole_exact(f, 2 * n);
    lemma_nearest_exact(53, size(f, num(n)) * size(f, num(2)), one, num(2 * n)->mag);
    assert(twice == num(2 * n));
    assert(exact(f, num(0)) == 0) by {
        assert(0 * one == 0) by (nonlinear_arith);
    }
    let d = difference(f, v, twice);
    if d is Finite {
        assert(0 * extent(v) == 0) by (nonlinear_arith);
        assert((2 * n) * one <= 200 * one) by (nonlinear_arith)
            requires
                2 * n <= 200,
        ;
        assert(0 <= (2 * n) * one) by (nonlinear_arith);
        lemma_step(v, negated(twice), exact(f, v), 0, extent(v));
    } else {
        // Only an infinity below is replaced.
        assert(d == (Value::Infinite { neg: true }));
        assert(exact(f, v) - exact(f, twice) < 0);
    }
}

/// A rectangle made smaller: moved by the insets, and less wide and high by twice
/// the insets, but never below nothing.
pub proof fn law_insets_shrink_on_all_sides(rect: RectView, x: Value, y: Value)
    requires
        x is Finite,
        y is Finite,
        exact(Format::Double, x) >= 0,
        exact(Format::Double, y) >= 0,
        rect.width is Finite,
        is_value(Format::Double, rect.width),
        rect.height is Finite,
        is_value(Format::Double, rect.height),
        inset(rect, x, y).x is Finite,
        inset(rect, x, y).y is Finite,
        inset(rect, x, y).width is Finite,
        inset(rect, x, y).height is Finite,
    ensures
        ({
            let f = Format::Double;
            let r = inset(rect, x, y);
            let (a, b) = (exact(f, x), exact(f, y));
            &&& near(r.x, exact(f, rect.x) + a, extent(rect.x) + a)
            &&& near(r.y, exact(f, rect.y) + b, extent(rect.y) + b)
            &&& near(r.width, less_twice(rect.width, x), extent(rect.width) + 4 * a)
            &&& near(r.height, less_twice(rect.height, y), extent(rect.height) + 4 * b)
            &&& exact(f, r.width) >= 0
            &&& exact(f, r.height) >= 0
        }),
{
    let f = Format::Double;
    lemma_accuracy(f);
    lemma_finite_sum(rect.x, x);
    lemma_finite_sum(rect.y, y);
    lemma_sum_close(f, rect.x, x);
    lemma_sum_close(f, rect.y, y);
    lemma_less_twice(rect.width, x);
    lemma_less_twice(rect.height, y);
}

/// What of a length is left when an inset is taken off on both sides, but not below
/// nothing.
pub open spec fn less_twice(v: Value, inset: Value) -> int {
    let rest = exact(Format::Double, v) - 2 * exact(Format::Double, inset);
    if rest < 0 {
        0
    } else {
        rest
    }
}

proof fn lemma_less_twice(v: Value, a: Value)
    requires
        v is Finite,
        is_value(Format::Double, v),
        a is Finite,
        exact(Format::Double, a) >= 0,
        larger(minus(v, times(a, num(2))), num(0)) is Finite,
    ensures
        ({
            let r = larger(minus(v, times(a, num(2))), num(0));
            &&& near(r, less_twice(v, a), extent(v) + 4 * exact(Format::Double, a))
            &&& exact(Format::Double, r) >= 0
        }),
{
    let f = Format::Double;
    let one = f.one();
    lemma_accuracy(f);
    crate::laws::traffic::lemma_one_is_large();
    lemma_whole_exact(f, 0);
    lemma_whole_exact(f, 2);
    lemma_pow2_pos(53);
    assert(units(53, 0) == 0);
    assert(0 * one == 0) by (nonlinear_arith);
    let twice = times(a, num(2));
    let x = exact(f, a);
    let w = exact(f, v);
    law_product_is_nearest(f, a, num(2), v);
    if twice is Finite {
        lemma_product_close(f, a, num(2));
        let y = exact(f, twice);
        assert(0x1f_ffff_ffff_ffff * distance(y, 2 * x) <= 2 * x + 0x1f_ffff_ffff_ffff)
            by (nonlinear_arith)
            requires
                0x1f_ffff_ffff_ffff * distance(y * one, x * (2 * one)) <= x * (2 * one)
                    + 0x1f_ffff_ffff_ffff * one,
                one > 0,
        ;
        let d = minus(v, twice);
        assert(exact(f, negated(twice)) == -y);
        law_difference_is_nearest(f, v, twice, v);
        if d is Finite {
            lemma_sum_close(f, v, negated(twice));
            let z = exact(f, d);
            assert(0x8000_0000_0000 * distance(w - y, w - 2 * x) <= one + x);
            lemma_rounded_near(z, w - y, w - 2 * x, one + x, extent(v) + 2 * x - one);
        } else {
            lemma_downwards(v, twice);
            lemma_far_below(w, x, y, one as int, size(f, v) as int);
        }
    } else {
        assert(size(f, v) < 2 * x) by (nonlinear_arith)
            requires
                size(f, v) * one < x * (2 * one),
                one > 0,
        ;
        assert(exact(f, a) > 0);
        assert(twice == (Value::Infinite { neg: false }));
    }
}

/// Where a number that is not negative is taken off, an infinite difference is one
/// downwards.
pub proof fn lemma_downwards(a: Value, b: Value)
    requires
        a is Finite,
        b is Finite,
        is_value(Format::Double, a),
        exact(Format::Double, b) >= 0,
        minus(a, b) is Infinite,
    ensures
        minus(a, b) == (Value::Infinite { neg: true }),
        exact(Format::Double, a) < exact(Format::Double, b),
{
    let f = Format::Double;
    let s = exact(f, a) - exact(f, b);
    lemma_pow2_pos(53);
    assert(exact(f, negated(b)) == -exact(f, b));
    if s >= 0 {
        lemma_rounding_respects(f, s as nat, 1, a->mag);
    }
}

/// What is below all numbers is below nothing.
proof fn lemma_far_below(w: int, x: int, y: int, one: int, n: int)
    requires
        n == distance(w, 0),
        n < distance(w - y, 0),
        y >= 0,
        x >= 0,
        one >= 0x1000_0000_0000_0000,
        0x1f_ffff_ffff_ffff * distance(y, 2 * x) <= 2 * x + 0x1f_ffff_ffff_ffff,
    ensures
        w - 2 * x < 0 || 0x8000_0000_0000 * (w - 2 * x) <= distance(w, 0) + 200 * one + 4 * x,
{
}

/// The four items lie in a row inside the panel, each with its width and seven
/// points after the one before; all begin four points above the panel's lower edge
/// and are eight points less high than it.
pub proof fn law_items_lie_in_a_row(bounds: RectView)
    requires
        temperature_item(bounds).x is Finite,
        cpu_item(bounds).y is Finite,
        bounds.height is Finite,
        panel_of(bounds).height is Finite,
        cpu_item(bounds).height is Finite,
    ensures
        ({
            let f = Format::Double;
            let one = f.one();
            let (cpu, memory) = (cpu_item(bounds), memory_item(bounds));
            let (network, temperature) = (network_item(bounds), temperature_item(bounds));
            let (x, y) = (exact(f, bounds.x), exact(f, bounds.y));
            &&& near(cpu.x, x + 6 * one, extent(bounds.x))
            &&& near(memory.x, x + 38 * one, extent(bounds.x))
            &&& near(network.x, x + 63 * one, extent(bounds.x))
            &&& near(temperature.x, x + 113 * one, extent(bounds.x))
            &&& exact(f, cpu.width) == 25 * one
            &&& exact(f, memory.width) == 18 * one
            &&& exact(f, network.width) == 43 * one
            &&& exact(f, temperature.width) == 21 * one
            &&& near(cpu.y, y + 6 * one, extent(bounds.y))
            &&& near(cpu.height, left_over(bounds.height, 4) - 8 * one, 2 * extent(bounds.height))
            &&& cpu.y == memory.y && cpu.y == network.y && cpu.y == temperature.y
            &&& cpu.height == memory.height
            &&& cpu.height == network.height
            &&& cpu.height == temperature.height
        }),
{
    let f = Format::Double;
    let one = f.one();
    lemma_constants();
    lemma_edges(bounds);
    let e = extent(bounds.y);
    lemma_finite_sum(panel_of(bounds).y, num(4));
    lemma_finite_sum(bounds.y, num(2));
    assert(0 * e == 0 && 1 * e == e && 2 * e == e + e) by (nonlinear_arith);
    lemma_step(bounds.y, num(2), exact(f, bounds.y), 0, e);
    lemma_step(panel_of(bounds).y, num(4), exact(f, bounds.y) + 2 * one, 1, e);
    lemma_shrunk(bounds.height, 2);
    let h = panel_of(bounds).height;
    let b = 2 * extent(bounds.height);
    let t = left_over(bounds.height, 4);
    lemma_sum_close(f, h, negated(num(8)));
}

/// The next item's left edge: off by two more parts than the one before.
proof fn lemma_next_edge(x: Value, width: nat, next: Value, t: int, n: int, bound: int)
    requires
        next == plus(plus(x, num(width)), num(7)),
        next is Finite,
        width < 100,
        0 <= n <= 90,
        0x8_0000_0000_0000 * distance(exact(Format::Double, x), t) <= n * bound,
        distance(t, 0) + 107 * Format::Double.one() <= bound,
    ensures
        x is Finite,
        0x8_0000_0000_0000 * distance(
            exact(Format::Double, next),
            t + (width + 7) * Format::Double.one(),
        ) <= (n + 2) * bound,
{
    let one = Format::Double.one();
    lemma_accuracy(Format::Double);
    lemma_whole_exact(Format::Double, width);
    lemma_whole_exact(Format::Double, 7);
    let right = plus(x, num(width));
    lemma_finite_sum(right, num(7));
    lemma_finite_sum(x, num(width));
    assert(0 <= width * one <= 100 * one && (width + 7) * one == width * one + 7 * one)
        by (nonlinear_arith)
        requires
            width < 100,
            one > 0,
    ;
    lemma_step(x, num(width), t, n, bound);
    lemma_step(right, num(7), t + width * one, n + 1, bound);
}

/// Every place that the last of the left edges is made from is finite.
proof fn lemma_edges_finite(bounds: RectView)
    requires
        temperature_item(bounds).x is Finite,
    ensures
        network_item(bounds).x is Finite,
        memory_item(bounds).x is Finite,
        cpu_item(bounds).x is Finite,
        panel_of(bounds).x is Finite,
        bounds.x is Finite,
{
    let (cpu, memory, network) = (cpu_item(bounds), memory_item(bounds), network_item(bounds));
    lemma_finite_sum(plus(network.x, num(43)), num(7));
    lemma_finite_sum(network.x, num(43));
    lemma_finite_sum(plus(memory.x, num(18)), num(7));
    lemma_finite_sum(memory.x, num(18));
    lemma_finite_sum(plus(cpu.x, num(25)), num(7));
    lemma_finite_sum(cpu.x, num(25));
    lemma_finite_sum(panel_of(bounds).x, num(5));
    lemma_finite_sum(bounds.x, num(1));
}

/// The left edge of the first item.
proof fn lemma_first_edge(x: Value, panel: Value, first: Value)
    requires
        panel == plus(x, num(1)),
        first == plus(panel, num(5)),
        first is Finite,
    ensures
        0x8_0000_0000_0000 * distance(
            exact(Format::Double, first),
            exact(Format::Double, x) + 6 * Format::Double.one(),
        ) <= 2 * extent(x),
{
    let f = Format::Double;
    let one = f.one();
    let b = extent(x);
    lemma_accuracy(f);
    lemma_whole_exact(f, 1);
    lemma_whole_exact(f, 5);
    lemma_finite_sum(panel, num(5));
    lemma_finite_sum(x, num(1));
    assert(1 * one == one && 0 * b == 0) by (nonlinear_arith);
    lemma_step(x, num(1), exact(f, x), 0, b);
    lemma_step(panel, num(5), exact(f, x) + one, 1, b);
}

/// The left edges of the items.
proof fn lemma_edges(bounds: RectView)
    requires
        temperature_item(bounds).x is Finite,
    ensures
        ({
            let f = Format::Double;
            let one = f.one();
            let x = exact(f, bounds.x);
            let b = extent(bounds.x);
            &&& bounds.x is Finite
            &&& near(cpu_item(bounds).x, x + 6 * one, b)
            &&& near(memory_item(bounds).x, x + 38 * one, b)
            &&& near(network_item(bounds).x, x + 63 * one, b)
            &&& near(temperature_item(bounds).x, x + 113 * one, b)
        }),
{
    let f = Format::Double;
    let one = f.one();
    let b = extent(bounds.x);
    let x = exact(f, bounds.x);
    lemma_accuracy(f);
    lemma_edges_finite(bounds);
    let (cpu, memory) = (cpu_item(bounds).x, memory_item(bounds).x);
    let (network, temperature) = (network_item(bounds).x, temperature_item(bounds).x);
    assert(memory == plus(plus(cpu, num(25)), num(7)));
    assert(network == plus(plus(memory, num(18)), num(7)));
    assert(temperature == plus(plus(network, num(43)), num(7)));
    lemma_first_edge(bounds.x, panel_of(bounds).x, cpu);
    assert((25 + 7) * one == 32 * one && (18 + 7) * one == 25 * one && (43 + 7) * one == 50 * one)
        by (nonlinear_arith);
    assert((2 + 2) * b == 4 * b && (4 + 2) * b == 6 * b && (6 + 2) * b == 8 * b)
        by (nonlinear_arith);
    lemma_next_edge(cpu, 25, memory, x + 6 * one, 2, b);
    lemma_next_edge(memory, 18, network, x + 38 * one, 4, b);
    lemma_next_edge(network, 43, temperature, x + 63 * one, 6, b);
}

/// The components of a color are the given thousandths, to the last place.
pub proof fn law_colors_are_in_thousandths(red: nat, green: nat, blue: nat, alpha: nat)
    requires
        red <= 1000,
        green <= 1000,
        blue <= 1000,
        alpha <= 1000,
    ensures
        ({
            let c = thousandths(red, green, blue, alpha);
            &&& is_thousandth(c.red, red)
            &&& is_thousandth(c.green, green)
            &&& is_thousandth(c.blue, blue)
            &&& is_thousandth(c.alpha, alpha)
        }),
{
    lemma_thousandth(red);
    lemma_thousandth(green);
    lemma_thousandth(blue);
    lemma_thousandth(alpha);
}

/// Whether a number is `n` thousandths, up to one part in `2^47`.
pub open spec fn is_thousandth(v: Value, n: nat) -> bool {
    v is Finite && 0x8000_0000_0000 * distance(
        1000 * exact(Format::Double, v),
        n * Format::Double.one() as int,
    ) <= 1000 * Format::Double.one()
}

proof fn lemma_thousandth(n: nat)
    requires
        n <= 1000,
    ensures
        is_thousandth(fraction(Format::Double, n, 1000), n),
{
    let f = Format::Double;
    let one = f.one();
    lemma_accuracy(f);
    crate::laws::traffic::lemma_one_is_large();
    lemma_nearest_close(f, n * one, 1000);
    lemma_whole_exact(f, 1);
    assert(n * one <= 1000 * one) by (nonlinear_arith)
        requires
            n <= 1000,
    ;
    assert(1 * one == one) by (nonlinear_arith);
    lemma_rounding_respects(f, n * one, 1000, num(1)->mag);
}

/// Constants in tenths are what they are written as, up to one part in `2^47`.
pub proof fn law_constants_in_tenths(n: nat)
    requires
        n <= 1000,
    ensures
        tenths(n) is Finite,
        is_value(Format::Double, tenths(n)),
        !tenths(n)->Finite_neg,
        0x8000_0000_0000 * distance(
            10 * exact(Format::Double, tenths(n)),
            n * Format::Double.one() as int,
        ) <= n * Format::Double.one(),
{
    let f = Format::Double;
    let one = f.one();
    lemma_accuracy(f);
    crate::laws::traffic::lemma_one_is_large();
    lemma_nearest_close(f, n * one, 10);
    lemma_whole_exact(f, 100);
    assert(n * one <= 10 * (100 * one)) by (nonlinear_arith)
        requires
            n <= 1000,
    ;
    lemma_rounding_respects(f, n * one, 10, num(100)->mag);
    lemma_pow2_pos(53);
    if n == 0 {
        assert(0 * one == 0) by (nonlinear_arith);
        lemma_nearest_exact(53, 0, 10, 0);
    } else {
        assert(one <= n * one) by (nonlinear_arith)
            requires
                n >= 1,
                one >= 0,
        ;
    }
}

/// Where the parts of a concatenation stand.
proof fn lemma_concatenation(
    a: Seq<DrawView>,
    b: Seq<DrawView>,
    c: Seq<DrawView>,
    d: Seq<DrawView>,
    e: Seq<DrawView>,
)
    requires
        a.len() == 5,
        b.len() == 8,
        c.len() == 3,
        d.len() == 1,
        e.len() == 4,
    ensures
        ({
            let all = a + b + c + d + e;
            &&& all.len() == 21
            &&& all.subrange(0, 5) == a
            &&& all.subrange(5, 13) == b
            &&& all.subrange(13, 16) == c
            &&& all[16] == d[0]
            &&& all.subrange(17, 21) == e
        }),
{
    let all = a + b + c + d + e;
    assert(all.subrange(0, 5) =~= a);
    assert(all.subrange(5, 13) =~= b);
    assert(all.subrange(13, 16) =~= c);
    assert(all.subrange(17, 21) =~= e);
}

/// The parts that the drawing of the whole view is made from.
pub proof fn lemma_view_parts(bounds: RectView, frame: TelemetryFrame)
    ensures
        ({
            let ops = activity_sparklines(bounds, frame);
            &&& ops.len() == 21
            &&& ops.subrange(0, 5) == backdrop(bounds)
            &&& ops.subrange(5, 13) == cpu_bars(cpu_item(bounds), frame.cpu_history@)
            &&& ops.subrange(13, 16) == level_meter(
                memory_item(bounds),
                memory_share(frame.mem_used_mb, frame.mem_total_mb),
                thousandths(450, 630, 1000, 920),
            )
            &&& ops[16] == sparkline(
                network_item(bounds),
                frame.net_activity_history@,
                thousandths(140, 910, 630, 960),
                fraction(Format::Double, 105, 100),
            )
            &&& ops.subrange(17, 21) == temperature_gauge(
                temperature_item(bounds),
                frame.temp_celsius@,
            )
        }),
{
    lemma_concatenation(
        backdrop(bounds),
        cpu_bars(cpu_item(bounds), frame.cpu_history@),
        level_meter(
            memory_item(bounds),
            memory_share(frame.mem_used_mb, frame.mem_total_mb),
            thousandths(450, 630, 1000, 920),
        ),
        seq![
            sparkline(
                network_item(bounds),
                frame.net_activity_history@,
                thousandths(140, 910, 630, 960),
                fraction(Format::Double, 105, 100),
            ),
        ],
        temperature_gauge(temperature_item(bounds), frame.temp_celsius@),
    );
}

/// The view begins with its panel: filled, and with an edge, both with corners of
/// four and a half points.
pub proof fn law_panel_of_the_view(bounds: RectView, frame: TelemetryFrame)
    ensures
        ({
            let ops = activity_sparklines(bounds, frame);
            let panel = panel_of(bounds);
            &&& ops.len() == 21
            &&& ops[0] matches DrawView::Fill { rect, radius, color } && rect == panel && color
                == thousandths(45, 51, 59, 960) && 2 * exact(Format::Double, radius) == 9
                * Format::Double.one()
            &&& ops[1] matches DrawView::Stroke { rect, radius, color, line_width } && rect == panel
                && color == thousandths(240, 270, 300, 720) && 2 * exact(Format::Double, radius)
                == 9 * Format::Double.one() && line_width == tenths(6)
        }),
{
    lemma_halves(9);
    lemma_view_parts(bounds, frame);
    let ops = activity_sparklines(bounds, frame);
    assert(ops[0] == ops.subrange(0, 5)[0]);
    assert(ops[1] == ops.subrange(0, 5)[1]);
}

/// The dividers stand three and a half points to the right of the first three
/// items, and reach from three points above the panel's lower edge to three points
/// below its upper edge.
pub proof fn law_dividers_of_the_view(bounds: RectView, frame: TelemetryFrame, i: int)
    requires
        0 <= i < 3,
        temperature_item(bounds).x is Finite,
        bounds.height is Finite,
        panel_of(bounds).height is Finite,
        activity_sparklines(bounds, frame)[2 + i]->points[0].x is Finite,
        activity_sparklines(bounds, frame)[2 + i]->points[0].y is Finite,
        activity_sparklines(bounds, frame)[2 + i]->points[1].y is Finite,
    ensures
        ({
            let f = Format::Double;
            let one = f.one();
            let (x, y) = (exact(f, bounds.x), exact(f, bounds.y));
            let offset = if i == 0 {
                69int
            } else if i == 1 {
                119
            } else {
                219
            };
            let b = extent(bounds.y) + extent(bounds.height);
            activity_sparklines(bounds, frame)[2 + i] matches DrawView::Line {
                points,
                color,
                line_width,
            } && {
                &&& points.len() == 2
                &&& points[0].x == points[1].x
                &&& 0x8000_0000_0000 * distance(2 * exact(f, points[0].x), 2 * x + offset * one)
                    <= 3 * extent(bounds.x)
                &&& near(points[0].y, y + 5 * one, b)
                &&& near(points[1].y, y + left_over(bounds.height, 4) - one, 4 * b)
                &&& color == thousandths(340, 370, 400, 550)
                &&& line_width == tenths(6)
            }
        }),
{
    let panel = panel_of(bounds);
    lemma_edges(bounds);
    lemma_edges_finite(bounds);
    let left = if i == 0 {
        cpu_item(bounds)
    } else if i == 1 {
        memory_item(bounds)
    } else {
        network_item(bounds)
    };
    lemma_view_parts(bounds, frame);
    assert(activity_sparklines(bounds, frame)[2 + i] == activity_sparklines(bounds, frame).subrange(
        0,
        5,
    )[2 + i]);
    assert(backdrop(bounds)[2 + i] == divider_after(left, panel));
    if i == 0 {
        lemma_divider_across(bounds.x, left.x, 6, 25);
    } else if i == 1 {
        lemma_divider_across(bounds.x, left.x, 38, 18);
    } else {
        lemma_divider_across(bounds.x, left.x, 63, 43);
    }
    lemma_divider_upwards(bounds);
}

/// Where the divider after an item stands.
proof fn lemma_divider_across(x: Value, left: Value, n: nat, width: nat)
    requires
        n < 100,
        width < 50,
        near(left, exact(Format::Double, x) + n * Format::Double.one(), extent(x)),
        plus(plus(left, num(width)), tenths(35)) is Finite,
    ensures
        0x8000_0000_0000 * distance(
            2 * exact(Format::Double, plus(plus(left, num(width)), tenths(35))),
            2 * exact(Format::Double, x) + (2 * n + 2 * width + 7) * Format::Double.one(),
        ) <= 3 * extent(x),
{
    let f = Format::Double;
    let one = f.one();
    let b = extent(x);
    lemma_accuracy(f);
    lemma_halves(7);
    lemma_whole_exact(f, width);
    let right = plus(left, num(width));
    lemma_finite_sum(right, tenths(35));
    let (p, q) = (n * one, width * one);
    assert(0 <= p <= 100 * one && 0 <= q <= 50 * one && (2 * n + 2 * width + 7) * one == 2 * p + 2
        * q + 7 * one) by (nonlinear_arith)
        requires
            p == n * one,
            q == width * one,
            n < 100,
            width < 50,
            one > 0,
    ;
    lemma_step(left, num(width), exact(f, x) + p, 16, b);
    lemma_step(right, tenths(35), exact(f, x) + p + q, 17, b);
}

/// How far up the dividers reach.
proof fn lemma_divider_upwards(bounds: RectView)
    requires
        bounds.height is Finite,
        panel_of(bounds).height is Finite,
        plus(panel_of(bounds).y, num(3)) is Finite,
        plus(plus(panel_of(bounds).y, panel_of(bounds).height), negated(num(3))) is Finite,
    ensures
        ({
            let f = Format::Double;
            let one = f.one();
            let y = exact(f, bounds.y);
            let b = extent(bounds.y) + extent(bounds.height);
            let panel = panel_of(bounds);
            &&& near(plus(panel.y, num(3)), y + 5 * one, b)
            &&& near(
                plus(plus(panel.y, panel.height), negated(num(3))),
                y + left_over(bounds.height, 4) - one,
                4 * b,
            )
        }),
{
    let f = Format::Double;
    let one = f.one();
    let panel = panel_of(bounds);
    let y = exact(f, bounds.y);
    let e = extent(bounds.y);
    lemma_accuracy(f);
    lemma_whole_exact(f, 2);
    lemma_whole_exact(f, 3);
    lemma_finite_sum(panel.y, num(3));
    lemma_finite_sum(bounds.y, num(2));
    lemma_finite_sum(plus(panel.y, panel.height), negated(num(3)));
    assert(0 * e == 0) by (nonlinear_arith);
    lemma_step(bounds.y, num(2), y, 0, e);
    lemma_step(panel.y, num(3), y + 2 * one, 1, e);
    lemma_shrunk(bounds.height, 2);
    lemma_upper_end(
        panel.y,
        panel.height,
        y + 2 * one,
        left_over(bounds.height, 4),
        e,
        extent(bounds.height),
    );
}

/// A rounded number is near what its exact value is near.
pub proof fn lemma_rounded_near(r: int, m: int, t: int, error: int, bound: int)
    requires
        0x1f_ffff_ffff_ffff * distance(r, m) <= distance(m, 0),
        0x8000_0000_0000 * distance(m, t) <= error,
        distance(t, 0) <= bound,
        error <= 0x1000 * bound,
    ensures
        0x8000_0000_0000 * distance(r, t) <= error + bound,
{
}

/// Three points less than the sum of two places.
proof fn lemma_upper_end(a: Value, h: Value, s: int, t: int, d: int, e: int)
    requires
        plus(plus(a, h), negated(num(3))) is Finite,
        0x8_0000_0000_0000 * distance(exact(Format::Double, a), s) <= d,
        0x8000_0000_0000 * distance(exact(Format::Double, h), t) <= e,
        distance(s, 0) + 10 * Format::Double.one() <= d,
        0 <= t <= e,
    ensures
        near(plus(plus(a, h), negated(num(3))), s + t - 3 * Format::Double.one(), 4 * d + 4 * e),
{
    let f = Format::Double;
    lemma_accuracy(f);
    lemma_whole_exact(f, 3);
    let c = plus(a, h);
    let r = plus(c, negated(num(3)));
    lemma_finite_sum(c, negated(num(3)));
    lemma_finite_sum(a, h);
    lemma_sum_close(f, a, h);
    lemma_sum_close(f, c, negated(num(3)));
    let (x, y, z, w) = (exact(f, a), exact(f, h), exact(f, c), exact(f, r));
    let three = 3 * f.one() as int;
    assert(exact(f, negated(num(3))) == -three);
    lemma_distances(x, y, s, t);
    assert(distance(s + t, 0) <= d + e);
    lemma_rounded_near(z, x + y, s + t, d + e, d + e);
    lemma_distances(z, -three, s + t, -three);
    lemma_rounded_near(w, z - three, s + t - three, 2 * d + 2 * e, d + e);
}

/// Distances add up.
pub proof fn lemma_distances(a: int, b: int, c: int, d: int)
    ensures
        distance(a + b, c + d) <= distance(a, c) + distance(b, d),
{
}

} // verus!
