//! Points, sizes and rectangles, and where the items of the menu bar lie.

use vstd::prelude::*;

use crate::float::Double;
use crate::value::{difference, fraction, greater_of, product, quotient, sum, whole, Format, Value};

verus! {

/// `a + b` in 64 bits.
pub open spec fn plus(a: Value, b: Value) -> Value {
    sum(Format::Double, a, b)
}

/// `a - b` in 64 bits.
pub open spec fn minus(a: Value, b: Value) -> Value {
    difference(Format::Double, a, b)
}

/// `a * b` in 64 bits.
pub open spec fn times(a: Value, b: Value) -> Value {
    product(Format::Double, a, b)
}

/// `a / b` in 64 bits.
pub open spec fn over(a: Value, b: Value) -> Value {
    quotient(Format::Double, a, b)
}

/// The greater of two in 64 bits.
pub open spec fn larger(a: Value, b: Value) -> Value {
    greater_of(Format::Double, a, b)
}

/// The constant `n`.
pub open spec fn num(n: nat) -> Value {
    whole(Format::Double, n)
}

/// The constant `n / 10`.
pub open spec fn tenths(n: nat) -> Value {
    fraction(Format::Double, n, 10)
}

/// The constant `n`.
pub fn number(n: u64) -> (r: Double)
    ensures
        r@ == num(n as nat),
{
    Double::from_whole(n)
}

/// The constant `n / 10`.
pub fn in_tenths(n: u64) -> (r: Double)
    ensures
        r@ == tenths(n as nat),
{
    Double::from_fraction(n, 10)
}

/// A point; `y` grows upwards.
#[derive(Clone, Copy, Debug)]
pub struct Point {
    pub x: Double,
    pub y: Double,
}

/// A width and a height.
#[derive(Clone, Copy, Debug)]
pub struct Size {
    pub width: Double,
    pub height: Double,
}

/// A rectangle with its lower left corner and its size.
#[derive(Clone, Copy, Debug)]
pub struct Rect {
    pub origin: Point,
    pub size: Size,
}

/// What a `Point` stands for.
pub struct PointView {
    pub x: Value,
    pub y: Value,
}

/// What a `Rect` stands for.
pub struct RectView {
    pub x: Value,
    pub y: Value,
    pub width: Value,
    pub height: Value,
}

impl Point {
    pub open spec fn view(&self) -> PointView {
        PointView { x: self.x@, y: self.y@ }
    }

    pub fn new(x: Double, y: Double) -> (p: Point)
        ensures
            p == (Point { x, y }),
    {
        Point { x, y }
    }
}

impl Rect {
    pub open spec fn view(&self) -> RectView {
        RectView {
            x: self.origin.x@,
            y: self.origin.y@,
            width: self.size.width@,
            height: self.size.height@,
        }
    }

    pub fn new(x: Double, y: Double, width: Double, height: Double) -> (r: Rect)
        ensures
            r == (Rect { origin: Point { x, y }, size: Size { width, height } }),
    {
        Rect { origin: Point { x, y }, size: Size { width, height } }
    }
}

/// A rectangle made smaller on all sides, by `x` left and right and by `y` below
/// and above, but not below a size of zero.
pub open spec fn inset(rect: RectView, x: Value, y: Value) -> RectView {
    RectView {
        x: plus(rect.x, x),
        y: plus(rect.y, y),
        width: larger(minus(rect.width, times(x, num(2))), num(0)),
        height: larger(minus(rect.height, times(y, num(2))), num(0)),
    }
}

/// Makes a rectangle smaller on all sides.
pub fn inset_rect(rect: Rect, x: Double, y: Double) -> (r: Rect)
    ensures
        r@ == inset(rect@, x@, y@),
{
    let two = number(2);
    let zero = number(0);
    Rect::new(
        rect.origin.x.plus(x),
        rect.origin.y.plus(y),
        rect.size.width.minus(x.times(two)).max(zero),
        rect.size.height.minus(y.times(two)).max(zero),
    )
}

/// Where the items of the menu bar lie.
#[derive(Clone, Copy, Debug)]
pub struct MenuBarItemRects {
    pub panel: Rect,
    pub cpu: Rect,
    pub memory: Rect,
    pub network: Rect,
    pub temperature: Rect,
}

/// The panel inside the view's bounds.
pub open spec fn panel_of(bounds: RectView) -> RectView {
    inset(bounds, num(1), num(2))
}

/// An item of the given left edge and width, four points inside the panel below
/// and above.
pub open spec fn item(panel: RectView, x: Value, width: nat) -> RectView {
    RectView {
        x,
        y: plus(panel.y, num(4)),
        width: num(width),
        height: minus(panel.height, num(8)),
    }
}

/// The left edge of the item seven points to the right of `left`.
pub open spec fn next_edge(left: RectView) -> Value {
    plus(plus(left.x, left.width), num(7))
}

/// Where the processor's bars lie.
pub open spec fn cpu_item(bounds: RectView) -> RectView {
    let panel = panel_of(bounds);
    item(panel, plus(panel.x, num(5)), 25)
}

/// Where the memory's meter lies.
pub open spec fn memory_item(bounds: RectView) -> RectView {
    item(panel_of(bounds), next_edge(cpu_item(bounds)), 18)
}

/// Where the network's line lies.
pub open spec fn network_item(bounds: RectView) -> RectView {
    item(panel_of(bounds), next_edge(memory_item(bounds)), 43)
}

/// Where the temperature's gauge lies.
pub open spec fn temperature_item(bounds: RectView) -> RectView {
    item(panel_of(bounds), next_edge(network_item(bounds)), 21)
}

fn item_rect(panel: Rect, x: Double, width: u64) -> (r: Rect)
    ensures
        r@ == item(panel@, x@, width as nat),
{
    Rect::new(
        x,
        panel.origin.y.plus(number(4)),
        number(width),
        panel.size.height.minus(number(8)),
    )
}

fn edge_right_of(left: Rect) -> (x: Double)
    ensures
        x@ == next_edge(left@),
{
    left.origin.x.plus(left.size.width).plus(number(7))
}

/// The places of the four items, from left to right.
pub fn menu_bar_item_rects(bounds: Rect) -> (rects: MenuBarItemRects)
    ensures
        rects.panel@ == panel_of(bounds@),
        rects.cpu@ == cpu_item(bounds@),
        rects.memory@ == memory_item(bounds@),
        rects.network@ == network_item(bounds@),
        rects.temperature@ == temperature_item(bounds@),
{
    let panel = inset_rect(bounds, number(1), number(2));
    let cpu = item_rect(panel, panel.origin.x.plus(number(5)), 25);
    let memory = item_rect(panel, edge_right_of(cpu), 18);
    let network = item_rect(panel, edge_right_of(memory), 43);
    let temperature = item_rect(panel, edge_right_of(network), 21);
    MenuBarItemRects { panel, cpu, memory, network, temperature }
}

/// The frame of the view in the menu bar: 136 by 22 points.
pub fn menu_bar_frame() -> (frame: Rect)
    ensures
        frame@ == (RectView { x: num(0), y: num(0), width: num(136), height: num(22) }),
{
    Rect::new(number(0), number(0), number(136), number(22))
}

/// The frame of the popover's content: 360 by 240 points.
pub fn content_frame() -> (frame: Rect)
    ensures
        frame@ == (RectView { x: num(0), y: num(0), width: num(360), height: num(240) }),
{
    Rect::new(number(0), number(0), number(360), number(240))
}

} // verus!
