//! The two views: the one in the menu bar and the canvas of the popover.

use std::sync::Arc;

use parking_lot::Mutex;
use triple_buffer::Output;
use vstd::prelude::*;

use crate::draw::{
    activity_sparklines, draw_activity_sparklines, drawing, memory_ratio_value, memory_share,
    DrawOp,
};
use crate::float::{Double, Single};
pub use crate::geometry::menu_bar_frame;
use crate::geometry::{
    cpu_item, memory_item, menu_bar_item_rects, minus, network_item, temperature_item, Point,
    PointView, Rect, RectView,
};
use crate::gpu::{
    monitor_panel, needs_resize, resized, FrameInput, GpuEngine, GpuInitError, PointerEvent,
    SurfaceStage,
};
use crate::telemetry::{delivered, latest_frame, TelemetryFrame, TelemetryPipe};
use crate::text::{decimal, no_places, one_place, push_decimal, push_rate, rate_text};
use crate::value::{converted, product, truncated, whole, Format};

verus! {

/// The item of the menu bar that a tooltip explains.
#[derive(Clone, Copy, PartialEq, Eq, Structural, Debug)]
pub enum TooltipMetric {
    Cpu,
    Memory,
    Network,
    Temperature,
}

impl TooltipMetric {
    /// The number that stands for the item in a tooltip's user data.
    pub open spec fn tag(self) -> usize {
        match self {
            TooltipMetric::Cpu => 1,
            TooltipMetric::Memory => 2,
            TooltipMetric::Network => 3,
            TooltipMetric::Temperature => 4,
        }
    }

    /// The user data of the item's tooltip.
    pub fn to_data(self) -> (data: usize)
        ensures
            data == self.tag(),
    {
        match self {
            TooltipMetric::Cpu => 1,
            TooltipMetric::Memory => 2,
            TooltipMetric::Network => 3,
            TooltipMetric::Temperature => 4,
        }
    }
}

/// The item that a tooltip's user data stands for; the processor where it is no
/// item's number.
pub open spec fn metric_of(data: usize) -> TooltipMetric {
    match data {
        2 => TooltipMetric::Memory,
        3 => TooltipMetric::Network,
        4 => TooltipMetric::Temperature,
        _ => TooltipMetric::Cpu,
    }
}

/// Finds the item of a tooltip's user data.
pub fn tooltip_metric_from_data(data: usize) -> (metric: TooltipMetric)
    ensures
        metric == metric_of(data),
{
    match data {
        1 => TooltipMetric::Cpu,
        2 => TooltipMetric::Memory,
        3 => TooltipMetric::Network,
        4 => TooltipMetric::Temperature,
        _ => TooltipMetric::Cpu,
    }
}

/// What the tooltip of an item says.
pub open spec fn tooltip(metric: TooltipMetric, frame: TelemetryFrame) -> Seq<char> {
    match metric {
        TooltipMetric::Cpu => "CPU "@ + one_place(frame.cpu_total@) + "%"@,
        TooltipMetric::Memory => "Memory "@ + decimal(frame.mem_used_mb as nat) + " MB / "@
            + decimal(frame.mem_total_mb as nat) + " MB ("@ + no_places(
            product(
                Format::Single,
                memory_share(frame.mem_used_mb, frame.mem_total_mb),
                whole(Format::Single, 100),
            ),
        ) + "%)"@,
        TooltipMetric::Network => "Network in "@ + rate_text(frame.net_in_bytes_sec) + "  out "@
            + rate_text(frame.net_out_bytes_sec),
        TooltipMetric::Temperature => "Temperature "@ + one_place(frame.temp_celsius@) + " C"@,
    }
}

/// Writes the tooltip of an item.
pub fn tooltip_text(metric: TooltipMetric, frame: &TelemetryFrame) -> (text: String)
    ensures
        text@ == tooltip(metric, *frame),
{
    let mut text = String::new();
    match metric {
        TooltipMetric::Cpu => {
            text.append("CPU ");
            frame.cpu_total.push_one_place(&mut text);
            text.append("%");
        },
        TooltipMetric::Memory => {
            text.append("Memory ");
            push_decimal(&mut text, frame.mem_used_mb as u128);
            text.append(" MB / ");
            push_decimal(&mut text, frame.mem_total_mb as u128);
            text.append(" MB (");
            memory_ratio_value(frame).times(Single::from_whole(100)).push_no_places(&mut text);
            text.append("%)");
        },
        TooltipMetric::Network => {
            text.append("Network in ");
            push_rate(&mut text, frame.net_in_bytes_sec);
            text.append("  out ");
            push_rate(&mut text, frame.net_out_bytes_sec);
        },
        TooltipMetric::Temperature => {
            text.append("Temperature ");
            frame.temp_celsius.push_one_place(&mut text);
            text.append(" C");
        },
    }
    assert(text@ =~= tooltip(metric, *frame));
    text
}

/// A rate as the tooltips write it.
pub fn compact_bytes_per_second(bytes_per_sec: u64) -> (text: String)
    ensures
        text@ == rate_text(bytes_per_sec),
{
    let mut text = String::new();
    push_rate(&mut text, bytes_per_sec);
    assert(text@ =~= rate_text(bytes_per_sec));
    text
}

/// A place in the view that shows a tooltip, and the tooltip's user data.
#[derive(Clone, Copy, Debug)]
pub struct TooltipRect {
    pub rect: Rect,
    pub data: usize,
}

/// The places of the tooltips and their user data.
pub open spec fn tooltip_places(bounds: RectView) -> Seq<(RectView, usize)> {
    seq![
        (cpu_item(bounds), TooltipMetric::Cpu.tag()),
        (memory_item(bounds), TooltipMetric::Memory.tag()),
        (network_item(bounds), TooltipMetric::Network.tag()),
        (temperature_item(bounds), TooltipMetric::Temperature.tag()),
    ]
}

/// What the places in a list stand for.
pub open spec fn places(rects: Seq<TooltipRect>) -> Seq<(RectView, usize)> {
    rects.map_values(|r: TooltipRect| (r.rect@, r.data))
}

fn add_tooltip_rect(rect: Rect, metric: TooltipMetric) -> (r: TooltipRect)
    ensures
        r == (TooltipRect { rect, data: metric.tag() }),
{
    TooltipRect { rect, data: metric.to_data() }
}

/// The places of the tooltips: one over each item.
pub fn install_tooltips(bounds: Rect) -> (rects: Vec<TooltipRect>)
    ensures
        places(rects@) == tooltip_places(bounds@),
{
    let items = menu_bar_item_rects(bounds);
    let mut rects: Vec<TooltipRect> = Vec::new();
    rects.push(add_tooltip_rect(items.cpu, TooltipMetric::Cpu));
    rects.push(add_tooltip_rect(items.memory, TooltipMetric::Memory));
    rects.push(add_tooltip_rect(items.network, TooltipMetric::Network));
    rects.push(add_tooltip_rect(items.temperature, TooltipMetric::Temperature));
    assert(places(rects@) =~= tooltip_places(bounds@));
    rects
}

/// What the menu bar view holds; `P` is a handle of the popover.
pub struct MenuBarIvars<P> {
    pub telemetry: Arc<Mutex<Output<TelemetryFrame>>>,
    pub popover: Option<P>,
}

/// The edge of a rectangle that a popover is attached to.
#[derive(Clone, Copy, PartialEq, Eq, Structural, Debug)]
pub enum RectEdge {
    MinX,
    MinY,
    MaxX,
    MaxY,
}

/// A popover that is to be shown.
pub struct PopoverRequest<'a, P> {
    pub popover: &'a P,
    pub rect: Rect,
    pub edge: RectEdge,
}

/// The view in the menu bar.
pub struct AetherMenuBarView<P> {
    pub ivars: MenuBarIvars<P>,
    pub tooltips: Vec<TooltipRect>,
}

impl<P> AetherMenuBarView<P> {
    /// A view with the given bounds: without a popover, with its tooltips.
    pub fn new(bounds: Rect, telemetry: Arc<Mutex<Output<TelemetryFrame>>>) -> (view: Self)
        ensures
            view.ivars.telemetry == telemetry,
            view.ivars.popover is None,
            places(view.tooltips@) == tooltip_places(bounds@),
    {
        AetherMenuBarView {
            ivars: MenuBarIvars { telemetry, popover: None },
            tooltips: install_tooltips(bounds),
        }
    }

    /// Sets the popover that a click shows.
    pub fn attach_popover(&mut self, popover: P)
        ensures
            *final(self) == (AetherMenuBarView {
                ivars: MenuBarIvars {
                    popover: Some(popover),
                    telemetry: old(self).ivars.telemetry,
                },
                tooltips: old(self).tooltips,
            }),
    {
        self.ivars.popover = Some(popover);
    }

    /// What the view draws for the newest frame. A caller that holds the
    /// producer's side knows which one that is.
    pub fn draw_latest(&self, bounds: Rect, pipe: Option<&TelemetryPipe>) -> (ops: Vec<DrawOp>)
        ensures
            exists|frame: TelemetryFrame| #[trigger]
                delivered(*self.ivars.telemetry).contains(frame) && drawing(ops@)
                    == activity_sparklines(bounds@, frame),
            pipe matches Some(p) ==> p.feeds(self.ivars.telemetry) ==> drawing(ops@)
                == activity_sparklines(bounds@, p.frames().last()),
    {
        let frame = latest_frame(&self.ivars.telemetry, pipe);
        draw_activity_sparklines(bounds, &frame)
    }

    /// What the view draws for the newest frame.
    pub fn draw_rect(&self, bounds: Rect) -> (ops: Vec<DrawOp>)
        ensures
            exists|frame: TelemetryFrame| #[trigger]
                delivered(*self.ivars.telemetry).contains(frame) && drawing(ops@)
                    == activity_sparklines(bounds@, frame),
    {
        self.draw_latest(bounds, None)
    }

    /// What a click shows: the popover, below the view, once there is one.
    pub fn mouse_down(&self, bounds: Rect) -> (request: Option<PopoverRequest<'_, P>>)
        ensures
            match self.ivars.popover {
                Some(popover) => request matches Some(r) && *r.popover == popover && r.rect
                    == bounds && r.edge == RectEdge::MinY,
                None => request is None,
            },
    {
        match &self.ivars.popover {
            Some(popover) => Some(PopoverRequest { popover, rect: bounds, edge: RectEdge::MinY }),
            None => None,
        }
    }

    /// The tooltip for its user data, for the newest frame. A caller that holds
    /// the producer's side knows which one that is.
    pub fn latest_tool_tip(&self, data: usize, pipe: Option<&TelemetryPipe>) -> (text: String)
        ensures
            exists|frame: TelemetryFrame| #[trigger]
                delivered(*self.ivars.telemetry).contains(frame) && text@ == tooltip(
                    metric_of(data),
                    frame,
                ),
            pipe matches Some(p) ==> p.feeds(self.ivars.telemetry) ==> text@ == tooltip(
                metric_of(data),
                p.frames().last(),
            ),
    {
        let frame = latest_frame(&self.ivars.telemetry, pipe);
        tooltip_text(tooltip_metric_from_data(data), &frame)
    }

    /// The tooltip for its user data, for the newest frame.
    pub fn view_string_for_tool_tip(&self, data: usize) -> (text: String)
        ensures
            exists|frame: TelemetryFrame| #[trigger]
                delivered(*self.ivars.telemetry).contains(frame) && text@ == tooltip(
                    metric_of(data),
                    frame,
                ),
    {
        self.latest_tool_tip(data, None)
    }
}

/// What the canvas holds; `F` is the graphics interface's texture format.
pub struct CanvasIvars<F> {
    pub gpu_engine: Option<GpuEngine<F>>,
    pub pending_events: Vec<PointerEvent>,
    pub telemetry: Arc<Mutex<Output<TelemetryFrame>>>,
}

/// A frame that is to be rendered, and whether the surface is to be set up anew
/// before.
pub struct RenderRequest {
    pub reconfigure: bool,
    pub input: FrameInput,
}

/// The canvas of the popover.
pub struct AetherCanvasView<F> {
    pub ivars: CanvasIvars<F>,
}

/// A point of the view, counted from the top.
pub open spec fn flipped(point: PointView, bounds: RectView) -> PointView {
    PointView { x: point.x, y: minus(bounds.height, point.y) }
}

/// A point of the view, counted from the top.
pub fn convert_point(point: Point, bounds: Rect) -> (r: Point)
    ensures
        r@ == flipped(point@, bounds@),
{
    Point::new(point.x, bounds.size.height.minus(point.y))
}

/// The whole points that the bounds are wide and high.
pub fn pixel_size(bounds: Rect) -> (size: (u32, u32))
    ensures
        size.0 == truncated(Format::Double, bounds@.width),
        size.1 == truncated(Format::Double, bounds@.height),
{
    (bounds.size.width.truncate(), bounds.size.height.truncate())
}

/// Whether an event is a press or a release at a point of the view.
pub open spec fn is_pointer_event(
    event: PointerEvent,
    point: PointView,
    bounds: RectView,
    pressed: bool,
) -> bool {
    let p = flipped(point, bounds);
    &&& event.x@ == converted(Format::Double, Format::Single, p.x)
    &&& event.y@ == converted(Format::Double, Format::Single, p.y)
    &&& event.pressed == pressed
}

/// The event of a press or a release at a point of the view.
pub fn pointer_event(point: Point, bounds: Rect, pressed: bool) -> (event: PointerEvent)
    ensures
        is_pointer_event(event, point@, bounds@, pressed),
{
    let p = convert_point(point, bounds);
    PointerEvent { x: p.x.narrow(), y: p.y.narrow(), pressed }
}

/// What is printed where rendering failed.
pub open spec fn render_failure(error: Seq<char>) -> Seq<char> {
    "AetherCanvasView render failed: "@ + error
}

/// Writes what is printed where rendering failed.
pub fn render_failed(error: &str) -> (text: String)
    ensures
        text@ == render_failure(error@),
{
    let mut text = String::from_str("AetherCanvasView render failed: ");
    text.append(error);
    text
}

impl<F> AetherCanvasView<F> {
    /// A canvas without an engine and without events.
    pub fn new(telemetry: Arc<Mutex<Output<TelemetryFrame>>>) -> (view: Self)
        ensures
            view.ivars.gpu_engine is None,
            view.ivars.pending_events@.len() == 0,
            view.ivars.telemetry == telemetry,
    {
        AetherCanvasView {
            ivars: CanvasIvars { gpu_engine: None, pending_events: Vec::new(), telemetry },
        }
    }

    /// Keeps an event until the next frame is rendered.
    pub fn dispatch_egui_event(&mut self, event: PointerEvent)
        ensures
            final(self).ivars.gpu_engine == old(self).ivars.gpu_engine,
            final(self).ivars.telemetry == old(self).ivars.telemetry,
            final(self).ivars.pending_events@ == old(self).ivars.pending_events@.push(event),
    {
        self.ivars.pending_events.push(event);
    }

    /// Whether the canvas went from `self` to `after` by rendering `frame` with
    /// the events in `events`, and `request` is what is to be rendered. Without
    /// an engine nothing happens, so that no event is lost; with one the engine
    /// takes the size of the bounds over and gets all events.
    pub open spec fn shows(
        self,
        frame: TelemetryFrame,
        events: Seq<PointerEvent>,
        bounds: RectView,
        after: Self,
        request: Option<RenderRequest>,
    ) -> bool {
        let width = truncated(Format::Double, bounds.width);
        let height = truncated(Format::Double, bounds.height);
        &&& after.ivars.telemetry == self.ivars.telemetry
        &&& match self.ivars.gpu_engine {
            None => {
                &&& request is None
                &&& after.ivars.gpu_engine is None
                &&& after.ivars.pending_events@ == events
            },
            Some(before) => {
                let config = resized(before.configuration(), width, height);
                &&& after.ivars.pending_events@.len() == 0
                &&& after.ivars.gpu_engine matches Some(engine)
                &&& engine.configuration() == config
                &&& request matches Some(r)
                &&& r.reconfigure == needs_resize(before.configuration(), width, height)
                &&& r.input.events@ == events
                &&& r.input.screen_width@ == whole(Format::Single, config.width as nat)
                &&& r.input.screen_height@ == whole(Format::Single, config.height as nat)
                &&& r.input.panel@ == monitor_panel(frame)
            },
        }
    }

    /// Whether the canvas went from `self` to `after` by rendering a frame that
    /// was read.
    pub open spec fn renders(
        self,
        events: Seq<PointerEvent>,
        bounds: RectView,
        after: Self,
        request: Option<RenderRequest>,
    ) -> bool {
        exists|frame: TelemetryFrame| #[trigger]
            delivered(*self.ivars.telemetry).contains(frame) && self.shows(
                frame,
                events,
                bounds,
                after,
                request,
            )
    }

    /// What is to be rendered for a frame.
    pub fn render_frame(&mut self, frame: &TelemetryFrame, bounds: Rect) -> (request: Option<
        RenderRequest,
    >)
        ensures
            old(self).shows(
                *frame,
                old(self).ivars.pending_events@,
                bounds@,
                *final(self),
                request,
            ),
    {
        let (width, height) = pixel_size(bounds);
        let mut slot: Option<GpuEngine<F>> = None;
        std::mem::swap(&mut slot, &mut self.ivars.gpu_engine);
        match slot {
            None => None,
            Some(mut engine) => {
                let mut events: Vec<PointerEvent> = Vec::new();
                std::mem::swap(&mut events, &mut self.ivars.pending_events);
                let reconfigure = engine.resize(width, height);
                let input = engine.render(frame, events);
                self.ivars.gpu_engine = Some(engine);
                Some(RenderRequest { reconfigure, input })
            },
        }
    }

    /// What is to be rendered for the newest frame. A caller that holds the
    /// producer's side knows which one that is.
    pub fn render_latest(&mut self, bounds: Rect, pipe: Option<&TelemetryPipe>) -> (request: Option<
        RenderRequest,
    >)
        ensures
            old(self).renders(
                old(self).ivars.pending_events@,
                bounds@,
                *final(self),
                request,
            ),
            pipe matches Some(p) ==> p.feeds(old(self).ivars.telemetry) ==> old(self).shows(
                p.frames().last(),
                old(self).ivars.pending_events@,
                bounds@,
                *final(self),
                request,
            ),
    {
        let frame = latest_frame(&self.ivars.telemetry, pipe);
        self.render_frame(&frame, bounds)
    }

    /// What is to be rendered for the newest frame.
    pub fn render_current_frame(&mut self, bounds: Rect) -> (request: Option<RenderRequest>)
        ensures
            old(self).renders(
                old(self).ivars.pending_events@,
                bounds@,
                *final(self),
                request,
            ),
    {
        self.render_latest(bounds, None)
    }

    /// The message to print once a frame was rendered: none where that went
    /// well. Whatever came of it, the canvas stays as it is: the engine is kept
    /// and the events that were handed over are not put back.
    pub fn frame_rendered(&self, outcome: Result<(), String>) -> (message: Option<String>)
        ensures
            match outcome {
                Ok(_) => message is None,
                Err(error) => message matches Some(text) && text@ == render_failure(error@),
            },
    {
        match outcome {
            Ok(_) => None,
            Err(error) => Some(render_failed(error.as_str())),
        }
    }

    /// Takes a press in and says what is to be rendered.
    pub fn mouse_down(&mut self, point: Point, bounds: Rect) -> (request: Option<RenderRequest>)
        ensures
            exists|event: PointerEvent| #[trigger]
                is_pointer_event(event, point@, bounds@, true) && old(self).renders(
                    old(self).ivars.pending_events@.push(event),
                    bounds@,
                    *final(self),
                    request,
                ),
    {
        let event = pointer_event(point, bounds, true);
        self.dispatch_egui_event(event);
        self.render_current_frame(bounds)
    }

    /// Takes a release in and says what is to be rendered.
    pub fn mouse_up(&mut self, point: Point, bounds: Rect) -> (request: Option<RenderRequest>)
        ensures
            exists|event: PointerEvent| #[trigger]
                is_pointer_event(event, point@, bounds@, false) && old(self).renders(
                    old(self).ivars.pending_events@.push(event),
                    bounds@,
                    *final(self),
                    request,
                ),
    {
        let event = pointer_event(point, bounds, false);
        self.dispatch_egui_event(event);
        self.render_current_frame(bounds)
    }

    /// Begins to set up an engine once the canvas is in a window; without a layer
    /// there is nothing to set up.
    pub fn view_did_move_to_window(&self, has_layer: bool, bounds: Rect) -> (stage: Option<
        SurfaceStage,
    >)
        ensures
            stage == if has_layer {
                Some(
                    SurfaceStage {
                        width: truncated(Format::Double, bounds@.width),
                        height: truncated(Format::Double, bounds@.height),
                    },
                )
            } else {
                None
            },
    {
        if !has_layer {
            return None;
        }
        let (width, height) = pixel_size(bounds);
        Some(GpuEngine::<F>::new_from_metal_layer(width, height))
    }

    /// Ends setting up an engine: with one the current frame is to be rendered,
    /// else there is a message to print and nothing changes.
    pub fn engine_created(
        &mut self,
        engine: Result<GpuEngine<F>, GpuInitError>,
        bounds: Rect,
    ) -> (outcome: Result<Option<RenderRequest>, String>)
        ensures
            match engine {
                Ok(e) => outcome matches Ok(request) && (AetherCanvasView {
                    ivars: CanvasIvars {
                        gpu_engine: Some(e),
                        pending_events: old(self).ivars.pending_events,
                        telemetry: old(self).ivars.telemetry,
                    },
                }).renders(old(self).ivars.pending_events@, bounds@, *final(self), request),
                Err(error) => {
                    &&& outcome matches Err(text)
                    &&& text@ == "AetherCanvasView GPU init failed: "@ + error.text()
                    &&& *final(self) == *old(self)
                },
            },
    {
        match engine {
            Ok(e) => {
                self.ivars.gpu_engine = Some(e);
                Ok(self.render_current_frame(bounds))
            },
            Err(error) => {
                let mut text = String::from_str("AetherCanvasView GPU init failed: ");
                text.append(error.message().as_str());
                Err(text)
            },
        }
    }
}

/// A view that is to be drawn again, with its address.
#[derive(Clone, Copy, PartialEq, Eq, Structural, Debug)]
pub enum Redraw {
    MenuBar(usize),
    Canvas(usize),
}

/// The views to be drawn again after a frame was handed over: those that exist,
/// the one in the menu bar first. A view that does not exist yet has the address
/// zero.
pub open spec fn redraws(menu_view: usize, canvas_view: usize) -> Seq<Redraw> {
    (if menu_view != 0 {
        seq![Redraw::MenuBar(menu_view)]
    } else {
        seq![]
    }) + (if canvas_view != 0 {
        seq![Redraw::Canvas(canvas_view)]
    } else {
        seq![]
    })
}

/// Lists the views to be drawn again.
pub fn redraw_requests(menu_view: usize, canvas_view: usize) -> (requests: Vec<Redraw>)
    ensures
        requests@ == redraws(menu_view, canvas_view),
{
    let mut requests: Vec<Redraw> = Vec::new();
    if menu_view != 0 {
        requests.push(Redraw::MenuBar(menu_view));
    }
    if canvas_view != 0 {
        requests.push(Redraw::Canvas(canvas_view));
    }
    assert(requests@ =~= redraws(menu_view, canvas_view));
    requests
}

} // verus!
