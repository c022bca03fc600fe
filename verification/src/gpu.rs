//! The popover's panel and the steps that put it on the screen.

use vstd::prelude::*;

use crate::draw::{memory_ratio_value, memory_share, thousandths, Color};
use crate::float::Single;
use crate::telemetry::TelemetryFrame;
use crate::text::{gibibytes_text, one_place, pad, padded, push_gibibytes, push_rate, rate_text};
use crate::value::{at_least, clamped, difference, greater_of, quotient, whole, Format, Value};

verus! {

/// Why the surface could not be bound to its layer. The texts are those of the
/// errors that the graphics interface reported.
#[derive(Debug)]
pub enum GpuInitError {
    SurfaceCreation(String),
    NoAdapter,
    DeviceRequest(String),
}

impl GpuInitError {
    /// What the error says.
    pub open spec fn text(&self) -> Seq<char> {
        match *self {
            GpuInitError::SurfaceCreation(error) => "failed to bind Metal surface: "@ + error@,
            GpuInitError::NoAdapter => "no Metal adapter found"@,
            GpuInitError::DeviceRequest(error) => "Metal device request failed: "@ + error@,
        }
    }

    /// Writes out what the error says.
    pub fn message(&self) -> (text: String)
        ensures
            text@ == self.text(),
    {
        let mut text = String::new();
        match self {
            GpuInitError::SurfaceCreation(error) => {
                text.append("failed to bind Metal surface: ");
                text.append(error.as_str());
            },
            GpuInitError::NoAdapter => {
                text.append("no Metal adapter found");
            },
            GpuInitError::DeviceRequest(error) => {
                text.append("Metal device request failed: ");
                text.append(error.as_str());
            },
        }
        assert(text@ =~= self.text());
        text
    }
}

/// How the surface is set up; `F` is the graphics interface's texture format.
#[derive(Debug)]
pub struct SurfaceConfiguration<F> {
    pub format: F,
    pub width: u32,
    pub height: u32,
    /// Frames wait for the display, first in, first out.
    pub fifo: bool,
    pub desired_maximum_frame_latency: u32,
    /// Colors are to be multiplied by their alpha when they are shown.
    pub post_multiplied_alpha: bool,
}

/// A dimension that a surface can have: at least one.
pub open spec fn dimension(n: u32) -> u32 {
    if n == 0 {
        1
    } else {
        n
    }
}

fn at_least_one(n: u32) -> (r: u32)
    ensures
        r == dimension(n),
{
    if n == 0 {
        1
    } else {
        n
    }
}

/// The set-up of a surface with the given size.
pub open spec fn configuration_for<F>(format: F, width: u32, height: u32) -> SurfaceConfiguration<
    F,
> {
    SurfaceConfiguration {
        format,
        width: dimension(width),
        height: dimension(height),
        fifo: true,
        desired_maximum_frame_latency: 2,
        post_multiplied_alpha: true,
    }
}

/// Setting up begins: the surface is to be created from the layer.
#[derive(Clone, Copy, Debug)]
pub struct SurfaceStage {
    pub width: u32,
    pub height: u32,
}

/// The surface is there: an adapter is to be requested.
#[derive(Clone, Copy, Debug)]
pub struct AdapterStage {
    pub width: u32,
    pub height: u32,
    /// Ask for an adapter that saves power.
    pub low_power: bool,
    /// Insist on an adapter in software.
    pub force_fallback: bool,
}

/// The adapter is there: a device is to be requested.
#[derive(Clone, Copy, Debug)]
pub struct DeviceStage {
    pub width: u32,
    pub height: u32,
}

impl SurfaceStage {
    /// Goes on with what creating the surface gave.
    pub fn surface_created(self, surface: Result<(), String>) -> (next: Result<
        AdapterStage,
        GpuInitError,
    >)
        ensures
            next == match surface {
                Ok(_) => Ok::<AdapterStage, GpuInitError>(
                    AdapterStage {
                        width: self.width,
                        height: self.height,
                        low_power: true,
                        force_fallback: false,
                    },
                ),
                Err(error) => Err(GpuInitError::SurfaceCreation(error)),
            },
    {
        match surface {
            Ok(_) => Ok(
                AdapterStage {
                    width: self.width,
                    height: self.height,
                    low_power: true,
                    force_fallback: false,
                },
            ),
            Err(error) => Err(GpuInitError::SurfaceCreation(error)),
        }
    }
}

impl AdapterStage {
    /// Goes on with whether there was an adapter.
    pub fn adapter_requested(self, found: bool) -> (next: Result<DeviceStage, GpuInitError>)
        ensures
            next == if found {
                Ok::<DeviceStage, GpuInitError>(
                    DeviceStage { width: self.width, height: self.height },
                )
            } else {
                Err(GpuInitError::NoAdapter)
            },
    {
        if found {
            Ok(DeviceStage { width: self.width, height: self.height })
        } else {
            Err(GpuInitError::NoAdapter)
        }
    }
}

impl DeviceStage {
    /// Ends with what requesting the device gave: the formats that the surface
    /// can have, of which there is at least one and the first is taken.
    pub fn device_requested<F: Copy>(self, device: Result<Vec<F>, String>) -> (engine: Result<
        GpuEngine<F>,
        GpuInitError,
    >)
        requires
            device matches Ok(formats) ==> formats.len() > 0,
        ensures
            match device {
                Ok(formats) => engine matches Ok(e) && e.configuration() == configuration_for(
                    formats@[0],
                    self.width,
                    self.height,
                ),
                Err(error) => engine == Err::<GpuEngine<F>, GpuInitError>(
                    GpuInitError::DeviceRequest(error),
                ),
            },
    {
        match device {
            Ok(formats) => Ok(
                GpuEngine {
                    surface_config: SurfaceConfiguration {
                        format: formats[0],
                        width: at_least_one(self.width),
                        height: at_least_one(self.height),
                        fifo: true,
                        desired_maximum_frame_latency: 2,
                        post_multiplied_alpha: true,
                    },
                },
            ),
            Err(error) => Err(GpuInitError::DeviceRequest(error)),
        }
    }
}

/// A pointer button that was pressed or released on the canvas.
#[derive(Clone, Copy, Debug)]
pub struct PointerEvent {
    pub x: Single,
    pub y: Single,
    pub pressed: bool,
}

/// What the panel is made from: the size of the screen, the pointer's events and
/// the panel's content.
#[derive(Debug)]
pub struct FrameInput {
    pub screen_width: Single,
    pub screen_height: Single,
    pub events: Vec<PointerEvent>,
    pub panel: MonitorPanel,
}

/// One step of showing a frame.
#[derive(Clone, Copy, PartialEq, Eq, Structural, Debug)]
pub enum RenderStep {
    /// Turn the panel's shapes into triangles.
    Tessellate,
    /// Upload the changed texture at this place.
    UpdateTexture(usize),
    /// Upload vertices and indices.
    UpdateBuffers,
    /// Clear the surface and draw the triangles.
    DrawPass,
    /// Give up the unused texture at this place.
    FreeTexture(usize),
    /// Submit the commands that uploading made.
    SubmitBuffers,
    /// Submit the commands that draw.
    SubmitPass,
    /// Show the surface.
    Present,
}

/// How a frame is shown.
#[derive(Debug)]
pub struct RenderPlan {
    pub width: u32,
    pub height: u32,
    pub pixels_per_point: Single,
    pub clear_color: Color,
    pub steps: Vec<RenderStep>,
}

/// The steps that show a frame with `changed` changed and `unused` unused
/// textures.
pub open spec fn render_steps(changed: nat, unused: nat) -> Seq<RenderStep> {
    seq![RenderStep::Tessellate] + Seq::new(
        changed,
        |i: int| RenderStep::UpdateTexture(i as usize),
    ) + seq![RenderStep::UpdateBuffers, RenderStep::DrawPass] + Seq::new(
        unused,
        |i: int| RenderStep::FreeTexture(i as usize),
    ) + seq![RenderStep::SubmitBuffers, RenderStep::SubmitPass, RenderStep::Present]
}

fn plan_steps(changed: usize, unused: usize) -> (steps: Vec<RenderStep>)
    ensures
        steps@ == render_steps(changed as nat, unused as nat),
{
    let mut steps: Vec<RenderStep> = Vec::new();
    steps.push(RenderStep::Tessellate);
    let ghost first = steps@;
    let mut i: usize = 0;
    while i < changed
        invariant
            i <= changed,
            steps@ == first + Seq::new(i as nat, |j: int| RenderStep::UpdateTexture(j as usize)),
        decreases changed - i,
    {
        steps.push(RenderStep::UpdateTexture(i));
        i = i + 1;
        assert(steps@ =~= first + Seq::new(
            i as nat,
            |j: int| RenderStep::UpdateTexture(j as usize),
        ));
    }
    steps.push(RenderStep::UpdateBuffers);
    steps.push(RenderStep::DrawPass);
    let ghost second = steps@;
    let mut k: usize = 0;
    while k < unused
        invariant
            k <= unused,
            steps@ == second + Seq::new(k as nat, |j: int| RenderStep::FreeTexture(j as usize)),
        decreases unused - k,
    {
        steps.push(RenderStep::FreeTexture(k));
        k = k + 1;
        assert(steps@ =~= second + Seq::new(
            k as nat,
            |j: int| RenderStep::FreeTexture(j as usize),
        ));
    }
    steps.push(RenderStep::SubmitBuffers);
    steps.push(RenderStep::SubmitPass);
    steps.push(RenderStep::Present);
    assert(steps@ =~= render_steps(changed as nat, unused as nat));
    steps
}

/// The renderer of a surface.
#[derive(Debug)]
pub struct GpuEngine<F> {
    surface_config: SurfaceConfiguration<F>,
}

impl<F> GpuEngine<F> {
    /// How the surface is set up.
    pub closed spec fn configuration(&self) -> SurfaceConfiguration<F> {
        self.surface_config
    }

    /// The surface is never empty.
    #[verifier::type_invariant]
    spec fn has_extent(&self) -> bool {
        self.surface_config.width > 0 && self.surface_config.height > 0
    }

    /// Begins to set up a surface of the given size on a layer.
    pub fn new_from_metal_layer(width: u32, height: u32) -> (stage: SurfaceStage)
        ensures
            stage == (SurfaceStage { width, height }),
    {
        SurfaceStage { width, height }
    }

    /// Takes a new size over and says whether the surface is to be set up anew:
    /// an empty size is ignored, and the same size changes nothing.
    pub fn resize(&mut self, width: u32, height: u32) -> (changed: bool)
        ensures
            changed == needs_resize(old(self).configuration(), width, height),
            final(self).configuration() == resized(old(self).configuration(), width, height),
    {
        proof {
            use_type_invariant(&*self);
        }
        if width == 0 || height == 0 {
            return false;
        }
        if self.surface_config.width == width && self.surface_config.height == height {
            return false;
        }
        self.surface_config.width = width;
        self.surface_config.height = height;
        true
    }

    /// What the panel is made from, for a frame and the events since the last.
    pub fn render(&self, frame: &TelemetryFrame, events: Vec<PointerEvent>) -> (input: FrameInput)
        ensures
            input.screen_width@ == whole(Format::Single, self.configuration().width as nat),
            input.screen_height@ == whole(Format::Single, self.configuration().height as nat),
            self.configuration().width > 0,
            self.configuration().height > 0,
            input.events == events,
            input.panel@ == monitor_panel(*frame),
    {
        proof {
            use_type_invariant(self);
        }
        FrameInput {
            screen_width: Single::from_whole(self.surface_config.width as u64),
            screen_height: Single::from_whole(self.surface_config.height as u64),
            events,
            panel: draw_monitor_panel(frame),
        }
    }

    /// How the frame is shown once the surface's next texture was asked for;
    /// where there was none, that error and nothing is shown.
    pub fn texture_acquired<E>(
        &self,
        texture: Result<(), E>,
        pixels_per_point: Single,
        changed: usize,
        unused: usize,
    ) -> (plan: Result<RenderPlan, E>)
        ensures
            match texture {
                Ok(_) => plan matches Ok(p) && {
                    &&& p.width == self.configuration().width
                    &&& p.height == self.configuration().height
                    &&& p.width > 0
                    &&& p.height > 0
                    &&& p.pixels_per_point == pixels_per_point
                    &&& p.clear_color@ == thousandths(20, 25, 30, 920)
                    &&& p.steps@ == render_steps(changed as nat, unused as nat)
                },
                Err(error) => plan == Err::<RenderPlan, E>(error),
            },
    {
        proof {
            use_type_invariant(self);
        }
        match texture {
            Ok(_) => Ok(
                RenderPlan {
                    width: self.surface_config.width,
                    height: self.surface_config.height,
                    pixels_per_point,
                    clear_color: Color::from_thousandths(20, 25, 30, 920),
                    steps: plan_steps(changed, unused),
                },
            ),
            Err(error) => Err(error),
        }
    }

    /// The set-up of the surface, whose size is never empty.
    pub fn surface_config(&self) -> (config: &SurfaceConfiguration<F>)
        ensures
            *config == self.configuration(),
            config.width > 0,
            config.height > 0,
    {
        proof {
            use_type_invariant(self);
        }
        &self.surface_config
    }
}

/// Whether a new size means that the surface is to be set up anew.
pub open spec fn needs_resize<F>(
    config: SurfaceConfiguration<F>,
    width: u32,
    height: u32,
) -> bool {
    width != 0 && height != 0 && !(config.width == width && config.height == height)
}

/// The set-up after a new size was taken over.
pub open spec fn resized<F>(
    config: SurfaceConfiguration<F>,
    width: u32,
    height: u32,
) -> SurfaceConfiguration<F> {
    if width == 0 || height == 0 {
        config
    } else {
        SurfaceConfiguration { width, height, ..config }
    }
}

/// A color of eight bits per component.
#[derive(Clone, Copy, PartialEq, Eq, Structural, Debug)]
pub struct Rgb {
    pub red: u8,
    pub green: u8,
    pub blue: u8,
}

/// The color of the given components.
pub open spec fn rgb(red: u8, green: u8, blue: u8) -> Rgb {
    Rgb { red, green, blue }
}

/// A text with its size in points.
#[derive(Debug)]
pub struct Label {
    pub text: String,
    pub size: u32,
    pub color: Rgb,
}

/// What a `Label` stands for.
pub struct LabelView {
    pub text: Seq<char>,
    pub size: u32,
    pub color: Rgb,
}

impl Label {
    pub open spec fn view(&self) -> LabelView {
        LabelView { text: self.text@, size: self.size, color: self.color }
    }
}

/// The looks of the panel; lengths are in points.
#[derive(Clone, Copy, PartialEq, Eq, Structural, Debug)]
pub struct PanelStyle {
    pub text: Rgb,
    pub widget_fill: Rgb,
    pub background: Rgb,
    pub item_spacing: u32,
    pub header_space: u32,
    pub header_margin: u32,
    pub caption_gap: u32,
}

/// A cell of a row.
#[derive(Clone, Copy, PartialEq, Eq, Structural, Debug)]
pub enum RowCell {
    /// What is measured.
    Label,
    /// The measured value.
    Value,
    /// The bar, behind a gap.
    Bar,
}

/// The looks of a row; lengths are in points. The cells of label and value are
/// `height` high.
#[derive(Clone, Copy, PartialEq, Eq, Structural, Debug)]
pub struct RowStyle {
    pub fill: Rgb,
    pub border: Rgb,
    pub border_width: u32,
    pub rounding: u32,
    pub margin_x: u32,
    pub margin_y: u32,
    pub height: u32,
    pub label_width: u32,
    pub value_width: u32,
    /// Whether label and value go on in a new line where they lack room.
    pub wrap: bool,
    pub bar_gap: u32,
    pub bar_height: u32,
}

/// How the panel looks.
pub open spec fn panel_style() -> PanelStyle {
    PanelStyle {
        text: rgb(224, 231, 238),
        widget_fill: rgb(18, 21, 25),
        background: rgb(10, 12, 15),
        item_spacing: 6,
        header_space: 8,
        header_margin: 10,
        caption_gap: 2,
    }
}

/// How every row looks.
pub open spec fn row_style() -> RowStyle {
    RowStyle {
        fill: rgb(15, 18, 22),
        border: rgb(37, 43, 50),
        border_width: 1,
        rounding: 4,
        margin_x: 10,
        margin_y: 8,
        height: 18,
        label_width: 48,
        value_width: 168,
        wrap: false,
        bar_gap: 4,
        bar_height: 5,
    }
}

/// The cells of every row, from left to right.
pub open spec fn row_cells() -> Seq<RowCell> {
    seq![RowCell::Label, RowCell::Value, RowCell::Bar]
}

/// A row of the panel: what is measured, its value, and a bar that is filled up
/// to `level`.
#[derive(Debug)]
pub struct MetricRow {
    /// The cells, from left to right.
    pub cells: Vec<RowCell>,
    pub label: Label,
    pub value: Label,
    pub level: Single,
    pub accent: Rgb,
    pub style: RowStyle,
}

/// What a `MetricRow` stands for.
pub struct RowView {
    pub cells: Seq<RowCell>,
    pub label: LabelView,
    pub value: LabelView,
    pub level: Value,
    pub accent: Rgb,
    pub style: RowStyle,
}

impl MetricRow {
    pub open spec fn view(&self) -> RowView {
        RowView {
            cells: self.cells@,
            label: self.label@,
            value: self.value@,
            level: self.level@,
            accent: self.accent,
            style: self.style,
        }
    }
}

/// The row for a label, a value and a ratio.
pub open spec fn row(label: Seq<char>, value: Seq<char>, ratio: Value, accent: Rgb) -> RowView {
    RowView {
        cells: row_cells(),
        label: LabelView { text: label, size: 10, color: rgb(130, 148, 160) },
        value: LabelView { text: value, size: 15, color: rgb(238, 244, 248) },
        level: clamped(
            Format::Single,
            ratio,
            whole(Format::Single, 0),
            whole(Format::Single, 1),
        ),
        accent,
        style: row_style(),
    }
}

/// Makes a row: label, value and bar from left to right, the texts unwrapped. The
/// bar shows the ratio, kept within zero to one.
pub fn metric_row(label: &str, value: String, ratio: Single, accent: Rgb) -> (r: MetricRow)
    ensures
        r@ == row(label@, value@, ratio@, accent),
{
    let mut cells: Vec<RowCell> = Vec::new();
    cells.push(RowCell::Label);
    cells.push(RowCell::Value);
    cells.push(RowCell::Bar);
    assert(cells@ =~= row_cells());
    MetricRow {
        cells,
        label: Label {
            text: String::from_str(label),
            size: 10,
            color: Rgb { red: 130, green: 148, blue: 160 },
        },
        value: Label {
            text: value,
            size: 15,
            color: Rgb { red: 238, green: 244, blue: 248 },
        },
        level: ratio.clamp(Single::from_whole(0), Single::from_whole(1)),
        accent,
        style: RowStyle {
            fill: Rgb { red: 15, green: 18, blue: 22 },
            border: Rgb { red: 37, green: 43, blue: 50 },
            border_width: 1,
            rounding: 4,
            margin_x: 10,
            margin_y: 8,
            height: 18,
            label_width: 48,
            value_width: 168,
            wrap: false,
            bar_gap: 4,
            bar_height: 5,
        },
    }
}

/// The width that a row's bar takes of the room there is.
pub open spec fn bar_room(available: Value) -> Value {
    greater_of(
        Format::Single,
        difference(Format::Single, available, whole(Format::Single, 2)),
        whole(Format::Single, 60),
    )
}

/// The width of a row's bar: two points less than there is room, but at least
/// sixty.
pub fn bar_width(available: Single) -> (width: Single)
    ensures
        width@ == greater_of(
            Format::Single,
            difference(Format::Single, available@, whole(Format::Single, 2)),
            whole(Format::Single, 60),
        ),
        width@ == bar_room(available@),
{
    available.minus(Single::from_whole(2)).max(Single::from_whole(60))
}

/// What the panel shows, from top to bottom: the caption, the title and the rows.
#[derive(Debug)]
pub struct MonitorPanel {
    pub style: PanelStyle,
    pub caption: Label,
    pub title: Label,
    /// The rows, from top to bottom.
    pub rows: Vec<MetricRow>,
}

/// What a `MonitorPanel` stands for.
pub struct PanelView {
    pub style: PanelStyle,
    pub caption: LabelView,
    pub title: LabelView,
    pub rows: Seq<RowView>,
}

impl MonitorPanel {
    pub open spec fn view(&self) -> PanelView {
        PanelView {
            style: self.style,
            caption: self.caption@,
            title: self.title@,
            rows: self.rows@.map_values(|r: MetricRow| r@),
        }
    }
}

/// A share of a hundred.
pub open spec fn hundredth(v: Value) -> Value {
    quotient(Format::Single, v, whole(Format::Single, 100))
}

fn hundredth_of(v: Single) -> (r: Single)
    ensures
        r@ == hundredth(v@),
{
    v.over(Single::from_whole(100))
}

/// The color of a temperature: red from 80 degrees, amber from 60, else green.
pub open spec fn heat(temperature: Value) -> Rgb {
    if at_least(Format::Single, temperature, whole(Format::Single, 80)) {
        rgb(255, 72, 56)
    } else if at_least(Format::Single, temperature, whole(Format::Single, 60)) {
        rgb(255, 174, 54)
    } else {
        rgb(181, 238, 90)
    }
}

/// Picks the color of a temperature.
pub fn thermal_color(temperature: Single) -> (color: Rgb)
    ensures
        color == heat(temperature@),
{
    if temperature.is_at_least(Single::from_whole(80)) {
        Rgb { red: 255, green: 72, blue: 56 }
    } else if temperature.is_at_least(Single::from_whole(60)) {
        Rgb { red: 255, green: 174, blue: 54 }
    } else {
        Rgb { red: 181, green: 238, blue: 90 }
    }
}

/// The share of the memory in use.
pub fn memory_ratio(frame: &TelemetryFrame) -> (ratio: Single)
    ensures
        ratio@ == memory_share(frame.mem_used_mb, frame.mem_total_mb),
{
    memory_ratio_value(frame)
}

/// The newest network activity as a ratio.
pub fn latest_network_ratio(frame: &TelemetryFrame) -> (ratio: Single)
    ensures
        ratio@ == hundredth(frame.net_activity_history@.last()@),
{
    hundredth_of(frame.net_activity_history[59])
}

/// The processor's row: its load.
pub open spec fn cpu_row(frame: TelemetryFrame) -> RowView {
    row(
        "CPU"@,
        padded(one_place(frame.cpu_total@), 4) + "%"@,
        hundredth(frame.cpu_total@),
        rgb(92, 222, 255),
    )
}

/// The memory's row: what is in use of what there is.
pub open spec fn memory_row(frame: TelemetryFrame) -> RowView {
    row(
        "Memory"@,
        gibibytes_text(frame.mem_used_mb) + " / "@ + gibibytes_text(frame.mem_total_mb) + " GB"@,
        memory_share(frame.mem_used_mb, frame.mem_total_mb),
        rgb(112, 158, 255),
    )
}

/// The network's row: both directions, and the newest activity as its bar.
pub open spec fn network_row(frame: TelemetryFrame) -> RowView {
    row(
        "Network"@,
        rate_text(frame.net_in_bytes_sec) + " in  "@ + rate_text(frame.net_out_bytes_sec)
            + " out"@,
        hundredth(frame.net_activity_history@.last()@),
        rgb(36, 232, 160),
    )
}

/// The temperature's row.
pub open spec fn thermal_row(frame: TelemetryFrame) -> RowView {
    row(
        "Thermal"@,
        padded(one_place(frame.temp_celsius@), 4) + " C"@,
        hundredth(frame.temp_celsius@),
        heat(frame.temp_celsius@),
    )
}

/// What the panel shows for a frame.
pub open spec fn monitor_panel(frame: TelemetryFrame) -> PanelView {
    PanelView {
        style: panel_style(),
        caption: LabelView { text: "AETHER"@, size: 9, color: rgb(122, 146, 164) },
        title: LabelView { text: "System Monitor"@, size: 22, color: rgb(241, 246, 249) },
        rows: seq![cpu_row(frame), memory_row(frame), network_row(frame), thermal_row(frame)],
    }
}

fn draw_cpu_row(frame: &TelemetryFrame) -> (r: MetricRow)
    ensures
        r@ == cpu_row(*frame),
{
    let mut text = pad(frame.cpu_total.to_one_place().as_str(), 4);
    text.append("%");
    metric_row(
        "CPU",
        text,
        hundredth_of(frame.cpu_total),
        Rgb { red: 92, green: 222, blue: 255 },
    )
}

fn draw_memory_row(frame: &TelemetryFrame) -> (r: MetricRow)
    ensures
        r@ == memory_row(*frame),
{
    let mut text = mb_to_gb(frame.mem_used_mb);
    text.append(" / ");
    push_gibibytes(&mut text, frame.mem_total_mb);
    text.append(" GB");
    metric_row(
        "Memory",
        text,
        memory_ratio(frame),
        Rgb { red: 112, green: 158, blue: 255 },
    )
}

fn draw_network_row(frame: &TelemetryFrame) -> (r: MetricRow)
    ensures
        r@ == network_row(*frame),
{
    let mut text = compact_bytes(frame.net_in_bytes_sec);
    text.append(" in  ");
    push_rate(&mut text, frame.net_out_bytes_sec);
    text.append(" out");
    metric_row(
        "Network",
        text,
        latest_network_ratio(frame),
        Rgb { red: 36, green: 232, blue: 160 },
    )
}

fn draw_thermal_row(frame: &TelemetryFrame) -> (r: MetricRow)
    ensures
        r@ == thermal_row(*frame),
{
    let mut text = pad(frame.temp_celsius.to_one_place().as_str(), 4);
    text.append(" C");
    metric_row(
        "Thermal",
        text,
        hundredth_of(frame.temp_celsius),
        thermal_color(frame.temp_celsius),
    )
}

/// Fills the panel in for a frame.
pub fn draw_monitor_panel(frame: &TelemetryFrame) -> (panel: MonitorPanel)
    ensures
        panel@ == monitor_panel(*frame),
{
    let mut rows: Vec<MetricRow> = Vec::new();
    rows.push(draw_cpu_row(frame));
    rows.push(draw_memory_row(frame));
    rows.push(draw_network_row(frame));
    rows.push(draw_thermal_row(frame));
    assert(rows@.map_values(|r: MetricRow| r@) =~= monitor_panel(*frame).rows);
    MonitorPanel {
        style: PanelStyle {
            text: Rgb { red: 224, green: 231, blue: 238 },
            widget_fill: Rgb { red: 18, green: 21, blue: 25 },
            background: Rgb { red: 10, green: 12, blue: 15 },
            item_spacing: 6,
            header_space: 8,
            header_margin: 10,
            caption_gap: 2,
        },
        caption: Label {
            text: String::from_str("AETHER"),
            size: 9,
            color: Rgb { red: 122, green: 146, blue: 164 },
        },
        title: Label {
            text: String::from_str("System Monitor"),
            size: 22,
            color: Rgb { red: 241, green: 246, blue: 249 },
        },
        rows,
    }
}

/// A rate as the panel writes it.
pub fn compact_bytes(bytes_per_sec: u64) -> (text: String)
    ensures
        text@ == rate_text(bytes_per_sec),
{
    let mut text = String::new();
    push_rate(&mut text, bytes_per_sec);
    assert(text@ =~= rate_text(bytes_per_sec));
    text
}

/// Mebibytes in gibibytes, with one digit after the point.
pub fn mb_to_gb(mebibytes: u64) -> (text: String)
    ensures
        text@ == gibibytes_text(mebibytes),
{
    let mut text = String::new();
    push_gibibytes(&mut text, mebibytes);
    assert(text@ =~= gibibytes_text(mebibytes));
    text
}

} // verus!
