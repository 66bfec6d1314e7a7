//! GNOME, through Mutter's `org.gnome.Mutter.DisplayConfig`.
//!
//! Two things about that interface drive the shape of the code:
//!
//! * `ApplyMonitorsConfig` is not a patch. It replaces the whole layout, so every applied
//!   change starts from the current state and rebuilds it with only the mode ids swapped out.
//! * Mode ids are opaque strings that must round-trip byte for byte
//!   (`1920x1080@59.810825347900391`), and the scale in a logical monitor is only legal if
//!   the chosen mode lists it among its supported scales.

use vstd::prelude::*;

use crate::big::{lemma_pow2_positive, lemma_pow2_sum, pow2};
use crate::display::mode::{at_least_zero, not_negative, Mode, ModeView, Output, OutputView};
use crate::double::{divided, gap, ratio, to_whole, whole, Double, EXPONENT, INFINITE, ONE, STEPS};
use crate::precision::lemma_round_at;
use crate::text::{listed, same};

verus! {

pub const DESTINATION: &'static str = "org.gnome.Mutter.DisplayConfig";

pub const OBJECT_PATH: &'static str = "/org/gnome/Mutter/DisplayConfig";

pub const INTERFACE: &'static str = "org.gnome.Mutter.DisplayConfig";

/// The bits of a thousandth, by which scales of the same value may differ.
pub const SCALE_EPSILON: u64 = 0x3f50_624d_d2f1_a9fc;

pub const METHOD_TEMPORARY: u32 = 1;

pub const METHOD_PERSISTENT: u32 = 2;

/// The value of a property, as far as we read any.
#[derive(Clone, Copy, Debug, PartialEq, Eq, Structural)]
pub enum PropertyValue {
    Bool(bool),
    U32(u32),
    Other,
}

/// One property of a mode or of the whole state.
#[derive(Debug)]
pub struct Property {
    pub name: String,
    pub value: PropertyValue,
}

pub struct PropertyView {
    pub name: Seq<char>,
    pub value: PropertyValue,
}

impl DeepView for Property {
    type V = PropertyView;

    open spec fn deep_view(&self) -> PropertyView {
        PropertyView { name: self.name@, value: self.value }
    }
}

/// The value of the first property of this name.
pub open spec fn property(props: Seq<PropertyView>, name: Seq<char>) -> Option<PropertyValue>
    decreases props.len(),
{
    if props.len() == 0 {
        None
    } else if props[0].name == name {
        Some(props[0].value)
    } else {
        property(props.drop_first(), name)
    }
}

pub open spec fn flag(props: Seq<PropertyView>, name: Seq<char>) -> Option<bool> {
    match property(props, name) {
        Some(PropertyValue::Bool(b)) => Some(b),
        _ => None,
    }
}

pub open spec fn number(props: Seq<PropertyView>, name: Seq<char>) -> Option<u32> {
    match property(props, name) {
        Some(PropertyValue::U32(n)) => Some(n),
        _ => None,
    }
}

fn find_property(props: &Vec<Property>, name: &str) -> (r: Option<PropertyValue>)
    ensures
        r == property(props.deep_view(), name@),
{
    let ghost all = props.deep_view();
    let mut i: usize = 0;
    assert(all.skip(0) =~= all);
    while i < props.len()
        invariant
            i <= props.len(),
            all == props.deep_view(),
            all.len() == props.len(),
            property(all.skip(i as int), name@) == property(all, name@),
        decreases props.len() - i,
    {
        proof {
            assert(all.skip(i as int)[0] == props@[i as int].deep_view());
            assert(all.skip(i as int).drop_first() =~= all.skip(i + 1));
        }
        if same(props[i].name.as_str(), name) {
            return Some(props[i].value);
        }
        i = i + 1;
    }
    None
}

/// The value of a property that is a truth value.
pub fn prop_bool(props: &Vec<Property>, key: &str) -> (r: Option<bool>)
    ensures
        r == flag(props.deep_view(), key@),
{
    match find_property(props, key) {
        Some(PropertyValue::Bool(value)) => Some(value),
        _ => None,
    }
}

/// The value of a property that is a number.
pub fn prop_u32(props: &Vec<Property>, key: &str) -> (r: Option<u32>)
    ensures
        r == number(props.deep_view(), key@),
{
    match find_property(props, key) {
        Some(PropertyValue::U32(value)) => Some(value),
        _ => None,
    }
}

/// A mode as Mutter lists it.
#[derive(Debug)]
pub struct ModeInfo {
    pub id: String,
    pub width: i32,
    pub height: i32,
    pub refresh: Double,
    pub supported_scales: Vec<Double>,
    pub properties: Vec<Property>,
}

pub struct ModeInfoView {
    pub id: Seq<char>,
    pub width: i32,
    pub height: i32,
    pub refresh: Double,
    pub supported_scales: Seq<Double>,
    pub properties: Seq<PropertyView>,
}

impl DeepView for ModeInfo {
    type V = ModeInfoView;

    open spec fn deep_view(&self) -> ModeInfoView {
        ModeInfoView {
            id: self.id@,
            width: self.width,
            height: self.height,
            refresh: self.refresh,
            supported_scales: self.supported_scales@,
            properties: self.properties.deep_view(),
        }
    }
}

/// A monitor that is plugged in.
#[derive(Debug)]
pub struct MonitorInfo {
    pub connector: String,
    pub vendor: String,
    pub product: String,
    pub serial: String,
    pub modes: Vec<ModeInfo>,
}

pub struct MonitorInfoView {
    pub connector: Seq<char>,
    pub vendor: Seq<char>,
    pub product: Seq<char>,
    pub serial: Seq<char>,
    pub modes: Seq<ModeInfoView>,
}

impl DeepView for MonitorInfo {
    type V = MonitorInfoView;

    open spec fn deep_view(&self) -> MonitorInfoView {
        MonitorInfoView {
            connector: self.connector@,
            vendor: self.vendor@,
            product: self.product@,
            serial: self.serial@,
            modes: self.modes.deep_view(),
        }
    }
}

/// A part of the layout, and the connectors that show it.
#[derive(Debug)]
pub struct LogicalMonitorInfo {
    pub x: i32,
    pub y: i32,
    pub scale: Double,
    pub transform: u32,
    pub primary: bool,
    pub connectors: Vec<String>,
}

pub struct LogicalMonitorInfoView {
    pub x: i32,
    pub y: i32,
    pub scale: Double,
    pub transform: u32,
    pub primary: bool,
    pub connectors: Seq<Seq<char>>,
}

impl DeepView for LogicalMonitorInfo {
    type V = LogicalMonitorInfoView;

    open spec fn deep_view(&self) -> LogicalMonitorInfoView {
        LogicalMonitorInfoView {
            x: self.x,
            y: self.y,
            scale: self.scale,
            transform: self.transform,
            primary: self.primary,
            connectors: self.connectors.deep_view(),
        }
    }
}

/// What `GetCurrentState` answers.
#[derive(Debug)]
pub struct CurrentState {
    pub monitors: Vec<MonitorInfo>,
    pub logical_monitors: Vec<LogicalMonitorInfo>,
    pub properties: Vec<Property>,
}

pub struct CurrentStateView {
    pub monitors: Seq<MonitorInfoView>,
    pub logical_monitors: Seq<LogicalMonitorInfoView>,
    pub properties: Seq<PropertyView>,
}

impl DeepView for CurrentState {
    type V = CurrentStateView;

    open spec fn deep_view(&self) -> CurrentStateView {
        CurrentStateView {
            monitors: self.monitors.deep_view(),
            logical_monitors: self.logical_monitors.deep_view(),
            properties: self.properties.deep_view(),
        }
    }
}

pub open spec fn is_current(m: ModeInfoView) -> bool {
    flag(m.properties, "is-current"@) == Some(true)
}

pub open spec fn shown_mode(m: ModeInfoView) -> ModeView {
    ModeView {
        id: m.id,
        width: at_least_zero(m.width),
        height: at_least_zero(m.height),
        refresh: m.refresh,
        preferred: flag(m.properties, "is-preferred"@) == Some(true),
        current: is_current(m),
    }
}

/// The id of the last mode that says it is current.
pub open spec fn current_id(modes: Seq<ModeInfoView>) -> Option<Seq<char>>
    decreases modes.len(),
{
    if modes.len() == 0 {
        None
    } else if is_current(modes.last()) {
        Some(modes.last().id)
    } else {
        current_id(modes.drop_last())
    }
}

/// Whether a connector shows a part of the layout.
pub open spec fn active(layout: Seq<LogicalMonitorInfoView>, connector: Seq<char>) -> bool {
    exists|l: int| 0 <= l < layout.len() && (#[trigger] layout[l]).connectors.contains(connector)
}

pub open spec fn shown_output(m: MonitorInfoView, layout: Seq<LogicalMonitorInfoView>) -> OutputView {
    OutputView {
        connector: m.connector,
        make: m.vendor,
        model: m.product,
        serial: m.serial,
        modes: m.modes.map_values(|mode: ModeInfoView| shown_mode(mode)),
        current_mode: current_id(m.modes),
        enabled: active(layout, m.connector),
    }
}

pub fn is_active(layout: &Vec<LogicalMonitorInfo>, connector: &str) -> (r: bool)
    ensures
        r == active(layout.deep_view(), connector@),
{
    let ghost all = layout.deep_view();
    let mut i: usize = 0;
    while i < layout.len()
        invariant
            i <= layout.len(),
            all == layout.deep_view(),
            forall|l: int| 0 <= l < i ==> !(#[trigger] all[l]).connectors.contains(connector@),
        decreases layout.len() - i,
    {
        assert(all[i as int] == layout@[i as int].deep_view());
        if listed(&layout[i].connectors, connector) {
            return true;
        }
        i = i + 1;
    }
    false
}

fn mode_is_current(m: &ModeInfo) -> (r: bool)
    ensures
        r == is_current(m.deep_view()),
{
    match prop_bool(&m.properties, "is-current") {
        Some(b) => b,
        None => false,
    }
}

fn show_monitor(m: &MonitorInfo, layout: &Vec<LogicalMonitorInfo>) -> (r: Output)
    ensures
        r.deep_view() == shown_output(m.deep_view(), layout.deep_view()),
{
    let ghost all = m.modes.deep_view();
    let mut modes: Vec<Mode> = Vec::new();
    let mut current_mode: Option<String> = None;
    let mut i: usize = 0;
    while i < m.modes.len()
        invariant
            i <= m.modes.len(),
            all == m.modes.deep_view(),
            all.len() == m.modes.len(),
            modes.deep_view() == all.take(i as int).map_values(
                |mode: ModeInfoView| shown_mode(mode),
            ),
            current_mode.deep_view() == current_id(all.take(i as int)),
        decreases m.modes.len() - i,
    {
        let info = &m.modes[i];
        let ghost before = modes.deep_view();
        let mode = Mode {
            id: info.id.clone(),
            width: not_negative(info.width),
            height: not_negative(info.height),
            refresh: info.refresh,
            preferred: match prop_bool(&info.properties, "is-preferred") {
                Some(b) => b,
                None => false,
            },
            current: mode_is_current(info),
        };
        proof {
            assert(all[i as int] == info.deep_view());
            assert(all.take(i + 1).drop_last() =~= all.take(i as int));
            assert(mode.deep_view() == shown_mode(info.deep_view()));
        }
        if mode.current {
            current_mode = Some(mode.id.clone());
        }
        modes.push(mode);
        i = i + 1;
        assert(modes.deep_view() =~= before.push(mode.deep_view()));
        assert(modes.deep_view() =~= all.take(i as int).map_values(
            |mode: ModeInfoView| shown_mode(mode),
        ));
    }
    assert(all.take(i as int) =~= all);
    Output {
        connector: m.connector.clone(),
        make: m.vendor.clone(),
        model: m.product.clone(),
        serial: m.serial.clone(),
        modes,
        current_mode,
        enabled: is_active(layout, m.connector.as_str()),
    }
}

/// Everything that is plugged in, whether it shows a part of the layout or not.
pub fn outputs(state: &CurrentState) -> (r: Vec<Output>)
    ensures
        r.deep_view() == state.deep_view().monitors.map_values(
            |m: MonitorInfoView| shown_output(m, state.deep_view().logical_monitors),
        ),
{
    let ghost all = state.deep_view().monitors;
    let ghost layout = state.deep_view().logical_monitors;
    let mut out: Vec<Output> = Vec::new();
    let mut i: usize = 0;
    while i < state.monitors.len()
        invariant
            i <= state.monitors.len(),
            all == state.deep_view().monitors,
            layout == state.deep_view().logical_monitors,
            all.len() == state.monitors.len(),
            out.deep_view() == all.take(i as int).map_values(
                |m: MonitorInfoView| shown_output(m, layout),
            ),
        decreases state.monitors.len() - i,
    {
        let ghost before = out.deep_view();
        let shown = show_monitor(&state.monitors[i], &state.logical_monitors);
        out.push(shown);
        assert(all[i as int] == state.monitors@[i as int].deep_view());
        i = i + 1;
        assert(out.deep_view() =~= before.push(shown.deep_view()));
        assert(out.deep_view() =~= all.take(i as int).map_values(
            |m: MonitorInfoView| shown_output(m, layout),
        ));
    }
    assert(all.take(i as int) =~= all);
    out
}

/// The mode that one monitor is going to be in.
#[derive(Debug)]
pub struct ChosenMode {
    pub connector: String,
    pub id: String,
    pub width: u32,
    pub height: u32,
    pub supported_scales: Vec<Double>,
}

pub struct ChosenModeView {
    pub connector: Seq<char>,
    pub id: Seq<char>,
    pub width: u32,
    pub height: u32,
    pub supported_scales: Seq<Double>,
}

impl DeepView for ChosenMode {
    type V = ChosenModeView;

    open spec fn deep_view(&self) -> ChosenModeView {
        ChosenModeView {
            connector: self.connector@,
            id: self.id@,
            width: self.width,
            height: self.height,
            supported_scales: self.supported_scales@,
        }
    }
}

/// One part of the layout as it is going to be.
#[derive(Debug)]
pub struct PlannedLogicalMonitor {
    pub x: i32,
    pub y: i32,
    pub scale: Double,
    pub transform: u32,
    pub primary: bool,
    pub monitors: Vec<ChosenMode>,
}

pub struct PlannedView {
    pub x: i32,
    pub y: i32,
    pub scale: Double,
    pub transform: u32,
    pub primary: bool,
    pub monitors: Seq<ChosenModeView>,
}

impl DeepView for PlannedLogicalMonitor {
    type V = PlannedView;

    open spec fn deep_view(&self) -> PlannedView {
        PlannedView {
            x: self.x,
            y: self.y,
            scale: self.scale,
            transform: self.transform,
            primary: self.primary,
            monitors: self.monitors.deep_view(),
        }
    }
}

/// `pixels` divided by a scale, and then rounded to the nearest whole number, a half upwards.
pub open spec fn scaled(pixels: u32, scale: Double) -> i32 {
    whole(divided(pixels as nat, scale))
}

impl PlannedView {
    /// Mutter counts in `i32`, so no mode is larger.
    pub open spec fn wf(self) -> bool {
        forall|m: int|
            0 <= m < self.monitors.len() ==> (#[trigger] self.monitors[m]).width <= i32::MAX
                && self.monitors[m].height <= i32::MAX
    }

    /// The size of the mode, turned where the monitor is.
    pub open spec fn turned(self) -> (u32, u32) {
        let (width, height) = if self.monitors.len() == 0 {
            (0u32, 0u32)
        } else {
            (self.monitors[0].width, self.monitors[0].height)
        };
        if self.transform % 2 == 1 {
            (height, width)
        } else {
            (width, height)
        }
    }

    pub open spec fn size(self, logical_layout: bool) -> (i32, i32) {
        let (width, height) = self.turned();
        if logical_layout && self.scale.positive() {
            (scaled(width, self.scale), scaled(height, self.scale))
        } else {
            (width as i32, height as i32)
        }
    }
}

fn scale_down(pixels: u32, scale: Double) -> (r: i32)
    requires
        scale.positive(),
    ensures
        r == scaled(pixels, scale),
        r >= 0,
{
    to_whole(scale.divides(pixels))
}

impl PlannedLogicalMonitor {
    /// Size this logical monitor occupies in the layout, honouring rotation and,
    /// in logical layout mode, the scale.
    pub fn size(&self, logical_layout: bool) -> (r: (i32, i32))
        requires
            self.deep_view().wf(),
        ensures
            r == self.deep_view().size(logical_layout),
            r.0 >= 0,
            r.1 >= 0,
    {
        let ghost view = self.deep_view();
        let (width, height): (u32, u32) = if self.monitors.len() == 0 {
            (0, 0)
        } else {
            assert(view.monitors[0] == self.monitors@[0].deep_view());
            (self.monitors[0].width, self.monitors[0].height)
        };
        let (width, height): (u32, u32) = if self.transform % 2 == 1 {
            (height, width)
        } else {
            (width, height)
        };
        if logical_layout && self.scale.is_positive() {
            (scale_down(width, self.scale), scale_down(height, self.scale))
        } else {
            (width as i32, height as i32)
        }
    }
}

/// Whether two scales are the same for the compositor: less than a thousandth apart.
pub open spec fn same_scale(a: Double, b: Double) -> bool {
    gap(a, b) < SCALE_EPSILON
}

pub open spec fn offers(list: Seq<Double>, scale: Double) -> bool {
    exists|i: int| 0 <= i < list.len() && same_scale(#[trigger] list[i], scale)
}

/// Whether every list but the first offers a scale.
pub open spec fn others_offer(options: Seq<Seq<Double>>, scale: Double) -> bool {
    forall|k: int| 1 <= k < options.len() ==> offers(#[trigger] options[k], scale)
}

/// Of the scales in a list that the other lists offer too, the nearest to a target, the
/// first of them where several are.
pub open spec fn nearest_scale(list: Seq<Double>, options: Seq<Seq<Double>>, target: Double) -> Option<Double>
    decreases list.len(),
{
    if list.len() == 0 {
        None
    } else {
        let before = nearest_scale(list.drop_last(), options, target);
        let s = list.last();
        if others_offer(options, s) && (before is None || gap(s, target) < gap(
            before->Some_0,
            target,
        )) {
            Some(s)
        } else {
            before
        }
    }
}

/// The target itself where every list offers it, else the nearest scale that they all offer,
/// else no scaling at all.
pub open spec fn best_scale(target: Double, options: Seq<Seq<Double>>) -> Double {
    if options.len() == 0 {
        target
    } else if offers(options[0], target) && others_offer(options, target) {
        target
    } else {
        match nearest_scale(options[0], options, target) {
            Some(s) => s,
            None => Double { bits: ONE },
        }
    }
}

fn scales_agree(a: Double, b: Double) -> (r: bool)
    ensures
        r == same_scale(a, b),
{
    a.gap_to(b) < SCALE_EPSILON
}

fn list_offers(list: &Vec<Double>, scale: Double) -> (r: bool)
    ensures
        r == offers(list@, scale),
{
    let mut i: usize = 0;
    while i < list.len()
        invariant
            i <= list.len(),
            forall|j: int| 0 <= j < i ==> !same_scale(#[trigger] list@[j], scale),
        decreases list.len() - i,
    {
        if scales_agree(list[i], scale) {
            assert(same_scale(list@[i as int], scale));
            return true;
        }
        i = i + 1;
    }
    false
}

fn offered_elsewhere(options: &[Vec<Double>], scale: Double) -> (r: bool)
    requires
        options.len() > 0,
    ensures
        r == others_offer(options.deep_view(), scale),
{
    let ghost all = options.deep_view();
    let mut i: usize = 1;
    while i < options.len()
        invariant
            1 <= i <= options.len(),
            all == options.deep_view(),
            forall|k: int| 1 <= k < i ==> offers(#[trigger] all[k], scale),
        decreases options.len() - i,
    {
        assert(all[i as int] =~= options@[i as int]@);
        if !list_offers(&options[i], scale) {
            return false;
        }
        i = i + 1;
    }
    true
}

/// Nearest scale to `target` that every one of `options` supports, or no scaling if the
/// lists have nothing in common.
pub fn pick_scale(target: Double, options: &[Vec<Double>]) -> (r: Double)
    ensures
        r == best_scale(target, options.deep_view()),
{
    if options.len() == 0 {
        return target;
    }
    let ghost all = options.deep_view();
    let first = &options[0];
    assert(all[0] =~= first@);
    if list_offers(first, target) && offered_elsewhere(options, target) {
        return target;
    }
    let mut best: Option<Double> = None;
    let mut i: usize = 0;
    while i < first.len()
        invariant
            i <= first.len(),
            options.len() > 0,
            all == options.deep_view(),
            all[0] == first@,
            best == nearest_scale(first@.take(i as int), all, target),
        decreases first.len() - i,
    {
        let s = first[i];
        assert(first@.take(i + 1).drop_last() =~= first@.take(i as int));
        if offered_elsewhere(options, s) {
            let closer = match best {
                Some(b) => s.gap_to(target) < b.gap_to(target),
                None => true,
            };
            if closer {
                best = Some(s);
            }
        }
        i = i + 1;
    }
    assert(first@.take(i as int) =~= first@);
    match best {
        Some(s) => s,
        None => Double { bits: ONE },
    }
}

/// Of the properties with one name the first counts, and it is a truth value or a number only
/// where it says so. Without one of the name there is nothing.
pub proof fn law_the_first_property_of_a_name_counts(
    props: Seq<PropertyView>,
    name: Seq<char>,
    k: int,
)
    requires
        0 <= k <= props.len(),
        k < props.len() ==> props[k].name == name,
        forall|j: int| 0 <= j < k ==> (#[trigger] props[j]).name != name,
    ensures
        k == props.len() ==> flag(props, name) is None && number(props, name) is None,
        k < props.len() ==> (match props[k].value {
            PropertyValue::Bool(b) => flag(props, name) == Some(b) && number(props, name) is None,
            PropertyValue::U32(n) => flag(props, name) is None && number(props, name) == Some(n),
            PropertyValue::Other => flag(props, name) is None && number(props, name) is None,
        }),
    decreases k,
{
    if k > 0 {
        let rest = props.drop_first();
        assert(props[0].name != name);
        assert forall|j: int| 0 <= j < k - 1 implies (#[trigger] rest[j]).name != name by {
            assert(rest[j] == props[j + 1]);
        }
        law_the_first_property_of_a_name_counts(rest, name, k - 1);
    }
}

/// A monitor is listed with its connector and what its EDID says, with every mode that it has
/// in their order, and as active exactly where some part of the layout is shown on it.
pub proof fn law_a_monitor_is_listed_as_it_is(
    m: MonitorInfoView,
    layout: Seq<LogicalMonitorInfoView>,
    i: int,
)
    ensures
        ({
            let o = shown_output(m, layout);
            &&& o.connector == m.connector && o.make == m.vendor && o.model == m.product
                && o.serial == m.serial
            &&& o.modes.len() == m.modes.len()
            &&& 0 <= i < m.modes.len() ==> {
                let (a, b) = (o.modes[i], m.modes[i]);
                &&& a.id == b.id && a.refresh == b.refresh
                &&& a.width as int == (if b.width < 0 {
                    0
                } else {
                    b.width as int
                })
                &&& a.height as int == (if b.height < 0 {
                    0
                } else {
                    b.height as int
                })
                &&& a.preferred == (flag(b.properties, "is-preferred"@) == Some(true))
                &&& a.current == (flag(b.properties, "is-current"@) == Some(true))
            }
            &&& o.enabled <==> exists|l: int, c: int|
                0 <= l < layout.len() && 0 <= c < layout[l].connectors.len()
                    && #[trigger] layout[l].connectors[c] == m.connector
        }),
{
    let o = shown_output(m, layout);
    if o.enabled {
        let l = choose|l: int|
            0 <= l < layout.len() && (#[trigger] layout[l]).connectors.contains(m.connector);
        let c = choose|c: int|
            0 <= c < layout[l].connectors.len() && layout[l].connectors[c] == m.connector;
        assert(layout[l].connectors[c] == m.connector);
    }
    if exists|l: int, c: int|
        0 <= l < layout.len() && 0 <= c < layout[l].connectors.len()
            && #[trigger] layout[l].connectors[c] == m.connector {
        let (l, c) = choose|l: int, c: int|
            0 <= l < layout.len() && 0 <= c < layout[l].connectors.len()
                && #[trigger] layout[l].connectors[c] == m.connector;
        assert(layout[l].connectors.contains(m.connector));
    }
}

/// The current mode of a monitor is the last one that says so.
pub proof fn law_the_last_current_mode_counts(modes: Seq<ModeInfoView>)
    ensures
        match current_id(modes) {
            Some(id) => exists|k: int|
                0 <= k < modes.len() && (#[trigger] modes[k]).id == id && flag(
                    modes[k].properties,
                    "is-current"@,
                ) == Some(true) && forall|j: int|
                    k < j < modes.len() ==> flag((#[trigger] modes[j]).properties, "is-current"@)
                        != Some(true),
            None => forall|j: int|
                0 <= j < modes.len() ==> flag((#[trigger] modes[j]).properties, "is-current"@)
                    != Some(true),
        },
    decreases modes.len(),
{
    if modes.len() > 0 {
        let front = modes.drop_last();
        assert forall|j: int| 0 <= j < front.len() implies #[trigger] modes[j] == front[j] by {}
        if is_current(modes.last()) {
            assert(modes[modes.len() - 1].id == modes.last().id);
        } else {
            law_the_last_current_mode_counts(front);
            if let Some(id) = current_id(front) {
                let k = choose|k: int|
                    0 <= k < front.len() && (#[trigger] front[k]).id == id && flag(
                        front[k].properties,
                        "is-current"@,
                    ) == Some(true) && forall|j: int|
                        k < j < front.len() ==> flag(
                            (#[trigger] front[j]).properties,
                            "is-current"@,
                        ) != Some(true);
                assert(modes[k] == front[k]);
                assert forall|j: int| k < j < modes.len() implies flag(
                    (#[trigger] modes[j]).properties,
                    "is-current"@,
                ) != Some(true) by {
                    if j < front.len() {
                        assert(front[j] == modes[j]);
                    }
                }
            }
        }
    }
}

/// How large a part of the layout is: as its first monitor's mode, on its side where it is
/// turned by one or three quarters, and in a scaled layout divided by its scale, each side to
/// the nearest whole number.
pub proof fn law_a_part_is_as_large_as_its_first_monitor(p: PlannedView, logical_layout: bool)
    requires
        p.wf(),
    ensures
        p.monitors.len() == 0 && !logical_layout ==> p.size(logical_layout) == (0i32, 0i32),
        p.monitors.len() > 0 ==> ({
            let (w, h) = if p.transform == 1 || p.transform == 3 || p.transform == 5 || p.transform
                == 7 {
                (p.monitors[0].height, p.monitors[0].width)
            } else if p.transform <= 6 {
                (p.monitors[0].width, p.monitors[0].height)
            } else {
                p.turned()
            };
            if logical_layout && 0 < p.scale.bits <= INFINITE {
                p.size(logical_layout) == (
                    whole(divided(w as nat, p.scale)),
                    whole(divided(h as nat, p.scale)),
                )
            } else {
                p.size(logical_layout).0 as int == w as int && p.size(logical_layout).1 as int
                    == h as int
            }
        }),
{
    assert(p.monitors.len() > 0 ==> p.monitors[0].width <= i32::MAX);
}

/// A list offers a scale where one in it is less than a thousandth away, and the other lists
/// offer one where each of them does.
pub proof fn law_a_scale_is_offered_to_a_thousandth(
    list: Seq<Double>,
    options: Seq<Seq<Double>>,
    scale: Double,
)
    ensures
        offers(list, scale) <==> exists|i: int|
            0 <= i < list.len() && gap(#[trigger] list[i], scale) < ratio(1, 1000),
        others_offer(options, scale) <==> forall|k: int|
            1 <= k < options.len() ==> offers(#[trigger] options[k], scale),
{
    law_a_thousandth();
    if offers(list, scale) {
        let i = choose|i: int| 0 <= i < list.len() && same_scale(#[trigger] list[i], scale);
        assert(gap(list[i], scale) < ratio(1, 1000));
    }
    if exists|i: int| 0 <= i < list.len() && gap(#[trigger] list[i], scale) < ratio(1, 1000) {
        let i = choose|i: int|
            0 <= i < list.len() && gap(#[trigger] list[i], scale) < ratio(1, 1000);
        assert(same_scale(list[i], scale));
    }
}

/// The scale that is picked for some monitors. A target that every list offers is kept.
/// Otherwise the pick is one of the first list that all the others offer, and none such is
/// nearer to the target; where there is no such scale, nothing is scaled.
pub proof fn law_the_nearest_shared_scale_is_picked(target: Double, options: Seq<Seq<Double>>)
    ensures
        ({
            let pick = best_scale(target, options);
            let kept = forall|k: int|
                0 <= k < options.len() ==> offers(#[trigger] options[k], target);
            &&& kept ==> pick == target
            &&& !kept ==> {
                ||| options[0].contains(pick) && others_offer(options, pick) && forall|j: int|
                    0 <= j < options[0].len() && others_offer(options, #[trigger] options[0][j])
                        ==> gap(pick, target) <= gap(options[0][j], target)
                ||| pick.bits == ratio(1, 1) && forall|j: int|
                    0 <= j < options[0].len() ==> !others_offer(options, #[trigger] options[0][j])
            }
        }),
{
    law_a_thousandth();
    if options.len() > 0 {
        lemma_nearest(options[0], options, target);
    }
}

/// The nearest scale is in the list and shared, and no shared one is nearer.
pub proof fn lemma_nearest(list: Seq<Double>, options: Seq<Seq<Double>>, target: Double)
    ensures
        match nearest_scale(list, options, target) {
            Some(s) => {
                &&& list.contains(s)
                &&& others_offer(options, s)
                &&& forall|i: int|
                    0 <= i < list.len() && others_offer(options, #[trigger] list[i]) ==> gap(
                        s,
                        target,
                    ) <= gap(list[i], target)
            },
            None => forall|i: int|
                0 <= i < list.len() ==> !others_offer(options, #[trigger] list[i]),
        },
    decreases list.len(),
{
    if list.len() > 0 {
        let front = list.drop_last();
        lemma_nearest(front, options, target);
        assert forall|i: int| 0 <= i < front.len() implies #[trigger] list[i] == front[i] by {}
        assert(list[list.len() - 1] == list.last());
        if let Some(s) = nearest_scale(front, options, target) {
            let k = choose|k: int| 0 <= k < front.len() && front[k] == s;
            assert(list[k] == s);
        }
    }
}

proof fn lemma_powers()
    ensures
        pow2(STEPS as nat) == 0x4000_0000_0000_0000 * pow2(1012),
        pow2(STEPS as nat) == 0x10_0000_0000_0000 * pow2(1022),
{
    lemma_pow2_sum(62, 1012);
    lemma_pow2_sum(52, 1022);
    assert(pow2(62) == 0x4000_0000_0000_0000 && pow2(52) == 0x10_0000_0000_0000) by {
        reveal_with_fuel(pow2, 63);
    }
}

/// Scales of the same value differ by less than a thousandth, and one scales nothing.
pub proof fn law_a_thousandth()
    ensures
        SCALE_EPSILON == ratio(1, 1000),
        ONE == ratio(1, 1),
{
    let (p, q, one) = (pow2(1012), pow2(1022), pow2(STEPS as nat));
    lemma_powers();
    lemma_pow2_positive(1012);
    lemma_pow2_positive(1022);
    assert(1 * one == one) by (nonlinear_arith);
    let e = EXPONENT as nat;
    let m: nat = 0x10_624d_d2f1_a9fc;
    assert((1000 * e) * p <= one < (1000 * (2 * e)) * p && 2 * one < 2 * (m * (1000 * p)) + 1000
        * p && 2 * (m * (1000 * p)) < 2 * one + 1000 * p) by (nonlinear_arith)
        requires
            one == 0x4000_0000_0000_0000 * p,
            p >= 1,
            e == 0x10_0000_0000_0000,
            m == 0x10_624d_d2f1_a9fc,
    ;
    lemma_round_at(one, 1000, 1012, m);
    assert((1 * e) * q <= one < (1 * (2 * e)) * q && 2 * one < 2 * (e * (1 * q)) + 1 * q && 2 * (e
        * (1 * q)) < 2 * one + 1 * q) by (nonlinear_arith)
        requires
            one == 0x10_0000_0000_0000 * q,
            q >= 1,
            e == 0x10_0000_0000_0000,
    ;
    lemma_round_at(one, 1, 1022, e);
}

} // verus!
