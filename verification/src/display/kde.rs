//! KDE Plasma, through `kscreen-doctor`.
//!
//! Plasma keeps its display state in KScreen rather than in the compositor alone, so
//! going through its own tool is what makes a change stick instead of being reverted on
//! the next hotplug. `kscreen-doctor` ships with Plasma itself, so there is nothing extra
//! for the user to install.

use vstd::prelude::*;

use crate::config::copy_text;
use crate::display::assign::{OutputSetting, OutputSettingView};
use crate::display::mode::{
    format_mode_id, mode_text, parse_size, parsed_size, Mode, ModeView, Output, OutputView,
};
use crate::double::Double;
use crate::rate::{parse_rate, parsed_rate};
use crate::text::{
    join, joined, lemma_find_char, lemma_find_char_unique, same, split_at_char, split_once, trim,
    trimmed,
};

verus! {

pub const TOOL: &'static str = "kscreen-doctor";

/// The command that reaches `kscreen-doctor`.
pub open spec fn tool_command(sandboxed: bool) -> Seq<Seq<char>> {
    if sandboxed {
        seq!["flatpak-spawn"@, "--host"@, TOOL@]
    } else {
        seq![TOOL@]
    }
}

/// Builds an invocation of `kscreen-doctor`.
///
/// The tool belongs to Plasma and is therefore on the host, not in our sandbox, so inside
/// a Flatpak the call has to be handed out through `flatpak-spawn`. Everywhere else this is
/// a plain exec.
pub fn tool(sandboxed: bool) -> (r: Vec<String>)
    ensures
        r.deep_view() == tool_command(sandboxed),
{
    let mut command: Vec<String> = Vec::new();
    if sandboxed {
        command.push("flatpak-spawn".to_string());
        command.push("--host".to_string());
    }
    command.push(TOOL.to_string());
    assert(command.deep_view() =~= tool_command(sandboxed));
    command
}

#[derive(Clone, Copy, Debug, PartialEq, Eq)]
pub struct KdeSize {
    pub width: u32,
    pub height: u32,
}

/// A mode as KScreen lists it. The rate is in hertz.
#[derive(Debug)]
pub struct KdeMode {
    pub id: String,
    pub name: Option<String>,
    pub refresh_rate: Option<Double>,
    pub size: Option<KdeSize>,
}

pub struct KdeModeView {
    pub id: Seq<char>,
    pub name: Option<Seq<char>>,
    pub refresh_rate: Option<Double>,
    pub size: Option<KdeSize>,
}

impl DeepView for KdeMode {
    type V = KdeModeView;

    open spec fn deep_view(&self) -> KdeModeView {
        KdeModeView {
            id: self.id@,
            name: self.name.deep_view(),
            refresh_rate: self.refresh_rate,
            size: self.size,
        }
    }
}

/// A display as KScreen lists it.
#[derive(Debug)]
pub struct KdeOutput {
    pub name: String,
    pub connected: bool,
    pub enabled: bool,
    pub current_mode_id: Option<String>,
    pub modes: Vec<KdeMode>,
    pub vendor: Option<String>,
    pub model: Option<String>,
    pub serial: Option<String>,
}

pub struct KdeOutputView {
    pub name: Seq<char>,
    pub connected: bool,
    pub enabled: bool,
    pub current_mode_id: Option<Seq<char>>,
    pub modes: Seq<KdeModeView>,
    pub vendor: Option<Seq<char>>,
    pub model: Option<Seq<char>>,
    pub serial: Option<Seq<char>>,
}

impl DeepView for KdeOutput {
    type V = KdeOutputView;

    open spec fn deep_view(&self) -> KdeOutputView {
        KdeOutputView {
            name: self.name@,
            connected: self.connected,
            enabled: self.enabled,
            current_mode_id: self.current_mode_id.deep_view(),
            modes: self.modes.deep_view(),
            vendor: self.vendor.deep_view(),
            model: self.model.deep_view(),
            serial: self.serial.deep_view(),
        }
    }
}

impl KdeModeView {
    /// The size, or else the size that the name begins with.
    pub open spec fn dimensions(self) -> Option<(u32, u32)> {
        match self.size {
            Some(size) => Some((size.width, size.height)),
            None => match self.name {
                Some(name) => parsed_size(
                    match split_at_char(name, '@') {
                        Some((front, _)) => front,
                        None => name,
                    },
                ),
                None => None,
            },
        }
    }

    /// The rate, or else the rate that the name ends with.
    pub open spec fn rate(self) -> Option<Double> {
        match self.refresh_rate {
            Some(rate) => Some(rate),
            None => match self.name {
                Some(name) => match split_at_char(name, '@') {
                    Some((_, rest)) => parsed_rate(trimmed(rest)),
                    None => None,
                },
                None => None,
            },
        }
    }

    pub open spec fn geometry(self) -> Option<(u32, u32, Double)> {
        match (self.dimensions(), self.rate()) {
            (Some((width, height)), Some(refresh)) => Some((width, height, refresh)),
            _ => None,
        }
    }

    /// The id of the settings, or KScreen's own where the geometry is not known.
    pub open spec fn mode_id(self) -> Seq<char> {
        match self.geometry() {
            Some((width, height, refresh)) => mode_text(width, height, refresh),
            None => self.id,
        }
    }
}

impl KdeMode {
    /// kscreen reports the geometry either as a `size` object or inside the mode name
    /// (`2880x1800@90`), depending on the Plasma version.
    pub fn geometry(&self) -> (r: Option<(u32, u32, Double)>)
        ensures
            r == self.deep_view().geometry(),
    {
        let dimensions = match &self.size {
            Some(size) => Some((size.width, size.height)),
            None => match &self.name {
                Some(name) => match split_once(name.as_str(), '@') {
                    Some((front, _)) => parse_size(front.as_str()),
                    None => parse_size(name.as_str()),
                },
                None => None,
            },
        };
        let rate = match self.refresh_rate {
            Some(rate) => Some(rate),
            None => match &self.name {
                Some(name) => match split_once(name.as_str(), '@') {
                    Some((_, rest)) => parse_rate(trim(rest.as_str()).as_str()),
                    None => None,
                },
                None => None,
            },
        };
        match (dimensions, rate) {
            (Some((width, height)), Some(refresh)) => Some((width, height, refresh)),
            _ => None,
        }
    }

    pub fn mode_id(&self) -> (r: String)
        ensures
            r@ == self.deep_view().mode_id(),
    {
        match self.geometry() {
            Some((width, height, refresh)) => format_mode_id(width, height, refresh),
            None => self.id.clone(),
        }
    }
}

/// The first mode with this id of KScreen's.
pub open spec fn mode_numbered(modes: Seq<KdeModeView>, id: Seq<char>) -> Option<KdeModeView>
    decreases modes.len(),
{
    if modes.len() == 0 {
        None
    } else if modes[0].id == id {
        Some(modes[0])
    } else {
        mode_numbered(modes.drop_first(), id)
    }
}

/// The first mode with this id of the settings.
pub open spec fn mode_called(modes: Seq<KdeModeView>, id: Seq<char>) -> Option<KdeModeView>
    decreases modes.len(),
{
    if modes.len() == 0 {
        None
    } else if modes[0].mode_id() == id {
        Some(modes[0])
    } else {
        mode_called(modes.drop_first(), id)
    }
}

/// The modes whose geometry is known.
pub open spec fn shown_modes(modes: Seq<KdeModeView>, current: Option<Seq<char>>) -> Seq<ModeView>
    decreases modes.len(),
{
    if modes.len() == 0 {
        Seq::empty()
    } else {
        let before = shown_modes(modes.drop_last(), current);
        let m = modes.last();
        match m.geometry() {
            Some((width, height, refresh)) => before.push(
                ModeView {
                    id: m.mode_id(),
                    width,
                    height,
                    refresh,
                    preferred: false,
                    current: current == Some(m.id),
                },
            ),
            None => before,
        }
    }
}

pub open spec fn or_empty(s: Option<Seq<char>>) -> Seq<char> {
    match s {
        Some(text) => text,
        None => Seq::empty(),
    }
}

impl KdeOutputView {
    pub open spec fn shown(self) -> OutputView {
        OutputView {
            connector: self.name,
            make: or_empty(self.vendor),
            model: or_empty(self.model),
            serial: or_empty(self.serial),
            modes: shown_modes(self.modes, self.current_mode_id),
            current_mode: match self.current_mode_id {
                Some(id) => match mode_numbered(self.modes, id) {
                    Some(m) => Some(m.mode_id()),
                    None => None,
                },
                None => None,
            },
            enabled: self.enabled,
        }
    }
}

fn text_or_empty(s: Option<String>) -> (r: String)
    ensures
        r@ == or_empty(s.deep_view()),
{
    match s {
        Some(text) => text,
        None => {
            let r = String::new();
            assert(r@ =~= Seq::<char>::empty());
            r
        },
    }
}

fn find_numbered<'a>(modes: &'a Vec<KdeMode>, id: &str) -> (r: Option<&'a KdeMode>)
    ensures
        match (r, mode_numbered(modes.deep_view(), id@)) {
            (Some(got), Some(want)) => got.deep_view() == want,
            (None, None) => true,
            _ => false,
        },
{
    let ghost all = modes.deep_view();
    let mut i: usize = 0;
    assert(all.skip(0) =~= all);
    while i < modes.len()
        invariant
            i <= modes.len(),
            all == modes.deep_view(),
            all.len() == modes.len(),
            mode_numbered(all.skip(i as int), id@) == mode_numbered(all, id@),
        decreases modes.len() - i,
    {
        proof {
            assert(all.skip(i as int)[0] == modes@[i as int].deep_view());
            assert(all.skip(i as int).drop_first() =~= all.skip(i + 1));
        }
        if same(modes[i].id.as_str(), id) {
            return Some(&modes[i]);
        }
        i = i + 1;
    }
    None
}

fn find_called<'a>(modes: &'a Vec<KdeMode>, id: &str) -> (r: Option<&'a KdeMode>)
    ensures
        match (r, mode_called(modes.deep_view(), id@)) {
            (Some(got), Some(want)) => got.deep_view() == want,
            (None, None) => true,
            _ => false,
        },
{
    let ghost all = modes.deep_view();
    let mut i: usize = 0;
    assert(all.skip(0) =~= all);
    while i < modes.len()
        invariant
            i <= modes.len(),
            all == modes.deep_view(),
            all.len() == modes.len(),
            mode_called(all.skip(i as int), id@) == mode_called(all, id@),
        decreases modes.len() - i,
    {
        proof {
            assert(all.skip(i as int)[0] == modes@[i as int].deep_view());
            assert(all.skip(i as int).drop_first() =~= all.skip(i + 1));
        }
        if same(modes[i].mode_id().as_str(), id) {
            return Some(&modes[i]);
        }
        i = i + 1;
    }
    None
}

fn is_this(current: &Option<String>, id: &str) -> (r: bool)
    ensures
        r == (current.deep_view() == Some(id@)),
{
    match current {
        Some(c) => same(c.as_str(), id),
        None => false,
    }
}

impl KdeOutput {
    /// The display in the form that every backend reports.
    pub fn into_output(self) -> (r: Output)
        ensures
            r.deep_view() == self.deep_view().shown(),
    {
        let ghost view = self.deep_view();
        let current_mode: Option<String> = match &self.current_mode_id {
            Some(id) => match find_numbered(&self.modes, id.as_str()) {
                Some(m) => Some(m.mode_id()),
                None => None,
            },
            None => None,
        };
        let ghost all = self.modes.deep_view();
        let mut modes: Vec<Mode> = Vec::new();
        let mut i: usize = 0;
        assert(modes.deep_view() =~= Seq::empty());
        while i < self.modes.len()
            invariant
                i <= self.modes.len(),
                view == self.deep_view(),
                all == self.modes.deep_view(),
                all.len() == self.modes.len(),
                modes.deep_view() == shown_modes(all.take(i as int), view.current_mode_id),
            decreases self.modes.len() - i,
        {
            let ghost before = modes.deep_view();
            let m = &self.modes[i];
            proof {
                assert(all.take(i + 1).drop_last() =~= all.take(i as int));
                assert(all.take(i + 1).last() == m.deep_view());
            }
            if let Some((width, height, refresh)) = m.geometry() {
                let mode = Mode {
                    id: m.mode_id(),
                    width,
                    height,
                    refresh,
                    preferred: false,
                    current: is_this(&self.current_mode_id, m.id.as_str()),
                };
                modes.push(mode);
                assert(modes.deep_view() =~= before.push(mode.deep_view()));
            }
            i = i + 1;
        }
        assert(all.take(i as int) =~= all);
        Output {
            connector: self.name,
            make: text_or_empty(self.vendor),
            model: text_or_empty(self.model),
            serial: text_or_empty(self.serial),
            modes,
            current_mode,
            enabled: self.enabled,
        }
    }

    fn copied(&self) -> (r: KdeOutput)
        ensures
            r.deep_view() == self.deep_view(),
    {
        let mut modes: Vec<KdeMode> = Vec::new();
        let mut i: usize = 0;
        assert(modes.deep_view() =~= self.modes.deep_view().take(0));
        while i < self.modes.len()
            invariant
                i <= self.modes.len(),
                modes.deep_view() == self.modes.deep_view().take(i as int),
            decreases self.modes.len() - i,
        {
            let ghost before = modes.deep_view();
            let m = &self.modes[i];
            let copy = KdeMode {
                id: m.id.clone(),
                name: copy_text(&m.name),
                refresh_rate: m.refresh_rate,
                size: m.size,
            };
            modes.push(copy);
            i = i + 1;
            assert(modes.deep_view() =~= before.push(copy.deep_view()));
            assert(modes.deep_view() =~= self.modes.deep_view().take(i as int));
        }
        assert(self.modes.deep_view().take(i as int) =~= self.modes.deep_view());
        KdeOutput {
            name: self.name.clone(),
            connected: self.connected,
            enabled: self.enabled,
            current_mode_id: copy_text(&self.current_mode_id),
            modes,
            vendor: copy_text(&self.vendor),
            model: copy_text(&self.model),
            serial: copy_text(&self.serial),
        }
    }
}

/// The displays that are plugged in.
pub open spec fn shown_outputs(outputs: Seq<KdeOutputView>) -> Seq<OutputView>
    decreases outputs.len(),
{
    if outputs.len() == 0 {
        Seq::empty()
    } else {
        let before = shown_outputs(outputs.drop_last());
        if outputs.last().connected {
            before.push(outputs.last().shown())
        } else {
            before
        }
    }
}

/// Lists the displays that are plugged in.
pub fn connected_outputs(listed: &Vec<KdeOutput>) -> (r: Vec<Output>)
    ensures
        r.deep_view() == shown_outputs(listed.deep_view()),
{
    let ghost all = listed.deep_view();
    let mut out: Vec<Output> = Vec::new();
    let mut i: usize = 0;
    assert(out.deep_view() =~= Seq::empty());
    while i < listed.len()
        invariant
            i <= listed.len(),
            all == listed.deep_view(),
            all.len() == listed.len(),
            out.deep_view() == shown_outputs(all.take(i as int)),
        decreases listed.len() - i,
    {
        let ghost before = out.deep_view();
        proof {
            assert(all.take(i + 1).drop_last() =~= all.take(i as int));
            assert(all.take(i + 1).last() == listed@[i as int].deep_view());
        }
        if listed[i].connected {
            let shown = listed[i].copied().into_output();
            out.push(shown);
            assert(out.deep_view() =~= before.push(shown.deep_view()));
        }
        i = i + 1;
    }
    assert(all.take(i as int) =~= all);
    out
}

/// The first display with this name.
pub open spec fn output_named(outputs: Seq<KdeOutputView>, name: Seq<char>) -> Option<KdeOutputView>
    decreases outputs.len(),
{
    if outputs.len() == 0 {
        None
    } else if outputs[0].name == name {
        Some(outputs[0])
    } else {
        output_named(outputs.drop_first(), name)
    }
}

/// What one instruction comes to.
#[derive(Debug)]
pub enum KdeStep {
    /// An argument for the tool.
    Argument(String),
    /// The display is no longer listed.
    NoDisplay,
    /// The display does not offer the mode.
    NoMode,
}

pub enum KdeStepView {
    Argument(Seq<char>),
    NoDisplay,
    NoMode,
}

impl DeepView for KdeStep {
    type V = KdeStepView;

    open spec fn deep_view(&self) -> KdeStepView {
        match self {
            KdeStep::Argument(text) => KdeStepView::Argument(text@),
            KdeStep::NoDisplay => KdeStepView::NoDisplay,
            KdeStep::NoMode => KdeStepView::NoMode,
        }
    }
}

pub open spec fn step_for(outputs: Seq<KdeOutputView>, setting: OutputSettingView) -> KdeStepView {
    match output_named(outputs, setting.connector) {
        None => KdeStepView::NoDisplay,
        Some(output) => match mode_called(output.modes, setting.mode_id) {
            None => KdeStepView::NoMode,
            Some(m) => KdeStepView::Argument("output."@ + output.name + ".mode."@ + m.id),
        },
    }
}

/// The arguments for all the instructions that can be carried out.
pub open spec fn arguments_for(
    outputs: Seq<KdeOutputView>,
    wanted: Seq<OutputSettingView>,
) -> Seq<Seq<char>>
    decreases wanted.len(),
{
    if wanted.len() == 0 {
        Seq::empty()
    } else {
        let before = arguments_for(outputs, wanted.drop_last());
        match step_for(outputs, wanted.last()) {
            KdeStepView::Argument(text) => before.push(text),
            _ => before,
        }
    }
}

fn find_output<'a>(outputs: &'a Vec<KdeOutput>, name: &str) -> (r: Option<&'a KdeOutput>)
    ensures
        match (r, output_named(outputs.deep_view(), name@)) {
            (Some(got), Some(want)) => got.deep_view() == want,
            (None, None) => true,
            _ => false,
        },
{
    let ghost all = outputs.deep_view();
    let mut i: usize = 0;
    assert(all.skip(0) =~= all);
    while i < outputs.len()
        invariant
            i <= outputs.len(),
            all == outputs.deep_view(),
            all.len() == outputs.len(),
            output_named(all.skip(i as int), name@) == output_named(all, name@),
        decreases outputs.len() - i,
    {
        proof {
            assert(all.skip(i as int)[0] == outputs@[i as int].deep_view());
            assert(all.skip(i as int).drop_first() =~= all.skip(i + 1));
        }
        if same(outputs[i].name.as_str(), name) {
            return Some(&outputs[i]);
        }
        i = i + 1;
    }
    None
}

/// Looks up what one instruction comes to.
pub fn step(outputs: &Vec<KdeOutput>, setting: &OutputSetting) -> (r: KdeStep)
    ensures
        r.deep_view() == step_for(outputs.deep_view(), setting.deep_view()),
{
    match find_output(outputs, setting.connector.as_str()) {
        None => KdeStep::NoDisplay,
        Some(output) => match find_called(&output.modes, setting.mode_id.as_str()) {
            None => KdeStep::NoMode,
            Some(m) => {
                let mut text = "output.".to_string();
                text.append(output.name.as_str());
                text.append(".mode.");
                text.append(m.id.as_str());
                KdeStep::Argument(text)
            },
        },
    }
}

/// The arguments of one invocation that changes everything, so that KScreen validates and
/// commits the whole layout at once. Instructions that cannot be carried out are left out,
/// as long as one remains.
pub fn arguments(outputs: &Vec<KdeOutput>, wanted: &[OutputSetting]) -> (r: Result<
    Vec<String>,
    String,
>)
    ensures
        match r {
            Ok(args) => args.deep_view() == arguments_for(outputs.deep_view(), wanted.deep_view())
                && args.len() > 0,
            Err(e) => arguments_for(outputs.deep_view(), wanted.deep_view()).len() == 0 && e@
                == "none of the requested modes are available"@,
        },
{
    let ghost os = outputs.deep_view();
    let ghost all = wanted.deep_view();
    let mut args: Vec<String> = Vec::new();
    let mut i: usize = 0;
    assert(args.deep_view() =~= Seq::empty());
    while i < wanted.len()
        invariant
            i <= wanted.len(),
            os == outputs.deep_view(),
            all == wanted.deep_view(),
            all.len() == wanted.len(),
            args.deep_view() == arguments_for(os, all.take(i as int)),
        decreases wanted.len() - i,
    {
        let ghost before = args.deep_view();
        proof {
            assert(all.take(i + 1).drop_last() =~= all.take(i as int));
            assert(all.take(i + 1).last() == wanted@[i as int].deep_view());
        }
        match step(outputs, &wanted[i]) {
            KdeStep::Argument(text) => {
                args.push(text);
                assert(args.deep_view() =~= before.push(text@));
            },
            _ => {},
        }
        i = i + 1;
    }
    assert(all.take(i as int) =~= all);
    assert(args.deep_view().len() == args.len());
    if args.len() == 0 {
        Err("none of the requested modes are available".to_string())
    } else {
        Ok(args)
    }
}

/// What to say when the tool has failed.
pub fn tool_failure(args: &Vec<String>, stderr: &str) -> (r: String)
    ensures
        r@ == TOOL@ + " "@ + joined(args.deep_view(), " "@) + " failed: "@ + trimmed(stderr@),
{
    let mut text = TOOL.to_string();
    text.append(" ");
    text.append(join(args, " ").as_str());
    text.append(" failed: ");
    text.append(trim(stderr).as_str());
    text
}

proof fn lemma_mode_called(modes: Seq<KdeModeView>, id: Seq<char>, i: int)
    requires
        0 <= i < modes.len(),
        modes[i].mode_id() == id,
    ensures
        mode_called(modes, id) is Some,
        mode_called(modes, id)->Some_0.mode_id() == id,
    decreases modes.len(),
{
    if modes[0].mode_id() != id {
        assert(modes.drop_first()[i - 1] == modes[i]);
        lemma_mode_called(modes.drop_first(), id, i - 1);
    }
}

proof fn lemma_shown_modes(modes: Seq<KdeModeView>, current: Option<Seq<char>>, k: int)
    requires
        0 <= k < shown_modes(modes, current).len(),
    ensures
        exists|i: int|
            0 <= i < modes.len() && #[trigger] modes[i].mode_id() == shown_modes(
                modes,
                current,
            )[k].id,
    decreases modes.len(),
{
    let front = modes.drop_last();
    let before = shown_modes(front, current);
    if k < before.len() {
        lemma_shown_modes(front, current, k);
        let i = choose|i: int| 0 <= i < front.len() && #[trigger] front[i].mode_id() == before[k].id;
        assert(modes[i].mode_id() == before[k].id);
    } else {
        assert(modes[modes.len() - 1].mode_id() == shown_modes(modes, current)[k].id);
    }
}

/// Every mode that a display shows can also be asked for: an instruction that names the
/// first display of its name and one of the modes shown for it is always carried out.
pub proof fn law_shown_modes_can_be_asked_for(
    outputs: Seq<KdeOutputView>,
    setting: OutputSettingView,
    k: int,
)
    requires
        output_named(outputs, setting.connector) is Some,
        0 <= k < output_named(outputs, setting.connector)->Some_0.shown().modes.len(),
        setting.mode_id == output_named(outputs, setting.connector)->Some_0.shown().modes[k].id,
    ensures
        step_for(outputs, setting) is Argument,
{
    let output = output_named(outputs, setting.connector)->Some_0;
    lemma_shown_modes(output.modes, output.current_mode_id, k);
    let i = choose|i: int|
        0 <= i < output.modes.len() && #[trigger] output.modes[i].mode_id() == setting.mode_id;
    lemma_mode_called(output.modes, setting.mode_id, i);
}

/// The geometry of a mode. Its size is the one it is listed with, or else what its name says
/// before an `@`; its rate is the one it is listed with, or else what its name says behind the
/// `@`. Where either is missing there is none, and KScreen's own id stands for the mode.
pub proof fn law_a_geometry_is_listed_or_named(
    m: KdeModeView,
    front: Seq<char>,
    back: Seq<char>,
)
    requires
        !front.contains('@'),
    ensures
        ({
            let named = KdeModeView { name: Some(front + seq!['@'] + back), ..m };
            let size = match m.size {
                Some(s) => Some((s.width, s.height)),
                None => parsed_size(front),
            };
            let rate = match m.refresh_rate {
                Some(r) => Some(r),
                None => parsed_rate(trimmed(back)),
            };
            &&& size is Some && rate is Some ==> named.geometry() == Some(
                (size->Some_0.0, size->Some_0.1, rate->Some_0),
            ) && named.mode_id() == mode_text(size->Some_0.0, size->Some_0.1, rate->Some_0)
            &&& size is None || rate is None ==> named.geometry() is None && named.mode_id() == m.id
        }),
        ({
            let nameless = KdeModeView { name: None, ..m };
            &&& m.size is Some && m.refresh_rate is Some ==> nameless.geometry() == Some(
                (m.size->Some_0.width, m.size->Some_0.height, m.refresh_rate->Some_0),
            )
            &&& m.size is None || m.refresh_rate is None ==> nameless.geometry() is None
                && nameless.mode_id() == m.id
        }),
        ({
            let short = KdeModeView { name: Some(front), ..m };
            m.refresh_rate is None ==> short.geometry() is None
        }),
        ({
            let short = KdeModeView { name: Some(front), ..m };
            m.size is None && m.refresh_rate is Some ==> (match parsed_size(front) {
                Some(s) => short.geometry() == Some((s.0, s.1, m.refresh_rate->Some_0)),
                None => short.geometry() is None,
            })
        }),
{
    let name = front + seq!['@'] + back;
    let k = front.len() as int;
    assert forall|i: int| 0 <= i < k implies name[i] != '@' by {
        assert(name[i] == front[i]);
    }
    lemma_find_char_unique(name, '@', k);
    assert(name.take(k) =~= front);
    assert(name.skip(k + 1) =~= back);
    lemma_find_char(front, '@');
}

/// The modes of a display are listed in its order, those without a geometry left out, each
/// under the id of the settings, and the one with the current id as current.
pub proof fn law_the_modes_of_a_display_are_listed(
    modes: Seq<KdeModeView>,
    m: KdeModeView,
    current: Option<Seq<char>>,
)
    ensures
        ({
            let before = shown_modes(modes, current);
            let now = shown_modes(modes.push(m), current);
            &&& shown_modes(Seq::empty(), current).len() == 0
            &&& m.geometry() is None ==> now == before
            &&& m.geometry() matches Some(g) ==> {
                &&& now.len() == before.len() + 1 && now.take(before.len() as int) == before
                &&& now.last().id == m.mode_id()
                &&& now.last().width == g.0 && now.last().height == g.1 && now.last().refresh == g.2
                &&& !now.last().preferred
                &&& now.last().current <==> current == Some(m.id)
            }
        }),
{
    assert(modes.push(m).drop_last() =~= modes);
    assert(modes.push(m).last() == m);
    if m.geometry() is Some {
        let before = shown_modes(modes, current);
        assert(shown_modes(modes.push(m), current).take(before.len() as int) =~= before);
    }
}

/// A display is listed with its own name and what is known of it, and in the first mode that
/// has the current number.
pub proof fn law_a_display_is_listed_as_it_is(o: KdeOutputView, id: Seq<char>, k: int)
    requires
        o.current_mode_id == Some(id),
        0 <= k <= o.modes.len(),
        k < o.modes.len() ==> o.modes[k].id == id,
        forall|j: int| 0 <= j < k ==> (#[trigger] o.modes[j]).id != id,
    ensures
        o.shown().connector == o.name,
        o.shown().enabled == o.enabled,
        o.vendor matches Some(s) ==> o.shown().make == s,
        o.vendor is None ==> o.shown().make.len() == 0,
        o.model matches Some(s) ==> o.shown().model == s,
        o.model is None ==> o.shown().model.len() == 0,
        o.serial matches Some(s) ==> o.shown().serial == s,
        o.serial is None ==> o.shown().serial.len() == 0,
        o.shown().modes == shown_modes(o.modes, o.current_mode_id),
        k < o.modes.len() ==> o.shown().current_mode == Some(o.modes[k].mode_id()),
        k == o.modes.len() ==> o.shown().current_mode is None,
        (KdeOutputView { current_mode_id: None, ..o }).shown().current_mode is None,
{
    lemma_numbered(o.modes, id, k);
}

proof fn lemma_numbered(modes: Seq<KdeModeView>, id: Seq<char>, k: int)
    requires
        0 <= k <= modes.len(),
        k < modes.len() ==> modes[k].id == id,
        forall|j: int| 0 <= j < k ==> (#[trigger] modes[j]).id != id,
    ensures
        mode_numbered(modes, id) == (if k < modes.len() {
            Some(modes[k])
        } else {
            None
        }),
    decreases k,
{
    if k > 0 {
        let rest = modes.drop_first();
        assert(modes[0].id != id);
        assert forall|j: int| 0 <= j < k - 1 implies (#[trigger] rest[j]).id != id by {
            assert(rest[j] == modes[j + 1]);
        }
        lemma_numbered(rest, id, k - 1);
    }
}

proof fn lemma_called(modes: Seq<KdeModeView>, id: Seq<char>, k: int)
    requires
        0 <= k <= modes.len(),
        k < modes.len() ==> modes[k].mode_id() == id,
        forall|j: int| 0 <= j < k ==> (#[trigger] modes[j]).mode_id() != id,
    ensures
        mode_called(modes, id) == (if k < modes.len() {
            Some(modes[k])
        } else {
            None
        }),
    decreases k,
{
    if k > 0 {
        let rest = modes.drop_first();
        assert(modes[0].mode_id() != id);
        assert forall|j: int| 0 <= j < k - 1 implies (#[trigger] rest[j]).mode_id() != id by {
            assert(rest[j] == modes[j + 1]);
        }
        lemma_called(rest, id, k - 1);
    }
}

proof fn lemma_output_named(outputs: Seq<KdeOutputView>, name: Seq<char>, k: int)
    requires
        0 <= k <= outputs.len(),
        k < outputs.len() ==> outputs[k].name == name,
        forall|j: int| 0 <= j < k ==> (#[trigger] outputs[j]).name != name,
    ensures
        output_named(outputs, name) == (if k < outputs.len() {
            Some(outputs[k])
        } else {
            None
        }),
    decreases k,
{
    if k > 0 {
        let rest = outputs.drop_first();
        assert(outputs[0].name != name);
        assert forall|j: int| 0 <= j < k - 1 implies (#[trigger] rest[j]).name != name by {
            assert(rest[j] == outputs[j + 1]);
        }
        lemma_output_named(rest, name, k - 1);
    }
}

/// What one instruction comes to: the argument names the first display of the name, and the
/// number of the first of its modes that goes by the id. Without the display, or the mode,
/// there is no argument.
pub proof fn law_an_instruction_names_a_mode_by_its_number(
    outputs: Seq<KdeOutputView>,
    setting: OutputSettingView,
    k: int,
    m: int,
)
    requires
        0 <= k <= outputs.len(),
        k < outputs.len() ==> outputs[k].name == setting.connector,
        forall|j: int| 0 <= j < k ==> (#[trigger] outputs[j]).name != setting.connector,
        k < outputs.len() ==> 0 <= m <= outputs[k].modes.len(),
        k < outputs.len() && m < outputs[k].modes.len() ==> outputs[k].modes[m].mode_id()
            == setting.mode_id,
        k < outputs.len() ==> forall|j: int|
            0 <= j < m ==> (#[trigger] outputs[k].modes[j]).mode_id() != setting.mode_id,
    ensures
        k == outputs.len() ==> step_for(outputs, setting) == KdeStepView::NoDisplay,
        k < outputs.len() && m == outputs[k].modes.len() ==> step_for(outputs, setting)
            == KdeStepView::NoMode,
        k < outputs.len() && m < outputs[k].modes.len() ==> step_for(outputs, setting)
            == KdeStepView::Argument(
            "output."@ + setting.connector + ".mode."@ + outputs[k].modes[m].id,
        ),
{
    lemma_output_named(outputs, setting.connector, k);
    if k < outputs.len() {
        lemma_called(outputs[k].modes, setting.mode_id, m);
    }
}

/// The arguments are those of the instructions, in order; an instruction without one is left
/// out.
pub proof fn law_arguments_follow_the_instructions(
    outputs: Seq<KdeOutputView>,
    a: Seq<OutputSettingView>,
    b: Seq<OutputSettingView>,
    one: OutputSettingView,
)
    ensures
        arguments_for(outputs, a + b) == arguments_for(outputs, a) + arguments_for(outputs, b),
        step_for(outputs, one) matches KdeStepView::Argument(text) ==> arguments_for(
            outputs,
            seq![one],
        ) == seq![text],
        !(step_for(outputs, one) is Argument) ==> arguments_for(outputs, seq![one]).len() == 0,
    decreases b.len(),
{
    reveal_with_fuel(arguments_for, 2);
    assert(seq![one].drop_last() =~= Seq::<OutputSettingView>::empty());
    assert(seq![one].last() == one);
    if let KdeStepView::Argument(text) = step_for(outputs, one) {
        assert(Seq::<Seq<char>>::empty().push(text) =~= seq![text]);
    }
    if b.len() == 0 {
        assert(a + b =~= a);
        assert(arguments_for(outputs, a) + arguments_for(outputs, b) =~= arguments_for(outputs, a));
    } else {
        law_arguments_follow_the_instructions(outputs, a, b.drop_last(), one);
        assert((a + b).drop_last() =~= a + b.drop_last());
        assert((a + b).last() == b.last());
        assert(arguments_for(outputs, a + b) =~= arguments_for(outputs, a) + arguments_for(
            outputs,
            b,
        ));
    }
}

/// The displays that are listed are those that are plugged in, in their order, and no others.
pub proof fn law_what_is_plugged_in_is_listed(
    a: Seq<KdeOutputView>,
    b: Seq<KdeOutputView>,
    one: KdeOutputView,
)
    ensures
        shown_outputs(a + b) == shown_outputs(a) + shown_outputs(b),
        one.connected ==> shown_outputs(seq![one]) == seq![one.shown()],
        !one.connected ==> shown_outputs(seq![one]).len() == 0,
    decreases b.len(),
{
    reveal_with_fuel(shown_outputs, 2);
    assert(seq![one].drop_last() =~= Seq::<KdeOutputView>::empty());
    assert(seq![one].last() == one);
    assert(Seq::<OutputView>::empty().push(one.shown()) =~= seq![one.shown()]);
    if b.len() == 0 {
        assert(a + b =~= a);
        assert(shown_outputs(a) + shown_outputs(b) =~= shown_outputs(a));
    } else {
        law_what_is_plugged_in_is_listed(a, b.drop_last(), one);
        assert((a + b).drop_last() =~= a + b.drop_last());
        assert((a + b).last() == b.last());
        assert(shown_outputs(a + b) =~= shown_outputs(a) + shown_outputs(b));
    }
}

/// The tool is called by its name; from a sandbox the call is handed out to the host.
pub proof fn law_the_tool_is_called_on_the_host()
    ensures
        tool_command(false) == seq!["kscreen-doctor"@],
        tool_command(true) == seq!["flatpak-spawn"@, "--host"@] + tool_command(false),
{
    assert(tool_command(true) =~= seq!["flatpak-spawn"@, "--host"@] + tool_command(false));
}

} // verus!
