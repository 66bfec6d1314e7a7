//! wlroots, through `wlr-output-management-unstable-v1`.
//!
//! The protocol is implemented by sway, Hyprland, river, Wayfire, labwc and cosmic-comp,
//! so one client covers most of the non-GNOME, non-KDE Wayland world.
//!
//! Note that a configuration must describe *every* head, not just the ones being changed:
//! heads left out are rejected by the compositor.
//!
//! Heads and modes go by the number under which the client knows their protocol object.

use vstd::prelude::*;

use crate::display::assign::{asked_id, find_setting, OutputSetting, OutputSettingView};
use crate::display::mode::{
    at_least_zero, format_mode_id, mode_text, not_negative, Mode, ModeView, Output, OutputView,
};
use crate::double::{quotient, ratio, with_sign, Double, ONE, SIGN};
use crate::text::same;

verus! {

/// Highest version this client understands. `make`/`model`/`serial_number` arrived in 2.
pub const MANAGER_VERSION: u32 = 4;

/// A misbehaving compositor should make us give up rather than hang the daemon.
pub const MAX_DISPATCHES: usize = 200;

/// The version to bind of the one that is offered.
pub fn bind_version(offered: u32) -> (r: u32)
    ensures
        r == if offered < MANAGER_VERSION {
            offered
        } else {
            MANAGER_VERSION
        },
{
    if offered < MANAGER_VERSION {
        offered
    } else {
        MANAGER_VERSION
    }
}

/// Counts a dispatch of events. There is only so much patience.
pub fn count_dispatch(dispatches: usize) -> (r: Result<usize, String>)
    ensures
        match r {
            Ok(n) => dispatches < MAX_DISPATCHES && n == dispatches + 1,
            Err(e) => dispatches >= MAX_DISPATCHES && e@ == "the compositor stopped responding"@,
        },
{
    if dispatches >= MAX_DISPATCHES {
        Err("the compositor stopped responding".to_string())
    } else {
        Ok(dispatches + 1)
    }
}

/// The number of hertz nearest to a number of millihertz.
pub open spec fn hertz(refresh_mhz: i32) -> Double {
    if refresh_mhz < 0 {
        with_sign(ratio((-refresh_mhz) as nat, 1000), true)
    } else {
        with_sign(ratio(refresh_mhz as nat, 1000), false)
    }
}

/// A rate in hertz from one in millihertz.
pub fn refresh_hz(refresh_mhz: i32) -> (r: Double)
    ensures
        r == hertz(refresh_mhz),
{
    if refresh_mhz < 0 {
        let size = quotient((-(refresh_mhz as i64)) as u64, 1000);
        Double { bits: size.bits + SIGN }
    } else {
        quotient(refresh_mhz as u64, 1000)
    }
}

pub open spec fn entry_text(width: i32, height: i32, refresh_mhz: i32) -> Seq<char> {
    mode_text(at_least_zero(width), at_least_zero(height), hertz(refresh_mhz))
}

/// The id under which the settings know a mode.
pub fn mode_id(width: i32, height: i32, refresh_mhz: i32) -> (r: String)
    ensures
        r@ == entry_text(width, height, refresh_mhz),
{
    format_mode_id(not_negative(width), not_negative(height), refresh_hz(refresh_mhz))
}

/// A mode as far as it has been described.
#[derive(Clone, Copy, Debug, PartialEq, Eq)]
pub struct ModeEntry {
    pub key: u64,
    pub width: i32,
    pub height: i32,
    pub refresh_mhz: i32,
    pub preferred: bool,
}

impl ModeEntry {
    pub open spec fn text_id(self) -> Seq<char> {
        entry_text(self.width, self.height, self.refresh_mhz)
    }

    pub fn id(&self) -> (r: String)
        ensures
            r@ == self.text_id(),
    {
        mode_id(self.width, self.height, self.refresh_mhz)
    }
}

/// A display as far as it has been described.
#[derive(Debug)]
pub struct Head {
    pub key: u64,
    pub name: String,
    pub make: String,
    pub model: String,
    pub serial_number: String,
    pub enabled: bool,
    pub current_mode_key: Option<u64>,
    pub modes: Vec<ModeEntry>,
    pub position: (i32, i32),
    pub transform: Option<u32>,
    pub scale: Double,
}

pub struct HeadView {
    pub key: u64,
    pub name: Seq<char>,
    pub make: Seq<char>,
    pub model: Seq<char>,
    pub serial_number: Seq<char>,
    pub enabled: bool,
    pub current_mode_key: Option<u64>,
    pub modes: Seq<ModeEntry>,
    pub position: (i32, i32),
    pub transform: Option<u32>,
    pub scale: Double,
}

impl DeepView for Head {
    type V = HeadView;

    open spec fn deep_view(&self) -> HeadView {
        HeadView {
            key: self.key,
            name: self.name@,
            make: self.make@,
            model: self.model@,
            serial_number: self.serial_number@,
            enabled: self.enabled,
            current_mode_key: self.current_mode_key,
            modes: self.modes@,
            position: self.position,
            transform: self.transform,
            scale: self.scale,
        }
    }
}

/// The first mode with this key, by position; the length where there is none.
pub open spec fn mode_at(modes: Seq<ModeEntry>, key: u64) -> int
    decreases modes.len(),
{
    if modes.len() == 0 || modes[0].key == key {
        0
    } else {
        1 + mode_at(modes.drop_first(), key)
    }
}

proof fn lemma_mode_at(modes: Seq<ModeEntry>, key: u64, i: int)
    requires
        0 <= i <= modes.len(),
        forall|j: int| 0 <= j < i ==> (#[trigger] modes[j]).key != key,
        i < modes.len() ==> modes[i].key == key,
    ensures
        mode_at(modes, key) == i,
    decreases i,
{
    if i > 0 {
        assert(modes[0].key != key);
        let rest = modes.drop_first();
        assert forall|j: int| 0 <= j < i - 1 implies (#[trigger] rest[j]).key != key by {
            assert(rest[j] == modes[j + 1]);
        }
        lemma_mode_at(rest, key, i - 1);
    }
}

fn find_mode(modes: &Vec<ModeEntry>, key: u64) -> (r: usize)
    ensures
        r == mode_at(modes@, key),
        r <= modes.len(),
{
    let mut i: usize = 0;
    while i < modes.len() && modes[i].key != key
        invariant
            i <= modes.len(),
            forall|j: int| 0 <= j < i ==> (#[trigger] modes@[j]).key != key,
        decreases modes.len() - i,
    {
        i = i + 1;
    }
    proof {
        lemma_mode_at(modes@, key, i as int);
    }
    i
}

/// The modes that do not have this key.
pub open spec fn without_mode(modes: Seq<ModeEntry>, key: u64) -> Seq<ModeEntry>
    decreases modes.len(),
{
    if modes.len() == 0 {
        Seq::empty()
    } else {
        let before = without_mode(modes.drop_last(), key);
        if modes.last().key == key {
            before
        } else {
            before.push(modes.last())
        }
    }
}

fn drop_mode(modes: &Vec<ModeEntry>, key: u64) -> (r: Vec<ModeEntry>)
    ensures
        r@ == without_mode(modes@, key),
{
    let mut out: Vec<ModeEntry> = Vec::new();
    let mut i: usize = 0;
    while i < modes.len()
        invariant
            i <= modes.len(),
            out@ == without_mode(modes@.take(i as int), key),
        decreases modes.len() - i,
    {
        assert(modes@.take(i + 1).drop_last() =~= modes@.take(i as int));
        if modes[i].key != key {
            out.push(modes[i]);
        }
        i = i + 1;
    }
    assert(modes@.take(i as int) =~= modes@);
    out
}

/// What the compositor says of a head.
#[derive(Debug)]
pub enum HeadEvent {
    Name(String),
    Make(String),
    Model(String),
    SerialNumber(String),
    Enabled(i32),
    CurrentMode(u64),
    Position(i32, i32),
    /// `None` stands for a transform that the client does not know.
    Transform(Option<u32>),
    Scale(Double),
    Mode(u64),
    Finished,
    Other,
}

pub enum HeadEventView {
    Name(Seq<char>),
    Make(Seq<char>),
    Model(Seq<char>),
    SerialNumber(Seq<char>),
    Enabled(i32),
    CurrentMode(u64),
    Position(i32, i32),
    Transform(Option<u32>),
    Scale(Double),
    Mode(u64),
    Finished,
    Other,
}

impl DeepView for HeadEvent {
    type V = HeadEventView;

    open spec fn deep_view(&self) -> HeadEventView {
        match self {
            HeadEvent::Name(s) => HeadEventView::Name(s@),
            HeadEvent::Make(s) => HeadEventView::Make(s@),
            HeadEvent::Model(s) => HeadEventView::Model(s@),
            HeadEvent::SerialNumber(s) => HeadEventView::SerialNumber(s@),
            HeadEvent::Enabled(n) => HeadEventView::Enabled(*n),
            HeadEvent::CurrentMode(k) => HeadEventView::CurrentMode(*k),
            HeadEvent::Position(x, y) => HeadEventView::Position(*x, *y),
            HeadEvent::Transform(t) => HeadEventView::Transform(*t),
            HeadEvent::Scale(s) => HeadEventView::Scale(*s),
            HeadEvent::Mode(k) => HeadEventView::Mode(*k),
            HeadEvent::Finished => HeadEventView::Finished,
            HeadEvent::Other => HeadEventView::Other,
        }
    }
}

/// A mode of which nothing has been said yet.
pub open spec fn blank_mode(key: u64) -> ModeEntry {
    ModeEntry { key, width: 0, height: 0, refresh_mhz: 0, preferred: false }
}

impl HeadView {
    /// A head of which nothing has been said yet.
    pub open spec fn blank(key: u64) -> HeadView {
        HeadView {
            key,
            name: Seq::empty(),
            make: Seq::empty(),
            model: Seq::empty(),
            serial_number: Seq::empty(),
            enabled: false,
            current_mode_key: None,
            modes: Seq::empty(),
            position: (0, 0),
            transform: None,
            scale: Double { bits: ONE },
        }
    }

    /// The head once it has been told something.
    pub open spec fn told(self, event: HeadEventView) -> HeadView {
        match event {
            HeadEventView::Name(s) => HeadView { name: s, ..self },
            HeadEventView::Make(s) => HeadView { make: s, ..self },
            HeadEventView::Model(s) => HeadView { model: s, ..self },
            HeadEventView::SerialNumber(s) => HeadView { serial_number: s, ..self },
            HeadEventView::Enabled(n) => HeadView { enabled: n != 0, ..self },
            HeadEventView::CurrentMode(k) => HeadView { current_mode_key: Some(k), ..self },
            HeadEventView::Position(x, y) => HeadView { position: (x, y), ..self },
            HeadEventView::Transform(t) => HeadView { transform: t, ..self },
            HeadEventView::Scale(s) => HeadView { scale: s, ..self },
            HeadEventView::Mode(k) => HeadView { modes: self.modes.push(blank_mode(k)), ..self },
            HeadEventView::Finished => self,
            HeadEventView::Other => self,
        }
    }

    /// The mode that the head is in, where it is known.
    pub open spec fn current(self) -> Option<ModeEntry> {
        match self.current_mode_key {
            Some(key) => if mode_at(self.modes, key) < self.modes.len() {
                Some(self.modes[mode_at(self.modes, key)])
            } else {
                None
            },
            None => None,
        }
    }

    pub open spec fn shown_mode(self, m: ModeEntry) -> ModeView {
        ModeView {
            id: m.text_id(),
            width: at_least_zero(m.width),
            height: at_least_zero(m.height),
            refresh: hertz(m.refresh_mhz),
            preferred: m.preferred,
            current: self.current_mode_key == Some(m.key),
        }
    }

    pub open spec fn shown(self) -> OutputView {
        OutputView {
            connector: self.name,
            make: self.make,
            model: self.model,
            serial: self.serial_number,
            modes: self.modes.map_values(|m: ModeEntry| self.shown_mode(m)),
            current_mode: match self.current() {
                Some(m) => Some(m.text_id()),
                None => None,
            },
            enabled: self.enabled,
        }
    }
}

impl Head {
    pub fn new(key: u64) -> (r: Self)
        ensures
            r.deep_view() == HeadView::blank(key),
    {
        let r = Head {
            key,
            name: String::new(),
            make: String::new(),
            model: String::new(),
            serial_number: String::new(),
            enabled: false,
            current_mode_key: None,
            modes: Vec::new(),
            position: (0, 0),
            transform: None,
            scale: Double { bits: ONE },
        };
        assert(r.deep_view().name =~= Seq::<char>::empty());
        assert(r.deep_view().modes =~= Seq::<ModeEntry>::empty());
        r
    }

    /// Takes in what the compositor says.
    fn tell(&mut self, event: HeadEvent)
        ensures
            final(self).deep_view() == old(self).deep_view().told(event.deep_view()),
    {
        match event {
            HeadEvent::Name(name) => {
                self.name = name;
            },
            HeadEvent::Make(make) => {
                self.make = make;
            },
            HeadEvent::Model(model) => {
                self.model = model;
            },
            HeadEvent::SerialNumber(serial_number) => {
                self.serial_number = serial_number;
            },
            HeadEvent::Enabled(enabled) => {
                self.enabled = enabled != 0;
            },
            HeadEvent::CurrentMode(key) => {
                self.current_mode_key = Some(key);
            },
            HeadEvent::Position(x, y) => {
                self.position = (x, y);
            },
            HeadEvent::Transform(transform) => {
                self.transform = transform;
            },
            HeadEvent::Scale(scale) => {
                self.scale = scale;
            },
            HeadEvent::Mode(key) => {
                self.modes.push(
                    ModeEntry { key, width: 0, height: 0, refresh_mhz: 0, preferred: false },
                );
            },
            HeadEvent::Finished => {},
            HeadEvent::Other => {},
        }
    }

    pub fn current_mode(&self) -> (r: Option<ModeEntry>)
        ensures
            r == self.deep_view().current(),
    {
        match self.current_mode_key {
            Some(key) => {
                let i = find_mode(&self.modes, key);
                if i < self.modes.len() {
                    Some(self.modes[i])
                } else {
                    None
                }
            },
            None => None,
        }
    }

    /// The display in the form that every backend reports.
    pub fn to_output(&self) -> (r: Output)
        ensures
            r.deep_view() == self.deep_view().shown(),
    {
        let ghost view = self.deep_view();
        let mut modes: Vec<Mode> = Vec::new();
        let mut i: usize = 0;
        while i < self.modes.len()
            invariant
                i <= self.modes.len(),
                view == self.deep_view(),
                modes.deep_view() == view.modes.take(i as int).map_values(
                    |m: ModeEntry| view.shown_mode(m),
                ),
            decreases self.modes.len() - i,
        {
            let ghost before = modes.deep_view();
            let m = self.modes[i];
            let mode = Mode {
                id: m.id(),
                width: not_negative(m.width),
                height: not_negative(m.height),
                refresh: refresh_hz(m.refresh_mhz),
                preferred: m.preferred,
                current: match self.current_mode_key {
                    Some(key) => key == m.key,
                    None => false,
                },
            };
            modes.push(mode);
            i = i + 1;
            assert(mode.deep_view() == view.shown_mode(m));
            assert(modes.deep_view() =~= before.push(mode.deep_view()));
            assert(modes.deep_view() =~= view.modes.take(i as int).map_values(
                |m: ModeEntry| view.shown_mode(m),
            ));
        }
        assert(view.modes.take(i as int) =~= view.modes);
        let current_mode = match self.current_mode() {
            Some(m) => Some(m.id()),
            None => None,
        };
        Output {
            connector: self.name.clone(),
            make: self.make.clone(),
            model: self.model.clone(),
            serial: self.serial_number.clone(),
            modes,
            current_mode,
            enabled: self.enabled,
        }
    }
}

/// The answer to a configuration.
#[derive(Clone, Copy, Debug, PartialEq, Eq, Structural)]
pub enum Outcome {
    Succeeded,
    Failed,
    Cancelled,
}

/// What the compositor says of a mode.
#[derive(Clone, Copy, Debug, PartialEq, Eq, Structural)]
pub enum ModeEvent {
    Size(i32, i32),
    Refresh(i32),
    Preferred,
    Finished,
    Other,
}

/// What the compositor says of the whole.
#[derive(Clone, Copy, Debug, PartialEq, Eq, Structural)]
pub enum ManagerEvent {
    Head(u64),
    Done(u32),
    Other,
}

/// Everything that has been said so far.
#[derive(Debug)]
pub struct State {
    pub serial: u32,
    pub done: bool,
    pub heads: Vec<Head>,
    pub outcome: Option<Outcome>,
}

pub struct StateView {
    pub serial: u32,
    pub done: bool,
    pub heads: Seq<HeadView>,
    pub outcome: Option<Outcome>,
}

impl DeepView for State {
    type V = StateView;

    open spec fn deep_view(&self) -> StateView {
        StateView {
            serial: self.serial,
            done: self.done,
            heads: self.heads.deep_view(),
            outcome: self.outcome,
        }
    }
}

impl Default for State {
    fn default() -> (r: Self)
        ensures
            r.deep_view() == (StateView {
                serial: 0,
                done: false,
                heads: Seq::empty(),
                outcome: None,
            }),
    {
        let r = State { serial: 0, done: false, heads: Vec::new(), outcome: None };
        assert(r.deep_view().heads =~= Seq::empty());
        r
    }
}

/// The first head with this key, by position; the length where there is none.
pub open spec fn head_at(heads: Seq<HeadView>, key: u64) -> int
    decreases heads.len(),
{
    if heads.len() == 0 || heads[0].key == key {
        0
    } else {
        1 + head_at(heads.drop_first(), key)
    }
}

/// The first head that lists a mode with this key.
pub open spec fn owner_at(heads: Seq<HeadView>, key: u64) -> int
    decreases heads.len(),
{
    if heads.len() == 0 || mode_at(heads[0].modes, key) < heads[0].modes.len() {
        0
    } else {
        1 + owner_at(heads.drop_first(), key)
    }
}

/// The heads that do not have this key.
pub open spec fn without_head(heads: Seq<HeadView>, key: u64) -> Seq<HeadView>
    decreases heads.len(),
{
    if heads.len() == 0 {
        Seq::empty()
    } else {
        let before = without_head(heads.drop_last(), key);
        if heads.last().key == key {
            before
        } else {
            before.push(heads.last())
        }
    }
}

/// A mode once it has been told something.
pub open spec fn mode_told(m: ModeEntry, event: ModeEvent) -> ModeEntry {
    match event {
        ModeEvent::Size(width, height) => ModeEntry { width, height, ..m },
        ModeEvent::Refresh(refresh_mhz) => ModeEntry { refresh_mhz, ..m },
        ModeEvent::Preferred => ModeEntry { preferred: true, ..m },
        ModeEvent::Finished => m,
        ModeEvent::Other => m,
    }
}

impl StateView {
    pub open spec fn on_manager(self, event: ManagerEvent) -> StateView {
        match event {
            ManagerEvent::Head(key) => StateView {
                heads: self.heads.push(HeadView::blank(key)),
                ..self
            },
            ManagerEvent::Done(serial) => StateView { serial, done: true, ..self },
            ManagerEvent::Other => self,
        }
    }

    pub open spec fn on_head(self, key: u64, event: HeadEventView) -> StateView {
        if event is Finished {
            StateView { heads: without_head(self.heads, key), ..self }
        } else {
            let i = head_at(self.heads, key);
            if i < self.heads.len() {
                StateView { heads: self.heads.update(i, self.heads[i].told(event)), ..self }
            } else {
                self
            }
        }
    }

    pub open spec fn on_mode(self, key: u64, event: ModeEvent) -> StateView {
        if event is Finished {
            StateView {
                heads: self.heads.map_values(
                    |h: HeadView| HeadView { modes: without_mode(h.modes, key), ..h },
                ),
                ..self
            }
        } else {
            let i = owner_at(self.heads, key);
            if i < self.heads.len() {
                let h = self.heads[i];
                let m = mode_at(h.modes, key);
                StateView {
                    heads: self.heads.update(
                        i,
                        HeadView { modes: h.modes.update(m, mode_told(h.modes[m], event)), ..h },
                    ),
                    ..self
                }
            } else {
                self
            }
        }
    }
}

proof fn lemma_head_at(heads: Seq<HeadView>, key: u64, i: int)
    requires
        0 <= i <= heads.len(),
        forall|j: int| 0 <= j < i ==> (#[trigger] heads[j]).key != key,
        i < heads.len() ==> heads[i].key == key,
    ensures
        head_at(heads, key) == i,
    decreases i,
{
    if i > 0 {
        assert(heads[0].key != key);
        let rest = heads.drop_first();
        assert forall|j: int| 0 <= j < i - 1 implies (#[trigger] rest[j]).key != key by {
            assert(rest[j] == heads[j + 1]);
        }
        lemma_head_at(rest, key, i - 1);
    }
}

proof fn lemma_owner_at(heads: Seq<HeadView>, key: u64, i: int)
    requires
        0 <= i <= heads.len(),
        forall|j: int|
            0 <= j < i ==> mode_at((#[trigger] heads[j]).modes, key) >= heads[j].modes.len(),
        i < heads.len() ==> mode_at(heads[i].modes, key) < heads[i].modes.len(),
    ensures
        owner_at(heads, key) == i,
    decreases i,
{
    if i > 0 {
        assert(mode_at(heads[0].modes, key) >= heads[0].modes.len());
        let rest = heads.drop_first();
        assert forall|j: int| 0 <= j < i - 1 implies mode_at((#[trigger] rest[j]).modes, key)
            >= rest[j].modes.len() by {
            assert(rest[j] == heads[j + 1]);
        }
        lemma_owner_at(rest, key, i - 1);
    }
}

impl State {
    fn find_head(&self, key: u64) -> (r: usize)
        ensures
            r == head_at(self.deep_view().heads, key),
            r <= self.heads.len(),
    {
        let ghost all = self.deep_view().heads;
        let mut i: usize = 0;
        while i < self.heads.len() && self.heads[i].key != key
            invariant
                i <= self.heads.len(),
                all == self.deep_view().heads,
                forall|j: int| 0 <= j < i ==> (#[trigger] all[j]).key != key,
            decreases self.heads.len() - i,
        {
            assert(all[i as int] == self.heads@[i as int].deep_view());
            i = i + 1;
        }
        proof {
            if i < self.heads.len() {
                assert(all[i as int] == self.heads@[i as int].deep_view());
            }
            lemma_head_at(all, key, i as int);
        }
        i
    }

    fn find_owner(&self, key: u64) -> (r: usize)
        ensures
            r == owner_at(self.deep_view().heads, key),
            r <= self.heads.len(),
    {
        let ghost all = self.deep_view().heads;
        let mut i: usize = 0;
        while i < self.heads.len()
            invariant
                i <= self.heads.len(),
                all == self.deep_view().heads,
                all.len() == self.heads.len(),
                forall|j: int|
                    0 <= j < i ==> mode_at((#[trigger] all[j]).modes, key) >= all[j].modes.len(),
            decreases self.heads.len() - i,
        {
            assert(all[i as int] == self.heads@[i as int].deep_view());
            if find_mode(&self.heads[i].modes, key) < self.heads[i].modes.len() {
                proof {
                    lemma_owner_at(all, key, i as int);
                }
                return i;
            }
            i = i + 1;
        }
        proof {
            lemma_owner_at(all, key, i as int);
        }
        i
    }

    /// Takes in what the compositor says of the whole: it lists every head and mode, then
    /// sends a `done` carrying the serial that a configuration must quote.
    pub fn on_manager(&mut self, event: ManagerEvent)
        ensures
            final(self).deep_view() == old(self).deep_view().on_manager(event),
    {
        let ghost before = self.heads.deep_view();
        match event {
            ManagerEvent::Head(key) => {
                let head = Head::new(key);
                self.heads.push(head);
                assert(self.heads.deep_view() =~= before.push(head.deep_view()));
            },
            ManagerEvent::Done(serial) => {
                self.serial = serial;
                self.done = true;
            },
            ManagerEvent::Other => {},
        }
    }

    fn drop_head(&mut self, key: u64)
        ensures
            final(self).deep_view() == (StateView {
                heads: without_head(old(self).deep_view().heads, key),
                ..old(self).deep_view()
            }),
    {
        let ghost all = self.heads.deep_view();
        let mut i: usize = 0;
        let ghost mut done: int = 0;
        assert(all.skip(0) =~= all);
        assert(self.heads.deep_view() =~= without_head(all.take(0), key) + all.skip(0));
        while i < self.heads.len()
            invariant
                0 <= done <= all.len(),
                i <= self.heads.len(),
                self.serial == old(self).serial,
                self.done == old(self).done,
                self.outcome == old(self).outcome,
                i == without_head(all.take(done), key).len(),
                self.heads.deep_view() == without_head(all.take(done), key) + all.skip(done),
            decreases self.heads.len() - i,
        {
            let ghost now = self.heads.deep_view();
            proof {
                assert(now.len() == self.heads.len());
                assert(done < all.len());
                assert(all.take(done + 1).drop_last() =~= all.take(done));
                assert(all.take(done + 1).last() == all[done]);
                assert(now[i as int] == all.skip(done)[0]);
                assert(now[i as int] == self.heads@[i as int].deep_view());
            }
            if self.heads[i].key == key {
                let gone = self.heads.remove(i);
                assert(self.heads.deep_view() =~= now.remove(i as int));
                assert(self.heads.deep_view() =~= without_head(all.take(done + 1), key) + all.skip(
                    done + 1,
                ));
            } else {
                i = i + 1;
                assert(self.heads.deep_view() =~= without_head(all.take(done + 1), key) + all.skip(
                    done + 1,
                ));
            }
            proof {
                done = done + 1;
            }
        }
        proof {
            assert(self.heads.deep_view().len() == self.heads.len());
            assert(all.skip(done).len() == 0);
            assert(all.take(done) =~= all);
            assert(self.heads.deep_view() =~= without_head(all, key));
        }
    }

    /// Takes in what the compositor says of one head. What is said of a head that is gone is
    /// not heard.
    pub fn on_head(&mut self, key: u64, event: HeadEvent)
        ensures
            final(self).deep_view() == old(self).deep_view().on_head(key, event.deep_view()),
    {
        if let HeadEvent::Finished = event {
            self.drop_head(key);
            return ;
        }
        let ghost all = self.heads.deep_view();
        let i = self.find_head(key);
        if i < self.heads.len() {
            let ghost told = all[i as int].told(event.deep_view());
            assert(all[i as int] == self.heads@[i as int].deep_view());
            self.heads[i].tell(event);
            assert(self.heads.deep_view() =~= all.update(i as int, told));
        }
    }

    /// Takes in what the compositor says of one mode.
    pub fn on_mode(&mut self, key: u64, event: ModeEvent)
        ensures
            final(self).deep_view() == old(self).deep_view().on_mode(key, event),
    {
        let ghost all = self.heads.deep_view();
        if let ModeEvent::Finished = event {
            let ghost want = all.map_values(
                |h: HeadView| HeadView { modes: without_mode(h.modes, key), ..h },
            );
            let mut i: usize = 0;
            while i < self.heads.len()
                invariant
                    i <= self.heads.len(),
                    self.heads.len() == all.len(),
                    want == all.map_values(
                        |h: HeadView| HeadView { modes: without_mode(h.modes, key), ..h },
                    ),
                    self.serial == old(self).serial,
                    self.done == old(self).done,
                    self.outcome == old(self).outcome,
                    forall|k: int|
                        i <= k < self.heads.len() ==> (#[trigger] self.heads@[k]).deep_view()
                            == all[k],
                    forall|k: int|
                        0 <= k < i ==> (#[trigger] self.heads@[k]).deep_view() == want[k],
                decreases self.heads.len() - i,
            {
                assert(self.heads@[i as int].deep_view() == all[i as int]);
                let left = drop_mode(&self.heads[i].modes, key);
                self.heads[i].modes = left;
                assert(self.heads@[i as int].deep_view() == want[i as int]);
                i = i + 1;
            }
            assert(self.heads.deep_view() =~= want);
            return ;
        }
        let i = self.find_owner(key);
        if i < self.heads.len() {
            let ghost h = all[i as int];
            assert(h == self.heads@[i as int].deep_view());
            let m = find_mode(&self.heads[i].modes, key);
            proof {
                lemma_owner(all, key);
            }
            let entry = self.heads[i].modes[m];
            let told = match event {
                ModeEvent::Size(width, height) => ModeEntry { width, height, ..entry },
                ModeEvent::Refresh(refresh_mhz) => ModeEntry { refresh_mhz, ..entry },
                ModeEvent::Preferred => ModeEntry { preferred: true, ..entry },
                ModeEvent::Finished => entry,
                ModeEvent::Other => entry,
            };
            self.heads[i].modes.set(m, told);
            proof {
                let want = HeadView { modes: h.modes.update(m as int, told), ..h };
                assert(self.heads@[i as int].deep_view() == want);
                assert(self.heads.deep_view() =~= all.update(i as int, want));
            }
        }
    }

    /// Takes in the answer to the configuration.
    pub fn on_configuration(&mut self, outcome: Outcome)
        ensures
            final(self).deep_view() == (StateView {
                outcome: Some(outcome),
                ..old(self).deep_view()
            }),
    {
        self.outcome = Some(outcome);
    }

    /// The displays, in the order in which they were listed.
    pub fn outputs(&self) -> (r: Vec<Output>)
        ensures
            r.deep_view() == self.deep_view().heads.map_values(|h: HeadView| h.shown()),
    {
        let ghost all = self.deep_view().heads;
        let mut out: Vec<Output> = Vec::new();
        let mut i: usize = 0;
        while i < self.heads.len()
            invariant
                i <= self.heads.len(),
                all == self.deep_view().heads,
                all.len() == self.heads.len(),
                out.deep_view() == all.take(i as int).map_values(|h: HeadView| h.shown()),
            decreases self.heads.len() - i,
        {
            let ghost before = out.deep_view();
            let shown = self.heads[i].to_output();
            out.push(shown);
            assert(all[i as int] == self.heads@[i as int].deep_view());
            i = i + 1;
            assert(out.deep_view() =~= before.push(shown.deep_view()));
            assert(out.deep_view() =~= all.take(i as int).map_values(|h: HeadView| h.shown()));
        }
        assert(all.take(i as int) =~= all);
        out
    }
}

proof fn lemma_owner(heads: Seq<HeadView>, key: u64)
    ensures
        0 <= owner_at(heads, key) <= heads.len(),
        owner_at(heads, key) < heads.len() ==> mode_at(heads[owner_at(heads, key)].modes, key)
            < heads[owner_at(heads, key)].modes.len(),
    decreases heads.len(),
{
    if heads.len() > 0 && mode_at(heads[0].modes, key) >= heads[0].modes.len() {
        lemma_owner(heads.drop_first(), key);
    }
}

/// How one head is going to be configured.
#[derive(Clone, Copy, Debug, PartialEq, Eq)]
pub struct PlannedHead {
    pub head: u64,
    pub enabled: bool,
    pub mode: Option<u64>,
    pub position: (i32, i32),
    pub transform: Option<u32>,
    pub scale: Double,
}

/// The first mode that goes by this id.
pub open spec fn entry_called(modes: Seq<ModeEntry>, id: Seq<char>) -> Option<ModeEntry>
    decreases modes.len(),
{
    if modes.len() == 0 {
        None
    } else if modes[0].text_id() == id {
        Some(modes[0])
    } else {
        entry_called(modes.drop_first(), id)
    }
}

fn find_called(modes: &Vec<ModeEntry>, id: &str) -> (r: Option<ModeEntry>)
    ensures
        r == entry_called(modes@, id@),
{
    let mut i: usize = 0;
    assert(modes@.skip(0) =~= modes@);
    while i < modes.len()
        invariant
            i <= modes.len(),
            entry_called(modes@.skip(i as int), id@) == entry_called(modes@, id@),
        decreases modes.len() - i,
    {
        proof {
            assert(modes@.skip(i as int)[0] == modes@[i as int]);
            assert(modes@.skip(i as int).drop_first() =~= modes@.skip(i + 1));
        }
        if same(modes[i].id().as_str(), id) {
            return Some(modes[i]);
        }
        i = i + 1;
    }
    None
}

/// A head as it is, but for its mode.
pub open spec fn planned_with(h: HeadView, mode: Option<ModeEntry>) -> PlannedHead {
    PlannedHead {
        head: h.key,
        enabled: h.enabled,
        mode: match mode {
            Some(m) => Some(m.key),
            None => None,
        },
        position: h.position,
        transform: h.transform,
        scale: h.scale,
    }
}

/// What becomes of one head: the mode that is asked for, or the one it is in where none is
/// asked for or the head is switched off.
pub open spec fn planned_head(h: HeadView, wanted: Seq<OutputSettingView>) -> Result<
    PlannedHead,
    Seq<char>,
> {
    match asked_id(wanted, h.name) {
        Some(id) => if !h.enabled {
            Ok(planned_with(h, h.current()))
        } else {
            match entry_called(h.modes, id) {
                Some(m) => Ok(planned_with(h, Some(m))),
                None => Err(h.name + " does not offer mode "@ + id),
            }
        },
        None => Ok(planned_with(h, h.current())),
    }
}

/// What becomes of all the heads, or the first that cannot do what is asked.
pub open spec fn planned(heads: Seq<HeadView>, wanted: Seq<OutputSettingView>) -> Result<
    Seq<PlannedHead>,
    Seq<char>,
>
    decreases heads.len(),
{
    if heads.len() == 0 {
        Ok(Seq::empty())
    } else {
        match planned(heads.drop_last(), wanted) {
            Err(e) => Err(e),
            Ok(before) => match planned_head(heads.last(), wanted) {
                Ok(p) => Ok(before.push(p)),
                Err(e) => Err(e),
            },
        }
    }
}

proof fn lemma_planned_fails(heads: Seq<HeadView>, wanted: Seq<OutputSettingView>, k: int)
    requires
        0 <= k <= heads.len(),
        planned(heads.take(k), wanted) is Err,
    ensures
        planned(heads, wanted) == planned(heads.take(k), wanted),
    decreases heads.len() - k,
{
    if k == heads.len() {
        assert(heads.take(k) =~= heads);
    } else {
        assert(heads.take(k + 1).drop_last() =~= heads.take(k));
        lemma_planned_fails(heads, wanted, k + 1);
    }
}

fn plan_with(h: &Head, mode: Option<ModeEntry>) -> (r: PlannedHead)
    ensures
        r == planned_with(h.deep_view(), mode),
{
    PlannedHead {
        head: h.key,
        enabled: h.enabled,
        mode: match mode {
            Some(m) => Some(m.key),
            None => None,
        },
        position: h.position,
        transform: h.transform,
        scale: h.scale,
    }
}

fn plan_head(h: &Head, wanted: &[OutputSetting]) -> (r: Result<PlannedHead, String>)
    ensures
        match (r, planned_head(h.deep_view(), wanted.deep_view())) {
            (Ok(got), Ok(want)) => got == want,
            (Err(got), Err(want)) => got@ == want,
            _ => false,
        },
{
    match find_setting(wanted, h.name.as_str()) {
        Some(id) => if !h.enabled {
            Ok(plan_with(h, h.current_mode()))
        } else {
            match find_called(&h.modes, id) {
                Some(m) => Ok(plan_with(h, Some(m))),
                None => {
                    let mut text = h.name.clone();
                    text.append(" does not offer mode ");
                    text.append(id);
                    Err(text)
                },
            }
        },
        None => Ok(plan_with(h, h.current_mode())),
    }
}

/// Works out the whole configuration. Every head is part of it.
pub fn plan(state: &State, wanted: &[OutputSetting]) -> (r: Result<Vec<PlannedHead>, String>)
    ensures
        match (r, planned(state.deep_view().heads, wanted.deep_view())) {
            (Ok(got), Ok(want)) => got@ == want,
            (Err(got), Err(want)) => got@ == want,
            _ => false,
        },
{
    let ghost all = state.deep_view().heads;
    let ghost ws = wanted.deep_view();
    let mut out: Vec<PlannedHead> = Vec::new();
    let mut i: usize = 0;
    while i < state.heads.len()
        invariant
            i <= state.heads.len(),
            all == state.deep_view().heads,
            all.len() == state.heads.len(),
            ws == wanted.deep_view(),
            planned(all.take(i as int), ws) is Ok,
            out@ == planned(all.take(i as int), ws)->Ok_0,
        decreases state.heads.len() - i,
    {
        proof {
            assert(all.take(i + 1).drop_last() =~= all.take(i as int));
            assert(all.take(i + 1).last() == state.heads@[i as int].deep_view());
        }
        match plan_head(&state.heads[i], wanted) {
            Ok(p) => {
                out.push(p);
            },
            Err(e) => {
                proof {
                    lemma_planned_fails(all, ws, i + 1);
                }
                return Err(e);
            },
        }
        i = i + 1;
    }
    assert(all.take(i as int) =~= all);
    Ok(out)
}

/// The heads that are asked to change though they are switched off; they are skipped.
pub fn is_skipped(head: &Head, wanted: &[OutputSetting]) -> (r: bool)
    ensures
        r == (!head.enabled && asked_id(wanted.deep_view(), head.name@) is Some),
{
    match find_setting(wanted, head.name.as_str()) {
        Some(_) => !head.enabled,
        None => false,
    }
}

/// How one head is put into the configuration.
#[derive(Clone, Copy, Debug, PartialEq, Eq)]
pub enum HeadRequest {
    Disable(u64),
    /// Everything that is known is stated again: it keeps a compositor from resetting
    /// position or scale to its own defaults when we only meant to change the mode.
    Enable {
        head: u64,
        mode: Option<u64>,
        x: i32,
        y: i32,
        transform: Option<u32>,
        scale: Option<Double>,
    },
}

impl PlannedHead {
    pub open spec fn wire(self) -> HeadRequest {
        if !self.enabled {
            HeadRequest::Disable(self.head)
        } else {
            HeadRequest::Enable {
                head: self.head,
                mode: self.mode,
                x: self.position.0,
                y: self.position.1,
                transform: self.transform,
                scale: if self.scale.positive() {
                    Some(self.scale)
                } else {
                    None
                },
            }
        }
    }

    /// What to send for a head.
    pub fn request(&self) -> (r: HeadRequest)
        ensures
            r == self.wire(),
    {
        if !self.enabled {
            HeadRequest::Disable(self.head)
        } else {
            HeadRequest::Enable {
                head: self.head,
                mode: self.mode,
                x: self.position.0,
                y: self.position.1,
                transform: self.transform,
                scale: if self.scale.is_positive() {
                    Some(self.scale)
                } else {
                    None
                },
            }
        }
    }
}

/// What the answer to a configuration means.
pub fn conclude(outcome: Option<Outcome>) -> (r: Result<(), String>)
    ensures
        match r {
            Ok(_) => outcome == Some(Outcome::Succeeded),
            Err(e) => match outcome {
                Some(Outcome::Succeeded) => false,
                Some(Outcome::Failed) => e@ == "the compositor rejected the configuration"@,
                Some(Outcome::Cancelled) => e@
                    == "the display setup changed while applying; try again"@,
                None => e@ == "the compositor never answered"@,
            },
        },
{
    match outcome {
        Some(Outcome::Succeeded) => Ok(()),
        Some(Outcome::Failed) => Err("the compositor rejected the configuration".to_string()),
        Some(Outcome::Cancelled) => Err(
            "the display setup changed while applying; try again".to_string(),
        ),
        None => Err("the compositor never answered".to_string()),
    }
}

proof fn lemma_planned(heads: Seq<HeadView>, wanted: Seq<OutputSettingView>)
    ensures
        planned(heads, wanted) is Ok ==> planned(heads, wanted)->Ok_0.len() == heads.len()
            && forall|i: int|
            0 <= i < heads.len() ==> planned_head(heads[i], wanted) == Ok::<PlannedHead, Seq<char>>(
                #[trigger] planned(heads, wanted)->Ok_0[i],
            ),
    decreases heads.len(),
{
    if heads.len() > 0 {
        let front = heads.drop_last();
        lemma_planned(front, wanted);
        if planned(heads, wanted) is Ok {
            let list = planned(heads, wanted)->Ok_0;
            assert forall|i: int| 0 <= i < heads.len() implies planned_head(heads[i], wanted)
                == Ok::<PlannedHead, Seq<char>>(#[trigger] list[i]) by {
                if i < front.len() {
                    assert(front[i] == heads[i]);
                    assert(list[i] == planned(front, wanted)->Ok_0[i]);
                }
            }
        }
    }
}

/// A configuration describes every head, in order, each where it is, turned and scaled as it
/// is. Only a head that is on and is asked to change leaves the mode it is in.
pub proof fn law_every_head_is_described(
    heads: Seq<HeadView>,
    wanted: Seq<OutputSettingView>,
    i: int,
)
    requires
        planned(heads, wanted) is Ok,
        0 <= i < heads.len(),
    ensures
        planned(heads, wanted)->Ok_0.len() == heads.len(),
        ({
            let p = planned(heads, wanted)->Ok_0[i];
            let h = heads[i];
            &&& p.head == h.key && p.enabled == h.enabled && p.position == h.position
            &&& p.transform == h.transform && p.scale == h.scale
            &&& !h.enabled || asked_id(wanted, h.name) is None ==> p == planned_with(h, h.current())
        }),
{
    lemma_planned(heads, wanted);
    assert(planned_head(heads[i], wanted) == Ok::<PlannedHead, Seq<char>>(
        planned(heads, wanted)->Ok_0[i],
    ));
}

/// Whatever is said of heads and modes, the serial and the answer are not touched, and
/// only `done` ends the description.
pub proof fn law_descriptions_touch_only_heads(
    state: StateView,
    key: u64,
    head_event: HeadEventView,
    mode_event: ModeEvent,
)
    ensures
        state.on_head(key, head_event).serial == state.serial,
        state.on_head(key, head_event).done == state.done,
        state.on_head(key, head_event).outcome == state.outcome,
        state.on_mode(key, mode_event).serial == state.serial,
        state.on_mode(key, mode_event).done == state.done,
        state.on_mode(key, mode_event).outcome == state.outcome,
        state.on_mode(key, mode_event).heads.len() == state.heads.len(),
{
    lemma_owner(state.heads, key);
}

proof fn lemma_entry_called(modes: Seq<ModeEntry>, id: Seq<char>, m: int)
    requires
        0 <= m <= modes.len(),
        forall|j: int| 0 <= j < m ==> (#[trigger] modes[j]).text_id() != id,
        m < modes.len() ==> modes[m].text_id() == id,
    ensures
        entry_called(modes, id) == if m < modes.len() {
            Some(modes[m])
        } else {
            None
        },
    decreases m,
{
    if m > 0 {
        assert(modes[0].text_id() != id);
        let rest = modes.drop_first();
        assert forall|j: int| 0 <= j < m - 1 implies (#[trigger] rest[j]).text_id() != id by {
            assert(rest[j] == modes[j + 1]);
        }
        lemma_entry_called(rest, id, m - 1);
    }
}

/// A head that is on and is asked for a mode gets the first of its modes that goes by that id.
pub proof fn law_a_head_gets_the_mode_it_is_asked_for(
    heads: Seq<HeadView>,
    wanted: Seq<OutputSettingView>,
    i: int,
    id: Seq<char>,
    m: int,
)
    requires
        planned(heads, wanted) is Ok,
        0 <= i < heads.len(),
        heads[i].enabled,
        asked_id(wanted, heads[i].name) == Some(id),
        0 <= m < heads[i].modes.len(),
        heads[i].modes[m].text_id() == id,
        forall|j: int| 0 <= j < m ==> (#[trigger] heads[i].modes[j]).text_id() != id,
    ensures
        planned(heads, wanted)->Ok_0[i].mode == Some(heads[i].modes[m].key),
{
    lemma_planned(heads, wanted);
    lemma_entry_called(heads[i].modes, id, m);
    assert(planned_head(heads[i], wanted) == Ok::<PlannedHead, Seq<char>>(
        planned(heads, wanted)->Ok_0[i],
    ));
}

/// A head that is off, or that nothing is asked of, keeps the mode it is in, or has none where
/// it is in none that it lists.
pub proof fn law_other_heads_keep_their_modes(
    heads: Seq<HeadView>,
    wanted: Seq<OutputSettingView>,
    i: int,
    m: int,
)
    requires
        planned(heads, wanted) is Ok,
        0 <= i < heads.len(),
        !heads[i].enabled || asked_id(wanted, heads[i].name) is None,
        0 <= m <= heads[i].modes.len(),
        forall|j: int|
            0 <= j < m ==> Some((#[trigger] heads[i].modes[j]).key) != heads[i].current_mode_key,
        m < heads[i].modes.len() ==> Some(heads[i].modes[m].key) == heads[i].current_mode_key,
    ensures
        planned(heads, wanted)->Ok_0[i].mode == if m < heads[i].modes.len() {
            heads[i].current_mode_key
        } else {
            None
        },
{
    lemma_planned(heads, wanted);
    if let Some(key) = heads[i].current_mode_key {
        lemma_mode_at(heads[i].modes, key, m);
    }
    assert(planned_head(heads[i], wanted) == Ok::<PlannedHead, Seq<char>>(
        planned(heads, wanted)->Ok_0[i],
    ));
}

/// A head that is on and is asked for a mode that none of its modes goes by.
pub open spec fn asked_in_vain(h: HeadView, wanted: Seq<OutputSettingView>) -> bool {
    h.enabled && (asked_id(wanted, h.name) matches Some(id) && forall|j: int|
        0 <= j < h.modes.len() ==> (#[trigger] h.modes[j]).text_id() != id)
}

/// Nothing is configured where a head is asked for a mode that it does not list: the first
/// such head is named. Where there is none, all the heads are described.
pub proof fn law_a_head_that_cannot_follow_is_named(
    heads: Seq<HeadView>,
    wanted: Seq<OutputSettingView>,
    i: int,
)
    requires
        0 <= i <= heads.len(),
        forall|j: int| 0 <= j < i ==> !asked_in_vain(#[trigger] heads[j], wanted),
        i < heads.len() ==> asked_in_vain(heads[i], wanted),
    ensures
        i == heads.len() ==> planned(heads, wanted) is Ok,
        i < heads.len() ==> planned(heads, wanted) == Err::<Seq<PlannedHead>, Seq<char>>(
            heads[i].name + " does not offer mode "@ + asked_id(wanted, heads[i].name)->Some_0,
        ),
    decreases heads.len(),
{
    if heads.len() > 0 {
        let front = heads.drop_last();
        let last = heads.last();
        assert forall|j: int| 0 <= j < front.len() implies front[j] == heads[j] by {}
        if i >= heads.len() - 1 {
            law_a_head_that_cannot_follow_is_named(front, wanted, front.len() as int);
            if let Some(id) = asked_id(wanted, last.name) {
                if asked_in_vain(last, wanted) {
                    lemma_entry_called(last.modes, id, last.modes.len() as int);
                } else if last.enabled {
                    let m = first_called(last.modes, id);
                    lemma_entry_called(last.modes, id, m);
                }
            }
            assert(heads[heads.len() - 1] == last);
        } else {
            law_a_head_that_cannot_follow_is_named(front, wanted, i);
        }
    }
}

proof fn first_called(modes: Seq<ModeEntry>, id: Seq<char>) -> (m: int)
    ensures
        0 <= m <= modes.len(),
        forall|j: int| 0 <= j < m ==> (#[trigger] modes[j]).text_id() != id,
        m < modes.len() ==> modes[m].text_id() == id,
    decreases modes.len(),
{
    if modes.len() == 0 {
        0
    } else {
        let m = first_called(modes.drop_last(), id);
        assert forall|j: int| 0 <= j < m implies (#[trigger] modes[j]).text_id() != id by {
            assert(modes.drop_last()[j] == modes[j]);
        }
        if m < modes.len() - 1 {
            assert(modes.drop_last()[m] == modes[m]);
            m
        } else if modes.last().text_id() == id {
            m
        } else {
            modes.len() as int
        }
    }
}

/// What is said of a head changes that head, in the one respect that is spoken of, and no
/// other head.
pub proof fn law_a_head_is_what_was_said_of_it(
    state: StateView,
    key: u64,
    event: HeadEventView,
    i: int,
)
    requires
        0 <= i < state.heads.len(),
        state.heads[i].key == key,
        forall|j: int| 0 <= j < i ==> (#[trigger] state.heads[j]).key != key,
        !(event is Finished),
    ensures
        ({
            let heads = state.on_head(key, event).heads;
            let was = state.heads[i];
            let now = heads[i];
            &&& heads.len() == state.heads.len()
            &&& forall|j: int|
                0 <= j < heads.len() && j != i ==> (#[trigger] heads[j]) == state.heads[j]
            &&& now.key == was.key
            &&& now.name == match event {
                HeadEventView::Name(s) => s,
                _ => was.name,
            }
            &&& now.make == match event {
                HeadEventView::Make(s) => s,
                _ => was.make,
            }
            &&& now.model == match event {
                HeadEventView::Model(s) => s,
                _ => was.model,
            }
            &&& now.serial_number == match event {
                HeadEventView::SerialNumber(s) => s,
                _ => was.serial_number,
            }
            &&& now.enabled == match event {
                HeadEventView::Enabled(n) => n != 0,
                _ => was.enabled,
            }
            &&& now.current_mode_key == match event {
                HeadEventView::CurrentMode(k) => Some(k),
                _ => was.current_mode_key,
            }
            &&& now.position == match event {
                HeadEventView::Position(x, y) => (x, y),
                _ => was.position,
            }
            &&& now.transform == match event {
                HeadEventView::Transform(t) => t,
                _ => was.transform,
            }
            &&& now.scale == match event {
                HeadEventView::Scale(s) => s,
                _ => was.scale,
            }
            &&& event matches HeadEventView::Mode(k) ==> {
                &&& now.modes.len() == was.modes.len() + 1
                &&& now.modes.drop_last() == was.modes
                &&& now.modes.last().key == k
                &&& now.modes.last().width == 0 && now.modes.last().height == 0
                &&& now.modes.last().refresh_mhz == 0 && !now.modes.last().preferred
            }
            &&& !(event is Mode) ==> now.modes == was.modes
        }),
{
    lemma_head_at(state.heads, key, i);
    assert(state.heads[i].modes.push(blank_mode(key)).drop_last() =~= state.heads[i].modes);
    if let HeadEventView::Mode(k) = event {
        assert(state.heads[i].modes.push(blank_mode(k)).drop_last() =~= state.heads[i].modes);
    }
}

/// What is said of a head that nobody has spoken of is passed over.
pub proof fn law_unknown_heads_are_passed_over(state: StateView, key: u64, event: HeadEventView)
    requires
        forall|j: int| 0 <= j < state.heads.len() ==> (#[trigger] state.heads[j]).key != key,
    ensures
        state.on_head(key, event) == state,
{
    lemma_head_at(state.heads, key, state.heads.len() as int);
    lemma_without_head(state.heads, key);
}

proof fn lemma_without_head(heads: Seq<HeadView>, key: u64)
    requires
        forall|j: int| 0 <= j < heads.len() ==> (#[trigger] heads[j]).key != key,
    ensures
        without_head(heads, key) == heads,
    decreases heads.len(),
{
    if heads.len() > 0 {
        let front = heads.drop_last();
        assert forall|j: int| 0 <= j < front.len() implies (#[trigger] front[j]).key != key by {
            assert(front[j] == heads[j]);
        }
        lemma_without_head(front, key);
        assert(heads[heads.len() - 1].key != key);
        assert(front.push(heads.last()) =~= heads);
    }
}

/// A head that is gone is dropped, wherever it stands. All the others stay, in their order.
pub proof fn law_a_head_that_is_gone_is_dropped(
    front: Seq<HeadView>,
    h: HeadView,
    back: Seq<HeadView>,
    key: u64,
)
    ensures
        h.key == key ==> without_head(front + seq![h] + back, key) == without_head(
            front + back,
            key,
        ),
        h.key != key ==> without_head(front + seq![h] + back, key) == without_head(front, key)
            + seq![h] + without_head(back, key),
        without_head(Seq::empty(), key).len() == 0,
{
    lemma_without_heads(front, seq![h] + back, key);
    lemma_without_heads(seq![h], back, key);
    lemma_without_heads(front, back, key);
    assert(front + seq![h] + back =~= front + (seq![h] + back));
    assert(seq![h].drop_last() =~= Seq::empty());
    assert(without_head(seq![h].drop_last(), key) =~= Seq::empty());
    if h.key == key {
        assert(without_head(seq![h], key) =~= Seq::empty());
        assert(without_head(seq![h], key) + without_head(back, key) =~= without_head(back, key));
    } else {
        assert(without_head(seq![h], key) =~= seq![h]);
        assert(without_head(front, key) + (seq![h] + without_head(back, key)) =~= without_head(
            front,
            key,
        ) + seq![h] + without_head(back, key));
    }
}

proof fn lemma_without_heads(a: Seq<HeadView>, b: Seq<HeadView>, key: u64)
    ensures
        without_head(a + b, key) == without_head(a, key) + without_head(b, key),
    decreases b.len(),
{
    if b.len() == 0 {
        assert(a + b =~= a);
        assert(without_head(a, key) + without_head(b, key) =~= without_head(a, key));
    } else {
        lemma_without_heads(a, b.drop_last(), key);
        assert((a + b).drop_last() =~= a + b.drop_last());
        assert((a + b).last() == b.last());
        assert(without_head(a + b, key) =~= without_head(a, key) + without_head(b, key));
    }
}

/// A mode that is gone is dropped from every head. All the other modes stay, in their order,
/// and so does everything else that is known of the heads.
pub proof fn law_a_mode_that_is_gone_is_dropped(
    state: StateView,
    key: u64,
    i: int,
    front: Seq<ModeEntry>,
    m: ModeEntry,
    back: Seq<ModeEntry>,
)
    requires
        0 <= i < state.heads.len(),
    ensures
        ({
            let now = state.on_mode(key, ModeEvent::Finished).heads[i];
            now == HeadView { modes: now.modes, ..state.heads[i] } && now.modes == without_mode(
                state.heads[i].modes,
                key,
            )
        }),
        m.key == key ==> without_mode(front + seq![m] + back, key) == without_mode(
            front + back,
            key,
        ),
        m.key != key ==> without_mode(front + seq![m] + back, key) == without_mode(front, key)
            + seq![m] + without_mode(back, key),
        without_mode(Seq::empty(), key).len() == 0,
{
    lemma_without_modes(front, seq![m] + back, key);
    lemma_without_modes(seq![m], back, key);
    lemma_without_modes(front, back, key);
    assert(front + seq![m] + back =~= front + (seq![m] + back));
    assert(seq![m].drop_last() =~= Seq::empty());
    assert(without_mode(seq![m].drop_last(), key) =~= Seq::empty());
    if m.key == key {
        assert(without_mode(seq![m], key) =~= Seq::empty());
        assert(without_mode(seq![m], key) + without_mode(back, key) =~= without_mode(back, key));
    } else {
        assert(without_mode(seq![m], key) =~= seq![m]);
        assert(without_mode(front, key) + (seq![m] + without_mode(back, key)) =~= without_mode(
            front,
            key,
        ) + seq![m] + without_mode(back, key));
    }
}

proof fn lemma_without_modes(a: Seq<ModeEntry>, b: Seq<ModeEntry>, key: u64)
    ensures
        without_mode(a + b, key) == without_mode(a, key) + without_mode(b, key),
    decreases b.len(),
{
    if b.len() == 0 {
        assert(a + b =~= a);
        assert(without_mode(a, key) + without_mode(b, key) =~= without_mode(a, key));
    } else {
        lemma_without_modes(a, b.drop_last(), key);
        assert((a + b).drop_last() =~= a + b.drop_last());
        assert((a + b).last() == b.last());
        assert(without_mode(a + b, key) =~= without_mode(a, key) + without_mode(b, key));
    }
}

/// What is said of a mode changes the first mode of that key, on the first head that lists
/// one, in the respect that is spoken of. Nothing else changes.
pub proof fn law_a_mode_is_what_was_said_of_it(
    state: StateView,
    key: u64,
    event: ModeEvent,
    i: int,
    m: int,
)
    requires
        0 <= i < state.heads.len(),
        0 <= m < state.heads[i].modes.len(),
        state.heads[i].modes[m].key == key,
        forall|k: int| 0 <= k < m ==> (#[trigger] state.heads[i].modes[k]).key != key,
        forall|j: int, k: int|
            0 <= j < i && 0 <= k < state.heads[j].modes.len() ==> (
            #[trigger] state.heads[j].modes[k]).key != key,
        !(event is Finished),
    ensures
        ({
            let heads = state.on_mode(key, event).heads;
            let was = state.heads[i].modes[m];
            let now = heads[i].modes[m];
            &&& heads.len() == state.heads.len()
            &&& forall|j: int|
                0 <= j < heads.len() && j != i ==> (#[trigger] heads[j]) == state.heads[j]
            &&& heads[i] == HeadView { modes: heads[i].modes, ..state.heads[i] }
            &&& heads[i].modes == state.heads[i].modes.update(m, now)
            &&& now.key == key
            &&& (now.width, now.height) == match event {
                ModeEvent::Size(w, h) => (w, h),
                _ => (was.width, was.height),
            }
            &&& now.refresh_mhz == match event {
                ModeEvent::Refresh(r) => r,
                _ => was.refresh_mhz,
            }
            &&& now.preferred == (event is Preferred || was.preferred)
        }),
{
    lemma_mode_at(state.heads[i].modes, key, m);
    assert forall|j: int| 0 <= j < i implies mode_at((#[trigger] state.heads[j]).modes, key)
        >= state.heads[j].modes.len() by {
        lemma_mode_at(state.heads[j].modes, key, state.heads[j].modes.len() as int);
    }
    lemma_owner_at(state.heads, key, i);
}

/// A new head starts out with nothing known of it, off, at the origin and not scaled. The end
/// of a description gives the serial that a change has to name.
pub proof fn law_what_the_manager_says(state: StateView, key: u64, serial: u32)
    ensures
        state.on_manager(ManagerEvent::Head(key)).heads.drop_last() == state.heads,
        ({
            let h = state.on_manager(ManagerEvent::Head(key)).heads.last();
            &&& h.key == key && !h.enabled && h.current_mode_key is None && h.modes.len() == 0
            &&& h.name.len() == 0 && h.make.len() == 0 && h.model.len() == 0
            &&& h.serial_number.len() == 0 && h.position == (0i32, 0i32) && h.transform is None
            &&& h.scale.bits == ONE
        }),
        state.on_manager(ManagerEvent::Head(key)).done == state.done,
        state.on_manager(ManagerEvent::Head(key)).serial == state.serial,
        state.on_manager(ManagerEvent::Done(serial)).done,
        state.on_manager(ManagerEvent::Done(serial)).serial == serial,
        state.on_manager(ManagerEvent::Done(serial)).heads == state.heads,
        state.on_manager(ManagerEvent::Other) == state,
{
    assert(state.heads.push(HeadView::blank(key)).drop_last() =~= state.heads);
}

/// A head is listed as it is: its own names, whether it is on, and its modes in their order,
/// of which that with the current key is the current one.
pub proof fn law_a_head_is_listed_as_it_is(h: HeadView, m: int)
    requires
        0 <= m < h.modes.len(),
    ensures
        h.shown().connector == h.name,
        h.shown().make == h.make,
        h.shown().model == h.model,
        h.shown().serial == h.serial_number,
        h.shown().enabled == h.enabled,
        h.shown().modes.len() == h.modes.len(),
        h.shown().modes[m].id == h.modes[m].text_id(),
        h.modes[m].width >= 0 ==> h.shown().modes[m].width == h.modes[m].width,
        h.modes[m].width < 0 ==> h.shown().modes[m].width == 0,
        h.modes[m].height >= 0 ==> h.shown().modes[m].height == h.modes[m].height,
        h.modes[m].height < 0 ==> h.shown().modes[m].height == 0,
        h.modes[m].refresh_mhz >= 0 ==> h.shown().modes[m].refresh.bits == ratio(
            h.modes[m].refresh_mhz as nat,
            1000,
        ),
        h.shown().modes[m].preferred == h.modes[m].preferred,
        h.shown().modes[m].current <==> h.current_mode_key == Some(h.modes[m].key),
        h.current_mode_key is None ==> h.shown().current_mode is None,
        h.current_mode_key == Some(h.modes[m].key) && (forall|j: int|
            0 <= j < m ==> (#[trigger] h.modes[j]).key != h.modes[m].key)
            ==> h.shown().current_mode == Some(h.modes[m].text_id()),
{
    if h.current_mode_key == Some(h.modes[m].key) && (forall|j: int|
        0 <= j < m ==> (#[trigger] h.modes[j]).key != h.modes[m].key) {
        lemma_mode_at(h.modes, h.modes[m].key, m);
    }
}

/// A head that is off is switched off, and one that is on is sent with everything that is
/// known of it; only a scale that is not above zero is left out.
pub proof fn law_a_head_is_sent_as_planned(p: PlannedHead)
    ensures
        !p.enabled ==> p.wire() == HeadRequest::Disable(p.head),
        p.enabled ==> (p.wire() matches HeadRequest::Enable {
            head,
            mode,
            x,
            y,
            transform,
            scale,
        } && head == p.head && mode == p.mode && x == p.position.0 && y == p.position.1
            && transform == p.transform && (scale is Some <==> p.scale.positive()) && (scale
            is Some ==> scale == Some(p.scale))),
{
}


} // verus!
