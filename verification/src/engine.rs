//! Turns "we are now on battery" into the calls that make it so.
//!
//! A run asks for one piece of outside work at a time and is told what came of it. What it
//! asks for next, and what it reports in the end, follows from the answers alone.

use vstd::prelude::*;

use crate::config::{Config, ConfigView, OutputRuleView, PowerState, Profile, ProfileView};
use crate::display::assign::{
    resolve_settings, resolve_warnings, settings_for, OutputSetting, OutputSettingView,
};
use crate::display::mode::{Output, OutputView};
use crate::text::{
    join, joined, law_parts_are_joined_with_the_separator_between, same,
};

verus! {

/// What an apply actually did, kept separate from the logging so the window can show it too.
#[derive(Debug)]
pub struct ApplyReport {
    pub actions: Vec<String>,
    pub warnings: Vec<String>,
    pub errors: Vec<String>,
}

pub struct ReportView {
    pub actions: Seq<Seq<char>>,
    pub warnings: Seq<Seq<char>>,
    pub errors: Seq<Seq<char>>,
}

impl DeepView for ApplyReport {
    type V = ReportView;

    open spec fn deep_view(&self) -> ReportView {
        ReportView {
            actions: self.actions.deep_view(),
            warnings: self.warnings.deep_view(),
            errors: self.errors.deep_view(),
        }
    }
}

/// A report of which nothing can be said yet.
pub open spec fn blank_report() -> ReportView {
    ReportView { actions: Seq::empty(), warnings: Seq::empty(), errors: Seq::empty() }
}

impl Default for ApplyReport {
    fn default() -> (r: Self)
        ensures
            r.deep_view() == blank_report(),
    {
        let r = ApplyReport { actions: Vec::new(), warnings: Vec::new(), errors: Vec::new() };
        assert(r.deep_view().actions =~= Seq::empty());
        assert(r.deep_view().warnings =~= Seq::empty());
        assert(r.deep_view().errors =~= Seq::empty());
        r
    }
}

fn copy_list(list: &Vec<String>) -> (r: Vec<String>)
    ensures
        r@ == list@,
{
    let mut out: Vec<String> = Vec::new();
    let mut i: usize = 0;
    while i < list.len()
        invariant
            i <= list.len(),
            out@ == list@.take(i as int),
        decreases list.len() - i,
    {
        out.push(list[i].clone());
        i = i + 1;
    }
    assert(out@ =~= list@);
    out
}

impl Clone for ApplyReport {
    fn clone(&self) -> (r: Self)
        ensures
            r.deep_view() == self.deep_view(),
    {
        let r = ApplyReport {
            actions: copy_list(&self.actions),
            warnings: copy_list(&self.warnings),
            errors: copy_list(&self.errors),
        };
        assert(r.deep_view().actions =~= self.deep_view().actions);
        assert(r.deep_view().warnings =~= self.deep_view().warnings);
        assert(r.deep_view().errors =~= self.deep_view().errors);
        r
    }
}

impl ReportView {
    pub open spec fn succeeded(self) -> bool {
        self.errors.len() == 0
    }

    /// The errors, or else the actions, or else the first warning.
    pub open spec fn summary(self) -> Seq<char> {
        if self.errors.len() > 0 {
            joined(self.errors, "; "@)
        } else if self.actions.len() > 0 {
            joined(self.actions, "; "@)
        } else if self.warnings.len() > 0 {
            self.warnings[0]
        } else {
            "Nothing to change"@
        }
    }

    pub open spec fn acted(self, text: Seq<char>) -> ReportView {
        ReportView { actions: self.actions.push(text), ..self }
    }

    pub open spec fn warned(self, text: Seq<char>) -> ReportView {
        ReportView { warnings: self.warnings.push(text), ..self }
    }

    pub open spec fn failed(self, text: Seq<char>) -> ReportView {
        ReportView { errors: self.errors.push(text), ..self }
    }
}

impl ApplyReport {
    pub fn succeeded(&self) -> (r: bool)
        ensures
            r == self.deep_view().succeeded(),
    {
        self.errors.len() == 0
    }

    /// A single line suitable for a status bar or a log entry.
    pub fn summary(&self) -> (r: String)
        ensures
            r@ == self.deep_view().summary(),
    {
        if self.errors.len() > 0 {
            return join(&self.errors, "; ");
        }
        if self.actions.len() == 0 {
            return if self.warnings.len() > 0 {
                assert(self.deep_view().warnings[0] == self.warnings@[0]@);
                self.warnings[0].clone()
            } else {
                "Nothing to change".to_string()
            };
        }
        join(&self.actions, "; ")
    }

    fn act(&mut self, text: String)
        ensures
            final(self).deep_view() == old(self).deep_view().acted(text@),
    {
        let ghost before = self.actions.deep_view();
        self.actions.push(text);
        assert(self.actions.deep_view() =~= before.push(text@));
    }

    fn warn(&mut self, text: String)
        ensures
            final(self).deep_view() == old(self).deep_view().warned(text@),
    {
        let ghost before = self.warnings.deep_view();
        self.warnings.push(text);
        assert(self.warnings.deep_view() =~= before.push(text@));
    }

    fn fail(&mut self, text: String)
        ensures
            final(self).deep_view() == old(self).deep_view().failed(text@),
    {
        let ghost before = self.errors.deep_view();
        self.errors.push(text);
        assert(self.errors.deep_view() =~= before.push(text@));
    }
}

/// What is known of the session before a run.
#[derive(Clone, Copy, Debug, PartialEq, Eq)]
pub struct Session {
    /// Say what would change, and change nothing.
    pub dry_run: bool,
    /// Whether the desktop can be asked to remember a layout.
    pub supports_persist: bool,
    /// Whether there is a power profiles service.
    pub has_profiles: bool,
}

/// How far a run has come.
#[derive(Debug)]
enum Stage {
    Listing,
    Applying { settings: Vec<OutputSetting>, persist: bool },
    Reading,
    Selecting,
    Done,
}

/// The work that a run waits for.
pub enum StageView {
    /// The displays are to be listed.
    Listing,
    /// These modes are to be set.
    Applying { settings: Seq<OutputSettingView>, persist: bool },
    /// The active power profile is to be read.
    Reading,
    /// Another power profile is to be selected.
    Selecting,
    /// Nothing is left to do.
    Done,
}

impl DeepView for Stage {
    type V = StageView;

    closed spec fn deep_view(&self) -> StageView {
        match self {
            Stage::Listing => StageView::Listing,
            Stage::Applying { settings, persist } => StageView::Applying {
                settings: settings.deep_view(),
                persist: *persist,
            },
            Stage::Reading => StageView::Reading,
            Stage::Selecting => StageView::Selecting,
            Stage::Done => StageView::Done,
        }
    }
}

/// One apply of the profile for a power state.
///
/// Failures are collected rather than propagated: an unplugged dock should not stop
/// the laptop panel from being switched, and a missing power-profiles daemon should
/// not stop the resolution change.
#[derive(Debug)]
pub struct Run {
    profile: Profile,
    session: Session,
    stage: Stage,
    report: ApplyReport,
}

pub struct RunView {
    pub profile: ProfileView,
    pub session: Session,
    pub stage: StageView,
    pub report: ReportView,
}

impl View for Run {
    type V = RunView;

    closed spec fn view(&self) -> RunView {
        RunView {
            profile: self.profile.deep_view(),
            session: self.session,
            stage: self.stage.deep_view(),
            report: self.report.deep_view(),
        }
    }
}

/// Whether any rule of a profile names a mode.
pub open spec fn names_a_mode(rules: Seq<OutputRuleView>) -> bool {
    exists|i: int| 0 <= i < rules.len() && (#[trigger] rules[i]).mode is Some
}

/// The power profile that is to be selected, if any.
pub open spec fn wanted_profile(profile: ProfileView) -> Option<Seq<char>> {
    match profile.power_profile {
        Some(name) => if name.len() == 0 {
            None
        } else {
            Some(name)
        },
        None => None,
    }
}

/// One instruction in words.
pub open spec fn in_words(setting: OutputSettingView) -> Seq<char> {
    setting.connector + " to "@ + setting.mode_id
}

/// All the instructions in words.
pub open spec fn all_in_words(settings: Seq<OutputSettingView>) -> Seq<char> {
    joined(settings.map_values(|s: OutputSettingView| in_words(s)), ", "@)
}

impl RunView {
    /// How a run begins.
    pub open spec fn begun(config: ConfigView, state: PowerState, session: Session) -> RunView {
        let run = RunView {
            profile: config.profile(state),
            session,
            stage: StageView::Done,
            report: blank_report(),
        };
        if !config.enabled {
            RunView { report: blank_report().warned("powerdisplay is turned off"@), ..run }
        } else if names_a_mode(run.profile.outputs) {
            RunView { stage: StageView::Listing, ..run }
        } else {
            run.turned_to_profile()
        }
    }

    /// The displays are done with; the power profile is next.
    pub open spec fn turned_to_profile(self) -> RunView {
        match wanted_profile(self.profile) {
            None => RunView { stage: StageView::Done, ..self },
            Some(name) => if !self.session.has_profiles {
                RunView {
                    stage: StageView::Done,
                    report: self.report.warned(
                        "no power profiles service, cannot select "@ + name,
                    ),
                    ..self
                }
            } else if self.session.dry_run {
                RunView {
                    stage: StageView::Done,
                    report: self.report.acted(
                        "would select the "@ + name + " power profile"@,
                    ),
                    ..self
                }
            } else {
                RunView { stage: StageView::Reading, ..self }
            },
        }
    }

    /// The displays have been listed, or could not be.
    pub open spec fn listed(self, outputs: Result<Seq<OutputView>, Seq<char>>) -> RunView {
        match outputs {
            Err(e) => (RunView {
                report: self.report.failed("could not list displays: "@ + e),
                ..self
            }).turned_to_profile(),
            Ok(outputs) => {
                let settings = settings_for(self.profile.outputs, outputs, outputs.len());
                let report = ReportView {
                    warnings: self.report.warnings + resolve_warnings(
                        self.profile.outputs,
                        outputs,
                    ),
                    ..self.report
                };
                if settings.len() == 0 {
                    (RunView { report, ..self }).turned_to_profile()
                } else if self.session.dry_run {
                    (RunView {
                        report: report.acted("would set "@ + all_in_words(settings)),
                        ..self
                    }).turned_to_profile()
                } else {
                    RunView {
                        stage: StageView::Applying {
                            settings,
                            persist: self.profile.persist_display_config
                                && self.session.supports_persist,
                        },
                        report,
                        ..self
                    }
                }
            },
        }
    }

    /// The modes have been set, or could not be.
    pub open spec fn applied(self, outcome: Result<(), Seq<char>>) -> RunView {
        (RunView {
            report: match outcome {
                Ok(_) => self.report.acted(
                    "set "@ + all_in_words(self.stage->settings),
                ),
                Err(e) => self.report.failed("display change failed: "@ + e),
            },
            ..self
        }).turned_to_profile()
    }

    /// The active power profile has been read; `None` where it could not be.
    pub open spec fn read(self, active: Option<Seq<char>>) -> RunView {
        if active == wanted_profile(self.profile) {
            RunView { stage: StageView::Done, ..self }
        } else {
            RunView { stage: StageView::Selecting, ..self }
        }
    }

    /// The power profile has been selected, or could not be.
    pub open spec fn selected(self, outcome: Result<(), Seq<char>>) -> RunView {
        RunView {
            stage: StageView::Done,
            report: match outcome {
                Ok(_) => self.report.acted(
                    "selected the "@ + wanted_profile(self.profile)->Some_0 + " power profile"@,
                ),
                Err(e) => self.report.failed("power profile change failed: "@ + e),
            },
            ..self
        }
    }

    /// A run that waits for the power profile has one that it wants.
    pub open spec fn wf(self) -> bool {
        self.stage is Reading || self.stage is Selecting ==> wanted_profile(self.profile) is Some
    }
}

/// What a run wants to be done for it.
#[derive(Debug)]
pub enum Work<'a> {
    ListDisplays,
    Apply(&'a Vec<OutputSetting>, bool),
    ReadProfile,
    SelectProfile(&'a str),
    Nothing,
}

fn describe(settings: &Vec<OutputSetting>) -> (r: String)
    ensures
        r@ == all_in_words(settings.deep_view()),
{
    let ghost all = settings.deep_view();
    let mut parts: Vec<String> = Vec::new();
    let mut i: usize = 0;
    while i < settings.len()
        invariant
            i <= settings.len(),
            all == settings.deep_view(),
            all.len() == settings.len(),
            parts.deep_view() == all.take(i as int).map_values(
                |s: OutputSettingView| in_words(s),
            ),
        decreases settings.len() - i,
    {
        let ghost before = parts.deep_view();
        let mut text = settings[i].connector.clone();
        text.append(" to ");
        text.append(settings[i].mode_id.as_str());
        parts.push(text);
        assert(all[i as int] == settings@[i as int].deep_view());
        i = i + 1;
        assert(parts.deep_view() =~= before.push(text@));
        assert(parts.deep_view() =~= all.take(i as int).map_values(
            |s: OutputSettingView| in_words(s),
        ));
    }
    assert(all.take(i as int) =~= all);
    join(&parts, ", ")
}

fn any_mode(profile: &Profile) -> (r: bool)
    ensures
        r == names_a_mode(profile.deep_view().outputs),
{
    let ghost all = profile.deep_view().outputs;
    let mut i: usize = 0;
    while i < profile.outputs.len()
        invariant
            i <= profile.outputs.len(),
            all == profile.deep_view().outputs,
            forall|k: int| 0 <= k < i ==> (#[trigger] all[k]).mode is None,
        decreases profile.outputs.len() - i,
    {
        assert(all[i as int] == profile.outputs@[i as int].deep_view());
        if profile.outputs[i].mode.is_some() {
            assert(all[i as int].mode is Some);
            return true;
        }
        i = i + 1;
    }
    false
}

impl Run {
    /// Begins to apply the profile for a power state.
    pub fn begin(config: &Config, state: PowerState, session: Session) -> (r: Self)
        ensures
            r@ == RunView::begun(config.deep_view(), state, session),
            r@.wf(),
    {
        let mut run = Run {
            profile: config.profile(state).clone(),
            session,
            stage: Stage::Done,
            report: ApplyReport::default(),
        };
        if !config.enabled {
            run.report.warn("powerdisplay is turned off".to_string());
        } else if any_mode(&run.profile) {
            run.stage = Stage::Listing;
        } else {
            run.turn_to_profile();
        }
        run
    }

    fn turn_to_profile(&mut self)
        ensures
            final(self)@ == old(self)@.turned_to_profile(),
            final(self)@.wf(),
    {
        let name: String = match &self.profile.power_profile {
            Some(name) => if name.as_str().is_empty() {
                self.stage = Stage::Done;
                return ;
            } else {
                name.clone()
            },
            None => {
                self.stage = Stage::Done;
                return ;
            },
        };
        if !self.session.has_profiles {
            let mut text = "no power profiles service, cannot select ".to_string();
            text.append(name.as_str());
            self.report.warn(text);
            self.stage = Stage::Done;
        } else if self.session.dry_run {
            let mut text = "would select the ".to_string();
            text.append(name.as_str());
            text.append(" power profile");
            self.report.act(text);
            self.stage = Stage::Done;
        } else {
            self.stage = Stage::Reading;
        }
    }

    /// The outside work that is due now.
    pub fn work(&self) -> (r: Work<'_>)
        requires
            self@.wf(),
        ensures
            match (r, self@.stage) {
                (Work::ListDisplays, StageView::Listing) => true,
                (
                    Work::Apply(got, how),
                    StageView::Applying { settings, persist },
                ) => got.deep_view() == settings && how == persist,
                (Work::ReadProfile, StageView::Reading) => true,
                (Work::SelectProfile(name), StageView::Selecting) => Some(name@) == wanted_profile(
                    self@.profile,
                ),
                (Work::Nothing, StageView::Done) => true,
                _ => false,
            },
    {
        match &self.stage {
            Stage::Listing => Work::ListDisplays,
            Stage::Applying { settings, persist } => Work::Apply(settings, *persist),
            Stage::Reading => Work::ReadProfile,
            Stage::Selecting => match &self.profile.power_profile {
                Some(name) => Work::SelectProfile(name.as_str()),
                None => Work::Nothing,
            },
            Stage::Done => Work::Nothing,
        }
    }

    /// Takes in the displays.
    pub fn listed(&mut self, outputs: Result<Vec<Output>, String>)
        requires
            old(self)@.stage is Listing,
        ensures
            final(self)@ == old(self)@.listed(
                match outputs {
                    Ok(list) => Ok(list.deep_view()),
                    Err(e) => Err(e@),
                },
            ),
            final(self)@.wf(),
    {
        let outputs = match outputs {
            Ok(list) => list,
            Err(e) => {
                let mut text = "could not list displays: ".to_string();
                text.append(e.as_str());
                self.report.fail(text);
                self.turn_to_profile();
                return ;
            },
        };
        let rules = self.profile.outputs.as_slice();
        let shown = outputs.as_slice();
        assert(rules.deep_view() =~= self.profile.outputs.deep_view());
        assert(shown.deep_view() =~= outputs.deep_view());
        let (settings, mut warnings) = resolve_settings(rules, shown);
        let ghost before = self.report.warnings.deep_view();
        let ghost added = warnings.deep_view();
        self.report.warnings.append(&mut warnings);
        assert(self.report.warnings.deep_view() =~= before + added);
        assert(settings.deep_view().len() == settings.len());
        if settings.len() == 0 {
            self.turn_to_profile();
        } else if self.session.dry_run {
            let mut text = "would set ".to_string();
            text.append(describe(&settings).as_str());
            self.report.act(text);
            self.turn_to_profile();
        } else {
            let persist = self.profile.persist_display_config && self.session.supports_persist;
            self.stage = Stage::Applying { settings, persist };
        }
    }

    /// Takes in how setting the modes went.
    pub fn applied(&mut self, outcome: Result<(), String>)
        requires
            old(self)@.stage is Applying,
        ensures
            final(self)@ == old(self)@.applied(
                match outcome {
                    Ok(u) => Ok(u),
                    Err(e) => Err(e@),
                },
            ),
            final(self)@.wf(),
    {
        match outcome {
            Ok(_) => {
                let mut text = "set ".to_string();
                if let Stage::Applying { settings, persist: _ } = &self.stage {
                    text.append(describe(settings).as_str());
                }
                self.report.act(text);
            },
            Err(e) => {
                let mut text = "display change failed: ".to_string();
                text.append(e.as_str());
                self.report.fail(text);
            },
        }
        self.turn_to_profile();
    }

    /// Takes in the active power profile. It is changed only when needed, so repeated applies
    /// stay quiet and do not stomp on a hold placed by another application.
    pub fn read(&mut self, active: Option<String>)
        requires
            old(self)@.stage is Reading,
            old(self)@.wf(),
        ensures
            final(self)@ == old(self)@.read(active.deep_view()),
            final(self)@.wf(),
    {
        let matches = match (&active, &self.profile.power_profile) {
            (Some(a), Some(w)) => same(a.as_str(), w.as_str()),
            _ => false,
        };
        self.stage = if matches {
            Stage::Done
        } else {
            Stage::Selecting
        };
    }

    /// Takes in how selecting the power profile went.
    pub fn selected(&mut self, outcome: Result<(), String>)
        requires
            old(self)@.stage is Selecting,
            old(self)@.wf(),
        ensures
            final(self)@ == old(self)@.selected(
                match outcome {
                    Ok(u) => Ok(u),
                    Err(e) => Err(e@),
                },
            ),
            final(self)@.wf(),
    {
        match outcome {
            Ok(_) => {
                let mut text = "selected the ".to_string();
                if let Some(name) = &self.profile.power_profile {
                    text.append(name.as_str());
                }
                text.append(" power profile");
                self.report.act(text);
            },
            Err(e) => {
                let mut text = "power profile change failed: ".to_string();
                text.append(e.as_str());
                self.report.fail(text);
            },
        }
        self.stage = Stage::Done;
    }

    /// What the run did.
    pub fn report(&self) -> (r: &ApplyReport)
        ensures
            r.deep_view() == self@.report,
    {
        &self.report
    }
}

/// With the master switch off nothing is asked for and nothing is done.
pub proof fn law_master_switch_stops_everything(
    config: ConfigView,
    state: PowerState,
    session: Session,
)
    requires
        !config.enabled,
    ensures
        RunView::begun(config, state, session).stage is Done,
        RunView::begun(config, state, session).report.actions.len() == 0,
        RunView::begun(config, state, session).report.warnings == seq![
            "powerdisplay is turned off"@,
        ],
{
    assert(RunView::begun(config, state, session).report.warnings =~= seq![
        "powerdisplay is turned off"@,
    ]);
}

/// A dry run never asks for a mode to be set or a power profile to be selected, whatever it
/// is told.
pub proof fn law_dry_run_is_inert(
    config: ConfigView,
    state: PowerState,
    session: Session,
    outputs: Result<Seq<OutputView>, Seq<char>>,
)
    requires
        session.dry_run,
    ensures
        RunView::begun(config, state, session).stage is Listing || RunView::begun(
            config,
            state,
            session,
        ).stage is Done,
        RunView::begun(config, state, session).listed(outputs).stage is Done,
{
}

/// A run uses the profile of its own power state and nothing of the other.
pub proof fn law_each_state_uses_its_own_profile(
    a: ConfigView,
    b: ConfigView,
    state: PowerState,
    session: Session,
)
    requires
        a.enabled == b.enabled,
        a.profile(state) == b.profile(state),
    ensures
        RunView::begun(a, state, session) == RunView::begun(b, state, session),
{
}

/// The wish to remember a layout is passed on exactly where the desktop can fulfil it.
pub proof fn law_persist_is_passed_on(run: RunView, outputs: Seq<OutputView>)
    requires
        run.listed(Ok(outputs)).stage is Applying,
    ensures
        run.listed(Ok(outputs)).stage->persist == (run.profile.persist_display_config
            && run.session.supports_persist),
        run.listed(Ok(outputs)).stage->settings == settings_for(
            run.profile.outputs,
            outputs,
            outputs.len(),
        ),
        run.listed(Ok(outputs)).stage->settings.len() > 0,
{
}

/// Whatever goes wrong with the displays, the power profile gets its turn as if nothing had.
pub proof fn law_displays_do_not_hold_back_the_profile(
    run: RunView,
    listing: Seq<char>,
    outcome: Result<(), Seq<char>>,
)
    ensures
        run.listed(Err(listing)).stage == run.turned_to_profile().stage,
        run.applied(outcome).stage == run.turned_to_profile().stage,
{
}

/// Without a power profiles service the displays are driven all the same, and the profile
/// that cannot be selected is a warning, not an error.
pub proof fn law_missing_service_only_warns(
    config: ConfigView,
    state: PowerState,
    session: Session,
    outputs: Seq<OutputView>,
    run: RunView,
)
    ensures
        ({
            let with = RunView::begun(config, state, Session { has_profiles: true, ..session });
            let without = RunView::begun(config, state, Session { has_profiles: false, ..session });
            &&& with.stage is Listing <==> without.stage is Listing
            &&& with.stage is Listing && with.listed(Ok(outputs)).stage is Applying
                ==> without.listed(Ok(outputs)).stage == with.listed(Ok(outputs)).stage
            &&& with.stage is Listing && !(with.listed(Ok(outputs)).stage is Applying) ==> !(
            without.listed(Ok(outputs)).stage is Applying)
        }),
        !run.session.has_profiles ==> run.turned_to_profile().report.errors == run.report.errors
            && run.turned_to_profile().report.actions == run.report.actions,
{
}

/// Nothing that has been reported is taken back.
pub proof fn law_reports_only_grow(
    run: RunView,
    outputs: Result<Seq<OutputView>, Seq<char>>,
    outcome: Result<(), Seq<char>>,
    active: Option<Seq<char>>,
)
    ensures
        run.report.errors.is_prefix_of(run.listed(outputs).report.errors),
        run.report.warnings.is_prefix_of(run.listed(outputs).report.warnings),
        run.report.actions.is_prefix_of(run.listed(outputs).report.actions),
        run.report.errors.is_prefix_of(run.applied(outcome).report.errors),
        run.report.warnings.is_prefix_of(run.applied(outcome).report.warnings),
        run.report.actions.is_prefix_of(run.applied(outcome).report.actions),
        run.report == run.read(active).report,
        run.report.errors.is_prefix_of(run.selected(outcome).report.errors),
        run.report.warnings.is_prefix_of(run.selected(outcome).report.warnings),
        run.report.actions.is_prefix_of(run.selected(outcome).report.actions),
{
}

/// A power profile that is already active is left alone, and nothing is said of it.
pub proof fn law_active_profile_is_left_alone(run: RunView)
    ensures
        run.read(wanted_profile(run.profile)).stage is Done,
        run.read(wanted_profile(run.profile)).report == run.report,
{
}

/// A run that waits for the active power profile is done only when that is the very profile
/// that its settings name. Any other one, and one that could not be read, leads to the
/// selection of the profile that is named; nothing is reported before that has happened.
pub proof fn law_only_the_wanted_profile_is_left_alone(
    run: RunView,
    name: Seq<char>,
    active: Option<Seq<char>>,
)
    requires
        run.profile.power_profile == Some(name),
        name.len() > 0,
    ensures
        wanted_profile(run.profile) == Some(name),
        active == Some(name) ==> run.read(active).stage is Done,
        active != Some(name) ==> run.read(active).stage is Selecting,
        run.read(active).profile == run.profile,
        run.read(active).session == run.session,
        run.read(active).report == run.report,
{
}

/// Settings without a power profile, or with an empty name for it, want none.
pub proof fn law_an_empty_name_wants_no_power_profile(profile: ProfileView)
    ensures
        wanted_profile(profile) is None <==> profile.power_profile is None
            || profile.power_profile->Some_0.len() == 0,
{
}

/// Whether the displays are listed first depends on the rules alone: one that names a mode is
/// enough. A run starts with nothing to report.
pub proof fn law_displays_are_listed_for_any_rule_with_a_mode(
    config: ConfigView,
    state: PowerState,
    session: Session,
)
    requires
        config.enabled,
    ensures
        ({
            let run = RunView::begun(config, state, session);
            let profile = config.profile(state);
            &&& run.profile == profile && profile == (match state {
                PowerState::Battery => config.on_battery,
                PowerState::Ac => config.on_ac,
            })
            &&& run.session == session
            &&& (run.stage is Listing <==> exists|i: int|
                0 <= i < profile.outputs.len() && (#[trigger] profile.outputs[i]).mode is Some)
            &&& run.stage is Listing ==> run.report.actions.len() == 0
                && run.report.warnings.len() == 0 && run.report.errors.len() == 0
            &&& !(run.stage is Listing) ==> run == (RunView {
                profile,
                session,
                stage: StageView::Done,
                report: ReportView {
                    actions: Seq::empty(),
                    warnings: Seq::empty(),
                    errors: Seq::empty(),
                },
            }).turned_to_profile()
        }),
{
    let rules = config.profile(state).outputs;
    if names_a_mode(rules) {
        let i = choose|i: int| 0 <= i < rules.len() && (#[trigger] rules[i]).mode is Some;
        assert(rules[i].mode is Some);
    }
}

/// What becomes of the power profile once the displays are done with. Without a name for it
/// there is nothing to do. Without a service to select it that is a warning; in a dry run it
/// is only said what would be selected; otherwise the active one is read.
pub proof fn law_the_power_profile_gets_its_turn(run: RunView, name: Seq<char>)
    ensures
        ({
            let next = run.turned_to_profile();
            &&& next.profile == run.profile && next.session == run.session
            &&& next.report.errors == run.report.errors
            &&& run.profile.power_profile is None || run.profile.power_profile->Some_0.len() == 0
                ==> next.stage is Done && next.report == run.report
            &&& run.profile.power_profile == Some(name) && name.len() > 0 ==> {
                &&& !run.session.has_profiles ==> next.stage is Done && next.report.actions
                    == run.report.actions && next.report.warnings == run.report.warnings.push(
                    "no power profiles service, cannot select "@ + name,
                )
                &&& run.session.has_profiles && run.session.dry_run ==> next.stage is Done
                    && next.report.warnings == run.report.warnings && next.report.actions
                    == run.report.actions.push("would select the "@ + name + " power profile"@)
                &&& run.session.has_profiles && !run.session.dry_run ==> next.stage is Reading
                    && next.report == run.report
            }
        }),
{
}

/// What the listed displays lead to. The modes to be set are those that the rules come to, and
/// what the rules have to report is reported. They are set at once, remembered only where
/// that is both wished for and possible; in a dry run it is only said what would be set.
pub proof fn law_the_listed_displays_are_set(run: RunView, outputs: Seq<OutputView>)
    ensures
        ({
            let next = run.listed(Ok(outputs));
            let settings = settings_for(run.profile.outputs, outputs, outputs.len());
            let warned = run.report.warnings + resolve_warnings(run.profile.outputs, outputs);
            let said = RunView {
                report: ReportView {
                    actions: run.report.actions,
                    warnings: warned,
                    errors: run.report.errors,
                },
                ..run
            };
            &&& settings.len() == 0 ==> next == said.turned_to_profile()
            &&& settings.len() > 0 && run.session.dry_run ==> next == (RunView {
                report: ReportView {
                    actions: run.report.actions.push("would set "@ + all_in_words(settings)),
                    warnings: warned,
                    errors: run.report.errors,
                },
                ..run
            }).turned_to_profile()
            &&& settings.len() > 0 && !run.session.dry_run ==> {
                &&& next.stage == (StageView::Applying {
                    settings,
                    persist: run.profile.persist_display_config && run.session.supports_persist,
                })
                &&& next.profile == run.profile && next.session == run.session
                &&& next.report.actions == run.report.actions
                &&& next.report.warnings == warned
                &&& next.report.errors == run.report.errors
            }
        }),
{
}

/// What is reported of the work that was done or that failed, and only that.
pub proof fn law_outcomes_are_reported(
    run: RunView,
    settings: Seq<OutputSettingView>,
    persist: bool,
    name: Seq<char>,
    e: Seq<char>,
)
    ensures
        run.listed(Err(e)) == (RunView {
            report: ReportView {
                errors: run.report.errors.push("could not list displays: "@ + e),
                ..run.report
            },
            ..run
        }).turned_to_profile(),
        run.stage == (StageView::Applying { settings, persist }) ==> run.applied(Ok(()))
            == (RunView {
            report: ReportView {
                actions: run.report.actions.push("set "@ + all_in_words(settings)),
                ..run.report
            },
            ..run
        }).turned_to_profile(),
        run.applied(Err(e)) == (RunView {
            report: ReportView {
                errors: run.report.errors.push("display change failed: "@ + e),
                ..run.report
            },
            ..run
        }).turned_to_profile(),
        run.profile.power_profile == Some(name) && name.len() > 0 ==> run.selected(Ok(()))
            == (RunView {
            stage: StageView::Done,
            report: ReportView {
                actions: run.report.actions.push("selected the "@ + name + " power profile"@),
                ..run.report
            },
            ..run
        }),
        run.selected(Err(e)) == (RunView {
            stage: StageView::Done,
            report: ReportView {
                errors: run.report.errors.push("power profile change failed: "@ + e),
                ..run.report
            },
            ..run
        }),
{
}

/// Instructions in words: a display, `to`, its mode, with commas between them.
pub proof fn law_instructions_read_as_a_list(
    one: OutputSettingView,
    a: Seq<OutputSettingView>,
    b: Seq<OutputSettingView>,
)
    ensures
        all_in_words(seq![one]) == one.connector + " to "@ + one.mode_id,
        a.len() > 0 && b.len() > 0 ==> all_in_words(a + b) == all_in_words(a) + ", "@
            + all_in_words(b),
{
    let words = |s: OutputSettingView| in_words(s);
    assert(seq![one].map_values(words) =~= seq![in_words(one)]);
    assert((a + b).map_values(words) =~= a.map_values(words) + b.map_values(words));
    law_parts_are_joined_with_the_separator_between(
        a.map_values(words),
        b.map_values(words),
        ", "@,
    );
}

/// A report in one line: its errors, or else what was done, or else its first warning, or that
/// there was nothing to change. It has succeeded exactly where there is no error.
pub proof fn law_errors_come_first_in_a_summary(report: ReportView)
    ensures
        report.succeeded() <==> report.errors.len() == 0,
        report.errors.len() > 0 ==> report.summary() == joined(report.errors, "; "@),
        report.errors.len() == 0 && report.actions.len() > 0 ==> report.summary() == joined(
            report.actions,
            "; "@,
        ),
        report.errors.len() == 0 && report.actions.len() == 0 && report.warnings.len() > 0
            ==> report.summary() == report.warnings[0],
        report.errors.len() == 0 && report.actions.len() == 0 && report.warnings.len() == 0
            ==> report.summary() == "Nothing to change"@,
{
}

} // verus!
