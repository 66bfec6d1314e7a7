//! The daemon: its command line, the loop that watches for changes, and what it prints.
//!
//! Deliberately single-threaded at the decision level: watchers only push events, and one
//! loop debounces them and applies. That keeps "what is the current state" in exactly one
//! place.

use vstd::prelude::*;

use crate::config::PowerState;
use crate::control::{backoff, Controller, ControllerView, LONGEST_BACKOFF, MAX_WAIT};
use crate::display::mode::{rate_label, ModeView, Output, OutputView};
use crate::engine::{ApplyReport, ReportView};
use crate::events::Event;
use crate::text::{chars_of, debug_str, debug_text, join, joined, same};

verus! {

/// How often to check that the app has not been removed, in nanoseconds.
pub const UNINSTALL_POLL: u64 = 5_000_000_000;

/// The first wait for a usable session, in nanoseconds.
pub const FIRST_SESSION_DELAY: u64 = 2_000_000_000;

/// The longest wait for a usable session, in nanoseconds.
pub const LONGEST_SESSION_DELAY: u64 = 30_000_000_000;

pub const USAGE: &'static str =
    "powerdisplayd - apply a display mode and power profile based on the power source

Usage: powerdisplayd [OPTIONS]

Options:
      --apply-now   Apply the profile for the current power source, then exit
      --show        Print the detected session, power source and available modes
      --dry-run     Log what would change without changing anything
      --self-test   Probe sysfs, udev, D-Bus and the display backend, then exit
  -v, --verbose     Log at debug level
  -V, --version     Print the version
  -h, --help        Print this message

Configuration lives in $XDG_CONFIG_HOME/powerdisplay/config.toml and is re-read
automatically when it changes. Set POWERDISPLAY_BACKEND to one of gnome, kde,
wlroots or x11 to override display backend detection.
";

/// What the command line asks for.
#[derive(Clone, Copy, Debug, PartialEq, Eq)]
pub struct Options {
    pub apply_now: bool,
    pub show: bool,
    pub dry_run: bool,
    pub self_test: bool,
    pub verbose: bool,
}

/// Nothing in particular.
pub open spec fn no_options() -> Options {
    Options { apply_now: false, show: false, dry_run: false, self_test: false, verbose: false }
}

impl Default for Options {
    fn default() -> (r: Self)
        ensures
            r == no_options(),
    {
        Options { apply_now: false, show: false, dry_run: false, self_test: false, verbose: false }
    }
}

/// How a command line reads.
#[derive(Clone, Copy, Debug, PartialEq, Eq)]
pub enum Parsed {
    Run(Options),
    Help,
    Version,
}

/// Reads the arguments from left to right. The first one that asks for help or the version
/// ends it, and so does the first that is not known.
pub open spec fn parsed_from(args: Seq<Seq<char>>, options: Options) -> Result<Parsed, Seq<char>>
    decreases args.len(),
{
    if args.len() == 0 {
        Ok(Parsed::Run(options))
    } else if args[0] == "--apply-now"@ {
        parsed_from(args.drop_first(), Options { apply_now: true, ..options })
    } else if args[0] == "--show"@ {
        parsed_from(args.drop_first(), Options { show: true, ..options })
    } else if args[0] == "--dry-run"@ {
        parsed_from(args.drop_first(), Options { dry_run: true, ..options })
    } else if args[0] == "--self-test"@ {
        parsed_from(args.drop_first(), Options { self_test: true, ..options })
    } else if args[0] == "-v"@ || args[0] == "--verbose"@ {
        parsed_from(args.drop_first(), Options { verbose: true, ..options })
    } else if args[0] == "-h"@ || args[0] == "--help"@ {
        Ok(Parsed::Help)
    } else if args[0] == "-V"@ || args[0] == "--version"@ {
        Ok(Parsed::Version)
    } else {
        Err("unknown argument "@ + debug_text(args[0]))
    }
}

/// Reads the command line, without the name of the program.
pub fn parse_args(args: &Vec<String>) -> (r: Result<Parsed, String>)
    ensures
        match (r, parsed_from(args.deep_view(), no_options())) {
            (Ok(got), Ok(want)) => got == want,
            (Err(got), Err(want)) => got@ == want,
            _ => false,
        },
{
    let ghost all = args.deep_view();
    let mut options = Options::default();
    let mut i: usize = 0;
    assert(all.skip(0) =~= all);
    while i < args.len()
        invariant
            i <= args.len(),
            all == args.deep_view(),
            all.len() == args.len(),
            parsed_from(all.skip(i as int), options) == parsed_from(all, no_options()),
        decreases args.len() - i,
    {
        let arg = args[i].as_str();
        proof {
            assert(all.skip(i as int)[0] == arg@);
            assert(all.skip(i as int).drop_first() =~= all.skip(i + 1));
        }
        if same(arg, "--apply-now") {
            options.apply_now = true;
        } else if same(arg, "--show") {
            options.show = true;
        } else if same(arg, "--dry-run") {
            options.dry_run = true;
        } else if same(arg, "--self-test") {
            options.self_test = true;
        } else if same(arg, "-v") || same(arg, "--verbose") {
            options.verbose = true;
        } else if same(arg, "-h") || same(arg, "--help") {
            return Ok(Parsed::Help);
        } else if same(arg, "-V") || same(arg, "--version") {
            return Ok(Parsed::Version);
        } else {
            let mut text = "unknown argument ".to_string();
            text.append(debug_str(arg).as_str());
            return Err(text);
        }
        i = i + 1;
    }
    Ok(Parsed::Run(options))
}

/// What the daemon is to do.
#[derive(Clone, Copy, Debug, PartialEq, Eq, Structural)]
pub enum Command {
    SelfTest,
    Show,
    ApplyNow,
    Watch,
}

impl Options {
    /// The one thing to do, where several are asked for.
    pub fn command(&self) -> (r: Command)
        ensures
            r == (if self.self_test {
                Command::SelfTest
            } else if self.show {
                Command::Show
            } else if self.apply_now {
                Command::ApplyNow
            } else {
                Command::Watch
            }),
    {
        if self.self_test {
            Command::SelfTest
        } else if self.show {
            Command::Show
        } else if self.apply_now {
            Command::ApplyNow
        } else {
            Command::Watch
        }
    }

    /// The level to log at where the environment names none.
    pub fn log_level(&self) -> (r: &'static str)
        ensures
            r@ == (if self.verbose {
                "debug"@
            } else {
                "info"@
            }),
    {
        if self.verbose {
            "debug"
        } else {
            "info"
        }
    }
}

/// The wait that follows a wait for a usable session: twice as long, up to a limit.
pub open spec fn longer_delay(delay: u64) -> u64 {
    if 2 * delay < LONGEST_SESSION_DELAY {
        (2 * delay) as u64
    } else {
        LONGEST_SESSION_DELAY
    }
}

/// How long to wait the next time.
///
/// Started at login by the desktop portal, the daemon can easily win the race against the
/// compositor. Waiting is friendlier than exiting and being restarted in a loop, and it
/// also covers the compositor being restarted underneath us.
pub fn next_session_delay(delay: u64) -> (r: u64)
    ensures
        r == longer_delay(delay),
{
    if delay < LONGEST_SESSION_DELAY / 2 {
        delay * 2
    } else {
        LONGEST_SESSION_DELAY
    }
}

/// The wait after `n` failed attempts.
pub open spec fn session_delay(n: nat) -> u64
    decreases n,
{
    if n == 0 {
        FIRST_SESSION_DELAY
    } else {
        longer_delay(session_delay((n - 1) as nat))
    }
}

/// The waits for a session never shrink and never exceed the limit.
pub proof fn law_session_delays_are_bounded(n: nat)
    ensures
        FIRST_SESSION_DELAY <= session_delay(n) <= session_delay(n + 1) <= LONGEST_SESSION_DELAY,
    decreases n,
{
    reveal_with_fuel(session_delay, 2);
    if n > 0 {
        law_session_delays_are_bounded((n - 1) as nat);
    }
}

/// What the loop does next.
#[derive(Clone, Copy, Debug, PartialEq, Eq, Structural)]
pub enum WatchStep {
    /// Remove what is left of the app and stop.
    CleanUp,
    /// Apply the profile for the power source as it is now.
    Apply,
    /// Wait for an event, this many nanoseconds at most.
    Wait(u64),
}

/// What is due now, and the controller as it is left.
pub open spec fn watched(c: ControllerView, installed: bool, now: int) -> (
    WatchStep,
    ControllerView,
) {
    if !installed {
        (WatchStep::CleanUp, c)
    } else if c.due(now) {
        (WatchStep::Apply, c.taken(now))
    } else {
        (
            WatchStep::Wait(
                match c.pending {
                    Some(p) => if p.deadline() - now < UNINSTALL_POLL {
                        (p.deadline() - now) as u64
                    } else {
                        UNINSTALL_POLL
                    },
                    None => UNINSTALL_POLL,
                },
            ),
            c,
        )
    }
}

/// Decides what the loop does next.
///
/// A due apply comes *before* the next event is read. After our own mode set, display events
/// keep arriving; a wait of no time at all on a queue that is never empty would starve the
/// apply forever.
pub fn watch_step(controller: &mut Controller, installed: bool, now: u64) -> (r: WatchStep)
    ensures
        (r, final(controller)@) == watched(old(controller)@, installed, now as int),
{
    if !installed {
        return WatchStep::CleanUp;
    }
    if controller.take_due(now) {
        return WatchStep::Apply;
    }
    let wait: u64 = match controller.wait(now) {
        Some(timeout) => if timeout < UNINSTALL_POLL {
            timeout
        } else {
            UNINSTALL_POLL
        },
        None => UNINSTALL_POLL,
    };
    WatchStep::Wait(wait)
}

/// What an event calls for beyond what the controller does with it.
#[derive(Clone, Copy, Debug, PartialEq, Eq, Structural)]
pub enum Reaction {
    Nothing,
    /// Read the settings again and hand them to the controller.
    LoadConfig,
}

/// Takes in an event. A change of the settings only counts once they have been read.
pub fn take_in(controller: &mut Controller, event: Event, now: u64) -> (r: Reaction)
    requires
        now + MAX_WAIT <= u64::MAX,
    ensures
        r == (if event is ConfigChanged {
            Reaction::LoadConfig
        } else {
            Reaction::Nothing
        }),
        final(controller)@ == if event is ConfigChanged {
            old(controller)@
        } else {
            old(controller)@.noticed(event, now as int)
        },
{
    match event {
        Event::ConfigChanged => Reaction::LoadConfig,
        Event::Power(_) | Event::DisplaysChanged | Event::Resumed => {
            controller.on_event(event, now);
            Reaction::Nothing
        },
    }
}

/// The controller once an apply has run: a completed one is recorded, a failed one is put
/// off for another attempt.
pub open spec fn after(
    c: ControllerView,
    report: ReportView,
    state: PowerState,
    now: int,
) -> ControllerView {
    if report.succeeded() {
        c.applied(state)
    } else {
        c.retried(now)
    }
}

/// Takes in how an apply for `state` went. Returns how long the wait for another attempt
/// is; `None` where none is made, because the apply went through or because the attempts
/// are used up.
///
/// A compositor that refuses now usually stops refusing shortly afterwards, and taking a due
/// apply clears it, so without this nothing would try again until the charger is touched.
pub fn after_apply(
    controller: &mut Controller,
    report: &ApplyReport,
    state: PowerState,
    now: u64,
) -> (r: Option<u64>)
    requires
        now + LONGEST_BACKOFF <= u64::MAX,
    ensures
        final(controller)@ == after(old(controller)@, report.deep_view(), state, now as int),
        r == if report.deep_view().succeeded() {
            None
        } else {
            backoff(old(controller)@.retries)
        },
{
    if report.succeeded() {
        controller.applied(state);
        None
    } else {
        controller.schedule_retry(now)
    }
}

/// A transient refusal is not permanent: an apply that was taken and failed comes due again
/// after the delay, as long as attempts are left, and one that went through does not.
pub proof fn law_a_failed_apply_is_tried_again(
    c: ControllerView,
    report: ReportView,
    state: PowerState,
    now: int,
    later: int,
)
    requires
        c.due(now),
    ensures
        report.succeeded() ==> !after(watched(c, true, now).1, report, state, now).due(later),
        !report.succeeded() && backoff(c.retries) is Some ==> (after(
            watched(c, true, now).1,
            report,
            state,
            now,
        ).due(later) <==> later >= now + backoff(c.retries)->Some_0),
        !report.succeeded() && backoff(c.retries) is None ==> !after(
            watched(c, true, now).1,
            report,
            state,
            now,
        ).due(later),
{
}

/// A due apply runs before any further event is read, and the app's removal is noticed
/// within the poll interval.
pub proof fn law_a_due_apply_is_never_starved(c: ControllerView, now: int)
    ensures
        c.due(now) ==> watched(c, true, now).0 == WatchStep::Apply && watched(
            c,
            true,
            now,
        ).1.pending is None,
        watched(c, true, now).0 matches WatchStep::Wait(n) ==> n <= UNINSTALL_POLL,
        watched(c, false, now).0 == WatchStep::CleanUp,
{
}

/// How loud a line of the log is.
#[derive(Clone, Copy, Debug, PartialEq, Eq, Structural)]
pub enum Level {
    Debug,
    Info,
    Warn,
    Error,
}

/// A line of the log.
#[derive(Debug)]
pub struct LogLine {
    pub level: Level,
    pub text: String,
}

pub struct LogLineView {
    pub level: Level,
    pub text: Seq<char>,
}

impl DeepView for LogLine {
    type V = LogLineView;

    open spec fn deep_view(&self) -> LogLineView {
        LogLineView { level: self.level, text: self.text@ }
    }
}

pub open spec fn lines_at(level: Level, texts: Seq<Seq<char>>) -> Seq<LogLineView> {
    texts.map_values(|text: Seq<char>| LogLineView { level, text })
}

/// The log of an apply: every warning, every error, and what was done in one line.
pub open spec fn log_of(report: ReportView) -> Seq<LogLineView> {
    lines_at(Level::Warn, report.warnings) + lines_at(Level::Error, report.errors)
        + if report.actions.len() > 0 {
        seq![LogLineView { level: Level::Info, text: joined(report.actions, "; "@) }]
    } else if report.errors.len() == 0 && report.warnings.len() == 0 {
        seq![LogLineView { level: Level::Debug, text: "already in the requested state"@ }]
    } else {
        Seq::empty()
    }
}

fn push_lines(out: &mut Vec<LogLine>, level: Level, texts: &Vec<String>)
    ensures
        final(out).deep_view() == old(out).deep_view() + lines_at(level, texts.deep_view()),
{
    let ghost before = out.deep_view();
    let ghost all = texts.deep_view();
    let mut i: usize = 0;
    assert(out.deep_view() =~= before + lines_at(level, all.take(0)));
    while i < texts.len()
        invariant
            i <= texts.len(),
            all == texts.deep_view(),
            all.len() == texts.len(),
            out.deep_view() == before + lines_at(level, all.take(i as int)),
        decreases texts.len() - i,
    {
        let ghost now = out.deep_view();
        let line = LogLine { level, text: texts[i].clone() };
        out.push(line);
        assert(all[i as int] == texts@[i as int]@);
        i = i + 1;
        assert(out.deep_view() =~= now.push(line.deep_view()));
        assert(out.deep_view() =~= before + lines_at(level, all.take(i as int)));
    }
    assert(all.take(i as int) =~= all);
}

/// What to log of an apply.
pub fn log_report(report: &ApplyReport) -> (r: Vec<LogLine>)
    ensures
        r.deep_view() == log_of(report.deep_view()),
{
    let mut out: Vec<LogLine> = Vec::new();
    assert(out.deep_view() =~= Seq::<LogLineView>::empty());
    push_lines(&mut out, Level::Warn, &report.warnings);
    push_lines(&mut out, Level::Error, &report.errors);
    let ghost before = out.deep_view();
    if report.actions.len() > 0 {
        let line = LogLine { level: Level::Info, text: join(&report.actions, "; ") };
        out.push(line);
        assert(out.deep_view() =~= before.push(line.deep_view()));
    } else if report.errors.len() == 0 && report.warnings.len() == 0 {
        let line = LogLine {
            level: Level::Debug,
            text: "already in the requested state".to_string(),
        };
        out.push(line);
        assert(out.deep_view() =~= before.push(line.deep_view()));
    }
    assert(out.deep_view() =~= log_of(report.deep_view()));
    out
}

/// `n` spaces.
pub open spec fn spaces(n: nat) -> Seq<char> {
    Seq::new(n, |i: int| ' ')
}

/// A text filled up with spaces to a width; a longer one stays as it is.
pub open spec fn filled(text: Seq<char>, width: nat) -> Seq<char> {
    if text.len() < width {
        text + spaces((width - text.len()) as nat)
    } else {
        text
    }
}

fn fill(text: &str, width: usize) -> (r: String)
    ensures
        r@ == filled(text@, width as nat),
{
    let chars = chars_of(text);
    let mut out = text.to_string();
    let mut n: usize = chars.len();
    assert(out@ =~= text@ + spaces(0));
    while n < width
        invariant
            chars@ == text@,
            chars.len() <= n,
            n <= width || n == chars.len(),
            out@ == text@ + spaces((n - chars.len()) as nat),
        decreases width - n,
    {
        out.push(' ');
        n = n + 1;
        assert(out@ =~= text@ + spaces((n - chars.len()) as nat));
    }
    assert(out@ =~= filled(text@, width as nat));
    out
}

/// The mark in front of what is in use.
pub open spec fn marker(on: bool) -> Seq<char> {
    if on {
        "  * "@
    } else {
        "    "@
    }
}

/// What `--show` prints of the power profiles.
pub open spec fn profile_lines(active: Seq<char>, names: Seq<Seq<char>>) -> Seq<Seq<char>> {
    names.map_values(|name: Seq<char>| marker(name == active) + name)
}

/// Prints the power profiles, with a mark at the active one.
pub fn show_profiles(service: &str, active: &str, available: &Vec<String>) -> (r: Vec<String>)
    ensures
        r.deep_view() == seq!["Power profiles: "@ + service@] + profile_lines(
            active@,
            available.deep_view(),
        ),
{
    let ghost all = available.deep_view();
    let mut out: Vec<String> = Vec::new();
    let mut head = "Power profiles: ".to_string();
    head.append(service);
    out.push(head);
    let ghost first = seq!["Power profiles: "@ + service@];
    let mut i: usize = 0;
    assert(out.deep_view() =~= first + profile_lines(active@, all.take(0)));
    while i < available.len()
        invariant
            i <= available.len(),
            all == available.deep_view(),
            all.len() == available.len(),
            out.deep_view() == first + profile_lines(active@, all.take(i as int)),
        decreases available.len() - i,
    {
        let ghost now = out.deep_view();
        let name = available[i].as_str();
        let mut text = if same(name, active) {
            "  * ".to_string()
        } else {
            "    ".to_string()
        };
        text.append(name);
        out.push(text);
        assert(all[i as int] == name@);
        i = i + 1;
        assert(out.deep_view() =~= now.push(text@));
        assert(out.deep_view() =~= first + profile_lines(active@, all.take(i as int)));
    }
    assert(all.take(i as int) =~= all);
    out
}

/// What `--show` prints of a mode.
pub open spec fn mode_line(m: ModeView, current: Option<Seq<char>>) -> Seq<char> {
    marker(current == Some(m.id)) + filled(m.id, 28) + " "@ + rate_label(m.refresh)
}

pub open spec fn mode_lines(modes: Seq<ModeView>, current: Option<Seq<char>>) -> Seq<Seq<char>> {
    modes.map_values(|m: ModeView| mode_line(m, current))
}

/// What `--show` prints of a display.
pub open spec fn output_lines(o: OutputView) -> Seq<Seq<char>> {
    seq![
        o.display_name() + " ["@ + (if o.enabled {
            "active"@
        } else {
            "inactive"@
        }) + "]"@,
    ] + mode_lines(o.modes, o.current_mode) + seq![""@]
}

/// Prints a display and every mode it offers, with a mark at the one it is in.
pub fn show_output(output: &Output) -> (r: Vec<String>)
    ensures
        r.deep_view() == output_lines(output.deep_view()),
{
    let ghost view = output.deep_view();
    let ghost all = output.modes.deep_view();
    let mut out: Vec<String> = Vec::new();
    let mut head = output.display_name();
    head.append(" [");
    head.append(
        if output.enabled {
            "active"
        } else {
            "inactive"
        },
    );
    head.append("]");
    out.push(head);
    let ghost first = seq![head@];
    let mut i: usize = 0;
    assert(out.deep_view() =~= first + mode_lines(all.take(0), view.current_mode));
    while i < output.modes.len()
        invariant
            i <= output.modes.len(),
            view == output.deep_view(),
            all == output.modes.deep_view(),
            all.len() == output.modes.len(),
            out.deep_view() == first + mode_lines(all.take(i as int), view.current_mode),
        decreases output.modes.len() - i,
    {
        let ghost now = out.deep_view();
        let m = &output.modes[i];
        let current = match &output.current_mode {
            Some(id) => same(id.as_str(), m.id.as_str()),
            None => false,
        };
        let mut text = if current {
            "  * ".to_string()
        } else {
            "    ".to_string()
        };
        text.append(fill(m.id.as_str(), 28).as_str());
        text.append(" ");
        text.append(m.refresh_label().as_str());
        out.push(text);
        proof {
            assert(all[i as int] == m.deep_view());
            assert(text@ == mode_line(m.deep_view(), view.current_mode));
        }
        i = i + 1;
        assert(out.deep_view() =~= now.push(text@));
        assert(out.deep_view() =~= first + mode_lines(all.take(i as int), view.current_mode));
    }
    assert(all.take(i as int) =~= all);
    let ghost now = out.deep_view();
    out.push("".to_string());
    assert(out.deep_view() =~= now.push(""@));
    assert(out.deep_view() =~= output_lines(view));
    out
}

/// An argument that adds to what is asked for and lets the rest be read.
pub open spec fn adds_an_option(arg: Seq<char>) -> bool {
    ||| arg == "--apply-now"@
    ||| arg == "--show"@
    ||| arg == "--dry-run"@
    ||| arg == "--self-test"@
    ||| arg == "-v"@
    ||| arg == "--verbose"@
}

proof fn lemma_arguments()
    ensures
        "--apply-now"@ != "--show"@ && "--apply-now"@ != "--dry-run"@ && "--apply-now"@
            != "--self-test"@ && "--apply-now"@ != "-v"@ && "--apply-now"@ != "--verbose"@,
        "--show"@ != "--dry-run"@ && "--show"@ != "--self-test"@ && "--show"@ != "-v"@ && "--show"@
            != "--verbose"@,
        "--dry-run"@ != "--self-test"@ && "--dry-run"@ != "-v"@ && "--dry-run"@ != "--verbose"@,
        "--self-test"@ != "-v"@ && "--self-test"@ != "--verbose"@,
        !adds_an_option("-h"@) && !adds_an_option("--help"@),
        !adds_an_option("-V"@) && !adds_an_option("--version"@),
        "-h"@ != "-V"@ && "-h"@ != "--version"@ && "--help"@ != "-V"@ && "--help"@ != "--version"@,
{
    reveal_strlit("--apply-now");
    reveal_strlit("--show");
    reveal_strlit("--dry-run");
    reveal_strlit("--self-test");
    reveal_strlit("-v");
    reveal_strlit("--verbose");
    reveal_strlit("-h");
    reveal_strlit("--help");
    reveal_strlit("-V");
    reveal_strlit("--version");
    assert("--show"@.len() == 6 && "--dry-run"@.len() == 9 && "--self-test"@.len() == 11);
    assert("-v"@.len() == 2 && "--verbose"@.len() == 9);
    assert("--apply-now"@[2] == 'a' && "--self-test"@[2] == 's');
    assert("--dry-run"@[2] == 'd' && "--verbose"@[4] == 'r' && "--version"@[4] == 'r');
    assert("--verbose"@[5] == 'b' && "--version"@[5] == 's');
    assert("--show"@[2] == 's' && "--help"@[2] == 'h');
    assert("-v"@[1] == 'v' && "-V"@[1] == 'V' && "-h"@[1] == 'h');
}

/// What is asked for is what the arguments name, in any order and however often, on top of
/// what was asked for before.
pub proof fn law_options_are_those_named(args: Seq<Seq<char>>, options: Options)
    requires
        forall|i: int| 0 <= i < args.len() ==> adds_an_option(#[trigger] args[i]),
    ensures
        parsed_from(args, options) matches Ok(Parsed::Run(o)) && {
            &&& o.apply_now <==> options.apply_now || args.contains("--apply-now"@)
            &&& o.show <==> options.show || args.contains("--show"@)
            &&& o.dry_run <==> options.dry_run || args.contains("--dry-run"@)
            &&& o.self_test <==> options.self_test || args.contains("--self-test"@)
            &&& o.verbose <==> options.verbose || args.contains("-v"@) || args.contains(
                "--verbose"@,
            )
        },
    decreases args.len(),
{
    lemma_arguments();
    if args.len() > 0 {
        let rest = args.drop_first();
        assert forall|i: int| 0 <= i < rest.len() implies adds_an_option(#[trigger] rest[i]) by {
            assert(rest[i] == args[i + 1]);
        }
        assert(adds_an_option(args[0]));
        assert forall|a: Seq<char>| #[trigger] args.contains(a) <==> args[0] == a || rest.contains(
            a,
        ) by {
            if rest.contains(a) {
                let k = choose|k: int| 0 <= k < rest.len() && rest[k] == a;
                assert(args[k + 1] == a);
            }
            if args.contains(a) && args[0] != a {
                let k = choose|k: int| 0 <= k < args.len() && args[k] == a;
                assert(rest[k - 1] == a);
            }
        }
        let next = Options {
            apply_now: options.apply_now || args[0] == "--apply-now"@,
            show: options.show || args[0] == "--show"@,
            dry_run: options.dry_run || args[0] == "--dry-run"@,
            self_test: options.self_test || args[0] == "--self-test"@,
            verbose: options.verbose || args[0] == "-v"@ || args[0] == "--verbose"@,
        };
        law_options_are_those_named(rest, next);
        assert(parsed_from(args, options) == parsed_from(rest, next));
    }
}

/// The first argument that is no option decides: it asks for help or for the version, or it
/// is not known. Nothing after it counts.
pub proof fn law_the_first_other_argument_decides(
    args: Seq<Seq<char>>,
    options: Options,
    i: int,
)
    requires
        0 <= i < args.len(),
        !adds_an_option(args[i]),
        forall|j: int| 0 <= j < i ==> adds_an_option(#[trigger] args[j]),
    ensures
        args[i] == "-h"@ || args[i] == "--help"@ ==> parsed_from(args, options) == Ok::<
            Parsed,
            Seq<char>,
        >(Parsed::Help),
        args[i] == "-V"@ || args[i] == "--version"@ ==> parsed_from(args, options) == Ok::<
            Parsed,
            Seq<char>,
        >(Parsed::Version),
        args[i] != "-h"@ && args[i] != "--help"@ && args[i] != "-V"@ && args[i] != "--version"@
            ==> parsed_from(args, options) == Err::<Parsed, Seq<char>>(
            "unknown argument "@ + debug_text(args[i]),
        ),
    decreases i,
{
    lemma_arguments();
    if i > 0 {
        let rest = args.drop_first();
        assert(rest[i - 1] == args[i]);
        assert forall|j: int| 0 <= j < i - 1 implies adds_an_option(#[trigger] rest[j]) by {
            assert(rest[j] == args[j + 1]);
        }
        assert(adds_an_option(args[0]));
        let next = Options {
            apply_now: options.apply_now || args[0] == "--apply-now"@,
            show: options.show || args[0] == "--show"@,
            dry_run: options.dry_run || args[0] == "--dry-run"@,
            self_test: options.self_test || args[0] == "--self-test"@,
            verbose: options.verbose || args[0] == "-v"@ || args[0] == "--verbose"@,
        };
        law_the_first_other_argument_decides(rest, next, i - 1);
        assert(parsed_from(args, options) == parsed_from(rest, next));
    }
}

/// A wait for a session is twice the one before it, but never longer than half a minute.
pub proof fn law_a_session_is_waited_for_twice_as_long(delay: u64)
    ensures
        2 * delay <= 30_000_000_000 ==> longer_delay(delay) == 2 * delay,
        2 * delay > 30_000_000_000 ==> longer_delay(delay) == 30_000_000_000,
        session_delay(0) == 2_000_000_000,
{
}

/// An app that is gone is cleaned up after, whatever is due. Otherwise a due apply is made,
/// and with none due the loop sleeps until the next one is, or until it is time to look
/// whether the app is still there.
pub proof fn law_the_loop_sleeps_until_something_is_due(c: ControllerView, now: int)
    ensures
        watched(c, false, now).0 == WatchStep::CleanUp,
        watched(c, true, now).0 == WatchStep::Apply <==> c.pending is Some && (now
            >= c.pending->Some_0.settles_at || now >= c.pending->Some_0.latest),
        c.pending is None ==> watched(c, true, now).0 == WatchStep::Wait(5_000_000_000),
        c.pending matches Some(p) ==> now < p.settles_at ==> now < p.latest ==> (watched(
            c,
            true,
            now,
        ).0 matches WatchStep::Wait(d) && {
            &&& 0 < d <= 5_000_000_000
            &&& now + d <= p.settles_at && now + d <= p.latest
            &&& d == 5_000_000_000 || now + d == p.settles_at || now + d == p.latest
        }),
        !c.due(now) ==> watched(c, true, now).1 == c,
        watched(c, false, now).1 == c,
        c.due(now) ==> watched(c, true, now).1.pending is None,
{
}

/// The log has the warnings first, then the errors, each on a line of its own, and what was
/// done on one line at the end. Where there is nothing to say, it says so for those who want
/// to know everything.
pub proof fn law_the_log_tells_everything(report: ReportView, i: int)
    ensures
        ({
            let log = log_of(report);
            let w = report.warnings.len() as int;
            let e = report.errors.len() as int;
            &&& 0 <= i < w ==> log[i].level == Level::Warn && log[i].text == report.warnings[i]
            &&& 0 <= i < e ==> log[w + i].level == Level::Error && log[w + i].text
                == report.errors[i]
            &&& report.actions.len() > 0 ==> log.len() == w + e + 1 && log[w + e].level
                == Level::Info && log[w + e].text == joined(report.actions, "; "@)
            &&& report.actions.len() == 0 && w + e > 0 ==> log.len() == w + e
            &&& report.actions.len() == 0 && w + e == 0 ==> log.len() == 1 && log[0].level
                == Level::Debug && log[0].text == "already in the requested state"@
        }),
{
}

/// Filling up adds spaces behind a text until it is as wide as it should be, and never takes
/// anything away.
pub proof fn law_filling_up_adds_spaces_behind(text: Seq<char>, width: nat, i: int)
    requires
        text.len() <= i < width,
    ensures
        filled(text, width).len() == width,
        filled(text, width).take(text.len() as int) == text,
        filled(text, width)[i] == ' ',
        filled(text, text.len()) == text,
{
    assert(filled(text, width).take(text.len() as int) =~= text);
}

/// A display is printed with a heading, a line for each of its modes in their order, and an
/// empty line. The mark stands at the mode it is in and nowhere else.
pub proof fn law_a_display_is_printed_mode_by_mode(o: OutputView, k: int)
    requires
        0 <= k < o.modes.len(),
    ensures
        output_lines(o).len() == o.modes.len() + 2,
        o.enabled ==> output_lines(o)[0] == o.display_name() + " ["@ + "active"@ + "]"@,
        !o.enabled ==> output_lines(o)[0] == o.display_name() + " ["@ + "inactive"@ + "]"@,
        output_lines(o).last() == ""@,
        o.current_mode == Some(o.modes[k].id) ==> output_lines(o)[k + 1] == "  * "@ + filled(
            o.modes[k].id,
            28,
        ) + " "@ + rate_label(o.modes[k].refresh),
        o.current_mode != Some(o.modes[k].id) ==> output_lines(o)[k + 1] == "    "@ + filled(
            o.modes[k].id,
            28,
        ) + " "@ + rate_label(o.modes[k].refresh),
{
}

/// The power profiles are printed one to a line, with the mark at the active one.
pub proof fn law_the_active_profile_is_marked(active: Seq<char>, names: Seq<Seq<char>>, k: int)
    requires
        0 <= k < names.len(),
    ensures
        profile_lines(active, names).len() == names.len(),
        names[k] == active ==> profile_lines(active, names)[k] == "  * "@ + names[k],
        names[k] != active ==> profile_lines(active, names)[k] == "    "@ + names[k],
{
}

/// A completed apply is recorded with its power state, and a failed one leaves the power state
/// as it was, to be tried again.
pub proof fn law_an_apply_with_an_error_is_not_recorded(
    c: ControllerView,
    report: ReportView,
    state: PowerState,
    now: int,
)
    ensures
        report.errors.len() == 0 ==> after(c, report, state, now).state == state && after(
            c,
            report,
            state,
            now,
        ).pending == c.pending && after(c, report, state, now).retries == 0,
        report.errors.len() > 0 ==> after(c, report, state, now).state == c.state,
        report.errors.len() > 0 && c.retries < 4 ==> after(c, report, state, now).pending is Some
            && after(c, report, state, now).retries == c.retries + 1,
        report.errors.len() > 0 && c.retries >= 4 ==> after(c, report, state, now) == c,
        after(c, report, state, now).config == c.config,
{
}


} // verus!
