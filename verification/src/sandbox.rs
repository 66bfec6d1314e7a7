//! Whether the environment the daemon is actually running in can drive autoswitch.
//!
//! The checks cover the Flatpak sandbox: sysfs, udev, D-Bus names, the display backend, and
//! the config overlay. Each judges what a probe of the environment found.

use vstd::prelude::*;

use crate::display::mode::{Output, OutputView};
use crate::instance::FLATPAK_ID;
use crate::number::{decimal, to_decimal};
use crate::power::source::{classify, state_of, SupplyReading, SupplyReadingView};
use crate::text::{chars_of, contains, debug_str, debug_text, holds, join, joined, occurs_at, stands_at};
use crate::watch::UdevSource;

verus! {

/// The verdict on one part of the environment.
#[derive(Debug, PartialEq, Eq)]
pub struct Check {
    pub name: &'static str,
    pub required: bool,
    pub ok: bool,
    pub detail: String,
}

pub struct CheckView {
    pub name: Seq<char>,
    pub required: bool,
    pub ok: bool,
    pub detail: Seq<char>,
}

impl DeepView for Check {
    type V = CheckView;

    open spec fn deep_view(&self) -> CheckView {
        CheckView {
            name: self.name@,
            required: self.required,
            ok: self.ok,
            detail: self.detail@,
        }
    }
}

/// The verdicts on all of it.
#[derive(Debug, PartialEq, Eq)]
pub struct Report {
    pub checks: Vec<Check>,
}

impl Default for Report {
    fn default() -> (r: Self)
        ensures
            r.checks.deep_view() == Seq::<CheckView>::empty(),
    {
        let r = Report { checks: Vec::new() };
        assert(r.checks.deep_view() =~= Seq::<CheckView>::empty());
        r
    }
}

/// A check that fails the whole.
pub open spec fn is_failure(c: CheckView) -> bool {
    c.required && !c.ok
}

pub open spec fn all_pass(checks: Seq<CheckView>) -> bool {
    forall|i: int| 0 <= i < checks.len() ==> !is_failure(#[trigger] checks[i])
}

/// The checks that fail the whole, in order.
pub open spec fn failures(checks: Seq<CheckView>) -> Seq<CheckView>
    decreases checks.len(),
{
    if checks.len() == 0 {
        Seq::empty()
    } else {
        let before = failures(checks.drop_last());
        if is_failure(checks.last()) {
            before.push(checks.last())
        } else {
            before
        }
    }
}

impl Report {
    /// Whether everything that is required is there.
    pub fn passed(&self) -> (r: bool)
        ensures
            r == all_pass(self.checks.deep_view()),
    {
        let ghost all = self.checks.deep_view();
        let mut i: usize = 0;
        while i < self.checks.len()
            invariant
                i <= self.checks.len(),
                all == self.checks.deep_view(),
                all.len() == self.checks.len(),
                forall|k: int| 0 <= k < i ==> !is_failure(#[trigger] all[k]),
            decreases self.checks.len() - i,
        {
            assert(all[i as int] == self.checks@[i as int].deep_view());
            if self.checks[i].required && !self.checks[i].ok {
                assert(is_failure(all[i as int]));
                return false;
            }
            i = i + 1;
        }
        true
    }

    /// The checks that are required and failed.
    pub fn failed_required(&self) -> (r: Vec<&Check>)
        ensures
            r.deep_view() == failures(self.checks.deep_view()),
    {
        let ghost all = self.checks.deep_view();
        let mut out: Vec<&Check> = Vec::new();
        let mut i: usize = 0;
        assert(out.deep_view() =~= Seq::<CheckView>::empty());
        while i < self.checks.len()
            invariant
                i <= self.checks.len(),
                all == self.checks.deep_view(),
                all.len() == self.checks.len(),
                out.deep_view() == failures(all.take(i as int)),
            decreases self.checks.len() - i,
        {
            let ghost before = out.deep_view();
            let c = &self.checks[i];
            proof {
                assert(all.take(i + 1).drop_last() =~= all.take(i as int));
                assert(all.take(i + 1).last() == c.deep_view());
            }
            if c.required && !c.ok {
                out.push(c);
                assert(out.deep_view() =~= before.push(c.deep_view()));
            }
            i = i + 1;
        }
        assert(all.take(i as int) =~= all);
        out
    }

    fn push(&mut self, name: &'static str, required: bool, ok: bool, detail: String)
        ensures
            final(self).checks.deep_view() == old(self).checks.deep_view().push(
                CheckView { name: name@, required, ok, detail: detail@ },
            ),
    {
        let ghost before = self.checks.deep_view();
        let check = Check { name, required, ok, detail };
        self.checks.push(check);
        assert(self.checks.deep_view() =~= before.push(check.deep_view()));
    }
}

proof fn lemma_failures(checks: Seq<CheckView>)
    ensures
        failures(checks).len() == 0 <==> all_pass(checks),
    decreases checks.len(),
{
    if checks.len() > 0 {
        let front = checks.drop_last();
        lemma_failures(front);
        assert forall|i: int| 0 <= i < front.len() implies #[trigger] checks[i] == front[i] by {}
        assert(checks[checks.len() - 1] == checks.last());
    }
}

/// A report passes exactly when it has no failure to show.
pub proof fn law_a_report_passes_without_failures(checks: Seq<CheckView>)
    ensures
        all_pass(checks) <==> failures(checks).len() == 0,
{
    lemma_failures(checks);
}

/// What the probe of the display backend found.
#[derive(Debug)]
pub enum BackendProbe {
    /// No backend answers.
    Missing(String),
    /// A backend answers but does not list its displays.
    Unlisted(&'static str, String),
    /// A backend lists its displays.
    Listed(&'static str, Vec<Output>),
}

/// What the probe of the power profiles service found.
#[derive(Debug)]
pub struct ProfilesProbe {
    pub service: &'static str,
    pub active: String,
    pub available: Vec<String>,
}

/// What the probes of the environment found.
#[derive(Debug)]
pub struct Probes {
    pub sandboxed: bool,
    /// The path of the settings, or why there is none.
    pub config_path: Result<String, String>,
    /// The supplies, where their directory is there.
    pub supplies: Option<Vec<SupplyReading>>,
    pub udev: Result<(), String>,
    pub uevents: Result<(), String>,
    pub backend: BackendProbe,
    pub profiles: Option<ProfilesProbe>,
    pub run_udev: bool,
}

pub open spec fn sandbox_check(inside: bool) -> CheckView {
    CheckView {
        name: "sandbox"@,
        required: false,
        ok: true,
        detail: if inside {
            "running inside a Flatpak (/.flatpak-info present)"@
        } else {
            "not a Flatpak; host tools and paths apply"@
        },
    }
}

/// Says where we run. It is informative: autoswitch has to work in both places.
pub fn check_sandbox_marker(report: &mut Report, inside: bool)
    ensures
        final(report).checks.deep_view() == old(report).checks.deep_view().push(
            sandbox_check(inside),
        ),
{
    let detail = if inside {
        "running inside a Flatpak (/.flatpak-info present)".to_string()
    } else {
        "not a Flatpak; host tools and paths apply".to_string()
    };
    report.push("sandbox", false, true, detail);
}

/// Whether one of the parts between the slashes of a path is this one.
pub open spec fn has_part(path: Seq<char>, part: Seq<char>) -> bool {
    exists|at: int|
        #[trigger] occurs_at(path, part, at) && (at == 0 || path[at - 1] == '/') && (at + part.len()
            == path.len() || path[at + part.len()] == '/')
}

/// A path below the directory that Flatpak puts in place of the user's own.
pub open spec fn is_overlay(path: Seq<char>) -> bool {
    has_part(path, ".var"@) && holds(path, FLATPAK_ID@)
}

fn path_has_part(path: &str, part: &str) -> (r: bool)
    ensures
        r == has_part(path@, part@),
{
    let p = chars_of(path);
    let n = chars_of(part);
    if n.len() > p.len() {
        assert forall|at: int| !occurs_at(path@, part@, at) by {}
        return false;
    }
    let last: usize = p.len() - n.len();
    let mut at: usize = 0;
    loop
        invariant
            p@ == path@,
            n@ == part@,
            last == p.len() - n.len(),
            at <= last,
            forall|k: int|
                0 <= k < at ==> !(#[trigger] occurs_at(path@, part@, k) && (k == 0 || path@[k - 1]
                    == '/') && (k + part@.len() == path@.len() || path@[k + part@.len()] == '/')),
        decreases last - at,
    {
        if stands_at(&p, &n, at) && (at == 0 || p[at - 1] == '/') && (at == last || p[at + n.len()]
            == '/') {
            assert(occurs_at(path@, part@, at as int));
            return true;
        }
        if at == last {
            return false;
        }
        at = at + 1;
    }
}

/// Whether a path is one that the sandbox redirects to the app's own directory.
pub fn path_is_flatpak_overlay(path: &str) -> (r: bool)
    ensures
        r == is_overlay(path@),
{
    path_has_part(path, ".var") && contains(path, FLATPAK_ID)
}

pub open spec fn config_check(inside: bool, path: Result<Seq<char>, Seq<char>>) -> CheckView {
    match path {
        Ok(p) => CheckView {
            name: "config path"@,
            required: inside,
            ok: !inside || is_overlay(p),
            detail: if inside && !is_overlay(p) {
                p
                    + " is not under the Flatpak XDG overlay; the GUI and daemon would not share settings"@
            } else {
                p
            },
        },
        Err(e) => CheckView { name: "config path"@, required: true, ok: false, detail: e },
    }
}

/// Whether the window and the daemon find the same settings.
pub fn check_config_location(report: &mut Report, inside: bool, path: &Result<String, String>)
    ensures
        final(report).checks.deep_view() == old(report).checks.deep_view().push(
            config_check(
                inside,
                match path {
                    Ok(p) => Ok(p@),
                    Err(e) => Err(e@),
                },
            ),
        ),
{
    match path {
        Ok(p) => {
            let overlaid = path_is_flatpak_overlay(p.as_str());
            let mut detail = p.clone();
            if inside && !overlaid {
                detail.append(
                    " is not under the Flatpak XDG overlay; the GUI and daemon would not share settings",
                );
            }
            report.push("config path", inside, !inside || overlaid, detail);
        },
        Err(e) => {
            report.push("config path", true, false, e.clone());
        },
    }
}

pub open spec fn online_text(online: Option<bool>) -> Seq<char> {
    match online {
        Some(true) => "Some(true)"@,
        Some(false) => "Some(false)"@,
        None => "None"@,
    }
}

/// One supply in words.
pub open spec fn supply_text(s: SupplyReadingView) -> Seq<char> {
    s.kind + " online="@ + online_text(s.online) + " status="@ + debug_text(
        match s.status {
            Some(status) => status,
            None => ""@,
        },
    )
}

pub open spec fn supplies_text(supplies: Seq<SupplyReadingView>) -> Seq<char> {
    joined(supplies.map_values(|s: SupplyReadingView| supply_text(s)), ", "@)
}

pub open spec fn power_check(supplies: Option<Seq<SupplyReadingView>>) -> CheckView {
    CheckView {
        name: "sysfs power_supply"@,
        required: true,
        ok: supplies is Some && supplies->Some_0.len() > 0,
        detail: match supplies {
            None => "/sys/class/power_supply is missing; charger events cannot be read"@,
            Some(list) => if list.len() == 0 {
                "directory is there but no supply could be read (sandbox hiding attributes?)"@
            } else {
                state_of(list).label_text() + " → "@ + decimal(list.len()) + "; "@ + supplies_text(
                    list,
                )
            },
        },
    }
}

fn show_supply(s: &SupplyReading) -> (r: String)
    ensures
        r@ == supply_text(s.deep_view()),
{
    let mut text = s.kind.clone();
    text.append(" online=");
    text.append(
        match s.online {
            Some(true) => "Some(true)",
            Some(false) => "Some(false)",
            None => "None",
        },
    );
    text.append(" status=");
    let status = match &s.status {
        Some(status) => debug_str(status.as_str()),
        None => debug_str(""),
    };
    text.append(status.as_str());
    text
}

/// Whether charger events can be read.
pub fn check_sysfs_power(report: &mut Report, supplies: &Option<Vec<SupplyReading>>)
    ensures
        final(report).checks.deep_view() == old(report).checks.deep_view().push(
            power_check(supplies.deep_view()),
        ),
{
    let list = match supplies {
        Some(list) => list,
        None => {
            report.push(
                "sysfs power_supply",
                true,
                false,
                "/sys/class/power_supply is missing; charger events cannot be read".to_string(),
            );
            return ;
        },
    };
    let ghost all = list.deep_view();
    assert(all.len() == list.len());
    if list.len() == 0 {
        report.push(
            "sysfs power_supply",
            true,
            false,
            "directory is there but no supply could be read (sandbox hiding attributes?)".to_string(),
        );
        return ;
    }
    let mut parts: Vec<String> = Vec::new();
    let mut i: usize = 0;
    while i < list.len()
        invariant
            i <= list.len(),
            all == list.deep_view(),
            all.len() == list.len(),
            parts.deep_view() == all.take(i as int).map_values(
                |s: SupplyReadingView| supply_text(s),
            ),
        decreases list.len() - i,
    {
        let ghost before = parts.deep_view();
        let text = show_supply(&list[i]);
        parts.push(text);
        assert(all[i as int] == list@[i as int].deep_view());
        i = i + 1;
        assert(parts.deep_view() =~= before.push(text@));
        assert(parts.deep_view() =~= all.take(i as int).map_values(
            |s: SupplyReadingView| supply_text(s),
        ));
    }
    assert(all.take(i as int) =~= all);
    let slice = list.as_slice();
    assert(slice.deep_view() =~= all);
    let mut detail = classify(slice).label().to_string();
    detail.append(" → ");
    detail.append(to_decimal(list.len() as u128).as_str());
    detail.append("; ");
    detail.append(join(&parts, ", ").as_str());
    report.push("sysfs power_supply", true, true, detail);
}

pub open spec fn udev_check(
    name: Seq<char>,
    source: UdevSource,
    required: bool,
    found: Result<(), Seq<char>>,
) -> CheckView {
    CheckView {
        name,
        required,
        ok: found is Ok,
        detail: match found {
            Ok(_) => source.name_text() + " monitor accepted a socket"@,
            Err(e) => e,
        },
    }
}

/// Whether udev events can be heard.
pub fn check_udev(
    report: &mut Report,
    name: &'static str,
    source: UdevSource,
    required: bool,
    found: &Result<(), String>,
)
    ensures
        final(report).checks.deep_view() == old(report).checks.deep_view().push(
            udev_check(
                name@,
                source,
                required,
                match found {
                    Ok(u) => Ok(*u),
                    Err(e) => Err(e@),
                },
            ),
        ),
{
    match found {
        Ok(_) => {
            let mut detail = source.name().to_string();
            detail.append(" monitor accepted a socket");
            report.push(name, required, true, detail);
        },
        Err(e) => {
            report.push(name, required, false, e.clone());
        },
    }
}

/// A display in words.
pub open spec fn output_text(o: OutputView) -> Seq<char> {
    o.connector + if o.enabled {
        ""@
    } else {
        " (off)"@
    }
}

pub open spec fn outputs_text(outputs: Seq<OutputView>) -> Seq<char> {
    joined(outputs.map_values(|o: OutputView| output_text(o)), ", "@)
}

pub open spec fn backend_check(found: BackendProbe) -> CheckView {
    CheckView {
        name: "display backend"@,
        required: true,
        ok: match found {
            BackendProbe::Listed(_, outputs) => outputs.deep_view().len() > 0,
            _ => false,
        },
        detail: match found {
            BackendProbe::Missing(e) => e@,
            BackendProbe::Unlisted(name, e) => name@ + " connected but listing failed: "@ + e@,
            BackendProbe::Listed(name, outputs) => name@ + ": "@ + outputs_text(
                outputs.deep_view(),
            ),
        },
    }
}

fn show_outputs(outputs: &Vec<Output>) -> (r: String)
    ensures
        r@ == outputs_text(outputs.deep_view()),
{
    let ghost all = outputs.deep_view();
    let mut parts: Vec<String> = Vec::new();
    let mut i: usize = 0;
    while i < outputs.len()
        invariant
            i <= outputs.len(),
            all == outputs.deep_view(),
            all.len() == outputs.len(),
            parts.deep_view() == all.take(i as int).map_values(|o: OutputView| output_text(o)),
        decreases outputs.len() - i,
    {
        let ghost before = parts.deep_view();
        let mut text = outputs[i].connector.clone();
        text.append(
            if outputs[i].enabled {
                ""
            } else {
                " (off)"
            },
        );
        parts.push(text);
        assert(all[i as int] == outputs@[i as int].deep_view());
        i = i + 1;
        assert(parts.deep_view() =~= before.push(text@));
        assert(parts.deep_view() =~= all.take(i as int).map_values(
            |o: OutputView| output_text(o),
        ));
    }
    assert(all.take(i as int) =~= all);
    join(&parts, ", ")
}

/// Whether the displays can be driven.
pub fn check_display_backend(report: &mut Report, found: &BackendProbe)
    ensures
        final(report).checks.deep_view() == old(report).checks.deep_view().push(
            backend_check(*found),
        ),
{
    match found {
        BackendProbe::Missing(e) => {
            report.push("display backend", true, false, e.clone());
        },
        BackendProbe::Unlisted(name, e) => {
            let name: &str = name;
            let mut detail = name.to_string();
            detail.append(" connected but listing failed: ");
            detail.append(e.as_str());
            report.push("display backend", true, false, detail);
        },
        BackendProbe::Listed(name, outputs) => {
            let name: &str = name;
            let mut detail = name.to_string();
            detail.append(": ");
            detail.append(show_outputs(outputs).as_str());
            assert(outputs.deep_view().len() == outputs.len());
            report.push("display backend", true, outputs.len() > 0, detail);
        },
    }
}

pub open spec fn profiles_check(found: Option<ProfilesProbe>) -> CheckView {
    CheckView {
        name: "power profiles"@,
        required: false,
        ok: true,
        detail: match found {
            Some(p) => p.service@ + " active="@ + p.active@ + " available=["@ + joined(
                p.available.deep_view(),
                ", "@,
            ) + "]"@,
            None => "none on the system bus (display switching still works)"@,
        },
    }
}

/// Says which power profiles service there is. None is a supported configuration.
pub fn check_power_profiles(report: &mut Report, found: &Option<ProfilesProbe>)
    ensures
        final(report).checks.deep_view() == old(report).checks.deep_view().push(
            profiles_check(*found),
        ),
{
    let detail = match found {
        Some(p) => {
            let mut detail = p.service.to_string();
            detail.append(" active=");
            detail.append(p.active.as_str());
            detail.append(" available=[");
            detail.append(join(&p.available, ", ").as_str());
            detail.append("]");
            detail
        },
        None => "none on the system bus (display switching still works)".to_string(),
    };
    report.push("power profiles", false, true, detail);
}

pub open spec fn run_udev_check(ok: bool) -> CheckView {
    CheckView {
        name: "/run/udev"@,
        required: false,
        ok,
        detail: if ok {
            "present; userspace udev can look up devices"@
        } else {
            "missing; kernel uevents plus sysfs polling have to cover charger detection"@
        },
    }
}

/// Whether the udev database is there.
pub fn check_run_udev(report: &mut Report, ok: bool)
    ensures
        final(report).checks.deep_view() == old(report).checks.deep_view().push(run_udev_check(ok)),
{
    let detail = if ok {
        "present; userspace udev can look up devices".to_string()
    } else {
        "missing; kernel uevents plus sysfs polling have to cover charger detection".to_string()
    };
    report.push("/run/udev", false, ok, detail);
}

/// All the checks, in order.
pub open spec fn checks_of(p: Probes) -> Seq<CheckView> {
    seq![
        sandbox_check(p.sandboxed),
        config_check(
            p.sandboxed,
            match p.config_path {
                Ok(path) => Ok(path@),
                Err(e) => Err(e@),
            },
        ),
        power_check(p.supplies.deep_view()),
        udev_check(
            "udev userspace"@,
            UdevSource::Userspace,
            false,
            match p.udev {
                Ok(u) => Ok(u),
                Err(e) => Err(e@),
            },
        ),
        udev_check(
            "udev kernel uevents"@,
            UdevSource::Kernel,
            false,
            match p.uevents {
                Ok(u) => Ok(u),
                Err(e) => Err(e@),
            },
        ),
        backend_check(p.backend),
        profiles_check(p.profiles),
        run_udev_check(p.run_udev),
    ]
}

/// Judges everything that the probes of the environment found.
pub fn probe(probes: &Probes) -> (r: Report)
    ensures
        r.checks.deep_view() == checks_of(*probes),
{
    let mut report = Report::default();
    check_sandbox_marker(&mut report, probes.sandboxed);
    check_config_location(&mut report, probes.sandboxed, &probes.config_path);
    check_sysfs_power(&mut report, &probes.supplies);
    check_udev(&mut report, "udev userspace", UdevSource::Userspace, false, &probes.udev);
    check_udev(&mut report, "udev kernel uevents", UdevSource::Kernel, false, &probes.uevents);
    check_display_backend(&mut report, &probes.backend);
    check_power_profiles(&mut report, &probes.profiles);
    check_run_udev(&mut report, probes.run_udev);
    assert(report.checks.deep_view() =~= checks_of(*probes));
    report
}

/// The self-test fails for want of a place for the settings, of readable supplies or of a
/// display backend, and for nothing else.
pub proof fn law_what_the_self_test_requires(p: Probes)
    ensures
        all_pass(checks_of(p)) <==> {
            &&& p.config_path is Ok
            &&& p.sandboxed ==> is_overlay(p.config_path->Ok_0@)
            &&& p.supplies is Some && p.supplies->Some_0.deep_view().len() > 0
            &&& p.backend matches BackendProbe::Listed(_, outputs) && outputs.deep_view().len() > 0
        },
{
    let checks = checks_of(p);
    assert(checks[0] == sandbox_check(p.sandboxed));
    assert(is_failure(checks[1]) || !is_failure(checks[1]));
    assert(is_failure(checks[2]) || !is_failure(checks[2]));
    assert(is_failure(checks[5]) || !is_failure(checks[5]));
}

pub open spec fn mark_of(c: CheckView) -> Seq<char> {
    if c.ok {
        "[  ok] "@
    } else if c.required {
        "[FAIL] "@
    } else {
        "[warn] "@
    }
}

pub open spec fn check_line(c: CheckView) -> Seq<char> {
    mark_of(c) + c.name + ": "@ + c.detail + "\n"@
}

/// One line for each check.
pub open spec fn check_lines(checks: Seq<CheckView>) -> Seq<char>
    decreases checks.len(),
{
    if checks.len() == 0 {
        Seq::empty()
    } else {
        check_lines(checks.drop_last()) + check_line(checks.last())
    }
}

/// Text report used by `powerdisplayd --self-test`.
pub fn format_report(report: &Report) -> (r: String)
    ensures
        r@ == check_lines(report.checks.deep_view()) + if all_pass(report.checks.deep_view()) {
            "self-test passed\n"@
        } else {
            "self-test failed\n"@
        },
{
    let ghost all = report.checks.deep_view();
    let mut out = String::new();
    let mut i: usize = 0;
    assert(out@ =~= Seq::<char>::empty());
    while i < report.checks.len()
        invariant
            i <= report.checks.len(),
            all == report.checks.deep_view(),
            all.len() == report.checks.len(),
            out@ == check_lines(all.take(i as int)),
        decreases report.checks.len() - i,
    {
        let c = &report.checks[i];
        let ghost before = out@;
        proof {
            assert(all.take(i + 1).drop_last() =~= all.take(i as int));
            assert(all.take(i + 1).last() == c.deep_view());
        }
        out.append(
            if c.ok {
                "[  ok] "
            } else if c.required {
                "[FAIL] "
            } else {
                "[warn] "
            },
        );
        out.append(c.name);
        out.append(": ");
        out.append(c.detail.as_str());
        out.append("\n");
        i = i + 1;
        assert(out@ =~= before + check_line(c.deep_view()));
    }
    assert(all.take(i as int) =~= all);
    if report.passed() {
        out.append("self-test passed\n");
    } else {
        out.append("self-test failed\n");
    }
    out
}

/// Permissions the Flatpak manifest must grant for autoswitch.
pub fn required_flatpak_finish_args() -> (r: Vec<&'static str>)
    ensures
        r.deep_view() == required_args(),
{
    let mut args: Vec<&'static str> = Vec::new();
    args.push("--share=network");
    args.push("--filesystem=/run/udev:ro");
    args.push("--filesystem=xdg-config/autostart:create");
    args.push("--talk-name=org.gnome.Mutter.DisplayConfig");
    args.push("--system-talk-name=org.freedesktop.UPower.PowerProfiles");
    args.push("--system-talk-name=net.hadess.PowerProfiles");
    args.push("--system-talk-name=org.freedesktop.login1");
    args.push("--socket=wayland");
    assert(args.deep_view() =~= required_args());
    args
}

pub open spec fn required_args() -> Seq<Seq<char>> {
    seq![
        "--share=network"@,
        "--filesystem=/run/udev:ro"@,
        "--filesystem=xdg-config/autostart:create"@,
        "--talk-name=org.gnome.Mutter.DisplayConfig"@,
        "--system-talk-name=org.freedesktop.UPower.PowerProfiles"@,
        "--system-talk-name=net.hadess.PowerProfiles"@,
        "--system-talk-name=org.freedesktop.login1"@,
        "--socket=wayland"@,
    ]
}

/// Those of the arguments that a text does not hold.
pub open spec fn absent(args: Seq<Seq<char>>, text: Seq<char>) -> Seq<Seq<char>>
    decreases args.len(),
{
    if args.len() == 0 {
        Seq::empty()
    } else {
        let before = absent(args.drop_last(), text);
        if holds(text, args.last()) {
            before
        } else {
            before.push(args.last())
        }
    }
}

/// The required permissions that a Flatpak manifest does not grant.
pub fn missing_finish_args(manifest: &str) -> (r: Vec<&'static str>)
    ensures
        r.deep_view() == absent(required_args(), manifest@),
{
    let args = required_flatpak_finish_args();
    let ghost all = required_args();
    let mut out: Vec<&'static str> = Vec::new();
    let mut i: usize = 0;
    assert(out.deep_view() =~= Seq::<Seq<char>>::empty());
    while i < args.len()
        invariant
            i <= args.len(),
            all == args.deep_view(),
            all.len() == args.len(),
            out.deep_view() == absent(all.take(i as int), manifest@),
        decreases args.len() - i,
    {
        let ghost before = out.deep_view();
        let arg = args[i];
        proof {
            assert(all.take(i + 1).drop_last() =~= all.take(i as int));
            assert(all.take(i + 1).last() == all[i as int]);
            assert(all[i as int] == arg@);
        }
        if !contains(manifest, arg) {
            out.push(arg);
            assert(out.deep_view() =~= before.push(arg@));
        }
        i = i + 1;
    }
    assert(all.take(i as int) =~= all);
    out
}

/// A line of the list, where it is called for.
pub open spec fn line_if(wanted: bool, line: Seq<char>) -> Seq<Seq<char>> {
    if wanted {
        seq![line]
    } else {
        Seq::empty()
    }
}

/// What `flatpak info --show-permissions` does not show of what autoswitch needs.
pub open spec fn missing_from(text: Seq<char>) -> Seq<Seq<char>> {
    line_if(
        !holds(text, "shared="@) || !holds(text, "network"@),
        "share=network (udev netlink lives in the host network namespace)"@,
    ) + line_if(!holds(text, "/run/udev"@), "filesystem=/run/udev:ro"@) + line_if(
        !holds(text, "xdg-config/autostart"@),
        "filesystem=xdg-config/autostart"@,
    ) + line_if(
        !holds(text, "org.gnome.Mutter.DisplayConfig"@),
        "talk-name=org.gnome.Mutter.DisplayConfig"@,
    ) + line_if(
        !holds(text, "org.freedesktop.UPower.PowerProfiles"@) && !holds(
            text,
            "net.hadess.PowerProfiles"@,
        ),
        "system-talk-name for power-profiles-daemon"@,
    )
}

fn push_if(list: &mut Vec<&'static str>, wanted: bool, line: &'static str)
    ensures
        final(list).deep_view() == old(list).deep_view() + line_if(wanted, line@),
{
    let ghost before = list.deep_view();
    if wanted {
        list.push(line);
    }
    assert(list.deep_view() =~= before + line_if(wanted, line@));
}

/// Whether `flatpak info --show-permissions` output still has the bits autoswitch needs.
pub fn missing_installed_permissions(text: &str) -> (r: Vec<&'static str>)
    ensures
        r.deep_view() == missing_from(text@),
{
    let mut missing: Vec<&'static str> = Vec::new();
    assert(missing.deep_view() =~= Seq::<Seq<char>>::empty());
    push_if(
        &mut missing,
        !contains(text, "shared=") || !contains(text, "network"),
        "share=network (udev netlink lives in the host network namespace)",
    );
    push_if(&mut missing, !contains(text, "/run/udev"), "filesystem=/run/udev:ro");
    push_if(
        &mut missing,
        !contains(text, "xdg-config/autostart"),
        "filesystem=xdg-config/autostart",
    );
    push_if(
        &mut missing,
        !contains(text, "org.gnome.Mutter.DisplayConfig"),
        "talk-name=org.gnome.Mutter.DisplayConfig",
    );
    push_if(
        &mut missing,
        !contains(text, "org.freedesktop.UPower.PowerProfiles") && !contains(
            text,
            "net.hadess.PowerProfiles",
        ),
        "system-talk-name for power-profiles-daemon",
    );
    assert(missing.deep_view() =~= missing_from(text@));
    missing
}

/// The self-test says of each thing it looks at whether it is there, and which are needed. The
/// order is fixed.
pub proof fn law_what_the_self_test_looks_at(p: Probes)
    ensures
        ({
            let c = checks_of(p);
            &&& c.len() == 8
            &&& c[0].name == "sandbox"@ && !c[0].required && c[0].ok
            &&& c[1].name == "config path"@
            &&& c[1].ok <==> p.config_path is Ok && (p.sandboxed ==> is_overlay(
                p.config_path->Ok_0@,
            ))
            &&& c[1].required <==> p.sandboxed || p.config_path is Err
            &&& p.config_path matches Err(e) ==> c[1].detail == e@
            &&& c[1].ok && p.config_path is Ok ==> c[1].detail == p.config_path->Ok_0@
            &&& c[2].name == "sysfs power_supply"@ && c[2].required
            &&& c[2].ok <==> p.supplies is Some && p.supplies->Some_0.deep_view().len() > 0
            &&& c[3].name == "udev userspace"@ && !c[3].required && (c[3].ok <==> p.udev is Ok)
            &&& c[4].name == "udev kernel uevents"@ && !c[4].required && (c[4].ok
                <==> p.uevents is Ok)
            &&& c[5].name == "display backend"@ && c[5].required
            &&& c[6].name == "power profiles"@ && !c[6].required && c[6].ok
            &&& c[7].name == "/run/udev"@ && !c[7].required && (c[7].ok <==> p.run_udev)
            &&& p.backend matches BackendProbe::Missing(e) ==> !c[5].ok && c[5].detail == e@
            &&& p.backend is Unlisted ==> !c[5].ok
            &&& p.backend matches BackendProbe::Listed(name, outputs) ==> (c[5].ok
                <==> outputs.deep_view().len() > 0)
            &&& p.udev matches Err(e) ==> c[3].detail == e@
            &&& p.uevents matches Err(e) ==> c[4].detail == e@
        }),
{
}

/// Each check has a line of its own, in order, with its name and what was found behind the
/// mark: whether it passed, failed the whole or is only worth a warning.
pub proof fn law_a_report_is_written_line_by_line(
    a: Seq<CheckView>,
    b: Seq<CheckView>,
    c: CheckView,
)
    ensures
        check_lines(a + b) == check_lines(a) + check_lines(b),
        check_lines(Seq::empty()).len() == 0,
        c.ok ==> check_lines(seq![c]) == "[  ok] "@ + c.name + ": "@ + c.detail + "\n"@,
        !c.ok && c.required ==> check_lines(seq![c]) == "[FAIL] "@ + c.name + ": "@ + c.detail
            + "\n"@,
        !c.ok && !c.required ==> check_lines(seq![c]) == "[warn] "@ + c.name + ": "@ + c.detail
            + "\n"@,
    decreases b.len(),
{
    assert(seq![c].drop_last() =~= Seq::<CheckView>::empty());
    assert(check_lines(seq![c].drop_last()) =~= Seq::<char>::empty());
    assert(check_lines(seq![c]) =~= check_line(c));
    if b.len() == 0 {
        assert(a + b =~= a);
        assert(check_lines(a) + check_lines(b) =~= check_lines(a));
    } else {
        law_a_report_is_written_line_by_line(a, b.drop_last(), c);
        assert((a + b).drop_last() =~= a + b.drop_last());
        assert((a + b).last() == b.last());
        assert(check_lines(a + b) =~= check_lines(a) + check_lines(b));
    }
}

/// The failures of a report are its required checks that did not pass, in order.
pub proof fn law_failures_are_required_checks(a: Seq<CheckView>, b: Seq<CheckView>, c: CheckView)
    ensures
        failures(a + b) == failures(a) + failures(b),
        failures(Seq::empty()).len() == 0,
        c.required && !c.ok ==> failures(seq![c]) == seq![c],
        !c.required || c.ok ==> failures(seq![c]).len() == 0,
    decreases b.len(),
{
    assert(seq![c].drop_last() =~= Seq::<CheckView>::empty());
    assert(failures(seq![c].drop_last()) =~= Seq::<CheckView>::empty());
    if c.required && !c.ok {
        assert(failures(seq![c]) =~= seq![c]);
    }
    if b.len() == 0 {
        assert(a + b =~= a);
        assert(failures(a) + failures(b) =~= failures(a));
    } else {
        law_failures_are_required_checks(a, b.drop_last(), c);
        assert((a + b).drop_last() =~= a + b.drop_last());
        assert((a + b).last() == b.last());
        assert(failures(a + b) =~= failures(a) + failures(b));
    }
}

/// A permission is missing exactly where the manifest does not name it.
pub proof fn law_a_permission_is_missing_where_it_is_not_named(
    args: Seq<Seq<char>>,
    text: Seq<char>,
    arg: Seq<char>,
)
    ensures
        absent(args, text).contains(arg) <==> args.contains(arg) && !holds(text, arg),
        absent(args, text).len() <= args.len(),
    decreases args.len(),
{
    if args.len() > 0 {
        let front = args.drop_last();
        let before = absent(front, text);
        let now = absent(args, text);
        law_a_permission_is_missing_where_it_is_not_named(front, text, arg);
        if args.contains(arg) {
            let k = choose|k: int| 0 <= k < args.len() && args[k] == arg;
            if k < front.len() {
                assert(front[k] == arg);
            }
        }
        if front.contains(arg) {
            let k = choose|k: int| 0 <= k < front.len() && front[k] == arg;
            assert(args[k] == arg);
        }
        if before.contains(arg) {
            let k = choose|k: int| 0 <= k < before.len() && before[k] == arg;
            assert(now[k] == arg);
        }
        if now.contains(arg) {
            let k = choose|k: int| 0 <= k < now.len() && now[k] == arg;
            if k < before.len() {
                assert(before[k] == arg);
            }
        }
        if args.last() == arg {
            assert(args[args.len() - 1] == arg);
            if !holds(text, arg) {
                assert(now[before.len() as int] == arg);
            }
        }
    }
}

/// What an installed app still needs is nothing exactly where its permissions name the network,
/// udev, autostart, Mutter, and one of the two services for power profiles.
pub proof fn law_when_an_installed_app_lacks_nothing(text: Seq<char>)
    ensures
        missing_from(text).len() == 0 <==> {
            &&& holds(text, "shared="@) && holds(text, "network"@)
            &&& holds(text, "/run/udev"@)
            &&& holds(text, "xdg-config/autostart"@)
            &&& holds(text, "org.gnome.Mutter.DisplayConfig"@)
            &&& holds(text, "org.freedesktop.UPower.PowerProfiles"@) || holds(
                text,
                "net.hadess.PowerProfiles"@,
            )
        },
        missing_from(text).contains("filesystem=/run/udev:ro"@) || holds(text, "/run/udev"@),
        missing_from(text).contains("filesystem=xdg-config/autostart"@) || holds(
            text,
            "xdg-config/autostart"@,
        ),
        missing_from(text).contains("talk-name=org.gnome.Mutter.DisplayConfig"@) || holds(
            text,
            "org.gnome.Mutter.DisplayConfig"@,
        ),
        missing_from(text).contains("system-talk-name for power-profiles-daemon"@) || holds(
            text,
            "org.freedesktop.UPower.PowerProfiles"@,
        ) || holds(text, "net.hadess.PowerProfiles"@),
        missing_from(text).contains(
            "share=network (udev netlink lives in the host network namespace)"@,
        ) || holds(text, "shared="@) && holds(text, "network"@),
{
    let a = line_if(
        !holds(text, "shared="@) || !holds(text, "network"@),
        "share=network (udev netlink lives in the host network namespace)"@,
    );
    let b = line_if(!holds(text, "/run/udev"@), "filesystem=/run/udev:ro"@);
    let c = line_if(!holds(text, "xdg-config/autostart"@), "filesystem=xdg-config/autostart"@);
    let d = line_if(
        !holds(text, "org.gnome.Mutter.DisplayConfig"@),
        "talk-name=org.gnome.Mutter.DisplayConfig"@,
    );
    let e = line_if(
        !holds(text, "org.freedesktop.UPower.PowerProfiles"@) && !holds(
            text,
            "net.hadess.PowerProfiles"@,
        ),
        "system-talk-name for power-profiles-daemon"@,
    );
    let all = missing_from(text);
    assert(all == a + b + c + d + e);
    if a.len() > 0 {
        assert(all[0] == a[0]);
    }
    if b.len() > 0 {
        assert(all[a.len() as int] == b[0]);
    }
    if c.len() > 0 {
        assert(all[(a.len() + b.len()) as int] == c[0]);
    }
    if d.len() > 0 {
        assert(all[(a.len() + b.len() + c.len()) as int] == d[0]);
    }
    if e.len() > 0 {
        assert(all[(a.len() + b.len() + c.len() + d.len()) as int] == e[0]);
    }
}


} // verus!
