//! The settings: one profile for each power state, and the rules that say which display a
//! profile means.

use vstd::prelude::*;

use crate::paths::{ascii, base_dir, base_directory, join_path, joined_path, PathError};
use crate::text::{lowered, same_ignoring_case, trim, trimmed};

verus! {

pub const APP_ID: &'static str = "powerdisplay";

pub const CONFIG_VERSION: u32 = 1;

/// How long a burst of changes to the file is left to settle, in nanoseconds.
pub const CONFIG_DEBOUNCE: u64 = 300_000_000;

/// Whether the machine is currently running off the battery or the wall.
#[derive(Clone, Copy, Debug, PartialEq, Eq, Structural)]
pub enum PowerState {
    Battery,
    Ac,
}

impl PowerState {
    /// The name of the state in the user interface.
    pub fn label(self) -> (r: &'static str)
        ensures
            r@ == self.label_text(),
    {
        match self {
            PowerState::Battery => "On battery",
            PowerState::Ac => "Plugged in",
        }
    }

    pub open spec fn label_text(self) -> Seq<char> {
        match self {
            PowerState::Battery => "On battery"@,
            PowerState::Ac => "Plugged in"@,
        }
    }
}

/// Identifies a physical display. `make`, `model` and `serial` survive replugging into a
/// different port; `connector` is the fallback for panels that report no EDID strings.
#[derive(Debug, PartialEq, Eq)]
pub struct OutputMatch {
    pub connector: Option<String>,
    pub make: Option<String>,
    pub model: Option<String>,
    pub serial: Option<String>,
}

pub struct OutputMatchView {
    pub connector: Option<Seq<char>>,
    pub make: Option<Seq<char>>,
    pub model: Option<Seq<char>>,
    pub serial: Option<Seq<char>>,
}

impl DeepView for OutputMatch {
    type V = OutputMatchView;

    open spec fn deep_view(&self) -> OutputMatchView {
        OutputMatchView {
            connector: self.connector.deep_view(),
            make: self.make.deep_view(),
            model: self.model.deep_view(),
            serial: self.serial.deep_view(),
        }
    }
}

/// What one display says of itself.
pub struct Identity {
    pub connector: Seq<char>,
    pub make: Seq<char>,
    pub model: Seq<char>,
    pub serial: Seq<char>,
}

/// Whether a field that a rule names agrees with the display. A field that is absent or
/// blank is not compared at all.
pub open spec fn field_agrees(expected: Option<Seq<char>>, actual: Seq<char>) -> Option<bool> {
    match expected {
        Some(e) => if trimmed(e).len() == 0 {
            None
        } else {
            Some(lowered(trimmed(e)) == lowered(trimmed(actual)))
        },
        None => None,
    }
}

/// What one compared field adds.
pub open spec fn weight(compared: Option<bool>, w: int) -> int {
    if compared == Some(true) {
        w
    } else {
        0
    }
}

impl OutputMatchView {
    /// Whether an EDID field is compared with a display.
    pub open spec fn compares_edid(self, d: Identity) -> bool {
        ||| field_agrees(self.serial, d.serial) is Some
        ||| field_agrees(self.model, d.model) is Some
        ||| field_agrees(self.make, d.make) is Some
    }

    /// Whether an EDID field that is compared disagrees with a display.
    pub open spec fn denies_edid(self, d: Identity) -> bool {
        ||| field_agrees(self.serial, d.serial) == Some(false)
        ||| field_agrees(self.model, d.model) == Some(false)
        ||| field_agrees(self.make, d.make) == Some(false)
    }

    /// No EDID field that is compared disagrees. The connector decides only where no EDID
    /// field is compared: a monitor may sit on another port than it used to.
    pub open spec fn describes(self, d: Identity) -> bool {
        &&& !self.denies_edid(d)
        &&& self.compares_edid(d) || field_agrees(self.connector, d.connector) == Some(true)
    }

    /// The weights of the fields that agree: the EDID fields count for more than the
    /// connector, and the serial for more than all the others.
    pub open spec fn rank(self, d: Identity) -> int {
        weight(field_agrees(self.serial, d.serial), 8) + weight(
            field_agrees(self.model, d.model),
            4,
        ) + weight(field_agrees(self.make, d.make), 2) + weight(
            field_agrees(self.connector, d.connector),
            1,
        )
    }

    /// The rank, for a display that is described.
    pub open spec fn score(self, d: Identity) -> Option<u32> {
        if self.describes(d) {
            Some(self.rank(d) as u32)
        } else {
            None
        }
    }
}

impl Default for OutputMatch {
    fn default() -> (r: Self)
        ensures
            r.deep_view() == (OutputMatchView {
                connector: None,
                make: None,
                model: None,
                serial: None,
            }),
    {
        OutputMatch { connector: None, make: None, model: None, serial: None }
    }
}

impl Clone for OutputMatch {
    fn clone(&self) -> (r: Self)
        ensures
            r == *self,
    {
        OutputMatch {
            connector: copy_text(&self.connector),
            make: copy_text(&self.make),
            model: copy_text(&self.model),
            serial: copy_text(&self.serial),
        }
    }
}

/// A copy of an optional string.
pub fn copy_text(s: &Option<String>) -> (r: Option<String>)
    ensures
        r == *s,
{
    match s {
        Some(text) => Some(text.clone()),
        None => None,
    }
}

impl OutputMatch {
    fn field_matches(expected: &Option<String>, actual: &str) -> (r: Option<bool>)
        ensures
            r == field_agrees(expected.deep_view(), actual@),
    {
        match expected {
            Some(e) => {
                let e = trim(e.as_str());
                if e.as_str().is_empty() {
                    return None;
                }
                let a = trim(actual);
                Some(same_ignoring_case(e.as_str(), a.as_str()))
            },
            None => None,
        }
    }

    /// Higher is a better match; `None` means this rule does not describe the output at all.
    ///
    /// EDID fields are weighted far above the connector so that a monitor moved from
    /// `DP-1` to `HDMI-A-1` still wins over an unrelated panel that happens to sit on `DP-1`.
    /// Another connector than the rule names adds nothing then; it only rejects the output
    /// where the rule has no EDID field to go by.
    pub fn score(&self, connector: &str, make: &str, model: &str, serial: &str) -> (r: Option<u32>)
        ensures
            r == self.deep_view().score(
                Identity { connector: connector@, make: make@, model: model@, serial: serial@ },
            ),
    {
        let by_serial = Self::field_matches(&self.serial, serial);
        let by_model = Self::field_matches(&self.model, model);
        let by_make = Self::field_matches(&self.make, make);
        let by_connector = Self::field_matches(&self.connector, connector);
        let mut score: u32 = 0;
        let mut compared: u32 = 0;
        match by_serial {
            Some(true) => {
                score = score + 8;
                compared = compared + 1;
            },
            Some(false) => {
                return None;
            },
            None => {},
        }
        match by_model {
            Some(true) => {
                score = score + 4;
                compared = compared + 1;
            },
            Some(false) => {
                return None;
            },
            None => {},
        }
        match by_make {
            Some(true) => {
                score = score + 2;
                compared = compared + 1;
            },
            Some(false) => {
                return None;
            },
            None => {},
        }
        match by_connector {
            Some(true) => {
                score = score + 1;
                compared = compared + 1;
            },
            Some(false) | None => {},
        }
        if compared > 0 {
            Some(score)
        } else {
            None
        }
    }
}

/// Which mode a display should be in.
#[derive(Debug, PartialEq)]
pub struct OutputRule {
    pub matcher: OutputMatch,
    /// Mode id in `WIDTHxHEIGHT@REFRESH` form. `None` leaves the output alone.
    pub mode: Option<String>,
}

pub struct OutputRuleView {
    pub matcher: OutputMatchView,
    pub mode: Option<Seq<char>>,
}

impl DeepView for OutputRule {
    type V = OutputRuleView;

    open spec fn deep_view(&self) -> OutputRuleView {
        OutputRuleView { matcher: self.matcher.deep_view(), mode: self.mode.deep_view() }
    }
}

impl Default for OutputRule {
    fn default() -> (r: Self)
        ensures
            r.matcher.deep_view() == (OutputMatchView {
                connector: None,
                make: None,
                model: None,
                serial: None,
            }),
            r.mode is None,
    {
        OutputRule { matcher: OutputMatch::default(), mode: None }
    }
}

impl Clone for OutputRule {
    fn clone(&self) -> (r: Self)
        ensures
            r == *self,
    {
        OutputRule { matcher: self.matcher.clone(), mode: copy_text(&self.mode) }
    }
}

/// What to do in one power state.
#[derive(Debug, PartialEq)]
pub struct Profile {
    /// Name of a power profile, such as "power-saver". `None` leaves it alone.
    pub power_profile: Option<String>,
    /// Ask the desktop to remember this layout instead of applying it temporarily.
    pub persist_display_config: bool,
    pub outputs: Vec<OutputRule>,
}

pub struct ProfileView {
    pub power_profile: Option<Seq<char>>,
    pub persist_display_config: bool,
    pub outputs: Seq<OutputRuleView>,
}

impl DeepView for Profile {
    type V = ProfileView;

    open spec fn deep_view(&self) -> ProfileView {
        ProfileView {
            power_profile: self.power_profile.deep_view(),
            persist_display_config: self.persist_display_config,
            outputs: self.outputs.deep_view(),
        }
    }
}

/// A profile that leaves everything alone.
pub open spec fn empty_profile() -> ProfileView {
    ProfileView { power_profile: None, persist_display_config: false, outputs: Seq::empty() }
}

impl Default for Profile {
    fn default() -> (r: Self)
        ensures
            r.deep_view() == empty_profile(),
    {
        let r = Profile { power_profile: None, persist_display_config: false, outputs: Vec::new() };
        assert(r.deep_view().outputs =~= Seq::empty());
        r
    }
}

/// A copy of a list of rules.
pub fn copy_rules(rules: &Vec<OutputRule>) -> (r: Vec<OutputRule>)
    ensures
        r@ == rules@,
{
    let mut out: Vec<OutputRule> = Vec::new();
    let mut i: usize = 0;
    while i < rules.len()
        invariant
            i <= rules.len(),
            out@ == rules@.take(i as int),
        decreases rules.len() - i,
    {
        out.push(rules[i].clone());
        i = i + 1;
    }
    assert(out@ =~= rules@);
    out
}

impl Clone for Profile {
    fn clone(&self) -> (r: Self)
        ensures
            r.deep_view() == self.deep_view(),
    {
        let r = Profile {
            power_profile: copy_text(&self.power_profile),
            persist_display_config: self.persist_display_config,
            outputs: copy_rules(&self.outputs),
        };
        assert(r.deep_view().outputs =~= self.deep_view().outputs);
        r
    }
}

/// Everything that the user can set.
#[derive(Debug, PartialEq)]
pub struct Config {
    pub version: u32,
    /// Master switch. When false the daemon observes but never acts.
    pub enabled: bool,
    /// Apply the matching profile once at daemon start-up.
    pub apply_on_start: bool,
    pub on_battery: Profile,
    pub on_ac: Profile,
}

pub struct ConfigView {
    pub version: u32,
    pub enabled: bool,
    pub apply_on_start: bool,
    pub on_battery: ProfileView,
    pub on_ac: ProfileView,
}

impl DeepView for Config {
    type V = ConfigView;

    open spec fn deep_view(&self) -> ConfigView {
        ConfigView {
            version: self.version,
            enabled: self.enabled,
            apply_on_start: self.apply_on_start,
            on_battery: self.on_battery.deep_view(),
            on_ac: self.on_ac.deep_view(),
        }
    }
}

impl ConfigView {
    pub open spec fn profile(self, state: PowerState) -> ProfileView {
        match state {
            PowerState::Battery => self.on_battery,
            PowerState::Ac => self.on_ac,
        }
    }
}

/// The settings of a user who has never saved any.
pub open spec fn default_config() -> ConfigView {
    ConfigView {
        version: CONFIG_VERSION,
        enabled: true,
        apply_on_start: true,
        on_battery: empty_profile(),
        on_ac: empty_profile(),
    }
}

impl Default for Config {
    fn default() -> (r: Self)
        ensures
            r.deep_view() == default_config(),
    {
        Config {
            version: CONFIG_VERSION,
            enabled: true,
            apply_on_start: true,
            on_battery: Profile::default(),
            on_ac: Profile::default(),
        }
    }
}

impl Clone for Config {
    fn clone(&self) -> (r: Self)
        ensures
            r.deep_view() == self.deep_view(),
    {
        Config {
            version: self.version,
            enabled: self.enabled,
            apply_on_start: self.apply_on_start,
            on_battery: self.on_battery.clone(),
            on_ac: self.on_ac.clone(),
        }
    }
}

fn same_text(a: &Option<String>, b: &Option<String>) -> (r: bool)
    ensures
        r == (a.deep_view() == b.deep_view()),
{
    match (a, b) {
        (Some(x), Some(y)) => *x == *y,
        (None, None) => true,
        _ => false,
    }
}

fn same_rule(a: &OutputRule, b: &OutputRule) -> (r: bool)
    ensures
        r == (a.deep_view() == b.deep_view()),
{
    same_text(&a.matcher.connector, &b.matcher.connector) && same_text(
        &a.matcher.make,
        &b.matcher.make,
    ) && same_text(&a.matcher.model, &b.matcher.model) && same_text(
        &a.matcher.serial,
        &b.matcher.serial,
    ) && same_text(&a.mode, &b.mode)
}

fn same_profile(a: &Profile, b: &Profile) -> (r: bool)
    ensures
        r == (a.deep_view() == b.deep_view()),
{
    assert(a.deep_view().outputs.len() == a.outputs.len());
    assert(b.deep_view().outputs.len() == b.outputs.len());
    if !same_text(&a.power_profile, &b.power_profile) || a.persist_display_config
        != b.persist_display_config || a.outputs.len() != b.outputs.len() {
        return false;
    }
    let mut i: usize = 0;
    while i < a.outputs.len()
        invariant
            i <= a.outputs.len(),
            a.outputs.len() == b.outputs.len(),
            forall|j: int|
                0 <= j < i ==> #[trigger] a.outputs@[j].deep_view() == b.outputs@[j].deep_view(),
        decreases a.outputs.len() - i,
    {
        if !same_rule(&a.outputs[i], &b.outputs[i]) {
            assert(a.deep_view().outputs[i as int] != b.deep_view().outputs[i as int]);
            return false;
        }
        i = i + 1;
    }
    assert(a.deep_view().outputs =~= b.deep_view().outputs);
    true
}

impl Config {
    /// Whether two configurations say the same.
    pub fn same_as(&self, other: &Config) -> (r: bool)
        ensures
            r == (self.deep_view() == other.deep_view()),
    {
        self.version == other.version && self.enabled == other.enabled && self.apply_on_start
            == other.apply_on_start && same_profile(&self.on_battery, &other.on_battery)
            && same_profile(&self.on_ac, &other.on_ac)
    }

    /// The settings, which are the defaults where the file does not exist yet. `path` is how
    /// the file is called in front of the user.
    pub fn load_from(file: ConfigFile, path: &str) -> (r: Result<Config, String>)
        ensures
            match (r, file) {
                (Ok(got), ConfigFile::Read(config)) => got == config,
                (Ok(got), ConfigFile::Missing) => got.deep_view() == default_config(),
                (Err(e), ConfigFile::Malformed(why)) => e@ == "parsing "@ + path@ + ": "@ + why@,
                (Err(e), ConfigFile::Unreadable(why)) => e@ == "reading "@ + path@ + ": "@ + why@,
                _ => false,
            },
    {
        match file {
            ConfigFile::Read(config) => Ok(config),
            ConfigFile::Missing => Ok(Config::default()),
            ConfigFile::Malformed(why) => {
                let mut text = "parsing ".to_string();
                text.append(path);
                text.append(": ");
                text.append(why.as_str());
                Err(text)
            },
            ConfigFile::Unreadable(why) => {
                let mut text = "reading ".to_string();
                text.append(path);
                text.append(": ");
                text.append(why.as_str());
                Err(text)
            },
        }
    }

    /// The profile for a power state.
    pub fn profile(&self, state: PowerState) -> (r: &Profile)
        ensures
            r.deep_view() == self.deep_view().profile(state),
    {
        match state {
            PowerState::Battery => &self.on_battery,
            PowerState::Ac => &self.on_ac,
        }
    }

    /// The profile for a power state, to be changed in place. Nothing else changes.
    pub fn profile_mut(&mut self, state: PowerState) -> (r: &mut Profile)
        ensures
            *r == (match state {
                PowerState::Battery => old(self).on_battery,
                PowerState::Ac => old(self).on_ac,
            }),
            *final(self) == (match state {
                PowerState::Battery => Config { on_battery: *final(r), ..*old(self) },
                PowerState::Ac => Config { on_ac: *final(r), ..*old(self) },
            }),
    {
        match state {
            PowerState::Battery => &mut self.on_battery,
            PowerState::Ac => &mut self.on_ac,
        }
    }
}

/// The directory that holds the settings, below `XDG_CONFIG_HOME` where that is set and not
/// empty.
pub open spec fn config_directory(
    xdg_config_home: Option<Seq<u8>>,
    home: Option<Seq<u8>>,
) -> Option<Seq<u8>> {
    match base_directory(xdg_config_home, home, ascii(".config"@)) {
        Some(base) => Some(joined_path(base, ascii(APP_ID@))),
        None => None,
    }
}

/// Where the settings live, from the two variables of the environment that decide it.
pub fn config_dir(xdg_config_home: &Option<Vec<u8>>, home: &Option<Vec<u8>>) -> (r: Result<
    Vec<u8>,
    PathError,
>)
    ensures
        match (r, config_directory(xdg_config_home.deep_view(), home.deep_view())) {
            (Ok(got), Some(want)) => got@ == want,
            (Err(e), None) => e == PathError::NoConfigHome,
            _ => false,
        },
{
    match base_dir(xdg_config_home, home, ".config") {
        Some(base) => {
            assert(base.deep_view() =~= base@);
            Ok(join_path(&base, APP_ID))
        },
        None => Err(PathError::NoConfigHome),
    }
}

/// The file that holds the settings.
pub fn config_path(xdg_config_home: &Option<Vec<u8>>, home: &Option<Vec<u8>>) -> (r: Result<
    Vec<u8>,
    PathError,
>)
    ensures
        match (r, config_directory(xdg_config_home.deep_view(), home.deep_view())) {
            (Ok(got), Some(dir)) => got@ == joined_path(dir, ascii("config.toml"@)),
            (Err(e), None) => e == PathError::NoConfigHome,
            _ => false,
        },
{
    match config_dir(xdg_config_home, home) {
        Ok(dir) => Ok(join_path(&dir, "config.toml")),
        Err(e) => Err(e),
    }
}

/// The file that settings are written to before they replace the old ones, so a crash
/// mid-write cannot leave truncated settings behind, and so the daemon's watcher sees one
/// atomic change instead of two.
pub fn config_temp_path(xdg_config_home: &Option<Vec<u8>>, home: &Option<Vec<u8>>) -> (r: Result<
    Vec<u8>,
    PathError,
>)
    ensures
        match (r, config_directory(xdg_config_home.deep_view(), home.deep_view())) {
            (Ok(got), Some(dir)) => got@ == joined_path(dir, ascii("config.toml.tmp"@)),
            (Err(e), None) => e == PathError::NoConfigHome,
            _ => false,
        },
{
    match config_dir(xdg_config_home, home) {
        Ok(dir) => Ok(join_path(&dir, "config.toml.tmp")),
        Err(e) => Err(e),
    }
}

/// Settings are never written straight over the old ones.
pub proof fn law_settings_are_written_aside(dir: Seq<u8>)
    ensures
        joined_path(dir, ascii("config.toml.tmp"@)) != joined_path(dir, ascii("config.toml"@)),
{
    reveal_strlit("config.toml.tmp");
    reveal_strlit("config.toml");
    let a = joined_path(dir, ascii("config.toml.tmp"@));
    let b = joined_path(dir, ascii("config.toml"@));
    assert(a.len() != b.len());
}

/// What reading the file with the settings came to.
#[derive(Debug)]
pub enum ConfigFile {
    /// It was read and understood.
    Read(Config),
    /// It was read but not understood.
    Malformed(String),
    /// There is none yet.
    Missing,
    /// It could not be read.
    Unreadable(String),
}

/// What happened to a file in the watched directory.
#[derive(Clone, Copy, Debug, PartialEq, Eq, Structural)]
pub enum FileEventKind {
    Access,
    Create,
    Modify,
    Remove,
    Other,
}

/// Whether a file system event means that the settings are to be read again. Reads must be
/// ignored: the watcher sees our own reads of the file, and reacting to them means
/// reloading forever.
pub fn config_changed(kind: FileEventKind, names_config: bool) -> (r: bool)
    ensures
        r == (names_config && (kind == FileEventKind::Create || kind == FileEventKind::Modify
            || kind == FileEventKind::Remove)),
{
    let changed = match kind {
        FileEventKind::Create | FileEventKind::Modify | FileEventKind::Remove => true,
        FileEventKind::Access | FileEventKind::Other => false,
    };
    changed && names_config
}

/// A rule that agrees with a display on an EDID field ranks above one that knows only a
/// connector, whichever displays the two are about.
pub proof fn law_edid_outranks_connector(
    edid: OutputMatchView,
    seen: Identity,
    port: OutputMatchView,
    other: Identity,
)
    requires
        edid.score(seen) is Some,
        field_agrees(edid.serial, seen.serial) == Some(true) || field_agrees(
            edid.model,
            seen.model,
        ) == Some(true) || field_agrees(edid.make, seen.make) == Some(true),
        port.score(other) is Some,
        field_agrees(port.serial, other.serial) is None,
        field_agrees(port.model, other.model) is None,
        field_agrees(port.make, other.make) is None,
    ensures
        edid.score(seen)->Some_0 > port.score(other)->Some_0,
{
}

/// A rule that agrees on the serial ranks above every rule that does not compare one.
pub proof fn law_serial_outranks_the_rest(
    a: OutputMatchView,
    seen: Identity,
    b: OutputMatchView,
    other: Identity,
)
    requires
        a.score(seen) is Some,
        field_agrees(a.serial, seen.serial) == Some(true),
        b.score(other) is Some,
        field_agrees(b.serial, other.serial) is None,
    ensures
        a.score(seen)->Some_0 > b.score(other)->Some_0,
{
}

/// One EDID field that disagrees rejects the rule, whatever the other fields say, and so does
/// the connector where no EDID field is compared.
pub proof fn law_one_wrong_field_rejects(m: OutputMatchView, d: Identity)
    requires
        m.denies_edid(d) || (!m.compares_edid(d) && field_agrees(m.connector, d.connector) == Some(
            false,
        )),
    ensures
        m.score(d) is None,
{
}

/// A monitor that moves to another port is still recognised by a rule that compares an EDID
/// field, with a score that only the connector can lessen. It wins over a panel that
/// disagrees on such a field, even one that sits on its old port.
pub proof fn law_a_moved_monitor_is_recognised(
    m: OutputMatchView,
    d: Identity,
    port: Seq<char>,
    unrelated: Identity,
)
    requires
        m.score(d) is Some,
        m.compares_edid(d),
        m.denies_edid(unrelated),
    ensures
        ({
            let moved = Identity { connector: port, ..d };
            &&& m.score(moved) is Some
            &&& m.score(moved)->Some_0 + 1 >= m.score(d)->Some_0
            &&& m.score(unrelated) is None
        }),
{
}

/// A rule that names nothing describes no display.
pub proof fn law_empty_matcher_never_matches(m: OutputMatchView, d: Identity)
    requires
        field_agrees(m.serial, d.serial) is None,
        field_agrees(m.model, d.model) is None,
        field_agrees(m.make, d.make) is None,
        field_agrees(m.connector, d.connector) is None,
    ensures
        m.score(d) is None,
{
}

/// How a rule is judged, field by field. A field counts as named where it holds more than
/// white space, and agrees where it is what the display says but for the case of letters and
/// the white space around it. A rule describes a display where every EDID field it names
/// agrees, as long as it names one; else the connector has to be named and agree. The fields
/// that agree add up: eight for the serial, four for the model, two for the make, one for the
/// connector.
pub proof fn law_a_rule_is_judged_field_by_field(m: OutputMatchView, d: Identity)
    ensures
        ({
            let named = |e: Option<Seq<char>>| e is Some && trimmed(e->Some_0).len() > 0;
            let agrees = |e: Option<Seq<char>>, a: Seq<char>|
                e is Some && lowered(trimmed(e->Some_0)) == lowered(trimmed(a));
            let counts = |e: Option<Seq<char>>, a: Seq<char>, w: int|
                if named(e) && agrees(e, a) {
                    w
                } else {
                    0
                };
            &&& m.score(d) is Some <==> {
                &&& named(m.serial) ==> agrees(m.serial, d.serial)
                &&& named(m.model) ==> agrees(m.model, d.model)
                &&& named(m.make) ==> agrees(m.make, d.make)
                &&& named(m.serial) || named(m.model) || named(m.make) || (named(m.connector)
                    && agrees(m.connector, d.connector))
            }
            &&& m.score(d) matches Some(n) ==> n == counts(m.serial, d.serial, 8) + counts(
                m.model,
                d.model,
                4,
            ) + counts(m.make, d.make, 2) + counts(m.connector, d.connector, 1)
        }),
{
}

/// Each power state has its own profile.
pub proof fn law_each_power_state_has_its_own_profile(config: ConfigView)
    ensures
        config.profile(PowerState::Battery) == config.on_battery,
        config.profile(PowerState::Ac) == config.on_ac,
        PowerState::Battery.label_text() != PowerState::Ac.label_text(),
{
    reveal_strlit("On battery");
    reveal_strlit("Plugged in");
    assert("On battery"@[0] != "Plugged in"@[0]);
}

/// Settings that were never saved switch on, but change nothing: no rule, no power profile.
pub proof fn law_default_settings_change_nothing(state: PowerState)
    ensures
        default_config().enabled,
        default_config().apply_on_start,
        default_config().profile(state).outputs.len() == 0,
        default_config().profile(state).power_profile is None,
        !default_config().profile(state).persist_display_config,
{
}

/// The settings lie in a directory of their own below `XDG_CONFIG_HOME`, whatever the home
/// directory is, or below `.config` of the home directory; without either there is no place.
pub proof fn law_where_the_settings_lie(xdg: Option<Seq<u8>>, home: Option<Seq<u8>>)
    ensures
        xdg matches Some(dir) ==> dir.len() > 0 ==> config_directory(xdg, home) == Some(
            joined_path(dir, ascii("powerdisplay"@)),
        ),
        xdg is None || xdg->Some_0.len() == 0 ==> (match home {
            Some(dir) => config_directory(xdg, home) == Some(
                joined_path(joined_path(dir, ascii(".config"@)), ascii("powerdisplay"@)),
            ),
            None => config_directory(xdg, home) is None,
        }),
{
}

} // verus!
