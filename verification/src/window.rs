//! What the settings window says, and the settings that it stands for.

use vstd::prelude::*;

use crate::config::{Config, ConfigView, PowerState, Profile, CONFIG_VERSION};
use crate::text::same;

verus! {

/// What is said while there are changes that have not been saved.
pub const UNSAVED: &'static str = "Unsaved changes";

/// The name of the tab for a power state.
pub open spec fn tab_of(state: PowerState) -> Seq<char> {
    match state {
        PowerState::Battery => "battery"@,
        PowerState::Ac => "ac"@,
    }
}

/// The tab describing the situation the user is in right now.
pub fn tab_name(state: PowerState) -> (r: &'static str)
    ensures
        r@ == tab_of(state),
{
    match state {
        PowerState::Battery => "battery",
        PowerState::Ac => "ac",
    }
}

/// The power state that a tab is about.
pub open spec fn state_of_tab(tab: Option<Seq<char>>) -> PowerState {
    if tab == Some("battery"@) {
        PowerState::Battery
    } else {
        PowerState::Ac
    }
}

pub fn tab_state(tab: &Option<String>) -> (r: PowerState)
    ensures
        r == state_of_tab(tab.deep_view()),
{
    match tab {
        Some(name) => if same(name.as_str(), "battery") {
            PowerState::Battery
        } else {
            PowerState::Ac
        },
        None => PowerState::Ac,
    }
}

/// The tab for a power state is about that state.
pub proof fn law_tabs_and_states_agree(state: PowerState)
    ensures
        state_of_tab(Some(tab_of(state))) == state,
{
    reveal_strlit("battery");
    reveal_strlit("ac");
    assert("battery"@.len() != "ac"@.len());
}

/// The settings that the window stands for. What it does not show stays as it was.
pub fn collect(config: &Config, enabled: bool, on_battery: Profile, on_ac: Profile) -> (r: Config)
    ensures
        r.deep_view() == (ConfigView {
            version: CONFIG_VERSION,
            enabled,
            on_battery: on_battery.deep_view(),
            on_ac: on_ac.deep_view(),
            ..config.deep_view()
        }),
{
    Config {
        version: CONFIG_VERSION,
        enabled,
        apply_on_start: config.apply_on_start,
        on_battery,
        on_ac,
    }
}

/// The settings for an apply at the press of a button, which works with the master switch
/// off, too.
pub fn for_apply_now(config: Config) -> (r: Config)
    ensures
        r.deep_view() == (ConfigView { enabled: true, ..config.deep_view() }),
{
    let mut config = config;
    config.enabled = true;
    config
}

/// What to say after the settings have been saved.
pub fn saved_message(running: bool, can_autostart: bool) -> (r: &'static str)
    ensures
        r@ == (if running {
            "Saved. The background service has picked it up."@
        } else if can_autostart {
            "Saved. Turn on automatic switching in the menu to apply it in the background."@
        } else {
            "Saved. Start powerdisplayd to apply it automatically."@
        }),
{
    if running {
        "Saved. The background service has picked it up."
    } else if can_autostart {
        "Saved. Turn on automatic switching in the menu to apply it in the background."
    } else {
        "Saved. Start powerdisplayd to apply it automatically."
    }
}

fn prefixed(prefix: &str, text: &str) -> (r: String)
    ensures
        r@ == prefix@ + text@,
{
    let mut out = prefix.to_string();
    out.append(text);
    out
}

/// What to say when the settings could not be saved.
pub fn save_failure(error: &str) -> (r: String)
    ensures
        r@ == "Could not save: "@ + error@,
{
    prefixed("Could not save: ", error)
}

/// What to say when the displays could not be listed.
pub fn listing_failure(error: &str) -> (r: String)
    ensures
        r@ == "Could not list displays: "@ + error@,
{
    prefixed("Could not list displays: ", error)
}

/// What the menu says of the session.
pub fn session_lines(backend: &str, state: PowerState, profiles: Option<&str>) -> (r: Vec<String>)
    ensures
        r.deep_view() == seq![
            "Session: "@ + backend@,
            "Power source: "@ + state.label_text(),
            match profiles {
                Some(service) => "Power profiles: "@ + service@,
                None => "Power profiles: unavailable"@,
            },
        ],
{
    let mut lines: Vec<String> = Vec::new();
    lines.push(prefixed("Session: ", backend));
    lines.push(prefixed("Power source: ", state.label()));
    lines.push(
        match profiles {
            Some(service) => prefixed("Power profiles: ", service),
            None => "Power profiles: unavailable".to_string(),
        },
    );
    assert(lines.deep_view() =~= seq![
        "Session: "@ + backend@,
        "Power source: "@ + state.label_text(),
        match profiles {
            Some(service) => "Power profiles: "@ + service@,
            None => "Power profiles: unavailable"@,
        },
    ]);
    lines
}

/// The page for battery power is the one whose tab is selected by that name. Any other
/// selection, or none, stands for wall power.
pub proof fn law_which_page_is_selected(tab: Seq<char>)
    ensures
        state_of_tab(Some(tab)) == PowerState::Battery <==> tab == "battery"@,
        state_of_tab(None) == PowerState::Ac,
        tab_of(PowerState::Battery) == "battery"@,
        tab_of(PowerState::Ac) == "ac"@,
{
}


} // verus!
