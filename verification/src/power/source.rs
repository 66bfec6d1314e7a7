//! Where the machine's power is coming from, straight from the kernel.
//!
//! UPower would answer the same question, but it is not installed everywhere and adding a
//! hard dependency on it would undercut the point of running on any desktop.

use vstd::prelude::*;

use crate::config::PowerState;
use crate::text::{
    lowered, occurs_at, same, same_ignoring_case, starts_with, to_lower, trim, trimmed,
};

verus! {

pub const SUPPLY_ROOT: &'static str = "/sys/class/power_supply";

/// How often the supplies are read even if no change was reported, in nanoseconds.
pub const RESYNC_INTERVAL: u64 = 60_000_000_000;

/// What one power supply says of itself.
#[derive(Debug, PartialEq, Eq)]
pub struct SupplyReading {
    pub kind: String,
    pub online: Option<bool>,
    pub status: Option<String>,
}

pub struct SupplyReadingView {
    pub kind: Seq<char>,
    pub online: Option<bool>,
    pub status: Option<Seq<char>>,
}

impl DeepView for SupplyReading {
    type V = SupplyReadingView;

    open spec fn deep_view(&self) -> SupplyReadingView {
        SupplyReadingView {
            kind: self.kind@,
            online: self.online,
            status: self.status.deep_view(),
        }
    }
}

/// The attribute files of one power supply, as far as they can be read.
#[derive(Debug)]
pub struct SupplyFiles {
    pub kind: Option<String>,
    pub online: Option<String>,
    pub status: Option<String>,
}

pub struct SupplyFilesView {
    pub kind: Option<Seq<char>>,
    pub online: Option<Seq<char>>,
    pub status: Option<Seq<char>>,
}

impl DeepView for SupplyFiles {
    type V = SupplyFilesView;

    open spec fn deep_view(&self) -> SupplyFilesView {
        SupplyFilesView {
            kind: self.kind.deep_view(),
            online: self.online.deep_view(),
            status: self.status.deep_view(),
        }
    }
}

/// What the files of a supply say. One that does not say what it is, is none.
pub open spec fn reading_of(files: SupplyFilesView) -> Option<SupplyReadingView> {
    match files.kind {
        None => None,
        Some(kind) => Some(
            SupplyReadingView {
                kind: trimmed(kind),
                online: match files.online {
                    Some(text) => Some(trimmed(text) == "1"@),
                    None => None,
                },
                status: match files.status {
                    Some(text) => Some(trimmed(text)),
                    None => None,
                },
            },
        ),
    }
}

/// What the files of all the supplies say.
pub open spec fn readings_of(files: Seq<SupplyFilesView>) -> Seq<SupplyReadingView>
    decreases files.len(),
{
    if files.len() == 0 {
        Seq::empty()
    } else {
        let before = readings_of(files.drop_last());
        match reading_of(files.last()) {
            Some(reading) => before.push(reading),
            None => before,
        }
    }
}

fn trim_text(text: &Option<String>) -> (r: Option<String>)
    ensures
        r.deep_view() == (match text.deep_view() {
            Some(t) => Some(trimmed(t)),
            None => None,
        }),
{
    match text {
        Some(t) => Some(trim(t.as_str())),
        None => None,
    }
}

/// Reads the supplies out of their files.
pub fn read_supplies(files: &Vec<SupplyFiles>) -> (r: Vec<SupplyReading>)
    ensures
        r.deep_view() == readings_of(files.deep_view()),
{
    let ghost all = files.deep_view();
    let mut out: Vec<SupplyReading> = Vec::new();
    let mut i: usize = 0;
    assert(out.deep_view() =~= Seq::empty());
    while i < files.len()
        invariant
            i <= files.len(),
            all == files.deep_view(),
            all.len() == files.len(),
            out.deep_view() == readings_of(all.take(i as int)),
        decreases files.len() - i,
    {
        let ghost before = out.deep_view();
        let f = &files[i];
        proof {
            assert(all.take(i + 1).drop_last() =~= all.take(i as int));
            assert(all.take(i + 1).last() == f.deep_view());
        }
        if let Some(kind) = trim_text(&f.kind) {
            let online = match trim_text(&f.online) {
                Some(text) => Some(same(text.as_str(), "1")),
                None => None,
            };
            let reading = SupplyReading { kind, online, status: trim_text(&f.status) };
            out.push(reading);
            assert(out.deep_view() =~= before.push(reading.deep_view()));
        }
        i = i + 1;
    }
    assert(all.take(i as int) =~= all);
    out
}

/// A battery.
pub open spec fn is_battery(s: SupplyReadingView) -> bool {
    lowered(s.kind) == "battery"@
}

/// Something that is plugged into the wall: an adapter, or a USB port.
pub open spec fn is_line(s: SupplyReadingView) -> bool {
    !is_battery(s) && (lowered(s.kind) == "mains"@ || occurs_at(lowered(s.kind), "usb"@, 0))
}

/// A supply from the wall that gives power.
pub open spec fn live_line(s: SupplyReadingView) -> bool {
    is_line(s) && s.online == Some(true)
}

/// A supply from the wall that says whether it gives power.
pub open spec fn known_line(s: SupplyReadingView) -> bool {
    is_line(s) && s.online is Some
}

/// A battery that is being emptied.
pub open spec fn discharging(s: SupplyReadingView) -> bool {
    is_battery(s) && s.status is Some && lowered(s.status->Some_0) == "discharging"@
}

/// Where the power comes from. Without a battery and an adapter to speak of it is a desktop,
/// which is always on the wall.
pub open spec fn state_of(supplies: Seq<SupplyReadingView>) -> PowerState {
    if exists|i: int| 0 <= i < supplies.len() && live_line(#[trigger] supplies[i]) {
        PowerState::Ac
    } else if exists|i: int|
        0 <= i < supplies.len() && (discharging(#[trigger] supplies[i]) || known_line(
            supplies[i],
        )) {
        PowerState::Battery
    } else {
        PowerState::Ac
    }
}

/// Decides between battery and wall power from a set of `power_supply` readings.
///
/// A laptop charging over USB-C reports through a `USB` supply rather than `Mains`, and a
/// machine sitting at its charge limit reports `Not charging` rather than `Charging`, so
/// neither signal alone is enough.
pub fn classify(supplies: &[SupplyReading]) -> (r: PowerState)
    ensures
        r == state_of(supplies.deep_view()),
{
    proof {
        reveal_strlit("battery");
        reveal_strlit("discharging");
    }
    let ghost all = supplies.deep_view();
    let mut any_line_supply = false;
    let mut line_online = false;
    let mut battery_discharging = false;
    let mut i: usize = 0;
    while i < supplies.len()
        invariant
            i <= supplies.len(),
            all == supplies.deep_view(),
            all.len() == supplies.len(),
            lowered("discharging"@) == "discharging"@,
            line_online <==> exists|k: int| 0 <= k < i && live_line(#[trigger] all[k]),
            any_line_supply <==> exists|k: int| 0 <= k < i && known_line(#[trigger] all[k]),
            battery_discharging <==> exists|k: int| 0 <= k < i && discharging(#[trigger] all[k]),
        decreases supplies.len() - i,
    {
        let s = &supplies[i];
        let ghost view = all[i as int];
        assert(view == s.deep_view());
        let kind = to_lower(s.kind.as_str());
        if same(kind.as_str(), "battery") {
            if let Some(status) = &s.status {
                if same_ignoring_case(status.as_str(), "discharging") {
                    battery_discharging = true;
                }
            }
        } else if same(kind.as_str(), "mains") || starts_with(kind.as_str(), "usb") {
            if let Some(online) = s.online {
                any_line_supply = true;
                if online {
                    line_online = true;
                }
            }
        }
        i = i + 1;
    }
    if line_online {
        PowerState::Ac
    } else if battery_discharging || any_line_supply {
        PowerState::Battery
    } else {
        PowerState::Ac
    }
}

/// Where the power comes from, out of the files of all the supplies.
pub fn read_state(files: &Vec<SupplyFiles>) -> (r: PowerState)
    ensures
        r == state_of(readings_of(files.deep_view())),
{
    let supplies = read_supplies(files);
    let slice = supplies.as_slice();
    assert(slice.deep_view() =~= supplies.deep_view());
    classify(slice)
}

/// Tells changes of the power state from readings that repeat it.
#[derive(Debug)]
pub struct ChangeFilter {
    last: PowerState,
}

impl ChangeFilter {
    pub closed spec fn known(&self) -> PowerState {
        self.last
    }

    /// Starts from the first reading.
    pub fn new(first: PowerState) -> (r: Self)
        ensures
            r.known() == first,
    {
        ChangeFilter { last: first }
    }

    /// Takes in a reading, and says whether it is news.
    pub fn observe(&mut self, current: PowerState) -> (r: bool)
        ensures
            r == (current != old(self).known()),
            final(self).known() == current,
    {
        if current == self.last {
            false
        } else {
            self.last = current;
            true
        }
    }
}

/// One live adapter means wall power, whatever the batteries say.
pub proof fn law_live_adapter_means_ac(supplies: Seq<SupplyReadingView>, i: int)
    requires
        0 <= i < supplies.len(),
        live_line(supplies[i]),
    ensures
        state_of(supplies) == PowerState::Ac,
{
}

/// A battery that is not being emptied says nothing about the power source: with it or
/// without it the answer is the same.
pub proof fn law_resting_battery_says_nothing(supplies: Seq<SupplyReadingView>, s: SupplyReadingView)
    requires
        is_battery(s),
        !discharging(s),
    ensures
        state_of(supplies.push(s)) == state_of(supplies),
{
    let more = supplies.push(s);
    assert forall|i: int| 0 <= i < supplies.len() implies #[trigger] more[i] == supplies[i] by {}
    if exists|i: int| 0 <= i < supplies.len() && live_line(#[trigger] supplies[i]) {
        let i = choose|i: int| 0 <= i < supplies.len() && live_line(#[trigger] supplies[i]);
        assert(live_line(more[i]));
    }
    if exists|i: int|
        0 <= i < supplies.len() && (discharging(#[trigger] supplies[i]) || known_line(supplies[i])) {
        let i = choose|i: int|
            0 <= i < supplies.len() && (discharging(#[trigger] supplies[i]) || known_line(
                supplies[i],
            ));
        assert(discharging(more[i]) || known_line(more[i]));
    }
}

/// Without a live adapter, an adapter that is unplugged or a battery that is being emptied
/// means battery power.
pub proof fn law_unplugged_means_battery(supplies: Seq<SupplyReadingView>, i: int)
    requires
        0 <= i < supplies.len(),
        discharging(supplies[i]) || known_line(supplies[i]),
        forall|k: int| 0 <= k < supplies.len() ==> !live_line(#[trigger] supplies[k]),
    ensures
        state_of(supplies) == PowerState::Battery,
{
}

/// A supply that is online and says that it is the mains, or that it is USB of any sort,
/// means wall power, whatever all the others say. The case of the letters does not matter.
pub proof fn law_anything_online_from_the_wall_means_ac(
    supplies: Seq<SupplyReadingView>,
    i: int,
)
    requires
        0 <= i < supplies.len(),
        supplies[i].online == Some(true),
        lowered(supplies[i].kind) == "mains"@ || (supplies[i].kind.len() >= 3 && lowered(
            supplies[i].kind,
        ).take(3) == "usb"@),
    ensures
        state_of(supplies) == PowerState::Ac,
{
    lemma_kinds(supplies[i]);
    assert(live_line(supplies[i]));
}

/// Where no such supply is online, one of them that is offline means battery power, and so
/// does a battery that is being emptied.
pub proof fn law_nothing_online_from_the_wall_means_battery(
    supplies: Seq<SupplyReadingView>,
    i: int,
)
    requires
        0 <= i < supplies.len(),
        forall|k: int|
            0 <= k < supplies.len() && (#[trigger] supplies[k]).online == Some(true)
                ==> lowered(supplies[k].kind) != "mains"@ && !(supplies[k].kind.len() >= 3
                && lowered(supplies[k].kind).take(3) == "usb"@),
        (supplies[i].online == Some(false) && (lowered(supplies[i].kind) == "mains"@ || (
        supplies[i].kind.len() >= 3 && lowered(supplies[i].kind).take(3) == "usb"@))) || (
        lowered(supplies[i].kind) == "battery"@ && (supplies[i].status matches Some(status)
            && lowered(status) == "discharging"@)),
    ensures
        state_of(supplies) == PowerState::Battery,
{
    lemma_kinds(supplies[i]);
    assert(known_line(supplies[i]) || discharging(supplies[i]));
    assert forall|k: int| 0 <= k < supplies.len() implies !live_line(#[trigger] supplies[k]) by {
        lemma_kinds(supplies[k]);
    }
}

/// Where nothing from the wall says whether it is online and no battery is being emptied, the
/// machine is on wall power: it is a desktop, or a laptop that says nothing to the contrary.
pub proof fn law_nothing_said_means_ac(supplies: Seq<SupplyReadingView>)
    requires
        forall|k: int|
            0 <= k < supplies.len() && (lowered((#[trigger] supplies[k]).kind) == "mains"@ || (
            supplies[k].kind.len() >= 3 && lowered(supplies[k].kind).take(3) == "usb"@))
                ==> supplies[k].online is None,
        forall|k: int|
            0 <= k < supplies.len() && lowered((#[trigger] supplies[k]).kind) == "battery"@
                ==> supplies[k].status is None || lowered(supplies[k].status->Some_0)
                != "discharging"@,
    ensures
        state_of(supplies) == PowerState::Ac,
{
    assert forall|k: int| 0 <= k < supplies.len() implies !known_line(#[trigger] supplies[k])
        && !discharging(supplies[k]) by {
        lemma_kinds(supplies[k]);
    }
}

/// No kind of supply is two things at once.
proof fn lemma_kinds(s: SupplyReadingView)
    ensures
        is_line(s) <==> lowered(s.kind) == "mains"@ || (s.kind.len() >= 3 && lowered(s.kind).take(
            3,
        ) == "usb"@),
        is_battery(s) <==> lowered(s.kind) == "battery"@,
        discharging(s) <==> lowered(s.kind) == "battery"@ && (s.status matches Some(status)
            && lowered(status) == "discharging"@),
{
    reveal_strlit("battery");
    reveal_strlit("mains");
    reveal_strlit("usb");
    let kind = lowered(s.kind);
    assert(kind.len() >= 3 ==> kind.subrange(0, 3) =~= kind.take(3));
    assert("battery"@.len() == 7 && "mains"@.len() == 5);
    if kind.len() >= 3 && kind.take(3) == "usb"@ {
        assert(kind.take(3)[0] == 'u');
        assert(kind[0] == 'u');
        assert("battery"@[0] == 'b');
    }
}

/// A supply is what its files say, without the white space around it; the first of them is
/// what makes it a supply, and only a one means that it is online.
pub proof fn law_a_supply_is_what_its_files_say(files: SupplyFilesView)
    ensures
        files.kind is None <==> reading_of(files) is None,
        reading_of(files) matches Some(s) ==> {
            &&& s.kind == trimmed(files.kind->Some_0)
            &&& (files.online is None <==> s.online is None)
            &&& (files.online matches Some(text) ==> s.online == Some(trimmed(text) == seq!['1']))
            &&& (files.status is None <==> s.status is None)
            &&& (files.status matches Some(text) ==> s.status == Some(trimmed(text)))
        },
{
    reveal_strlit("1");
    assert("1"@ =~= seq!['1']);
}

/// The supplies are those of the first files followed by those of the rest, and no supply
/// comes out of anything but files of its own.
pub proof fn law_supplies_are_read_one_by_one(
    a: Seq<SupplyFilesView>,
    b: Seq<SupplyFilesView>,
    one: SupplyFilesView,
)
    ensures
        readings_of(a + b) == readings_of(a) + readings_of(b),
        reading_of(one) matches Some(s) ==> readings_of(seq![one]) == seq![s],
        reading_of(one) is None ==> readings_of(seq![one]).len() == 0,
    decreases b.len(),
{
    reveal_with_fuel(readings_of, 2);
    assert(seq![one].drop_last() =~= Seq::<SupplyFilesView>::empty());
    assert(readings_of(Seq::<SupplyFilesView>::empty()).push(reading_of(one)->Some_0) =~= seq![
        reading_of(one)->Some_0,
    ]);
    if b.len() == 0 {
        assert(a + b =~= a);
        assert(readings_of(a) + readings_of(b) =~= readings_of(a));
    } else {
        law_supplies_are_read_one_by_one(a, b.drop_last(), one);
        assert((a + b).drop_last() =~= a + b.drop_last());
        assert((a + b).last() == b.last());
        assert(readings_of(a + b) =~= readings_of(a) + readings_of(b));
    }
}

} // verus!
