//! Performance mode, via whichever power-profiles service the distro ships.
//!
//! `power-profiles-daemon` renamed its bus name from `net.hadess.PowerProfiles` to
//! `org.freedesktop.UPower.PowerProfiles` in 0.20, and Fedora 41+ serves the newer name
//! from `tuned-ppd` instead. All three are the same interface, so we probe for whichever
//! one answers and treat "nothing answers" as a supported configuration.

use vstd::prelude::*;

use crate::text::same;

verus! {

/// Where a power profiles service can be reached.
#[derive(Clone, Copy, Debug)]
pub struct Endpoint {
    pub service: &'static str,
    pub path: &'static str,
    pub interface: &'static str,
}

/// The endpoints in the order in which they are tried.
pub fn endpoint(index: usize) -> (r: Option<Endpoint>)
    ensures
        match r {
            Some(e) => if index == 0 {
                e.service@ == "org.freedesktop.UPower.PowerProfiles"@ && e.path@
                    == "/org/freedesktop/UPower/PowerProfiles"@ && e.interface@
                    == "org.freedesktop.UPower.PowerProfiles"@
            } else {
                index == 1 && e.service@ == "net.hadess.PowerProfiles"@ && e.path@
                    == "/net/hadess/PowerProfiles"@ && e.interface@ == "net.hadess.PowerProfiles"@
            },
            None => index >= 2,
        },
{
    if index == 0 {
        Some(
            Endpoint {
                service: "org.freedesktop.UPower.PowerProfiles",
                path: "/org/freedesktop/UPower/PowerProfiles",
                interface: "org.freedesktop.UPower.PowerProfiles",
            },
        )
    } else if index == 1 {
        Some(
            Endpoint {
                service: "net.hadess.PowerProfiles",
                path: "/net/hadess/PowerProfiles",
                interface: "net.hadess.PowerProfiles",
            },
        )
    } else {
        None
    }
}

/// The names among the entries of a service; an entry without one is passed over.
pub open spec fn names_of(entries: Seq<Option<Seq<char>>>) -> Seq<Seq<char>>
    decreases entries.len(),
{
    if entries.len() == 0 {
        Seq::empty()
    } else {
        let before = names_of(entries.drop_last());
        match entries.last() {
            Some(name) => before.push(name),
            None => before,
        }
    }
}

/// Profile names in the order the service advertises them, coldest first.
pub fn available(entries: &Vec<Option<String>>) -> (r: Vec<String>)
    ensures
        r.deep_view() == names_of(entries.deep_view()),
{
    let ghost all = entries.deep_view();
    let mut out: Vec<String> = Vec::new();
    let mut i: usize = 0;
    assert(out.deep_view() =~= Seq::empty());
    while i < entries.len()
        invariant
            i <= entries.len(),
            all == entries.deep_view(),
            all.len() == entries.len(),
            out.deep_view() == names_of(all.take(i as int)),
        decreases entries.len() - i,
    {
        let ghost before = out.deep_view();
        proof {
            assert(all.take(i + 1).drop_last() =~= all.take(i as int));
            assert(all.take(i + 1).last() == entries@[i as int].deep_view());
        }
        if let Some(name) = &entries[i] {
            let copy = name.clone();
            out.push(copy);
            assert(out.deep_view() =~= before.push(copy@));
        }
        i = i + 1;
    }
    assert(all.take(i as int) =~= all);
    out
}

pub open spec fn description(profile: Seq<char>) -> Seq<char> {
    if profile == "power-saver"@ {
        "Longest battery life, lowest clocks"@
    } else if profile == "balanced"@ {
        "The system default"@
    } else if profile == "performance"@ {
        "Highest clocks, more heat and fan noise"@
    } else {
        "Provided by the power profiles daemon"@
    }
}

/// A sensible hint for the window, also when the daemon reports unfamiliar names.
pub fn describe(profile: &str) -> (r: &'static str)
    ensures
        r@ == description(profile@),
{
    if same(profile, "power-saver") {
        "Longest battery life, lowest clocks"
    } else if same(profile, "balanced") {
        "The system default"
    } else if same(profile, "performance") {
        "Highest clocks, more heat and fan noise"
    } else {
        "Provided by the power profiles daemon"
    }
}

/// The profiles are listed in the order of the entries, and an entry without a name is passed
/// over.
pub proof fn law_profiles_are_listed_in_order(
    a: Seq<Option<Seq<char>>>,
    b: Seq<Option<Seq<char>>>,
    name: Seq<char>,
)
    ensures
        names_of(a + b) == names_of(a) + names_of(b),
        names_of(seq![Some(name)]) == seq![name],
        names_of(seq![None]).len() == 0,
        names_of(Seq::empty()).len() == 0,
    decreases b.len(),
{
    assert(seq![Some(name)].drop_last() =~= Seq::<Option<Seq<char>>>::empty());
    assert(seq![None::<Seq<char>>].drop_last() =~= Seq::<Option<Seq<char>>>::empty());
    assert(names_of(Seq::empty()) =~= Seq::<Seq<char>>::empty());
    assert(names_of(seq![Some(name)]) =~= seq![name]);
    if b.len() == 0 {
        assert(a + b =~= a);
        assert(names_of(a) + names_of(b) =~= names_of(a));
    } else {
        law_profiles_are_listed_in_order(a, b.drop_last(), name);
        assert((a + b).drop_last() =~= a + b.drop_last());
        assert((a + b).last() == b.last());
        assert(names_of(a + b) =~= names_of(a) + names_of(b));
    }
}


} // verus!
