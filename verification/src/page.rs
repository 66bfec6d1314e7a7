//! One tab of the settings window: everything that should happen while on battery, or while
//! plugged in. What its menus offer, what they start out on, and what is read back from
//! them.

use vstd::prelude::*;

use crate::config::{OutputRule, OutputRuleView, Profile, ProfileView};
use crate::display::assign::{
    assign_rules, driver, drivers, idle, law_no_display_is_held_back, lemma_driver, lemma_idle,
    settings_for, wanted_mode, OutputSettingView,
};
use crate::display::mode::{
    chosen, distinct, hidden, law_found_mode_is_the_closest, law_menu_entries_differ,
    law_menu_leaves_no_mode_out, lemma_distinct, menu_key, rate_label, Mode, ModeView, Output,
    OutputView,
};
use crate::double::Double;
use crate::number::{all_digits, decimal, is_digit, lemma_decimal, to_decimal};
use crate::text::{chars_of, same};

verus! {

pub const LEAVE_UNCHANGED: &'static str = "Leave unchanged";

/// The modes of one display with one resolution, so the two menus stay in step.
#[derive(Debug)]
pub struct ResolutionGroup {
    pub width: u32,
    pub height: u32,
    pub preferred: bool,
    pub modes: Vec<Mode>,
}

pub struct GroupView {
    pub width: u32,
    pub height: u32,
    pub preferred: bool,
    pub modes: Seq<ModeView>,
}

impl DeepView for ResolutionGroup {
    type V = GroupView;

    open spec fn deep_view(&self) -> GroupView {
        GroupView {
            width: self.width,
            height: self.height,
            preferred: self.preferred,
            modes: self.modes.deep_view(),
        }
    }
}

/// The first group of this size, by position; the length where there is none.
pub open spec fn group_at(groups: Seq<GroupView>, width: u32, height: u32) -> int
    decreases groups.len(),
{
    if groups.len() == 0 || (groups[0].width == width && groups[0].height == height) {
        0
    } else {
        1 + group_at(groups.drop_first(), width, height)
    }
}

/// The groups with one more mode in them.
pub open spec fn with_mode(groups: Seq<GroupView>, m: ModeView) -> Seq<GroupView> {
    let i = group_at(groups, m.width, m.height);
    if i < groups.len() {
        groups.update(
            i,
            GroupView {
                preferred: groups[i].preferred || m.preferred,
                modes: groups[i].modes.push(m),
                ..groups[i]
            },
        )
    } else {
        groups.push(
            GroupView { width: m.width, height: m.height, preferred: m.preferred, modes: seq![m] },
        )
    }
}

/// The modes put into groups, in the order in which their resolutions come up.
pub open spec fn grouped(modes: Seq<ModeView>) -> Seq<GroupView>
    decreases modes.len(),
{
    if modes.len() == 0 {
        Seq::empty()
    } else {
        with_mode(grouped(modes.drop_last()), modes.last())
    }
}

pub open spec fn area(g: GroupView) -> int {
    g.width * g.height
}

/// The place of a group in a list that starts with the largest, behind those of its size.
pub open spec fn area_place(groups: Seq<GroupView>, a: int) -> int
    decreases groups.len(),
{
    if groups.len() == 0 || area(groups[0]) < a {
        0
    } else {
        1 + area_place(groups.drop_first(), a)
    }
}

/// The groups with the largest first, those of one size in the order they had.
pub open spec fn largest_first(groups: Seq<GroupView>) -> Seq<GroupView>
    decreases groups.len(),
{
    if groups.len() == 0 {
        Seq::empty()
    } else {
        let before = largest_first(groups.drop_last());
        before.insert(area_place(before, area(groups.last())), groups.last())
    }
}

/// The place of a mode in a list that starts with the fastest, behind those of its rate.
pub open spec fn rate_place(modes: Seq<ModeView>, rate: Double) -> int
    decreases modes.len(),
{
    if modes.len() == 0 || modes[0].refresh.order() < rate.order() {
        0
    } else {
        1 + rate_place(modes.drop_first(), rate)
    }
}

/// The modes with the fastest first, those of one rate in the order they had.
pub open spec fn fastest_first(modes: Seq<ModeView>) -> Seq<ModeView>
    decreases modes.len(),
{
    if modes.len() == 0 {
        Seq::empty()
    } else {
        let before = fastest_first(modes.drop_last());
        before.insert(rate_place(before, modes.last().refresh), modes.last())
    }
}

/// What the menus of a display offer.
pub open spec fn menus(output: OutputView) -> Seq<GroupView> {
    largest_first(grouped(chosen(output.modes, distinct(output.modes)))).map_values(
        |g: GroupView| GroupView { modes: fastest_first(g.modes), ..g },
    )
}

proof fn lemma_group_at(groups: Seq<GroupView>, width: u32, height: u32, i: int)
    requires
        0 <= i <= groups.len(),
        forall|j: int|
            0 <= j < i ==> !((#[trigger] groups[j]).width == width && groups[j].height == height),
        i < groups.len() ==> groups[i].width == width && groups[i].height == height,
    ensures
        group_at(groups, width, height) == i,
    decreases i,
{
    if i > 0 {
        assert(!(groups[0].width == width && groups[0].height == height));
        let rest = groups.drop_first();
        assert forall|j: int| 0 <= j < i - 1 implies !((#[trigger] rest[j]).width == width
            && rest[j].height == height) by {
            assert(rest[j] == groups[j + 1]);
        }
        lemma_group_at(rest, width, height, i - 1);
    }
}

proof fn lemma_group_found(groups: Seq<GroupView>, width: u32, height: u32)
    ensures
        0 <= group_at(groups, width, height) <= groups.len(),
        group_at(groups, width, height) < groups.len() ==> groups[group_at(
            groups,
            width,
            height,
        )].width == width && groups[group_at(groups, width, height)].height == height,
        forall|j: int|
            0 <= j < group_at(groups, width, height) ==> !((#[trigger] groups[j]).width == width
                && groups[j].height == height),
    decreases groups.len(),
{
    if groups.len() > 0 && !(groups[0].width == width && groups[0].height == height) {
        let rest = groups.drop_first();
        lemma_group_found(rest, width, height);
        assert forall|j: int| 0 <= j < group_at(groups, width, height) implies !((
        #[trigger] groups[j]).width == width && groups[j].height == height) by {
            if j > 0 {
                assert(groups[j] == rest[j - 1]);
            }
        }
    }
}

proof fn lemma_area_place(groups: Seq<GroupView>, a: int, i: int)
    requires
        0 <= i <= groups.len(),
        forall|j: int| 0 <= j < i ==> area(#[trigger] groups[j]) >= a,
        i < groups.len() ==> area(groups[i]) < a,
    ensures
        area_place(groups, a) == i,
    decreases i,
{
    if i > 0 {
        assert(area(groups[0]) >= a);
        let rest = groups.drop_first();
        assert forall|j: int| 0 <= j < i - 1 implies area(#[trigger] rest[j]) >= a by {
            assert(rest[j] == groups[j + 1]);
        }
        lemma_area_place(rest, a, i - 1);
    }
}

proof fn lemma_area_found(groups: Seq<GroupView>, a: int)
    ensures
        0 <= area_place(groups, a) <= groups.len(),
        forall|j: int| 0 <= j < area_place(groups, a) ==> area(#[trigger] groups[j]) >= a,
        area_place(groups, a) < groups.len() ==> area(groups[area_place(groups, a)]) < a,
    decreases groups.len(),
{
    if groups.len() > 0 && area(groups[0]) >= a {
        let rest = groups.drop_first();
        lemma_area_found(rest, a);
        assert forall|j: int| 0 <= j < area_place(groups, a) implies area(#[trigger] groups[j])
            >= a by {
            if j > 0 {
                assert(groups[j] == rest[j - 1]);
            }
        }
    }
}

proof fn lemma_rate_place(modes: Seq<ModeView>, rate: Double, i: int)
    requires
        0 <= i <= modes.len(),
        forall|j: int| 0 <= j < i ==> (#[trigger] modes[j]).refresh.order() >= rate.order(),
        i < modes.len() ==> modes[i].refresh.order() < rate.order(),
    ensures
        rate_place(modes, rate) == i,
    decreases i,
{
    if i > 0 {
        assert(modes[0].refresh.order() >= rate.order());
        let rest = modes.drop_first();
        assert forall|j: int| 0 <= j < i - 1 implies (#[trigger] rest[j]).refresh.order() >= rate.order() by {
            assert(rest[j] == modes[j + 1]);
        }
        lemma_rate_place(rest, rate, i - 1);
    }
}

proof fn lemma_rate_found(modes: Seq<ModeView>, rate: Double)
    ensures
        0 <= rate_place(modes, rate) <= modes.len(),
        forall|j: int| 0 <= j < rate_place(modes, rate) ==> (#[trigger] modes[j]).refresh.order() >= rate.order(),
        rate_place(modes, rate) < modes.len() ==> modes[rate_place(modes, rate)].refresh.order()
            < rate.order(),
    decreases modes.len(),
{
    if modes.len() > 0 && modes[0].refresh.order() >= rate.order() {
        let rest = modes.drop_first();
        lemma_rate_found(rest, rate);
        assert forall|j: int| 0 <= j < rate_place(modes, rate) implies (#[trigger] modes[j]).refresh.order()
            >= rate.order() by {
            if j > 0 {
                assert(modes[j] == rest[j - 1]);
            }
        }
    }
}

fn find_group(groups: &Vec<ResolutionGroup>, width: u32, height: u32) -> (r: usize)
    ensures
        r == group_at(groups.deep_view(), width, height),
        r <= groups.len(),
{
    let ghost all = groups.deep_view();
    let mut i: usize = 0;
    while i < groups.len() && !(groups[i].width == width && groups[i].height == height)
        invariant
            i <= groups.len(),
            all == groups.deep_view(),
            forall|j: int|
                0 <= j < i ==> !((#[trigger] all[j]).width == width && all[j].height == height),
        decreases groups.len() - i,
    {
        assert(all[i as int] == groups@[i as int].deep_view());
        i = i + 1;
    }
    proof {
        if i < groups.len() {
            assert(all[i as int] == groups@[i as int].deep_view());
        }
        lemma_group_at(all, width, height, i as int);
    }
    i
}

fn add_mode(groups: &mut Vec<ResolutionGroup>, m: &Mode)
    ensures
        final(groups).deep_view() == with_mode(old(groups).deep_view(), m.deep_view()),
{
    let ghost before = groups.deep_view();
    let i = find_group(groups, m.width, m.height);
    let copy = m.clone();
    if i < groups.len() {
        let ghost g = before[i as int];
        assert(g == groups@[i as int].deep_view());
        let preferred = groups[i].preferred || m.preferred;
        groups[i].preferred = preferred;
        groups[i].modes.push(copy);
        proof {
            let now = groups@[i as int];
            assert(now.modes.deep_view() =~= g.modes.push(m.deep_view()));
            assert(groups.deep_view() =~= with_mode(before, m.deep_view()));
        }
    } else {
        let mut modes: Vec<Mode> = Vec::new();
        modes.push(copy);
        let group = ResolutionGroup {
            width: m.width,
            height: m.height,
            preferred: m.preferred,
            modes,
        };
        assert(group.modes.deep_view() =~= seq![m.deep_view()]);
        groups.push(group);
        assert(groups.deep_view() =~= with_mode(before, m.deep_view()));
    }
}

fn place_group(sorted: &mut Vec<ResolutionGroup>, g: ResolutionGroup)
    ensures
        final(sorted).deep_view() == old(sorted).deep_view().insert(
            area_place(old(sorted).deep_view(), area(g.deep_view())),
            g.deep_view(),
        ),
{
    let ghost all = sorted.deep_view();
    let ghost a = area(g.deep_view());
    let mut i: usize = 0;
    assert(0 <= g.width * g.height <= 0xffff_ffff * 0xffff_ffff) by (nonlinear_arith)
        requires
            g.width <= 0xffff_ffff,
            g.height <= 0xffff_ffff,
    ;
    let mine: u64 = (g.width as u64) * (g.height as u64);
    while i < sorted.len()
        invariant
            i <= sorted.len(),
            all == sorted.deep_view(),
            all == old(sorted).deep_view(),
            all.len() == sorted.len(),
            a == area(g.deep_view()),
            mine == a,
            forall|j: int| 0 <= j < i ==> area(#[trigger] all[j]) >= a,
        decreases sorted.len() - i,
    {
        let other = &sorted[i];
        assert(all[i as int] == other.deep_view());
        assert(0 <= other.width * other.height <= 0xffff_ffff * 0xffff_ffff) by (nonlinear_arith)
            requires
                other.width <= 0xffff_ffff,
                other.height <= 0xffff_ffff,
        ;
        if (other.width as u64) * (other.height as u64) < mine {
            proof {
                lemma_area_place(all, a, i as int);
            }
            sorted.insert(i, g);
            assert(sorted.deep_view() =~= all.insert(i as int, g.deep_view()));
            return ;
        }
        i = i + 1;
    }
    proof {
        lemma_area_place(all, a, i as int);
    }
    sorted.push(g);
    assert(sorted.deep_view() =~= all.insert(i as int, g.deep_view()));
}

fn place_mode(sorted: &mut Vec<Mode>, m: Mode)
    ensures
        final(sorted).deep_view() == old(sorted).deep_view().insert(
            rate_place(old(sorted).deep_view(), m.refresh),
            m.deep_view(),
        ),
{
    let ghost all = sorted.deep_view();
    let mut i: usize = 0;
    while i < sorted.len()
        invariant
            i <= sorted.len(),
            all == sorted.deep_view(),
            all == old(sorted).deep_view(),
            all.len() == sorted.len(),
            forall|j: int| 0 <= j < i ==> (#[trigger] all[j]).refresh.order() >= m.refresh.order(),
        decreases sorted.len() - i,
    {
        assert(all[i as int] == sorted@[i as int].deep_view());
        if sorted[i].refresh.precedes(m.refresh) {
            proof {
                lemma_rate_place(all, m.refresh, i as int);
            }
            sorted.insert(i, m);
            assert(sorted.deep_view() =~= all.insert(i as int, m.deep_view()));
            return ;
        }
        i = i + 1;
    }
    proof {
        lemma_rate_place(all, m.refresh, i as int);
    }
    sorted.push(m);
    assert(sorted.deep_view() =~= all.insert(i as int, m.deep_view()));
}

fn sort_modes(modes: &Vec<Mode>) -> (r: Vec<Mode>)
    ensures
        r.deep_view() == fastest_first(modes.deep_view()),
{
    let ghost all = modes.deep_view();
    let mut out: Vec<Mode> = Vec::new();
    let mut i: usize = 0;
    assert(out.deep_view() =~= Seq::<ModeView>::empty());
    while i < modes.len()
        invariant
            i <= modes.len(),
            all == modes.deep_view(),
            all.len() == modes.len(),
            out.deep_view() == fastest_first(all.take(i as int)),
        decreases modes.len() - i,
    {
        proof {
            assert(all.take(i + 1).drop_last() =~= all.take(i as int));
            assert(all.take(i + 1).last() == modes@[i as int].deep_view());
        }
        place_mode(&mut out, modes[i].clone());
        i = i + 1;
    }
    assert(all.take(i as int) =~= all);
    out
}

fn copy_group(g: &ResolutionGroup, modes: Vec<Mode>) -> (r: ResolutionGroup)
    ensures
        r.deep_view() == (GroupView { modes: modes.deep_view(), ..g.deep_view() }),
{
    ResolutionGroup { width: g.width, height: g.height, preferred: g.preferred, modes }
}

fn copy_modes(modes: &Vec<Mode>) -> (r: Vec<Mode>)
    ensures
        r.deep_view() == modes.deep_view(),
{
    let mut out: Vec<Mode> = Vec::new();
    let mut i: usize = 0;
    while i < modes.len()
        invariant
            i <= modes.len(),
            out@ == modes@.take(i as int),
        decreases modes.len() - i,
    {
        out.push(modes[i].clone());
        i = i + 1;
    }
    assert(out.deep_view() =~= modes.deep_view());
    out
}

fn sort_groups(groups: &Vec<ResolutionGroup>) -> (r: Vec<ResolutionGroup>)
    ensures
        r.deep_view() == largest_first(groups.deep_view()),
{
    let ghost all = groups.deep_view();
    let mut out: Vec<ResolutionGroup> = Vec::new();
    let mut i: usize = 0;
    assert(out.deep_view() =~= Seq::<GroupView>::empty());
    while i < groups.len()
        invariant
            i <= groups.len(),
            all == groups.deep_view(),
            all.len() == groups.len(),
            out.deep_view() == largest_first(all.take(i as int)),
        decreases groups.len() - i,
    {
        proof {
            assert(all.take(i + 1).drop_last() =~= all.take(i as int));
            assert(all.take(i + 1).last() == groups@[i as int].deep_view());
        }
        let copy = copy_group(&groups[i], copy_modes(&groups[i].modes));
        place_group(&mut out, copy);
        i = i + 1;
    }
    assert(all.take(i as int) =~= all);
    out
}

/// The modes of a display, by resolution, the largest first, and by rate, the fastest first.
pub fn group_modes(output: &Output) -> (r: Vec<ResolutionGroup>)
    ensures
        r.deep_view() == menus(output.deep_view()),
{
    let modes = output.distinct_modes();
    let ghost listed = modes.deep_view();
    let mut groups: Vec<ResolutionGroup> = Vec::new();
    let mut i: usize = 0;
    assert(groups.deep_view() =~= Seq::<GroupView>::empty());
    while i < modes.len()
        invariant
            i <= modes.len(),
            listed == modes.deep_view(),
            listed.len() == modes.len(),
            groups.deep_view() == grouped(listed.take(i as int)),
        decreases modes.len() - i,
    {
        proof {
            assert(listed.take(i + 1).drop_last() =~= listed.take(i as int));
            assert(listed.take(i + 1).last() == modes@[i as int].deep_view());
        }
        add_mode(&mut groups, modes[i]);
        i = i + 1;
    }
    assert(listed.take(i as int) =~= listed);
    let sorted = sort_groups(&groups);
    let ghost order = sorted.deep_view();
    let mut out: Vec<ResolutionGroup> = Vec::new();
    i = 0;
    while i < sorted.len()
        invariant
            i <= sorted.len(),
            order == sorted.deep_view(),
            order.len() == sorted.len(),
            out.deep_view() == order.take(i as int).map_values(
                |g: GroupView| GroupView { modes: fastest_first(g.modes), ..g },
            ),
        decreases sorted.len() - i,
    {
        let ghost before = out.deep_view();
        let g = copy_group(&sorted[i], sort_modes(&sorted[i].modes));
        out.push(g);
        assert(order[i as int] == sorted@[i as int].deep_view());
        i = i + 1;
        assert(out.deep_view() =~= before.push(g.deep_view()));
        assert(out.deep_view() =~= order.take(i as int).map_values(
            |g: GroupView| GroupView { modes: fastest_first(g.modes), ..g },
        ));
    }
    assert(order.take(i as int) =~= order);
    out
}

/// What stands behind a resolution.
pub open spec fn remark(g: GroupView) -> Seq<char> {
    if g.preferred {
        "  (native)"@
    } else {
        ""@
    }
}

/// An entry of the menu of resolutions.
pub open spec fn resolution_text(g: GroupView) -> Seq<char> {
    decimal(g.width as nat) + " × "@ + decimal(g.height as nat) + remark(g)
}

pub fn resolution_label(group: &ResolutionGroup) -> (r: String)
    ensures
        r@ == resolution_text(group.deep_view()),
{
    let mut text = to_decimal(group.width as u128);
    text.append(" × ");
    text.append(to_decimal(group.height as u128).as_str());
    text.append(
        if group.preferred {
            "  (native)"
        } else {
            ""
        },
    );
    text
}

/// An entry of the menu of rates.
pub open spec fn rate_text(m: ModeView) -> Seq<char> {
    rate_label(m.refresh) + if m.current {
        "  (current)"@
    } else {
        ""@
    }
}

/// The first mode with this id, by position; the length where there is none.
pub open spec fn place_by_id(modes: Seq<ModeView>, id: Seq<char>) -> int
    decreases modes.len(),
{
    if modes.len() == 0 || modes[0].id == id {
        0
    } else {
        1 + place_by_id(modes.drop_first(), id)
    }
}

/// The first mode that reads like another, by position; the length where there is none.
pub open spec fn place_by_key(modes: Seq<ModeView>, wanted: ModeView) -> int
    decreases modes.len(),
{
    if modes.len() == 0 || menu_key(modes[0]) == menu_key(wanted) {
        0
    } else {
        1 + place_by_key(modes.drop_first(), wanted)
    }
}

/// Where a menu stands for a mode: on that mode, or else on the one that stands for it
/// because it reads the same, or else on the fastest.
pub open spec fn position_of(modes: Seq<ModeView>, wanted: ModeView) -> int {
    if place_by_id(modes, wanted.id) < modes.len() {
        place_by_id(modes, wanted.id)
    } else if place_by_key(modes, wanted) < modes.len() {
        place_by_key(modes, wanted)
    } else {
        0
    }
}

fn find_by_id(modes: &Vec<Mode>, id: &str) -> (r: usize)
    ensures
        r == place_by_id(modes.deep_view(), id@),
        r <= modes.len(),
{
    let ghost all = modes.deep_view();
    let mut i: usize = 0;
    assert(all.skip(0) =~= all);
    while i < modes.len()
        invariant
            i <= modes.len(),
            all == modes.deep_view(),
            all.len() == modes.len(),
            i + place_by_id(all.skip(i as int), id@) == place_by_id(all, id@),
        decreases modes.len() - i,
    {
        proof {
            assert(all.skip(i as int)[0] == modes@[i as int].deep_view());
            assert(all.skip(i as int).drop_first() =~= all.skip(i + 1));
        }
        if same(modes[i].id.as_str(), id) {
            return i;
        }
        i = i + 1;
    }
    i
}

fn find_by_key(modes: &Vec<Mode>, wanted: &Mode) -> (r: usize)
    ensures
        r == place_by_key(modes.deep_view(), wanted.deep_view()),
        r <= modes.len(),
{
    let ghost all = modes.deep_view();
    let ghost goal = wanted.deep_view();
    let label = wanted.refresh_label();
    let mut i: usize = 0;
    assert(all.skip(0) =~= all);
    while i < modes.len()
        invariant
            i <= modes.len(),
            all == modes.deep_view(),
            all.len() == modes.len(),
            goal == wanted.deep_view(),
            label@ == rate_label(goal.refresh),
            i + place_by_key(all.skip(i as int), goal) == place_by_key(all, goal),
        decreases modes.len() - i,
    {
        let m = &modes[i];
        proof {
            assert(all.skip(i as int)[0] == m.deep_view());
            assert(all.skip(i as int).drop_first() =~= all.skip(i + 1));
        }
        if m.width == wanted.width && m.height == wanted.height && m.refresh_label() == label {
            return i;
        }
        i = i + 1;
    }
    i
}

/// What the menu of rates shows, and where it stands.
#[derive(Debug)]
pub struct RateMenu {
    pub labels: Vec<String>,
    pub selected: usize,
}

/// The menu of rates for one of the groups. Where no mode is wanted it stands on the fastest,
/// which is what someone opening this window is usually after. `None` stands for a menu
/// without entries.
pub fn fill_refresh(
    groups: &Vec<ResolutionGroup>,
    group_index: usize,
    wanted: Option<&Mode>,
) -> (r: Option<RateMenu>)
    ensures
        match r {
            Some(menu) => {
                &&& group_index < groups.len()
                &&& menu.labels.deep_view()
                    == groups.deep_view()[group_index as int].modes.map_values(
                    |m: ModeView| rate_text(m),
                )
                &&& menu.selected == match wanted {
                    Some(mode) => position_of(
                        groups.deep_view()[group_index as int].modes,
                        mode.deep_view(),
                    ),
                    None => 0,
                }
            },
            None => group_index >= groups.len(),
        },
{
    if group_index >= groups.len() {
        return None;
    }
    let modes = &groups[group_index].modes;
    let ghost all = modes.deep_view();
    assert(groups.deep_view()[group_index as int].modes == all);
    let mut labels: Vec<String> = Vec::new();
    let mut i: usize = 0;
    while i < modes.len()
        invariant
            i <= modes.len(),
            all == modes.deep_view(),
            all.len() == modes.len(),
            labels.deep_view() == all.take(i as int).map_values(|m: ModeView| rate_text(m)),
        decreases modes.len() - i,
    {
        let ghost before = labels.deep_view();
        let m = &modes[i];
        let mut text = m.refresh_label();
        text.append(
            if m.current {
                "  (current)"
            } else {
                ""
            },
        );
        labels.push(text);
        assert(all[i as int] == m.deep_view());
        i = i + 1;
        assert(labels.deep_view() =~= before.push(text@));
        assert(labels.deep_view() =~= all.take(i as int).map_values(|m: ModeView| rate_text(m)));
    }
    assert(all.take(i as int) =~= all);
    let selected: usize = match wanted {
        Some(mode) => {
            let by_id = find_by_id(modes, mode.id.as_str());
            let by_key = find_by_key(modes, mode);
            if by_id < modes.len() {
                by_id
            } else if by_key < modes.len() {
                by_key
            } else {
                0
            }
        },
        None => 0,
    };
    Some(RateMenu { labels, selected })
}

/// The mode that a row starts out on: the one of the rule, or else whatever the display is
/// doing right now, so enabling the row without touching anything else is a no-op rather
/// than a surprise.
pub open spec fn starting_mode(o: OutputView, rule: Option<OutputRuleView>) -> Option<int> {
    let ruled = match rule {
        Some(r) => match r.mode {
            Some(wanted) => o.resolved(wanted),
            None => None,
        },
        None => None,
    };
    if ruled is Some {
        ruled
    } else {
        match o.current_mode {
            Some(current) => o.resolved(current),
            None => None,
        }
    }
}

/// What a row of the page starts out as.
#[derive(Debug)]
pub struct Row {
    pub groups: Vec<ResolutionGroup>,
    /// Whether the row is ticked.
    pub active: bool,
    /// Whether it can be ticked at all.
    pub sensitive: bool,
    pub resolution: usize,
    pub refresh: usize,
}

pub struct RowView {
    pub groups: Seq<GroupView>,
    pub active: bool,
    pub sensitive: bool,
    pub resolution: int,
    pub refresh: int,
}

impl DeepView for Row {
    type V = RowView;

    open spec fn deep_view(&self) -> RowView {
        RowView {
            groups: self.groups.deep_view(),
            active: self.active,
            sensitive: self.sensitive,
            resolution: self.resolution as int,
            refresh: self.refresh as int,
        }
    }
}

pub open spec fn starting_row(o: OutputView, rule: Option<OutputRuleView>) -> RowView {
    let groups = menus(o);
    let mode = starting_mode(o, rule);
    let at = match mode {
        Some(m) => group_at(groups, o.modes[m].width, o.modes[m].height),
        None => 0,
    };
    let resolution = if at < groups.len() {
        at
    } else {
        0
    };
    RowView {
        groups,
        active: rule is Some && rule->Some_0.mode is Some,
        sensitive: groups.len() > 0,
        resolution,
        refresh: if mode is Some && resolution < groups.len() {
            position_of(groups[resolution].modes, o.modes[mode->Some_0])
        } else {
            0
        },
    }
}

impl Row {
    /// The row for a display and the rule that drives it.
    pub fn build(output: &Output, rule: Option<&OutputRule>) -> (r: Self)
        ensures
            r.deep_view() == starting_row(
                output.deep_view(),
                match rule {
                    Some(rule) => Some(rule.deep_view()),
                    None => None,
                },
            ),
    {
        let ghost o = output.deep_view();
        let groups = group_modes(output);
        let ghost gs = groups.deep_view();
        assert(gs.len() == groups.len());
        let ruled: Option<&Mode> = match rule {
            Some(rule) => match &rule.mode {
                Some(wanted) => output.resolve_mode(wanted.as_str()),
                None => None,
            },
            None => None,
        };
        let selected: Option<&Mode> = match ruled {
            Some(mode) => Some(mode),
            None => match &output.current_mode {
                Some(current) => output.resolve_mode(current.as_str()),
                None => None,
            },
        };
        let at: usize = match selected {
            Some(mode) => find_group(&groups, mode.width, mode.height),
            None => 0,
        };
        let resolution: usize = if at < groups.len() {
            at
        } else {
            0
        };
        let refresh: usize = match fill_refresh(&groups, resolution, selected) {
            Some(menu) => menu.selected,
            None => 0,
        };
        let active = match rule {
            Some(rule) => rule.mode.is_some(),
            None => false,
        };
        Row { sensitive: groups.len() > 0, groups, active, resolution, refresh }
    }
}

/// The rule that a row stands for: none where the display is to be left alone.
pub open spec fn row_rule(
    o: OutputView,
    groups: Seq<GroupView>,
    active: bool,
    resolution: int,
    refresh: int,
) -> Option<OutputRuleView> {
    if active && 0 <= resolution < groups.len() && 0 <= refresh < groups[resolution].modes.len() {
        Some(
            OutputRuleView {
                matcher: o.matcher(),
                mode: Some(groups[resolution].modes[refresh].id),
            },
        )
    } else {
        None
    }
}

/// Reads a row back. `None` when the display is set to be left alone.
pub fn collect_row(
    output: &Output,
    groups: &Vec<ResolutionGroup>,
    active: bool,
    resolution: usize,
    refresh: usize,
) -> (r: Option<OutputRule>)
    ensures
        r.deep_view() == row_rule(
            output.deep_view(),
            groups.deep_view(),
            active,
            resolution as int,
            refresh as int,
        ),
{
    if !active || resolution >= groups.len() {
        return None;
    }
    let g = &groups[resolution];
    assert(groups.deep_view()[resolution as int] == g.deep_view());
    if refresh >= g.modes.len() {
        return None;
    }
    assert(g.modes.deep_view()[refresh as int] == g.modes@[refresh as int].deep_view());
    Some(OutputRule { matcher: output.matcher(), mode: Some(g.modes[refresh].id.clone()) })
}

/// The names in the menu of power profiles.
pub open spec fn profile_menu(power_profiles: Seq<Seq<char>>) -> Seq<Seq<char>> {
    seq![LEAVE_UNCHANGED@] + power_profiles
}

pub fn profile_names(power_profiles: &Vec<String>) -> (r: Vec<String>)
    ensures
        r.deep_view() == profile_menu(power_profiles.deep_view()),
{
    let ghost all = power_profiles.deep_view();
    let mut names: Vec<String> = Vec::new();
    names.push(LEAVE_UNCHANGED.to_string());
    let mut i: usize = 0;
    assert(names.deep_view() =~= seq![LEAVE_UNCHANGED@] + all.take(0));
    while i < power_profiles.len()
        invariant
            i <= power_profiles.len(),
            all == power_profiles.deep_view(),
            all.len() == power_profiles.len(),
            names.deep_view() == seq![LEAVE_UNCHANGED@] + all.take(i as int),
        decreases power_profiles.len() - i,
    {
        let ghost before = names.deep_view();
        let name = power_profiles[i].clone();
        names.push(name);
        assert(all[i as int] == power_profiles@[i as int]@);
        i = i + 1;
        assert(names.deep_view() =~= before.push(name@));
        assert(names.deep_view() =~= seq![LEAVE_UNCHANGED@] + all.take(i as int));
    }
    assert(all.take(i as int) =~= all);
    names
}

/// The first of the names, from `i` on, that is this one; zero where there is none.
pub open spec fn name_at(names: Seq<Seq<char>>, name: Seq<char>, i: int) -> int
    decreases names.len() - i,
{
    if i < 0 || i >= names.len() {
        0
    } else if names[i] == name {
        i
    } else {
        name_at(names, name, i + 1)
    }
}

/// Where the menu of power profiles starts out.
pub fn selected_profile(names: &Vec<String>, wanted: &Option<String>) -> (r: usize)
    ensures
        r == (match wanted {
            Some(name) => name_at(names.deep_view(), name@, 0),
            None => 0,
        }),
{
    let ghost all = names.deep_view();
    let name = match wanted {
        Some(name) => name,
        None => {
            return 0;
        },
    };
    let mut i: usize = 0;
    while i < names.len()
        invariant
            i <= names.len(),
            all == names.deep_view(),
            all.len() == names.len(),
            *wanted == Some(*name),
            name_at(all, name@, i as int) == name_at(all, name@, 0),
        decreases names.len() - i,
    {
        assert(all[i as int] == names@[i as int]@);
        if same(names[i].as_str(), name.as_str()) {
            return i;
        }
        i = i + 1;
    }
    0
}

/// A hyphen or an underscore becomes a space.
pub open spec fn spaced_char(c: char) -> char {
    if c == '-' || c == '_' {
        ' '
    } else {
        c
    }
}

pub open spec fn upper_char(c: char) -> char {
    if 'a' <= c && c <= 'z' {
        ((c as u32) - 32) as char
    } else {
        c
    }
}

/// A name with spaces for hyphens, and a capital letter where it starts with a letter.
pub open spec fn in_title(name: Seq<char>) -> Seq<char> {
    Seq::new(
        name.len(),
        |i: int|
            if i == 0 {
                upper_char(spaced_char(name[i]))
            } else {
                spaced_char(name[i])
            },
    )
}

pub open spec fn pretty_text(name: Seq<char>) -> Seq<char> {
    if name == LEAVE_UNCHANGED@ {
        name
    } else if name == "power-saver"@ {
        "Power saver"@
    } else if name == "balanced"@ {
        "Balanced"@
    } else if name == "balanced-performance"@ {
        "Balanced performance"@
    } else if name == "performance"@ {
        "Performance"@
    } else {
        in_title(name)
    }
}

/// What to call a power profile in front of the user.
pub fn pretty_profile(name: &str) -> (r: String)
    ensures
        r@ == pretty_text(name@),
{
    if same(name, LEAVE_UNCHANGED) {
        return name.to_string();
    }
    if same(name, "power-saver") {
        return "Power saver".to_string();
    }
    if same(name, "balanced") {
        return "Balanced".to_string();
    }
    if same(name, "balanced-performance") {
        return "Balanced performance".to_string();
    }
    if same(name, "performance") {
        return "Performance".to_string();
    }
    let chars = chars_of(name);
    let mut out = String::new();
    let mut i: usize = 0;
    assert(out@ =~= in_title(name@).take(0));
    while i < chars.len()
        invariant
            chars@ == name@,
            i <= chars.len(),
            out@ == in_title(name@).take(i as int),
        decreases chars.len() - i,
    {
        let c = chars[i];
        let spaced = if c == '-' || c == '_' {
            ' '
        } else {
            c
        };
        let shown = if i == 0 && 'a' <= spaced && spaced <= 'z' {
            ((spaced as u8) - 32) as char
        } else {
            spaced
        };
        out.push(shown);
        i = i + 1;
        assert(out@ =~= in_title(name@).take(i as int));
    }
    assert(in_title(name@).take(i as int) =~= in_title(name@));
    out
}

/// The rules that the rows stand for, in order.
pub open spec fn ticked(rows: Seq<Option<OutputRuleView>>) -> Seq<OutputRuleView>
    decreases rows.len(),
{
    if rows.len() == 0 {
        Seq::empty()
    } else {
        let before = ticked(rows.drop_last());
        match rows.last() {
            Some(rule) => before.push(rule),
            None => before,
        }
    }
}

/// The rules that no row shows, because their displays are not there or another rule has
/// claimed them.
pub open spec fn unshown(rules: Seq<OutputRuleView>, outputs: Seq<OutputView>) -> Seq<OutputRuleView> {
    idle(drivers(rules, outputs), rules.len()).map_values(|r: int| rules[r])
}

/// The profile that a page stands for.
pub open spec fn page_profile(
    names: Seq<Seq<char>>,
    selected: int,
    persist: bool,
    rows: Seq<Option<OutputRuleView>>,
    rules: Seq<OutputRuleView>,
    outputs: Seq<OutputView>,
) -> ProfileView {
    ProfileView {
        power_profile: if 0 < selected < names.len() {
            Some(names[selected])
        } else {
            None
        },
        persist_display_config: persist,
        outputs: ticked(rows) + unshown(rules, outputs),
    }
}

fn push_unshown(list: &mut Vec<OutputRule>, rules: &Vec<OutputRule>, outputs: &Vec<Output>)
    ensures
        final(list).deep_view() == old(list).deep_view() + unshown(
            rules.deep_view(),
            outputs.deep_view(),
        ),
{
    let rule_slice = rules.as_slice();
    let output_slice = outputs.as_slice();
    assert(rule_slice.deep_view() =~= rules.deep_view());
    assert(output_slice.deep_view() =~= outputs.deep_view());
    let assignment = assign_rules(rule_slice, output_slice);
    let left = assignment.unassigned(rules.len());
    let ghost all = rules.deep_view();
    let ghost want = unshown(all, outputs.deep_view());
    let ghost before = list.deep_view();
    let ghost at = idle(assignment.bound(), all.len());
    proof {
        assert(all.len() == rules.len());
        lemma_idle(assignment.bound(), all.len());
        assert(left@.map_values(|i: usize| i as int) == at);
        assert(at.len() == left@.len());
    }
    let mut i: usize = 0;
    assert(list.deep_view() =~= before + want.take(0));
    while i < left.len()
        invariant
            i <= left.len(),
            all == rules.deep_view(),
            all.len() == rules.len(),
            want == at.map_values(|r: int| all[r]),
            left@.map_values(|i: usize| i as int) == at,
            forall|r: int| #[trigger] at.contains(r) ==> 0 <= r < all.len(),
            list.deep_view() == before + want.take(i as int),
        decreases left.len() - i,
    {
        let ghost now = list.deep_view();
        let r = left[i];
        proof {
            assert(at[i as int] == left@.map_values(|i: usize| i as int)[i as int]);
            assert(at[i as int] == r);
            assert(at.contains(r as int));
        }
        let rule = rules[r].clone();
        list.push(rule);
        assert(all[r as int] == rule.deep_view());
        i = i + 1;
        assert(list.deep_view() =~= now.push(rule.deep_view()));
        assert(list.deep_view() =~= before + want.take(i as int));
    }
    assert(want.take(i as int) =~= want);
}

/// Reads a page back into a profile. The rules that no row shows are kept, so unplugging a
/// monitor and saving does not erase its settings.
pub fn collect_page(
    names: &Vec<String>,
    selected: usize,
    persist: bool,
    rows: &Vec<Option<OutputRule>>,
    rules: &Vec<OutputRule>,
    outputs: &Vec<Output>,
) -> (r: Profile)
    ensures
        r.deep_view() == page_profile(
            names.deep_view(),
            selected as int,
            persist,
            rows.deep_view(),
            rules.deep_view(),
            outputs.deep_view(),
        ),
{
    let power_profile: Option<String> = if 0 < selected && selected < names.len() {
        assert(names.deep_view()[selected as int] == names@[selected as int]@);
        Some(names[selected].clone())
    } else {
        None
    };
    let ghost all = rows.deep_view();
    let mut list: Vec<OutputRule> = Vec::new();
    let mut i: usize = 0;
    assert(list.deep_view() =~= Seq::<OutputRuleView>::empty());
    while i < rows.len()
        invariant
            i <= rows.len(),
            all == rows.deep_view(),
            all.len() == rows.len(),
            list.deep_view() == ticked(all.take(i as int)),
        decreases rows.len() - i,
    {
        let ghost before = list.deep_view();
        proof {
            assert(all.take(i + 1).drop_last() =~= all.take(i as int));
            assert(all.take(i + 1).last() == rows@[i as int].deep_view());
        }
        if let Some(rule) = &rows[i] {
            let copy = rule.clone();
            list.push(copy);
            assert(list.deep_view() =~= before.push(copy.deep_view()));
        }
        i = i + 1;
    }
    assert(all.take(i as int) =~= all);
    push_unshown(&mut list, rules, outputs);
    Profile { power_profile, persist_display_config: persist, outputs: list }
}

/// Builds the rows of a page. Each display is shown with the rule that drives it, so the
/// window and the daemon never differ on whose rule is whose.
pub fn build_rows(rules: &Vec<OutputRule>, outputs: &Vec<Output>) -> (r: Vec<Row>)
    ensures
        r.len() == outputs.len(),
        forall|o: int|
            0 <= o < outputs.len() ==> (#[trigger] r@[o]).deep_view() == starting_row(
                outputs.deep_view()[o],
                match driver(rules.deep_view(), outputs.deep_view(), o) {
                    Some(k) => Some(rules.deep_view()[k]),
                    None => None,
                },
            ),
{
    let rule_slice = rules.as_slice();
    let output_slice = outputs.as_slice();
    assert(rule_slice.deep_view() =~= rules.deep_view());
    assert(output_slice.deep_view() =~= outputs.deep_view());
    let assignment = assign_rules(rule_slice, output_slice);
    let ghost all = rules.deep_view();
    let ghost shown = outputs.deep_view();
    let mut rows: Vec<Row> = Vec::new();
    let mut i: usize = 0;
    while i < outputs.len()
        invariant
            i <= outputs.len(),
            all == rules.deep_view(),
            all.len() == rules.len(),
            rule_slice@ == rules@,
            shown == outputs.deep_view(),
            shown.len() == outputs.len(),
            assignment.bound() == drivers(all, shown),
            rows.len() == i,
            forall|o: int|
                0 <= o < i ==> (#[trigger] rows@[o]).deep_view() == starting_row(
                    shown[o],
                    match driver(all, shown, o) {
                        Some(k) => Some(all[k]),
                        None => None,
                    },
                ),
        decreases outputs.len() - i,
    {
        proof {
            lemma_driver(all, shown, i as int);
            assert(assignment.bound()[i as int] == driver(all, shown, i as int));
            assert(assignment.bound().len() == assignment.by_output.len());
            assert(shown[i as int] == outputs@[i as int].deep_view());
        }
        let rule = assignment.rule_for(i, rule_slice);
        proof {
            if let Some(k) = driver(all, shown, i as int) {
                assert(all[k] == rules@[k].deep_view());
            }
        }
        rows.push(Row::build(&outputs[i], rule));
        i = i + 1;
    }
    rows
}

proof fn lemma_largest_first(groups: Seq<GroupView>)
    ensures
        largest_first(groups).len() == groups.len(),
        forall|i: int, j: int|
            0 <= i < j < groups.len() ==> area(#[trigger] largest_first(groups)[i]) >= area(
                #[trigger] largest_first(groups)[j],
            ),
        largest_first(groups).to_multiset() == groups.to_multiset(),
    decreases groups.len(),
{
    if groups.len() > 0 {
        let front = groups.drop_last();
        let g = groups.last();
        let before = largest_first(front);
        lemma_largest_first(front);
        lemma_area_found(before, area(g));
        let at = area_place(before, area(g));
        let now = largest_first(groups);
        assert forall|i: int, j: int| 0 <= i < j < groups.len() implies area(#[trigger] now[i])
            >= area(#[trigger] now[j]) by {
            if at < before.len() {
                assert(area(before[at]) < area(g));
            }
            if i < at {
                assert(now[i] == before[i]);
            }
            if i > at {
                assert(now[i] == before[i - 1]);
            }
            if j < at {
                assert(now[j] == before[j]);
            }
            if j > at {
                assert(now[j] == before[j - 1]);
                if i == at && j - 1 > at {
                    assert(area(before[at]) >= area(before[j - 1]));
                }
            }
        }
        vstd::seq_lib::to_multiset_insert(before, at, g);
        vstd::seq_lib::to_multiset_build(front, g);
        assert(front.push(g) =~= groups);
    } else {
        assert(groups =~= Seq::<GroupView>::empty());
        assert(largest_first(groups) =~= groups);
    }
}

proof fn lemma_fastest_first(modes: Seq<ModeView>)
    ensures
        fastest_first(modes).len() == modes.len(),
        forall|i: int, j: int|
            0 <= i < j < modes.len() ==> (#[trigger] fastest_first(modes)[i]).refresh.order()
                >= (#[trigger] fastest_first(modes)[j]).refresh.order(),
        fastest_first(modes).to_multiset() == modes.to_multiset(),
    decreases modes.len(),
{
    if modes.len() > 0 {
        let front = modes.drop_last();
        let m = modes.last();
        let before = fastest_first(front);
        lemma_fastest_first(front);
        lemma_rate_found(before, m.refresh);
        let at = rate_place(before, m.refresh);
        let now = fastest_first(modes);
        assert forall|i: int, j: int| 0 <= i < j < modes.len() implies (
        #[trigger] now[i]).refresh.order() >= (#[trigger] now[j]).refresh.order() by {
            if at < before.len() {
                assert(before[at].refresh.order() < m.refresh.order());
            }
            if i < at {
                assert(now[i] == before[i]);
            }
            if i > at {
                assert(now[i] == before[i - 1]);
            }
            if j < at {
                assert(now[j] == before[j]);
            }
            if j > at {
                assert(now[j] == before[j - 1]);
                if i == at && j - 1 > at {
                    assert(before[at].refresh.order() >= before[j - 1].refresh.order());
                }
            }
        }
        vstd::seq_lib::to_multiset_insert(before, at, m);
        vstd::seq_lib::to_multiset_build(front, m);
        assert(front.push(m) =~= modes);
    } else {
        assert(modes =~= Seq::<ModeView>::empty());
        assert(fastest_first(modes) =~= modes);
    }
}

/// The menu of resolutions starts with the largest.
pub proof fn law_largest_resolution_first(o: OutputView, i: int, j: int)
    requires
        0 <= i < j < menus(o).len(),
    ensures
        area(menus(o)[i]) >= area(menus(o)[j]),
{
    let groups = grouped(chosen(o.modes, distinct(o.modes)));
    lemma_largest_first(groups);
    let sorted = largest_first(groups);
    assert(area(sorted[i]) >= area(sorted[j]));
}

/// The menu of rates starts with the fastest, whichever resolution it is for.
pub proof fn law_fastest_rate_first(o: OutputView, g: int, i: int, j: int)
    requires
        0 <= g < menus(o).len(),
        0 <= i < j < menus(o)[g].modes.len(),
    ensures
        menus(o)[g].modes[i].refresh.order() >= menus(o)[g].modes[j].refresh.order(),
{
    let sorted = largest_first(grouped(chosen(o.modes, distinct(o.modes))));
    lemma_fastest_first(sorted[g].modes);
    let modes = fastest_first(sorted[g].modes);
    assert(modes[i].refresh.order() >= modes[j].refresh.order());
}

proof fn lemma_grouped(modes: Seq<ModeView>, k: int)
    requires
        0 <= k < modes.len(),
    ensures
        exists|g: int|
            0 <= g < grouped(modes).len() && (#[trigger] grouped(modes)[g]).width == modes[k].width
                && grouped(modes)[g].height == modes[k].height && grouped(modes)[g].modes.contains(
                modes[k],
            ),
    decreases modes.len(),
{
    let front = modes.drop_last();
    let before = grouped(front);
    let m = modes.last();
    let at = group_at(before, m.width, m.height);
    lemma_group_found(before, m.width, m.height);
    let now = grouped(modes);
    if k == modes.len() - 1 {
        if at < before.len() {
            let list = now[at].modes;
            assert(list[list.len() - 1] == m);
            assert(list.contains(m));
            assert(now[at].width == m.width);
        } else {
            assert(now[before.len() as int].modes[0] == m);
            assert(now[before.len() as int].modes.contains(m));
        }
    } else {
        assert(front[k] == modes[k]);
        lemma_grouped(front, k);
        let g = choose|g: int|
            0 <= g < before.len() && (#[trigger] before[g]).width == modes[k].width
                && before[g].height == modes[k].height && before[g].modes.contains(modes[k]);
        let i = choose|i: int| 0 <= i < before[g].modes.len() && before[g].modes[i] == modes[k];
        assert(now[g].modes[i] == modes[k]);
        assert(now[g].modes.contains(modes[k]));
        assert(now[g].width == modes[k].width);
    }
}

/// Every mode that no other one stands for can be picked in the menus.
pub proof fn law_menus_offer_every_mode(o: OutputView, k: int)
    requires
        0 <= k < distinct(o.modes).len(),
    ensures
        exists|g: int|
            0 <= g < menus(o).len() && (#[trigger] menus(o)[g]).modes.contains(
                o.modes[distinct(o.modes)[k]],
            ) && menus(o)[g].width == o.modes[distinct(o.modes)[k]].width && menus(o)[g].height
                == o.modes[distinct(o.modes)[k]].height,
{
    let listed = chosen(o.modes, distinct(o.modes));
    let m = listed[k];
    let groups = grouped(listed);
    lemma_grouped(listed, k);
    let g = choose|g: int|
        0 <= g < groups.len() && (#[trigger] groups[g]).width == m.width && groups[g].height
            == m.height && groups[g].modes.contains(m);
    lemma_largest_first(groups);
    let sorted = largest_first(groups);
    assert(groups.contains(groups[g]));
    vstd::seq_lib::to_multiset_contains(groups, groups[g]);
    vstd::seq_lib::to_multiset_contains(sorted, groups[g]);
    let at = choose|at: int| 0 <= at < sorted.len() && sorted[at] == groups[g];
    lemma_fastest_first(sorted[at].modes);
    vstd::seq_lib::to_multiset_contains(sorted[at].modes, m);
    vstd::seq_lib::to_multiset_contains(fastest_first(sorted[at].modes), m);
    assert(menus(o)[at].modes == fastest_first(sorted[at].modes));
    assert(menus(o)[at].modes.contains(m));
}

proof fn lemma_position(modes: Seq<ModeView>, wanted: ModeView)
    ensures
        0 <= place_by_id(modes, wanted.id) <= modes.len(),
        place_by_id(modes, wanted.id) < modes.len() ==> modes[place_by_id(
            modes,
            wanted.id,
        )].id == wanted.id,
        0 <= place_by_key(modes, wanted) <= modes.len(),
        place_by_key(modes, wanted) < modes.len() ==> menu_key(modes[place_by_key(modes, wanted)])
            == menu_key(wanted),
        forall|k: int| 0 <= k < modes.len() && (#[trigger] modes[k]).id == wanted.id ==> place_by_id(
            modes,
            wanted.id,
        ) <= k,
        forall|k: int|
            0 <= k < modes.len() && menu_key(#[trigger] modes[k]) == menu_key(wanted)
                ==> place_by_key(modes, wanted) <= k,
    decreases modes.len(),
{
    if modes.len() > 0 {
        let rest = modes.drop_first();
        lemma_position(rest, wanted);
        assert forall|k: int|
            0 <= k < modes.len() && (#[trigger] modes[k]).id == wanted.id implies place_by_id(
            modes,
            wanted.id,
        ) <= k by {
            if k > 0 {
                assert(modes[k] == rest[k - 1]);
            }
        }
        assert forall|k: int|
            0 <= k < modes.len() && menu_key(#[trigger] modes[k]) == menu_key(
                wanted,
            ) implies place_by_key(modes, wanted) <= k by {
            if k > 0 {
                assert(modes[k] == rest[k - 1]);
            }
        }
    }
}

spec fn sizes_differ(groups: Seq<GroupView>) -> bool {
    forall|i: int, j: int|
        0 <= i < j < groups.len() ==> !((#[trigger] groups[i]).width == (
        #[trigger] groups[j]).width && groups[i].height == groups[j].height)
}

proof fn lemma_grouped_sizes_differ(modes: Seq<ModeView>)
    ensures
        sizes_differ(grouped(modes)),
    decreases modes.len(),
{
    if modes.len() > 0 {
        let before = grouped(modes.drop_last());
        let m = modes.last();
        lemma_grouped_sizes_differ(modes.drop_last());
        lemma_group_found(before, m.width, m.height);
    }
}

proof fn lemma_sorted_sizes_differ(groups: Seq<GroupView>)
    requires
        sizes_differ(groups),
    ensures
        sizes_differ(largest_first(groups)),
    decreases groups.len(),
{
    if groups.len() > 0 {
        let front = groups.drop_last();
        let g = groups.last();
        let before = largest_first(front);
        assert(sizes_differ(front)) by {
            assert forall|i: int, j: int| 0 <= i < j < front.len() implies !((
            #[trigger] front[i]).width == (#[trigger] front[j]).width && front[i].height
                == front[j].height) by {
                assert(front[i] == groups[i] && front[j] == groups[j]);
            }
        }
        lemma_sorted_sizes_differ(front);
        lemma_largest_first(front);
        lemma_area_found(before, area(g));
        let at = area_place(before, area(g));
        let now = largest_first(groups);
        assert forall|j: int| 0 <= j < before.len() implies !((#[trigger] before[j]).width
            == g.width && before[j].height == g.height) by {
            assert(before.contains(before[j]));
            vstd::seq_lib::to_multiset_contains(before, before[j]);
            vstd::seq_lib::to_multiset_contains(front, before[j]);
            let k = choose|k: int| 0 <= k < front.len() && front[k] == before[j];
            assert(groups[k] == before[j] && groups[groups.len() - 1] == g);
        }
        assert forall|i: int, j: int| 0 <= i < j < now.len() implies !((#[trigger] now[i]).width
            == (#[trigger] now[j]).width && now[i].height == now[j].height) by {
            if i < at {
                assert(now[i] == before[i]);
            }
            if i > at {
                assert(now[i] == before[i - 1]);
            }
            if j < at {
                assert(now[j] == before[j]);
            }
            if j > at {
                assert(now[j] == before[j - 1]);
            }
        }
    }
}

proof fn lemma_digits_in_front(a: Seq<char>, x: Seq<char>, b: Seq<char>, y: Seq<char>)
    requires
        all_digits(a),
        all_digits(b),
        a + x == b + y,
        x.len() > 0 ==> !is_digit(x[0]),
        y.len() > 0 ==> !is_digit(y[0]),
    ensures
        a == b,
        x == y,
{
    let s = a + x;
    if a.len() < b.len() {
        assert(is_digit(b[a.len() as int]));
        assert(s[a.len() as int] == b[a.len() as int]);
        assert(x.len() > 0 && s[a.len() as int] == x[0]);
    }
    if b.len() < a.len() {
        assert(is_digit(a[b.len() as int]));
        assert(s[b.len() as int] == a[b.len() as int]);
        assert(y.len() > 0 && s[b.len() as int] == y[0]);
    }
    assert(s.take(a.len() as int) =~= a);
    assert(s.take(b.len() as int) =~= b);
    assert(s.skip(a.len() as int) =~= x);
    assert(s.skip(b.len() as int) =~= y);
}

/// No two entries of a menu of resolutions read the same.
pub proof fn law_resolution_entries_read_differently(o: OutputView, i: int, j: int)
    requires
        0 <= i < j < menus(o).len(),
    ensures
        resolution_text(menus(o)[i]) != resolution_text(menus(o)[j]),
{
    reveal_strlit(" × ");
    reveal_strlit("  (native)");
    reveal_strlit("");
    let list = chosen(o.modes, distinct(o.modes));
    lemma_grouped_sizes_differ(list);
    lemma_sorted_sizes_differ(grouped(list));
    let sorted = largest_first(grouped(list));
    let (a, b) = (menus(o)[i], menus(o)[j]);
    assert(a.width == sorted[i].width && b.width == sorted[j].width);
    assert(a.height == sorted[i].height && b.height == sorted[j].height);
    if resolution_text(a) == resolution_text(b) {
        lemma_decimal(a.width as nat);
        lemma_decimal(b.width as nat);
        lemma_decimal(a.height as nat);
        lemma_decimal(b.height as nat);
        let (x, y) = (remark(a), remark(b));
        let (p, q) = (" × "@ + (decimal(a.height as nat) + x), " × "@ + (decimal(
            b.height as nat,
        ) + y));
        assert(resolution_text(a) =~= decimal(a.width as nat) + p);
        assert(resolution_text(b) =~= decimal(b.width as nat) + q);
        lemma_digits_in_front(decimal(a.width as nat), p, decimal(b.width as nat), q);
        assert(p.skip(3) =~= decimal(a.height as nat) + x);
        assert(q.skip(3) =~= decimal(b.height as nat) + y);
        lemma_digits_in_front(decimal(a.height as nat), x, decimal(b.height as nat), y);
    }
}

/// The entry of its two menus that a row stands on.
pub open spec fn entry_of(row: RowView) -> ModeView {
    row.groups[row.resolution].modes[row.refresh]
}

proof fn lemma_starting_entry(o: OutputView, rule: Option<OutputRuleView>)
    requires
        starting_mode(o, rule) is Some,
    ensures
        ({
            let row = starting_row(o, rule);
            let m = o.modes[starting_mode(o, rule)->Some_0];
            &&& 0 <= starting_mode(o, rule)->Some_0 < o.modes.len()
            &&& 0 <= row.resolution < row.groups.len()
            &&& 0 <= row.refresh < row.groups[row.resolution].modes.len()
            &&& entry_of(row).id == m.id || menu_key(entry_of(row)) == menu_key(m)
            &&& !hidden(o.modes, starting_mode(o, rule)->Some_0) ==> entry_of(row).id == m.id
        }),
{
    let s = starting_mode(o, rule)->Some_0;
    let m = o.modes[s];
    if let Some(r) = rule {
        if let Some(wanted) = r.mode {
            law_found_mode_is_the_closest(o, wanted);
        }
    }
    if let Some(current) = o.current_mode {
        law_found_mode_is_the_closest(o, current);
    }
    lemma_distinct(o.modes);
    law_menu_leaves_no_mode_out(o.modes, s);
    let k = if hidden(o.modes, s) {
        choose|k: int|
            0 <= k < distinct(o.modes).len() && menu_key(o.modes[#[trigger] distinct(o.modes)[k]])
                == menu_key(m)
    } else {
        assert(distinct(o.modes).contains(s));
        choose|k: int| 0 <= k < distinct(o.modes).len() && distinct(o.modes)[k] == s
    };
    let shown = o.modes[distinct(o.modes)[k]];
    law_menus_offer_every_mode(o, k);
    let groups = menus(o);
    let g = choose|g: int|
        0 <= g < groups.len() && (#[trigger] groups[g]).modes.contains(shown) && groups[g].width
            == shown.width && groups[g].height == shown.height;
    let unsorted = grouped(chosen(o.modes, distinct(o.modes)));
    lemma_grouped_sizes_differ(chosen(o.modes, distinct(o.modes)));
    lemma_sorted_sizes_differ(unsorted);
    assert forall|j: int| 0 <= j < g implies !((#[trigger] groups[j]).width == m.width
        && groups[j].height == m.height) by {
        let sorted = largest_first(unsorted);
        assert(groups[j].width == sorted[j].width && groups[j].height == sorted[j].height);
        assert(groups[g].width == sorted[g].width && groups[g].height == sorted[g].height);
    }
    lemma_group_at(groups, m.width, m.height, g);
    let at = choose|at: int| 0 <= at < groups[g].modes.len() && groups[g].modes[at] == shown;
    lemma_position(groups[g].modes, m);
    assert(menu_key(groups[g].modes[at]) == menu_key(m));
}

/// A row that is ticked and then left untouched asks for the mode it started out on, which is
/// the mode of its rule or else the one that the display is in. Where another mode stands for
/// that one in the menus, because the two read the same, it asks for that other mode.
pub proof fn law_untouched_row_keeps_its_mode(o: OutputView, rule: Option<OutputRuleView>)
    requires
        starting_mode(o, rule) is Some,
    ensures
        ({
            let row = starting_row(o, rule);
            let m = o.modes[starting_mode(o, rule)->Some_0];
            &&& row_rule(o, row.groups, true, row.resolution, row.refresh) == Some(
                OutputRuleView { matcher: o.matcher(), mode: Some(entry_of(row).id) },
            )
            &&& entry_of(row).id == m.id || menu_key(entry_of(row)) == menu_key(m)
            &&& !hidden(o.modes, starting_mode(o, rule)->Some_0) ==> entry_of(row).id == m.id
        }),
{
    lemma_starting_entry(o, rule);
}

/// The window and the daemon agree: where the daemon puts a display into a mode, the row of
/// that display is ticked, and its menus stand on that mode or on the one that stands for it
/// because the two read the same.
pub proof fn law_window_and_daemon_agree(
    rules: Seq<OutputRuleView>,
    outputs: Seq<OutputView>,
    o: int,
)
    requires
        0 <= o < outputs.len(),
        wanted_mode(rules, outputs, o) is Some,
        outputs[o].resolved(wanted_mode(rules, outputs, o)->Some_0) is Some,
    ensures
        ({
            let row = starting_row(outputs[o], Some(rules[driver(rules, outputs, o)->Some_0]));
            let at = outputs[o].resolved(wanted_mode(rules, outputs, o)->Some_0)->Some_0;
            let m = outputs[o].modes[at];
            &&& settings_for(rules, outputs, outputs.len()).contains(
                OutputSettingView { connector: outputs[o].connector, mode_id: m.id },
            )
            &&& row.active
            &&& 0 <= row.resolution < row.groups.len()
            &&& 0 <= row.refresh < row.groups[row.resolution].modes.len()
            &&& entry_of(row).id == m.id || menu_key(entry_of(row)) == menu_key(m)
            &&& !hidden(outputs[o].modes, at) ==> entry_of(row).id == m.id
        }),
{
    law_no_display_is_held_back(rules, outputs, outputs.len(), o);
    lemma_starting_entry(outputs[o], Some(rules[driver(rules, outputs, o)->Some_0]));
}

spec fn keys_differ(modes: Seq<ModeView>) -> bool {
    forall|i: int, j: int|
        0 <= i < j < modes.len() ==> menu_key(#[trigger] modes[i]) != menu_key(#[trigger] modes[j])
}

/// A group holds modes of its own size from the list, and no two that read the same.
spec fn sound_group(g: GroupView, modes: Seq<ModeView>) -> bool {
    &&& keys_differ(g.modes)
    &&& forall|i: int|
        0 <= i < g.modes.len() ==> (#[trigger] g.modes[i]).width == g.width && g.modes[i].height
            == g.height && modes.contains(g.modes[i])
}

proof fn lemma_grouped_sound(modes: Seq<ModeView>, g: int)
    requires
        keys_differ(modes),
        0 <= g < grouped(modes).len(),
    ensures
        sound_group(grouped(modes)[g], modes),
    decreases modes.len(),
{
    let front = modes.drop_last();
    let before = grouped(front);
    let m = modes.last();
    let now = grouped(modes);
    lemma_group_found(before, m.width, m.height);
    assert(modes.contains(m)) by {
        assert(modes[modes.len() - 1] == m);
    }
    assert forall|x: ModeView| front.contains(x) implies modes.contains(x) && menu_key(x)
        != menu_key(m) by {
        let k = choose|k: int| 0 <= k < front.len() && front[k] == x;
        assert(modes[k] == x && modes[modes.len() - 1] == m);
    }
    assert(keys_differ(front)) by {
        assert forall|i: int, j: int| 0 <= i < j < front.len() implies menu_key(
            #[trigger] front[i],
        ) != menu_key(#[trigger] front[j]) by {
            assert(front[i] == modes[i] && front[j] == modes[j]);
        }
    }
    if g < before.len() {
        lemma_grouped_sound(front, g);
        assert(front.contains(before[g].modes[0]) || before[g].modes.len() == 0);
        assert forall|i: int| 0 <= i < now[g].modes.len() implies (#[trigger] now[g].modes[i]).width
            == now[g].width && now[g].modes[i].height == now[g].height && modes.contains(
            now[g].modes[i],
        ) by {
            if i < before[g].modes.len() {
                assert(now[g].modes[i] == before[g].modes[i]);
                assert(front.contains(before[g].modes[i]));
            }
        }
        assert forall|i: int, j: int| 0 <= i < j < now[g].modes.len() implies menu_key(
            #[trigger] now[g].modes[i],
        ) != menu_key(#[trigger] now[g].modes[j]) by {
            assert(now[g].modes[i] == before[g].modes[i]);
            assert(front.contains(before[g].modes[i]));
            if j < before[g].modes.len() {
                assert(now[g].modes[j] == before[g].modes[j]);
            }
        }
    }
}

proof fn lemma_sorted_keys_differ(modes: Seq<ModeView>)
    requires
        keys_differ(modes),
    ensures
        keys_differ(fastest_first(modes)),
    decreases modes.len(),
{
    if modes.len() > 0 {
        let front = modes.drop_last();
        let m = modes.last();
        let before = fastest_first(front);
        assert(keys_differ(front)) by {
            assert forall|i: int, j: int| 0 <= i < j < front.len() implies menu_key(
                #[trigger] front[i],
            ) != menu_key(#[trigger] front[j]) by {
                assert(front[i] == modes[i] && front[j] == modes[j]);
            }
        }
        lemma_sorted_keys_differ(front);
        lemma_fastest_first(front);
        lemma_rate_found(before, m.refresh);
        let at = rate_place(before, m.refresh);
        let now = fastest_first(modes);
        assert forall|j: int| 0 <= j < before.len() implies menu_key(#[trigger] before[j])
            != menu_key(m) by {
            assert(before.contains(before[j]));
            vstd::seq_lib::to_multiset_contains(before, before[j]);
            vstd::seq_lib::to_multiset_contains(front, before[j]);
            let k = choose|k: int| 0 <= k < front.len() && front[k] == before[j];
            assert(modes[k] == before[j] && modes[modes.len() - 1] == m);
        }
        assert forall|i: int, j: int| 0 <= i < j < now.len() implies menu_key(#[trigger] now[i])
            != menu_key(#[trigger] now[j]) by {
            if i < at {
                assert(now[i] == before[i]);
            }
            if i > at {
                assert(now[i] == before[i - 1]);
            }
            if j < at {
                assert(now[j] == before[j]);
            }
            if j > at {
                assert(now[j] == before[j - 1]);
            }
        }
    }
}

/// Rates that are written differently are so with the remark behind them too.
proof fn lemma_rate_texts_differ(a: ModeView, b: ModeView)
    requires
        rate_label(a.refresh) != rate_label(b.refresh),
    ensures
        rate_text(a) != rate_text(b),
{
    reveal_strlit(" Hz");
    reveal_strlit("  (current)");
    reveal_strlit("");
    let (x, y) = (rate_label(a.refresh), rate_label(b.refresh));
    let (s, t) = (rate_text(a), rate_text(b));
    assert(x[x.len() - 1] == 'z' && y[y.len() - 1] == 'z');
    if s == t {
        if a.current == b.current {
            assert(x.len() == y.len());
            assert(s.take(x.len() as int) =~= x);
            assert(t.take(y.len() as int) =~= y);
        } else if a.current {
            assert(s[s.len() - 1] == ')');
            assert(t[t.len() - 1] == y[y.len() - 1]);
        } else {
            assert(t[t.len() - 1] == ')');
            assert(s[s.len() - 1] == x[x.len() - 1]);
        }
    }
}

/// No two entries of a menu of rates read the same.
pub proof fn law_rate_entries_read_differently(o: OutputView, g: int, i: int, j: int)
    requires
        0 <= g < menus(o).len(),
        0 <= i < j < menus(o)[g].modes.len(),
    ensures
        rate_text(menus(o)[g].modes[i]) != rate_text(menus(o)[g].modes[j]),
{
    let list = chosen(o.modes, distinct(o.modes));
    assert(keys_differ(list)) by {
        assert forall|a: int, b: int| 0 <= a < b < list.len() implies menu_key(#[trigger] list[a])
            != menu_key(#[trigger] list[b]) by {
            law_menu_entries_differ(o.modes, a, b);
        }
    }
    let groups = grouped(list);
    let sorted = largest_first(groups);
    lemma_largest_first(groups);
    assert(sorted.contains(sorted[g]));
    vstd::seq_lib::to_multiset_contains(sorted, sorted[g]);
    vstd::seq_lib::to_multiset_contains(groups, sorted[g]);
    let k = choose|k: int| 0 <= k < groups.len() && groups[k] == sorted[g];
    lemma_grouped_sound(list, k);
    let modes = sorted[g].modes;
    lemma_fastest_first(modes);
    lemma_sorted_keys_differ(modes);
    let (a, b) = (fastest_first(modes)[i], fastest_first(modes)[j]);
    assert(modes.contains(a) && modes.contains(b)) by {
        assert(fastest_first(modes).contains(a) && fastest_first(modes).contains(b));
        vstd::seq_lib::to_multiset_contains(fastest_first(modes), a);
        vstd::seq_lib::to_multiset_contains(fastest_first(modes), b);
        vstd::seq_lib::to_multiset_contains(modes, a);
        vstd::seq_lib::to_multiset_contains(modes, b);
    }
    let x = choose|x: int| 0 <= x < modes.len() && modes[x] == a;
    let y = choose|y: int| 0 <= y < modes.len() && modes[y] == b;
    assert(modes[x].width == modes[y].width && modes[x].height == modes[y].height);
    lemma_rate_texts_differ(a, b);
}

/// Saving keeps every rule whose display no row shows: nothing is erased because a monitor
/// is unplugged.
pub proof fn law_saving_keeps_the_rules_of_absent_displays(
    names: Seq<Seq<char>>,
    selected: int,
    persist: bool,
    rows: Seq<Option<OutputRuleView>>,
    rules: Seq<OutputRuleView>,
    outputs: Seq<OutputView>,
    r: int,
)
    requires
        0 <= r < rules.len(),
        forall|o: int| 0 <= o < outputs.len() ==> #[trigger] driver(rules, outputs, o) != Some(r),
    ensures
        page_profile(names, selected, persist, rows, rules, outputs).outputs.contains(rules[r]),
{
    let bound = drivers(rules, outputs);
    lemma_idle(bound, rules.len());
    let left = idle(bound, rules.len());
    assert(!bound.contains(Some(r))) by {
        if bound.contains(Some(r)) {
            let o = choose|o: int| 0 <= o < bound.len() && bound[o] == Some(r);
            assert(driver(rules, outputs, o) == Some(r));
        }
    }
    assert(left.contains(r));
    let k = choose|k: int| 0 <= k < left.len() && left[k] == r;
    let list = unshown(rules, outputs);
    assert(list[k] == rules[r]);
    let all = page_profile(names, selected, persist, rows, rules, outputs).outputs;
    assert(all[ticked(rows).len() + k] == rules[r]);
}

proof fn lemma_grouped_native(modes: Seq<ModeView>, g: int)
    requires
        0 <= g < grouped(modes).len(),
    ensures
        grouped(modes)[g].modes.len() > 0,
        grouped(modes)[g].preferred <==> exists|i: int|
            0 <= i < grouped(modes)[g].modes.len() && (
            #[trigger] grouped(modes)[g].modes[i]).preferred,
    decreases modes.len(),
{
    let front = modes.drop_last();
    let before = grouped(front);
    let m = modes.last();
    let now = grouped(modes);
    lemma_group_found(before, m.width, m.height);
    let at = group_at(before, m.width, m.height);
    if g < before.len() {
        lemma_grouped_native(front, g);
        let (was, is_now) = (before[g].modes, now[g].modes);
        if g == at {
            assert(is_now[was.len() as int] == m);
            assert forall|i: int| 0 <= i < was.len() implies is_now[i] == #[trigger] was[i] by {}
            if before[g].preferred {
                let i = choose|i: int| 0 <= i < was.len() && (#[trigger] was[i]).preferred;
                assert(is_now[i].preferred);
            }
        } else {
            assert(now[g] == before[g]);
        }
    } else {
        assert(now[g].modes[0] == m);
    }
}

/// A resolution is marked as native exactly where one of its modes is preferred. Every mode in
/// its menu has that resolution and is one of the display's own.
pub proof fn law_a_native_resolution_has_a_preferred_mode(o: OutputView, g: int)
    requires
        0 <= g < menus(o).len(),
    ensures
        ({
            let group = menus(o)[g];
            &&& group.modes.len() > 0
            &&& group.preferred <==> exists|i: int|
                0 <= i < group.modes.len() && (#[trigger] group.modes[i]).preferred
            &&& forall|i: int|
                0 <= i < group.modes.len() ==> (#[trigger] group.modes[i]).width == group.width
                    && group.modes[i].height == group.height && chosen(
                    o.modes,
                    distinct(o.modes),
                ).contains(group.modes[i])
        }),
{
    let list = chosen(o.modes, distinct(o.modes));
    assert(keys_differ(list)) by {
        assert forall|a: int, b: int| 0 <= a < b < list.len() implies menu_key(#[trigger] list[a])
            != menu_key(#[trigger] list[b]) by {
            law_menu_entries_differ(o.modes, a, b);
        }
    }
    let groups = grouped(list);
    let sorted = largest_first(groups);
    lemma_largest_first(groups);
    assert(sorted.contains(sorted[g]));
    vstd::seq_lib::to_multiset_contains(sorted, sorted[g]);
    vstd::seq_lib::to_multiset_contains(groups, sorted[g]);
    let k = choose|k: int| 0 <= k < groups.len() && groups[k] == sorted[g];
    lemma_grouped_sound(list, k);
    lemma_grouped_native(list, k);
    let modes = sorted[g].modes;
    let fast = fastest_first(modes);
    lemma_fastest_first(modes);
    assert(menus(o)[g].modes == fast);
    assert forall|i: int| 0 <= i < fast.len() implies modes.contains(#[trigger] fast[i]) by {
        assert(fast.contains(fast[i]));
        vstd::seq_lib::to_multiset_contains(fast, fast[i]);
        vstd::seq_lib::to_multiset_contains(modes, fast[i]);
    }
    assert forall|i: int| 0 <= i < modes.len() implies fast.contains(#[trigger] modes[i]) by {
        assert(modes.contains(modes[i]));
        vstd::seq_lib::to_multiset_contains(modes, modes[i]);
        vstd::seq_lib::to_multiset_contains(fast, modes[i]);
    }
    if exists|i: int| 0 <= i < fast.len() && (#[trigger] fast[i]).preferred {
        let i = choose|i: int| 0 <= i < fast.len() && (#[trigger] fast[i]).preferred;
        let j = choose|j: int| 0 <= j < modes.len() && modes[j] == fast[i];
        assert(groups[k].modes[j].preferred);
    }
    if exists|i: int| 0 <= i < modes.len() && (#[trigger] modes[i]).preferred {
        let i = choose|i: int| 0 <= i < modes.len() && (#[trigger] modes[i]).preferred;
        let j = choose|j: int| 0 <= j < fast.len() && fast[j] == modes[i];
        assert(fast[j].preferred);
    }
}

/// A resolution reads as its width and its height, and is remarked on where it is native. A
/// rate is remarked on where it is the current one.
pub proof fn law_how_the_menus_read(g: GroupView, m: ModeView)
    ensures
        g.preferred ==> resolution_text(g) == decimal(g.width as nat) + " × "@ + decimal(
            g.height as nat,
        ) + "  (native)"@,
        !g.preferred ==> resolution_text(g) == decimal(g.width as nat) + " × "@ + decimal(
            g.height as nat,
        ),
        m.current ==> rate_text(m) == rate_label(m.refresh) + "  (current)"@,
        !m.current ==> rate_text(m) == rate_label(m.refresh),
{
    reveal_strlit("");
    let head = decimal(g.width as nat) + " × "@ + decimal(g.height as nat);
    assert(head + ""@ =~= head);
    assert(rate_label(m.refresh) + ""@ =~= rate_label(m.refresh));
}

/// A menu of rates stands on the first entry with the id of the wanted mode, or else on the
/// first that reads the same, or else on the first of all.
pub proof fn law_where_a_menu_stands(modes: Seq<ModeView>, wanted: ModeView, k: int)
    requires
        0 <= k < modes.len(),
    ensures
        0 <= position_of(modes, wanted) < modes.len(),
        modes[k].id == wanted.id ==> modes[position_of(modes, wanted)].id == wanted.id
            && position_of(modes, wanted) <= k,
        menu_key(modes[k]) == menu_key(wanted) ==> modes[position_of(modes, wanted)].id == wanted.id
            || menu_key(modes[position_of(modes, wanted)]) == menu_key(wanted),
        position_of(modes, wanted) > 0 ==> modes[position_of(modes, wanted)].id == wanted.id
            || menu_key(modes[position_of(modes, wanted)]) == menu_key(wanted),
{
    lemma_position(modes, wanted);
}

/// A row starts out on the mode of its rule where the display can do it, and else on the mode
/// that the display is in. It is ticked exactly where the rule names a mode.
pub proof fn law_where_a_row_starts_out(o: OutputView, rule: OutputRuleView, m: int)
    ensures
        rule.mode is Some && o.resolved(rule.mode->Some_0) == Some(m) ==> starting_mode(
            o,
            Some(rule),
        ) == Some(m),
        (rule.mode is None || o.resolved(rule.mode->Some_0) is None) && o.current_mode is Some
            ==> starting_mode(o, Some(rule)) == o.resolved(o.current_mode->Some_0),
        (rule.mode is None || o.resolved(rule.mode->Some_0) is None) && o.current_mode is None
            ==> starting_mode(o, Some(rule)) is None,
        o.current_mode is Some ==> starting_mode(o, None) == o.resolved(o.current_mode->Some_0),
        o.current_mode is None ==> starting_mode(o, None) is None,
        starting_row(o, Some(rule)).active <==> rule.mode is Some,
        !starting_row(o, None).active,
        starting_row(o, Some(rule)).sensitive <==> menus(o).len() > 0,
        starting_row(o, None).sensitive <==> menus(o).len() > 0,
        starting_row(o, Some(rule)).groups == menus(o),
        starting_row(o, None).groups == menus(o),
{
}

/// A ticked row is saved as a rule for its display and the mode that its menus stand on. One
/// that is not ticked is not saved.
pub proof fn law_a_ticked_row_is_saved(
    o: OutputView,
    groups: Seq<GroupView>,
    resolution: int,
    refresh: int,
)
    ensures
        row_rule(o, groups, false, resolution, refresh) is None,
        0 <= resolution < groups.len() && 0 <= refresh < groups[resolution].modes.len() ==> (
        row_rule(o, groups, true, resolution, refresh) matches Some(rule) && rule.matcher
            == o.matcher() && rule.mode == Some(groups[resolution].modes[refresh].id)),
        !(0 <= resolution < groups.len() && 0 <= refresh < groups[resolution].modes.len())
            ==> row_rule(o, groups, true, resolution, refresh) is None,
{
}

/// The menu of power profiles starts with the entry that leaves the profile alone, and has the
/// others behind it in their order. Selecting the first saves no profile, and selecting
/// another saves that one.
pub proof fn law_the_selected_profile_is_saved(
    power_profiles: Seq<Seq<char>>,
    k: int,
    persist: bool,
    rows: Seq<Option<OutputRuleView>>,
    rules: Seq<OutputRuleView>,
    outputs: Seq<OutputView>,
)
    requires
        0 <= k < power_profiles.len(),
    ensures
        ({
            let names = profile_menu(power_profiles);
            &&& names.len() == power_profiles.len() + 1
            &&& names[0] == "Leave unchanged"@
            &&& names[k + 1] == power_profiles[k]
            &&& page_profile(names, 0, persist, rows, rules, outputs).power_profile is None
            &&& page_profile(names, k + 1, persist, rows, rules, outputs).power_profile == Some(
                power_profiles[k],
            )
            &&& page_profile(names, k, persist, rows, rules, outputs).persist_display_config
                == persist
        }),
{
}

/// The menu of power profiles starts out on the first entry of that name, and on the entry that
/// leaves the profile alone where there is none.
pub proof fn law_the_menu_starts_on_the_wanted_profile(
    names: Seq<Seq<char>>,
    name: Seq<char>,
    from: int,
    k: int,
)
    requires
        0 <= from <= k <= names.len(),
        forall|j: int| from <= j < k ==> #[trigger] names[j] != name,
        k < names.len() ==> names[k] == name,
    ensures
        name_at(names, name, from) == if k < names.len() {
            k
        } else {
            0
        },
    decreases k - from,
{
    if from < k {
        assert(names[from] != name);
        law_the_menu_starts_on_the_wanted_profile(names, name, from + 1, k);
    }
}

/// The rules of a page are those of its ticked rows, in their order: rows that are not ticked
/// add nothing. The rules that no row shows follow.
pub proof fn law_ticked_rows_are_saved_in_order(
    a: Seq<Option<OutputRuleView>>,
    b: Seq<Option<OutputRuleView>>,
    rule: OutputRuleView,
)
    ensures
        ticked(a + b) == ticked(a) + ticked(b),
        ticked(seq![Some(rule)]) == seq![rule],
        ticked(seq![None]).len() == 0,
        ticked(Seq::empty()).len() == 0,
    decreases b.len(),
{
    assert(seq![Some(rule)].drop_last() =~= Seq::<Option<OutputRuleView>>::empty());
    assert(seq![None::<OutputRuleView>].drop_last() =~= Seq::<Option<OutputRuleView>>::empty());
    assert(ticked(Seq::empty()) =~= Seq::<OutputRuleView>::empty());
    assert(ticked(seq![Some(rule)]) =~= seq![rule]);
    if b.len() == 0 {
        assert(a + b =~= a);
        assert(ticked(a) + ticked(b) =~= ticked(a));
    } else {
        law_ticked_rows_are_saved_in_order(a, b.drop_last(), rule);
        assert((a + b).drop_last() =~= a + b.drop_last());
        assert((a + b).last() == b.last());
        assert(ticked(a + b) =~= ticked(a) + ticked(b));
    }
}

/// What a page saves are the rules of its rows, followed by the rules that drive no display,
/// each once and in their order.
pub proof fn law_a_page_saves_rows_first(
    names: Seq<Seq<char>>,
    selected: int,
    persist: bool,
    rows: Seq<Option<OutputRuleView>>,
    rules: Seq<OutputRuleView>,
    outputs: Seq<OutputView>,
) -> (at: Seq<int>)
    ensures
        ({
            let saved = page_profile(names, selected, persist, rows, rules, outputs).outputs;
            let n = ticked(rows).len() as int;
            &&& saved.len() == n + at.len()
            &&& saved.take(n) == ticked(rows)
            &&& forall|k: int| 0 <= k < at.len() ==> saved[n + k] == rules[#[trigger] at[k]]
        }),
        forall|r: int|
            #[trigger] at.contains(r) <==> 0 <= r < rules.len() && !drivers(
                rules,
                outputs,
            ).contains(Some(r)),
        forall|j: int, k: int| 0 <= j < k < at.len() ==> #[trigger] at[j] < #[trigger] at[k],
{
    let saved = page_profile(names, selected, persist, rows, rules, outputs).outputs;
    assert(saved.take(ticked(rows).len() as int) =~= ticked(rows));
    lemma_idle(drivers(rules, outputs), rules.len());
    idle(drivers(rules, outputs), rules.len())
}

/// The known profiles have names of their own, and any other is written with spaces for its
/// hyphens and a capital letter in front.
pub proof fn law_what_a_profile_is_called(name: Seq<char>, i: int)
    requires
        0 <= i < name.len(),
        name != "Leave unchanged"@,
        name != "power-saver"@,
        name != "balanced"@,
        name != "balanced-performance"@,
        name != "performance"@,
    ensures
        pretty_text(name).len() == name.len(),
        name[i] == '-' || name[i] == '_' ==> pretty_text(name)[i] == ' ',
        i > 0 && name[i] != '-' && name[i] != '_' ==> pretty_text(name)[i] == name[i],
        i == 0 && 'a' <= name[0] <= 'z' ==> pretty_text(name)[0] as int == name[0] as int - 32,
        i == 0 && !('a' <= name[0] <= 'z') && name[i] != '-' && name[i] != '_' ==> pretty_text(
            name,
        )[0] == name[0],
{
}

/// The names that are shown for the known profiles.
pub proof fn law_what_the_known_profiles_are_called()
    ensures
        pretty_text("Leave unchanged"@) == "Leave unchanged"@,
        pretty_text("power-saver"@) == "Power saver"@,
        pretty_text("balanced"@) == "Balanced"@,
        pretty_text("balanced-performance"@) == "Balanced performance"@,
        pretty_text("performance"@) == "Performance"@,
{
    reveal_strlit("Leave unchanged");
    reveal_strlit("power-saver");
    reveal_strlit("balanced");
    reveal_strlit("balanced-performance");
    reveal_strlit("performance");
    assert("Leave unchanged"@.len() == 15 && "power-saver"@.len() == 11);
    assert("balanced"@.len() == 8 && "balanced-performance"@.len() == 20);
    assert("performance"@.len() == 11 && "performance"@[1] == 'e' && "power-saver"@[1] == 'o');
}


} // verus!
