//! The layout that Mutter is asked for: the current one with other modes in it, the scales
//! that go with those modes, and the row that is tried when the first layout is refused.

use vstd::prelude::*;

use crate::display::assign::{asked_id, find_setting, OutputSetting, OutputSettingView};
use crate::display::gnome;
use crate::display::gnome::{
    active, best_scale, flag, is_current, number, offers, others_offer, pick_scale, prop_bool,
    prop_u32, ChosenMode, ChosenModeView, CurrentState, CurrentStateView, LogicalMonitorInfo,
    LogicalMonitorInfoView, ModeInfo, ModeInfoView, MonitorInfo, MonitorInfoView,
    PlannedLogicalMonitor, PlannedView, PropertyValue, PropertyView, METHOD_PERSISTENT, METHOD_TEMPORARY,
};
use crate::display::mode::{at_least_zero, not_negative};
use crate::double::{gap, ratio, Double, ONE};
use crate::text::{listed, same};

verus! {

/// The modes of a connector, as the last monitor on it lists them.
pub open spec fn modes_of(monitors: Seq<MonitorInfoView>, connector: Seq<char>) -> Option<
    Seq<ModeInfoView>,
>
    decreases monitors.len(),
{
    if monitors.len() == 0 {
        None
    } else if monitors.last().connector == connector {
        Some(monitors.last().modes)
    } else {
        modes_of(monitors.drop_last(), connector)
    }
}

/// The first mode with this id.
pub open spec fn mode_with_id(modes: Seq<ModeInfoView>, id: Seq<char>) -> Option<ModeInfoView>
    decreases modes.len(),
{
    if modes.len() == 0 {
        None
    } else if modes[0].id == id {
        Some(modes[0])
    } else {
        mode_with_id(modes.drop_first(), id)
    }
}

/// The first mode that says it is current.
pub open spec fn mode_in_use(modes: Seq<ModeInfoView>) -> Option<ModeInfoView>
    decreases modes.len(),
{
    if modes.len() == 0 {
        None
    } else if is_current(modes[0]) {
        Some(modes[0])
    } else {
        mode_in_use(modes.drop_first())
    }
}

pub open spec fn chosen(connector: Seq<char>, m: ModeInfoView) -> ChosenModeView {
    ChosenModeView {
        connector,
        id: m.id,
        width: at_least_zero(m.width),
        height: at_least_zero(m.height),
        supported_scales: m.supported_scales,
    }
}

/// The mode that a connector of the layout is going to be in: the one that is asked for, or
/// the one it is in.
pub open spec fn choice(
    monitors: Seq<MonitorInfoView>,
    wanted: Seq<OutputSettingView>,
    connector: Seq<char>,
) -> Result<ChosenModeView, Seq<char>> {
    match modes_of(monitors, connector) {
        None => Err("Mutter listed "@ + connector + " without any modes"@),
        Some(modes) => match asked_id(wanted, connector) {
            Some(id) => match mode_with_id(modes, id) {
                Some(m) => Ok(chosen(connector, m)),
                None => Err(connector + " does not offer mode "@ + id),
            },
            None => match mode_in_use(modes) {
                Some(m) => Ok(chosen(connector, m)),
                None => Err(connector + " has no current mode"@),
            },
        },
    }
}

/// The choices for the connectors of one part of the layout, or the first that fails.
pub open spec fn choices(
    monitors: Seq<MonitorInfoView>,
    wanted: Seq<OutputSettingView>,
    connectors: Seq<Seq<char>>,
) -> Result<Seq<ChosenModeView>, Seq<char>>
    decreases connectors.len(),
{
    if connectors.len() == 0 {
        Ok(Seq::empty())
    } else {
        match choices(monitors, wanted, connectors.drop_last()) {
            Err(e) => Err(e),
            Ok(list) => match choice(monitors, wanted, connectors.last()) {
                Ok(c) => Ok(list.push(c)),
                Err(e) => Err(e),
            },
        }
    }
}

/// The layout with the chosen modes in it, or the first choice that fails.
pub open spec fn planned(
    monitors: Seq<MonitorInfoView>,
    wanted: Seq<OutputSettingView>,
    layout: Seq<LogicalMonitorInfoView>,
) -> Result<Seq<PlannedView>, Seq<char>>
    decreases layout.len(),
{
    if layout.len() == 0 {
        Ok(Seq::empty())
    } else {
        let l = layout.last();
        match planned(monitors, wanted, layout.drop_last()) {
            Err(e) => Err(e),
            Ok(list) => match choices(monitors, wanted, l.connectors) {
                Ok(c) => Ok(
                    list.push(
                        PlannedView {
                            x: l.x,
                            y: l.y,
                            scale: l.scale,
                            transform: l.transform,
                            primary: l.primary,
                            monitors: c,
                        },
                    ),
                ),
                Err(e) => Err(e),
            },
        }
    }
}

/// The scales that each monitor of a part supports.
pub open spec fn scales_of(p: PlannedView) -> Seq<Seq<Double>> {
    p.monitors.map_values(|m: ChosenModeView| m.supported_scales)
}

/// The scales that each monitor of the whole layout supports.
pub open spec fn all_scales(plan: Seq<PlannedView>) -> Seq<Seq<Double>>
    decreases plan.len(),
{
    if plan.len() == 0 {
        Seq::empty()
    } else {
        all_scales(plan.drop_last()) + scales_of(plan.last())
    }
}

/// The scale of the first part that is primary, from part `i` on; of the very first part
/// where none is.
pub open spec fn main_scale(plan: Seq<PlannedView>, i: int) -> Double
    decreases plan.len() - i,
{
    if i >= plan.len() || i < 0 {
        plan[0].scale
    } else if plan[i].primary {
        plan[i].scale
    } else {
        main_scale(plan, i + 1)
    }
}

/// The layout with legal scales: one for all its parts, or one for each.
pub open spec fn rescaled(plan: Seq<PlannedView>, global: bool) -> Seq<PlannedView> {
    if global {
        plan.map_values(
            |p: PlannedView|
                PlannedView { scale: best_scale(main_scale(plan, 0), all_scales(plan)), ..p },
        )
    } else {
        plan.map_values(
            |p: PlannedView| PlannedView { scale: best_scale(p.scale, scales_of(p)), ..p },
        )
    }
}

/// A change of the layout, ready to be sent.
#[derive(Debug)]
pub struct Change {
    pub plan: Vec<PlannedLogicalMonitor>,
    pub method: u32,
    /// The layout mode to send along, where the compositor lets us name one.
    pub layout_mode: Option<u32>,
    /// Whether positions are counted in scaled pixels.
    pub logical_layout: bool,
}

pub struct ChangeView {
    pub plan: Seq<PlannedView>,
    pub method: u32,
    pub layout_mode: Option<u32>,
    pub logical_layout: bool,
}

impl DeepView for Change {
    type V = ChangeView;

    open spec fn deep_view(&self) -> ChangeView {
        ChangeView {
            plan: self.plan.deep_view(),
            method: self.method,
            layout_mode: self.layout_mode,
            logical_layout: self.logical_layout,
        }
    }
}

/// The change that the instructions call for, or what stands in its way.
pub open spec fn change_for(
    state: CurrentStateView,
    wanted: Seq<OutputSettingView>,
    persist: bool,
) -> Result<ChangeView, Seq<char>> {
    if flag(state.properties, "apply-monitors-config-allowed"@) == Some(false) {
        Err("the compositor is currently refusing display configuration changes"@)
    } else if state.logical_monitors.len() == 0 {
        Err("Mutter reports no active monitors"@)
    } else {
        match planned(state.monitors, wanted, state.logical_monitors) {
            Err(e) => Err(e),
            Ok(plan) => Ok(
                ChangeView {
                    plan: rescaled(
                        plan,
                        flag(state.properties, "global-scale-required"@) == Some(true),
                    ),
                    method: if persist {
                        METHOD_PERSISTENT
                    } else {
                        METHOD_TEMPORARY
                    },
                    layout_mode: if flag(state.properties, "supports-changing-layout-mode"@)
                        == Some(true) {
                        number(state.properties, "layout-mode"@)
                    } else {
                        None
                    },
                    logical_layout: number(state.properties, "layout-mode"@) != Some(2u32),
                },
            ),
        }
    }
}

fn find_modes<'a>(monitors: &'a Vec<MonitorInfo>, connector: &str) -> (r: Option<&'a Vec<ModeInfo>>)
    ensures
        match (r, modes_of(monitors.deep_view(), connector@)) {
            (Some(got), Some(want)) => got.deep_view() == want,
            (None, None) => true,
            _ => false,
        },
{
    let ghost all = monitors.deep_view();
    let mut i: usize = monitors.len();
    assert(all.take(i as int) =~= all);
    while i > 0
        invariant
            i <= monitors.len(),
            all == monitors.deep_view(),
            all.len() == monitors.len(),
            modes_of(all.take(i as int), connector@) == modes_of(all, connector@),
        decreases i,
    {
        i = i - 1;
        proof {
            assert(all.take(i + 1).last() == monitors@[i as int].deep_view());
            assert(all.take(i + 1).drop_last() =~= all.take(i as int));
        }
        if same(monitors[i].connector.as_str(), connector) {
            return Some(&monitors[i].modes);
        }
    }
    None
}

fn find_mode<'a>(modes: &'a Vec<ModeInfo>, id: &str) -> (r: Option<&'a ModeInfo>)
    ensures
        match (r, mode_with_id(modes.deep_view(), id@)) {
            (Some(got), Some(want)) => got.deep_view() == want,
            (None, None) => true,
            _ => false,
        },
{
    let ghost all = modes.deep_view();
    let mut i: usize = 0;
    assert(all.skip(0) =~= all);
    while i < modes.len()
        invariant
            i <= modes.len(),
            all == modes.deep_view(),
            all.len() == modes.len(),
            mode_with_id(all.skip(i as int), id@) == mode_with_id(all, id@),
        decreases modes.len() - i,
    {
        proof {
            assert(all.skip(i as int)[0] == modes@[i as int].deep_view());
            assert(all.skip(i as int).drop_first() =~= all.skip(i + 1));
        }
        if same(modes[i].id.as_str(), id) {
            return Some(&modes[i]);
        }
        i = i + 1;
    }
    None
}

fn find_current(modes: &Vec<ModeInfo>) -> (r: Option<&ModeInfo>)
    ensures
        match (r, mode_in_use(modes.deep_view())) {
            (Some(got), Some(want)) => got.deep_view() == want,
            (None, None) => true,
            _ => false,
        },
{
    let ghost all = modes.deep_view();
    let mut i: usize = 0;
    assert(all.skip(0) =~= all);
    while i < modes.len()
        invariant
            i <= modes.len(),
            all == modes.deep_view(),
            all.len() == modes.len(),
            mode_in_use(all.skip(i as int)) == mode_in_use(all),
        decreases modes.len() - i,
    {
        proof {
            assert(all.skip(i as int)[0] == modes@[i as int].deep_view());
            assert(all.skip(i as int).drop_first() =~= all.skip(i + 1));
        }
        if let Some(true) = prop_bool(&modes[i].properties, "is-current") {
            return Some(&modes[i]);
        }
        i = i + 1;
    }
    None
}

fn copy_scales(scales: &Vec<Double>) -> (r: Vec<Double>)
    ensures
        r@ == scales@,
{
    let mut out: Vec<Double> = Vec::new();
    let mut i: usize = 0;
    while i < scales.len()
        invariant
            i <= scales.len(),
            out@ == scales@.take(i as int),
        decreases scales.len() - i,
    {
        out.push(scales[i]);
        i = i + 1;
    }
    assert(out@ =~= scales@);
    out
}

fn choose_mode(connector: &str, m: &ModeInfo) -> (r: ChosenMode)
    ensures
        r.deep_view() == chosen(connector@, m.deep_view()),
{
    ChosenMode {
        connector: connector.to_string(),
        id: m.id.clone(),
        width: not_negative(m.width),
        height: not_negative(m.height),
        supported_scales: copy_scales(&m.supported_scales),
    }
}

fn choose_for(monitors: &Vec<MonitorInfo>, wanted: &[OutputSetting], connector: &str) -> (r: Result<
    ChosenMode,
    String,
>)
    ensures
        match (r, choice(monitors.deep_view(), wanted.deep_view(), connector@)) {
            (Ok(got), Ok(want)) => got.deep_view() == want,
            (Err(got), Err(want)) => got@ == want,
            _ => false,
        },
{
    let modes = match find_modes(monitors, connector) {
        Some(modes) => modes,
        None => {
            let mut text = "Mutter listed ".to_string();
            text.append(connector);
            text.append(" without any modes");
            return Err(text);
        },
    };
    match find_setting(wanted, connector) {
        Some(id) => match find_mode(modes, id) {
            Some(m) => Ok(choose_mode(connector, m)),
            None => {
                let mut text = connector.to_string();
                text.append(" does not offer mode ");
                text.append(id);
                Err(text)
            },
        },
        None => match find_current(modes) {
            Some(m) => Ok(choose_mode(connector, m)),
            None => {
                let mut text = connector.to_string();
                text.append(" has no current mode");
                Err(text)
            },
        },
    }
}

/// A choice that fails fails the whole list.
proof fn lemma_choices_fail(
    monitors: Seq<MonitorInfoView>,
    wanted: Seq<OutputSettingView>,
    connectors: Seq<Seq<char>>,
    k: int,
)
    requires
        0 <= k <= connectors.len(),
        choices(monitors, wanted, connectors.take(k)) is Err,
    ensures
        choices(monitors, wanted, connectors) == choices(monitors, wanted, connectors.take(k)),
    decreases connectors.len() - k,
{
    if k == connectors.len() {
        assert(connectors.take(k) =~= connectors);
    } else {
        assert(connectors.take(k + 1).drop_last() =~= connectors.take(k));
        lemma_choices_fail(monitors, wanted, connectors, k + 1);
    }
}

proof fn lemma_planned_fails(
    monitors: Seq<MonitorInfoView>,
    wanted: Seq<OutputSettingView>,
    layout: Seq<LogicalMonitorInfoView>,
    k: int,
)
    requires
        0 <= k <= layout.len(),
        planned(monitors, wanted, layout.take(k)) is Err,
    ensures
        planned(monitors, wanted, layout) == planned(monitors, wanted, layout.take(k)),
    decreases layout.len() - k,
{
    if k == layout.len() {
        assert(layout.take(k) =~= layout);
    } else {
        assert(layout.take(k + 1).drop_last() =~= layout.take(k));
        lemma_planned_fails(monitors, wanted, layout, k + 1);
    }
}

fn choose_all(monitors: &Vec<MonitorInfo>, wanted: &[OutputSetting], connectors: &Vec<String>) -> (r:
    Result<Vec<ChosenMode>, String>)
    ensures
        match (r, choices(monitors.deep_view(), wanted.deep_view(), connectors.deep_view())) {
            (Ok(got), Ok(want)) => got.deep_view() == want,
            (Err(got), Err(want)) => got@ == want,
            _ => false,
        },
{
    let ghost ms = monitors.deep_view();
    let ghost ws = wanted.deep_view();
    let ghost all = connectors.deep_view();
    let mut out: Vec<ChosenMode> = Vec::new();
    let mut i: usize = 0;
    assert(out.deep_view() =~= Seq::empty());
    while i < connectors.len()
        invariant
            i <= connectors.len(),
            ms == monitors.deep_view(),
            ws == wanted.deep_view(),
            all == connectors.deep_view(),
            all.len() == connectors.len(),
            choices(ms, ws, all.take(i as int)) is Ok,
            out.deep_view() == choices(ms, ws, all.take(i as int))->Ok_0,
        decreases connectors.len() - i,
    {
        let ghost before = out.deep_view();
        proof {
            assert(all.take(i + 1).drop_last() =~= all.take(i as int));
            assert(all.take(i + 1).last() == connectors@[i as int]@);
        }
        match choose_for(monitors, wanted, connectors[i].as_str()) {
            Ok(c) => {
                out.push(c);
                assert(out.deep_view() =~= before.push(c.deep_view()));
            },
            Err(e) => {
                proof {
                    lemma_choices_fail(ms, ws, all, i + 1);
                }
                return Err(e);
            },
        }
        i = i + 1;
    }
    assert(all.take(i as int) =~= all);
    Ok(out)
}

fn plan_layout(monitors: &Vec<MonitorInfo>, wanted: &[OutputSetting], layout: &Vec<
    LogicalMonitorInfo,
>) -> (r: Result<Vec<PlannedLogicalMonitor>, String>)
    ensures
        match (r, planned(monitors.deep_view(), wanted.deep_view(), layout.deep_view())) {
            (Ok(got), Ok(want)) => got.deep_view() == want,
            (Err(got), Err(want)) => got@ == want,
            _ => false,
        },
{
    let ghost ms = monitors.deep_view();
    let ghost ws = wanted.deep_view();
    let ghost all = layout.deep_view();
    let mut out: Vec<PlannedLogicalMonitor> = Vec::new();
    let mut i: usize = 0;
    assert(out.deep_view() =~= Seq::empty());
    while i < layout.len()
        invariant
            i <= layout.len(),
            ms == monitors.deep_view(),
            ws == wanted.deep_view(),
            all == layout.deep_view(),
            all.len() == layout.len(),
            planned(ms, ws, all.take(i as int)) is Ok,
            out.deep_view() == planned(ms, ws, all.take(i as int))->Ok_0,
        decreases layout.len() - i,
    {
        let ghost before = out.deep_view();
        let l = &layout[i];
        proof {
            assert(all.take(i + 1).drop_last() =~= all.take(i as int));
            assert(all.take(i + 1).last() == l.deep_view());
        }
        match choose_all(monitors, wanted, &l.connectors) {
            Ok(chosen) => {
                let part = PlannedLogicalMonitor {
                    x: l.x,
                    y: l.y,
                    scale: l.scale,
                    transform: l.transform,
                    primary: l.primary,
                    monitors: chosen,
                };
                out.push(part);
                assert(out.deep_view() =~= before.push(part.deep_view()));
            },
            Err(e) => {
                proof {
                    lemma_planned_fails(ms, ws, all, i + 1);
                }
                return Err(e);
            },
        }
        i = i + 1;
    }
    assert(all.take(i as int) =~= all);
    Ok(out)
}

fn push_scales(lists: &mut Vec<Vec<Double>>, p: &PlannedLogicalMonitor)
    ensures
        final(lists).deep_view() == old(lists).deep_view() + scales_of(p.deep_view()),
{
    let ghost before = lists.deep_view();
    let ghost all = scales_of(p.deep_view());
    let mut i: usize = 0;
    assert(before + all.take(0) =~= before);
    while i < p.monitors.len()
        invariant
            i <= p.monitors.len(),
            all == scales_of(p.deep_view()),
            all.len() == p.monitors.len(),
            lists.deep_view() == before + all.take(i as int),
        decreases p.monitors.len() - i,
    {
        let ghost now = lists.deep_view();
        let list = copy_scales(&p.monitors[i].supported_scales);
        assert(all[i as int] == p.monitors@[i as int].supported_scales@);
        lists.push(list);
        assert(list.deep_view() =~= list@);
        assert(lists.deep_view() =~= now.push(list@));
        i = i + 1;
        assert(lists.deep_view() =~= before + all.take(i as int));
    }
    assert(all.take(i as int) =~= all);
}

fn gather_scales(plan: &Vec<PlannedLogicalMonitor>) -> (r: Vec<Vec<Double>>)
    ensures
        r.deep_view() == all_scales(plan.deep_view()),
{
    let ghost all = plan.deep_view();
    let mut lists: Vec<Vec<Double>> = Vec::new();
    let mut i: usize = 0;
    assert(lists.deep_view() =~= Seq::empty());
    while i < plan.len()
        invariant
            i <= plan.len(),
            all == plan.deep_view(),
            all.len() == plan.len(),
            lists.deep_view() == all_scales(all.take(i as int)),
        decreases plan.len() - i,
    {
        proof {
            assert(all.take(i + 1).drop_last() =~= all.take(i as int));
            assert(all.take(i + 1).last() == plan@[i as int].deep_view());
        }
        push_scales(&mut lists, &plan[i]);
        i = i + 1;
    }
    assert(all.take(i as int) =~= all);
    lists
}

fn target_scale(plan: &Vec<PlannedLogicalMonitor>) -> (r: Double)
    requires
        plan.len() > 0,
    ensures
        r == main_scale(plan.deep_view(), 0),
{
    let ghost all = plan.deep_view();
    let mut i: usize = 0;
    while i < plan.len()
        invariant
            i <= plan.len(),
            all == plan.deep_view(),
            all.len() == plan.len(),
            main_scale(all, i as int) == main_scale(all, 0),
        decreases plan.len() - i,
    {
        assert(all[i as int] == plan@[i as int].deep_view());
        if plan[i].primary {
            return plan[i].scale;
        }
        i = i + 1;
    }
    assert(all[0] == plan@[0].deep_view());
    plan[0].scale
}

fn rescale(plan: Vec<PlannedLogicalMonitor>, global: bool) -> (r: Vec<PlannedLogicalMonitor>)
    requires
        plan.len() > 0,
    ensures
        r.deep_view() == rescaled(plan.deep_view(), global),
{
    let ghost all = plan.deep_view();
    let shared = if global {
        let lists = gather_scales(&plan);
        pick_scale(target_scale(&plan), lists.as_slice())
    } else {
        Double { bits: ONE }
    };
    let mut plan = plan;
    let mut i: usize = 0;
    while i < plan.len()
        invariant
            i <= plan.len(),
            plan.len() == all.len(),
            global ==> shared == best_scale(main_scale(all, 0), all_scales(all)),
            forall|k: int| i <= k < plan.len() ==> (#[trigger] plan@[k]).deep_view() == all[k],
            forall|k: int|
                0 <= k < i ==> (#[trigger] plan@[k]).deep_view() == rescaled(all, global)[k],
        decreases plan.len() - i,
    {
        assert(plan@[i as int].deep_view() == all[i as int]);
        let scale = if global {
            shared
        } else {
            let mut lists: Vec<Vec<Double>> = Vec::new();
            assert(lists.deep_view() =~= Seq::empty());
            push_scales(&mut lists, &plan[i]);
            assert(lists.deep_view() =~= scales_of(all[i as int]));
            pick_scale(plan[i].scale, lists.as_slice())
        };
        plan[i].scale = scale;
        assert(plan@[i as int].deep_view() == rescaled(all, global)[i as int]);
        i = i + 1;
    }
    assert(plan.deep_view() =~= rescaled(all, global));
    plan
}

/// Works out the change that the instructions call for.
pub fn plan_change(state: &CurrentState, wanted: &[OutputSetting], persist: bool) -> (r: Result<
    Change,
    String,
>)
    ensures
        match (r, change_for(state.deep_view(), wanted.deep_view(), persist)) {
            (Ok(got), Ok(want)) => got.deep_view() == want,
            (Err(got), Err(want)) => got@ == want,
            _ => false,
        },
        r is Ok ==> r->Ok_0.deep_view().plan.len() > 0 && forall|l: int|
            0 <= l < r->Ok_0.deep_view().plan.len() ==> (#[trigger] r->Ok_0.deep_view().plan[l]).wf(),
{
    if let Some(false) = prop_bool(&state.properties, "apply-monitors-config-allowed") {
        return Err(
            "the compositor is currently refusing display configuration changes".to_string(),
        );
    }
    if state.logical_monitors.len() == 0 {
        return Err("Mutter reports no active monitors".to_string());
    }
    let plan = match plan_layout(&state.monitors, wanted, &state.logical_monitors) {
        Ok(plan) => plan,
        Err(e) => {
            return Err(e);
        },
    };
    let ghost ms = state.deep_view().monitors;
    let ghost ws = wanted.deep_view();
    let ghost ls = state.deep_view().logical_monitors;
    proof {
        lemma_planned(ms, ws, ls);
        assert(plan.deep_view().len() == plan.len());
    }
    let ghost first = plan.deep_view();
    let global = match prop_bool(&state.properties, "global-scale-required") {
        Some(b) => b,
        None => false,
    };
    let plan = rescale(plan, global);
    let layout_mode = prop_u32(&state.properties, "layout-mode");
    let sent = match prop_bool(&state.properties, "supports-changing-layout-mode") {
        Some(true) => layout_mode,
        _ => None,
    };
    let logical_layout = match layout_mode {
        Some(n) => n != 2,
        None => true,
    };
    let r = Change {
        plan,
        method: if persist {
            METHOD_PERSISTENT
        } else {
            METHOD_TEMPORARY
        },
        layout_mode: sent,
        logical_layout,
    };
    proof {
        let done = r.deep_view().plan;
        assert forall|l: int| 0 <= l < done.len() implies (#[trigger] done[l]).wf() by {
            assert(first[l].wf());
            assert(done[l].monitors == first[l].monitors);
        }
    }
    Ok(r)
}

/// What a plan that works out consists of.
proof fn lemma_choices(
    monitors: Seq<MonitorInfoView>,
    wanted: Seq<OutputSettingView>,
    connectors: Seq<Seq<char>>,
)
    ensures
        choices(monitors, wanted, connectors) is Ok ==> choices(
            monitors,
            wanted,
            connectors,
        )->Ok_0.len() == connectors.len() && forall|m: int|
            0 <= m < connectors.len() ==> choice(monitors, wanted, connectors[m]) == Ok::<
                ChosenModeView,
                Seq<char>,
            >(#[trigger] choices(monitors, wanted, connectors)->Ok_0[m]),
    decreases connectors.len(),
{
    if connectors.len() > 0 {
        let front = connectors.drop_last();
        lemma_choices(monitors, wanted, front);
        if choices(monitors, wanted, connectors) is Ok {
            let list = choices(monitors, wanted, connectors)->Ok_0;
            assert forall|m: int| 0 <= m < connectors.len() implies choice(
                monitors,
                wanted,
                connectors[m],
            ) == Ok::<ChosenModeView, Seq<char>>(#[trigger] list[m]) by {
                if m < front.len() {
                    assert(front[m] == connectors[m]);
                    assert(list[m] == choices(monitors, wanted, front)->Ok_0[m]);
                }
            }
        }
    }
}

/// One part of the plan against the part of the layout that it came from.
pub open spec fn keeps_place(
    monitors: Seq<MonitorInfoView>,
    wanted: Seq<OutputSettingView>,
    p: PlannedView,
    l: LogicalMonitorInfoView,
) -> bool {
    &&& p.x == l.x && p.y == l.y && p.transform == l.transform && p.primary == l.primary
    &&& p.monitors.len() == l.connectors.len()
    &&& forall|m: int|
        0 <= m < p.monitors.len() ==> choice(monitors, wanted, l.connectors[m]) == Ok::<
            ChosenModeView,
            Seq<char>,
        >(#[trigger] p.monitors[m])
}

proof fn lemma_planned(
    monitors: Seq<MonitorInfoView>,
    wanted: Seq<OutputSettingView>,
    layout: Seq<LogicalMonitorInfoView>,
)
    ensures
        planned(monitors, wanted, layout) is Ok ==> {
            let plan = planned(monitors, wanted, layout)->Ok_0;
            &&& plan.len() == layout.len()
            &&& forall|l: int|
                0 <= l < plan.len() ==> keeps_place(monitors, wanted, #[trigger] plan[l], layout[l])
                    && plan[l].wf() && plan[l].scale == layout[l].scale
        },
    decreases layout.len(),
{
    if layout.len() > 0 {
        let front = layout.drop_last();
        lemma_planned(monitors, wanted, front);
        lemma_choices(monitors, wanted, layout.last().connectors);
        if planned(monitors, wanted, layout) is Ok {
            let plan = planned(monitors, wanted, layout)->Ok_0;
            let before = planned(monitors, wanted, front)->Ok_0;
            assert forall|l: int| 0 <= l < plan.len() implies keeps_place(
                monitors,
                wanted,
                #[trigger] plan[l],
                layout[l],
            ) && plan[l].wf() && plan[l].scale == layout[l].scale by {
                if l < front.len() {
                    assert(plan[l] == before[l]);
                    assert(layout[l] == front[l]);
                } else {
                    let p = plan[l];
                    assert forall|m: int| 0 <= m < p.monitors.len() implies (
                    #[trigger] p.monitors[m]).width <= i32::MAX && p.monitors[m].height
                        <= i32::MAX by {
                        assert(choice(monitors, wanted, layout[l].connectors[m]) == Ok::<
                            ChosenModeView,
                            Seq<char>,
                        >(p.monitors[m]));
                    }
                }
            }
        }
    }
}

/// A change keeps every part of the layout where it is and as it is turned. Only the modes
/// that were asked for differ, and the scales.
pub proof fn law_change_keeps_the_layout(
    state: CurrentStateView,
    wanted: Seq<OutputSettingView>,
    persist: bool,
)
    requires
        change_for(state, wanted, persist) is Ok,
    ensures
        change_for(state, wanted, persist)->Ok_0.plan.len() == state.logical_monitors.len(),
        forall|l: int|
            0 <= l < state.logical_monitors.len() ==> keeps_place(
                state.monitors,
                wanted,
                #[trigger] change_for(state, wanted, persist)->Ok_0.plan[l],
                state.logical_monitors[l],
            ),
{
    lemma_planned(state.monitors, wanted, state.logical_monitors);
    let first = planned(state.monitors, wanted, state.logical_monitors)->Ok_0;
    let plan = change_for(state, wanted, persist)->Ok_0.plan;
    assert forall|l: int| 0 <= l < state.logical_monitors.len() implies keeps_place(
        state.monitors,
        wanted,
        #[trigger] plan[l],
        state.logical_monitors[l],
    ) by {
        assert(keeps_place(state.monitors, wanted, first[l], state.logical_monitors[l]));
        assert(plan[l].monitors == first[l].monitors);
    }
}

proof fn lemma_mode_with_id(modes: Seq<ModeInfoView>, id: Seq<char>)
    ensures
        match mode_with_id(modes, id) {
            Some(m) => modes.contains(m) && m.id == id,
            None => true,
        },
    decreases modes.len(),
{
    if modes.len() > 0 {
        if modes[0].id == id {
            assert(modes.contains(modes[0]));
        } else {
            lemma_mode_with_id(modes.drop_first(), id);
            if let Some(m) = mode_with_id(modes, id) {
                let k = choose|k: int|
                    0 <= k < modes.drop_first().len() && modes.drop_first()[k] == m;
                assert(modes[k + 1] == m);
            }
        }
    }
}

proof fn lemma_mode_in_use(modes: Seq<ModeInfoView>)
    ensures
        match mode_in_use(modes) {
            Some(m) => modes.contains(m) && is_current(m),
            None => true,
        },
    decreases modes.len(),
{
    if modes.len() > 0 {
        if is_current(modes[0]) {
            assert(modes.contains(modes[0]));
        } else {
            lemma_mode_in_use(modes.drop_first());
            if let Some(m) = mode_in_use(modes) {
                let k = choose|k: int|
                    0 <= k < modes.drop_first().len() && modes.drop_first()[k] == m;
                assert(modes[k + 1] == m);
            }
        }
    }
}

/// A chosen mode is one that the monitor lists, under the very id that it lists: the one
/// that was asked for, or else the current one.
pub proof fn law_mode_ids_are_handed_back_unchanged(
    monitors: Seq<MonitorInfoView>,
    wanted: Seq<OutputSettingView>,
    connector: Seq<char>,
)
    requires
        choice(monitors, wanted, connector) is Ok,
    ensures
        modes_of(monitors, connector) is Some,
        exists|m: ModeInfoView|
            #[trigger] modes_of(monitors, connector)->Some_0.contains(m) && choice(
                monitors,
                wanted,
                connector,
            )->Ok_0 == chosen(connector, m) && (match asked_id(wanted, connector) {
                Some(id) => m.id == id,
                None => is_current(m),
            }),
{
    let modes = modes_of(monitors, connector)->Some_0;
    match asked_id(wanted, connector) {
        Some(id) => {
            lemma_mode_with_id(modes, id);
            let m = mode_with_id(modes, id)->Some_0;
            assert(modes.contains(m));
        },
        None => {
            lemma_mode_in_use(modes);
            let m = mode_in_use(modes)->Some_0;
            assert(modes.contains(m));
        },
    }
}

proof fn lemma_nearest_scale(list: Seq<Double>, options: Seq<Seq<Double>>, target: Double)
    ensures
        match gnome::nearest_scale(list, options, target) {
            Some(s) => {
                &&& list.contains(s)
                &&& others_offer(options, s)
                &&& forall|i: int|
                    0 <= i < list.len() && others_offer(options, #[trigger] list[i])
                        ==> gap(s, target) <= gap(list[i], target)
            },
            None => forall|i: int|
                0 <= i < list.len() ==> !others_offer(options, #[trigger] list[i]),
        },
{
    gnome::lemma_nearest(list, options, target);
}

/// The scale that is picked is one that every monitor supports, unless they have none in
/// common: then nothing is scaled.
pub proof fn law_scale_is_supported_everywhere(target: Double, options: Seq<Seq<Double>>)
    requires
        options.len() > 0,
    ensures
        ((offers(options[0], best_scale(target, options)) || options[0].contains(
            best_scale(target, options),
        )) && others_offer(options, best_scale(target, options))) || (best_scale(target, options)
            == (Double { bits: ONE }) && forall|i: int|
            0 <= i < options[0].len() ==> !others_offer(options, #[trigger] options[0][i])),
{
    lemma_nearest_scale(options[0], options, target);
}

/// A scale that every monitor supports is kept.
pub proof fn law_supported_scale_is_kept(target: Double, options: Seq<Seq<Double>>)
    requires
        forall|k: int| 0 <= k < options.len() ==> offers(#[trigger] options[k], target),
    ensures
        best_scale(target, options) == target,
{
}

/// The displays that are asked to change but show no part of the layout; they are skipped.
pub open spec fn outside_layout(
    layout: Seq<LogicalMonitorInfoView>,
    wanted: Seq<OutputSettingView>,
) -> Seq<Seq<char>>
    decreases wanted.len(),
{
    if wanted.len() == 0 {
        Seq::empty()
    } else {
        let before = outside_layout(layout, wanted.drop_last());
        if active(layout, wanted.last().connector) {
            before
        } else {
            before.push(wanted.last().connector)
        }
    }
}

/// The displays that a change skips. One that is refused as a whole skips none.
pub open spec fn skipped(state: CurrentStateView, wanted: Seq<OutputSettingView>) -> Seq<
    Seq<char>,
> {
    if flag(state.properties, "apply-monitors-config-allowed"@) == Some(false)
        || state.logical_monitors.len() == 0 {
        Seq::empty()
    } else {
        outside_layout(state.logical_monitors, wanted)
    }
}

/// Lists the displays that are going to be skipped.
pub fn skipped_displays(state: &CurrentState, wanted: &[OutputSetting]) -> (r: Vec<String>)
    ensures
        r.deep_view() == skipped(state.deep_view(), wanted.deep_view()),
{
    let ghost layout = state.deep_view().logical_monitors;
    let ghost all = wanted.deep_view();
    let mut out: Vec<String> = Vec::new();
    assert(out.deep_view() =~= Seq::empty());
    if let Some(false) = prop_bool(&state.properties, "apply-monitors-config-allowed") {
        return out;
    }
    if state.logical_monitors.len() == 0 {
        return out;
    }
    let mut i: usize = 0;
    while i < wanted.len()
        invariant
            i <= wanted.len(),
            layout == state.deep_view().logical_monitors,
            all == wanted.deep_view(),
            all.len() == wanted.len(),
            out.deep_view() == outside_layout(layout, all.take(i as int)),
        decreases wanted.len() - i,
    {
        let ghost before = out.deep_view();
        proof {
            assert(all.take(i + 1).drop_last() =~= all.take(i as int));
            assert(all.take(i + 1).last() == wanted@[i as int].deep_view());
        }
        if !gnome::is_active(&state.logical_monitors, wanted[i].connector.as_str()) {
            let name = wanted[i].connector.clone();
            out.push(name);
            assert(out.deep_view() =~= before.push(name@));
        }
        i = i + 1;
    }
    assert(all.take(i as int) =~= all);
    out
}

/// What the other lists of a part offer, monitor by monitor.
proof fn lemma_others_of_part(p: PlannedView, s: Double)
    ensures
        others_offer(scales_of(p), s) <==> forall|m: int|
            1 <= m < p.monitors.len() ==> offers((#[trigger] p.monitors[m]).supported_scales, s),
{
    let lists = scales_of(p);
    assert forall|m: int| 0 <= m < p.monitors.len() implies #[trigger] lists[m]
        == p.monitors[m].supported_scales by {}
    if others_offer(lists, s) {
        assert forall|m: int| 1 <= m < p.monitors.len() implies offers(
            (#[trigger] p.monitors[m]).supported_scales,
            s,
        ) by {
            assert(offers(lists[m], s));
        }
    }
}

proof fn lemma_flag_is_not_set(props: Seq<PropertyView>, name: Seq<char>)
    requires
        forall|k: int|
            0 <= k < props.len() && (#[trigger] props[k]).name == name ==> props[k].value
                != PropertyValue::Bool(true),
    ensures
        flag(props, name) != Some(true),
    decreases props.len(),
{
    if props.len() > 0 {
        if props[0].name == name {
            assert(props[0].value != PropertyValue::Bool(true));
        } else {
            let rest = props.drop_first();
            assert forall|k: int|
                0 <= k < rest.len() && (#[trigger] rest[k]).name == name implies rest[k].value
                != PropertyValue::Bool(true) by {
                assert(rest[k] == props[k + 1]);
            }
            lemma_flag_is_not_set(rest, name);
        }
    }
}

/// Unless the desktop wants one scale for all, the scale of each part of the layout follows
/// from its own scale so far, and from what its own monitors offer in the modes chosen for
/// them. A scale that all of them offer is kept. Otherwise it is one of the first monitor's
/// that all the others offer, none such being nearer to the scale so far; where there is none
/// such, nothing is scaled.
pub proof fn law_each_part_keeps_its_own_scale(
    state: CurrentStateView,
    wanted: Seq<OutputSettingView>,
    persist: bool,
    l: int,
)
    requires
        change_for(state, wanted, persist) is Ok,
        0 <= l < state.logical_monitors.len(),
        forall|k: int|
            0 <= k < state.properties.len() && (#[trigger] state.properties[k]).name
                == "global-scale-required"@ ==> state.properties[k].value != PropertyValue::Bool(
                true,
            ),
    ensures
        ({
            let p = change_for(state, wanted, persist)->Ok_0.plan[l];
            let own = state.logical_monitors[l].scale;
            let kept = forall|m: int|
                0 <= m < p.monitors.len() ==> offers(
                    (#[trigger] p.monitors[m]).supported_scales,
                    own,
                );
            &&& kept ==> p.scale == own
            &&& !kept ==> {
                ||| p.monitors[0].supported_scales.contains(p.scale) && (forall|m: int|
                    1 <= m < p.monitors.len() ==> offers(
                        (#[trigger] p.monitors[m]).supported_scales,
                        p.scale,
                    )) && forall|j: int|
                    0 <= j < p.monitors[0].supported_scales.len() && (forall|m: int|
                        1 <= m < p.monitors.len() ==> offers(
                            (#[trigger] p.monitors[m]).supported_scales,
                            p.monitors[0].supported_scales[j],
                        )) ==> gap(p.scale, own) <= gap(
                        #[trigger] p.monitors[0].supported_scales[j],
                        own,
                    )
                ||| p.scale.bits == ratio(1, 1) && forall|j: int|
                    0 <= j < p.monitors[0].supported_scales.len() ==> !(forall|m: int|
                        1 <= m < p.monitors.len() ==> offers(
                            (#[trigger] p.monitors[m]).supported_scales,
                            #[trigger] p.monitors[0].supported_scales[j],
                        ))
            }
        }),
{
    lemma_flag_is_not_set(state.properties, "global-scale-required"@);
    lemma_planned(state.monitors, wanted, state.logical_monitors);
    let first = planned(state.monitors, wanted, state.logical_monitors)->Ok_0;
    let p = change_for(state, wanted, persist)->Ok_0.plan[l];
    let own = state.logical_monitors[l].scale;
    let lists = scales_of(first[l]);
    assert(first[l].scale == own);
    assert(p.monitors == first[l].monitors);
    assert(p.scale == best_scale(own, lists));
    gnome::law_the_nearest_shared_scale_is_picked(own, lists);
    assert forall|m: int| 0 <= m < p.monitors.len() implies #[trigger] lists[m]
        == p.monitors[m].supported_scales by {}
    assert forall|m: int| 0 <= m < p.monitors.len() implies #[trigger] p.monitors[m].supported_scales
        == lists[m] by {}
    lemma_others_of_part(first[l], p.scale);
    if p.monitors.len() > 0 {
        let head = p.monitors[0].supported_scales;
        assert(lists[0] == head);
        assert forall|j: int| 0 <= j < head.len() implies others_offer(lists, #[trigger] head[j])
            == (forall|m: int|
            1 <= m < p.monitors.len() ==> offers(
                (#[trigger] p.monitors[m]).supported_scales,
                head[j],
            )) by {
            lemma_others_of_part(first[l], head[j]);
        }
    }
}

proof fn lemma_main_scale(plan: Seq<PlannedView>, i: int, q: int)
    requires
        0 <= i <= q < plan.len(),
        plan[q].primary,
        forall|k: int| i <= k < q ==> !(#[trigger] plan[k]).primary,
    ensures
        main_scale(plan, i) == plan[q].scale,
    decreases q - i,
{
    if i < q {
        assert(!plan[i].primary);
        lemma_main_scale(plan, i + 1, q);
    }
}

proof fn lemma_no_main_scale(plan: Seq<PlannedView>, i: int)
    requires
        0 <= i <= plan.len(),
        forall|k: int| i <= k < plan.len() ==> !(#[trigger] plan[k]).primary,
    ensures
        main_scale(plan, i) == plan[0].scale,
    decreases plan.len() - i,
{
    if i < plan.len() {
        assert(!plan[i].primary);
        lemma_no_main_scale(plan, i + 1);
    }
}

/// Whether a monitor of the layout other than its very first has this list of scales.
spec fn has_list(plan: Seq<PlannedView>, l: int, m: int, list: Seq<Double>) -> bool {
    &&& 0 <= l < plan.len()
    &&& 0 <= m < plan[l].monitors.len()
    &&& !(l == 0 && m == 0)
    &&& plan[l].monitors[m].supported_scales == list
}

/// The lists of a whole layout are those of its monitors, the first that of the first monitor
/// of the first part.
proof fn lemma_all_scales(plan: Seq<PlannedView>)
    requires
        plan.len() > 0,
        plan[0].monitors.len() > 0,
    ensures
        all_scales(plan).len() > 0,
        all_scales(plan)[0] == plan[0].monitors[0].supported_scales,
        forall|l: int, m: int, list: Seq<Double>| #[trigger]
            has_list(plan, l, m, list) ==> exists|k: int|
                1 <= k < all_scales(plan).len() && #[trigger] all_scales(plan)[k] == list,
    decreases plan.len(),
{
    let front = plan.drop_last();
    let before = all_scales(front);
    let own = scales_of(plan.last());
    let now = all_scales(plan);
    if front.len() > 0 {
        assert(front[0] == plan[0]);
        lemma_all_scales(front);
        assert(now[0] == before[0]);
    } else {
        assert(before =~= Seq::<Seq<Double>>::empty());
        assert(now[0] == own[0]);
    }
    assert forall|l: int, m: int, list: Seq<Double>| #[trigger]
        has_list(plan, l, m, list) implies exists|k: int|
        1 <= k < all_scales(plan).len() && #[trigger] all_scales(plan)[k] == list by {
        if l < front.len() {
            assert(has_list(front, l, m, list));
            let k = choose|k: int| 1 <= k < before.len() && #[trigger] before[k] == list;
            assert(now[k] == list);
        } else {
            assert(own[m] == list);
            assert(now[before.len() + m] == list);
        }
    }
}

proof fn lemma_list_at(plan: Seq<PlannedView>, k: int) -> (at: (int, int))
    requires
        plan.len() > 0,
        plan[0].monitors.len() > 0,
        1 <= k < all_scales(plan).len(),
    ensures
        has_list(plan, at.0, at.1, all_scales(plan)[k]),
    decreases plan.len(),
{
    let front = plan.drop_last();
    let before = all_scales(front);
    let now = all_scales(plan);
    if k < before.len() {
        assert(front.len() > 0);
        assert(front[0] == plan[0]);
        let at = lemma_list_at(front, k);
        assert(before[k] == now[k]);
        at
    } else {
        let m = k - before.len();
        assert(scales_of(plan.last())[m] == now[k]);
        if plan.len() == 1 {
            assert(before.len() == 0);
        }
        (plan.len() - 1, m)
    }
}

/// Whether every monitor of a layout but the first of its first part offers a scale.
pub open spec fn all_others_offer(plan: Seq<PlannedView>, x: Double) -> bool {
    forall|l: int, m: int|
        0 <= l < plan.len() && 0 <= m < plan[l].monitors.len() && !(l == 0 && m == 0) ==> offers(
            #[trigger] plan[l].monitors[m].supported_scales,
            x,
        )
}

proof fn lemma_others_of_all(plan: Seq<PlannedView>, x: Double)
    requires
        plan.len() > 0,
        plan[0].monitors.len() > 0,
    ensures
        others_offer(all_scales(plan), x) == all_others_offer(plan, x),
{
    lemma_all_scales(plan);
    let lists = all_scales(plan);
    if others_offer(lists, x) {
        assert forall|l: int, m: int|
            0 <= l < plan.len() && 0 <= m < plan[l].monitors.len() && !(l == 0 && m
                == 0) implies offers(#[trigger] plan[l].monitors[m].supported_scales, x) by {
            assert(has_list(plan, l, m, plan[l].monitors[m].supported_scales));
            let k = choose|k: int|
                1 <= k < lists.len() && #[trigger] lists[k]
                    == plan[l].monitors[m].supported_scales;
            assert(offers(lists[k], x));
        }
    }
    if all_others_offer(plan, x) {
        assert forall|k: int| 1 <= k < lists.len() implies offers(#[trigger] lists[k], x) by {
            let (l, m) = lemma_list_at(plan, k);
            assert(offers(plan[l].monitors[m].supported_scales, x));
        }
    }
}

/// Where the desktop wants one scale for all, every part of the layout gets the same, and it
/// follows from the scale so far of the first part that is primary, or of the very first where
/// none is. One that every monitor offers is kept. Otherwise it is one that every monitor
/// offers, and none that they all offer is nearer; where there is none such, nothing is
/// scaled.
pub proof fn law_one_scale_for_all_where_that_is_wanted(
    state: CurrentStateView,
    wanted: Seq<OutputSettingView>,
    persist: bool,
    k: int,
    q: int,
)
    requires
        change_for(state, wanted, persist) is Ok,
        0 <= k < state.properties.len(),
        state.properties[k].name == "global-scale-required"@,
        state.properties[k].value == PropertyValue::Bool(true),
        forall|j: int|
            0 <= j < k ==> (#[trigger] state.properties[j]).name != "global-scale-required"@,
        0 <= q < state.logical_monitors.len(),
        state.logical_monitors[q].primary || q == 0,
        forall|l: int|
            0 <= l < (if state.logical_monitors[q].primary {
                q
            } else {
                state.logical_monitors.len() as int
            }) ==> !(#[trigger] state.logical_monitors[l]).primary,
        state.logical_monitors[0].connectors.len() > 0,
    ensures
        ({
            let plan = change_for(state, wanted, persist)->Ok_0.plan;
            let target = state.logical_monitors[q].scale;
            let s = plan[0].scale;
            let head = plan[0].monitors[0].supported_scales;
            let kept = offers(head, target) && all_others_offer(plan, target);
            &&& forall|l: int| 0 <= l < plan.len() ==> (#[trigger] plan[l]).scale == s
            &&& kept ==> s == target
            &&& !kept ==> {
                ||| head.contains(s) && all_others_offer(plan, s) && forall|j: int|
                    0 <= j < head.len() && all_others_offer(plan, #[trigger] head[j]) ==> gap(
                        s,
                        target,
                    ) <= gap(head[j], target)
                ||| s.bits == ratio(1, 1) && forall|j: int|
                    0 <= j < head.len() ==> !all_others_offer(plan, #[trigger] head[j])
            }
        }),
{
    gnome::law_the_first_property_of_a_name_counts(
        state.properties,
        "global-scale-required"@,
        k,
    );
    lemma_planned(state.monitors, wanted, state.logical_monitors);
    let first = planned(state.monitors, wanted, state.logical_monitors)->Ok_0;
    let plan = change_for(state, wanted, persist)->Ok_0.plan;
    let target = state.logical_monitors[q].scale;
    let lists = all_scales(first);
    assert(keeps_place(state.monitors, wanted, first[0], state.logical_monitors[0]));
    assert forall|l: int| 0 <= l < first.len() implies (#[trigger] first[l]).primary
        == state.logical_monitors[l].primary && first[l].scale == state.logical_monitors[l].scale by {
        assert(keeps_place(state.monitors, wanted, first[l], state.logical_monitors[l]));
    }
    if state.logical_monitors[q].primary {
        assert forall|i: int| 0 <= i < q implies !(#[trigger] first[i]).primary by {
            assert(!state.logical_monitors[i].primary);
        }
        lemma_main_scale(first, 0, q);
    } else {
        assert forall|i: int| 0 <= i < first.len() implies !(#[trigger] first[i]).primary by {
            assert(!state.logical_monitors[i].primary);
        }
        lemma_no_main_scale(first, 0);
    }
    assert forall|l: int| 0 <= l < plan.len() implies (#[trigger] plan[l]).scale == best_scale(
        target,
        lists,
    ) && plan[l].monitors == first[l].monitors by {}
    lemma_all_scales(first);
    gnome::law_the_nearest_shared_scale_is_picked(target, lists);
    let head = plan[0].monitors[0].supported_scales;
    assert(lists[0] == head);
    assert forall|x: Double| #[trigger] others_offer(lists, x) == all_others_offer(plan, x) by {
        lemma_others_of_all(first, x);
        assert forall|l: int, m: int|
            0 <= l < plan.len() && 0 <= m
                < plan[l].monitors.len() implies #[trigger] plan[l].monitors[m]
            == first[l].monitors[m] by {}
        if all_others_offer(first, x) {
            assert forall|l: int, m: int|
                0 <= l < plan.len() && 0 <= m < plan[l].monitors.len() && !(l == 0 && m
                    == 0) implies offers(#[trigger] plan[l].monitors[m].supported_scales, x) by {
                assert(offers(first[l].monitors[m].supported_scales, x));
            }
        }
        if all_others_offer(plan, x) {
            assert forall|l: int, m: int|
                0 <= l < first.len() && 0 <= m < first[l].monitors.len() && !(l == 0 && m
                    == 0) implies offers(#[trigger] first[l].monitors[m].supported_scales, x) by {
                assert(offers(plan[l].monitors[m].supported_scales, x));
            }
        }
    }
    if forall|k: int| 0 <= k < lists.len() ==> offers(#[trigger] lists[k], target) {
        assert(offers(lists[0], target));
        assert(others_offer(lists, target));
    }
    if offers(head, target) && all_others_offer(plan, target) {
        assert(others_offer(lists, target));
    }
}

/// The modes of a connector are those of the last monitor that is listed for it.
pub proof fn law_the_last_monitor_on_a_connector_counts(
    monitors: Seq<MonitorInfoView>,
    connector: Seq<char>,
)
    ensures
        match modes_of(monitors, connector) {
            Some(modes) => exists|k: int|
                0 <= k < monitors.len() && (#[trigger] monitors[k]).connector == connector
                    && monitors[k].modes == modes && forall|j: int|
                    k < j < monitors.len() ==> (#[trigger] monitors[j]).connector != connector,
            None => forall|j: int|
                0 <= j < monitors.len() ==> (#[trigger] monitors[j]).connector != connector,
        },
    decreases monitors.len(),
{
    if monitors.len() > 0 {
        let front = monitors.drop_last();
        assert forall|j: int| 0 <= j < front.len() implies #[trigger] monitors[j] == front[j] by {}
        if monitors.last().connector == connector {
            assert(monitors[monitors.len() - 1].connector == connector);
        } else {
            law_the_last_monitor_on_a_connector_counts(front, connector);
            if let Some(modes) = modes_of(front, connector) {
                let k = choose|k: int|
                    0 <= k < front.len() && (#[trigger] front[k]).connector == connector
                        && front[k].modes == modes && forall|j: int|
                        k < j < front.len() ==> (#[trigger] front[j]).connector != connector;
                assert(monitors[k].connector == connector);
                assert forall|j: int| k < j < monitors.len() implies (
                #[trigger] monitors[j]).connector != connector by {
                    if j < front.len() {
                        assert(front[j].connector != connector);
                    }
                }
            }
        }
    }
}

proof fn lemma_first_with_id(modes: Seq<ModeInfoView>, id: Seq<char>, k: int)
    requires
        0 <= k <= modes.len(),
        k < modes.len() ==> modes[k].id == id,
        forall|j: int| 0 <= j < k ==> (#[trigger] modes[j]).id != id,
    ensures
        mode_with_id(modes, id) == (if k < modes.len() {
            Some(modes[k])
        } else {
            None
        }),
    decreases k,
{
    if k > 0 {
        let rest = modes.drop_first();
        assert(modes[0].id != id);
        assert forall|j: int| 0 <= j < k - 1 implies (#[trigger] rest[j]).id != id by {
            assert(rest[j] == modes[j + 1]);
        }
        lemma_first_with_id(rest, id, k - 1);
    }
}

proof fn lemma_first_in_use(modes: Seq<ModeInfoView>, k: int)
    requires
        0 <= k <= modes.len(),
        k < modes.len() ==> flag(modes[k].properties, "is-current"@) == Some(true),
        forall|j: int|
            0 <= j < k ==> flag((#[trigger] modes[j]).properties, "is-current"@) != Some(true),
    ensures
        mode_in_use(modes) == (if k < modes.len() {
            Some(modes[k])
        } else {
            None
        }),
    decreases k,
{
    if k > 0 {
        let rest = modes.drop_first();
        assert(flag(modes[0].properties, "is-current"@) != Some(true));
        assert forall|j: int| 0 <= j < k - 1 implies flag(
            (#[trigger] rest[j]).properties,
            "is-current"@,
        ) != Some(true) by {
            assert(rest[j] == modes[j + 1]);
        }
        lemma_first_in_use(rest, k - 1);
    }
}

/// A connector that is asked to change gets the first of its modes with exactly that id, as it
/// is listed, and it is an error where there is none; whatever mode it is in does not matter.
pub proof fn law_the_mode_that_is_asked_for_is_chosen(
    monitors: Seq<MonitorInfoView>,
    wanted: Seq<OutputSettingView>,
    connector: Seq<char>,
    modes: Seq<ModeInfoView>,
    id: Seq<char>,
    k: int,
)
    requires
        modes_of(monitors, connector) == Some(modes),
        asked_id(wanted, connector) == Some(id),
        0 <= k <= modes.len(),
        k < modes.len() ==> modes[k].id == id,
        forall|j: int| 0 <= j < k ==> (#[trigger] modes[j]).id != id,
    ensures
        k == modes.len() ==> choice(monitors, wanted, connector) == Err::<
            ChosenModeView,
            Seq<char>,
        >(connector + " does not offer mode "@ + id),
        k < modes.len() ==> (choice(monitors, wanted, connector) matches Ok(c) && {
            &&& c.connector == connector && c.id == id
            &&& c.width as int == (if modes[k].width < 0 {
                0
            } else {
                modes[k].width as int
            })
            &&& c.height as int == (if modes[k].height < 0 {
                0
            } else {
                modes[k].height as int
            })
            &&& c.supported_scales == modes[k].supported_scales
        }),
{
    lemma_first_with_id(modes, id, k);
}

/// A connector that is not asked to change stays in the mode that it is in, the first that
/// says so, and it is an error where none does. One that is shown but not listed is an error,
/// too.
pub proof fn law_other_monitors_keep_their_modes(
    monitors: Seq<MonitorInfoView>,
    wanted: Seq<OutputSettingView>,
    connector: Seq<char>,
    k: int,
)
    requires
        asked_id(wanted, connector) is None,
        modes_of(monitors, connector) matches Some(modes) ==> {
            &&& 0 <= k <= modes.len()
            &&& k < modes.len() ==> flag(modes[k].properties, "is-current"@) == Some(true)
            &&& forall|j: int|
                0 <= j < k ==> flag((#[trigger] modes[j]).properties, "is-current"@) != Some(true)
        },
    ensures
        match modes_of(monitors, connector) {
            None => choice(monitors, wanted, connector) == Err::<ChosenModeView, Seq<char>>(
                "Mutter listed "@ + connector + " without any modes"@,
            ),
            Some(modes) => if k == modes.len() {
                choice(monitors, wanted, connector) == Err::<ChosenModeView, Seq<char>>(
                    connector + " has no current mode"@,
                )
            } else {
                choice(monitors, wanted, connector) matches Ok(c) && {
                    &&& c.connector == connector && c.id == modes[k].id
                    &&& c.width as int == (if modes[k].width < 0 {
                        0
                    } else {
                        modes[k].width as int
                    })
                    &&& c.height as int == (if modes[k].height < 0 {
                        0
                    } else {
                        modes[k].height as int
                    })
                    &&& c.supported_scales == modes[k].supported_scales
                }
            },
        },
{
    if let Some(modes) = modes_of(monitors, connector) {
        lemma_first_in_use(modes, k);
    }
}

proof fn lemma_why_choices_fail(
    monitors: Seq<MonitorInfoView>,
    wanted: Seq<OutputSettingView>,
    connectors: Seq<Seq<char>>,
)
    ensures
        choices(monitors, wanted, connectors) matches Err(e) ==> exists|c: int|
            0 <= c < connectors.len() && choice(monitors, wanted, #[trigger] connectors[c]) == Err::<
                ChosenModeView,
                Seq<char>,
            >(e),
        forall|c: int|
            0 <= c < connectors.len() && choice(monitors, wanted, #[trigger] connectors[c]) is Err
                ==> choices(monitors, wanted, connectors) is Err,
    decreases connectors.len(),
{
    if connectors.len() > 0 {
        let front = connectors.drop_last();
        lemma_why_choices_fail(monitors, wanted, front);
        assert forall|c: int| 0 <= c < front.len() implies #[trigger] connectors[c] == front[c] by {}
        if let Err(e) = choices(monitors, wanted, connectors) {
            if choices(monitors, wanted, front) is Err {
                let c = choose|c: int|
                    0 <= c < front.len() && choice(monitors, wanted, #[trigger] front[c]) == Err::<
                        ChosenModeView,
                        Seq<char>,
                    >(e);
                assert(choice(monitors, wanted, connectors[c]) is Err);
            } else {
                assert(connectors[connectors.len() - 1] == connectors.last());
            }
        }
    }
}

proof fn lemma_plan_fails(
    monitors: Seq<MonitorInfoView>,
    wanted: Seq<OutputSettingView>,
    layout: Seq<LogicalMonitorInfoView>,
)
    ensures
        planned(monitors, wanted, layout) matches Err(e) ==> exists|l: int, c: int|
            0 <= l < layout.len() && 0 <= c < layout[l].connectors.len() && choice(
                monitors,
                wanted,
                #[trigger] layout[l].connectors[c],
            ) == Err::<ChosenModeView, Seq<char>>(e),
        forall|l: int, c: int|
            0 <= l < layout.len() && 0 <= c < layout[l].connectors.len() && choice(
                monitors,
                wanted,
                #[trigger] layout[l].connectors[c],
            ) is Err ==> planned(monitors, wanted, layout) is Err,
    decreases layout.len(),
{
    if layout.len() > 0 {
        let front = layout.drop_last();
        let last = layout.len() - 1;
        lemma_plan_fails(monitors, wanted, front);
        lemma_why_choices_fail(monitors, wanted, layout.last().connectors);
        if let Err(e) = planned(monitors, wanted, layout) {
            if planned(monitors, wanted, front) is Err {
                let (l, c) = choose|l: int, c: int|
                    0 <= l < front.len() && 0 <= c < front[l].connectors.len() && choice(
                        monitors,
                        wanted,
                        #[trigger] front[l].connectors[c],
                    ) == Err::<ChosenModeView, Seq<char>>(e);
                assert(layout[l].connectors[c] == front[l].connectors[c]);
            } else {
                let cs = layout.last().connectors;
                let c = choose|c: int|
                    0 <= c < cs.len() && choice(monitors, wanted, #[trigger] cs[c]) == Err::<
                        ChosenModeView,
                        Seq<char>,
                    >(e);
                assert(layout[last].connectors[c] == cs[c]);
            }
        }
        assert forall|l: int, c: int|
            0 <= l < layout.len() && 0 <= c < layout[l].connectors.len() && choice(
                monitors,
                wanted,
                #[trigger] layout[l].connectors[c],
            ) is Err implies planned(monitors, wanted, layout) is Err by {
            if l < front.len() {
                assert(front[l].connectors[c] == layout[l].connectors[c]);
            } else {
                assert(layout.last().connectors[c] == layout[l].connectors[c]);
            }
        }
    }
}

/// When a change is made, and what is sent along. It is refused where the compositor allows
/// none, where there is no layout, and where the mode of a single connector cannot be chosen,
/// for that connector's reason; otherwise it is made. It lasts only where it is to be
/// remembered, and the layout mode goes along where the compositor lets it be changed.
pub proof fn law_when_a_change_is_made(
    state: CurrentStateView,
    wanted: Seq<OutputSettingView>,
    persist: bool,
)
    ensures
        ({
            let allowed = flag(state.properties, "apply-monitors-config-allowed"@) != Some(false);
            let change = change_for(state, wanted, persist);
            &&& !allowed ==> change == Err::<ChangeView, Seq<char>>(
                "the compositor is currently refusing display configuration changes"@,
            )
            &&& allowed && state.logical_monitors.len() == 0 ==> change == Err::<
                ChangeView,
                Seq<char>,
            >("Mutter reports no active monitors"@)
            &&& allowed && state.logical_monitors.len() > 0 ==> (change is Ok <==> forall|
                l: int,
                c: int,
            |
                0 <= l < state.logical_monitors.len() && 0 <= c
                    < state.logical_monitors[l].connectors.len() ==> choice(
                    state.monitors,
                    wanted,
                    #[trigger] state.logical_monitors[l].connectors[c],
                ) is Ok)
            &&& allowed && state.logical_monitors.len() > 0 ==> (change matches Err(e) ==> exists|
                l: int,
                c: int,
            |
                0 <= l < state.logical_monitors.len() && 0 <= c
                    < state.logical_monitors[l].connectors.len() && choice(
                    state.monitors,
                    wanted,
                    #[trigger] state.logical_monitors[l].connectors[c],
                ) == Err::<ChosenModeView, Seq<char>>(e))
            &&& change matches Ok(sent) ==> {
                &&& sent.method == (if persist {
                    2u32
                } else {
                    1u32
                })
                &&& flag(state.properties, "supports-changing-layout-mode"@) == Some(true)
                    ==> sent.layout_mode == number(state.properties, "layout-mode"@)
                &&& flag(state.properties, "supports-changing-layout-mode"@) != Some(true)
                    ==> sent.layout_mode is None
                &&& sent.logical_layout <==> number(state.properties, "layout-mode"@) != Some(2u32)
            }
        }),
{
    lemma_plan_fails(state.monitors, wanted, state.logical_monitors);
    let layout = state.logical_monitors;
    if let Err(e) = planned(state.monitors, wanted, layout) {
        let (l, c) = choose|l: int, c: int|
            0 <= l < layout.len() && 0 <= c < layout[l].connectors.len() && choice(
                state.monitors,
                wanted,
                #[trigger] layout[l].connectors[c],
            ) == Err::<ChosenModeView, Seq<char>>(e);
        assert(choice(state.monitors, wanted, state.logical_monitors[l].connectors[c]) is Err);
    }
}

/// The displays that are skipped are those that are asked to change but on which no part of
/// the layout is shown, in the order of the instructions.
pub proof fn law_displays_outside_the_layout_are_skipped(
    layout: Seq<LogicalMonitorInfoView>,
    a: Seq<OutputSettingView>,
    b: Seq<OutputSettingView>,
    one: OutputSettingView,
)
    ensures
        outside_layout(layout, a + b) == outside_layout(layout, a) + outside_layout(layout, b),
        outside_layout(layout, seq![one]) == (if exists|l: int|
            0 <= l < layout.len() && (#[trigger] layout[l]).connectors.contains(one.connector) {
            Seq::<Seq<char>>::empty()
        } else {
            seq![one.connector]
        }),
    decreases b.len(),
{
    reveal_with_fuel(outside_layout, 2);
    assert(seq![one].drop_last() =~= Seq::<OutputSettingView>::empty());
    assert(seq![one].last() == one);
    assert(Seq::<Seq<char>>::empty().push(one.connector) =~= seq![one.connector]);
    if b.len() == 0 {
        assert(a + b =~= a);
        assert(outside_layout(layout, a) + outside_layout(layout, b) =~= outside_layout(layout, a));
    } else {
        law_displays_outside_the_layout_are_skipped(layout, a, b.drop_last(), one);
        assert((a + b).drop_last() =~= a + b.drop_last());
        assert((a + b).last() == b.last());
        assert(outside_layout(layout, a + b) =~= outside_layout(layout, a) + outside_layout(
            layout,
            b,
        ));
    }
}

} // verus!
