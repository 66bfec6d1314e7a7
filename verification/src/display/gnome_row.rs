//! The layout in the form in which it is sent, and the row that closes the gaps a change of
//! resolution opens up.

use vstd::prelude::*;

use crate::display::gnome::{ChosenModeView, PlannedLogicalMonitor, PlannedView};
use crate::display::gnome_plan::Change;
use crate::double::{divided, lemma_whole, Double};

verus! {

/// One monitor of the configuration.
#[derive(Debug)]
pub struct MonitorConfig {
    pub connector: String,
    pub mode_id: String,
}

pub struct MonitorConfigView {
    pub connector: Seq<char>,
    pub mode_id: Seq<char>,
}

impl DeepView for MonitorConfig {
    type V = MonitorConfigView;

    open spec fn deep_view(&self) -> MonitorConfigView {
        MonitorConfigView { connector: self.connector@, mode_id: self.mode_id@ }
    }
}

/// One part of the configuration.
#[derive(Debug)]
pub struct LogicalMonitorConfig {
    pub x: i32,
    pub y: i32,
    pub scale: Double,
    pub transform: u32,
    pub primary: bool,
    pub monitors: Vec<MonitorConfig>,
}

pub struct LogicalMonitorConfigView {
    pub x: i32,
    pub y: i32,
    pub scale: Double,
    pub transform: u32,
    pub primary: bool,
    pub monitors: Seq<MonitorConfigView>,
}

impl DeepView for LogicalMonitorConfig {
    type V = LogicalMonitorConfigView;

    open spec fn deep_view(&self) -> LogicalMonitorConfigView {
        LogicalMonitorConfigView {
            x: self.x,
            y: self.y,
            scale: self.scale,
            transform: self.transform,
            primary: self.primary,
            monitors: self.monitors.deep_view(),
        }
    }
}

pub open spec fn sent_monitor(m: ChosenModeView) -> MonitorConfigView {
    MonitorConfigView { connector: m.connector, mode_id: m.id }
}

pub open spec fn sent_part(p: PlannedView) -> LogicalMonitorConfigView {
    LogicalMonitorConfigView {
        x: p.x,
        y: p.y,
        scale: p.scale,
        transform: p.transform,
        primary: p.primary,
        monitors: p.monitors.map_values(|m: ChosenModeView| sent_monitor(m)),
    }
}

fn build_part(p: &PlannedLogicalMonitor) -> (r: LogicalMonitorConfig)
    ensures
        r.deep_view() == sent_part(p.deep_view()),
{
    let ghost all = p.monitors.deep_view();
    let mut monitors: Vec<MonitorConfig> = Vec::new();
    let mut i: usize = 0;
    while i < p.monitors.len()
        invariant
            i <= p.monitors.len(),
            all == p.monitors.deep_view(),
            all.len() == p.monitors.len(),
            monitors.deep_view() == all.take(i as int).map_values(
                |m: ChosenModeView| sent_monitor(m),
            ),
        decreases p.monitors.len() - i,
    {
        let ghost before = monitors.deep_view();
        let m = MonitorConfig {
            connector: p.monitors[i].connector.clone(),
            mode_id: p.monitors[i].id.clone(),
        };
        monitors.push(m);
        assert(all[i as int] == p.monitors@[i as int].deep_view());
        i = i + 1;
        assert(monitors.deep_view() =~= before.push(m.deep_view()));
        assert(monitors.deep_view() =~= all.take(i as int).map_values(
            |m: ChosenModeView| sent_monitor(m),
        ));
    }
    assert(all.take(i as int) =~= all);
    LogicalMonitorConfig {
        x: p.x,
        y: p.y,
        scale: p.scale,
        transform: p.transform,
        primary: p.primary,
        monitors,
    }
}

/// What to send for a plan.
pub fn build_config(plan: &[PlannedLogicalMonitor]) -> (r: Vec<LogicalMonitorConfig>)
    ensures
        r.deep_view() == plan.deep_view().map_values(|p: PlannedView| sent_part(p)),
{
    let ghost all = plan.deep_view();
    let mut out: Vec<LogicalMonitorConfig> = Vec::new();
    let mut i: usize = 0;
    while i < plan.len()
        invariant
            i <= plan.len(),
            all == plan.deep_view(),
            all.len() == plan.len(),
            out.deep_view() == all.take(i as int).map_values(|p: PlannedView| sent_part(p)),
        decreases plan.len() - i,
    {
        let ghost before = out.deep_view();
        let part = build_part(&plan[i]);
        out.push(part);
        assert(all[i as int] == plan@[i as int].deep_view());
        i = i + 1;
        assert(out.deep_view() =~= before.push(part.deep_view()));
        assert(out.deep_view() =~= all.take(i as int).map_values(|p: PlannedView| sent_part(p)));
    }
    assert(all.take(i as int) =~= all);
    out
}

/// Whether part `i` stands before part `j` in the row: by its place, and by its number where
/// two share a place.
pub open spec fn stands_before(plan: Seq<PlannedView>, i: int, j: int) -> bool {
    let a = plan[i];
    let b = plan[j];
    a.x < b.x || (a.x == b.x && (a.y < b.y || (a.y == b.y && i < j)))
}

pub open spec fn width(plan: Seq<PlannedView>, logical_layout: bool, i: int) -> int {
    plan[i].size(logical_layout).0 as int
}

/// The widths of those of the first `n` parts that stand before part `i`.
pub open spec fn offset(plan: Seq<PlannedView>, logical_layout: bool, i: int, n: nat) -> int
    decreases n,
{
    if n == 0 {
        0
    } else {
        offset(plan, logical_layout, i, (n - 1) as nat) + if stands_before(plan, n - 1, i) {
            width(plan, logical_layout, n - 1)
        } else {
            0
        }
    }
}

/// The widths of the first `n` parts.
pub open spec fn row_width(plan: Seq<PlannedView>, logical_layout: bool, n: nat) -> int
    decreases n,
{
    if n == 0 {
        0
    } else {
        row_width(plan, logical_layout, (n - 1) as nat) + width(plan, logical_layout, n - 1)
    }
}

/// The parts left to right in their existing order, each where those before it end.
pub open spec fn repacked(plan: Seq<PlannedView>, logical_layout: bool) -> Seq<PlannedView> {
    Seq::new(
        plan.len(),
        |i: int|
            PlannedView { x: offset(plan, logical_layout, i, plan.len()) as i32, y: 0, ..plan[i] },
    )
}

pub open spec fn all_wf(plan: Seq<PlannedView>) -> bool {
    forall|i: int| 0 <= i < plan.len() ==> (#[trigger] plan[i]).wf()
}

proof fn lemma_width(plan: Seq<PlannedView>, logical_layout: bool, i: int)
    requires
        all_wf(plan),
        0 <= i < plan.len(),
    ensures
        0 <= width(plan, logical_layout, i) <= i32::MAX,
{
    let p = plan[i];
    assert(p.wf());
    let (w, h) = p.turned();
    assert(w <= i32::MAX);
    if logical_layout && p.scale.positive() {
        lemma_whole(divided(w as nat, p.scale));
    }
}

proof fn lemma_offset(plan: Seq<PlannedView>, logical_layout: bool, i: int, n: nat)
    requires
        all_wf(plan),
        n <= plan.len(),
    ensures
        0 <= offset(plan, logical_layout, i, n) <= row_width(plan, logical_layout, n),
    decreases n,
{
    if n > 0 {
        lemma_offset(plan, logical_layout, i, (n - 1) as nat);
        lemma_width(plan, logical_layout, n - 1);
    }
}

proof fn lemma_row_grows(plan: Seq<PlannedView>, logical_layout: bool, m: nat, n: nat)
    requires
        all_wf(plan),
        m <= n <= plan.len(),
    ensures
        0 <= row_width(plan, logical_layout, m) <= row_width(plan, logical_layout, n),
    decreases n,
{
    if n > 0 {
        lemma_width(plan, logical_layout, n - 1);
        if m < n {
            lemma_row_grows(plan, logical_layout, m, (n - 1) as nat);
        } else {
            lemma_row_grows(plan, logical_layout, (m - 1) as nat, (n - 1) as nat);
        }
    }
}

/// Whether the whole row can be counted in `i32`.
pub fn row_fits(plan: &[PlannedLogicalMonitor], logical_layout: bool) -> (r: bool)
    requires
        all_wf(plan.deep_view()),
    ensures
        r == (row_width(plan.deep_view(), logical_layout, plan.deep_view().len()) <= i32::MAX),
{
    let ghost all = plan.deep_view();
    let mut total: i64 = 0;
    let mut i: usize = 0;
    while i < plan.len()
        invariant
            i <= plan.len(),
            all == plan.deep_view(),
            all.len() == plan.len(),
            all_wf(all),
            total == row_width(all, logical_layout, i as nat),
            0 <= total <= i32::MAX,
        decreases plan.len() - i,
    {
        assert(all[i as int] == plan@[i as int].deep_view());
        assert(all[i as int].wf());
        let (width, _) = plan[i].size(logical_layout);
        total = total + (width as i64);
        i = i + 1;
        if total > 0x7fff_ffff {
            proof {
                lemma_row_grows(all, logical_layout, i as nat, all.len());
            }
            return false;
        }
    }
    true
}

fn stands_first(plan: &Vec<PlannedLogicalMonitor>, i: usize, j: usize) -> (r: bool)
    requires
        i < plan.len(),
        j < plan.len(),
    ensures
        r == stands_before(plan.deep_view(), i as int, j as int),
{
    let a = &plan[i];
    let b = &plan[j];
    a.x < b.x || (a.x == b.x && (a.y < b.y || (a.y == b.y && i < j)))
}

/// Lays the monitors out left to right in their existing order, removing the gaps a
/// resolution change opens up.
pub fn repack(plan: &mut Vec<PlannedLogicalMonitor>, logical_layout: bool)
    requires
        all_wf(old(plan).deep_view()),
        row_width(old(plan).deep_view(), logical_layout, old(plan).deep_view().len()) <= i32::MAX,
    ensures
        final(plan).deep_view() == repacked(old(plan).deep_view(), logical_layout),
{
    let ghost all = plan.deep_view();
    let mut starts: Vec<i32> = Vec::new();
    let mut i: usize = 0;
    while i < plan.len()
        invariant
            i <= plan.len(),
            all == plan.deep_view(),
            all.len() == plan.len(),
            all_wf(all),
            row_width(all, logical_layout, all.len()) <= i32::MAX,
            starts.len() == i,
            forall|k: int|
                0 <= k < i ==> #[trigger] starts@[k] == offset(all, logical_layout, k, all.len()),
        decreases plan.len() - i,
    {
        let mut cursor: i32 = 0;
        let mut j: usize = 0;
        while j < plan.len()
            invariant
                i < plan.len(),
                j <= plan.len(),
                all == plan.deep_view(),
                all.len() == plan.len(),
                all_wf(all),
                row_width(all, logical_layout, all.len()) <= i32::MAX,
                cursor == offset(all, logical_layout, i as int, j as nat),
            decreases plan.len() - j,
        {
            proof {
                lemma_offset(all, logical_layout, i as int, (j + 1) as nat);
                lemma_row_grows(all, logical_layout, (j + 1) as nat, all.len());
                lemma_offset(all, logical_layout, i as int, j as nat);
                assert(all[j as int] == plan@[j as int].deep_view());
                assert(all[j as int].wf());
            }
            if stands_first(plan, j, i) {
                let (width, _) = plan[j].size(logical_layout);
                cursor = cursor + width;
            }
            j = j + 1;
        }
        starts.push(cursor);
        i = i + 1;
    }
    i = 0;
    while i < plan.len()
        invariant
            i <= plan.len(),
            all.len() == plan.len(),
            starts.len() == plan.len(),
            forall|k: int|
                0 <= k < plan.len() ==> #[trigger] starts@[k] == offset(
                    all,
                    logical_layout,
                    k,
                    all.len(),
                ),
            forall|k: int| i <= k < plan.len() ==> (#[trigger] plan@[k]).deep_view() == all[k],
            forall|k: int|
                0 <= k < i ==> (#[trigger] plan@[k]).deep_view() == repacked(all, logical_layout)[k],
        decreases plan.len() - i,
    {
        assert(plan@[i as int].deep_view() == all[i as int]);
        plan[i].x = starts[i];
        plan[i].y = 0;
        assert(starts@[i as int] == offset(all, logical_layout, i as int, all.len()));
        assert(plan@[i as int].deep_view() == repacked(all, logical_layout)[i as int]);
        i = i + 1;
    }
    assert(plan.deep_view() =~= repacked(all, logical_layout));
}

proof fn lemma_order(plan: Seq<PlannedView>, logical_layout: bool, i: int, j: int, n: nat)
    requires
        all_wf(plan),
        0 <= i < plan.len(),
        0 <= j < plan.len(),
        stands_before(plan, i, j),
        n <= plan.len(),
    ensures
        offset(plan, logical_layout, j, n) >= offset(plan, logical_layout, i, n) + if i < n {
            width(plan, logical_layout, i)
        } else {
            0
        },
    decreases n,
{
    if n > 0 {
        lemma_order(plan, logical_layout, i, j, (n - 1) as nat);
        lemma_width(plan, logical_layout, n - 1);
    }
}

/// In the row no part reaches into the next: whatever stands before another part ends where
/// that one starts, or sooner.
pub proof fn law_row_has_no_overlap(plan: Seq<PlannedView>, logical_layout: bool, i: int, j: int)
    requires
        all_wf(plan),
        row_width(plan, logical_layout, plan.len()) <= i32::MAX,
        0 <= i < plan.len(),
        0 <= j < plan.len(),
        stands_before(plan, i, j),
    ensures
        repacked(plan, logical_layout)[i].x + repacked(plan, logical_layout)[i].size(
            logical_layout,
        ).0 <= repacked(plan, logical_layout)[j].x,
{
    lemma_order(plan, logical_layout, i, j, plan.len());
    lemma_offset(plan, logical_layout, i, plan.len());
    lemma_offset(plan, logical_layout, j, plan.len());
}

/// The last of the first `n` parts that stand before part `i`.
spec fn predecessor(plan: Seq<PlannedView>, i: int, n: nat) -> Option<int>
    decreases n,
{
    if n == 0 {
        None
    } else {
        let before = predecessor(plan, i, (n - 1) as nat);
        if stands_before(plan, n - 1, i) && (before is None || stands_before(
            plan,
            before->Some_0,
            n - 1,
        )) {
            Some(n - 1)
        } else {
            before
        }
    }
}

proof fn lemma_predecessor(plan: Seq<PlannedView>, i: int, n: nat)
    requires
        0 <= i < plan.len(),
        n <= plan.len(),
    ensures
        match predecessor(plan, i, n) {
            Some(p) => 0 <= p < n && stands_before(plan, p, i) && forall|k: int|
                0 <= k < n && #[trigger] stands_before(plan, k, i) ==> k == p || stands_before(
                    plan,
                    k,
                    p,
                ),
            None => forall|k: int| 0 <= k < n ==> !#[trigger] stands_before(plan, k, i),
        },
    decreases n,
{
    if n > 0 {
        lemma_predecessor(plan, i, (n - 1) as nat);
    }
}

proof fn lemma_offset_from(plan: Seq<PlannedView>, logical_layout: bool, i: int, p: int, n: nat)
    requires
        0 <= i < plan.len(),
        0 <= p < plan.len(),
        n <= plan.len(),
        stands_before(plan, p, i),
        forall|k: int|
            0 <= k < plan.len() && #[trigger] stands_before(plan, k, i) ==> k == p || stands_before(
                plan,
                k,
                p,
            ),
    ensures
        offset(plan, logical_layout, i, n) == offset(plan, logical_layout, p, n) + if p < n {
            width(plan, logical_layout, p)
        } else {
            0
        },
    decreases n,
{
    if n > 0 {
        lemma_offset_from(plan, logical_layout, i, p, (n - 1) as nat);
        let k = n - 1;
        assert(stands_before(plan, k, i) <==> (k == p || stands_before(plan, k, p)));
    }
}

proof fn lemma_offset_of_first(plan: Seq<PlannedView>, logical_layout: bool, i: int, n: nat)
    requires
        forall|k: int| 0 <= k < n ==> !#[trigger] stands_before(plan, k, i),
    ensures
        offset(plan, logical_layout, i, n) == 0,
    decreases n,
{
    if n > 0 {
        lemma_offset_of_first(plan, logical_layout, i, (n - 1) as nat);
        assert(!stands_before(plan, n - 1, i));
    }
}

/// The row has no gaps: every part starts at zero or exactly where another part ends.
pub proof fn law_row_has_no_gap(plan: Seq<PlannedView>, logical_layout: bool, i: int)
    requires
        all_wf(plan),
        row_width(plan, logical_layout, plan.len()) <= i32::MAX,
        0 <= i < plan.len(),
    ensures
        repacked(plan, logical_layout)[i].y == 0,
        repacked(plan, logical_layout)[i].x == 0 || exists|p: int|
            0 <= p < plan.len() && p != i && #[trigger] repacked(plan, logical_layout)[p].x
                + repacked(plan, logical_layout)[p].size(logical_layout).0 == repacked(
                plan,
                logical_layout,
            )[i].x,
{
    lemma_predecessor(plan, i, plan.len());
    lemma_offset(plan, logical_layout, i, plan.len());
    match predecessor(plan, i, plan.len()) {
        Some(p) => {
            lemma_offset_from(plan, logical_layout, i, p, plan.len());
            lemma_offset(plan, logical_layout, p, plan.len());
            let row = repacked(plan, logical_layout);
            assert(row[p].x + row[p].size(logical_layout).0 == row[i].x);
        },
        None => {
            lemma_offset_of_first(plan, logical_layout, i, plan.len());
        },
    }
}

impl Change {
    /// Turns a change that was refused into the one that is tried next. Changing one
    /// monitor's resolution shifts everything to its right, which the compositor rejects as a
    /// gap or an overlap, so the parts are put into a row; with a single part there is
    /// nothing to put anywhere, and nothing more to try.
    pub fn retry(&mut self) -> (r: bool)
        requires
            all_wf(old(self).deep_view().plan),
            row_width(
                old(self).deep_view().plan,
                old(self).logical_layout,
                old(self).deep_view().plan.len(),
            ) <= i32::MAX,
        ensures
            r == (old(self).plan.len() >= 2),
            !r ==> *final(self) == *old(self),
            r ==> final(self).deep_view().plan == repacked(
                old(self).deep_view().plan,
                old(self).logical_layout,
            ) && final(self).method == old(self).method && final(self).layout_mode == old(
                self,
            ).layout_mode && final(self).logical_layout == old(self).logical_layout,
    {
        if self.plan.len() < 2 {
            return false;
        }
        repack(&mut self.plan, self.logical_layout);
        true
    }
}

/// The row keeps the order of the layout: what lies further to the left comes first, of two at
/// one place the upper, and of two at the very same place the one that is listed first. Each
/// starts where those before it have ended, the first at zero, and nothing but the place of a
/// part changes.
pub proof fn law_the_row_keeps_the_order(
    plan: Seq<PlannedView>,
    logical_layout: bool,
    i: int,
    j: int,
)
    requires
        all_wf(plan),
        row_width(plan, logical_layout, plan.len()) <= i32::MAX,
        0 <= i < plan.len(),
        0 <= j < plan.len(),
        i != j,
    ensures
        ({
            let row = repacked(plan, logical_layout);
            &&& row.len() == plan.len()
            &&& row[i].scale == plan[i].scale && row[i].transform == plan[i].transform
                && row[i].primary == plan[i].primary && row[i].monitors == plan[i].monitors
            &&& row[i].y == 0
            &&& row[i].x >= 0
            &&& plan[i].x < plan[j].x || (plan[i].x == plan[j].x && plan[i].y < plan[j].y) || (
            plan[i].x == plan[j].x && plan[i].y == plan[j].y && i < j) ==> row[i].x + plan[i].size(
                logical_layout,
            ).0 <= row[j].x
            &&& (forall|k: int|
                0 <= k < plan.len() && k != i ==> plan[i].x < (#[trigger] plan[k]).x) ==> row[i].x
                == 0
        }),
{
    lemma_offset(plan, logical_layout, i, plan.len());
    if stands_before(plan, i, j) {
        law_row_has_no_overlap(plan, logical_layout, i, j);
        assert(repacked(plan, logical_layout)[i].size(logical_layout) == plan[i].size(
            logical_layout,
        ));
    }
    if forall|k: int| 0 <= k < plan.len() && k != i ==> plan[i].x < (#[trigger] plan[k]).x {
        assert forall|k: int| 0 <= k < plan.len() implies !#[trigger] stands_before(plan, k, i) by {
            if k != i {
                assert(plan[i].x < plan[k].x);
            }
        }
        lemma_offset_of_first(plan, logical_layout, i, plan.len());
    }
}

/// The row is as wide as all its parts together.
pub proof fn law_the_row_is_as_wide_as_its_parts(
    plan: Seq<PlannedView>,
    logical_layout: bool,
    n: nat,
)
    requires
        n < plan.len(),
    ensures
        row_width(plan, logical_layout, 0) == 0,
        row_width(plan, logical_layout, n + 1) == row_width(plan, logical_layout, n)
            + plan[n as int].size(logical_layout).0,
{
}

/// A part is sent as it is planned: its place, scale, turn and rank, and for each of its
/// monitors the connector and the id of the mode.
pub proof fn law_a_part_is_sent_as_planned(p: PlannedView, m: int)
    requires
        0 <= m < p.monitors.len(),
    ensures
        sent_part(p).x == p.x,
        sent_part(p).y == p.y,
        sent_part(p).scale == p.scale,
        sent_part(p).transform == p.transform,
        sent_part(p).primary == p.primary,
        sent_part(p).monitors.len() == p.monitors.len(),
        sent_part(p).monitors[m].connector == p.monitors[m].connector,
        sent_part(p).monitors[m].mode_id == p.monitors[m].id,
{
}

} // verus!
