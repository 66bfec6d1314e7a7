//! A change of modes on X11: which CRTC gets which mode, how large the screen has to be for
//! it, and in which order the server is asked.

use vstd::prelude::*;

use crate::big::{lemma_pow2_positive, lemma_pow2_sum, pow2};
use crate::display::assign::{OutputSetting, OutputSettingView};
use crate::display::mode::{format_size, parse_mode_id, parsed_mode_id, size_text};
use crate::display::x11::{
    find_mode, mode_by_id, mode_id, rotated, turned, ModeInfo, OutputInfo, OutputInfoView,
};
use crate::double::{
    multiply, part, ratio, rounded, steps, to_whole, whole, EXPONENT, STEPS,
};
use crate::number::{decimal, to_decimal};
use crate::precision::lemma_round_at;
use crate::rate::{fixed, format_fixed};
use crate::text::{join, joined, same, trim, trimmed};

verus! {

/// The mode that a CRTC is to be given.
#[derive(Clone, Copy, Debug, PartialEq, Eq)]
pub struct Target {
    pub crtc: u32,
    pub mode: u32,
    pub width: u16,
    pub height: u16,
}

/// The first connected display with this name.
pub open spec fn connected_as(infos: Seq<OutputInfoView>, name: Seq<char>) -> Option<OutputInfoView>
    decreases infos.len(),
{
    if infos.len() == 0 {
        None
    } else if infos[0].connected && infos[0].name == name {
        Some(infos[0])
    } else {
        connected_as(infos.drop_first(), name)
    }
}

/// The first of the modes in a list that goes by this id.
pub open spec fn mode_called(ids: Seq<u32>, table: Seq<ModeInfo>, id: Seq<char>) -> Option<ModeInfo>
    decreases ids.len(),
{
    if ids.len() == 0 {
        None
    } else {
        match mode_by_id(table, ids[0]) {
            Some(m) => if m.text_id() == id {
                Some(m)
            } else {
                mode_called(ids.drop_first(), table, id)
            },
            None => mode_called(ids.drop_first(), table, id),
        }
    }
}

/// What an instruction comes to, or what stands in its way.
pub open spec fn target_for(
    infos: Seq<OutputInfoView>,
    table: Seq<ModeInfo>,
    setting: OutputSettingView,
) -> Result<Target, Seq<char>> {
    match connected_as(infos, setting.connector) {
        None => Err(setting.connector + " is not connected"@),
        Some(info) => if info.crtc == 0 {
            Err(setting.connector + " is switched off"@)
        } else {
            match mode_called(info.modes, table, setting.mode_id) {
                Some(m) => Ok(
                    Target { crtc: info.crtc, mode: m.id, width: m.width, height: m.height },
                ),
                None => Err(setting.connector + " does not offer mode "@ + setting.mode_id),
            }
        },
    }
}

fn find_output<'a>(infos: &'a Vec<OutputInfo>, name: &str) -> (r: Option<&'a OutputInfo>)
    ensures
        match (r, connected_as(infos.deep_view(), name@)) {
            (Some(got), Some(want)) => got.deep_view() == want,
            (None, None) => true,
            _ => false,
        },
{
    let ghost all = infos.deep_view();
    let mut i: usize = 0;
    assert(all.skip(0) =~= all);
    while i < infos.len()
        invariant
            i <= infos.len(),
            all == infos.deep_view(),
            all.len() == infos.len(),
            connected_as(all.skip(i as int), name@) == connected_as(all, name@),
        decreases infos.len() - i,
    {
        proof {
            assert(all.skip(i as int)[0] == infos@[i as int].deep_view());
            assert(all.skip(i as int).drop_first() =~= all.skip(i + 1));
        }
        if infos[i].connected && same(infos[i].name.as_str(), name) {
            return Some(&infos[i]);
        }
        i = i + 1;
    }
    None
}

fn find_called(ids: &Vec<u32>, table: &Vec<ModeInfo>, id: &str) -> (r: Option<ModeInfo>)
    ensures
        r == mode_called(ids@, table@, id@),
{
    let mut i: usize = 0;
    assert(ids@.skip(0) =~= ids@);
    while i < ids.len()
        invariant
            i <= ids.len(),
            mode_called(ids@.skip(i as int), table@, id@) == mode_called(ids@, table@, id@),
        decreases ids.len() - i,
    {
        proof {
            assert(ids@.skip(i as int)[0] == ids@[i as int]);
            assert(ids@.skip(i as int).drop_first() =~= ids@.skip(i + 1));
        }
        if let Some(m) = find_mode(table, ids[i]) {
            let text = mode_id(&m);
            if same(text.as_str(), id) {
                return Some(m);
            }
        }
        i = i + 1;
    }
    None
}

/// Looks up the CRTC and the mode that an instruction means.
pub fn find_target(infos: &Vec<OutputInfo>, table: &Vec<ModeInfo>, setting: &OutputSetting) -> (r:
    Result<Target, String>)
    ensures
        match (r, target_for(infos.deep_view(), table@, setting.deep_view())) {
            (Ok(got), Ok(want)) => got == want,
            (Err(got), Err(want)) => got@ == want,
            _ => false,
        },
{
    let info = match find_output(infos, setting.connector.as_str()) {
        Some(info) => info,
        None => {
            let mut text = setting.connector.clone();
            text.append(" is not connected");
            return Err(text);
        },
    };
    if info.crtc == 0 {
        let mut text = setting.connector.clone();
        text.append(" is switched off");
        return Err(text);
    }
    match find_called(&info.modes, table, setting.mode_id.as_str()) {
        Some(m) => Ok(Target { crtc: info.crtc, mode: m.id, width: m.width, height: m.height }),
        None => {
            let mut text = setting.connector.clone();
            text.append(" does not offer mode ");
            text.append(setting.mode_id.as_str());
            Err(text)
        },
    }
}

/// What every instruction means, in order, or what is wrong with the first one that cannot be
/// followed.
pub open spec fn targets_for(
    infos: Seq<OutputInfoView>,
    table: Seq<ModeInfo>,
    wanted: Seq<OutputSettingView>,
) -> Result<Seq<Target>, Seq<char>>
    decreases wanted.len(),
{
    if wanted.len() == 0 {
        Ok(Seq::empty())
    } else {
        match targets_for(infos, table, wanted.drop_last()) {
            Err(e) => Err(e),
            Ok(before) => match target_for(infos, table, wanted.last()) {
                Ok(target) => Ok(before.push(target)),
                Err(e) => Err(e),
            },
        }
    }
}

proof fn lemma_targets_stop(
    infos: Seq<OutputInfoView>,
    table: Seq<ModeInfo>,
    wanted: Seq<OutputSettingView>,
    n: int,
)
    requires
        0 <= n <= wanted.len(),
        targets_for(infos, table, wanted.take(n)) is Err,
    ensures
        targets_for(infos, table, wanted) == targets_for(infos, table, wanted.take(n)),
    decreases wanted.len(),
{
    if n < wanted.len() {
        assert(wanted.drop_last().take(n) =~= wanted.take(n));
        lemma_targets_stop(infos, table, wanted.drop_last(), n);
    } else {
        assert(wanted.take(n) =~= wanted);
    }
}

/// Looks up what every instruction means. One that cannot be followed stops the whole change
/// before anything is asked of the server.
pub fn find_targets(infos: &Vec<OutputInfo>, table: &Vec<ModeInfo>, wanted: &[OutputSetting]) -> (r:
    Result<Vec<Target>, String>)
    ensures
        match (r, targets_for(infos.deep_view(), table@, wanted.deep_view())) {
            (Ok(got), Ok(want)) => got@ == want,
            (Err(got), Err(want)) => got@ == want,
            _ => false,
        },
{
    let ghost all = wanted.deep_view();
    let ghost known = infos.deep_view();
    let mut targets: Vec<Target> = Vec::new();
    let mut i: usize = 0;
    assert(all.take(0) =~= Seq::empty());
    while i < wanted.len()
        invariant
            i <= wanted.len(),
            all == wanted.deep_view(),
            all.len() == wanted.len(),
            known == infos.deep_view(),
            targets_for(known, table@, all.take(i as int)) == Ok::<Seq<Target>, Seq<char>>(
                targets@,
            ),
        decreases wanted.len() - i,
    {
        proof {
            assert(all[i as int] == wanted@[i as int].deep_view());
            assert(all.take(i + 1).drop_last() =~= all.take(i as int));
            assert(all.take(i + 1).last() == all[i as int]);
        }
        match find_target(infos, table, &wanted[i]) {
            Ok(target) => {
                targets.push(target);
            },
            Err(e) => {
                proof {
                    lemma_targets_stop(known, table@, all, i + 1);
                }
                return Err(e);
            },
        }
        i = i + 1;
    }
    assert(all.take(i as int) =~= all);
    Ok(targets)
}

/// One instruction that cannot be followed stops them all, even those listed before it, and
/// otherwise every one of them is followed, in order.
pub proof fn law_one_bad_instruction_stops_all(
    infos: Seq<OutputInfoView>,
    table: Seq<ModeInfo>,
    wanted: Seq<OutputSettingView>,
)
    ensures
        targets_for(infos, table, wanted) is Err <==> exists|i: int|
            0 <= i < wanted.len() && target_for(infos, table, #[trigger] wanted[i]) is Err,
        targets_for(infos, table, wanted) matches Ok(targets) ==> targets.len() == wanted.len()
            && forall|i: int|
            0 <= i < wanted.len() ==> target_for(infos, table, #[trigger] wanted[i]) == Ok::<
                Target,
                Seq<char>,
            >(targets[i]),
    decreases wanted.len(),
{
    if wanted.len() > 0 {
        let front = wanted.drop_last();
        law_one_bad_instruction_stops_all(infos, table, front);
        assert forall|i: int| 0 <= i < front.len() implies #[trigger] front[i] == wanted[i] by {}
        if targets_for(infos, table, front) is Err {
            let i = choose|i: int|
                0 <= i < front.len() && target_for(infos, table, #[trigger] front[i]) is Err;
            assert(target_for(infos, table, wanted[i]) is Err);
        } else if target_for(infos, table, wanted.last()) is Err {
            assert(target_for(infos, table, wanted[wanted.len() - 1]) is Err);
        } else {
            assert forall|i: int| 0 <= i < wanted.len() implies target_for(
                infos,
                table,
                #[trigger] wanted[i],
            ) == Ok::<Target, Seq<char>>(targets_for(infos, table, wanted)->Ok_0[i]) by {
                if i < front.len() {
                    assert(front[i] == wanted[i]);
                }
            }
        }
    }
}

/// A CRTC as the server describes it.
#[derive(Debug)]
pub struct CrtcInfo {
    pub mode: u32,
    pub x: i16,
    pub y: i16,
    pub width: u16,
    pub height: u16,
    pub rotation: u16,
    pub outputs: Vec<u32>,
}

/// A new configuration for a CRTC: another mode, everything else as it is.
#[derive(Debug)]
pub struct Change {
    pub crtc: u32,
    pub mode: u32,
    pub width: u16,
    pub height: u16,
    pub x: i16,
    pub y: i16,
    pub rotation: u16,
    pub outputs: Vec<u32>,
}

impl Change {
    /// Puts a mode where the CRTC is, turned as it is and shown on the same connectors.
    pub fn new(target: Target, info: CrtcInfo) -> (r: Self)
        ensures
            r == (Change {
                crtc: target.crtc,
                mode: target.mode,
                width: target.width,
                height: target.height,
                x: info.x,
                y: info.y,
                rotation: info.rotation,
                outputs: info.outputs,
            }),
    {
        Change {
            crtc: target.crtc,
            mode: target.mode,
            width: target.width,
            height: target.height,
            x: info.x,
            y: info.y,
            rotation: info.rotation,
            outputs: info.outputs,
        }
    }

    /// Where the picture ends, to the right and at the bottom.
    pub open spec fn end(self) -> (int, int) {
        let (w, h) = turned(self.width, self.height, self.rotation);
        (self.x + w, self.y + h)
    }
}

/// A CRTC of the screen. What the server says of one that is about to change is not needed.
#[derive(Debug)]
pub struct Crtc {
    pub crtc: u32,
    pub info: Option<CrtcInfo>,
}

/// The first change to a CRTC.
pub open spec fn change_of(changes: Seq<Change>, crtc: u32) -> Option<Change>
    decreases changes.len(),
{
    if changes.len() == 0 {
        None
    } else if changes[0].crtc == crtc {
        Some(changes[0])
    } else {
        change_of(changes.drop_first(), crtc)
    }
}

/// Where the picture of a CRTC is going to end; nowhere for one that shows nothing.
pub open spec fn crtc_end(changes: Seq<Change>, c: Crtc) -> Option<(int, int)> {
    match change_of(changes, c.crtc) {
        Some(change) => Some(change.end()),
        None => match c.info {
            Some(info) => if info.mode == 0 {
                None
            } else {
                Some((info.x + info.width, info.y + info.height))
            },
            None => None,
        },
    }
}

pub open spec fn larger(a: int, b: int) -> int {
    if a >= b {
        a
    } else {
        b
    }
}

/// Where the pictures of all the CRTCs end.
pub open spec fn extent(changes: Seq<Change>, crtcs: Seq<Crtc>) -> (int, int)
    decreases crtcs.len(),
{
    if crtcs.len() == 0 {
        (0, 0)
    } else {
        let (w, h) = extent(changes, crtcs.drop_last());
        match crtc_end(changes, crtcs.last()) {
            Some((x, y)) => (larger(w, x), larger(h, y)),
            None => (w, h),
        }
    }
}

/// A length in the protocol's 16 bits; what does not fit wraps around.
pub open spec fn wrapped(n: int) -> u16 {
    (n % 0x1_0000) as u16
}

pub open spec fn size_after(changes: Seq<Change>, crtcs: Seq<Crtc>) -> (u16, u16) {
    let (w, h) = extent(changes, crtcs);
    (wrapped(larger(w, 1)), wrapped(larger(h, 1)))
}

fn find_change(changes: &Vec<Change>, crtc: u32) -> (r: Option<usize>)
    ensures
        match (r, change_of(changes@, crtc)) {
            (Some(i), Some(want)) => i < changes.len() && changes@[i as int] == want,
            (None, None) => true,
            _ => false,
        },
{
    let mut i: usize = 0;
    assert(changes@.skip(0) =~= changes@);
    while i < changes.len()
        invariant
            i <= changes.len(),
            change_of(changes@.skip(i as int), crtc) == change_of(changes@, crtc),
        decreases changes.len() - i,
    {
        proof {
            assert(changes@.skip(i as int)[0] == changes@[i as int]);
            assert(changes@.skip(i as int).drop_first() =~= changes@.skip(i + 1));
        }
        if changes[i].crtc == crtc {
            return Some(i);
        }
        i = i + 1;
    }
    None
}

/// Whether the server has to be asked about a CRTC: it is not one of those that change.
pub fn is_untouched(changes: &Vec<Change>, crtc: u32) -> (r: bool)
    ensures
        r == (change_of(changes@, crtc) is None),
{
    match find_change(changes, crtc) {
        Some(_) => false,
        None => true,
    }
}

fn end_of(changes: &Vec<Change>, c: &Crtc) -> (r: Option<(i32, i32)>)
    ensures
        match (r, crtc_end(changes@, *c)) {
            (Some(got), Some(want)) => got.0 == want.0 && got.1 == want.1,
            (None, None) => true,
            _ => false,
        },
{
    match find_change(changes, c.crtc) {
        Some(i) => {
            let change = &changes[i];
            let (w, h) = rotated(change.width, change.height, change.rotation);
            Some(((change.x as i32) + (w as i32), (change.y as i32) + (h as i32)))
        },
        None => match &c.info {
            Some(info) => if info.mode == 0 {
                None
            } else {
                Some(
                    (
                        (info.x as i32) + (info.width as i32),
                        (info.y as i32) + (info.height as i32),
                    ),
                )
            },
            None => None,
        },
    }
}

/// The size of the screen after a change. The framebuffer must cover every CRTC, including
/// the ones we are not touching.
pub fn screen_size_after(changes: &Vec<Change>, crtcs: &Vec<Crtc>) -> (r: (u16, u16))
    ensures
        r == size_after(changes@, crtcs@),
{
    let mut width: i32 = 0;
    let mut height: i32 = 0;
    let mut i: usize = 0;
    while i < crtcs.len()
        invariant
            i <= crtcs.len(),
            0 <= width <= 0x1_8000,
            0 <= height <= 0x1_8000,
            (width as int, height as int) == extent(changes@, crtcs@.take(i as int)),
        decreases crtcs.len() - i,
    {
        assert(crtcs@.take(i + 1).drop_last() =~= crtcs@.take(i as int));
        if let Some((x, y)) = end_of(changes, &crtcs[i]) {
            if x > width {
                width = x;
            }
            if y > height {
                height = y;
            }
        }
        i = i + 1;
    }
    assert(crtcs@.take(i as int) =~= crtcs@);
    if width < 1 {
        width = 1;
    }
    if height < 1 {
        height = 1;
    }
    ((width % 0x1_0000) as u16, (height % 0x1_0000) as u16)
}

/// One request to the server.
#[derive(Clone, Copy, Debug, PartialEq, Eq, Structural)]
pub enum Request {
    /// Make the screen this large.
    Resize(u16, u16),
    /// Carry out the change with this number.
    Configure(usize),
}

/// The size that the screen is given before anything moves, where it has to grow.
pub open spec fn grown(screen: (u16, u16), size: (u16, u16)) -> Option<(u16, u16)> {
    if size.0 > screen.0 || size.1 > screen.1 {
        Some(
            (
                larger(size.0 as int, screen.0 as int) as u16,
                larger(size.1 as int, screen.1 as int) as u16,
            ),
        )
    } else {
        None
    }
}

/// The size that the screen is given once everything has moved, where it may shrink.
pub open spec fn shrunk(screen: (u16, u16), size: (u16, u16)) -> Option<(u16, u16)> {
    if grown(screen, size) is None && (size.0 < screen.0 || size.1 < screen.1) {
        Some(size)
    } else {
        None
    }
}

pub open spec fn resize(size: Option<(u16, u16)>) -> Seq<Request> {
    match size {
        Some((w, h)) => seq![Request::Resize(w, h)],
        None => Seq::empty(),
    }
}

/// What the server is asked, one after the other: to grow the screen, to carry out every
/// change, to shrink the screen.
pub open spec fn requests_for(n: nat, screen: (u16, u16), size: (u16, u16)) -> Seq<Request> {
    if n == 0 {
        Seq::empty()
    } else {
        resize(grown(screen, size)) + Seq::new(n, |i: int| Request::Configure(i as usize)) + resize(
            shrunk(screen, size),
        )
    }
}

/// The requests that carry out the changes, in order; the first that fails ends it.
///
/// The framebuffer has to be big enough before a CRTC can be placed inside it, and it may
/// only shrink once nothing sticks out any more.
pub fn requests(changes: &Vec<Change>, crtcs: &Vec<Crtc>, screen: (u16, u16)) -> (r: Vec<Request>)
    ensures
        r@ == requests_for(changes@.len(), screen, size_after(changes@, crtcs@)),
{
    let mut out: Vec<Request> = Vec::new();
    if changes.len() == 0 {
        return out;
    }
    let (width, height) = screen_size_after(changes, crtcs);
    let grow = width > screen.0 || height > screen.1;
    if grow {
        let w: u16 = if width >= screen.0 {
            width
        } else {
            screen.0
        };
        let h: u16 = if height >= screen.1 {
            height
        } else {
            screen.1
        };
        out.push(Request::Resize(w, h));
    }
    let ghost first = resize(grown(screen, (width, height)));
    assert(out@ =~= first);
    let mut i: usize = 0;
    while i < changes.len()
        invariant
            i <= changes.len(),
            out@ == first + Seq::new(i as nat, |i: int| Request::Configure(i as usize)),
        decreases changes.len() - i,
    {
        out.push(Request::Configure(i));
        i = i + 1;
        assert(out@ =~= first + Seq::new(i as nat, |i: int| Request::Configure(i as usize)));
    }
    if !grow && (width < screen.0 || height < screen.1) {
        out.push(Request::Resize(width, height));
    }
    assert(out@ =~= requests_for(changes@.len(), screen, size_after(changes@, crtcs@)));
    out
}

/// Without instructions nothing is wrong and nothing is asked of the server.
pub proof fn law_no_instructions_change_nothing(
    infos: Seq<OutputInfoView>,
    table: Seq<ModeInfo>,
    screen: (u16, u16),
    size: (u16, u16),
)
    ensures
        targets_for(infos, table, Seq::empty()) == Ok::<Seq<Target>, Seq<char>>(Seq::empty()),
        requests_for(0, screen, size).len() == 0,
{
}

/// The size of the screen after the first `k` requests.
pub open spec fn screen_at(requests: Seq<Request>, screen: (u16, u16), k: nat) -> (u16, u16)
    decreases k,
{
    if k == 0 {
        screen
    } else {
        match requests[k - 1] {
            Request::Resize(w, h) => (w, h),
            Request::Configure(_) => screen_at(requests, screen, (k - 1) as nat),
        }
    }
}

proof fn lemma_screen_at(n: nat, screen: (u16, u16), size: (u16, u16), k: nat)
    requires
        0 < n,
        resize(grown(screen, size)).len() <= k <= resize(grown(screen, size)).len() + n,
    ensures
        screen_at(requests_for(n, screen, size), screen, k) == (match grown(screen, size) {
            Some(g) => g,
            None => screen,
        }),
    decreases k,
{
    let first = resize(grown(screen, size));
    let all = requests_for(n, screen, size);
    if k > first.len() {
        lemma_screen_at(n, screen, size, (k - 1) as nat);
        assert(all[k - 1] is Configure);
    } else if k > 0 {
        assert(all[0] == first[0]);
    }
}

/// Whenever a mode is set, the screen is already as large as everything on it is going to
/// be, and it never becomes smaller than that.
pub proof fn law_screen_is_large_enough(n: nat, screen: (u16, u16), size: (u16, u16), k: int)
    requires
        0 <= k < requests_for(n, screen, size).len(),
        requests_for(n, screen, size)[k] is Configure,
    ensures
        screen_at(requests_for(n, screen, size), screen, k as nat).0 >= size.0,
        screen_at(requests_for(n, screen, size), screen, k as nat).1 >= size.1,
{
    let first = resize(grown(screen, size));
    let all = requests_for(n, screen, size);
    if k < first.len() {
        assert(all[k] == first[k]);
    }
    if k > first.len() + n - 1 {
        assert(all[k] == resize(shrunk(screen, size))[k - first.len() - n]);
    }
    lemma_screen_at(n, screen, size, k as nat);
}

/// A screen that need not grow ends up exactly as large as what is on it; one that grows
/// keeps its other side.
pub proof fn law_screen_ends_up_right(n: nat, screen: (u16, u16), size: (u16, u16))
    requires
        n > 0,
    ensures
        screen_at(
            requests_for(n, screen, size),
            screen,
            requests_for(n, screen, size).len(),
        ) == (match grown(screen, size) {
            Some(g) => g,
            None => size,
        }),
{
    let first = resize(grown(screen, size));
    let all = requests_for(n, screen, size);
    lemma_screen_at(n, screen, size, (first.len() + n) as nat);
    if shrunk(screen, size) is Some {
        assert(all[all.len() - 1] == resize(shrunk(screen, size))[0]);
    }
}

proof fn lemma_extent(changes: Seq<Change>, crtcs: Seq<Crtc>, k: int)
    requires
        0 <= k < crtcs.len(),
        crtc_end(changes, crtcs[k]) is Some,
    ensures
        crtc_end(changes, crtcs[k])->Some_0.0 <= extent(changes, crtcs).0,
        crtc_end(changes, crtcs[k])->Some_0.1 <= extent(changes, crtcs).1,
    decreases crtcs.len(),
{
    if k < crtcs.len() - 1 {
        assert(crtcs.drop_last()[k] == crtcs[k]);
        lemma_extent(changes, crtcs.drop_last(), k);
    }
}

/// The screen covers every CRTC, as long as its size can be said in the protocol's 16 bits.
pub proof fn law_screen_covers_every_crtc(changes: Seq<Change>, crtcs: Seq<Crtc>, k: int)
    requires
        0 <= k < crtcs.len(),
        crtc_end(changes, crtcs[k]) is Some,
        extent(changes, crtcs).0 <= u16::MAX,
        extent(changes, crtcs).1 <= u16::MAX,
    ensures
        crtc_end(changes, crtcs[k])->Some_0.0 <= size_after(changes, crtcs).0,
        crtc_end(changes, crtcs[k])->Some_0.1 <= size_after(changes, crtcs).1,
{
    lemma_extent(changes, crtcs, k);
}

/// What to say of a CRTC that the server would not change. `status` is the answer's name.
pub fn refusal(crtc: u32, status: &str) -> (r: String)
    ensures
        r@ == "the X server refused the mode change for CRTC "@ + decimal(crtc as nat) + " ("@
            + status@ + ")"@,
{
    let mut text = "the X server refused the mode change for CRTC ".to_string();
    text.append(to_decimal(crtc as u128).as_str());
    text.append(" (");
    text.append(status);
    text.append(")");
    text
}

/// The arguments of `xrandr` for the first `n` instructions, or the first mode id that
/// cannot be read.
pub open spec fn xrandr_arguments(wanted: Seq<OutputSettingView>, n: nat) -> Result<
    Seq<Seq<char>>,
    Seq<char>,
>
    decreases n,
{
    if n == 0 {
        Ok(Seq::empty())
    } else {
        match xrandr_arguments(wanted, (n - 1) as nat) {
            Err(e) => Err(e),
            Ok(before) => match parsed_mode_id(wanted[n - 1].mode_id) {
                None => Err("unreadable mode id "@ + wanted[n - 1].mode_id),
                Some((width, height, refresh)) => Ok(
                    before + seq![
                        "--output"@,
                        wanted[n - 1].connector,
                        "--mode"@,
                        size_text(width, height),
                        "--rate"@,
                        fixed(refresh, 3),
                    ],
                ),
            },
        }
    }
}

proof fn lemma_xrandr_fails(wanted: Seq<OutputSettingView>, k: nat, n: nat)
    requires
        k <= n,
        xrandr_arguments(wanted, k) is Err,
    ensures
        xrandr_arguments(wanted, n) == xrandr_arguments(wanted, k),
    decreases n,
{
    if k < n {
        lemma_xrandr_fails(wanted, k, (n - 1) as nat);
    }
}

/// The arguments for `xrandr`, the last resort: it knows how to reflow a layout when our own
/// arithmetic is rejected.
pub fn xrandr_args(wanted: &[OutputSetting]) -> (r: Result<Vec<String>, String>)
    ensures
        match (r, xrandr_arguments(wanted.deep_view(), wanted.deep_view().len())) {
            (Ok(got), Ok(want)) => got.deep_view() == want,
            (Err(got), Err(want)) => got@ == want,
            _ => false,
        },
{
    let ghost all = wanted.deep_view();
    let mut args: Vec<String> = Vec::new();
    let mut i: usize = 0;
    assert(args.deep_view() =~= Seq::empty());
    while i < wanted.len()
        invariant
            i <= wanted.len(),
            all == wanted.deep_view(),
            all.len() == wanted.len(),
            xrandr_arguments(all, i as nat) is Ok,
            args.deep_view() == xrandr_arguments(all, i as nat)->Ok_0,
        decreases wanted.len() - i,
    {
        let ghost before = args.deep_view();
        let setting = &wanted[i];
        assert(all[i as int] == setting.deep_view());
        match parse_mode_id(setting.mode_id.as_str()) {
            Some((width, height, refresh)) => {
                args.push("--output".to_string());
                args.push(setting.connector.clone());
                args.push("--mode".to_string());
                args.push(format_size(width, height));
                args.push("--rate".to_string());
                args.push(format_fixed(refresh, 3));
                assert(args.deep_view() =~= before + seq![
                    "--output"@,
                    setting.connector@,
                    "--mode"@,
                    size_text(width, height),
                    "--rate"@,
                    fixed(refresh, 3),
                ]);
            },
            None => {
                let mut text = "unreadable mode id ".to_string();
                text.append(setting.mode_id.as_str());
                proof {
                    lemma_xrandr_fails(all, (i + 1) as nat, all.len());
                }
                return Err(text);
            },
        }
        i = i + 1;
    }
    Ok(args)
}

/// What to say when `xrandr` has failed.
pub fn xrandr_failure(args: &Vec<String>, stderr: &str) -> (r: String)
    ensures
        r@ == "xrandr "@ + joined(args.deep_view(), " "@) + " failed: "@ + trimmed(stderr@),
{
    let mut text = "xrandr ".to_string();
    text.append(join(args, " ").as_str());
    text.append(" failed: ");
    text.append(trim(stderr).as_str());
    text
}

/// The bits of the millimetres in an inch.
pub const INCH: u64 = 0x4039_6666_6666_6666;

/// X11 has no notion of DPI beyond the screen size in millimetres, and every toolkit
/// assumes this value when converting.
pub const ASSUMED_DPI: u64 = 96;

/// How long so many pixels are, each step of the way to the nearest number.
pub open spec fn length_of(pixels: u16) -> i32 {
    whole(rounded(steps(rounded(steps(INCH) * pixels as nat, 1)), ASSUMED_DPI as nat))
}

/// The length of a side of the screen.
pub fn millimetres(pixels: u16) -> (r: u32)
    ensures
        r == length_of(pixels),
{
    to_whole(part(multiply(INCH, pixels as u32), ASSUMED_DPI)) as u32
}

/// Of the changes to a CRTC the first counts; one that no change names is not touched.
pub proof fn law_the_first_change_to_a_crtc_counts(changes: Seq<Change>, crtc: u32, k: int)
    requires
        0 <= k <= changes.len(),
        k < changes.len() ==> changes[k].crtc == crtc,
        forall|j: int| 0 <= j < k ==> (#[trigger] changes[j]).crtc != crtc,
    ensures
        change_of(changes, crtc) == (if k < changes.len() {
            Some(changes[k])
        } else {
            None
        }),
    decreases k,
{
    if k > 0 {
        let rest = changes.drop_first();
        assert(changes[0].crtc != crtc);
        assert forall|j: int| 0 <= j < k - 1 implies (#[trigger] rest[j]).crtc != crtc by {
            assert(rest[j] == changes[j + 1]);
        }
        law_the_first_change_to_a_crtc_counts(rest, crtc, k - 1);
    }
}

/// Whether a picture ends at a column or a row, from the fields of its CRTC or of the first
/// change to it.
pub open spec fn ends_at(changes: Seq<Change>, crtc: Crtc, end: int, across: bool) -> bool {
    ||| exists|c: int|
        0 <= c < changes.len() && (#[trigger] changes[c]).crtc == crtc.crtc && (forall|j: int|
            0 <= j < c ==> (#[trigger] changes[j]).crtc != crtc.crtc) && end == ({
            let on_its_side = changes[c].rotation & 2 == 2 || changes[c].rotation & 8 == 8;
            if across && on_its_side {
                changes[c].x + changes[c].height
            } else if across {
                changes[c].x + changes[c].width
            } else if on_its_side {
                changes[c].y + changes[c].width
            } else {
                changes[c].y + changes[c].height
            }
        })
    ||| (forall|j: int| 0 <= j < changes.len() ==> (#[trigger] changes[j]).crtc != crtc.crtc)
        && crtc.info is Some && crtc.info->Some_0.mode != 0 && end == (if across {
        crtc.info->Some_0.x + crtc.info->Some_0.width
    } else {
        crtc.info->Some_0.y + crtc.info->Some_0.height
    })
}

proof fn lemma_change_of(changes: Seq<Change>, crtc: u32) -> (k: int)
    ensures
        0 <= k <= changes.len(),
        k < changes.len() ==> changes[k].crtc == crtc,
        forall|j: int| 0 <= j < k ==> (#[trigger] changes[j]).crtc != crtc,
    decreases changes.len(),
{
    if changes.len() == 0 || changes[0].crtc == crtc {
        0
    } else {
        let rest = changes.drop_first();
        let k = lemma_change_of(rest, crtc);
        assert forall|j: int| 0 <= j < k + 1 implies (#[trigger] changes[j]).crtc != crtc by {
            if j > 0 {
                assert(changes[j] == rest[j - 1]);
            }
        }
        k + 1
    }
}

proof fn lemma_extent_is_reached(changes: Seq<Change>, crtcs: Seq<Crtc>)
    ensures
        extent(changes, crtcs).0 >= 0,
        extent(changes, crtcs).1 >= 0,
        extent(changes, crtcs).0 == 0 || exists|k: int|
            0 <= k < crtcs.len() && ends_at(
                changes,
                #[trigger] crtcs[k],
                extent(changes, crtcs).0,
                true,
            ),
        extent(changes, crtcs).1 == 0 || exists|k: int|
            0 <= k < crtcs.len() && ends_at(
                changes,
                #[trigger] crtcs[k],
                extent(changes, crtcs).1,
                false,
            ),
    decreases crtcs.len(),
{
    if crtcs.len() > 0 {
        let front = crtcs.drop_last();
        let last = crtcs.len() - 1;
        lemma_extent_is_reached(changes, front);
        let (w, h) = extent(changes, front);
        let (x, y) = extent(changes, crtcs);
        if let Some(end) = crtc_end(changes, crtcs.last()) {
            let c = lemma_change_of(changes, crtcs[last].crtc);
            law_the_first_change_to_a_crtc_counts(changes, crtcs[last].crtc, c);
            if c < changes.len() {
                assert(changes[c].crtc == crtcs[last].crtc);
            }
            assert(ends_at(changes, crtcs[last], end.0, true));
            assert(ends_at(changes, crtcs[last], end.1, false));
        }
        if x == w && w != 0 {
            let k = choose|k: int|
                0 <= k < front.len() && ends_at(changes, #[trigger] front[k], w, true);
            assert(crtcs[k] == front[k]);
            assert(ends_at(changes, crtcs[k], x, true));
        }
        if y == h && h != 0 {
            let k = choose|k: int|
                0 <= k < front.len() && ends_at(changes, #[trigger] front[k], h, false);
            assert(crtcs[k] == front[k]);
            assert(ends_at(changes, crtcs[k], y, false));
        }
    }
}

/// The extent fits where the picture of each CRTC does.
proof fn lemma_extent_fits(
    changes: Seq<Change>,
    crtcs: Seq<Crtc>,
    limit: int,
)
    requires
        limit >= 0,
        forall|k: int, end: int|
            0 <= k < crtcs.len() && #[trigger] ends_at(changes, crtcs[k], end, true) ==> end
                <= limit,
        forall|k: int, end: int|
            0 <= k < crtcs.len() && #[trigger] ends_at(changes, crtcs[k], end, false) ==> end
                <= limit,
    ensures
        extent(changes, crtcs).0 <= limit,
        extent(changes, crtcs).1 <= limit,
{
    lemma_extent_is_reached(changes, crtcs);
    let (w, h) = extent(changes, crtcs);
    if w != 0 {
        let k = choose|k: int| 0 <= k < crtcs.len() && ends_at(changes, #[trigger] crtcs[k], w, true);
        assert(ends_at(changes, crtcs[k], w, true));
    }
    if h != 0 {
        let k = choose|k: int|
            0 <= k < crtcs.len() && ends_at(changes, #[trigger] crtcs[k], h, false);
        assert(ends_at(changes, crtcs[k], h, false));
    }
}

/// Every picture lies on the screen after the change, as long as where each of them ends can
/// be said in the protocol's 16 bits. A CRTC that no change names, and that is on, ends at its
/// place plus its size, as the server gives them. One that changes ends at its place plus the
/// size of its new mode, on its side where it is turned by one quarter or three.
pub proof fn law_every_picture_stays_on_the_screen(
    changes: Seq<Change>,
    crtcs: Seq<Crtc>,
    k: int,
    end: int,
    across: bool,
)
    requires
        forall|i: int, end: int, across: bool|
            0 <= i < crtcs.len() && #[trigger] ends_at(changes, crtcs[i], end, across) ==> end
                <= u16::MAX,
        0 <= k < crtcs.len(),
        ends_at(changes, crtcs[k], end, across),
    ensures
        across ==> end <= size_after(changes, crtcs).0,
        !across ==> end <= size_after(changes, crtcs).1,
{
    lemma_extent_fits(changes, crtcs, u16::MAX as int);
    let c = lemma_change_of(changes, crtcs[k].crtc);
    law_the_first_change_to_a_crtc_counts(changes, crtcs[k].crtc, c);
    law_screen_covers_every_crtc(changes, crtcs, k);
}

/// The picture of a CRTC that no change names, and that is on, lies on the screen after the
/// change: its place plus its size, as the server gives them.
pub proof fn law_untouched_pictures_stay_on_the_screen(
    changes: Seq<Change>,
    crtcs: Seq<Crtc>,
    k: int,
    info: CrtcInfo,
)
    requires
        forall|i: int, end: int, across: bool|
            0 <= i < crtcs.len() && #[trigger] ends_at(changes, crtcs[i], end, across) ==> end
                <= u16::MAX,
        0 <= k < crtcs.len(),
        crtcs[k].info == Some(info),
        info.mode != 0,
        forall|j: int| 0 <= j < changes.len() ==> (#[trigger] changes[j]).crtc != crtcs[k].crtc,
    ensures
        info.x + info.width <= size_after(changes, crtcs).0,
        info.y + info.height <= size_after(changes, crtcs).1,
{
    lemma_extent_fits(changes, crtcs, u16::MAX as int);
    law_the_first_change_to_a_crtc_counts(changes, crtcs[k].crtc, changes.len() as int);
    law_screen_covers_every_crtc(changes, crtcs, k);
}

/// The screen is no larger than it has to be: each side is one, or exactly where the picture
/// of some CRTC ends.
#[verifier::rlimit(50)]
pub proof fn law_the_screen_is_no_larger_than_needed(changes: Seq<Change>, crtcs: Seq<Crtc>)
    requires
        forall|i: int, end: int, across: bool|
            0 <= i < crtcs.len() && #[trigger] ends_at(changes, crtcs[i], end, across) ==> end
                <= u16::MAX,
    ensures
        size_after(changes, crtcs).0 >= 1,
        size_after(changes, crtcs).1 >= 1,
        size_after(changes, crtcs).0 == 1 || exists|k: int|
            0 <= k < crtcs.len() && ends_at(
                changes,
                #[trigger] crtcs[k],
                size_after(changes, crtcs).0 as int,
                true,
            ),
        size_after(changes, crtcs).1 == 1 || exists|k: int|
            0 <= k < crtcs.len() && ends_at(
                changes,
                #[trigger] crtcs[k],
                size_after(changes, crtcs).1 as int,
                false,
            ),
{
    lemma_extent_fits(changes, crtcs, u16::MAX as int);
    let (w, h) = extent(changes, crtcs);
    lemma_extent_is_reached(changes, crtcs);
    assert(size_after(changes, crtcs).0 == larger(w, 1));
    assert(size_after(changes, crtcs).1 == larger(h, 1));
    if w > 1 {
        let k = choose|k: int| 0 <= k < crtcs.len() && ends_at(changes, #[trigger] crtcs[k], w, true);
        assert(ends_at(changes, crtcs[k], size_after(changes, crtcs).0 as int, true));
    }
    if h > 1 {
        let k = choose|k: int|
            0 <= k < crtcs.len() && ends_at(changes, #[trigger] crtcs[k], h, false);
        assert(ends_at(changes, crtcs[k], size_after(changes, crtcs).1 as int, false));
    }
}

/// What is asked of the server for some changes: where the screen is too small in either
/// direction, first of all that it grow, never below what it is; then every change, in order;
/// then, where the screen had not to grow and is too large, that it shrink to its size.
pub proof fn law_the_screen_grows_first_and_shrinks_last(
    n: nat,
    screen: (u16, u16),
    size: (u16, u16),
    k: int,
)
    requires
        0 < n <= usize::MAX,
        0 <= k < n,
    ensures
        ({
            let all = requests_for(n, screen, size);
            let grows = size.0 > screen.0 || size.1 > screen.1;
            let shrinks = !grows && size != screen;
            let first: int = if grows {
                1
            } else {
                0
            };
            &&& all.len() == first + n + (if shrinks {
                1int
            } else {
                0
            })
            &&& grows ==> (all[0] matches Request::Resize(w, h) && {
                &&& w >= size.0 && w >= screen.0 && (w == size.0 || w == screen.0)
                &&& h >= size.1 && h >= screen.1 && (h == size.1 || h == screen.1)
            })
            &&& all[first + k] == Request::Configure(k as usize)
            &&& shrinks ==> all[first + n] == Request::Resize(size.0, size.1)
        }),
{
    let head = resize(grown(screen, size));
    let all = requests_for(n, screen, size);
    if head.len() > 0 {
        assert(all[0] == head[0]);
    }
    assert(all[head.len() + k] == Request::Configure(k as usize));
    if shrunk(screen, size) is Some {
        assert(all[(head.len() + n) as int] == resize(shrunk(screen, size))[0]);
    }
}

/// What an instruction comes to: the CRTC of the first connected display of the name, and the
/// first of that display's modes that goes by the id. A display that is not connected, or not
/// switched on, or that has no such mode, is an error, in this order.
pub proof fn law_an_instruction_is_followed_on_its_display(
    infos: Seq<OutputInfoView>,
    table: Seq<ModeInfo>,
    setting: OutputSettingView,
    k: int,
    m: int,
)
    requires
        0 <= k <= infos.len(),
        k < infos.len() ==> infos[k].connected && infos[k].name == setting.connector,
        forall|j: int|
            0 <= j < k ==> !((#[trigger] infos[j]).connected && infos[j].name == setting.connector),
        k < infos.len() ==> 0 <= m <= infos[k].modes.len(),
        k < infos.len() && m < infos[k].modes.len() ==> (mode_by_id(table, infos[k].modes[m])
            matches Some(t) && t.text_id() == setting.mode_id),
        k < infos.len() ==> forall|j: int|
            0 <= j < m ==> (mode_by_id(table, #[trigger] infos[k].modes[j]) matches Some(t)
                ==> t.text_id() != setting.mode_id),
    ensures
        ({
            let target = target_for(infos, table, setting);
            &&& k == infos.len() ==> target == Err::<Target, Seq<char>>(
                setting.connector + " is not connected"@,
            )
            &&& k < infos.len() && infos[k].crtc == 0 ==> target == Err::<Target, Seq<char>>(
                setting.connector + " is switched off"@,
            )
            &&& k < infos.len() && infos[k].crtc != 0 && m == infos[k].modes.len() ==> target
                == Err::<Target, Seq<char>>(
                setting.connector + " does not offer mode "@ + setting.mode_id,
            )
            &&& k < infos.len() && infos[k].crtc != 0 && m < infos[k].modes.len() ==> ({
                let t = mode_by_id(table, infos[k].modes[m])->Some_0;
                target == Ok::<Target, Seq<char>>(
                    Target { crtc: infos[k].crtc, mode: t.id, width: t.width, height: t.height },
                )
            })
        }),
{
    lemma_connected_at(infos, setting.connector, k);
    if k < infos.len() {
        lemma_called_at(infos[k].modes, table, setting.mode_id, m);
    }
}

proof fn lemma_connected_at(infos: Seq<OutputInfoView>, name: Seq<char>, k: int)
    requires
        0 <= k <= infos.len(),
        k < infos.len() ==> infos[k].connected && infos[k].name == name,
        forall|j: int|
            0 <= j < k ==> !((#[trigger] infos[j]).connected && infos[j].name == name),
    ensures
        connected_as(infos, name) == (if k < infos.len() {
            Some(infos[k])
        } else {
            None
        }),
    decreases k,
{
    if k > 0 {
        let rest = infos.drop_first();
        assert(!(infos[0].connected && infos[0].name == name));
        assert forall|j: int| 0 <= j < k - 1 implies !((#[trigger] rest[j]).connected
            && rest[j].name == name) by {
            assert(rest[j] == infos[j + 1]);
        }
        lemma_connected_at(rest, name, k - 1);
    }
}

proof fn lemma_called_at(ids: Seq<u32>, table: Seq<ModeInfo>, id: Seq<char>, m: int)
    requires
        0 <= m <= ids.len(),
        m < ids.len() ==> (mode_by_id(table, ids[m]) matches Some(t) && t.text_id() == id),
        forall|j: int|
            0 <= j < m ==> (mode_by_id(table, #[trigger] ids[j]) matches Some(t) ==> t.text_id()
                != id),
    ensures
        mode_called(ids, table, id) == (if m < ids.len() {
            mode_by_id(table, ids[m])
        } else {
            None
        }),
    decreases m,
{
    if m > 0 {
        let rest = ids.drop_first();
        let first = mode_by_id(table, ids[0]);
        assert(first is Some ==> first->Some_0.text_id() != id);
        assert forall|j: int| 0 <= j < m - 1 implies (mode_by_id(
            table,
            #[trigger] rest[j],
        ) matches Some(t) ==> t.text_id() != id) by {
            assert(rest[j] == ids[j + 1]);
        }
        lemma_called_at(rest, table, id, m - 1);
    }
}

/// The arguments for `xrandr`: six for each instruction, in order, which name its connector,
/// the size in its mode id and the rate in it; the first mode id that cannot be read is an
/// error instead.
pub proof fn law_xrandr_is_told_what_the_instructions_say(
    wanted: Seq<OutputSettingView>,
    n: nat,
)
    requires
        n < wanted.len(),
    ensures
        xrandr_arguments(wanted, 0) == Ok::<Seq<Seq<char>>, Seq<char>>(Seq::empty()),
        xrandr_arguments(wanted, n) matches Err(e) ==> xrandr_arguments(wanted, n + 1) == Err::<
            Seq<Seq<char>>,
            Seq<char>,
        >(e),
        xrandr_arguments(wanted, n) matches Ok(before) ==> (match parsed_mode_id(
            wanted[n as int].mode_id,
        ) {
            None => xrandr_arguments(wanted, n + 1) == Err::<Seq<Seq<char>>, Seq<char>>(
                "unreadable mode id "@ + wanted[n as int].mode_id,
            ),
            Some((width, height, rate)) => xrandr_arguments(wanted, n + 1) == Ok::<
                Seq<Seq<char>>,
                Seq<char>,
            >(
                before.push("--output"@).push(wanted[n as int].connector).push("--mode"@).push(
                    decimal(width as nat) + "x"@ + decimal(height as nat),
                ).push("--rate"@).push(fixed(rate, 3)),
            ),
        }),
{
    if let Ok(before) = xrandr_arguments(wanted, n) {
        if let Some((width, height, rate)) = parsed_mode_id(wanted[n as int].mode_id) {
            assert(xrandr_arguments(wanted, n + 1)->Ok_0 =~= before.push("--output"@).push(
                wanted[n as int].connector,
            ).push("--mode"@).push(size_text(width, height)).push("--rate"@).push(fixed(rate, 3)));
        }
    }
}

/// A change puts the mode of its target where the CRTC is, turned as it is and shown on the
/// same connectors, so it ends where the mode does, on its side or not.
pub proof fn law_a_picture_ends_where_its_mode_does(change: Change)
    ensures
        change.rotation & 2 == 2 || change.rotation & 8 == 8 ==> change.end() == (
            change.x + change.height,
            change.y + change.width,
        ),
        !(change.rotation & 2 == 2 || change.rotation & 8 == 8) ==> change.end() == (
            change.x + change.width,
            change.y + change.height,
        ),
{
}

/// An inch has 25.4 millimetres and is assumed to have 96 pixels.
pub proof fn law_an_inch_has_ninety_six_pixels()
    ensures
        INCH == ratio(254, 10),
        ASSUMED_DPI == 96,
{
    let p = pow2(1026);
    lemma_pow2_sum(48, 1026);
    lemma_pow2_positive(1026);
    assert(pow2(48) == 0x1_0000_0000_0000) by {
        reveal_with_fuel(pow2, 49);
    }
    let x = 254 * pow2(STEPS as nat);
    let e = EXPONENT as nat;
    let m: nat = 0x19_6666_6666_6666;
    assert((10 * e) * p <= x < (10 * (2 * e)) * p && 2 * x < 2 * (m * (10 * p)) + 10 * p && 2 * (m
        * (10 * p)) < 2 * x + 10 * p) by (nonlinear_arith)
        requires
            x == 254 * (0x1_0000_0000_0000 * p),
            p >= 1,
            e == 0x10_0000_0000_0000,
            m == 0x19_6666_6666_6666,
    ;
    lemma_round_at(x, 10, 1026, m);
}

} // verus!
