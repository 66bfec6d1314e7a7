//! X11, through RandR.
//!
//! This is what covers XFCE, MATE, Cinnamon, i3 and every other X session, including
//! GNOME and Plasma when they are running on X rather than Wayland.

use vstd::prelude::*;

use x11rb::protocol::randr;

use crate::display::mode::{format_mode_id, mode_text, Mode, ModeView, Output, OutputView};
use crate::double::{quotient, ratio, Double};
use crate::number::{hex, to_hex};

verus! {

/// The bit of `randr::ModeFlag::INTERLACE`.
pub const INTERLACE: u32 = 0x10;

/// The bit of `randr::ModeFlag::DOUBLE_SCAN`.
pub const DOUBLE_SCAN: u32 = 0x20;

/// The bit of `randr::Rotation::ROTATE90`.
pub const ROTATE90: u16 = 0x2;

/// The bit of `randr::Rotation::ROTATE270`.
pub const ROTATE270: u16 = 0x8;

/// `x11rb::protocol::randr::ModeFlag::contains`: whether all the bits of `flag` are set in
/// `flags`.
#[verifier::external_body]
fn mode_flags_contain(flags: u32, flag: u32) -> (r: bool)
    ensures
        r == (flags & flag == flag),
{
    randr::ModeFlag::from(flags).contains(flag)
}

/// `x11rb::protocol::randr::Rotation::contains`: whether all the bits of `flag` are set in
/// `rotation`.
#[verifier::external_body]
fn rotation_contains(rotation: u16, flag: u16) -> (r: bool)
    ensures
        r == (rotation & flag == flag),
{
    randr::Rotation::from(rotation).contains(flag)
}

/// The timings of a mode.
#[derive(Clone, Copy, Debug, PartialEq, Eq)]
pub struct ModeInfo {
    pub id: u32,
    pub width: u16,
    pub height: u16,
    pub dot_clock: u32,
    pub htotal: u16,
    pub vtotal: u16,
    pub mode_flags: u32,
}

impl ModeInfo {
    /// Pixels in one frame, the lines of a double scan counted twice.
    pub open spec fn frame(self) -> int {
        self.htotal * self.vtotal * (if self.mode_flags & DOUBLE_SCAN == DOUBLE_SCAN {
            2int
        } else {
            1
        })
    }

    /// Pixels in a second, as if every field of an interlaced mode were a frame.
    pub open spec fn pixels(self) -> int {
        self.dot_clock * (if self.mode_flags & INTERLACE == INTERLACE {
            2int
        } else {
            1
        })
    }

    /// Frames in a second; zero for a mode without timings.
    pub open spec fn rate(self) -> Double {
        if self.frame() == 0 {
            Double { bits: 0 }
        } else {
            Double { bits: ratio(self.pixels() as nat, self.frame() as nat) }
        }
    }

    pub open spec fn text_id(self) -> Seq<char> {
        mode_text(self.width as u32, self.height as u32, self.rate())
    }
}

/// The refresh rate that follows from the timings of a mode.
pub fn refresh_of(mode: &ModeInfo) -> (r: Double)
    ensures
        r == mode.rate(),
{
    assert(0 <= mode.htotal * mode.vtotal <= 0xffff * 0xffff) by (nonlinear_arith)
        requires
            mode.htotal <= 0xffff,
            mode.vtotal <= 0xffff,
    ;
    let mut frame: u64 = (mode.htotal as u64) * (mode.vtotal as u64);
    if mode_flags_contain(mode.mode_flags, DOUBLE_SCAN) {
        frame = frame * 2;
    }
    let mut pixels: u64 = mode.dot_clock as u64;
    if mode_flags_contain(mode.mode_flags, INTERLACE) {
        pixels = pixels * 2;
    }
    assert(frame == mode.frame());
    assert(pixels == mode.pixels());
    if frame == 0 {
        return Double { bits: 0 };
    }
    quotient(pixels, frame)
}

/// The id under which the settings know a mode.
pub fn mode_id(mode: &ModeInfo) -> (r: String)
    ensures
        r@ == mode.text_id(),
{
    format_mode_id(mode.width as u32, mode.height as u32, refresh_of(mode))
}

/// What a mode takes up on the screen, turned where the display is.
pub open spec fn turned(width: u16, height: u16, rotation: u16) -> (u16, u16) {
    if rotation & ROTATE90 == ROTATE90 || rotation & ROTATE270 == ROTATE270 {
        (height, width)
    } else {
        (width, height)
    }
}

/// The area that a mode occupies.
pub fn rotated(width: u16, height: u16, rotation: u16) -> (r: (u16, u16))
    ensures
        r == turned(width, height, rotation),
{
    if rotation_contains(rotation, ROTATE90) || rotation_contains(rotation, ROTATE270) {
        (height, width)
    } else {
        (width, height)
    }
}

/// The eight bytes that every EDID block begins with.
pub open spec fn edid_header() -> Seq<u8> {
    seq![0x00u8, 0xff, 0xff, 0xff, 0xff, 0xff, 0xff, 0x00]
}

/// One of the three letters of a manufacturer id: one is A, and so on.
pub open spec fn edid_letter(n: int) -> char {
    ((0x40 + n % 32) as u8) as char
}

/// Whether a letter of a manufacturer id is one.
pub open spec fn is_edid_letter(n: int) -> bool {
    1 <= n % 32 <= 26
}

pub struct IdentityText {
    pub make: Seq<char>,
    pub model: Seq<char>,
    pub serial: Seq<char>,
}

/// What an EDID block says of its display: three letters in two bytes, the high byte first,
/// then the product code and the serial, the low byte first.
pub open spec fn edid_identity(data: Seq<u8>) -> Option<IdentityText> {
    if data.len() < 16 || data.take(8) != edid_header() {
        None
    } else {
        let packed = data[8] * 256 + data[9];
        if is_edid_letter(packed / 1024) && is_edid_letter(packed / 32) && is_edid_letter(packed) {
            Some(
                IdentityText {
                    make: seq![
                        edid_letter(packed / 1024),
                        edid_letter(packed / 32),
                        edid_letter(packed),
                    ],
                    model: "0x"@ + hex((data[10] + data[11] * 256) as nat, 4),
                    serial: "0x"@ + hex(
                        (data[12] + data[13] * 256 + data[14] * 65536 + data[15]
                            * 16777216) as nat,
                        8,
                    ),
                },
            )
        } else {
            None
        }
    }
}

/// Pulls the manufacturer id, product code and serial out of an EDID block.
///
/// The formatting deliberately mirrors what Mutter reports (`SDC`, `0x419d`), so a config
/// written under GNOME still matches the same panel under i3.
pub fn parse_edid(data: &[u8]) -> (r: Option<(String, String, String)>)
    ensures
        match (r, edid_identity(data@)) {
            (Some(got), Some(want)) => got.0@ == want.make && got.1@ == want.model && got.2@
                == want.serial,
            (None, None) => true,
            _ => false,
        },
{
    if data.len() < 16 {
        return None;
    }
    let header = data[0] == 0x00 && data[1] == 0xff && data[2] == 0xff && data[3] == 0xff
        && data[4] == 0xff && data[5] == 0xff && data[6] == 0xff && data[7] == 0x00;
    proof {
        let h = edid_header();
        let front = data@.take(8);
        if header {
            assert(front =~= h);
        } else {
            assert(front[0] != h[0] || front[1] != h[1] || front[2] != h[2] || front[3] != h[3]
                || front[4] != h[4] || front[5] != h[5] || front[6] != h[6] || front[7] != h[7]);
        }
    }
    if !header {
        return None;
    }
    let packed: u32 = (data[8] as u32) * 256 + (data[9] as u32);
    let a: u8 = ((packed / 1024) % 32) as u8;
    let b: u8 = ((packed / 32) % 32) as u8;
    let c: u8 = (packed % 32) as u8;
    if !(1 <= a && a <= 26 && 1 <= b && b <= 26 && 1 <= c && c <= 26) {
        return None;
    }
    let mut make = String::new();
    make.push((0x40 + a) as char);
    make.push((0x40 + b) as char);
    make.push((0x40 + c) as char);
    assert(make@ =~= edid_identity(data@)->Some_0.make);
    let product: u64 = (data[10] as u64) + (data[11] as u64) * 256;
    let serial: u64 = (data[12] as u64) + (data[13] as u64) * 256 + (data[14] as u64) * 65536 + (
    data[15] as u64) * 16777216;
    let mut model_text = "0x".to_string();
    model_text.append(to_hex(product, 4).as_str());
    let mut serial_text = "0x".to_string();
    serial_text.append(to_hex(serial, 8).as_str());
    Some((make, model_text, serial_text))
}

/// One connector, as the server describes it.
#[derive(Debug)]
pub struct OutputInfo {
    pub name: String,
    pub connected: bool,
    /// The CRTC that drives the connector; zero for none.
    pub crtc: u32,
    /// The mode of that CRTC, where the server says.
    pub crtc_mode: Option<u32>,
    pub modes: Vec<u32>,
    pub num_preferred: u16,
    /// The EDID block, where there is one.
    pub edid: Option<Vec<u8>>,
}

pub struct OutputInfoView {
    pub name: Seq<char>,
    pub connected: bool,
    pub crtc: u32,
    pub crtc_mode: Option<u32>,
    pub modes: Seq<u32>,
    pub num_preferred: u16,
    pub edid: Option<Seq<u8>>,
}

impl DeepView for OutputInfo {
    type V = OutputInfoView;

    open spec fn deep_view(&self) -> OutputInfoView {
        OutputInfoView {
            name: self.name@,
            connected: self.connected,
            crtc: self.crtc,
            crtc_mode: self.crtc_mode,
            modes: self.modes@,
            num_preferred: self.num_preferred,
            edid: match self.edid {
                Some(data) => Some(data@),
                None => None,
            },
        }
    }
}

/// The mode with this number, the last one where several have it.
pub open spec fn mode_by_id(table: Seq<ModeInfo>, id: u32) -> Option<ModeInfo>
    decreases table.len(),
{
    if table.len() == 0 {
        None
    } else if table.last().id == id {
        Some(table.last())
    } else {
        mode_by_id(table.drop_last(), id)
    }
}

pub fn find_mode(table: &Vec<ModeInfo>, id: u32) -> (r: Option<ModeInfo>)
    ensures
        r == mode_by_id(table@, id),
{
    let mut i: usize = table.len();
    assert(table@.take(i as int) =~= table@);
    while i > 0
        invariant
            i <= table.len(),
            mode_by_id(table@.take(i as int), id) == mode_by_id(table@, id),
        decreases i,
    {
        i = i - 1;
        assert(table@.take(i + 1).drop_last() =~= table@.take(i as int));
        if table[i].id == id {
            return Some(table[i]);
        }
    }
    None
}

impl OutputInfoView {
    /// The mode that the connector is in.
    pub open spec fn current(self) -> Option<u32> {
        if self.crtc != 0 && self.crtc_mode is Some && self.crtc_mode->Some_0 != 0 {
            self.crtc_mode
        } else {
            None
        }
    }

    /// Whether a mode is among those that the display likes best; they come first.
    pub open spec fn prefers(self, id: u32) -> bool {
        exists|k: int|
            0 <= k < self.modes.len() && k < self.num_preferred && #[trigger] self.modes[k] == id
    }

    /// The first `n` modes of the connector that the table knows.
    pub open spec fn shown_modes(self, table: Seq<ModeInfo>, n: nat) -> Seq<ModeView>
        decreases n,
    {
        if n == 0 {
            Seq::empty()
        } else {
            let before = self.shown_modes(table, (n - 1) as nat);
            let id = self.modes[n - 1];
            match mode_by_id(table, id) {
                Some(m) => before.push(
                    ModeView {
                        id: m.text_id(),
                        width: m.width as u32,
                        height: m.height as u32,
                        refresh: m.rate(),
                        preferred: self.prefers(id),
                        current: self.current() == Some(id),
                    },
                ),
                None => before,
            }
        }
    }

    pub open spec fn identity(self) -> IdentityText {
        let nothing = IdentityText { make: Seq::empty(), model: Seq::empty(), serial: Seq::empty() };
        match self.edid {
            Some(data) => match edid_identity(data) {
                Some(known) => known,
                None => nothing,
            },
            None => nothing,
        }
    }

    pub open spec fn shown(self, table: Seq<ModeInfo>) -> OutputView {
        OutputView {
            connector: self.name,
            make: self.identity().make,
            model: self.identity().model,
            serial: self.identity().serial,
            modes: self.shown_modes(table, self.modes.len()),
            current_mode: match self.current() {
                Some(id) => match mode_by_id(table, id) {
                    Some(m) => Some(m.text_id()),
                    None => None,
                },
                None => None,
            },
            enabled: self.crtc != 0,
        }
    }
}

fn is_preferred(info: &OutputInfo, id: u32) -> (r: bool)
    ensures
        r == info.deep_view().prefers(id),
{
    let ghost view = info.deep_view();
    let mut k: usize = 0;
    while k < info.modes.len() && k < info.num_preferred as usize
        invariant
            k <= info.modes.len(),
            view == info.deep_view(),
            forall|j: int| 0 <= j < k ==> #[trigger] view.modes[j] != id,
        decreases info.modes.len() - k,
    {
        if info.modes[k] == id {
            assert(view.modes[k as int] == id);
            return true;
        }
        k = k + 1;
    }
    false
}

fn identity_of(info: &OutputInfo) -> (r: (String, String, String))
    ensures
        r.0@ == info.deep_view().identity().make,
        r.1@ == info.deep_view().identity().model,
        r.2@ == info.deep_view().identity().serial,
{
    if let Some(data) = &info.edid {
        if let Some(known) = parse_edid(data.as_slice()) {
            return known;
        }
    }
    let r = (String::new(), String::new(), String::new());
    assert(r.0@ =~= Seq::<char>::empty());
    r
}

fn show_output(info: &OutputInfo, table: &Vec<ModeInfo>) -> (r: Output)
    ensures
        r.deep_view() == info.deep_view().shown(table@),
{
    let ghost view = info.deep_view();
    let current: Option<u32> = if info.crtc != 0 {
        match info.crtc_mode {
            Some(id) => if id != 0 {
                Some(id)
            } else {
                None
            },
            None => None,
        }
    } else {
        None
    };
    let mut modes: Vec<Mode> = Vec::new();
    let mut i: usize = 0;
    assert(modes.deep_view() =~= Seq::empty());
    while i < info.modes.len()
        invariant
            i <= info.modes.len(),
            view == info.deep_view(),
            current == view.current(),
            modes.deep_view() == view.shown_modes(table@, i as nat),
        decreases info.modes.len() - i,
    {
        let ghost before = modes.deep_view();
        let id = info.modes[i];
        assert(view.modes[i as int] == id);
        if let Some(m) = find_mode(table, id) {
            let mode = Mode {
                id: mode_id(&m),
                width: m.width as u32,
                height: m.height as u32,
                refresh: refresh_of(&m),
                preferred: is_preferred(info, id),
                current: match current {
                    Some(c) => c == id,
                    None => false,
                },
            };
            modes.push(mode);
            assert(modes.deep_view() =~= before.push(mode.deep_view()));
        }
        i = i + 1;
    }
    let current_mode: Option<String> = match current {
        Some(id) => match find_mode(table, id) {
            Some(m) => Some(mode_id(&m)),
            None => None,
        },
        None => None,
    };
    let (make, model, serial) = identity_of(info);
    Output {
        connector: info.name.clone(),
        make,
        model,
        serial,
        modes,
        current_mode,
        enabled: info.crtc != 0,
    }
}

/// The displays that are plugged in, in the order of their connectors.
pub open spec fn shown_outputs(infos: Seq<OutputInfoView>, table: Seq<ModeInfo>) -> Seq<OutputView>
    decreases infos.len(),
{
    if infos.len() == 0 {
        Seq::empty()
    } else {
        let before = shown_outputs(infos.drop_last(), table);
        if infos.last().connected {
            before.push(infos.last().shown(table))
        } else {
            before
        }
    }
}

/// Lists the displays that are plugged in.
pub fn outputs(infos: &Vec<OutputInfo>, table: &Vec<ModeInfo>) -> (r: Vec<Output>)
    ensures
        r.deep_view() == shown_outputs(infos.deep_view(), table@),
{
    let ghost all = infos.deep_view();
    let mut out: Vec<Output> = Vec::new();
    let mut i: usize = 0;
    assert(out.deep_view() =~= Seq::empty());
    while i < infos.len()
        invariant
            i <= infos.len(),
            all == infos.deep_view(),
            all.len() == infos.len(),
            out.deep_view() == shown_outputs(all.take(i as int), table@),
        decreases infos.len() - i,
    {
        let ghost before = out.deep_view();
        proof {
            assert(all.take(i + 1).drop_last() =~= all.take(i as int));
            assert(all.take(i + 1).last() == infos@[i as int].deep_view());
        }
        if infos[i].connected {
            let shown = show_output(&infos[i], table);
            out.push(shown);
            assert(out.deep_view() =~= before.push(shown.deep_view()));
        }
        i = i + 1;
    }
    assert(all.take(i as int) =~= all);
    out
}

/// The rate of a mode is its dot clock over the pixels of a frame. A double scan draws every
/// line twice, which halves the rate; an interlaced mode shows a field in half the lines,
/// which doubles it. A mode without timings has none.
pub proof fn law_a_rate_follows_from_the_timings(m: ModeInfo)
    ensures
        ({
            let doubled = m.mode_flags & 0x20 == 0x20;
            let interlaced = m.mode_flags & 0x10 == 0x10;
            let clock = if interlaced {
                2 * m.dot_clock as nat
            } else {
                m.dot_clock as nat
            };
            let frame = if doubled {
                2 * (m.htotal as nat * m.vtotal as nat)
            } else {
                m.htotal as nat * m.vtotal as nat
            };
            &&& m.htotal == 0 || m.vtotal == 0 ==> m.rate().bits == 0
            &&& m.htotal > 0 && m.vtotal > 0 ==> m.rate().bits == ratio(clock, frame)
            &&& m.text_id() == mode_text(m.width as u32, m.height as u32, m.rate())
        }),
{
    let area = m.htotal as int * m.vtotal as int;
    assert(m.htotal == 0 || m.vtotal == 0 ==> area == 0) by (nonlinear_arith)
        requires
            area == m.htotal as int * m.vtotal as int,
    ;
    assert(m.htotal > 0 && m.vtotal > 0 ==> area > 0) by (nonlinear_arith)
        requires
            area == m.htotal as int * m.vtotal as int,
    ;
}

/// A display that is turned by one quarter or three takes up as much as one on its side; any
/// other takes up what its mode says.
pub proof fn law_a_quarter_turn_swaps_the_sides(width: u16, height: u16, rotation: u16)
    ensures
        rotation & 2 == 2 || rotation & 8 == 8 ==> turned(width, height, rotation) == (
            height,
            width,
        ),
        !(rotation & 2 == 2 || rotation & 8 == 8) ==> turned(width, height, rotation) == (
            width,
            height,
        ),
{
}

/// What an EDID block says, byte by byte. It begins with a fixed header of eight bytes. The
/// next two hold three letters of five bits each, the first letter highest; one stands for A.
/// Then come the product code in two bytes and the serial in four, the lowest first, written
/// with four and eight hexadecimal digits.
#[verifier::rlimit(60)]
pub proof fn law_an_edid_block_is_read_byte_by_byte(
    data: Seq<u8>,
    a: int,
    b: int,
    c: int,
)
    requires
        0 <= a < 32,
        0 <= b < 32,
        0 <= c < 32,
        data.len() >= 16 ==> (data[8] * 256 + data[9]) % 32768 == (a * 32 + b) * 32 + c,
    ensures
        ({
            let header = data.len() >= 16 && data[0] == 0x00 && data[1] == 0xff && data[2] == 0xff
                && data[3] == 0xff && data[4] == 0xff && data[5] == 0xff && data[6] == 0xff
                && data[7] == 0x00;
            let letters = 1 <= a <= 26 && 1 <= b <= 26 && 1 <= c <= 26;
            &&& edid_identity(data) is Some <==> header && letters
            &&& edid_identity(data) matches Some(known) ==> {
                &&& known.make.len() == 3
                &&& known.make[0] as int == 'A' as int + a - 1
                &&& known.make[1] as int == 'A' as int + b - 1
                &&& known.make[2] as int == 'A' as int + c - 1
                &&& known.model == "0x"@ + hex((data[11] * 256 + data[10]) as nat, 4)
                &&& known.serial == "0x"@ + hex(
                    (((data[15] * 256 + data[14]) * 256 + data[13]) * 256 + data[12]) as nat,
                    8,
                )
            }
        }),
{
    if data.len() >= 16 {
        let h = edid_header();
        let front = data.take(8);
        let header = data[0] == 0x00 && data[1] == 0xff && data[2] == 0xff && data[3] == 0xff
            && data[4] == 0xff && data[5] == 0xff && data[6] == 0xff && data[7] == 0x00;
        if header {
            assert(front =~= h);
        } else {
            assert(front[0] != h[0] || front[1] != h[1] || front[2] != h[2] || front[3] != h[3]
                || front[4] != h[4] || front[5] != h[5] || front[6] != h[6] || front[7] != h[7]);
        }
        let packed = data[8] * 256 + data[9];
        lemma_five_bits(packed, a, b, c);
        lemma_letter(packed / 1024, a);
        lemma_letter(packed / 32, b);
        lemma_letter(packed, c);
    }
}

proof fn lemma_five_bits(packed: int, a: int, b: int, c: int)
    requires
        0 <= packed,
        0 <= a < 32,
        0 <= b < 32,
        0 <= c < 32,
        packed % 32768 == (a * 32 + b) * 32 + c,
    ensures
        (packed / 1024) % 32 == a,
        (packed / 32) % 32 == b,
        packed % 32 == c,
{
    let t = packed / 32768;
    assert(packed == 32768 * t + 1024 * a + 32 * b + c);
    vstd::arithmetic::div_mod::lemma_fundamental_div_mod_converse(
        packed,
        1024,
        32 * t + a,
        32 * b + c,
    );
    vstd::arithmetic::div_mod::lemma_fundamental_div_mod_converse(32 * t + a, 32, t, a);
    let u = 32 * (32 * t + a) + b;
    vstd::arithmetic::div_mod::lemma_fundamental_div_mod_converse(packed, 32, u, c);
    vstd::arithmetic::div_mod::lemma_fundamental_div_mod_converse(u, 32, 32 * t + a, b);
}

proof fn lemma_letter(n: int, a: int)
    requires
        n % 32 == a,
        0 <= a < 32,
    ensures
        is_edid_letter(n) <==> 1 <= a <= 26,
        edid_letter(n) as int == 'A' as int + a - 1,
{
}

/// Of the modes with one number the last in the table counts.
pub proof fn law_the_last_mode_of_a_number_counts(table: Seq<ModeInfo>, id: u32)
    ensures
        match mode_by_id(table, id) {
            Some(m) => exists|k: int|
                0 <= k < table.len() && #[trigger] table[k] == m && m.id == id && forall|j: int|
                    k < j < table.len() ==> (#[trigger] table[j]).id != id,
            None => forall|j: int| 0 <= j < table.len() ==> (#[trigger] table[j]).id != id,
        },
    decreases table.len(),
{
    if table.len() > 0 {
        let front = table.drop_last();
        assert forall|j: int| 0 <= j < front.len() implies #[trigger] table[j] == front[j] by {}
        if table.last().id == id {
            assert(table[table.len() - 1] == table.last());
        } else {
            law_the_last_mode_of_a_number_counts(front, id);
            if let Some(m) = mode_by_id(front, id) {
                let k = choose|k: int|
                    0 <= k < front.len() && #[trigger] front[k] == m && m.id == id && forall|j: int|
                        k < j < front.len() ==> (#[trigger] front[j]).id != id;
                assert(table[k] == m);
                assert forall|j: int| k < j < table.len() implies (#[trigger] table[j]).id != id by {
                    if j < front.len() {
                        assert(front[j].id != id);
                    }
                }
            }
        }
    }
}

/// A connector is listed by its name, with what its EDID says, as active where a CRTC drives
/// it, and in the mode of that CRTC where there is one.
pub proof fn law_a_connector_is_listed_as_it_is(info: OutputInfoView, table: Seq<ModeInfo>)
    ensures
        ({
            let o = info.shown(table);
            let mode = if info.crtc != 0 && info.crtc_mode is Some && info.crtc_mode->Some_0 != 0 {
                mode_by_id(table, info.crtc_mode->Some_0)
            } else {
                None
            };
            &&& o.connector == info.name
            &&& o.enabled <==> info.crtc != 0
            &&& mode matches Some(m) ==> o.current_mode == Some(m.text_id())
            &&& mode is None ==> o.current_mode is None
            &&& (info.edid matches Some(data) ==> (edid_identity(data) matches Some(known) ==> {
                &&& o.make == known.make && o.model == known.model && o.serial == known.serial
            }))
            &&& info.edid is None || edid_identity(info.edid->Some_0) is None ==> o.make.len() == 0
                && o.model.len() == 0 && o.serial.len() == 0
            &&& o.modes == info.shown_modes(table, info.modes.len())
        }),
{
}

/// The modes of a connector are listed in its order, those that the table does not know left
/// out. The first `num_preferred` of them are preferred, and the one that the CRTC is in is
/// current.
pub proof fn law_the_modes_of_a_connector_are_listed(
    info: OutputInfoView,
    table: Seq<ModeInfo>,
    n: nat,
)
    requires
        n < info.modes.len(),
    ensures
        ({
            let id = info.modes[n as int];
            let before = info.shown_modes(table, n);
            let now = info.shown_modes(table, n + 1);
            &&& info.shown_modes(table, 0).len() == 0
            &&& mode_by_id(table, id) is None ==> now == before
            &&& mode_by_id(table, id) matches Some(m) ==> {
                &&& now.len() == before.len() + 1 && now.take(before.len() as int) == before
                &&& now.last().id == m.text_id() && now.last().refresh == m.rate()
                &&& now.last().width == m.width && now.last().height == m.height
                &&& n < info.num_preferred ==> now.last().preferred
                &&& now.last().preferred ==> exists|k: int|
                    0 <= k < info.modes.len() && k < info.num_preferred && #[trigger] info.modes[k]
                        == id
                &&& now.last().current <==> info.crtc != 0 && info.crtc_mode == Some(id) && id != 0
            }
        }),
{
    let before = info.shown_modes(table, n);
    let now = info.shown_modes(table, n + 1);
    if mode_by_id(table, info.modes[n as int]) is Some {
        assert(now.take(before.len() as int) =~= before);
        assert(n < info.num_preferred ==> info.modes[n as int] == info.modes[n as int]);
    }
}

/// The displays that are listed are those that are plugged in, in their order, and no others.
pub proof fn law_what_is_plugged_in_is_listed(
    a: Seq<OutputInfoView>,
    b: Seq<OutputInfoView>,
    one: OutputInfoView,
    table: Seq<ModeInfo>,
)
    ensures
        shown_outputs(a + b, table) == shown_outputs(a, table) + shown_outputs(b, table),
        one.connected ==> shown_outputs(seq![one], table) == seq![one.shown(table)],
        !one.connected ==> shown_outputs(seq![one], table).len() == 0,
    decreases b.len(),
{
    reveal_with_fuel(shown_outputs, 2);
    assert(seq![one].drop_last() =~= Seq::<OutputInfoView>::empty());
    assert(seq![one].last() == one);
    assert(Seq::<OutputView>::empty().push(one.shown(table)) =~= seq![one.shown(table)]);
    if b.len() == 0 {
        assert(a + b =~= a);
        assert(shown_outputs(a, table) + shown_outputs(b, table) =~= shown_outputs(a, table));
    } else {
        law_what_is_plugged_in_is_listed(a, b.drop_last(), one, table);
        assert((a + b).drop_last() =~= a + b.drop_last());
        assert((a + b).last() == b.last());
        assert(shown_outputs(a + b, table) =~= shown_outputs(a, table) + shown_outputs(b, table));
    }
}

} // verus!
