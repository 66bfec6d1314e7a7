//! Video modes, the displays that offer them, and the mode ids of the settings.

use vstd::prelude::*;

use crate::config::{copy_text, Identity, OutputMatch, OutputMatchView};
use crate::double::{gap, ratio, Double};
use crate::number::{
    all_digits, decimal, is_digit, lemma_decimal, padded, lemma_padded, parse_u32, parsed_u32,
    pow10, to_decimal,
};
use crate::precision::{law_millihertz_are_kept, law_written_rate_is_kept, FINE};
use crate::rate::{fixed, format_fixed, in_units, law_rate_reads_back, parse_rate, parsed_rate};
use crate::text::{
    chars_of, find_char, lemma_find_char, lemma_find_char_unique, lemma_trimmed,
    lemma_trimmed_twice, same, split_at_char, split_once, string_of, trim, trimmed,
};

verus! {

/// A length that some compositors report with a sign; it is never negative.
pub open spec fn at_least_zero(n: i32) -> u32 {
    if n < 0 {
        0
    } else {
        n as u32
    }
}

/// Drops a sign that means nothing.
pub fn not_negative(n: i32) -> (r: u32)
    ensures
        r == at_least_zero(n),
{
    if n < 0 {
        0
    } else {
        n as u32
    }
}

/// A video mode. `id` is the stable key stored in the settings and is always
/// `WIDTHxHEIGHT@REFRESH`; for Mutter it is additionally the opaque token that must be
/// handed straight back, so it is never reconstructed by hand. `refresh` is in hertz.
#[derive(Debug, PartialEq)]
pub struct Mode {
    pub id: String,
    pub width: u32,
    pub height: u32,
    pub refresh: Double,
    pub preferred: bool,
    pub current: bool,
}

pub struct ModeView {
    pub id: Seq<char>,
    pub width: u32,
    pub height: u32,
    pub refresh: Double,
    pub preferred: bool,
    pub current: bool,
}

impl DeepView for Mode {
    type V = ModeView;

    open spec fn deep_view(&self) -> ModeView {
        ModeView {
            id: self.id@,
            width: self.width,
            height: self.height,
            refresh: self.refresh,
            preferred: self.preferred,
            current: self.current,
        }
    }
}

impl Clone for Mode {
    fn clone(&self) -> (r: Self)
        ensures
            r == *self,
    {
        Mode {
            id: self.id.clone(),
            width: self.width,
            height: self.height,
            refresh: self.refresh,
            preferred: self.preferred,
            current: self.current,
        }
    }
}

/// `WIDTHxHEIGHT`.
pub open spec fn size_text(width: u32, height: u32) -> Seq<char> {
    decimal(width as nat) + "x"@ + decimal(height as nat)
}

/// Writes `WIDTHxHEIGHT`.
pub fn format_size(width: u32, height: u32) -> (r: String)
    ensures
        r@ == size_text(width, height),
{
    let mut out = to_decimal(width as u128);
    out.append("x");
    out.append(to_decimal(height as u128).as_str());
    out
}

impl Mode {
    pub fn resolution(&self) -> (r: String)
        ensures
            r@ == size_text(self.width, self.height),
    {
        format_size(self.width, self.height)
    }

    pub fn refresh_label(&self) -> (r: String)
        ensures
            r@ == rate_label(self.refresh),
    {
        let mut out = format_fixed(self.refresh, 2);
        out.append(" Hz");
        out
    }
}

/// How a rate reads in a menu.
pub open spec fn rate_label(refresh: Double) -> Seq<char> {
    fixed(refresh, 2) + " Hz"@
}

/// `WIDTHxHEIGHT@REFRESH`.
pub open spec fn mode_text(width: u32, height: u32, refresh: Double) -> Seq<char> {
    size_text(width, height) + "@"@ + fixed(refresh, 3)
}

/// Writes a mode id.
pub fn format_mode_id(width: u32, height: u32, refresh: Double) -> (r: String)
    ensures
        r@ == mode_text(width, height, refresh),
{
    let mut out = format_size(width, height);
    out.append("@");
    out.append(format_fixed(refresh, 3).as_str());
    out
}

pub open spec fn rate_char(c: char) -> bool {
    is_digit(c) || c == '.'
}

/// How many characters at the front are digits or points.
pub open spec fn rate_length(s: Seq<char>) -> int
    decreases s.len(),
{
    if s.len() > 0 && rate_char(s[0]) {
        1 + rate_length(s.drop_first())
    } else {
        0
    }
}

/// Width and height of `WIDTHxHEIGHT`, with white space around each.
pub open spec fn parsed_size(s: Seq<char>) -> Option<(u32, u32)> {
    match split_at_char(s, 'x') {
        Some((w, h)) => match (parsed_u32(trimmed(w)), parsed_u32(trimmed(h))) {
            (Some(width), Some(height)) => Some((width, height)),
            _ => None,
        },
        None => None,
    }
}

/// What a mode id says; anything behind the rate is not read.
pub open spec fn parsed_mode_id(id: Seq<char>) -> Option<(u32, u32, Double)> {
    match split_at_char(id, '@') {
        Some((size, rest)) => match (
            parsed_size(size),
            parsed_rate(rest.take(rate_length(rest))),
        ) {
            (Some((width, height)), Some(refresh)) => Some((width, height, refresh)),
            _ => None,
        },
        None => None,
    }
}

proof fn lemma_rate_length(s: Seq<char>, k: int)
    requires
        0 <= k <= s.len(),
        forall|j: int| 0 <= j < k ==> rate_char(#[trigger] s[j]),
        k < s.len() ==> !rate_char(s[k]),
    ensures
        rate_length(s) == k,
    decreases k,
{
    if k > 0 {
        assert(rate_char(s[0]));
        let rest = s.drop_first();
        assert forall|j: int| 0 <= j < k - 1 implies rate_char(#[trigger] rest[j]) by {
            assert(rest[j] == s[j + 1]);
        }
        lemma_rate_length(rest, k - 1);
    }
}

/// How many characters at the front belong to a rate.
fn rate_end(chars: &Vec<char>) -> (r: usize)
    ensures
        r == rate_length(chars@),
        r <= chars.len(),
{
    let mut n: usize = 0;
    while n < chars.len() && (('0' <= chars[n] && chars[n] <= '9') || chars[n] == '.')
        invariant
            n <= chars.len(),
            forall|j: int| 0 <= j < n ==> rate_char(#[trigger] chars@[j]),
        decreases chars.len() - n,
    {
        n = n + 1;
    }
    proof {
        lemma_rate_length(chars@, n as int);
    }
    n
}

/// Reads `WIDTHxHEIGHT`.
pub fn parse_size(s: &str) -> (r: Option<(u32, u32)>)
    ensures
        r == parsed_size(s@),
{
    match split_once(s, 'x') {
        Some((w, h)) => match (
            parse_u32(trim(w.as_str()).as_str()),
            parse_u32(trim(h.as_str()).as_str()),
        ) {
            (Some(width), Some(height)) => Some((width, height)),
            _ => None,
        },
        None => None,
    }
}

/// Splits `WIDTHxHEIGHT@REFRESH` apart, ignoring any trailing variant marker.
///
/// Mutter appends flags to mode ids, so the same mode shows up as both
/// `2880x1800@120.000` and `2880x1800@120.000+vrr`.
pub fn parse_mode_id(id: &str) -> (r: Option<(u32, u32, Double)>)
    ensures
        r == parsed_mode_id(id@),
{
    let (size, rest) = match split_once(id, '@') {
        Some(parts) => parts,
        None => {
            return None;
        },
    };
    let chars = chars_of(rest.as_str());
    let n = rate_end(&chars);
    let front = string_of(&chars, 0, n);
    assert(front@ =~= rest@.take(n as int));
    match (parse_size(size.as_str()), parse_rate(front.as_str())) {
        (Some((width, height)), Some(refresh)) => Some((width, height, refresh)),
        _ => None,
    }
}

/// A display and everything that it offers.
#[derive(Debug)]
pub struct Output {
    pub connector: String,
    pub make: String,
    pub model: String,
    pub serial: String,
    pub modes: Vec<Mode>,
    pub current_mode: Option<String>,
    pub enabled: bool,
}

pub struct OutputView {
    pub connector: Seq<char>,
    pub make: Seq<char>,
    pub model: Seq<char>,
    pub serial: Seq<char>,
    pub modes: Seq<ModeView>,
    pub current_mode: Option<Seq<char>>,
    pub enabled: bool,
}

impl DeepView for Output {
    type V = OutputView;

    open spec fn deep_view(&self) -> OutputView {
        OutputView {
            connector: self.connector@,
            make: self.make@,
            model: self.model@,
            serial: self.serial@,
            modes: self.modes.deep_view(),
            current_mode: self.current_mode.deep_view(),
            enabled: self.enabled,
        }
    }
}

impl Default for Output {
    fn default() -> (r: Self)
        ensures
            r.deep_view() == (OutputView {
                connector: Seq::empty(),
                make: Seq::empty(),
                model: Seq::empty(),
                serial: Seq::empty(),
                modes: Seq::empty(),
                current_mode: None,
                enabled: false,
            }),
    {
        let r = Output {
            connector: String::new(),
            make: String::new(),
            model: String::new(),
            serial: String::new(),
            modes: Vec::new(),
            current_mode: None,
            enabled: false,
        };
        assert(r.deep_view().modes =~= Seq::empty());
        r
    }
}

impl Clone for Output {
    fn clone(&self) -> (r: Self)
        ensures
            r.deep_view() == self.deep_view(),
    {
        let mut modes: Vec<Mode> = Vec::new();
        let mut i: usize = 0;
        while i < self.modes.len()
            invariant
                i <= self.modes.len(),
                modes@ == self.modes@.take(i as int),
            decreases self.modes.len() - i,
        {
            modes.push(self.modes[i].clone());
            i = i + 1;
        }
        let r = Output {
            connector: self.connector.clone(),
            make: self.make.clone(),
            model: self.model.clone(),
            serial: self.serial.clone(),
            modes,
            current_mode: copy_text(&self.current_mode),
            enabled: self.enabled,
        };
        assert(r.deep_view().modes =~= self.deep_view().modes);
        r
    }
}

/// The first mode with this id.
pub open spec fn first_with_id(modes: Seq<ModeView>, id: Seq<char>) -> Option<int>
    decreases modes.len(),
{
    if modes.len() == 0 {
        None
    } else {
        match first_with_id(modes.drop_last(), id) {
            Some(i) => Some(i),
            None => if modes.last().id == id {
                Some(modes.len() - 1)
            } else {
                None
            },
        }
    }
}

/// The mode of this size whose rate is nearest, the first of them where several are.
pub open spec fn nearest(modes: Seq<ModeView>, width: u32, height: u32, refresh: Double) -> Option<int>
    decreases modes.len(),
{
    if modes.len() == 0 {
        None
    } else {
        let before = nearest(modes.drop_last(), width, height, refresh);
        let m = modes.last();
        if m.width == width && m.height == height && (before is None || gap(m.refresh, refresh)
            < gap(modes[before->Some_0].refresh, refresh)) {
            Some(modes.len() - 1)
        } else {
            before
        }
    }
}

/// What tells two entries of a menu apart: the size, and the rate as it is written there.
pub open spec fn menu_key(m: ModeView) -> (u32, u32, Seq<char>) {
    (m.width, m.height, rate_label(m.refresh))
}

/// Whether nothing stands behind the rate of a mode id.
pub open spec fn plain(id: Seq<char>) -> bool {
    match split_at_char(id, '@') {
        Some((_, rest)) => rate_length(rest) == rest.len(),
        None => false,
    }
}

/// Whether a menu shows the mode at `j` rather than the one at `i`, which reads the same: a
/// plain mode rather than a variant, and else the one that is listed first.
pub open spec fn outdoes(modes: Seq<ModeView>, j: int, i: int) -> bool {
    &&& menu_key(modes[j]) == menu_key(modes[i])
    &&& if plain(modes[j].id) == plain(modes[i].id) {
        j < i
    } else {
        plain(modes[j].id)
    }
}

/// Whether a menu leaves a mode out, because another one stands for it.
pub open spec fn hidden(modes: Seq<ModeView>, i: int) -> bool {
    exists|j: int| 0 <= j < modes.len() && #[trigger] outdoes(modes, j, i)
}

/// Those of the first `n` modes that a menu shows, by position.
pub open spec fn shown_of(modes: Seq<ModeView>, n: nat) -> Seq<int>
    decreases n,
{
    if n == 0 {
        Seq::empty()
    } else {
        let before = shown_of(modes, (n - 1) as nat);
        if hidden(modes, n - 1) {
            before
        } else {
            before.push(n - 1)
        }
    }
}

/// The modes that a menu shows, by position.
pub open spec fn distinct(modes: Seq<ModeView>) -> Seq<int> {
    shown_of(modes, modes.len())
}

/// The modes that stand at these positions.
pub open spec fn chosen(modes: Seq<ModeView>, at: Seq<int>) -> Seq<ModeView> {
    Seq::new(at.len(), |k: int| modes[at[k]])
}

impl OutputView {
    pub open spec fn identity(self) -> Identity {
        Identity { connector: self.connector, make: self.make, model: self.model, serial: self.serial }
    }

    /// The panel's name where there is one, and the connector.
    pub open spec fn display_name(self) -> Seq<char> {
        let model = trimmed(self.model);
        let make = trimmed(self.make);
        if model.len() == 0 {
            self.connector
        } else if make.len() == 0 {
            model + " ("@ + self.connector + ")"@
        } else {
            make + " "@ + model + " ("@ + self.connector + ")"@
        }
    }

    pub open spec fn matcher(self) -> OutputMatchView {
        OutputMatchView {
            connector: Some(self.connector),
            make: non_blank(self.make),
            model: non_blank(self.model),
            serial: non_blank(self.serial),
        }
    }

    /// The position of the mode that an entry of the settings refers to.
    pub open spec fn resolved(self, wanted: Seq<char>) -> Option<int> {
        match first_with_id(self.modes, wanted) {
            Some(i) => Some(i),
            None => match parsed_mode_id(wanted) {
                Some((width, height, refresh)) => nearest(self.modes, width, height, refresh),
                None => None,
            },
        }
    }
}

pub open spec fn non_blank(s: Seq<char>) -> Option<Seq<char>> {
    if trimmed(s).len() == 0 {
        None
    } else {
        Some(trimmed(s))
    }
}

fn unless_blank(s: &str) -> (r: Option<String>)
    ensures
        r.deep_view() == non_blank(s@),
{
    let t = trim(s);
    if t.as_str().is_empty() {
        None
    } else {
        Some(t)
    }
}

proof fn lemma_first_with_id(modes: Seq<ModeView>, id: Seq<char>)
    ensures
        match first_with_id(modes, id) {
            Some(i) => 0 <= i < modes.len() && modes[i].id == id && forall|j: int|
                0 <= j < i ==> (#[trigger] modes[j]).id != id,
            None => forall|j: int| 0 <= j < modes.len() ==> (#[trigger] modes[j]).id != id,
        },
    decreases modes.len(),
{
    if modes.len() > 0 {
        let front = modes.drop_last();
        lemma_first_with_id(front, id);
        assert forall|j: int| 0 <= j < front.len() implies #[trigger] modes[j] == front[j] by {}
    }
}

proof fn lemma_nearest(modes: Seq<ModeView>, width: u32, height: u32, refresh: Double)
    ensures
        match nearest(modes, width, height, refresh) {
            Some(i) => {
                &&& 0 <= i < modes.len()
                &&& modes[i].width == width && modes[i].height == height
                &&& forall|j: int|
                    0 <= j < modes.len() && (#[trigger] modes[j]).width == width
                        && modes[j].height == height ==> gap(modes[i].refresh, refresh) <= gap(
                        modes[j].refresh,
                        refresh,
                    ) && (j < i ==> gap(modes[i].refresh, refresh) < gap(
                        modes[j].refresh,
                        refresh,
                    ))
            },
            None => forall|j: int|
                0 <= j < modes.len() ==> !((#[trigger] modes[j]).width == width
                    && modes[j].height == height),
        },
    decreases modes.len(),
{
    if modes.len() > 0 {
        let front = modes.drop_last();
        lemma_nearest(front, width, height, refresh);
        assert forall|j: int| 0 <= j < front.len() implies #[trigger] modes[j] == front[j] by {}
    }
}

/// Whether nothing stands behind the rate of a mode id.
fn is_plain(id: &str) -> (r: bool)
    ensures
        r == plain(id@),
{
    match split_once(id, '@') {
        Some((_, rest)) => {
            let chars = chars_of(rest.as_str());
            rate_end(&chars) == chars.len()
        },
        None => false,
    }
}

impl Output {
    /// What to show in the window: the panel's name when the EDID gives us one.
    pub fn display_name(&self) -> (r: String)
        ensures
            r@ == self.deep_view().display_name(),
    {
        let model = trim(self.model.as_str());
        let make = trim(self.make.as_str());
        if model.as_str().is_empty() {
            return self.connector.clone();
        }
        let mut out = if make.as_str().is_empty() {
            model
        } else {
            let mut name = make;
            name.append(" ");
            name.append(model.as_str());
            name
        };
        out.append(" (");
        out.append(self.connector.as_str());
        out.append(")");
        out
    }

    /// A rule's description of this display.
    pub fn matcher(&self) -> (r: OutputMatch)
        ensures
            r.deep_view() == self.deep_view().matcher(),
    {
        OutputMatch {
            connector: Some(self.connector.clone()),
            make: unless_blank(self.make.as_str()),
            model: unless_blank(self.model.as_str()),
            serial: unless_blank(self.serial.as_str()),
        }
    }

    fn exact_mode(&self, wanted: &str) -> (r: Option<usize>)
        ensures
            match (r, first_with_id(self.deep_view().modes, wanted@)) {
                (Some(i), Some(k)) => i == k && i < self.modes.len(),
                (None, None) => true,
                _ => false,
            },
    {
        let ghost all = self.deep_view().modes;
        let mut i: usize = 0;
        while i < self.modes.len()
            invariant
                i <= self.modes.len(),
                all == self.deep_view().modes,
                forall|j: int| 0 <= j < i ==> (#[trigger] all[j]).id != wanted@,
            decreases self.modes.len() - i,
        {
            assert(all[i as int].id == self.modes@[i as int].id@);
            if same(self.modes[i].id.as_str(), wanted) {
                proof {
                    lemma_first_with_id(all, wanted@);
                }
                return Some(i);
            }
            i = i + 1;
        }
        proof {
            lemma_first_with_id(all, wanted@);
        }
        None
    }

    /// Finds the mode a config entry refers to.
    ///
    /// Exact id first, then the same resolution at the closest refresh rate. The fallback
    /// matters because backends report refresh rates with differing precision (Mutter says
    /// `59.810825347900391`, kscreen says `59.81`) and because a config written against one
    /// desktop should still work when the user logs into another.
    pub fn resolve_mode(&self, wanted: &str) -> (r: Option<&Mode>)
        ensures
            match (r, self.deep_view().resolved(wanted@)) {
                (Some(mode), Some(i)) => 0 <= i < self.modes.len() && *mode == self.modes@[i],
                (None, None) => true,
                _ => false,
            },
    {
        let ghost all = self.deep_view().modes;
        if let Some(i) = self.exact_mode(wanted) {
            return Some(&self.modes[i]);
        }
        let (width, height, refresh) = match parse_mode_id(wanted) {
            Some(parts) => parts,
            None => {
                return None;
            },
        };
        let mut best: Option<usize> = None;
        let mut i: usize = 0;
        while i < self.modes.len()
            invariant
                i <= self.modes.len(),
                all == self.deep_view().modes,
                all.len() == self.modes.len(),
                match (best, nearest(all.take(i as int), width, height, refresh)) {
                    (Some(b), Some(k)) => b == k && b < i,
                    (None, None) => true,
                    _ => false,
                },
            decreases self.modes.len() - i,
        {
            let m = &self.modes[i];
            proof {
                assert(all.take(i + 1).drop_last() =~= all.take(i as int));
                assert(all.take(i + 1).last() == m.deep_view());
                assert(best is Some ==> all.take(i + 1)[best->Some_0 as int]
                    == self.modes@[best->Some_0 as int].deep_view());
            }
            if m.width == width && m.height == height {
                let closer = match best {
                    Some(b) => m.refresh.gap_to(refresh) < self.modes[b].refresh.gap_to(refresh),
                    None => true,
                };
                if closer {
                    best = Some(i);
                }
            }
            i = i + 1;
        }
        assert(all.take(i as int) =~= all);
        match best {
            Some(b) => Some(&self.modes[b]),
            None => None,
        }
    }

    /// Modes with the variant duplicates collapsed away, for populating menus.
    ///
    /// Mutter lists a `+vrr` twin of every mode, and offering the user two entries that
    /// read identically is worse than quietly picking the plain one.
    pub fn distinct_modes(&self) -> (r: Vec<&Mode>)
        ensures
            r.deep_view() == chosen(self.deep_view().modes, distinct(self.deep_view().modes)),
    {
        let ghost all = self.deep_view().modes;
        let mut labels: Vec<String> = Vec::new();
        let mut plains: Vec<bool> = Vec::new();
        let mut i: usize = 0;
        while i < self.modes.len()
            invariant
                i <= self.modes.len(),
                all == self.deep_view().modes,
                all.len() == self.modes.len(),
                labels.len() == i,
                plains.len() == i,
                forall|k: int|
                    0 <= k < i ==> (#[trigger] labels@[k])@ == rate_label(all[k].refresh),
                forall|k: int| 0 <= k < i ==> #[trigger] plains@[k] == plain(all[k].id),
            decreases self.modes.len() - i,
        {
            assert(all[i as int] == self.modes@[i as int].deep_view());
            labels.push(self.modes[i].refresh_label());
            plains.push(is_plain(self.modes[i].id.as_str()));
            i = i + 1;
        }
        let mut out: Vec<&Mode> = Vec::new();
        let mut i: usize = 0;
        while i < self.modes.len()
            invariant
                i <= self.modes.len(),
                all == self.deep_view().modes,
                all.len() == self.modes.len(),
                labels.len() == all.len(),
                plains.len() == all.len(),
                forall|k: int|
                    0 <= k < all.len() ==> (#[trigger] labels@[k])@ == rate_label(all[k].refresh),
                forall|k: int| 0 <= k < all.len() ==> #[trigger] plains@[k] == plain(all[k].id),
                out.deep_view() == chosen(all, shown_of(all, i as nat)),
            decreases self.modes.len() - i,
        {
            let m = &self.modes[i];
            let mut left_out = false;
            let mut j: usize = 0;
            while j < self.modes.len() && !left_out
                invariant
                    i < self.modes.len(),
                    j <= self.modes.len(),
                    all == self.deep_view().modes,
                    all.len() == self.modes.len(),
                    *m == self.modes@[i as int],
                    labels.len() == all.len(),
                    plains.len() == all.len(),
                    forall|k: int|
                        0 <= k < all.len() ==> (#[trigger] labels@[k])@ == rate_label(
                            all[k].refresh,
                        ),
                    forall|k: int| 0 <= k < all.len() ==> #[trigger] plains@[k] == plain(all[k].id),
                    left_out ==> hidden(all, i as int),
                    !left_out ==> forall|k: int|
                        0 <= k < j ==> !#[trigger] outdoes(all, k, i as int),
                decreases self.modes.len() - j,
            {
                let e = &self.modes[j];
                assert(all[j as int] == e.deep_view());
                assert(all[i as int] == m.deep_view());
                let first = if plains[j] == plains[i] {
                    j < i
                } else {
                    plains[j]
                };
                if first && e.width == m.width && e.height == m.height && labels[j] == labels[i] {
                    left_out = true;
                    assert(outdoes(all, j as int, i as int));
                }
                j = j + 1;
            }
            let ghost before = out.deep_view();
            let ghost at = shown_of(all, i as nat);
            if !left_out {
                out.push(m);
                assert(out.deep_view() =~= before.push(m.deep_view()));
            }
            i = i + 1;
            proof {
                assert(all[i - 1] == m.deep_view());
                assert(left_out <==> hidden(all, i - 1));
                assert(!left_out ==> shown_of(all, i as nat) == at.push(i - 1));
                assert(out.deep_view() =~= chosen(all, shown_of(all, i as nat)));
            }
        }
        out
    }
}

proof fn lemma_shown_of(modes: Seq<ModeView>, n: nat)
    requires
        n <= modes.len(),
    ensures
        forall|k: int|
            0 <= k < shown_of(modes, n).len() ==> 0 <= #[trigger] shown_of(modes, n)[k] < n
                && !hidden(modes, shown_of(modes, n)[k]),
        forall|i: int|
            0 <= i < n && !hidden(modes, i) ==> #[trigger] shown_of(modes, n).contains(i),
        forall|a: int, b: int|
            0 <= a < b < shown_of(modes, n).len() ==> #[trigger] shown_of(modes, n)[a]
                < #[trigger] shown_of(modes, n)[b],
    decreases n,
{
    if n > 0 {
        let before = shown_of(modes, (n - 1) as nat);
        let now = shown_of(modes, n);
        lemma_shown_of(modes, (n - 1) as nat);
        assert forall|i: int| 0 <= i < n && !hidden(modes, i) implies #[trigger] now.contains(i) by {
            if i == n - 1 {
                assert(now[now.len() - 1] == i);
            } else {
                assert(before.contains(i));
                let k = choose|k: int| 0 <= k < before.len() && before[k] == i;
                assert(now[k] == i);
            }
        }
    }
}

/// The positions in the menu grow, and are those of the modes that nothing stands for.
pub proof fn lemma_distinct(modes: Seq<ModeView>)
    ensures
        forall|k: int|
            0 <= k < distinct(modes).len() ==> 0 <= #[trigger] distinct(modes)[k] < modes.len()
                && !hidden(modes, distinct(modes)[k]),
        forall|i: int|
            0 <= i < modes.len() && !hidden(modes, i) ==> #[trigger] distinct(modes).contains(i),
        forall|a: int, b: int|
            0 <= a < b < distinct(modes).len() ==> #[trigger] distinct(modes)[a]
                < #[trigger] distinct(modes)[b],
{
    lemma_shown_of(modes, modes.len());
}

/// Two modes that a menu shows differ in size or in the rate that is written for them.
pub proof fn law_menu_entries_differ(modes: Seq<ModeView>, a: int, b: int)
    requires
        0 <= a < b < distinct(modes).len(),
    ensures
        ({
            let (x, y) = (modes[distinct(modes)[a]], modes[distinct(modes)[b]]);
            x.width == y.width && x.height == y.height ==> rate_label(x.refresh) != rate_label(
                y.refresh,
            )
        }),
{
    lemma_distinct(modes);
    let (i, j) = (distinct(modes)[a], distinct(modes)[b]);
    assert(0 <= i < j < modes.len());
    if menu_key(modes[i]) == menu_key(modes[j]) {
        assert(outdoes(modes, i, j) || outdoes(modes, j, i));
    }
}

/// Every mode is offered in the menu, itself or through one that reads the same.
pub proof fn law_menu_leaves_no_mode_out(modes: Seq<ModeView>, i: int)
    requires
        0 <= i < modes.len(),
    ensures
        exists|k: int|
            0 <= k < distinct(modes).len() && menu_key(modes[#[trigger] distinct(modes)[k]])
                == menu_key(modes[i]),
    decreases
            if plain(modes[i].id) {
                0int
            } else {
                1int
            },
            i,
{
    lemma_distinct(modes);
    if hidden(modes, i) {
        let j = choose|j: int| 0 <= j < modes.len() && #[trigger] outdoes(modes, j, i);
        law_menu_leaves_no_mode_out(modes, j);
    } else {
        assert(distinct(modes).contains(i));
        let k = choose|k: int| 0 <= k < distinct(modes).len() && distinct(modes)[k] == i;
        assert(menu_key(modes[distinct(modes)[k]]) == menu_key(modes[i]));
    }
}

/// Of the modes that read the same, the menu shows the first plain one where there is one, and
/// else the first of them.
pub proof fn law_the_plain_twin_is_shown(modes: Seq<ModeView>, k: int, i: int)
    requires
        0 <= k < distinct(modes).len(),
        0 <= i < modes.len(),
        menu_key(modes[i]) == menu_key(modes[distinct(modes)[k]]),
    ensures
        plain(modes[i].id) ==> plain(modes[distinct(modes)[k]].id) && distinct(modes)[k] <= i,
        !plain(modes[distinct(modes)[k]].id) ==> distinct(modes)[k] <= i,
{
    lemma_distinct(modes);
    assert(!outdoes(modes, i, distinct(modes)[k]));
}

/// A mode that is offered under the wanted id is always the one that is found.
pub proof fn law_exact_id_wins(o: OutputView, i: int)
    requires
        0 <= i < o.modes.len(),
    ensures
        o.resolved(o.modes[i].id) is Some,
        0 <= o.resolved(o.modes[i].id)->Some_0 <= i,
        o.modes[o.resolved(o.modes[i].id)->Some_0].id == o.modes[i].id,
{
    lemma_first_with_id(o.modes, o.modes[i].id);
}

/// Whatever is found exists on the display, and where the id is not offered, has the wanted
/// size and a rate that no other mode of that size comes closer to.
pub proof fn law_found_mode_is_the_closest(o: OutputView, wanted: Seq<char>)
    ensures
        match o.resolved(wanted) {
            Some(i) => {
                &&& 0 <= i < o.modes.len()
                &&& o.modes[i].id == wanted || (parsed_mode_id(wanted) is Some && ({
                    let (width, height, refresh) = parsed_mode_id(wanted)->Some_0;
                    &&& o.modes[i].width == width
                    &&& o.modes[i].height == height
                    &&& forall|j: int|
                        0 <= j < o.modes.len() && (#[trigger] o.modes[j]).width == width
                            && o.modes[j].height == height ==> gap(o.modes[i].refresh, refresh)
                            <= gap(o.modes[j].refresh, refresh)
                }))
            },
            None => parsed_mode_id(wanted) is Some ==> ({
                let (width, height, refresh) = parsed_mode_id(wanted)->Some_0;
                forall|j: int|
                    0 <= j < o.modes.len() ==> !((#[trigger] o.modes[j]).width == width
                        && o.modes[j].height == height)
            }),
        },
{
    lemma_first_with_id(o.modes, wanted);
    if let Some((width, height, refresh)) = parsed_mode_id(wanted) {
        lemma_nearest(o.modes, width, height, refresh);
    }
}

/// The rule that the window writes for a display describes that display, unless the display
/// says nothing of itself at all.
pub proof fn law_matcher_describes_its_own_display(o: OutputView)
    requires
        trimmed(o.connector).len() > 0 || trimmed(o.make).len() > 0 || trimmed(o.model).len() > 0
            || trimmed(o.serial).len() > 0,
    ensures
        o.matcher().score(o.identity()) is Some,
{
    lemma_trimmed_twice(o.make);
    lemma_trimmed_twice(o.model);
    lemma_trimmed_twice(o.serial);
}

/// The rule that the window writes for a display that says something of itself still
/// describes the display on any other port.
pub proof fn law_saved_rule_survives_a_replug(o: OutputView, port: Seq<char>)
    requires
        trimmed(o.make).len() > 0 || trimmed(o.model).len() > 0 || trimmed(o.serial).len() > 0,
    ensures
        o.matcher().score(Identity { connector: port, ..o.identity() }) is Some,
{
    lemma_trimmed_twice(o.make);
    lemma_trimmed_twice(o.model);
    lemma_trimmed_twice(o.serial);
}

/// Digits are nothing that is trimmed away.
proof fn lemma_trimmed_digits(s: Seq<char>)
    requires
        all_digits(s),
    ensures
        trimmed(s) == s,
{
    if s.len() > 0 {
        assert(is_digit(s[0]) && is_digit(s[s.len() - 1]));
    }
    lemma_trimmed(s);
}

proof fn lemma_parsed_decimal(n: u32)
    ensures
        parsed_u32(decimal(n as nat)) == Some(n),
        trimmed(decimal(n as nat)) == decimal(n as nat),
{
    lemma_decimal(n as nat);
    lemma_trimmed_digits(decimal(n as nat));
    assert(is_digit(decimal(n as nat)[0]));
}

proof fn lemma_size_reads_back(width: u32, height: u32)
    ensures
        parsed_size(size_text(width, height)) == Some((width, height)),
        forall|i: int|
            0 <= i < size_text(width, height).len() ==> #[trigger] size_text(width, height)[i]
                != '@',
{
    reveal_strlit("x");
    let w = decimal(width as nat);
    let h = decimal(height as nat);
    let s = size_text(width, height);
    lemma_parsed_decimal(width);
    lemma_parsed_decimal(height);
    lemma_decimal(width as nat);
    lemma_decimal(height as nat);
    let k = w.len() as int;
    assert forall|i: int| 0 <= i < s.len() implies (if i == k {
        s[i] == 'x'
    } else {
        is_digit(#[trigger] s[i])
    }) by {
        if i < k {
            assert(s[i] == w[i]);
        } else if i > k {
            assert(s[i] == h[i - k - 1]);
        }
    }
    lemma_find_char_unique(s, 'x', k);
    assert(s.take(k) =~= w);
    assert(s.skip(k + 1) =~= h);
}

proof fn lemma_fixed_is_a_rate(rate: Double)
    requires
        rate.finite(),
        !rate.negative(),
    ensures
        rate_length(fixed(rate, 3)) == fixed(rate, 3).len(),
{
    reveal_strlit("");
    reveal_strlit(".");
    reveal_with_fuel(pow10, 4);
    let n = in_units(rate, 1000);
    let whole = decimal(n / 1000);
    let fraction = padded(n % 1000, 3);
    lemma_decimal(n / 1000);
    lemma_padded(n % 1000, 3);
    let s = fixed(rate, 3);
    assert(s =~= whole + "."@ + fraction);
    let k = whole.len() as int;
    assert forall|i: int| 0 <= i < s.len() implies rate_char(#[trigger] s[i]) by {
        if i < k {
            assert(s[i] == whole[i]);
        } else if i > k {
            assert(s[i] == fraction[i - k - 1]);
        }
    }
    lemma_rate_length(s, s.len() as int);
}

/// A mode id reads back as the size it was written from and the number nearest to the rate
/// that is written, which is in whole millihertz, whatever marker stands behind it.
pub proof fn law_mode_id_reads_back(width: u32, height: u32, refresh: Double, marker: Seq<char>)
    requires
        refresh.finite(),
        !refresh.negative(),
        marker.len() > 0 ==> !rate_char(marker[0]),
    ensures
        parsed_mode_id(mode_text(width, height, refresh) + marker) == Some(
            (width, height, Double { bits: ratio(in_units(refresh, 1000), 1000) }),
        ),
{
    reveal_strlit("@");
    let size = size_text(width, height);
    let rate = fixed(refresh, 3);
    let s = mode_text(width, height, refresh);
    lemma_size_reads_back(width, height);
    let k = size.len() as int;
    assert forall|i: int| 0 <= i < k implies s[i] != '@' by {
        assert(s[i] == size[i]);
    }
    assert(s[k] == '@');
    lemma_find_char_unique(s, '@', k);
    assert(s.take(k) =~= size);
    assert(s.skip(k + 1) =~= rate);
    lemma_fixed_is_a_rate(refresh);
    assert(rate.take(rate.len() as int) =~= rate);
    law_rate_reads_back(refresh);
    if marker.len() > 0 {
        law_variant_marker_is_not_read(s, marker);
    } else {
        assert(s + marker =~= s);
    }
}

/// The id of what a mode id reads as is that mode id again, without its marker.
pub proof fn law_mode_id_is_kept(width: u32, height: u32, refresh: Double, marker: Seq<char>)
    requires
        refresh.finite(),
        !refresh.negative(),
        marker.len() > 0 ==> !rate_char(marker[0]),
    ensures
        match parsed_mode_id(mode_text(width, height, refresh) + marker) {
            Some((w, h, rate)) => mode_text(w, h, rate) == mode_text(width, height, refresh),
            None => false,
        },
{
    law_mode_id_reads_back(width, height, refresh, marker);
    law_written_rate_is_kept(refresh);
}

/// A rate of whole millihertz is read back from a mode id as it was.
pub proof fn law_millihertz_read_back(width: u32, height: u32, n: nat, marker: Seq<char>)
    requires
        n < FINE,
        marker.len() > 0 ==> !rate_char(marker[0]),
    ensures
        ({
            let rate = Double { bits: ratio(n, 1000) };
            parsed_mode_id(mode_text(width, height, rate) + marker) == Some((width, height, rate))
        }),
{
    law_millihertz_are_kept(n);
    law_mode_id_reads_back(width, height, Double { bits: ratio(n, 1000) }, marker);
}

/// A marker behind the rate of a mode id changes nothing that is read from it.
pub proof fn law_variant_marker_is_not_read(id: Seq<char>, marker: Seq<char>)
    requires
        find_char(id, '@') < id.len(),
        marker.len() > 0,
        !rate_char(marker[0]),
    ensures
        parsed_mode_id(id + marker) == parsed_mode_id(id),
{
    let s = id + marker;
    lemma_find_char(id, '@');
    let k = find_char(id, '@');
    assert forall|i: int| 0 <= i < k implies s[i] != '@' by {
        assert(s[i] == id[i]);
    }
    lemma_find_char_unique(s, '@', k);
    let rest = id.skip(k + 1);
    assert(s.take(k) =~= id.take(k));
    assert(s.skip(k + 1) =~= rest + marker);
    lemma_rate_length_stops(rest);
    let n = rate_length(rest);
    assert forall|j: int| 0 <= j < n implies rate_char(#[trigger] (rest + marker)[j]) by {
        assert(rest[j] == (rest + marker)[j]);
    }
    if n < rest.len() {
        assert((rest + marker)[n] == rest[n]);
    } else {
        assert((rest + marker)[n] == marker[0]);
    }
    lemma_rate_length(rest + marker, n);
    assert((rest + marker).take(n) =~= rest.take(n));
}

proof fn lemma_rate_length_stops(s: Seq<char>)
    ensures
        0 <= rate_length(s) <= s.len(),
        forall|j: int| 0 <= j < rate_length(s) ==> rate_char(#[trigger] s[j]),
        rate_length(s) < s.len() ==> !rate_char(s[rate_length(s)]),
    decreases s.len(),
{
    if s.len() > 0 && rate_char(s[0]) {
        let rest = s.drop_first();
        lemma_rate_length_stops(rest);
        assert forall|j: int| 0 <= j < rate_length(s) implies rate_char(#[trigger] s[j]) by {
            if j > 0 {
                assert(s[j] == rest[j - 1]);
            }
        }
    }
}

/// Which mode an entry of the settings refers to. One that is listed under the very id is the
/// one, the first of them where several are. Otherwise it is a mode of the size that the id
/// says, the nearest to the rate that it says, the first of those that are as near; and where
/// the id cannot be read, or no mode has the size, there is none.
pub proof fn law_an_entry_refers_to_the_nearest_mode(o: OutputView, wanted: Seq<char>)
    ensures
        ({
            let named = exists|i: int|
                0 <= i < o.modes.len() && (#[trigger] o.modes[i]).id == wanted;
            &&& named ==> (o.resolved(wanted) matches Some(k) && 0 <= k < o.modes.len()
                && o.modes[k].id == wanted && forall|j: int|
                0 <= j < k ==> (#[trigger] o.modes[j]).id != wanted)
            &&& !named && parsed_mode_id(wanted) is None ==> o.resolved(wanted) is None
            &&& !named ==> (parsed_mode_id(wanted) matches Some(parts) ==> {
                &&& o.resolved(wanted) is None <==> forall|j: int|
                    0 <= j < o.modes.len() ==> (#[trigger] o.modes[j]).width != parts.0
                        || o.modes[j].height != parts.1
                &&& o.resolved(wanted) matches Some(k) ==> {
                    &&& 0 <= k < o.modes.len() && o.modes[k].width == parts.0
                        && o.modes[k].height == parts.1
                    &&& forall|j: int|
                        0 <= j < o.modes.len() && (#[trigger] o.modes[j]).width == parts.0
                            && o.modes[j].height == parts.1 ==> gap(o.modes[k].refresh, parts.2)
                            <= gap(o.modes[j].refresh, parts.2) && (j < k ==> gap(
                            o.modes[k].refresh,
                            parts.2,
                        ) < gap(o.modes[j].refresh, parts.2))
                }
            })
        }),
{
    lemma_first_with_id(o.modes, wanted);
    if let Some((width, height, refresh)) = parsed_mode_id(wanted) {
        lemma_nearest(o.modes, width, height, refresh);
    }
}

/// How a mode id is read: what stands before the first `x` is the width, from there to the
/// first `@` the height, and behind that as many digits and points as follow are the rate;
/// what is left is not read.
pub proof fn law_a_mode_id_is_read_in_parts(
    width: Seq<char>,
    height: Seq<char>,
    rate: Seq<char>,
    marker: Seq<char>,
)
    requires
        !width.contains('x'),
        !width.contains('@'),
        !height.contains('@'),
        forall|i: int|
            0 <= i < rate.len() ==> ('0' <= #[trigger] rate[i] <= '9' || rate[i] == '.'),
        marker.len() > 0 ==> !('0' <= marker[0] <= '9' || marker[0] == '.'),
    ensures
        ({
            let id = width + seq!['x'] + height + seq!['@'] + rate + marker;
            match (parsed_u32(trimmed(width)), parsed_u32(trimmed(height)), parsed_rate(rate)) {
                (Some(w), Some(h), Some(r)) => parsed_mode_id(id) == Some((w, h, r)),
                _ => parsed_mode_id(id) is None,
            }
        }),
{
    let size = width + seq!['x'] + height;
    let rest = rate + marker;
    let id = width + seq!['x'] + height + seq!['@'] + rate + marker;
    assert(id =~= size + seq!['@'] + rest);
    let k = size.len() as int;
    assert forall|i: int| 0 <= i < k implies id[i] != '@' by {
        if i < width.len() {
            assert(id[i] == width[i]);
        } else if i > width.len() {
            assert(id[i] == height[i - width.len() - 1]);
        }
    }
    assert(id[k] == '@');
    lemma_find_char_unique(id, '@', k);
    assert(id.take(k) =~= size);
    assert(id.skip(k + 1) =~= rest);
    let w = width.len() as int;
    assert forall|i: int| 0 <= i < w implies size[i] != 'x' by {
        assert(size[i] == width[i]);
    }
    assert(size[w] == 'x');
    lemma_find_char_unique(size, 'x', w);
    assert(size.take(w) =~= width);
    assert(size.skip(w + 1) =~= height);
    assert forall|j: int| 0 <= j < rate.len() implies rate_char(#[trigger] rest[j]) by {
        assert(rest[j] == rate[j]);
    }
    if marker.len() > 0 {
        assert(rest[rate.len() as int] == marker[0]);
    }
    lemma_rate_length(rest, rate.len() as int);
    assert(rest.take(rate.len() as int) =~= rate);
}

/// What has no `@`, or no `x` before it, is no mode id.
pub proof fn law_a_mode_id_needs_its_marks(id: Seq<char>)
    ensures
        !id.contains('@') ==> parsed_mode_id(id) is None,
        !id.contains('x') ==> parsed_mode_id(id) is None,
        !id.contains('x') ==> parsed_size(id) is None,
{
    lemma_find_char(id, '@');
    lemma_find_char(id, 'x');
    if find_char(id, '@') < id.len() {
        let size = id.take(find_char(id, '@'));
        lemma_find_char(size, 'x');
        let f = find_char(size, 'x');
        if f < size.len() {
            assert(id[f] == 'x');
        }
    }
}

/// A mode id is the size, an `@` and the rate with three digits behind the point; a label in a
/// menu has two, and the unit.
pub proof fn law_how_modes_are_written(width: u32, height: u32, refresh: Double)
    ensures
        mode_text(width, height, refresh) == decimal(width as nat) + seq!['x'] + decimal(
            height as nat,
        ) + seq!['@'] + fixed(refresh, 3),
        size_text(width, height) == decimal(width as nat) + seq!['x'] + decimal(height as nat),
        rate_label(refresh) == fixed(refresh, 2) + seq![' ', 'H', 'z'],
{
    reveal_strlit("x");
    reveal_strlit("@");
    reveal_strlit(" Hz");
    assert("x"@ =~= seq!['x']);
    assert("@"@ =~= seq!['@']);
    assert(" Hz"@ =~= seq![' ', 'H', 'z']);
}

/// Two modes read the same in a menu where their sizes are the same and their rates are
/// written the same. A mode is plain where nothing but digits and points stand behind the first
/// `@` of its id.
pub proof fn law_which_modes_read_the_same(a: ModeView, b: ModeView, front: Seq<char>, rest: Seq<char>)
    ensures
        menu_key(a) == menu_key(b) <==> a.width == b.width && a.height == b.height && fixed(
            a.refresh,
            2,
        ) + " Hz"@ == fixed(b.refresh, 2) + " Hz"@,
        !front.contains('@') ==> !plain(front),
        !front.contains('@') ==> (plain(front + seq!['@'] + rest) <==> forall|i: int|
            0 <= i < rest.len() ==> ('0' <= #[trigger] rest[i] <= '9' || rest[i] == '.')),
{
    lemma_find_char(front, '@');
    if !front.contains('@') {
        let id = front + seq!['@'] + rest;
        let k = front.len() as int;
        assert forall|i: int| 0 <= i < k implies id[i] != '@' by {
            assert(id[i] == front[i]);
        }
        lemma_find_char_unique(id, '@', k);
        assert(id.skip(k + 1) =~= rest);
        lemma_rate_length_stops(rest);
        if forall|i: int|
            0 <= i < rest.len() ==> ('0' <= #[trigger] rest[i] <= '9' || rest[i] == '.') {
            if rate_length(rest) < rest.len() {
                assert(!rate_char(rest[rate_length(rest)]));
            }
        } else {
            let i = choose|i: int|
                0 <= i < rest.len() && !('0' <= #[trigger] rest[i] <= '9' || rest[i] == '.');
            if rate_length(rest) == rest.len() {
                assert(rate_char(rest[i]));
            }
        }
    }
}

/// What a display is called: its make and model, without the white space around them, and
/// then its connector in brackets; without a model, the connector alone.
pub proof fn law_what_a_display_is_called(o: OutputView)
    ensures
        trimmed(o.model).len() == 0 ==> o.display_name() == o.connector,
        trimmed(o.model).len() > 0 && trimmed(o.make).len() == 0 ==> o.display_name() == trimmed(
            o.model,
        ) + " ("@ + o.connector + ")"@,
        trimmed(o.model).len() > 0 && trimmed(o.make).len() > 0 ==> o.display_name() == trimmed(
            o.make,
        ) + " "@ + trimmed(o.model) + " ("@ + o.connector + ")"@,
{
}

/// The rule that the window writes for a display names its connector, and each EDID field that
/// says something, without the white space around it.
pub proof fn law_what_a_saved_rule_names(o: OutputView)
    ensures
        o.matcher().connector == Some(o.connector),
        o.matcher().make == (if trimmed(o.make).len() == 0 {
            None
        } else {
            Some(trimmed(o.make))
        }),
        o.matcher().model == (if trimmed(o.model).len() == 0 {
            None
        } else {
            Some(trimmed(o.model))
        }),
        o.matcher().serial == (if trimmed(o.serial).len() == 0 {
            None
        } else {
            Some(trimmed(o.serial))
        }),
{
}

/// A menu shows a mode exactly where no other that reads the same goes before it: a plain one
/// before a variant, and of two that are alike in this the one that is listed first. What is
/// shown is in the order of the list.
pub proof fn law_which_modes_a_menu_shows(modes: Seq<ModeView>, i: int)
    requires
        0 <= i < modes.len(),
    ensures
        distinct(modes).contains(i) <==> forall|j: int|
            0 <= j < modes.len() && j != i && (#[trigger] modes[j]).width == modes[i].width
                && modes[j].height == modes[i].height && rate_label(modes[j].refresh)
                == rate_label(modes[i].refresh) ==> (plain(modes[i].id) && !plain(modes[j].id)) || (
            plain(modes[i].id) == plain(modes[j].id) && i < j),
        forall|a: int, b: int|
            0 <= a < b < distinct(modes).len() ==> #[trigger] distinct(modes)[a]
                < #[trigger] distinct(modes)[b],
        chosen(modes, distinct(modes)).len() == distinct(modes).len(),
        forall|k: int|
            0 <= k < distinct(modes).len() ==> #[trigger] chosen(modes, distinct(modes))[k]
                == modes[distinct(modes)[k]],
{
    lemma_distinct(modes);
    if distinct(modes).contains(i) {
        let k = choose|k: int| 0 <= k < distinct(modes).len() && distinct(modes)[k] == i;
        assert(!hidden(modes, distinct(modes)[k]));
        assert forall|j: int|
            0 <= j < modes.len() && j != i && (#[trigger] modes[j]).width == modes[i].width
                && modes[j].height == modes[i].height && rate_label(modes[j].refresh)
                == rate_label(modes[i].refresh) implies (plain(modes[i].id) && !plain(modes[j].id))
            || (plain(modes[i].id) == plain(modes[j].id) && i < j) by {
            assert(!outdoes(modes, j, i));
        }
    } else {
        assert(hidden(modes, i));
        let j = choose|j: int| 0 <= j < modes.len() && #[trigger] outdoes(modes, j, i);
        assert(modes[j].width == modes[i].width);
    }
}

} // verus!
