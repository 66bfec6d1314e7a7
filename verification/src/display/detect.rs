//! Which kind of desktop is running.

use vstd::prelude::*;

use crate::text::{
    contains, debug_str, debug_text, holds, join, joined, lowered, same, to_lower, trim, trimmed,
};

verus! {

/// A way to talk to the running session.
#[derive(Clone, Copy, Debug, PartialEq, Eq, Structural)]
pub enum BackendKind {
    Gnome,
    Kde,
    Wlroots,
    X11,
}

impl BackendKind {
    pub open spec fn short_name(self) -> Seq<char> {
        match self {
            BackendKind::Gnome => "gnome"@,
            BackendKind::Kde => "kde"@,
            BackendKind::Wlroots => "wlroots"@,
            BackendKind::X11 => "x11"@,
        }
    }

    pub fn as_str(self) -> (r: &'static str)
        ensures
            r@ == self.short_name(),
    {
        match self {
            BackendKind::Gnome => "gnome",
            BackendKind::Kde => "kde",
            BackendKind::Wlroots => "wlroots",
            BackendKind::X11 => "x11",
        }
    }

    /// What to call the backend in front of the user.
    pub fn name(self) -> (r: &'static str)
        ensures
            r@ == (match self {
                BackendKind::Gnome => "GNOME (Mutter)"@,
                BackendKind::Kde => "KDE Plasma (kscreen)"@,
                BackendKind::Wlroots => "wlroots (wlr-output-management)"@,
                BackendKind::X11 => "X11 (RandR)"@,
            }),
    {
        match self {
            BackendKind::Gnome => "GNOME (Mutter)",
            BackendKind::Kde => "KDE Plasma (kscreen)",
            BackendKind::Wlroots => "wlroots (wlr-output-management)",
            BackendKind::X11 => "X11 (RandR)",
        }
    }

    /// Whether the desktop can be asked to remember a layout or to apply it for now only.
    /// KScreen always remembers what it applied.
    pub fn supports_persist(self) -> (r: bool)
        ensures
            r == (self == BackendKind::Gnome),
    {
        match self {
            BackendKind::Gnome => true,
            _ => false,
        }
    }

    /// The backend that a name stands for, whatever its case and the space around it.
    pub open spec fn named(value: Seq<char>) -> Option<BackendKind> {
        let v = lowered(trimmed(value));
        if v == "gnome"@ || v == "mutter"@ {
            Some(BackendKind::Gnome)
        } else if v == "kde"@ || v == "plasma"@ || v == "kwin"@ {
            Some(BackendKind::Kde)
        } else if v == "wlroots"@ || v == "wlr"@ || v == "sway"@ || v == "hyprland"@ {
            Some(BackendKind::Wlroots)
        } else if v == "x11"@ || v == "xrandr"@ || v == "randr"@ {
            Some(BackendKind::X11)
        } else {
            None
        }
    }

    pub fn parse(value: &str) -> (r: Option<Self>)
        ensures
            r == BackendKind::named(value@),
    {
        let v = to_lower(trim(value).as_str());
        let v = v.as_str();
        if same(v, "gnome") || same(v, "mutter") {
            Some(BackendKind::Gnome)
        } else if same(v, "kde") || same(v, "plasma") || same(v, "kwin") {
            Some(BackendKind::Kde)
        } else if same(v, "wlroots") || same(v, "wlr") || same(v, "sway") || same(v, "hyprland") {
            Some(BackendKind::Wlroots)
        } else if same(v, "x11") || same(v, "xrandr") || same(v, "randr") {
            Some(BackendKind::X11)
        } else {
            None
        }
    }
}

/// The order in which the backends are tried on a desktop of this name.
///
/// The desktop's own interface comes first: it owns the saved configuration, so going around
/// it means the desktop reverts us on the next hotplug.
pub open spec fn probing_order(desktop: Seq<char>) -> Seq<BackendKind> {
    let name = lowered(desktop);
    if holds(name, "kde"@) || holds(name, "plasma"@) {
        seq![BackendKind::Kde, BackendKind::Gnome, BackendKind::Wlroots, BackendKind::X11]
    } else {
        seq![BackendKind::Gnome, BackendKind::Kde, BackendKind::Wlroots, BackendKind::X11]
    }
}

/// Adds a backend that is not on the list yet.
fn add_once(order: &mut Vec<BackendKind>, kind: BackendKind)
    ensures
        final(order)@ == if old(order)@.contains(kind) {
            old(order)@
        } else {
            old(order)@.push(kind)
        },
{
    let mut i: usize = 0;
    while i < order.len()
        invariant
            i <= order.len(),
            order@ == old(order)@,
            forall|j: int| 0 <= j < i ==> order@[j] != kind,
        decreases order.len() - i,
    {
        if order[i] == kind {
            assert(order@[i as int] == kind);
            return ;
        }
        i = i + 1;
    }
    order.push(kind);
}

/// Lists the backends in the order in which they are to be tried.
pub fn detection_order(desktop: &str) -> (r: Vec<BackendKind>)
    ensures
        r@ == probing_order(desktop@),
{
    let name = to_lower(desktop);
    let name = name.as_str();
    let mut order: Vec<BackendKind> = Vec::new();
    if contains(name, "kde") || contains(name, "plasma") {
        order.push(BackendKind::Kde);
    }
    let ghost first = order@;
    assert(forall|k: BackendKind| first.contains(k) ==> k == BackendKind::Kde);
    if contains(name, "gnome") || contains(name, "unity") {
        add_once(&mut order, BackendKind::Gnome);
    }
    assert(order@ =~= first || order@ =~= first.push(BackendKind::Gnome));
    add_once(&mut order, BackendKind::Gnome);
    proof {
        assert(first.push(BackendKind::Gnome)[first.len() as int] == BackendKind::Gnome);
        assert(order@ =~= first.push(BackendKind::Gnome));
    }
    let ghost second = order@;
    add_once(&mut order, BackendKind::Kde);
    proof {
        if first.len() > 0 {
            assert(second[0] == BackendKind::Kde);
        }
        assert(first.len() > 0 ==> order@ =~= seq![BackendKind::Kde, BackendKind::Gnome]);
        assert(first.len() == 0 ==> order@ =~= seq![BackendKind::Gnome, BackendKind::Kde]);
    }
    add_once(&mut order, BackendKind::Wlroots);
    add_once(&mut order, BackendKind::X11);
    assert(order@ =~= probing_order(desktop@));
    order
}

/// No backend is tried twice, and none is left out.
pub proof fn law_every_backend_is_tried_once(desktop: Seq<char>, kind: BackendKind)
    ensures
        exists|i: int|
            0 <= i < probing_order(desktop).len() && #[trigger] probing_order(desktop)[i] == kind,
        forall|i: int, j: int|
            0 <= i < j < probing_order(desktop).len() ==> probing_order(desktop)[i]
                != probing_order(desktop)[j],
{
    let order = probing_order(desktop);
    assert(order[0] == kind || order[1] == kind || order[2] == kind || order[3] == kind);
}

/// The search for a backend that answers.
#[derive(Debug)]
pub struct Detection {
    order: Vec<BackendKind>,
    tried: usize,
    forced: bool,
    errors: Vec<String>,
}

/// What is left to try, and what has gone wrong so far.
pub struct DetectionView {
    pub left: Seq<BackendKind>,
    pub forced: bool,
    pub errors: Seq<Seq<char>>,
}

impl View for Detection {
    type V = DetectionView;

    closed spec fn view(&self) -> DetectionView {
        DetectionView {
            left: self.order@.skip(self.tried as int),
            forced: self.forced,
            errors: self.errors.deep_view(),
        }
    }
}

impl DetectionView {
    /// How a search begins: with the backend that the user asks for and no other, or with
    /// the whole list.
    pub open spec fn started(forced: Option<Seq<char>>, desktop: Option<Seq<char>>) -> Result<
        DetectionView,
        Seq<char>,
    > {
        if forced is Some && forced->Some_0.len() > 0 {
            match BackendKind::named(forced->Some_0) {
                Some(kind) => Ok(
                    DetectionView { left: seq![kind], forced: true, errors: Seq::empty() },
                ),
                None => Err("unknown POWERDISPLAY_BACKEND value "@ + debug_text(forced->Some_0)),
            }
        } else {
            Ok(
                DetectionView {
                    left: probing_order(
                        match desktop {
                            Some(d) => d,
                            None => Seq::empty(),
                        },
                    ),
                    forced: false,
                    errors: Seq::empty(),
                },
            )
        }
    }

    /// The backend that is tried now has failed.
    pub open spec fn failed(self, error: Seq<char>) -> DetectionView {
        DetectionView {
            left: self.left.skip(1),
            forced: self.forced,
            errors: self.errors.push(if self.forced {
                error
            } else {
                self.left[0].short_name() + ": "@ + error
            }),
        }
    }

    /// What to say when nothing is left: the error of the one that was asked for, or all of
    /// them.
    pub open spec fn outcome(self) -> Seq<char> {
        if self.forced {
            joined(self.errors, "; "@)
        } else {
            "no usable display backend for this session; tried "@ + joined(self.errors, "; "@)
        }
    }
}

impl Detection {
    #[verifier::type_invariant]
    spec fn within(self) -> bool {
        self.tried <= self.order.len()
    }

    /// Begins a search. `forced` is the user's choice, the escape hatch for compositors we
    /// guess wrong about; `desktop` is the name that the session gives itself.
    pub fn start(forced: &Option<String>, desktop: &Option<String>) -> (r: Result<Self, String>)
        ensures
            match (r, DetectionView::started(forced.deep_view(), desktop.deep_view())) {
                (Ok(got), Ok(want)) => got@ == want,
                (Err(got), Err(want)) => got@ == want,
                _ => false,
            },
    {
        if let Some(value) = forced {
            if !value.as_str().is_empty() {
                return match BackendKind::parse(value.as_str()) {
                    Some(kind) => {
                        let mut order: Vec<BackendKind> = Vec::new();
                        order.push(kind);
                        let r = Detection { order, tried: 0, forced: true, errors: Vec::new() };
                        assert(r@.left =~= seq![kind]);
                        assert(r@.errors =~= Seq::empty());
                        Ok(r)
                    },
                    None => {
                        let mut text = "unknown POWERDISPLAY_BACKEND value ".to_string();
                        text.append(debug_str(value.as_str()).as_str());
                        Err(text)
                    },
                };
            }
        }
        let order = match desktop {
            Some(name) => detection_order(name.as_str()),
            None => {
                proof {
                    reveal_strlit("");
                    assert(""@ =~= Seq::<char>::empty());
                }
                detection_order("")
            },
        };
        let r = Detection { order, tried: 0, forced: false, errors: Vec::new() };
        assert(r@.left =~= order@);
        assert(r@.errors =~= Seq::empty());
        Ok(r)
    }

    /// The backend to try next.
    pub fn candidate(&self) -> (r: Option<BackendKind>)
        ensures
            r == (if self@.left.len() > 0 {
                Some(self@.left[0])
            } else {
                None
            }),
    {
        proof {
            use_type_invariant(self);
        }
        if self.tried < self.order.len() {
            Some(self.order[self.tried])
        } else {
            None
        }
    }

    /// Records why the candidate could not be used.
    pub fn failed(&mut self, error: &str)
        requires
            old(self)@.left.len() > 0,
        ensures
            final(self)@ == old(self)@.failed(error@),
    {
        proof {
            use_type_invariant(&*self);
        }
        let text = if self.forced {
            error.to_string()
        } else {
            let mut text = self.order[self.tried].as_str().to_string();
            text.append(": ");
            text.append(error);
            text
        };
        let ghost before = self.errors.deep_view();
        let mut errors: Vec<String> = Vec::new();
        core::mem::swap(&mut errors, &mut self.errors);
        errors.push(text);
        assert(errors.deep_view() =~= before.push(text@));
        self.errors = errors;
        self.tried = self.tried + 1;
        assert(self@.left =~= old(self)@.left.skip(1));
    }

    /// What to tell the user once no candidate is left.
    pub fn outcome(&self) -> (r: String)
        ensures
            r@ == self@.outcome(),
    {
        let list = join(&self.errors, "; ");
        if self.forced {
            list
        } else {
            let mut text = "no usable display backend for this session; tried ".to_string();
            text.append(list.as_str());
            text
        }
    }
}

/// A backend goes by its own name and by the names of the desktops that have it, in any case
/// and with white space around them. No other text names one.
pub proof fn law_a_backend_goes_by_these_names(value: Seq<char>)
    ensures
        ({
            let v = lowered(trimmed(value));
            let named = BackendKind::named(value);
            &&& named == Some(BackendKind::Gnome) <==> v == "gnome"@ || v == "mutter"@
            &&& named == Some(BackendKind::Kde) <==> v == "kde"@ || v == "plasma"@ || v == "kwin"@
            &&& named == Some(BackendKind::Wlroots) <==> v == "wlroots"@ || v == "wlr"@ || v
                == "sway"@ || v == "hyprland"@
            &&& named == Some(BackendKind::X11) <==> v == "x11"@ || v == "xrandr"@ || v == "randr"@
        }),
{
    reveal_strlit("gnome");
    reveal_strlit("mutter");
    reveal_strlit("kde");
    reveal_strlit("plasma");
    reveal_strlit("kwin");
    reveal_strlit("wlroots");
    reveal_strlit("wlr");
    reveal_strlit("sway");
    reveal_strlit("hyprland");
    reveal_strlit("x11");
    reveal_strlit("xrandr");
    reveal_strlit("randr");
    assert("gnome"@[0] == 'g' && "mutter"@[0] == 'm' && "kde"@[1] == 'd' && "plasma"@[0] == 'p');
    assert("kwin"@[1] == 'w' && "wlroots"@[0] == 'w' && "wlr"@[0] == 'w' && "sway"@[0] == 's');
    assert("hyprland"@[0] == 'h' && "x11"@[0] == 'x' && "xrandr"@[0] == 'x' && "randr"@[0] == 'r');
}

/// On Plasma its own backend is tried first, anywhere else that of GNOME. The two that speak
/// to no desktop come last, X11 at the very end.
pub proof fn law_the_own_interface_of_a_desktop_comes_first(desktop: Seq<char>)
    ensures
        probing_order(desktop).len() == 4,
        probing_order(desktop)[0] == BackendKind::Kde <==> holds(lowered(desktop), "kde"@)
            || holds(lowered(desktop), "plasma"@),
        probing_order(desktop)[0] == BackendKind::Kde || probing_order(desktop)[0]
            == BackendKind::Gnome,
        probing_order(desktop)[2] == BackendKind::Wlroots,
        probing_order(desktop)[3] == BackendKind::X11,
{
}

/// The user's choice is the only backend that is tried, and its error is reported as it is.
/// A choice that names no backend is refused, and an empty one is none.
pub proof fn law_the_choice_of_the_user_counts(
    forced: Seq<char>,
    desktop: Option<Seq<char>>,
    error: Seq<char>,
)
    ensures
        ({
            let start = DetectionView::started(Some(forced), desktop);
            &&& forced.len() == 0 ==> start == DetectionView::started(None, desktop)
            &&& forced.len() > 0 ==> (start is Err <==> BackendKind::named(forced) is None)
            &&& forced.len() > 0 && start is Ok ==> {
                &&& start->Ok_0.left.len() == 1
                &&& Some(start->Ok_0.left[0]) == BackendKind::named(forced)
                &&& start->Ok_0.failed(error).left.len() == 0
                &&& start->Ok_0.failed(error).outcome() == error
            }
        }),
        DetectionView::started(None, desktop) matches Ok(start) && start.left == probing_order(
            if desktop is Some {
                desktop->Some_0
            } else {
                Seq::empty()
            },
        ) && !start.forced && start.errors.len() == 0,
{
    if forced.len() > 0 && BackendKind::named(forced) is Some {
        let after = DetectionView::started(Some(forced), desktop)->Ok_0.failed(error);
        assert(after.errors =~= seq![error]);
        reveal_with_fuel(joined, 2);
        assert(joined(seq![error], "; "@) =~= error);
    }
}

/// A backend that fails is done with: the next one is tried, and the error is kept under the
/// name of the backend it came from.
pub proof fn law_a_failed_backend_is_named(search: DetectionView, error: Seq<char>)
    requires
        search.left.len() > 0,
        !search.forced,
    ensures
        search.failed(error).left.len() == search.left.len() - 1,
        forall|i: int|
            0 <= i < search.left.len() - 1 ==> (#[trigger] search.failed(error).left[i])
                == search.left[i + 1],
        search.failed(error).errors.drop_last() == search.errors,
        search.left[0] == BackendKind::Gnome ==> search.failed(error).errors.last() == "gnome"@
            + ": "@ + error,
        search.left[0] == BackendKind::Kde ==> search.failed(error).errors.last() == "kde"@ + ": "@
            + error,
        search.left[0] == BackendKind::Wlroots ==> search.failed(error).errors.last()
            == "wlroots"@ + ": "@ + error,
        search.left[0] == BackendKind::X11 ==> search.failed(error).errors.last() == "x11"@ + ": "@
            + error,
        !search.failed(error).forced,
        search.outcome() == "no usable display backend for this session; tried "@ + joined(
            search.errors,
            "; "@,
        ),
{
    assert(search.failed(error).errors.drop_last() =~= search.errors);
}


} // verus!
