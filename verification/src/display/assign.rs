//! Which rule drives which display, and the instructions that follow from it.

use vstd::prelude::*;

use crate::config::{Identity, OutputMatch, OutputMatchView, OutputRule, OutputRuleView};
use crate::display::mode::{law_found_mode_is_the_closest, Output, OutputView};
use crate::text::{debug_str, debug_text, same};

verus! {

/// One resolved instruction: put `connector` into the mode named `mode_id`.
#[derive(Debug, PartialEq)]
pub struct OutputSetting {
    pub connector: String,
    pub mode_id: String,
}

pub struct OutputSettingView {
    pub connector: Seq<char>,
    pub mode_id: Seq<char>,
}

impl DeepView for OutputSetting {
    type V = OutputSettingView;

    open spec fn deep_view(&self) -> OutputSettingView {
        OutputSettingView { connector: self.connector@, mode_id: self.mode_id@ }
    }
}

impl Clone for OutputSetting {
    fn clone(&self) -> (r: Self)
        ensures
            r == *self,
    {
        OutputSetting { connector: self.connector.clone(), mode_id: self.mode_id.clone() }
    }
}

/// The mode that the instructions name for a connector, the first of them where several do.
pub open spec fn asked_id(wanted: Seq<OutputSettingView>, connector: Seq<char>) -> Option<Seq<char>>
    decreases wanted.len(),
{
    if wanted.len() == 0 {
        None
    } else if wanted[0].connector == connector {
        Some(wanted[0].mode_id)
    } else {
        asked_id(wanted.drop_first(), connector)
    }
}

/// Looks up the mode for a connector.
pub fn find_setting<'a>(wanted: &'a [OutputSetting], connector: &str) -> (r: Option<&'a str>)
    ensures
        match (r, asked_id(wanted.deep_view(), connector@)) {
            (Some(got), Some(want)) => got@ == want,
            (None, None) => true,
            _ => false,
        },
{
    let ghost all = wanted.deep_view();
    let mut i: usize = 0;
    assert(all.skip(0) =~= all);
    while i < wanted.len()
        invariant
            i <= wanted.len(),
            all == wanted.deep_view(),
            all.len() == wanted.len(),
            asked_id(all.skip(i as int), connector@) == asked_id(all, connector@),
        decreases wanted.len() - i,
    {
        proof {
            assert(all.skip(i as int)[0] == wanted@[i as int].deep_view());
            assert(all.skip(i as int).drop_first() =~= all.skip(i + 1));
        }
        if same(wanted[i].connector.as_str(), connector) {
            return Some(wanted[i].mode_id.as_str());
        }
        i = i + 1;
    }
    None
}

/// Which rule drives which display.
#[derive(Debug)]
pub struct Assignment {
    /// Index into the rule list for each output, in the same order as the outputs given.
    pub by_output: Vec<Option<usize>>,
    pub warnings: Vec<String>,
}

impl Assignment {
    /// The rule bound to each display, by position.
    pub open spec fn bound(&self) -> Seq<Option<int>> {
        Seq::new(
            self.by_output@.len(),
            |o: int|
                match self.by_output@[o] {
                    Some(r) => Some(r as int),
                    None => None,
                },
        )
    }

    /// The rule bound to `outputs[index]`, if any.
    pub fn rule_for<'a>(&self, index: usize, rules: &'a [OutputRule]) -> (r: Option<&'a OutputRule>)
        ensures
            match r {
                Some(rule) => index < self.by_output.len() && self.by_output@[index as int] is Some
                    && self.by_output@[index as int]->Some_0 < rules.len() && *rule
                    == rules@[self.by_output@[index as int]->Some_0 as int],
                None => index >= self.by_output.len() || self.by_output@[index as int] is None
                    || self.by_output@[index as int]->Some_0 >= rules.len(),
            },
    {
        if index < self.by_output.len() {
            if let Some(r) = self.by_output[index] {
                if r < rules.len() {
                    return Some(&rules[r]);
                }
            }
        }
        None
    }

    /// Rules that ended up driving nothing, because no connected display matched them or
    /// because another rule already claimed the one that did.
    pub fn unassigned(&self, rule_count: usize) -> (r: Vec<usize>)
        ensures
            r@.map_values(|i: usize| i as int) == idle(self.bound(), rule_count as nat),
    {
        let ghost bound = self.bound();
        let mut out: Vec<usize> = Vec::new();
        let mut i: usize = 0;
        while i < rule_count
            invariant
                i <= rule_count,
                bound == self.bound(),
                out@.map_values(|i: usize| i as int) == idle(bound, i as nat),
            decreases rule_count - i,
        {
            let mut driving = false;
            let mut o: usize = 0;
            while o < self.by_output.len() && !driving
                invariant
                    o <= self.by_output.len(),
                    bound == self.bound(),
                    driving ==> bound.contains(Some(i as int)),
                    !driving ==> forall|k: int|
                        0 <= k < o ==> #[trigger] bound[k] != Some(i as int),
                decreases self.by_output.len() - o,
            {
                assert(bound[o as int] == match self.by_output@[o as int] {
                    Some(r) => Some(r as int),
                    None => None,
                });
                if let Some(r) = self.by_output[o] {
                    if r == i {
                        driving = true;
                    }
                }
                o = o + 1;
            }
            let ghost before = out@;
            if !driving {
                out.push(i);
                assert(out@.map_values(|i: usize| i as int) =~= before.map_values(
                    |i: usize| i as int,
                ).push(i as int));
            }
            i = i + 1;
        }
        out
    }
}

/// The rules below `n` that no display is bound to.
pub open spec fn idle(bound: Seq<Option<int>>, n: nat) -> Seq<int>
    decreases n,
{
    if n == 0 {
        Seq::empty()
    } else {
        let before = idle(bound, (n - 1) as nat);
        if bound.contains(Some(n - 1)) {
            before
        } else {
            before.push(n - 1)
        }
    }
}

/// How well a rule describes a display.
pub open spec fn match_score(rule: OutputRuleView, output: OutputView) -> Option<u32> {
    rule.matcher.score(output.identity())
}

/// The display that a rule describes best, the last of them where several are equally good.
pub open spec fn best_display(rule: OutputRuleView, outputs: Seq<OutputView>) -> Option<int>
    decreases outputs.len(),
{
    if outputs.len() == 0 {
        None
    } else {
        let before = best_display(rule, outputs.drop_last());
        match match_score(rule, outputs.last()) {
            Some(score) => if before is None || score >= match_score(
                rule,
                outputs[before->Some_0],
            )->Some_0 {
                Some(outputs.len() - 1)
            } else {
                before
            },
            None => before,
        }
    }
}

/// The first rule whose best display is this one.
pub open spec fn driver(
    rules: Seq<OutputRuleView>,
    outputs: Seq<OutputView>,
    output: int,
) -> Option<int>
    decreases rules.len(),
{
    if rules.len() == 0 {
        None
    } else {
        match driver(rules.drop_last(), outputs, output) {
            Some(r) => Some(r),
            None => if best_display(rules.last(), outputs) == Some(output) {
                Some(rules.len() - 1)
            } else {
                None
            },
        }
    }
}

/// The drivers of all the displays.
pub open spec fn drivers(rules: Seq<OutputRuleView>, outputs: Seq<OutputView>) -> Seq<Option<int>> {
    Seq::new(outputs.len(), |o: int| driver(rules, outputs, o))
}

/// The mode that a rule asks for. A rule with no mode leaves its display alone.
pub open spec fn asked_mode(rule: OutputRuleView) -> Option<Seq<char>> {
    match rule.mode {
        Some(mode) => if mode.len() == 0 {
            None
        } else {
            Some(mode)
        },
        None => None,
    }
}

pub open spec fn field_text(field: Option<Seq<char>>) -> Seq<char> {
    match field {
        Some(s) => "Some("@ + debug_text(s) + ")"@,
        None => "None"@,
    }
}

/// How a matcher is shown to the user.
pub open spec fn matcher_text(m: OutputMatchView) -> Seq<char> {
    "OutputMatch { connector: "@ + field_text(m.connector) + ", make: "@ + field_text(m.make)
        + ", model: "@ + field_text(m.model) + ", serial: "@ + field_text(m.serial) + " }"@
}

/// What is said of the rules that bind to nothing though they ask for a mode.
pub open spec fn binding_warnings(
    rules: Seq<OutputRuleView>,
    outputs: Seq<OutputView>,
) -> Seq<Seq<char>>
    decreases rules.len(),
{
    if rules.len() == 0 {
        Seq::empty()
    } else {
        let front = rules.drop_last();
        let rule = rules.last();
        let before = binding_warnings(front, outputs);
        if asked_mode(rule) is None {
            before
        } else {
            match best_display(rule, outputs) {
                None => before.push("no connected display matches "@ + matcher_text(rule.matcher)),
                Some(o) => if driver(front, outputs, o) is Some {
                    before.push(
                        outputs[o].connector
                            + " is targeted by more than one rule; keeping the first"@,
                    )
                } else {
                    before
                },
            }
        }
    }
}

fn shown_field(field: &Option<String>) -> (r: String)
    ensures
        r@ == field_text(field.deep_view()),
{
    match field {
        Some(s) => {
            let mut out = "Some(".to_string();
            out.append(debug_str(s.as_str()).as_str());
            out.append(")");
            out
        },
        None => "None".to_string(),
    }
}

fn shown_matcher(m: &OutputMatch) -> (r: String)
    ensures
        r@ == matcher_text(m.deep_view()),
{
    let mut out = "OutputMatch { connector: ".to_string();
    out.append(shown_field(&m.connector).as_str());
    out.append(", make: ");
    out.append(shown_field(&m.make).as_str());
    out.append(", model: ");
    out.append(shown_field(&m.model).as_str());
    out.append(", serial: ");
    out.append(shown_field(&m.serial).as_str());
    out.append(" }");
    out
}

fn asks_for_a_mode(rule: &OutputRule) -> (r: bool)
    ensures
        r == (asked_mode(rule.deep_view()) is Some),
{
    match &rule.mode {
        Some(mode) => !mode.as_str().is_empty(),
        None => false,
    }
}

/// The display that a rule is about.
fn best_output(rule: &OutputRule, outputs: &[Output]) -> (r: Option<usize>)
    ensures
        match (r, best_display(rule.deep_view(), outputs.deep_view())) {
            (Some(got), Some(want)) => got == want && got < outputs.len(),
            (None, None) => true,
            _ => false,
        },
{
    let ghost all = outputs.deep_view();
    let ghost wanted = rule.deep_view();
    let mut best: Option<(u32, usize)> = None;
    let mut i: usize = 0;
    while i < outputs.len()
        invariant
            i <= outputs.len(),
            all == outputs.deep_view(),
            all.len() == outputs.len(),
            wanted == rule.deep_view(),
            match (best, best_display(wanted, all.take(i as int))) {
                (Some((score, b)), Some(k)) => b == k && b < i && match_score(wanted, all[k])
                    == Some(score),
                (None, None) => true,
                _ => false,
            },
        decreases outputs.len() - i,
    {
        let o = &outputs[i];
        proof {
            assert(all.take(i + 1).drop_last() =~= all.take(i as int));
            assert(all.take(i + 1).last() == o.deep_view());
            assert(all[i as int] == o.deep_view());
            assert(best is Some ==> all.take(i + 1)[best->Some_0.1 as int]
                == all[best->Some_0.1 as int]);
        }
        if let Some(score) = rule.matcher.score(
            o.connector.as_str(),
            o.make.as_str(),
            o.model.as_str(),
            o.serial.as_str(),
        ) {
            let better = match best {
                Some((before, _)) => score >= before,
                None => true,
            };
            if better {
                best = Some((score, i));
            }
        }
        i = i + 1;
    }
    assert(all.take(i as int) =~= all);
    match best {
        Some((_, b)) => Some(b),
        None => None,
    }
}

proof fn lemma_best_display(rule: OutputRuleView, outputs: Seq<OutputView>)
    ensures
        match best_display(rule, outputs) {
            Some(o) => {
                &&& 0 <= o < outputs.len()
                &&& match_score(rule, outputs[o]) is Some
                &&& forall|k: int|
                    0 <= k < outputs.len() && match_score(rule, #[trigger] outputs[k]) is Some
                        ==> match_score(rule, outputs[k])->Some_0 <= match_score(
                        rule,
                        outputs[o],
                    )->Some_0
            },
            None => forall|k: int|
                0 <= k < outputs.len() ==> match_score(rule, #[trigger] outputs[k]) is None,
        },
    decreases outputs.len(),
{
    if outputs.len() > 0 {
        let front = outputs.drop_last();
        lemma_best_display(rule, front);
        assert forall|k: int| 0 <= k < front.len() implies #[trigger] outputs[k] == front[k] by {}
    }
}

pub proof fn lemma_driver(rules: Seq<OutputRuleView>, outputs: Seq<OutputView>, output: int)
    ensures
        match driver(rules, outputs, output) {
            Some(r) => {
                &&& 0 <= r < rules.len()
                &&& best_display(rules[r], outputs) == Some(output)
                &&& forall|k: int|
                    0 <= k < r ==> best_display(#[trigger] rules[k], outputs) != Some(output)
            },
            None => forall|k: int|
                0 <= k < rules.len() ==> best_display(#[trigger] rules[k], outputs) != Some(output),
        },
    decreases rules.len(),
{
    if rules.len() > 0 {
        let front = rules.drop_last();
        lemma_driver(front, outputs, output);
        assert forall|k: int| 0 <= k < front.len() implies #[trigger] rules[k] == front[k] by {}
    }
}

/// Decides which display each rule refers to.
///
/// The settings window and the daemon must agree on this or the window will show a rule
/// against one monitor and the daemon will apply it to another, so both go through here
/// rather than each doing their own matching.
pub fn assign_rules(rules: &[OutputRule], outputs: &[Output]) -> (r: Assignment)
    ensures
        r.bound() == drivers(rules.deep_view(), outputs.deep_view()),
        r.warnings.deep_view() == binding_warnings(rules.deep_view(), outputs.deep_view()),
{
    let ghost all = rules.deep_view();
    let ghost shown = outputs.deep_view();
    let mut by_output: Vec<Option<usize>> = Vec::new();
    let mut warnings: Vec<String> = Vec::new();
    let mut o: usize = 0;
    while o < outputs.len()
        invariant
            o <= outputs.len(),
            by_output.len() == o,
            forall|k: int| 0 <= k < o ==> (#[trigger] by_output@[k]) is None,
        decreases outputs.len() - o,
    {
        by_output.push(None);
        o = o + 1;
    }
    let mut i: usize = 0;
    assert(warnings.deep_view() =~= Seq::empty());
    while i < rules.len()
        invariant
            i <= rules.len(),
            all == rules.deep_view(),
            all.len() == rules.len(),
            shown == outputs.deep_view(),
            shown.len() == outputs.len(),
            by_output.len() == outputs.len(),
            forall|k: int|
                0 <= k < by_output.len() ==> (match #[trigger] by_output@[k] {
                    Some(r) => Some(r as int),
                    None => None,
                }) == driver(all.take(i as int), shown, k),
            warnings.deep_view() == binding_warnings(all.take(i as int), shown),
        decreases rules.len() - i,
    {
        let rule = &rules[i];
        let ghost said = warnings.deep_view();
        proof {
            assert(all.take(i + 1).drop_last() =~= all.take(i as int));
            assert(all.take(i + 1).last() == rule.deep_view());
        }
        let actionable = asks_for_a_mode(rule);
        match best_output(rule, outputs) {
            None => {
                if actionable {
                    let mut text = "no connected display matches ".to_string();
                    text.append(shown_matcher(&rule.matcher).as_str());
                    warnings.push(text);
                    assert(warnings.deep_view() =~= said.push(text@));
                }
            },
            Some(at) => {
                assert(shown[at as int].connector == outputs@[at as int].connector@);
                if by_output[at].is_some() {
                    if actionable {
                        let mut text = outputs[at].connector.clone();
                        text.append(" is targeted by more than one rule; keeping the first");
                        warnings.push(text);
                        assert(warnings.deep_view() =~= said.push(text@));
                    }
                } else {
                    by_output.set(at, Some(i));
                }
            },
        }
        i = i + 1;
    }
    assert(all.take(i as int) =~= all);
    let r = Assignment { by_output, warnings };
    assert(r.bound() =~= drivers(all, shown));
    r
}

/// The mode that the settings want for a display.
pub open spec fn wanted_mode(
    rules: Seq<OutputRuleView>,
    outputs: Seq<OutputView>,
    output: int,
) -> Option<Seq<char>> {
    match driver(rules, outputs, output) {
        Some(r) => asked_mode(rules[r]),
        None => None,
    }
}

/// The instructions for the first `n` displays.
pub open spec fn settings_for(
    rules: Seq<OutputRuleView>,
    outputs: Seq<OutputView>,
    n: nat,
) -> Seq<OutputSettingView>
    decreases n,
{
    if n == 0 {
        Seq::empty()
    } else {
        let before = settings_for(rules, outputs, (n - 1) as nat);
        let output = outputs[n - 1];
        match wanted_mode(rules, outputs, n - 1) {
            Some(mode) => match output.resolved(mode) {
                Some(m) => before.push(
                    OutputSettingView { connector: output.connector, mode_id: output.modes[m].id },
                ),
                None => before,
            },
            None => before,
        }
    }
}

/// What is said of the first `n` displays that cannot do what is asked.
pub open spec fn mode_warnings(
    rules: Seq<OutputRuleView>,
    outputs: Seq<OutputView>,
    n: nat,
) -> Seq<Seq<char>>
    decreases n,
{
    if n == 0 {
        Seq::empty()
    } else {
        let before = mode_warnings(rules, outputs, (n - 1) as nat);
        let output = outputs[n - 1];
        match wanted_mode(rules, outputs, n - 1) {
            Some(mode) => match output.resolved(mode) {
                Some(m) => before,
                None => before.push(
                    output.connector + " cannot do "@ + mode + "; leaving it unchanged"@,
                ),
            },
            None => before,
        }
    }
}

/// All that is said while settings are resolved.
pub open spec fn resolve_warnings(
    rules: Seq<OutputRuleView>,
    outputs: Seq<OutputView>,
) -> Seq<Seq<char>> {
    binding_warnings(rules, outputs) + mode_warnings(rules, outputs, outputs.len())
}

/// Turns config rules into concrete instructions for the backend.
///
/// Rules that match nothing, or ask for a mode the panel cannot do, are reported instead
/// of aborting: a docking station being unplugged should not stop the laptop panel from
/// being switched.
pub fn resolve_settings(rules: &[OutputRule], outputs: &[Output]) -> (r: (
    Vec<OutputSetting>,
    Vec<String>,
))
    ensures
        r.0.deep_view() == settings_for(
            rules.deep_view(),
            outputs.deep_view(),
            outputs.deep_view().len(),
        ),
        r.1.deep_view() == resolve_warnings(rules.deep_view(), outputs.deep_view()),
{
    let ghost all = rules.deep_view();
    let ghost shown = outputs.deep_view();
    let assignment = assign_rules(rules, outputs);
    let ghost bound = assignment.bound();
    let ghost first = binding_warnings(all, shown);
    let mut warnings = assignment.warnings;
    let by_output = assignment.by_output;
    let assignment = Assignment { by_output, warnings: Vec::new() };
    assert(assignment.bound() =~= bound);
    let mut settings: Vec<OutputSetting> = Vec::new();
    let mut i: usize = 0;
    assert(settings.deep_view() =~= Seq::empty());
    assert(warnings.deep_view() =~= first + mode_warnings(all, shown, 0));
    while i < outputs.len()
        invariant
            i <= outputs.len(),
            all == rules.deep_view(),
            all.len() == rules.len(),
            shown == outputs.deep_view(),
            shown.len() == outputs.len(),
            assignment.bound() == drivers(all, shown),
            settings.deep_view() == settings_for(all, shown, i as nat),
            warnings.deep_view() == first + mode_warnings(all, shown, i as nat),
        decreases outputs.len() - i,
    {
        let output = &outputs[i];
        let ghost told = settings.deep_view();
        let ghost said = warnings.deep_view();
        proof {
            assert(shown[i as int] == output.deep_view());
            assert(assignment.bound()[i as int] == driver(all, shown, i as int));
            assert(assignment.by_output.len() == assignment.bound().len());
            lemma_driver(all, shown, i as int);
        }
        if let Some(rule) = assignment.rule_for(i, rules) {
            assert(all[driver(all, shown, i as int)->Some_0] == rule.deep_view());
            if asks_for_a_mode(rule) {
                if let Some(wanted) = &rule.mode {
                    assert(wanted_mode(all, shown, i as int) == Some(wanted@));
                    match output.resolve_mode(wanted.as_str()) {
                        Some(mode) => {
                            let setting = OutputSetting {
                                connector: output.connector.clone(),
                                mode_id: mode.id.clone(),
                            };
                            proof {
                                let m = shown[i as int].resolved(wanted@)->Some_0;
                                assert(shown[i as int].modes[m] == mode.deep_view());
                            }
                            settings.push(setting);
                            assert(settings.deep_view() =~= told.push(setting.deep_view()));
                        },
                        None => {
                            let mut text = output.connector.clone();
                            text.append(" cannot do ");
                            text.append(wanted.as_str());
                            text.append("; leaving it unchanged");
                            warnings.push(text);
                            assert(warnings.deep_view() =~= said.push(text@));
                            assert(warnings.deep_view() =~= first + mode_warnings(
                                all,
                                shown,
                                (i + 1) as nat,
                            ));
                        },
                    }
                }
            }
        }
        i = i + 1;
    }
    (settings, warnings)
}

/// No rule drives two displays.
pub proof fn law_one_rule_never_drives_two_displays(
    rules: Seq<OutputRuleView>,
    outputs: Seq<OutputView>,
    a: int,
    b: int,
)
    requires
        driver(rules, outputs, a) is Some,
        driver(rules, outputs, a) == driver(rules, outputs, b),
    ensures
        a == b,
{
    lemma_driver(rules, outputs, a);
    lemma_driver(rules, outputs, b);
}

/// A rule drives only a display that it describes, and none that it describes better.
pub proof fn law_a_rule_drives_its_best_display(
    rules: Seq<OutputRuleView>,
    outputs: Seq<OutputView>,
    o: int,
)
    requires
        driver(rules, outputs, o) is Some,
    ensures
        0 <= driver(rules, outputs, o)->Some_0 < rules.len(),
        0 <= o < outputs.len(),
        match_score(rules[driver(rules, outputs, o)->Some_0], outputs[o]) is Some,
        forall|k: int|
            0 <= k < outputs.len() && match_score(
                rules[driver(rules, outputs, o)->Some_0],
                #[trigger] outputs[k],
            ) is Some ==> match_score(
                rules[driver(rules, outputs, o)->Some_0],
                outputs[k],
            )->Some_0 <= match_score(rules[driver(rules, outputs, o)->Some_0], outputs[o])->Some_0,
{
    lemma_driver(rules, outputs, o);
    lemma_best_display(rules[driver(rules, outputs, o)->Some_0], outputs);
}

pub proof fn lemma_idle(bound: Seq<Option<int>>, n: nat)
    ensures
        forall|r: int|
            #[trigger] idle(bound, n).contains(r) <==> 0 <= r < n && !bound.contains(Some(r)),
        forall|a: int, b: int|
            0 <= a < b < idle(bound, n).len() ==> #[trigger] idle(bound, n)[a]
                < #[trigger] idle(bound, n)[b],
    decreases n,
{
    if n > 0 {
        let m = (n - 1) as nat;
        lemma_idle(bound, m);
        let before = idle(bound, m);
        let now = idle(bound, n);
        assert forall|r: int| #[trigger] now.contains(r) <==> 0 <= r < n && !bound.contains(
            Some(r),
        ) by {
            if before.contains(r) {
                let k = choose|k: int| 0 <= k < before.len() && before[k] == r;
                assert(now[k] == r);
            }
            if !bound.contains(Some(n - 1)) {
                assert(now[before.len() as int] == n - 1);
            }
            if now.contains(r) {
                let k = choose|k: int| 0 <= k < now.len() && now[k] == r;
                if k < before.len() {
                    assert(before[k] == r);
                    assert(before.contains(r));
                }
            }
        }
        assert forall|a: int, b: int| 0 <= a < b < now.len() implies #[trigger] now[a]
            < #[trigger] now[b] by {
            if b == before.len() {
                assert(before.contains(before[a]));
            }
        }
    }
}

/// Every rule is either bound to exactly one display or reported as unassigned, never both,
/// and the report names each rule once.
pub proof fn law_every_rule_is_bound_or_reported(
    rules: Seq<OutputRuleView>,
    outputs: Seq<OutputView>,
    r: int,
)
    requires
        0 <= r < rules.len(),
    ensures
        drivers(rules, outputs).contains(Some(r)) <==> !idle(
            drivers(rules, outputs),
            rules.len(),
        ).contains(r),
        forall|a: int, b: int|
            0 <= a < outputs.len() && 0 <= b < outputs.len() && drivers(rules, outputs)[a] == Some(
                r,
            ) && drivers(rules, outputs)[b] == Some(r) ==> a == b,
        forall|i: int, j: int|
            0 <= i < j < idle(drivers(rules, outputs), rules.len()).len() ==> idle(
                drivers(rules, outputs),
                rules.len(),
            )[i] != idle(drivers(rules, outputs), rules.len())[j],
{
    let bound = drivers(rules, outputs);
    lemma_idle(bound, rules.len());
    assert forall|a: int, b: int|
        0 <= a < outputs.len() && 0 <= b < outputs.len() && bound[a] == Some(r) && bound[b] == Some(
            r,
        ) implies a == b by {
        law_one_rule_never_drives_two_displays(rules, outputs, a, b);
    }
}

/// The instructions only ever name a connected display and a mode that it offers.
pub proof fn law_instructions_are_possible(
    rules: Seq<OutputRuleView>,
    outputs: Seq<OutputView>,
    n: nat,
    k: int,
)
    requires
        n <= outputs.len(),
        0 <= k < settings_for(rules, outputs, n).len(),
    ensures
        exists|o: int, m: int|
            0 <= o < outputs.len() && 0 <= m < outputs[o].modes.len() && settings_for(
                rules,
                outputs,
                n,
            )[k] == (OutputSettingView {
                connector: outputs[o].connector,
                mode_id: #[trigger] outputs[o].modes[m].id,
            }),
    decreases n,
{
    let o = n - 1;
    let before = settings_for(rules, outputs, o as nat);
    if k < before.len() {
        law_instructions_are_possible(rules, outputs, o as nat, k);
    } else {
        let mode = wanted_mode(rules, outputs, o)->Some_0;
        law_found_mode_is_the_closest(outputs[o], mode);
        let m = outputs[o].resolved(mode)->Some_0;
        assert(settings_for(rules, outputs, n)[k] == (OutputSettingView {
            connector: outputs[o].connector,
            mode_id: outputs[o].modes[m].id,
        }));
    }
}

/// A display that some rule asks to change gets its instruction whatever the other rules
/// and displays come to.
pub proof fn law_no_display_is_held_back(
    rules: Seq<OutputRuleView>,
    outputs: Seq<OutputView>,
    n: nat,
    o: int,
)
    requires
        0 <= o < n <= outputs.len(),
        wanted_mode(rules, outputs, o) is Some,
        outputs[o].resolved(wanted_mode(rules, outputs, o)->Some_0) is Some,
    ensures
        settings_for(rules, outputs, n).contains(
            OutputSettingView {
                connector: outputs[o].connector,
                mode_id: outputs[o].modes[outputs[o].resolved(
                    wanted_mode(rules, outputs, o)->Some_0,
                )->Some_0].id,
            },
        ),
    decreases n,
{
    let want = OutputSettingView {
        connector: outputs[o].connector,
        mode_id: outputs[o].modes[outputs[o].resolved(
            wanted_mode(rules, outputs, o)->Some_0,
        )->Some_0].id,
    };
    let now = settings_for(rules, outputs, n);
    if o == n - 1 {
        assert(now[now.len() - 1] == want);
    } else {
        law_no_display_is_held_back(rules, outputs, (n - 1) as nat, o);
        let before = settings_for(rules, outputs, (n - 1) as nat);
        let k = choose|k: int| 0 <= k < before.len() && before[k] == want;
        assert(now[k] == want);
    }
}

/// The mode that is looked up for a connector is the one of the first instruction that names
/// it; where none does there is none.
pub proof fn law_the_first_instruction_for_a_connector_counts(
    wanted: Seq<OutputSettingView>,
    connector: Seq<char>,
)
    ensures
        match asked_id(wanted, connector) {
            Some(id) => exists|k: int|
                0 <= k < wanted.len() && (#[trigger] wanted[k]).connector == connector
                    && wanted[k].mode_id == id && forall|j: int|
                    0 <= j < k ==> (#[trigger] wanted[j]).connector != connector,
            None => forall|j: int| 0 <= j < wanted.len() ==> (#[trigger] wanted[j]).connector
                != connector,
        },
    decreases wanted.len(),
{
    if wanted.len() > 0 && wanted[0].connector != connector {
        let rest = wanted.drop_first();
        law_the_first_instruction_for_a_connector_counts(rest, connector);
        assert forall|j: int| 0 < j < wanted.len() implies #[trigger] wanted[j] == rest[j - 1] by {}
        if let Some(id) = asked_id(rest, connector) {
            let k = choose|k: int|
                0 <= k < rest.len() && (#[trigger] rest[k]).connector == connector
                    && rest[k].mode_id == id && forall|j: int|
                    0 <= j < k ==> (#[trigger] rest[j]).connector != connector;
            assert(wanted[k + 1] == rest[k]);
        }
    }
}

/// The display of a rule is one that the rule describes, none is described better, and of
/// those that are described as well it is the last. A rule without a display describes none.
pub proof fn law_the_display_of_a_rule_is_the_one_it_describes_best(
    rule: OutputRuleView,
    outputs: Seq<OutputView>,
)
    ensures
        ({
            let score = |o: OutputView|
                rule.matcher.score(
                    Identity {
                        connector: o.connector,
                        make: o.make,
                        model: o.model,
                        serial: o.serial,
                    },
                );
            match best_display(rule, outputs) {
                Some(at) => {
                    &&& 0 <= at < outputs.len()
                    &&& score(outputs[at]) is Some
                    &&& forall|k: int|
                        0 <= k < outputs.len() && score(#[trigger] outputs[k]) is Some ==> score(
                            outputs[k],
                        )->Some_0 <= score(outputs[at])->Some_0 && (k > at ==> score(
                            outputs[k],
                        )->Some_0 < score(outputs[at])->Some_0)
                },
                None => forall|k: int|
                    0 <= k < outputs.len() ==> score(#[trigger] outputs[k]) is None,
            }
        }),
    decreases outputs.len(),
{
    if outputs.len() > 0 {
        let front = outputs.drop_last();
        law_the_display_of_a_rule_is_the_one_it_describes_best(rule, front);
        assert forall|k: int| 0 <= k < front.len() implies #[trigger] outputs[k] == front[k] by {}
        assert(outputs[outputs.len() - 1] == outputs.last());
    }
}

/// A display is driven by the first of the rules whose display it is, and by none where it is
/// the display of no rule.
pub proof fn law_the_first_rule_for_a_display_drives_it(
    rules: Seq<OutputRuleView>,
    outputs: Seq<OutputView>,
    o: int,
    r: int,
)
    requires
        0 <= r < rules.len(),
        best_display(rules[r], outputs) == Some(o),
        forall|k: int| 0 <= k < r ==> best_display(#[trigger] rules[k], outputs) != Some(o),
    ensures
        driver(rules, outputs, o) == Some(r),
        forall|other: int|
            (forall|k: int|
                0 <= k < rules.len() ==> best_display(#[trigger] rules[k], outputs) != Some(other))
                ==> #[trigger] driver(rules, outputs, other) is None,
{
    lemma_driver(rules, outputs, o);
    assert forall|other: int|
        (forall|k: int|
            0 <= k < rules.len() ==> best_display(#[trigger] rules[k], outputs) != Some(
                other,
            )) implies #[trigger] driver(rules, outputs, other) is None by {
        lemma_driver(rules, outputs, other);
    }
}

/// Every instruction comes from a rule: there is a display, the rule that drives it names a
/// mode, the display finds that mode, and the instruction names the display and the mode. The
/// displays come in their order, each once, and none is left out that is driven by a rule with
/// a mode that it finds. So a display that no rule drives, or whose rule names no mode, is not
/// touched. `at` are the displays.
pub proof fn law_instructions_come_from_rules(
    rules: Seq<OutputRuleView>,
    outputs: Seq<OutputView>,
    n: nat,
) -> (at: Seq<int>)
    requires
        n <= outputs.len(),
    ensures
        at.len() == settings_for(rules, outputs, n).len(),
        forall|k: int|
            0 <= k < at.len() ==> 0 <= #[trigger] at[k] < n && ({
                let r = driver(rules, outputs, at[k]);
                &&& r is Some && 0 <= r->Some_0 < rules.len()
                &&& rules[r->Some_0].mode is Some && rules[r->Some_0].mode->Some_0.len() > 0
                &&& outputs[at[k]].resolved(rules[r->Some_0].mode->Some_0) matches Some(m) && {
                    &&& 0 <= m < outputs[at[k]].modes.len()
                    &&& settings_for(rules, outputs, n)[k].connector == outputs[at[k]].connector
                    &&& settings_for(rules, outputs, n)[k].mode_id == outputs[at[k]].modes[m].id
                }
            }),
        forall|j: int, k: int| 0 <= j < k < at.len() ==> #[trigger] at[j] < #[trigger] at[k],
        forall|o: int|
            0 <= o < n ==> (#[trigger] at.contains(o) <==> driver(rules, outputs, o) is Some
                && rules[driver(rules, outputs, o)->Some_0].mode is Some && rules[driver(
                rules,
                outputs,
                o,
            )->Some_0].mode->Some_0.len() > 0 && outputs[o].resolved(
                rules[driver(rules, outputs, o)->Some_0].mode->Some_0,
            ) is Some),
    decreases n,
{
    if n == 0 {
        Seq::empty()
    } else {
        let o = n - 1;
        let before = law_instructions_come_from_rules(rules, outputs, o as nat);
        let told = settings_for(rules, outputs, o as nat);
        let now = settings_for(rules, outputs, n);
        let d = driver(rules, outputs, o);
        lemma_driver(rules, outputs, o);
        let found = d is Some && rules[d->Some_0].mode is Some
            && rules[d->Some_0].mode->Some_0.len() > 0 && outputs[o].resolved(
            rules[d->Some_0].mode->Some_0,
        ) is Some;
        let at = if found {
            before.push(o)
        } else {
            before
        };
        if found {
            law_found_mode_is_the_closest(outputs[o], rules[d->Some_0].mode->Some_0);
            assert(now.drop_last() =~= told);
        }
        assert forall|k: int| 0 <= k < before.len() implies now[k] == told[k] && #[trigger] at[k]
            == before[k] by {}
        assert forall|x: int| 0 <= x < n implies (#[trigger] at.contains(x) <==> driver(
            rules,
            outputs,
            x,
        ) is Some && rules[driver(rules, outputs, x)->Some_0].mode is Some && rules[driver(
            rules,
            outputs,
            x,
        )->Some_0].mode->Some_0.len() > 0 && outputs[x].resolved(
            rules[driver(rules, outputs, x)->Some_0].mode->Some_0,
        ) is Some) by {
            if x < o {
                if before.contains(x) {
                    let k = choose|k: int| 0 <= k < before.len() && before[k] == x;
                    assert(at[k] == x);
                }
                if at.contains(x) {
                    let k = choose|k: int| 0 <= k < at.len() && at[k] == x;
                    assert(before[k] == x);
                    assert(before.contains(x));
                }
            } else if found {
                assert(at[before.len() as int] == x);
            } else if at.contains(x) {
                let k = choose|k: int| 0 <= k < before.len() && before[k] == x;
                assert(false);
            }
        }
        at
    }
}

/// A display that no rule drives, or whose rule names no mode, gets no instruction of its own:
/// the instructions are those that there would be without asking it.
pub proof fn law_other_displays_are_left_alone(
    rules: Seq<OutputRuleView>,
    outputs: Seq<OutputView>,
    n: nat,
)
    requires
        n < outputs.len(),
        driver(rules, outputs, n as int) is None || rules[driver(
            rules,
            outputs,
            n as int,
        )->Some_0].mode is None || rules[driver(rules, outputs, n as int)->Some_0].mode->Some_0.len()
            == 0,
    ensures
        settings_for(rules, outputs, n + 1) == settings_for(rules, outputs, n),
        mode_warnings(rules, outputs, n + 1) == mode_warnings(rules, outputs, n),
{
}

/// A display that cannot do what its rule asks is reported by name, together with the mode,
/// and one that can is not. Nothing else is reported once the rules have found their displays.
pub proof fn law_modes_that_are_not_there_are_reported(
    rules: Seq<OutputRuleView>,
    outputs: Seq<OutputView>,
    n: nat,
    r: int,
    mode: Seq<char>,
)
    requires
        n < outputs.len(),
        driver(rules, outputs, n as int) == Some(r),
        rules[r].mode == Some(mode),
        mode.len() > 0,
    ensures
        outputs[n as int].resolved(mode) is Some ==> mode_warnings(rules, outputs, n + 1)
            == mode_warnings(rules, outputs, n),
        outputs[n as int].resolved(mode) is None ==> settings_for(rules, outputs, n + 1)
            == settings_for(rules, outputs, n) && mode_warnings(rules, outputs, n + 1)
            == mode_warnings(rules, outputs, n).push(
            outputs[n as int].connector + " cannot do "@ + mode + "; leaving it unchanged"@,
        ),
        mode_warnings(rules, outputs, 0).len() == 0,
        resolve_warnings(rules, outputs).take(binding_warnings(rules, outputs).len() as int)
            == binding_warnings(rules, outputs),
        resolve_warnings(rules, outputs).skip(binding_warnings(rules, outputs).len() as int)
            == mode_warnings(rules, outputs, outputs.len()),
{
    let all = resolve_warnings(rules, outputs);
    let first = binding_warnings(rules, outputs);
    assert(all.take(first.len() as int) =~= first);
    assert(all.skip(first.len() as int) =~= mode_warnings(rules, outputs, outputs.len()));
}

/// What one more rule adds to what is said of the rules: nothing where it names no mode; that
/// no display matches it where it describes none; that its display is taken where an earlier
/// rule has the same display; and else nothing.
pub proof fn law_rules_that_bind_to_nothing_are_reported(
    rules: Seq<OutputRuleView>,
    rule: OutputRuleView,
    outputs: Seq<OutputView>,
)
    ensures
        ({
            let before = binding_warnings(rules, outputs);
            let now = binding_warnings(rules.push(rule), outputs);
            &&& binding_warnings(Seq::empty(), outputs).len() == 0
            &&& rule.mode is None || rule.mode->Some_0.len() == 0 ==> now == before
            &&& rule.mode is Some && rule.mode->Some_0.len() > 0 ==> (match best_display(
                rule,
                outputs,
            ) {
                None => now == before.push(
                    "no connected display matches "@ + matcher_text(rule.matcher),
                ),
                Some(o) => {
                    let taken = exists|k: int|
                        0 <= k < rules.len() && best_display(#[trigger] rules[k], outputs) == Some(
                            o,
                        );
                    &&& taken ==> now == before.push(
                        outputs[o].connector
                            + " is targeted by more than one rule; keeping the first"@,
                    )
                    &&& !taken ==> now == before
                },
            })
        }),
{
    let more = rules.push(rule);
    assert(more.drop_last() =~= rules);
    assert(more.last() == rule);
    if let Some(o) = best_display(rule, outputs) {
        lemma_driver(rules, outputs, o);
        if let Some(r) = driver(rules, outputs, o) {
            assert(best_display(rules[r], outputs) == Some(o));
        }
    }
}

/// The rules that drive nothing are all of those below the count that no display is bound to,
/// and only those, in their order.
pub proof fn law_idle_rules_are_those_without_a_display(bound: Seq<Option<int>>, n: nat, r: int)
    ensures
        idle(bound, n).contains(r) <==> 0 <= r < n && forall|o: int|
            0 <= o < bound.len() ==> #[trigger] bound[o] != Some(r),
        forall|a: int, b: int|
            0 <= a < b < idle(bound, n).len() ==> #[trigger] idle(bound, n)[a]
                < #[trigger] idle(bound, n)[b],
{
    lemma_idle(bound, n);
    if bound.contains(Some(r)) {
        let o = choose|o: int| 0 <= o < bound.len() && bound[o] == Some(r);
        assert(bound[o] == Some(r));
    }
}

} // verus!
