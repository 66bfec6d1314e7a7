//! The daemon's decisions about when to apply a profile.
//!
//! Watchers only enqueue events. The controller is the single place that decides when
//! those events have settled. Times are nanoseconds on one monotonic clock.

use vstd::prelude::*;

use crate::config::{Config, ConfigView, PowerState};
use crate::events::{Event, SECOND};

verus! {

/// Hard limit on the coalescing, so a misbehaving event source cannot postpone an apply
/// indefinitely by trickling events in.
pub const MAX_WAIT: u64 = 10_000_000_000;

/// The longest delay before another attempt.
pub const LONGEST_BACKOFF: u64 = 30_000_000_000;

/// An apply that is waiting for events to stop arriving.
#[derive(Debug)]
struct Pending {
    settles_at: u64,
    latest: u64,
}

/// When a waiting apply has settled, and when it runs even if it has not.
pub struct PendingView {
    pub settles_at: int,
    pub latest: int,
}

impl PendingView {
    pub open spec fn deadline(self) -> int {
        if self.settles_at <= self.latest {
            self.settles_at
        } else {
            self.latest
        }
    }

    /// A first event starts the wait.
    pub open spec fn started(event: Event, now: int) -> PendingView {
        PendingView { settles_at: now + event.delay(), latest: now + MAX_WAIT }
    }

    /// A further event prolongs the wait, never beyond its limit.
    pub open spec fn extended(self, event: Event, now: int) -> PendingView {
        PendingView {
            settles_at: if now + event.delay() >= self.settles_at {
                now + event.delay()
            } else {
                self.settles_at
            },
            latest: self.latest,
        }
    }

    /// Another attempt coalesces nothing, so its own delay is also its limit.
    pub open spec fn retry(delay: int, now: int) -> PendingView {
        PendingView { settles_at: now + delay, latest: now + delay }
    }
}

impl Pending {
    closed spec fn view(self) -> PendingView {
        PendingView { settles_at: self.settles_at as int, latest: self.latest as int }
    }

    fn new(event: Event, now: u64) -> (r: Self)
        requires
            now + MAX_WAIT <= u64::MAX,
        ensures
            r.view() == PendingView::started(event, now as int),
    {
        Pending { settles_at: now + event.settle_delay(), latest: now + MAX_WAIT }
    }

    fn after(delay: u64, now: u64) -> (r: Self)
        requires
            now + delay <= u64::MAX,
        ensures
            r.view() == PendingView::retry(delay as int, now as int),
    {
        Pending { settles_at: now + delay, latest: now + delay }
    }

    fn extend(&mut self, event: Event, now: u64)
        requires
            now + MAX_WAIT <= u64::MAX,
        ensures
            final(self).view() == old(self).view().extended(event, now as int),
    {
        let settles: u64 = now + event.settle_delay();
        if settles >= self.settles_at {
            self.settles_at = settles;
        }
    }

    fn deadline(&self) -> (r: u64)
        ensures
            r == self.view().deadline(),
    {
        if self.settles_at <= self.latest {
            self.settles_at
        } else {
            self.latest
        }
    }
}

/// Debounces power, display, config and resume events into a single apply.
pub struct Controller {
    state: PowerState,
    config: Config,
    pending: Option<Pending>,
    retries: usize,
}

/// What the controller knows.
pub struct ControllerView {
    pub state: PowerState,
    pub config: ConfigView,
    pub pending: Option<PendingView>,
    pub retries: nat,
}

/// The delay before each further attempt; `None` once the attempts are used up.
pub open spec fn backoff(attempt: nat) -> Option<u64> {
    if attempt == 0 {
        Some(1_000_000_000)
    } else if attempt == 1 {
        Some(3_000_000_000)
    } else if attempt == 2 {
        Some(10_000_000_000)
    } else if attempt == 3 {
        Some(LONGEST_BACKOFF)
    } else {
        None
    }
}

impl ControllerView {
    /// A controller that has just started.
    pub open spec fn started(config: ConfigView, state: PowerState, now: int) -> ControllerView {
        ControllerView {
            state,
            config,
            pending: if config.apply_on_start {
                Some(PendingView::started(Event::Power(state), now))
            } else {
                None
            },
            retries: 0,
        }
    }

    pub open spec fn due(self, now: int) -> bool {
        self.pending is Some && now >= self.pending->Some_0.deadline()
    }

    /// A fresh trigger: it joins the wait that is running or starts one, and deserves the
    /// full number of attempts.
    pub open spec fn queued(self, event: Event, now: int) -> ControllerView {
        ControllerView {
            pending: Some(
                match self.pending {
                    Some(p) => p.extended(event, now),
                    None => PendingView::started(event, now),
                },
            ),
            retries: 0,
            ..self
        }
    }

    /// An event; a power reading that says nothing new is no event.
    pub open spec fn noticed(self, event: Event, now: int) -> ControllerView {
        match event {
            Event::Power(state) => if state == self.state {
                self
            } else {
                (ControllerView { state, ..self }).queued(event, now)
            },
            _ => self.queued(event, now),
        }
    }

    /// An apply that was due has been taken.
    pub open spec fn taken(self, now: int) -> ControllerView {
        if self.due(now) {
            ControllerView { pending: None, ..self }
        } else {
            self
        }
    }

    /// An apply has run with this power state.
    pub open spec fn applied(self, state: PowerState) -> ControllerView {
        ControllerView { state, retries: 0, ..self }
    }

    /// An apply has failed and is to be tried again.
    pub open spec fn retried(self, now: int) -> ControllerView {
        match backoff(self.retries) {
            Some(delay) => ControllerView {
                pending: Some(PendingView::retry(delay as int, now)),
                retries: self.retries + 1,
                ..self
            },
            None => self,
        }
    }

    /// New settings have been read; the same settings again change nothing.
    pub open spec fn reloaded(self, config: ConfigView, now: int) -> ControllerView {
        if config == self.config {
            self
        } else {
            (ControllerView { config, ..self }).queued(Event::ConfigChanged, now)
        }
    }

    /// A run of events, each with the time at which it came.
    pub open spec fn noticed_all(self, events: Seq<(Event, int)>) -> ControllerView
        decreases events.len(),
    {
        if events.len() == 0 {
            self
        } else {
            self.noticed_all(events.drop_last()).noticed(events.last().0, events.last().1)
        }
    }
}

impl View for Controller {
    type V = ControllerView;

    closed spec fn view(&self) -> ControllerView {
        ControllerView {
            state: self.state,
            config: self.config.deep_view(),
            pending: match self.pending {
                Some(p) => Some(p.view()),
                None => None,
            },
            retries: self.retries as nat,
        }
    }
}

fn retry_delay(attempt: usize) -> (r: Option<u64>)
    ensures
        r == backoff(attempt as nat),
{
    if attempt == 0 {
        Some(SECOND)
    } else if attempt == 1 {
        Some(3 * SECOND)
    } else if attempt == 2 {
        Some(10 * SECOND)
    } else if attempt == 3 {
        Some(LONGEST_BACKOFF)
    } else {
        None
    }
}

impl Controller {
    /// Starts with the settings and the power state that were read first.
    pub fn new(config: Config, state: PowerState, now: u64) -> (r: Self)
        requires
            now + MAX_WAIT <= u64::MAX,
        ensures
            r@ == ControllerView::started(config.deep_view(), state, now as int),
    {
        let pending = if config.apply_on_start {
            Some(Pending::new(Event::Power(state), now))
        } else {
            None
        };
        Controller { state, config, pending, retries: 0 }
    }

    pub fn state(&self) -> (r: PowerState)
        ensures
            r == self@.state,
    {
        self.state
    }

    pub fn config(&self) -> (r: &Config)
        ensures
            r.deep_view() == self@.config,
    {
        &self.config
    }

    /// How long the caller should wait for the next event before treating the pending
    /// apply as due. `None` means block indefinitely.
    pub fn wait(&self, now: u64) -> (r: Option<u64>)
        ensures
            match (r, self@.pending) {
                (Some(left), Some(p)) => left == if p.deadline() > now {
                    p.deadline() - now
                } else {
                    0
                },
                (None, None) => true,
                _ => false,
            },
    {
        match &self.pending {
            Some(pending) => {
                let deadline: u64 = pending.deadline();
                Some(if deadline > now {
                    deadline - now
                } else {
                    0
                })
            },
            None => None,
        }
    }

    /// True when an apply should run *now*, even if more events are already queued.
    ///
    /// A caller that asks this before it reads the next event is never starved: a flood of
    /// display events after our own mode set would otherwise keep the queue full forever
    /// and the apply would never run.
    pub fn due(&self, now: u64) -> (r: bool)
        ensures
            r == self@.due(now as int),
    {
        match &self.pending {
            Some(pending) => now >= pending.deadline(),
            None => false,
        }
    }

    /// Consumes a due apply. The caller should re-read the power source, then call
    /// [`Self::applied`].
    pub fn take_due(&mut self, now: u64) -> (r: bool)
        ensures
            r == old(self)@.due(now as int),
            final(self)@ == old(self)@.taken(now as int),
    {
        if !self.due(now) {
            return false;
        }
        self.pending = None;
        true
    }

    /// Records the power source used for a completed apply, so a duplicate reading does
    /// not start another debounce.
    pub fn applied(&mut self, state: PowerState)
        ensures
            final(self)@ == old(self)@.applied(state),
    {
        self.state = state;
        self.retries = 0;
    }

    /// Schedules another attempt after an apply failed, returning how long the caller will
    /// wait. `None` means the retries for this change are exhausted.
    pub fn schedule_retry(&mut self, now: u64) -> (r: Option<u64>)
        requires
            now + LONGEST_BACKOFF <= u64::MAX,
        ensures
            r == backoff(old(self)@.retries),
            final(self)@ == old(self)@.retried(now as int),
    {
        match retry_delay(self.retries) {
            Some(delay) => {
                self.retries = self.retries + 1;
                self.pending = Some(Pending::after(delay, now));
                Some(delay)
            },
            None => None,
        }
    }

    /// Installs new settings. No-ops if nothing actually changed.
    pub fn reload_config(&mut self, config: Config, now: u64) -> (r: bool)
        requires
            now + MAX_WAIT <= u64::MAX,
        ensures
            r == (config.deep_view() != old(self)@.config),
            final(self)@ == old(self)@.reloaded(config.deep_view(), now as int),
    {
        if config.same_as(&self.config) {
            return false;
        }
        self.config = config;
        self.queue(Event::ConfigChanged, now);
        true
    }

    /// Folds an event into the debounce. Duplicate power readings are ignored so that a
    /// poll of the power source cannot postpone the apply forever.
    pub fn on_event(&mut self, event: Event, now: u64)
        requires
            now + MAX_WAIT <= u64::MAX,
        ensures
            final(self)@ == old(self)@.noticed(event, now as int),
    {
        if let Event::Power(new_state) = event {
            if new_state == self.state {
                return ;
            }
            self.state = new_state;
        }
        self.queue(event, now);
    }

    fn queue(&mut self, event: Event, now: u64)
        requires
            now + MAX_WAIT <= u64::MAX,
        ensures
            final(self)@ == old(self)@.queued(event, now as int),
    {
        self.retries = 0;
        match &mut self.pending {
            Some(pending) => pending.extend(event, now),
            None => {
                self.pending = Some(Pending::new(event, now));
            },
        }
    }
}

/// However many events arrive while an apply is waiting, the time at which it runs at the
/// latest does not move, and it is due from then on.
pub proof fn law_coalescing_is_capped(c: ControllerView, events: Seq<(Event, int)>, now: int)
    requires
        c.pending is Some,
    ensures
        c.noticed_all(events).pending is Some,
        c.noticed_all(events).pending->Some_0.latest == c.pending->Some_0.latest,
        now >= c.pending->Some_0.latest ==> c.noticed_all(events).due(now),
    decreases events.len(),
{
    if events.len() > 0 {
        law_coalescing_is_capped(c, events.drop_last(), now);
    }
}

/// A trigger is acted on within the limit, whatever else arrives after it.
pub proof fn law_no_trigger_waits_forever(
    c: ControllerView,
    event: Event,
    at: int,
    events: Seq<(Event, int)>,
)
    requires
        c.pending is None,
        match event {
            Event::Power(state) => state != c.state,
            _ => true,
        },
    ensures
        c.noticed(event, at).noticed_all(events).due(at + MAX_WAIT),
{
    law_coalescing_is_capped(c.noticed(event, at), events, at + MAX_WAIT);
}

/// An event never brings the end of the wait forward.
pub proof fn law_events_only_prolong(c: ControllerView, event: Event, at: int)
    requires
        c.pending is Some,
    ensures
        c.noticed(event, at).pending is Some,
        c.noticed(event, at).pending->Some_0.deadline() >= c.pending->Some_0.deadline(),
{
}

/// A power reading that says nothing new changes nothing.
pub proof fn law_duplicate_readings_change_nothing(c: ControllerView, at: int)
    ensures
        c.noticed(Event::Power(c.state), at) == c,
{
}

/// A reading of the power source that an apply has just used changes nothing.
pub proof fn law_applied_state_is_no_news(c: ControllerView, state: PowerState, at: int)
    ensures
        c.applied(state).noticed(Event::Power(state), at) == c.applied(state),
{
}

/// An apply that has been taken is not due again before something else happens.
pub proof fn law_taken_once(c: ControllerView, now: int, later: int)
    requires
        c.due(now),
    ensures
        !c.taken(now).due(later),
{
}

/// A failed apply is tried again after exactly the delay that was announced: not sooner,
/// and not cut short by the limit on coalescing.
pub proof fn law_retry_waits_its_delay(c: ControllerView, now: int, later: int)
    requires
        backoff(c.retries) is Some,
    ensures
        c.retried(now).due(later) <==> later >= now + backoff(c.retries)->Some_0,
{
}

/// A retry's own delay is also its hard limit: no events, and no new settings, move it.
pub proof fn law_nothing_moves_a_retry(
    c: ControllerView,
    now: int,
    events: Seq<(Event, int)>,
    config: ConfigView,
    at: int,
    later: int,
)
    requires
        backoff(c.retries) is Some,
    ensures
        c.retried(now).noticed_all(events).due(later) <==> later >= now
            + backoff(c.retries)->Some_0,
        c.retried(now).noticed_all(events).reloaded(config, at).due(later) <==> later >= now
            + backoff(c.retries)->Some_0,
{
    lemma_retry_stays(c, now, events);
}

proof fn lemma_retry_stays(c: ControllerView, now: int, events: Seq<(Event, int)>)
    requires
        backoff(c.retries) is Some,
    ensures
        c.retried(now).noticed_all(events).pending matches Some(p) && p.latest == now
            + backoff(c.retries)->Some_0 && p.settles_at >= p.latest,
    decreases events.len(),
{
    if events.len() > 0 {
        lemma_retry_stays(c, now, events.drop_last());
    }
}

/// Every further attempt waits longer than the one before it.
pub proof fn law_backoff_grows(attempt: nat)
    requires
        backoff(attempt + 1) is Some,
    ensures
        backoff(attempt) is Some,
        backoff(attempt)->Some_0 < backoff(attempt + 1)->Some_0,
{
}

/// `n` failed attempts in a row.
pub open spec fn failed_times(c: ControllerView, now: int, n: nat) -> ControllerView
    decreases n,
{
    if n == 0 {
        c
    } else {
        failed_times(c, now, (n - 1) as nat).retried(now)
    }
}

/// After four failures in a row no further attempt is made.
pub proof fn law_retries_are_exhausted(c: ControllerView, now: int, n: nat)
    requires
        n >= 4,
    ensures
        backoff(failed_times(c, now, n).retries) is None,
    decreases n,
{
    reveal_with_fuel(failed_times, 5);
    if n > 4 {
        law_retries_are_exhausted(c, now, (n - 1) as nat);
    }
}

/// A new event restores the full number of attempts.
pub proof fn law_event_restores_the_retries(c: ControllerView, event: Event, at: int)
    requires
        match event {
            Event::Power(state) => state != c.state,
            _ => true,
        },
    ensures
        c.noticed(event, at).retries == 0,
        backoff(c.noticed(event, at).retries) is Some,
{
}

/// Reading the same settings again changes nothing.
pub proof fn law_identical_reload_is_ignored(c: ControllerView, at: int)
    ensures
        c.reloaded(c.config, at) == c,
{
}

/// A first trigger is acted on after its own delay: a second and a half after the charger,
/// two seconds after a display, three tenths of a second after new settings, two and a half
/// seconds after a sleep. Nothing but the power state and the wait changes, and the attempts
/// start over.
pub proof fn law_each_trigger_has_its_own_delay(c: ControllerView, at: int, state: PowerState)
    requires
        c.pending is None,
    ensures
        state != c.state ==> c.noticed(Event::Power(state), at).pending->Some_0.deadline() == at
            + 1_500_000_000,
        state != c.state ==> c.noticed(Event::Power(state), at).pending is Some,
        c.noticed(Event::Power(state), at).state == state,
        c.noticed(Event::DisplaysChanged, at).pending is Some,
        c.noticed(Event::DisplaysChanged, at).pending->Some_0.deadline() == at + 2_000_000_000,
        c.noticed(Event::ConfigChanged, at).pending is Some,
        c.noticed(Event::ConfigChanged, at).pending->Some_0.deadline() == at + 300_000_000,
        c.noticed(Event::Resumed, at).pending is Some,
        c.noticed(Event::Resumed, at).pending->Some_0.deadline() == at + 2_500_000_000,
        c.noticed(Event::Resumed, at).pending->Some_0.latest == at + 10_000_000_000,
        c.noticed(Event::DisplaysChanged, at).state == c.state,
        c.noticed(Event::ConfigChanged, at).state == c.state,
        c.noticed(Event::Resumed, at).state == c.state,
{
}

/// A further trigger makes the wait last until its own delay is over as well, but no longer
/// than the wait was bound to last. Settings stay as they are.
pub proof fn law_a_further_trigger_is_waited_for(c: ControllerView, event: Event, at: int)
    requires
        c.pending is Some,
        match event {
            Event::Power(state) => state != c.state,
            _ => true,
        },
    ensures
        ({
            let before = c.pending->Some_0;
            let after = c.noticed(event, at).pending->Some_0;
            &&& c.noticed(event, at).pending is Some
            &&& after.latest == before.latest
            &&& after.deadline() <= before.latest
            &&& after.deadline() >= at + event.delay() || after.deadline() == before.latest
            &&& after.deadline() == at + event.delay() || after.deadline() == before.deadline()
                || after.deadline() == before.latest
            &&& at + event.delay() <= before.settles_at ==> after.deadline() == before.deadline()
            &&& before.settles_at <= at + event.delay() <= before.latest ==> after.deadline() == at
                + event.delay()
        }),
        c.noticed(event, at).config == c.config,
        c.noticed(event, at).retries == 0,
        event matches Event::Power(state) ==> c.noticed(event, at).state == state,
        !(event is Power) ==> c.noticed(event, at).state == c.state,
{
}

/// A controller starts with an apply under way where the settings want one at the start, and
/// with none where they do not.
pub proof fn law_a_start_applies_where_that_is_wanted(
    config: ConfigView,
    state: PowerState,
    now: int,
    later: int,
)
    ensures
        ControllerView::started(config, state, now).state == state,
        ControllerView::started(config, state, now).config == config,
        ControllerView::started(config, state, now).retries == 0,
        config.apply_on_start ==> (ControllerView::started(config, state, now).due(later)
            <==> later >= now + 1_500_000_000),
        !config.apply_on_start ==> !ControllerView::started(config, state, now).due(later),
{
}

/// An apply is due once its wait is over or its limit is reached, and not before. Taking it
/// ends the wait and changes nothing else; before that, nothing is taken.
pub proof fn law_an_apply_is_due_when_its_time_has_come(c: ControllerView, now: int)
    ensures
        c.pending is None ==> !c.due(now),
        c.pending matches Some(p) ==> (c.due(now) <==> now >= p.settles_at || now >= p.latest),
        c.due(now) ==> c.taken(now).pending is None,
        !c.due(now) ==> c.taken(now) == c,
        c.taken(now).state == c.state,
        c.taken(now).config == c.config,
        c.taken(now).retries == c.retries,
{
}

/// An apply that went through leaves its power state behind and gives back all the attempts.
/// What else is waiting goes on waiting.
pub proof fn law_a_completed_apply_is_recorded(c: ControllerView, state: PowerState)
    ensures
        c.applied(state).state == state,
        c.applied(state).retries == 0,
        c.applied(state).pending == c.pending,
        c.applied(state).config == c.config,
{
}

/// A failed apply is tried again after one second, then after three, ten and thirty, and after
/// that no more.
pub proof fn law_attempts_are_spaced_out(c: ControllerView, now: int, later: int)
    ensures
        c.retries == 0 ==> (c.retried(now).due(later) <==> later >= now + 1_000_000_000),
        c.retries == 1 ==> (c.retried(now).due(later) <==> later >= now + 3_000_000_000),
        c.retries == 2 ==> (c.retried(now).due(later) <==> later >= now + 10_000_000_000),
        c.retries == 3 ==> (c.retried(now).due(later) <==> later >= now + 30_000_000_000),
        c.retries < 4 ==> c.retried(now).retries == c.retries + 1,
        c.retries >= 4 ==> c.retried(now) == c,
        c.retried(now).state == c.state,
        c.retried(now).config == c.config,
{
}

/// New settings are taken over and applied shortly afterwards.
pub proof fn law_new_settings_are_applied(c: ControllerView, config: ConfigView, now: int)
    requires
        config != c.config,
    ensures
        c.reloaded(config, now).config == config,
        c.reloaded(config, now).state == c.state,
        c.reloaded(config, now).retries == 0,
        c.reloaded(config, now).pending is Some,
        c.pending is None ==> c.reloaded(config, now).pending->Some_0.deadline() == now
            + 300_000_000,
        c.pending matches Some(p) ==> c.reloaded(config, now).pending->Some_0.latest == p.latest
            && c.reloaded(config, now).pending->Some_0.deadline() >= p.deadline(),
{
}


} // verus!
