//! The accept/serve/drain coordination of the server runtime.
//!
//! The I/O loop outside this library races acceptance, an interrupt
//! signal, an optional shutdown timer, connection completions and the
//! drain grace timer, and reports whichever fires first as an [`Event`].
//! The [`Coordinator`] holds the state machine that decides, for each
//! event, the next state and the [`Action`] the loop must perform. All
//! decisions — admission, the shutdown triggers, draining and forced
//! termination — stand here and are verified; the loop only performs I/O.

use vstd::prelude::*;

verus! {

/// The lifecycle phase of the shutdown coordinator.
#[derive(Clone, Copy, Debug, PartialEq, Eq, Structural)]
pub enum Phase {
    /// New connections are admitted.
    Accepting,
    /// A shutdown trigger fired: no more admissions, live connections
    /// finish within the grace period.
    Draining,
    /// The run is over, cleanly or forced.
    Terminated,
}

/// What the I/O loop observed: the winner of its multi-way wait.
#[derive(Clone, Copy, Debug, PartialEq, Eq, Structural)]
pub enum Event {
    /// A connection is ready to be accepted.
    Accepted,
    /// The external interrupt signal arrived.
    Interrupted,
    /// The optional shutdown timer elapsed.
    TimerElapsed,
    /// The watcher with this identifier reported completion, clean or
    /// failed.
    ConnDone(u64),
    /// The drain grace period elapsed.
    GraceElapsed,
}

/// What the coordinator asks the I/O loop to do next.
#[derive(Clone, Copy, Debug, PartialEq, Eq, Structural)]
pub enum Action {
    /// Admit the connection: spawn its serving task under this watcher
    /// identifier.
    Admit(u64),
    /// Stop accepting and ask every live watcher to shut down gracefully.
    BeginDrain,
    /// Every connection drained: exit with status 0.
    ExitClean,
    /// The grace period ran out with connections still live: abandon them
    /// and exit with a non-zero status.
    ExitForced,
    /// Nothing to do.
    Ignore,
}

/// The coordinator state as specifications see it.
pub struct Model {
    pub phase: Phase,
    pub live: Seq<u64>,
    pub next_id: u64,
    pub forced: bool,
}

/// The state a coordinator starts in: accepting, no live connections.
pub open spec fn init_model() -> Model {
    Model { phase: Phase::Accepting, live: Seq::empty(), next_id: 0, forced: false }
}

/// Well-formedness: watcher identifiers are unique and below the next
/// fresh one, a forced run is over, and draining always has something to
/// drain.
pub open spec fn model_wf(m: Model) -> bool {
    &&& forall|p: int, q: int| 0 <= p < q < m.live.len() ==> m.live[p] != m.live[q]
    &&& forall|p: int| 0 <= p < m.live.len() ==> m.live[p] < m.next_id
    &&& (m.forced ==> m.phase is Terminated)
    &&& (m.phase is Draining ==> m.live.len() > 0)
}

/// One transition of the coordinator: the next state and the action the
/// I/O loop must perform.
///
/// Admission happens only in `Accepting`. A shutdown trigger freezes the
/// live set and begins the drain, or ends the run at once when nothing is
/// live. A completion shrinks the live set and ends the drain when it was
/// the last. The grace timer ends a drain forcibly.
pub open spec fn m_step(m: Model, e: Event) -> (Model, Action) {
    match e {
        Event::Accepted => if m.phase is Accepting {
            (
                Model { live: m.live.push(m.next_id), next_id: (m.next_id + 1) as u64, ..m },
                Action::Admit(m.next_id),
            )
        } else {
            (m, Action::Ignore)
        },
        Event::Interrupted | Event::TimerElapsed => if m.phase is Accepting {
            if m.live.len() == 0 {
                (Model { phase: Phase::Terminated, ..m }, Action::ExitClean)
            } else {
                (Model { phase: Phase::Draining, ..m }, Action::BeginDrain)
            }
        } else {
            (m, Action::Ignore)
        },
        Event::ConnDone(id) => {
            let live = m.live.remove_value(id);
            if m.phase is Draining && live.len() == 0 {
                (Model { phase: Phase::Terminated, live, ..m }, Action::ExitClean)
            } else {
                (Model { live, ..m }, Action::Ignore)
            }
        },
        Event::GraceElapsed => if m.phase is Draining {
            (Model { phase: Phase::Terminated, forced: true, ..m }, Action::ExitForced)
        } else {
            (m, Action::Ignore)
        },
    }
}

/// The state after feeding a whole event sequence, first event first.
pub open spec fn m_run(m: Model, evs: Seq<Event>) -> Model
    decreases evs.len(),
{
    if evs.len() == 0 {
        m
    } else {
        m_run(m_step(m, evs[0]).0, evs.drop_first())
    }
}

/// How many of the events along a run are admitted as new connections.
pub open spec fn admit_count(m: Model, evs: Seq<Event>) -> int
    decreases evs.len(),
{
    if evs.len() == 0 {
        0
    } else {
        (if m_step(m, evs[0]).1 is Admit {
            1int
        } else {
            0int
        }) + admit_count(m_step(m, evs[0]).0, evs.drop_first())
    }
}

/// The process exit status a finished run reports.
pub open spec fn m_exit_code(m: Model) -> int {
    if m.forced {
        1
    } else {
        0
    }
}

proof fn lemma_remove_value_props(s: Seq<u64>, id: u64)
    requires
        forall|p: int, q: int| 0 <= p < q < s.len() ==> s[p] != s[q],
    ensures
        ({
            let r = s.remove_value(id);
            &&& r.len() <= s.len()
            &&& (s.contains(id) ==> r.len() == s.len() - 1)
            &&& (!s.contains(id) ==> r == s)
            &&& !r.contains(id)
            &&& forall|x: u64| #[trigger] r.contains(x) ==> s.contains(x)
            &&& forall|p: int, q: int| 0 <= p < q < r.len() ==> r[p] != r[q]
        }),
{
    s.index_of_first_ensures(id);
    match s.index_of_first(id) {
        Some(i) => {
            let r = s.remove(i);
            s.remove_ensures(i);
            assert forall|x: u64| #[trigger] r.contains(x) implies s.contains(x) by {
                let k = choose|k: int| 0 <= k < r.len() && r[k] == x;
                if k < i {
                    assert(s[k] == x);
                } else {
                    assert(s[k + 1] == x);
                }
            }
            assert(!r.contains(id)) by {
                if r.contains(id) {
                    let k = choose|k: int| 0 <= k < r.len() && r[k] == id;
                    if k < i {
                        assert(s[k] == id);
                        assert(s[i] == id);
                    } else {
                        assert(s[k + 1] == id);
                        assert(s[i] == id);
                    }
                }
            }
            assert forall|p: int, q: int| 0 <= p < q < r.len() implies r[p] != r[q] by {
                if q < i {
                    assert(r[p] == s[p] && r[q] == s[q]);
                } else if p < i {
                    assert(r[p] == s[p] && r[q] == s[q + 1]);
                } else {
                    assert(r[p] == s[p + 1] && r[q] == s[q + 1]);
                }
            }
        },
        None => {},
    }
}

proof fn lemma_step_after_trigger(m: Model, e: Event)
    requires
        model_wf(m),
        !(m.phase is Accepting),
    ensures
        model_wf(m_step(m, e).0),
        !(m_step(m, e).0.phase is Accepting),
        !(m_step(m, e).1 is Admit),
        m_step(m, e).0.live.len() <= m.live.len(),
        m_step(m, e).0.next_id == m.next_id,
{
    if let Event::ConnDone(id) = e {
        lemma_remove_value_props(m.live, id);
        lemma_conn_done_preserves_wf(m, id);
    }
}

/// No admission after the trigger: once the coordinator has left
/// `Accepting`, no event sequence ever admits a connection again, the
/// phase never returns to `Accepting`, and the live set only shrinks.
pub proof fn lemma_no_admission_after_trigger(m: Model, evs: Seq<Event>)
    requires
        model_wf(m),
        !(m.phase is Accepting),
    ensures
        model_wf(m_run(m, evs)),
        !(m_run(m, evs).phase is Accepting),
        admit_count(m, evs) == 0,
        m_run(m, evs).live.len() <= m.live.len(),
    decreases evs.len(),
{
    if evs.len() > 0 {
        lemma_step_after_trigger(m, evs[0]);
        lemma_no_admission_after_trigger(m_step(m, evs[0]).0, evs.drop_first());
    }
}

/// Clean drain: from `Draining`, an event sequence of nothing but
/// completions that covers every live connection ends the run terminated,
/// not forced, with an empty live set — the process exits with status 0.
pub proof fn lemma_drain_completes_clean(m: Model, evs: Seq<Event>)
    requires
        model_wf(m),
        !m.forced,
        m.phase is Draining || (m.phase is Terminated && m.live.len() == 0),
        forall|k: int| 0 <= k < evs.len() ==> evs[k] is ConnDone,
        forall|p: int|
            0 <= p < m.live.len() ==> exists|k: int|
                0 <= k < evs.len() && #[trigger] evs[k] == Event::ConnDone(
                    #[trigger] m.live[p],
                ),
    ensures
        m_run(m, evs).phase is Terminated,
        !m_run(m, evs).forced,
        m_run(m, evs).live.len() == 0,
        m_exit_code(m_run(m, evs)) == 0,
    decreases evs.len(),
{
    if m.live.len() > 0 {
        assert(exists|k: int| 0 <= k < evs.len() && evs[k] == Event::ConnDone(m.live[0]));
        assert(evs.len() > 0);
    }
    if evs.len() == 0 {
    } else {
        let e = evs[0];
        let id = e->ConnDone_0;
        let m1 = m_step(m, e).0;
        lemma_remove_value_props(m.live, id);
        assert forall|p: int|
            0 <= p < m1.live.len() implies exists|k: int|
            0 <= k < evs.drop_first().len() && #[trigger] evs.drop_first()[k] == Event::ConnDone(
                #[trigger] m1.live[p],
            ) by {
            let x = m1.live[p];
            assert(m1.live.contains(x));
            assert(m.live.contains(x));
            let q = choose|q: int| 0 <= q < m.live.len() && m.live[q] == x;
            let k = choose|k: int|
                0 <= k < evs.len() && evs[k] == Event::ConnDone(m.live[q]);
            assert(x != id);
            assert(k != 0);
            assert(evs.drop_first()[k - 1] == Event::ConnDone(x));
        }
        lemma_step_after_trigger(m, e);
        lemma_drain_completes_clean(m1, evs.drop_first());
    }
}

proof fn lemma_m_run_append(m: Model, a: Seq<Event>, b: Seq<Event>)
    ensures
        m_run(m, a + b) == m_run(m_run(m, a), b),
    decreases a.len(),
{
    if a.len() == 0 {
        assert(a + b =~= b);
    } else {
        assert((a + b)[0] == a[0]);
        assert((a + b).drop_first() =~= a.drop_first() + b);
        lemma_m_run_append(m_step(m, a[0]).0, a.drop_first(), b);
    }
}

proof fn lemma_accepts_extend(m: Model, n: int)
    requires
        model_wf(m),
        m.phase is Accepting,
        0 <= n,
        m.next_id + n < u64::MAX,
    ensures
        ({
            let r = m_run(m, Seq::new(n as nat, |i: int| Event::Accepted));
            &&& model_wf(r)
            &&& r.phase is Accepting
            &&& r.next_id as int == m.next_id + n
            &&& r.forced == m.forced
            &&& r.live == m.live + Seq::new(n as nat, |i: int| (m.next_id + i) as u64)
        }),
    decreases n,
{
    let evs = Seq::new(n as nat, |i: int| Event::Accepted);
    if n == 0 {
        assert(m.live + Seq::new(0, |i: int| (m.next_id + i) as u64) =~= m.live);
    } else {
        assert(evs[0] == Event::Accepted);
        let m1 = m_step(m, Event::Accepted).0;
        assert(model_wf(m1)) by {
            assert(forall|p: int|
                0 <= p < m.live.len() ==> #[trigger] m1.live[p] == m.live[p]);
            assert(m1.live[m.live.len() as int] == m.next_id);
        }
        assert(evs.drop_first() =~= Seq::new((n - 1) as nat, |i: int| Event::Accepted));
        lemma_accepts_extend(m1, n - 1);
        let r = m_run(m1, evs.drop_first());
        assert(r.live =~= m.live + Seq::new(n as nat, |i: int| (m.next_id + i) as u64)) by {
            assert(r.live == m1.live + Seq::new(
                (n - 1) as nat,
                |i: int| (m1.next_id + i) as u64,
            ));
        }
    }
}

/// The coordinator property end to end: a run that accepts `n`
/// connections, then sees a shutdown trigger, then watches every admitted
/// connection complete within the grace period, terminates cleanly — the
/// live set is empty and the exit status is 0.
pub proof fn lemma_run_drains_clean(n: int, trigger: Event, dones: Seq<Event>)
    requires
        0 <= n < u64::MAX,
        trigger is Interrupted || trigger is TimerElapsed,
        forall|k: int| 0 <= k < dones.len() ==> dones[k] is ConnDone,
        forall|id: u64| (id as int) < n ==> #[trigger] dones.contains(Event::ConnDone(id)),
    ensures
        ({
            let evs = Seq::new(n as nat, |i: int| Event::Accepted) + seq![trigger] + dones;
            let m = m_run(init_model(), evs);
            &&& m.phase is Terminated
            &&& !m.forced
            &&& m.live.len() == 0
            &&& m_exit_code(m) == 0
        }),
{
    let accepts = Seq::new(n as nat, |i: int| Event::Accepted);
    let evs = accepts + seq![trigger] + dones;
    assert(evs =~= (accepts + seq![trigger]) + dones);
    lemma_m_run_append(init_model(), accepts + seq![trigger], dones);
    lemma_m_run_append(init_model(), accepts, seq![trigger]);
    lemma_accepts_extend(init_model(), n);
    let ma = m_run(init_model(), accepts);
    assert(ma.live =~= Seq::new(n as nat, |i: int| i as u64));
    assert(seq![trigger].drop_first() =~= Seq::<Event>::empty());
    let mt = m_step(ma, trigger).0;
    assert(seq![trigger][0] == trigger);
    assert(m_run(mt, Seq::<Event>::empty()) == mt);
    assert(m_run(ma, seq![trigger]) == mt);
    assert(model_wf(mt));
    assert(mt.live == ma.live);
    assert forall|p: int|
        0 <= p < mt.live.len() implies exists|k: int|
        0 <= k < dones.len() && #[trigger] dones[k] == Event::ConnDone(
            #[trigger] mt.live[p],
        ) by {
        assert(mt.live[p] == p as u64);
        assert(dones.contains(Event::ConnDone(p as u64)));
        let k = choose|k: int| 0 <= k < dones.len() && dones[k] == Event::ConnDone(p as u64);
        assert(dones[k] == Event::ConnDone(mt.live[p]));
    }
    lemma_drain_completes_clean(mt, dones);
}

/// Forced termination: whenever the grace period elapses while the
/// coordinator is still draining, the very next state is terminated and
/// forced, and the process exit status is non-zero.
pub proof fn lemma_grace_timeout_forces_exit(m: Model)
    requires
        model_wf(m),
        m.phase is Draining,
    ensures
        m.live.len() > 0,
        m_step(m, Event::GraceElapsed).0.phase is Terminated,
        m_step(m, Event::GraceElapsed).0.forced,
        m_step(m, Event::GraceElapsed).1 is ExitForced,
        m_exit_code(m_step(m, Event::GraceElapsed).0) == 1,
{
}

/// Removes the first occurrence of `id`, if any.
fn remove_first(v: &mut Vec<u64>, id: u64)
    ensures
        final(v)@ == old(v)@.remove_value(id),
{
    let ghost orig = old(v)@;
    let mut i: usize = 0;
    #[verifier::loop_isolation(false)]
    while i < v.len()
        invariant
            v@ == orig,
            0 <= i <= orig.len(),
            forall|k: int| 0 <= k < i ==> orig[k] != id,
        decreases orig.len() - i,
    {
        if v[i] == id {
            proof {
                orig.index_of_first_ensures(id);
                assert(orig[i as int] == id);
                assert(orig.contains(id));
                if let Some(j) = orig.index_of_first(id) {
                    if j < i {
                        assert(orig[j] != id);
                    }
                    if j > i {
                        assert(orig[i as int] != id);
                    }
                }
                assert(orig.index_of_first(id) == Some(i as int));
                assert(orig.remove_value(id) =~= orig.remove(i as int));
            }
            v.remove(i);
            return ;
        }
        i += 1;
    }
    proof {
        orig.index_of_first_ensures(id);
        if orig.contains(id) {
            let k = choose|k: int| 0 <= k < orig.len() && orig[k] == id;
            assert(orig[k] != id);
        }
    }
}

/// Owns the live-connection registry and decides every transition of the
/// accept/drain/terminate lifecycle.
pub struct Coordinator {
    phase: Phase,
    live: Vec<u64>,
    next_id: u64,
    forced: bool,
}

impl Coordinator {
    /// The state as specifications see it.
    pub closed spec fn model(self) -> Model {
        Model {
            phase: self.phase,
            live: self.live@,
            next_id: self.next_id,
            forced: self.forced,
        }
    }

    /// Well-formedness of the state.
    pub open spec fn wf(self) -> bool {
        model_wf(self.model())
    }

    /// A fresh coordinator: accepting, nothing live.
    pub fn new() -> (c: Coordinator)
        ensures
            c.wf(),
            c.model() == init_model(),
    {
        let c = Coordinator { phase: Phase::Accepting, live: Vec::new(), next_id: 0, forced: false };
        proof {
            assert(c.model() =~= init_model());
        }
        c
    }

    /// Feeds one observed event and returns the action the I/O loop must
    /// perform. The transition is exactly [`m_step`].
    pub fn step(&mut self, e: Event) -> (a: Action)
        requires
            old(self).wf(),
            e is Accepted ==> old(self).model().next_id < u64::MAX,
        ensures
            final(self).wf(),
            final(self).model() == m_step(old(self).model(), e).0,
            a == m_step(old(self).model(), e).1,
    {
        proof {
            lemma_step_wf_total(old(self).model(), e);
        }
        match e {
            Event::Accepted => {
                if matches!(self.phase, Phase::Accepting) {
                    let id = self.next_id;
                    self.live.push(id);
                    self.next_id = id + 1;
                    Action::Admit(id)
                } else {
                    Action::Ignore
                }
            },
            Event::Interrupted | Event::TimerElapsed => {
                if matches!(self.phase, Phase::Accepting) {
                    if self.live.len() == 0 {
                        self.phase = Phase::Terminated;
                        Action::ExitClean
                    } else {
                        self.phase = Phase::Draining;
                        Action::BeginDrain
                    }
                } else {
                    Action::Ignore
                }
            },
            Event::ConnDone(id) => {
                remove_first(&mut self.live, id);
                if matches!(self.phase, Phase::Draining) && self.live.len() == 0 {
                    self.phase = Phase::Terminated;
                    Action::ExitClean
                } else {
                    Action::Ignore
                }
            },
            Event::GraceElapsed => {
                if matches!(self.phase, Phase::Draining) {
                    self.phase = Phase::Terminated;
                    self.forced = true;
                    Action::ExitForced
                } else {
                    Action::Ignore
                }
            },
        }
    }

    /// The identifier the next admitted connection would get. Admission
    /// needs it below `u64::MAX`, so a caller can refuse a connection
    /// once the identifier space is exhausted.
    pub fn next_id(&self) -> (id: u64)
        ensures
            id == self.model().next_id,
    {
        self.next_id
    }

    /// The current phase.
    pub fn phase(&self) -> (p: Phase)
        ensures
            p == self.model().phase,
    {
        self.phase
    }

    /// How many connections are live.
    pub fn live_count(&self) -> (n: usize)
        ensures
            n == self.model().live.len(),
    {
        self.live.len()
    }

    /// Whether the run ended by forced termination.
    pub fn was_forced(&self) -> (b: bool)
        ensures
            b == self.model().forced,
    {
        self.forced
    }

    /// The process exit status this state reports: 0 clean, 1 forced.
    pub fn exit_code(&self) -> (c: u8)
        ensures
            c as int == m_exit_code(self.model()),
    {
        if self.forced {
            1
        } else {
            0
        }
    }
}

proof fn lemma_step_wf_total(m: Model, e: Event)
    requires
        model_wf(m),
        e is Accepted ==> m.next_id < u64::MAX,
    ensures
        model_wf(m_step(m, e).0),
        m_step(m, e).0.next_id <= m.next_id + 1,
{
    if let Event::ConnDone(id) = e {
        lemma_conn_done_preserves_wf(m, id);
    }
}

proof fn lemma_conn_done_preserves_wf(m: Model, id: u64)
    requires
        model_wf(m),
    ensures
        model_wf(m_step(m, Event::ConnDone(id)).0),
{
    lemma_remove_value_props(m.live, id);
    let r = m.live.remove_value(id);
    assert forall|p: int| 0 <= p < r.len() implies r[p] < m.next_id by {
        assert(r.contains(r[p]));
        let x = r[p];
        assert(m.live.contains(x));
        let k = choose|k: int| 0 <= k < m.live.len() && m.live[k] == x;
        assert(m.live[k] < m.next_id);
    }
}

/// The outcome of driving a whole run.
#[derive(Clone, Copy, Debug, PartialEq, Eq, Structural)]
pub struct RunReport {
    /// Whether the run came to an exit.
    pub exited: bool,
    /// The process exit status: 0 for a clean shutdown, 1 when the
    /// listener could not be bound or the drain was forced.
    pub exit_code: u8,
    /// How many connections were admitted over the run.
    pub admitted: u64,
}

/// Drives a whole run of the server from the outside world's report:
/// whether the listener could be bound, and the events the I/O loop
/// observed, in order.
///
/// A failed bind is fatal before any accept loop starts: no event is
/// consumed, nothing is admitted, and the exit status is non-zero.
pub fn run_events(bind_ok: bool, events: &Vec<Event>) -> (r: RunReport)
    ensures
        !bind_ok ==> r == (RunReport { exited: true, exit_code: 1, admitted: 0 }),
        bind_ok ==> ({
            let m = m_run(init_model(), events@);
            &&& r.exited == (m.phase is Terminated)
            &&& r.exit_code as int == (if m.phase is Terminated {
                m_exit_code(m)
            } else {
                0
            })
            &&& r.admitted as int == admit_count(init_model(), events@)
        }),
{
    if !bind_ok {
        return RunReport { exited: true, exit_code: 1, admitted: 0 };
    }
    let mut c = Coordinator::new();
    let mut admitted: u64 = 0;
    let mut i: usize = 0;
    proof {
        assert(events@.skip(0) =~= events@);
    }
    while i < events.len()
        invariant
            c.wf(),
            0 <= i <= events@.len(),
            c.model().next_id as int <= i,
            admitted as int <= i,
            m_run(init_model(), events@) == m_run(c.model(), events@.skip(i as int)),
            admit_count(init_model(), events@) == admitted as int + admit_count(
                c.model(),
                events@.skip(i as int),
            ),
        decreases events@.len() - i,
    {
        let ghost rest = events@.skip(i as int);
        proof {
            assert(rest.len() > 0);
            assert(rest[0] == events@[i as int]);
            assert(rest.drop_first() =~= events@.skip(i as int + 1));
        }
        let a = c.step(events[i]);
        if matches!(a, Action::Admit(_)) {
            admitted = admitted + 1;
        }
        i += 1;
    }
    proof {
        assert(events@.skip(events@.len() as int) =~= Seq::<Event>::empty());
    }
    let exited = matches!(c.phase(), Phase::Terminated);
    let code = if exited {
        c.exit_code()
    } else {
        0
    };
    RunReport { exited, exit_code: code, admitted }
}

} // verus!
