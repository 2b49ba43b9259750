//! The diagnostics settle schedule of the language server's writer: one
//! debounced re-lint of all open documents, numbered by a lint generation so
//! a superseded pass is dropped, and harvest cycles that re-read referenced
//! files, numbered so a batch from an aborted cycle is dropped.
//!
//! Times are milliseconds of a monotonic clock, documents and files are
//! identified by numbers, and input handles are numbers; the caller owns the
//! clock, the database and the threads, and hands in what it observed.

use vstd::prelude::*;

verus! {

/// How long an in-flight harvest cycle may go without progress before its
/// batch is taken as lost, in milliseconds.
pub const HARVEST_CYCLE_TIMEOUT_MS: u64 = 30000;

/// `x` occurs in `s`.
pub open spec fn seq_has(s: Seq<u64>, x: u64) -> bool {
    exists|i: int| 0 <= i < s.len() && s[i] == x
}

/// No element of `s` occurs twice.
pub open spec fn distinct(s: Seq<u64>) -> bool {
    forall|i: int, j: int| 0 <= i < j < s.len() ==> s[i] != s[j]
}

/// `s` with `x` added at the end unless it is already there.
pub open spec fn set_insert(s: Seq<u64>, x: u64) -> Seq<u64> {
    if seq_has(s, x) {
        s
    } else {
        s.push(x)
    }
}

/// The handle stamped for `path` in `requested`, if any.
pub open spec fn stamp_of(requested: Seq<(u64, u64)>, path: u64) -> Option<u64>
    decreases requested.len(),
{
    if requested.len() == 0 {
        None
    } else if requested.last().0 == path {
        Some(requested.last().1)
    } else {
        stamp_of(requested.drop_last(), path)
    }
}

/// The test for a stamp of another file than `path`.
pub open spec fn other_path(path: u64) -> spec_fn((u64, u64)) -> bool {
    |e: (u64, u64)| e.0 != path
}

/// The test for a value that `ran` does not hold.
pub open spec fn not_in(ran: Seq<u64>) -> spec_fn(u64) -> bool {
    |u: u64| !seq_has(ran, u)
}

/// `requested` with `path` stamped `handle` (replacing its earlier stamp).
pub open spec fn stamp(requested: Seq<(u64, u64)>, path: u64, handle: u64) -> Seq<(u64, u64)> {
    requested.filter(other_path(path)).push((path, handle))
}

/// The state of a harvest cycle.
pub struct CycleView {
    pub id: u64,
    pub requested: Seq<(u64, u64)>,
    pub shield: Seq<u64>,
    pub last_progress: u64,
}

/// The state of the settle schedule.
pub struct SettleView {
    pub deadline: Option<u64>,
    pub generation: u64,
    pub applied: u64,
    pub pending: Seq<u64>,
    pub cycle: Option<CycleView>,
    pub counter: u64,
}

/// One in-flight harvest cycle.
pub struct HarvestCycle {
    id: u64,
    requested: Vec<(u64, u64)>,
    shield: Vec<u64>,
    last_progress: u64,
}

/// The settle schedule of the writer.
pub struct SettleState {
    settle_deadline: Option<u64>,
    lint_generation: u64,
    last_applied_lint_generation: u64,
    external_pending: Vec<u64>,
    harvest_cycle: Option<HarvestCycle>,
    harvest_cycle_counter: u64,
}

impl HarvestCycle {
    pub closed spec fn view_cycle(&self) -> CycleView {
        CycleView {
            id: self.id,
            requested: self.requested@,
            shield: self.shield@,
            last_progress: self.last_progress,
        }
    }
}

impl View for SettleState {
    type V = SettleView;

    closed spec fn view(&self) -> SettleView {
        SettleView {
            deadline: self.settle_deadline,
            generation: self.lint_generation,
            applied: self.last_applied_lint_generation,
            pending: self.external_pending@,
            cycle: match self.harvest_cycle {
                Some(c) => Some(c.view_cycle()),
                None => None,
            },
            counter: self.harvest_cycle_counter,
        }
    }
}

/// The invariant of the schedule: the pending externals and a cycle's
/// shield hold no duplicates, and a cycle's id was issued by the counter.
pub open spec fn settle_inv(v: SettleView) -> bool {
    &&& distinct(v.pending)
    &&& v.cycle matches Some(c) ==> distinct(c.shield) && c.id <= v.counter
}

/// The schedule after a settle pass is dispatched: the cycle ends, the
/// deadline clears and the generation advances.
pub open spec fn after_complete(v: SettleView) -> SettleView {
    SettleView { cycle: None, deadline: None, generation: (v.generation + 1) as u64, ..v }
}

/// Whether a pass result of `generation` is current for `v`.
pub open spec fn result_is_current(v: SettleView, generation: u64) -> bool {
    generation == v.generation
}

/// The schedule after applying a pass result: a current one records its
/// generation and retires the externals it ran; a stale one changes
/// nothing.
pub open spec fn after_result(v: SettleView, generation: u64, ran: Seq<u64>) -> SettleView {
    if result_is_current(v, generation) {
        SettleView {
            applied: generation,
            pending: v.pending.filter(not_in(ran)),
            ..v
        }
    } else {
        v
    }
}

/// What the writer does after waking with no message.
#[derive(Debug, Clone, Copy, PartialEq, Eq, Structural)]
pub enum WakeAction {
    /// Nothing to do now.
    Wait,
    /// The cycle's batch is taken as lost: reload referenced files directly
    /// and dispatch the settle.
    SettleSynchronously,
    /// A settle is due: run the first discovery round of this new cycle.
    BeginCycle(u64),
}

/// The earlier of two optional times.
pub open spec fn earliest(a: Option<u64>, b: Option<u64>) -> Option<u64> {
    match (a, b) {
        (Some(x), Some(y)) => Some(if x <= y { x } else { y }),
        (Some(x), None) => Some(x),
        (None, y) => y,
    }
}

/// The action taken on waking at `now` (see [`SettleState::on_wakeup`]).
pub open spec fn wakeup_action(v: SettleView, now: u64) -> WakeAction {
    match v.cycle {
        Some(c) => if now < c.last_progress + HARVEST_CYCLE_TIMEOUT_MS {
            WakeAction::Wait
        } else {
            WakeAction::SettleSynchronously
        },
        None => if v.deadline matches Some(d) && d <= now {
            WakeAction::BeginCycle((v.counter + 1) as u64)
        } else {
            WakeAction::Wait
        },
    }
}

/// The schedule after waking at `now` (see [`SettleState::on_wakeup`]).
pub open spec fn wakeup_state(v: SettleView, now: u64) -> SettleView {
    match v.cycle {
        Some(c) => {
            let expiry = (c.last_progress + HARVEST_CYCLE_TIMEOUT_MS) as u64;
            if now < expiry {
                SettleView {
                    deadline: if v.deadline is Some {
                        Some(expiry)
                    } else {
                        None
                    },
                    ..v
                }
            } else {
                SettleView { cycle: None, ..v }
            }
        },
        None => if v.deadline matches Some(d) && d <= now {
            SettleView {
                deadline: None,
                counter: (v.counter + 1) as u64,
                cycle: Some(
                    CycleView {
                        id: (v.counter + 1) as u64,
                        requested: Seq::empty(),
                        shield: Seq::empty(),
                        last_progress: now,
                    },
                ),
                ..v
            }
        } else {
            v
        },
    }
}

/// Whether a harvest batch for cycle `id` belongs to the in-flight cycle.
pub open spec fn batch_is_current(v: SettleView, id: u64) -> bool {
    v.cycle matches Some(c) && c.id == id
}

fn contains_u64(s: &Vec<u64>, x: u64) -> (b: bool)
    ensures
        b == seq_has(s@, x),
{
    let mut i: usize = 0;
    while i < s.len()
        invariant
            i <= s@.len(),
            forall|j: int| 0 <= j < i ==> s@[j] != x,
        decreases s.len() - i,
    {
        if s[i] == x {
            return true;
        }
        i = i + 1;
    }
    false
}

fn insert_u64(s: &mut Vec<u64>, x: u64)
    requires
        distinct(old(s)@),
    ensures
        final(s)@ == set_insert(old(s)@, x),
        distinct(final(s)@),
{
    if !contains_u64(s, x) {
        s.push(x);
        assert forall|i: int, j: int| 0 <= i < j < s@.len() implies s@[i] != s@[j] by {
            if j == s@.len() - 1 {
                assert(s@[j] == x);
                assert(!seq_has(old(s)@, x));
                assert(s@[i] == old(s)@[i]);
            } else {
                assert(s@[i] == old(s)@[i] && s@[j] == old(s)@[j]);
            }
        }
    }
}

proof fn lemma_filter_distinct(s: Seq<u64>, ran: Seq<u64>)
    requires
        distinct(s),
    ensures
        distinct(s.filter(not_in(ran))),
    decreases s.len(),
{
    let f = not_in(ran);
    reveal(Seq::filter);
    if s.len() > 0 {
        let p = s.drop_last();
        assert(distinct(p)) by {
            assert forall|i: int, j: int| 0 <= i < j < p.len() implies p[i] != p[j] by {
                assert(p[i] == s[i] && p[j] == s[j]);
            }
        }
        lemma_filter_distinct(p, ran);
        let fp = p.filter(f);
        if f(s.last()) {
            assert(s.filter(f) == fp.push(s.last()));
            assert(!fp.contains(s.last())) by {
                if fp.contains(s.last()) {
                    p.lemma_filter_contains_rev(f, s.last());
                    let k = choose|k: int| 0 <= k < p.len() && p[k] == s.last();
                    assert(s[k] == s[s.len() - 1]);
                }
            }
            let q = fp.push(s.last());
            assert forall|i: int, j: int| 0 <= i < j < q.len() implies q[i] != q[j] by {
                if j == q.len() - 1 {
                    assert(q[i] == fp[i]);
                    assert(fp.contains(fp[i]));
                } else {
                    assert(q[i] == fp[i] && q[j] == fp[j]);
                }
            }
        } else {
            assert(s.filter(f) == fp);
        }
    }
}

impl SettleState {
    #[verifier::type_invariant]
    spec fn inv(self) -> bool {
        settle_inv(self@)
    }

    /// A fresh schedule: nothing armed, generation 0, no cycle.
    pub fn new() -> (s: Self)
        ensures
            s@.deadline is None,
            s@.generation == 0,
            s@.applied == 0,
            s@.pending.len() == 0,
            s@.cycle is None,
            s@.counter == 0,
    {
        SettleState {
            settle_deadline: None,
            lint_generation: 0,
            last_applied_lint_generation: 0,
            external_pending: Vec::new(),
            harvest_cycle: None,
            harvest_cycle_counter: 0,
        }
    }

    /// Start a harvest cycle at time `now` with a fresh id, one more than
    /// the last issued, and return the id.
    pub fn begin_harvest_cycle(&mut self, now: u64) -> (id: u64)
        requires
            old(self)@.counter < u64::MAX,
        ensures
            id == old(self)@.counter + 1,
            final(self)@ == (SettleView {
                counter: id,
                cycle: Some(
                    CycleView {
                        id,
                        requested: Seq::empty(),
                        shield: Seq::empty(),
                        last_progress: now,
                    },
                ),
                ..old(self)@
            }),
    {
        proof {
            use_type_invariant(&*self);
        }
        self.harvest_cycle_counter = self.harvest_cycle_counter + 1;
        let id = self.harvest_cycle_counter;
        self.harvest_cycle = Some(
            HarvestCycle { id, requested: Vec::new(), shield: Vec::new(), last_progress: now },
        );
        id
    }

    /// End the in-flight harvest cycle, if any.
    pub fn end_harvest_cycle(&mut self)
        ensures
            final(self)@ == (SettleView { cycle: None, ..old(self)@ }),
    {
        proof {
            use_type_invariant(&*self);
        }
        self.harvest_cycle = None;
    }

    /// When the in-flight cycle's batch counts as lost: its last progress
    /// plus [`HARVEST_CYCLE_TIMEOUT_MS`]; none without a cycle.
    pub fn harvest_expiry(&self) -> (r: Option<u64>)
        requires
            self@.cycle matches Some(c) ==> c.last_progress + HARVEST_CYCLE_TIMEOUT_MS <= u64::MAX,
        ensures
            r == match self@.cycle {
                Some(c) => Some((c.last_progress + HARVEST_CYCLE_TIMEOUT_MS) as u64),
                None => None::<u64>,
            },
    {
        match &self.harvest_cycle {
            Some(c) => Some(c.last_progress + HARVEST_CYCLE_TIMEOUT_MS),
            None => None,
        }
    }

    /// Record that `path` was synced from disk during the cycle, so the
    /// cycle's in-flight batch must not overwrite it. Nothing without a
    /// cycle.
    pub fn shield_from_harvest(&mut self, path: u64)
        ensures
            final(self)@ == match old(self)@.cycle {
                Some(c) => SettleView {
                    cycle: Some(CycleView { shield: set_insert(c.shield, path), ..c }),
                    ..old(self)@
                },
                None => old(self)@,
            },
    {
        proof {
            use_type_invariant(&*self);
        }
        let mut taken: Option<HarvestCycle> = None;
        std::mem::swap(&mut taken, &mut self.harvest_cycle);
        match taken {
            Some(mut c) => {
                insert_u64(&mut c.shield, path);
                self.harvest_cycle = Some(c);
            },
            None => {},
        }
    }

    /// Arm (or push out) the settle timer to `now + debounce`.
    pub fn arm_settle(&mut self, now: u64, debounce: u64)
        requires
            now + debounce <= u64::MAX,
        ensures
            final(self)@ == (SettleView { deadline: Some((now + debounce) as u64), ..old(self)@ }),
    {
        proof {
            use_type_invariant(&*self);
        }
        self.settle_deadline = Some(now + debounce);
    }

    /// Arm the settle timer and mark `uri` as needing external linters on
    /// the next pass.
    pub fn arm_settle_external(&mut self, uri: u64, now: u64, debounce: u64)
        requires
            now + debounce <= u64::MAX,
        ensures
            final(self)@ == (SettleView {
                deadline: Some((now + debounce) as u64),
                pending: set_insert(old(self)@.pending, uri),
                ..old(self)@
            }),
    {
        proof {
            use_type_invariant(&*self);
        }
        let mut pending = Vec::new();
        std::mem::swap(&mut pending, &mut self.external_pending);
        insert_u64(&mut pending, uri);
        self.external_pending = pending;
        self.settle_deadline = Some(now + debounce);
    }

    /// The armed settle deadline.
    pub fn settle_deadline(&self) -> (r: Option<u64>)
        ensures
            r == self@.deadline,
    {
        self.settle_deadline
    }

    /// Pull an armed deadline up to `now`.
    pub fn expedite_settle(&mut self, now: u64)
        ensures
            final(self)@ == (SettleView {
                deadline: if old(self)@.deadline is Some {
                    Some(now)
                } else {
                    None
                },
                ..old(self)@
            }),
    {
        proof {
            use_type_invariant(&*self);
        }
        if self.settle_deadline.is_some() {
            self.settle_deadline = Some(now);
        }
    }

    /// Whether a dispatched pass has not yet landed.
    pub fn settle_in_flight(&self) -> (b: bool)
        ensures
            b == (self@.applied != self@.generation),
    {
        self.last_applied_lint_generation != self.lint_generation
    }

    /// Push an armed deadline out to `deadline`.
    pub fn defer_settle_until(&mut self, deadline: u64)
        ensures
            final(self)@ == (SettleView {
                deadline: if old(self)@.deadline is Some {
                    Some(deadline)
                } else {
                    None
                },
                ..old(self)@
            }),
    {
        proof {
            use_type_invariant(&*self);
        }
        if self.settle_deadline.is_some() {
            self.settle_deadline = Some(deadline);
        }
    }

    /// Whether a settle is due at `now`; a due deadline is cleared.
    pub fn take_due_settle(&mut self, now: u64) -> (due: bool)
        ensures
            due == (old(self)@.deadline matches Some(d) && d <= now),
            due ==> final(self)@ == (SettleView { deadline: None, ..old(self)@ }),
            !due ==> final(self)@ == old(self)@,
    {
        proof {
            use_type_invariant(&*self);
        }
        let deadline = match self.settle_deadline {
            Some(d) => d,
            None => {
                return false;
            },
        };
        if deadline > now {
            return false;
        }
        self.settle_deadline = None;
        true
    }

    /// Dispatch a settle pass: end the cycle, clear the deadline, advance
    /// the generation, and return the new generation with the externals
    /// it must run.
    pub fn complete_settle(&mut self) -> (r: (u64, Vec<u64>))
        requires
            old(self)@.generation < u64::MAX,
        ensures
            final(self)@ == after_complete(old(self)@),
            r.0 == final(self)@.generation,
            r.1@ == old(self)@.pending,
    {
        proof {
            use_type_invariant(&*self);
        }
        self.harvest_cycle = None;
        self.settle_deadline = None;
        self.lint_generation = self.lint_generation + 1;
        let mut external: Vec<u64> = Vec::new();
        let mut i: usize = 0;
        while i < self.external_pending.len()
            invariant
                i <= self.external_pending@.len(),
                external@ == self.external_pending@.take(i as int),
            decreases self.external_pending.len() - i,
        {
            external.push(self.external_pending[i]);
            i = i + 1;
            assert(external@ =~= self.external_pending@.take(i as int));
        }
        assert(self.external_pending@.take(i as int) =~= self.external_pending@);
        (self.lint_generation, external)
    }

    /// One discovery round of the cycle: of the referenced files
    /// (each with its current input handle in `handles`, none when it is
    /// not cached), the ones to read now: not open in the editor, cached,
    /// and not already requested with the same handle this cycle; each is
    /// stamped with its handle. Nothing without a cycle.
    pub fn harvest_round(&mut self, referenced: &Vec<u64>, handles: &Vec<Option<u64>>, open: &Vec<u64>) -> (round: Vec<u64>)
        requires
            referenced@.len() == handles@.len(),
        ensures
            old(self)@.cycle is None ==> round@.len() == 0 && final(self)@ == old(self)@,
            old(self)@.cycle matches Some(c) ==> round@ == round_spec(c.requested, referenced@, handles@, open@, referenced@.len() as int).0,
            old(self)@.cycle matches Some(c) ==> final(self)@ == (SettleView {
                cycle: Some(
                    CycleView {
                        requested: round_spec(
                            c.requested,
                            referenced@,
                            handles@,
                            open@,
                            referenced@.len() as int,
                        ).1,
                        ..c
                    },
                ),
                ..old(self)@
            }),
    {
        proof {
            use_type_invariant(&*self);
        }
        let mut taken: Option<HarvestCycle> = None;
        std::mem::swap(&mut taken, &mut self.harvest_cycle);
        let mut cycle = match taken {
            Some(c) => c,
            None => {
                return Vec::new();
            },
        };
        let round = cycle.discover(referenced, handles, open);
        self.harvest_cycle = Some(cycle);
        round
    }

    /// Apply one harvested batch for cycle `cycle_id` at time `now`. A batch
    /// of another cycle (or without a cycle) is rejected: `None`, nothing
    /// changes. Otherwise the cycle's progress time becomes `now` and the
    /// result lists, in order, the batch entries to write: those whose
    /// current input handle (`handles`) still equals the handle stamped at
    /// request time, that are not open in the editor nor shielded, and
    /// whose read succeeded (`readable`).
    pub fn apply_harvest(
        &mut self,
        cycle_id: u64,
        now: u64,
        paths: &Vec<u64>,
        handles: &Vec<Option<u64>>,
        readable: &Vec<bool>,
        open: &Vec<u64>,
    ) -> (r: Option<Vec<usize>>)
        requires
            paths@.len() == handles@.len(),
            paths@.len() == readable@.len(),
        ensures
            !batch_is_current(old(self)@, cycle_id) ==> r is None && final(self)@ == old(self)@,
            batch_is_current(old(self)@, cycle_id) ==> {
                let c = old(self)@.cycle->0;
                &&& r matches Some(v) && v@ == kept_entries(
                    c,
                    paths@,
                    handles@,
                    readable@,
                    open@,
                    paths@.len() as int,
                )
                &&& final(self)@ == (SettleView {
                    cycle: Some(CycleView { last_progress: now, ..c }),
                    ..old(self)@
                })
            },
    {
        proof {
            use_type_invariant(&*self);
        }
        let mut taken: Option<HarvestCycle> = None;
        std::mem::swap(&mut taken, &mut self.harvest_cycle);
        let mut cycle = match taken {
            Some(c) => c,
            None => {
                return None;
            },
        };
        if cycle.id != cycle_id {
            self.harvest_cycle = Some(cycle);
            return None;
        }
        let keep = cycle.kept(paths, handles, readable, open);
        cycle.last_progress = now;
        self.harvest_cycle = Some(cycle);
        Some(keep)
    }

    /// The time the writer must wake by, with no message: the earlier of the
    /// armed settle deadline and the in-flight cycle's expiry; none when
    /// neither is set.
    pub fn next_wakeup(&self) -> (r: Option<u64>)
        requires
            self@.cycle matches Some(c) ==> c.last_progress + HARVEST_CYCLE_TIMEOUT_MS <= u64::MAX,
        ensures
            r == earliest(
                self@.deadline,
                match self@.cycle {
                    Some(c) => Some((c.last_progress + HARVEST_CYCLE_TIMEOUT_MS) as u64),
                    None => None::<u64>,
                },
            ),
    {
        let expiry = self.harvest_expiry();
        match (self.settle_deadline, expiry) {
            (Some(d), Some(e)) => if d <= e {
                Some(d)
            } else {
                Some(e)
            },
            (Some(d), None) => Some(d),
            (None, e) => e,
        }
    }

    /// The writer woke at `now` with no message. With a cycle in flight: a
    /// deadline is deferred to the cycle's expiry while it has not passed
    /// (`Wait`); past it the cycle ends and the settle must be served
    /// synchronously. Without a cycle: a due deadline is taken and a new
    /// cycle begins (`BeginCycle` with its id); otherwise nothing happens.
    pub fn on_wakeup(&mut self, now: u64) -> (act: WakeAction)
        requires
            old(self)@.cycle matches Some(c) ==> c.last_progress + HARVEST_CYCLE_TIMEOUT_MS <= u64::MAX,
            old(self)@.counter < u64::MAX,
        ensures
            final(self)@ == wakeup_state(old(self)@, now),
            act == wakeup_action(old(self)@, now),
    {
        match self.harvest_expiry() {
            Some(expiry) => {
                if now < expiry {
                    self.defer_settle_until(expiry);
                    WakeAction::Wait
                } else {
                    self.end_harvest_cycle();
                    WakeAction::SettleSynchronously
                }
            },
            None => {
                if !self.take_due_settle(now) {
                    return WakeAction::Wait;
                }
                let id = self.begin_harvest_cycle(now);
                WakeAction::BeginCycle(id)
            },
        }
    }

    /// Apply the result of the pass of `generation`, which ran external
    /// linters for `ran`. A stale result (a newer pass was dispatched) is
    /// dropped wholesale and `false` returned; a current one is recorded as
    /// landed and retires exactly the externals it ran.
    pub fn apply_settle_result(&mut self, generation: u64, ran: &Vec<u64>) -> (applied: bool)
        ensures
            applied == result_is_current(old(self)@, generation),
            final(self)@ == after_result(old(self)@, generation, ran@),
    {
        proof {
            use_type_invariant(&*self);
        }
        if generation != self.lint_generation {
            return false;
        }
        self.last_applied_lint_generation = generation;
        let mut kept: Vec<u64> = Vec::new();
        let mut i: usize = 0;
        let ghost f = not_in(ran@);
        proof {
            assert(self.external_pending@.take(0) =~= Seq::<u64>::empty());
            reveal(Seq::filter);
            assert(Seq::<u64>::empty().filter(f) =~= Seq::<u64>::empty());
            lemma_filter_distinct(self.external_pending@, ran@);
        }
        while i < self.external_pending.len()
            invariant
                i <= self.external_pending@.len(),
                kept@ == self.external_pending@.take(i as int).filter(f),
                f == not_in(ran@),
            decreases self.external_pending.len() - i,
        {
            let u = self.external_pending[i];
            proof {
                reveal(Seq::filter);
                assert(self.external_pending@.take(i + 1).drop_last() =~= self.external_pending@.take(
                    i as int,
                ));
            }
            if !contains_u64(ran, u) {
                kept.push(u);
            }
            i = i + 1;
        }
        assert(self.external_pending@.take(i as int) =~= self.external_pending@);
        self.external_pending = kept;
        true
    }
}

impl HarvestCycle {
    /// The discovery round of this cycle over `referenced` (see
    /// [`SettleState::harvest_round`]).
    fn discover(&mut self, referenced: &Vec<u64>, handles: &Vec<Option<u64>>, open: &Vec<u64>) -> (round: Vec<u64>)
        requires
            referenced@.len() == handles@.len(),
        ensures
            (round@, final(self).requested@) == round_spec(
                old(self).requested@,
                referenced@,
                handles@,
                open@,
                referenced@.len() as int,
            ),
            final(self).id == old(self).id,
            final(self).shield@ == old(self).shield@,
            final(self).last_progress == old(self).last_progress,
    {
        let ghost c0 = self.requested@;
        let mut round: Vec<u64> = Vec::new();
        let mut i: usize = 0;
        while i < referenced.len()
            invariant
                i <= referenced@.len() == handles@.len(),
                (round@, self.requested@) == round_spec(c0, referenced@, handles@, open@, i as int),
                self.id == old(self).id,
                self.shield@ == old(self).shield@,
                self.last_progress == old(self).last_progress,
            decreases referenced.len() - i,
        {
            let path = referenced[i];
            if !contains_u64(open, path) {
                match handles[i] {
                    Some(h) => {
                        let old_stamp = upsert_stamp(&mut self.requested, path, h);
                        if old_stamp != Some(h) {
                            round.push(path);
                        }
                    },
                    None => {},
                }
            }
            i = i + 1;
        }
        round
    }

    /// The entries of a harvested batch to write (see
    /// [`SettleState::apply_harvest`]).
    fn kept(
        &self,
        paths: &Vec<u64>,
        handles: &Vec<Option<u64>>,
        readable: &Vec<bool>,
        open: &Vec<u64>,
    ) -> (keep: Vec<usize>)
        requires
            paths@.len() == handles@.len(),
            paths@.len() == readable@.len(),
        ensures
            keep@ == kept_entries(self.view_cycle(), paths@, handles@, readable@, open@, paths@.len() as int),
    {
        let mut keep: Vec<usize> = Vec::new();
        let mut i: usize = 0;
        while i < paths.len()
            invariant
                i <= paths@.len() == handles@.len() == readable@.len(),
                keep@ == kept_entries(self.view_cycle(), paths@, handles@, readable@, open@, i as int),
            decreases paths.len() - i,
        {
            let path = paths[i];
            let stamped = find_stamp(&self.requested, path);
            if stamped == handles[i] && !contains_u64(open, path) && !contains_u64(&self.shield, path)
                && readable[i] {
                keep.push(i);
            }
            i = i + 1;
        }
        keep
    }
}

/// The stamp `path` has in `requested`, found by a scan.
fn find_stamp(requested: &Vec<(u64, u64)>, path: u64) -> (r: Option<u64>)
    ensures
        r == stamp_of(requested@, path),
{
    let mut i = requested.len();
    assert(requested@.take(i as int) =~= requested@);
    while i > 0
        invariant
            i <= requested@.len(),
            stamp_of(requested@, path) == stamp_of(requested@.take(i as int), path),
        decreases i,
    {
        let (p, h) = requested[i - 1];
        assert(requested@.take(i as int).drop_last() =~= requested@.take(i - 1));
        if p == path {
            return Some(h);
        }
        i = i - 1;
    }
    None
}

/// Stamp `path` with `handle`, returning its previous stamp.
fn upsert_stamp(requested: &mut Vec<(u64, u64)>, path: u64, handle: u64) -> (prev: Option<u64>)
    ensures
        prev == stamp_of(old(requested)@, path),
        final(requested)@ == stamp(old(requested)@, path, handle),
{
    let prev = find_stamp(requested, path);
    let mut out: Vec<(u64, u64)> = Vec::new();
    let mut i: usize = 0;
    let ghost f = other_path(path);
    proof {
        reveal(Seq::filter);
        assert(requested@.take(0) =~= Seq::<(u64, u64)>::empty());
        assert(Seq::<(u64, u64)>::empty().filter(f) =~= Seq::<(u64, u64)>::empty());
    }
    while i < requested.len()
        invariant
            i <= requested@.len(),
            out@ == requested@.take(i as int).filter(f),
            f == other_path(path),
        decreases requested.len() - i,
    {
        let e = requested[i];
        proof {
            reveal(Seq::filter);
            assert(requested@.take(i + 1).drop_last() =~= requested@.take(i as int));
        }
        if e.0 != path {
            out.push(e);
        }
        i = i + 1;
    }
    assert(requested@.take(i as int) =~= requested@);
    out.push((path, handle));
    *requested = out;
    prev
}

/// One discovery round over the first `hi` referenced files: the files to
/// read and the stamps afterwards.
pub open spec fn round_spec(
    requested: Seq<(u64, u64)>,
    referenced: Seq<u64>,
    handles: Seq<Option<u64>>,
    open: Seq<u64>,
    hi: int,
) -> (Seq<u64>, Seq<(u64, u64)>)
    decreases hi,
{
    if hi <= 0 {
        (seq![], requested)
    } else {
        let (round, req) = round_spec(requested, referenced, handles, open, hi - 1);
        let path = referenced[hi - 1];
        if seq_has(open, path) {
            (round, req)
        } else {
            match handles[hi - 1] {
                Some(h) => (
                    if stamp_of(req, path) != Some(h) {
                        round.push(path)
                    } else {
                        round
                    },
                    stamp(req, path, h),
                ),
                None => (round, req),
            }
        }
    }
}

/// The indices, among the first `hi` entries of a batch, of those to write
/// (see [`SettleState::apply_harvest`]).
pub open spec fn kept_entries(
    c: CycleView,
    paths: Seq<u64>,
    handles: Seq<Option<u64>>,
    readable: Seq<bool>,
    open: Seq<u64>,
    hi: int,
) -> Seq<usize>
    decreases hi,
{
    if hi <= 0 {
        seq![]
    } else {
        let k = kept_entries(c, paths, handles, readable, open, hi - 1);
        let path = paths[hi - 1];
        if stamp_of(c.requested, path) == handles[hi - 1] && !seq_has(open, path) && !seq_has(c.shield, path)
            && readable[hi - 1] {
            k.push((hi - 1) as usize)
        } else {
            k
        }
    }
}

/// A dispatched pass's result is accepted when no newer pass was
/// dispatched before it lands: completing a settle and then applying the
/// result of the generation it returned succeeds, records that generation
/// as landed, and leaves nothing in flight.
pub proof fn lemma_fresh_result_applies(v: SettleView, ran: Seq<u64>)
    requires
        v.generation < u64::MAX,
    ensures
        result_is_current(after_complete(v), after_complete(v).generation),
        after_result(after_complete(v), after_complete(v).generation, ran).applied == after_complete(
            v,
        ).generation,
        after_result(after_complete(v), after_complete(v).generation, ran).applied
            == after_result(after_complete(v), after_complete(v).generation, ran).generation,
{
}

/// A superseded pass is dropped wholesale: once a second settle has been
/// dispatched, the first one's result changes nothing.
pub proof fn lemma_superseded_result_is_dropped(v: SettleView, ran: Seq<u64>)
    requires
        v.generation + 1 < u64::MAX,
    ensures
        !result_is_current(after_complete(after_complete(v)), after_complete(v).generation),
        after_result(after_complete(after_complete(v)), after_complete(v).generation, ran)
            == after_complete(after_complete(v)),
{
}

/// Externals that a pass did not run stay pending: a save queued after a
/// pass was dispatched survives that pass's result.
pub proof fn lemma_unran_external_stays_pending(v: SettleView, generation: u64, ran: Seq<u64>, uri: u64)
    requires
        seq_has(v.pending, uri),
        !seq_has(ran, uri),
    ensures
        seq_has(after_result(v, generation, ran).pending, uri),
{
    if result_is_current(v, generation) {
        let f = not_in(ran);
        let k = choose|k: int| 0 <= k < v.pending.len() && v.pending[k] == uri;
        assert(v.pending.contains(uri));
        v.pending.lemma_filter_contains(f, k);
        let fp = v.pending.filter(f);
        assert(fp.contains(uri));
    }
}

/// A batch from a cycle other than the in-flight one is rejected: after a
/// new cycle begins, batches of every id issued before it are stale.
pub proof fn lemma_old_cycle_batch_is_stale(v: SettleView, now: u64, old_id: u64)
    requires
        v.counter < u64::MAX,
        old_id <= v.counter,
    ensures
        !batch_is_current(
            SettleView {
                counter: (v.counter + 1) as u64,
                cycle: Some(
                    CycleView {
                        id: (v.counter + 1) as u64,
                        requested: Seq::empty(),
                        shield: Seq::empty(),
                        last_progress: now,
                    },
                ),
                ..v
            },
            old_id,
        ),
{
}

/// An idle writer still recovers a lost batch: while a cycle is in flight
/// the writer never waits past the cycle's expiry, and waking at or after
/// the expiry ends the cycle and serves the settle synchronously.
pub proof fn lemma_cycle_expiry_bounds_the_wait(v: SettleView, now: u64)
    requires
        v.cycle matches Some(c) && c.last_progress + HARVEST_CYCLE_TIMEOUT_MS <= u64::MAX,
    ensures
        ({
            let expiry = (v.cycle->0.last_progress + HARVEST_CYCLE_TIMEOUT_MS) as u64;
            &&& earliest(v.deadline, Some(expiry)) matches Some(t) && t <= expiry
            &&& now >= expiry ==> wakeup_action(v, now) == WakeAction::SettleSynchronously
                && wakeup_state(v, now).cycle is None
        }),
{
}

} // verus!
