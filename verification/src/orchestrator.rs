use vstd::prelude::*;
use crate::bitset::{decode_above, decoded_above, lemma_decoded_above, strictly_increasing};
use crate::error::SieveError;
use crate::config::{
    covered, lemma_planned, lemma_segment_bounds, offset_of, planned, total, valid, SieveConfig,
};
use crate::plan::{plan_partition, Plan};
use crate::kernel::{first_kept, is_base_prime_set, kernel_output, lemma_decoded_kernel_output};
use crate::primes::{
    is_prime, lemma_no_primes_below_two, lemma_primes_between, lemma_primes_between_empty,
    lemma_primes_between_split, primes_below, primes_between,
};

verus! {

/// Where a run stands.
#[derive(Clone, Copy, Debug, PartialEq, Eq, Structural)]
pub enum Phase {
    /// Nothing has been asked of the accelerator yet.
    Idle,
    /// The offset of the segment in progress is being written.
    PrepareOffset,
    /// The kernel is being invoked over the fixed geometry.
    Dispatch,
    /// The bitset is being copied out; the host waits for the device.
    AwaitCompletion,
    /// The bitset is being read from host-visible memory.
    Retrieve,
    /// Every segment's result is in the list.
    Done,
    /// A fatal error ended the run.
    Failed(SieveError),
}

/// What the outside reports to the orchestrator.
pub enum Event {
    Start,
    OffsetWritten,
    Dispatched,
    Completed,
    /// The words of the bitset that the kernel left for the segment.
    Retrieved(Vec<u32>),
    Failed(SieveError),
}

/// What the orchestrator asks of the outside next.
#[derive(Clone, Copy, Debug, PartialEq, Eq, Structural)]
pub enum Action {
    /// Nothing until the run is started.
    Idle,
    /// Write this base offset into the kernel's offset input.
    WriteOffset(u32),
    /// Invoke the kernel over this many dispatch groups.
    Dispatch(u32),
    /// Copy the bitset to host-visible memory and block until the device is
    /// done.
    AwaitCompletion,
    /// Map the host-visible memory, hand its words over, and release it.
    Retrieve,
    /// The run is complete.
    Finish,
    /// The run has failed for good.
    Abort(SieveError),
}

/// The orchestrator's state as plain values.
pub struct Model {
    pub phase: Phase,
    /// Segments whose results are in the list; while a run is under way, the
    /// index of the segment in progress.
    pub segment: nat,
    pub primes: Seq<u32>,
}

/// Candidates up to the floor are in the list already or are no primes: a
/// segment adds only what lies above the last entry, and nothing up to 1.
pub open spec fn floor_of(primes: Seq<u32>) -> int {
    if primes.len() == 0 || primes.last() < 1 {
        1
    } else {
        primes.last() as int
    }
}

/// The state before the run: the list holds the base primes.
pub open spec fn initial(config: SieveConfig) -> Model {
    Model { phase: Phase::Idle, segment: 0, primes: primes_between(0, config.base_bound as int) }
}

/// The state after the words of the segment in progress have come back. A
/// bitset of the wrong length fails the run. Otherwise the segment's
/// candidates above the floor join the list, and the next segment is
/// prepared, or the run is done after the last one.
pub open spec fn retrieve(config: SieveConfig, m: Model, words: Seq<u32>) -> Model {
    if words.len() != planned(config).bitset_words {
        Model { phase: Phase::Failed(SieveError::TransferFailure), ..m }
    } else {
        Model {
            phase: if m.segment + 1 < config.segment_count {
                Phase::PrepareOffset
            } else {
                Phase::Done
            },
            segment: m.segment + 1,
            primes: m.primes + decoded_above(
                offset_of(config, m.segment),
                words,
                floor_of(m.primes),
                config.segment_width as nat,
            ),
        }
    }
}

/// The transition function. A finished or failed run stays as it is. A
/// reported failure is fatal in every other phase. Each phase is left by the
/// one event that concludes it; any other event changes nothing.
pub open spec fn next(config: SieveConfig, m: Model, event: Event) -> Model {
    match m.phase {
        Phase::Done => m,
        Phase::Failed(_) => m,
        _ => match event {
            Event::Failed(e) => Model { phase: Phase::Failed(e), ..m },
            Event::Start => if m.phase is Idle {
                Model { phase: Phase::PrepareOffset, ..m }
            } else {
                m
            },
            Event::OffsetWritten => if m.phase is PrepareOffset {
                Model { phase: Phase::Dispatch, ..m }
            } else {
                m
            },
            Event::Dispatched => if m.phase is Dispatch {
                Model { phase: Phase::AwaitCompletion, ..m }
            } else {
                m
            },
            Event::Completed => if m.phase is AwaitCompletion {
                Model { phase: Phase::Retrieve, ..m }
            } else {
                m
            },
            Event::Retrieved(words) => if m.phase is Retrieve {
                retrieve(config, m, words@)
            } else {
                m
            },
        },
    }
}

/// What a state asks of the outside.
pub open spec fn pending(config: SieveConfig, m: Model) -> Action {
    match m.phase {
        Phase::Idle => Action::Idle,
        Phase::PrepareOffset => Action::WriteOffset(offset_of(config, m.segment) as u32),
        Phase::Dispatch => Action::Dispatch(planned(config).dispatch_groups),
        Phase::AwaitCompletion => Action::AwaitCompletion,
        Phase::Retrieve => Action::Retrieve,
        Phase::Done => Action::Finish,
        Phase::Failed(e) => Action::Abort(e),
    }
}

/// A segment is in progress.
pub open spec fn in_progress(phase: Phase) -> bool {
    phase is PrepareOffset || phase is Dispatch || phase is AwaitCompletion || phase is Retrieve
}

/// What holds of every state of a run: the count of segments taken in fits
/// the phase, and the list is strictly increasing, starts above 1 and stays
/// below the bound covered so far.
pub open spec fn inv(config: SieveConfig, m: Model) -> bool {
    &&& m.segment <= config.segment_count
    &&& m.phase is Idle ==> m == initial(config)
    &&& in_progress(m.phase) ==> m.segment < config.segment_count
    &&& m.phase is Done ==> m.segment == config.segment_count
    &&& strictly_increasing(m.primes)
    &&& forall|i: int| 0 <= i < m.primes.len() ==> 2 <= #[trigger] m.primes[i] < covered(
        config,
        m.segment,
    )
}

/// The state after a sequence of events, from the start.
pub open spec fn run(config: SieveConfig, events: Seq<Event>) -> Model
    decreases events.len(),
{
    if events.len() == 0 {
        initial(config)
    } else {
        next(config, run(config, events.drop_last()), events.last())
    }
}

/// The event hands over a bitset of the planned length.
pub open spec fn is_whole_bitset(config: SieveConfig, event: Event) -> bool {
    event matches Event::Retrieved(words) && words@.len() == planned(config).bitset_words
}

/// Bitsets taken into the list over a sequence of events, from the start.
pub open spec fn segments_taken(config: SieveConfig, events: Seq<Event>) -> nat
    decreases events.len(),
{
    if events.len() == 0 {
        0
    } else {
        let before = run(config, events.drop_last());
        let taken = segments_taken(config, events.drop_last());
        if before.phase is Retrieve && is_whole_bitset(config, events.last()) {
            taken + 1
        } else {
            taken
        }
    }
}

/// Taking a segment in keeps the list strictly increasing and within the
/// bound covered.
proof fn lemma_retrieve_keeps_inv(config: SieveConfig, m: Model, words: Seq<u32>)
    requires
        valid(config),
        inv(config, m),
        m.phase is Retrieve,
    ensures
        inv(config, retrieve(config, m, words)),
{
    if words.len() == planned(config).bitset_words {
        lemma_planned(config);
        lemma_segment_bounds(config, m.segment);
        let offset = offset_of(config, m.segment);
        let floor = floor_of(m.primes);
        let added = decoded_above(offset, words, floor, config.segment_width as nat);
        lemma_decoded_above(offset, words, floor, config.segment_width as nat);
        let after = m.primes + added;
        assert forall|i: int| 0 <= i < added.len() implies floor < #[trigger] added[i] < offset
            + config.segment_width by {
            assert(added.contains(added[i]));
        }
        assert forall|i: int, j: int| 0 <= i < j < after.len() implies after[i] < after[j] by {
            if j < m.primes.len() {
            } else if i < m.primes.len() {
                assert(m.primes[i] <= m.primes.last());
                assert(floor < added[j - m.primes.len()]);
            } else {
                assert(added[i - m.primes.len()] < added[j - m.primes.len()]);
            }
        }
        assert forall|i: int| 0 <= i < after.len() implies 2 <= #[trigger] after[i] < covered(
            config,
            m.segment + 1,
        ) by {
            if i >= m.primes.len() {
                assert(floor < added[i - m.primes.len()]);
            }
        }
    }
}

/// No event leads out of the invariant.
pub proof fn lemma_next_keeps_inv(config: SieveConfig, m: Model, event: Event)
    requires
        valid(config),
        inv(config, m),
    ensures
        inv(config, next(config, m, event)),
{
    if m.phase is Retrieve {
        if let Event::Retrieved(words) = event {
            lemma_retrieve_keeps_inv(config, m, words@);
        }
    }
    if m.phase is Idle {
        lemma_primes_between(0, config.base_bound as int);
    }
}

/// The run starts within the invariant.
pub proof fn lemma_initial_inv(config: SieveConfig)
    requires
        valid(config),
    ensures
        inv(config, initial(config)),
{
    lemma_primes_between(0, config.base_bound as int);
    let primes = primes_between(0, config.base_bound as int);
    assert forall|i: int| 0 <= i < primes.len() implies 2 <= #[trigger] primes[i] < covered(
        config,
        0,
    ) by {
        assert(primes.contains(primes[i]));
    }
}

/// Whatever the events, the assembled list is strictly increasing and holds
/// no value twice.
pub proof fn lemma_run_list_increasing(config: SieveConfig, events: Seq<Event>)
    requires
        valid(config),
    ensures
        inv(config, run(config, events)),
        strictly_increasing(run(config, events).primes),
        run(config, events).primes.no_duplicates(),
    decreases events.len(),
{
    if events.len() == 0 {
        lemma_initial_inv(config);
    } else {
        lemma_run_list_increasing(config, events.drop_last());
        lemma_next_keeps_inv(config, run(config, events.drop_last()), events.last());
    }
    crate::bitset::lemma_increasing_no_duplicates(run(config, events).primes);
}

/// Segments are taken in one at a time and in order: the count of segments in
/// the list is the count of bitsets taken in, the offset to prepare is that
/// of the segment after those, and a run is done exactly when every segment
/// is in.
pub proof fn lemma_segments_in_order(config: SieveConfig, events: Seq<Event>)
    requires
        valid(config),
    ensures
        run(config, events).segment == segments_taken(config, events),
        in_progress(run(config, events).phase) ==> segments_taken(config, events)
            < config.segment_count,
        run(config, events).phase is Done <==> segments_taken(config, events)
            == config.segment_count,
        run(config, events).phase is PrepareOffset ==> pending(config, run(config, events))
            == Action::WriteOffset(
            (segments_taken(config, events) * config.segment_width) as u32,
        ),
    decreases events.len(),
{
    if events.len() > 0 {
        let earlier = events.drop_last();
        lemma_segments_in_order(config, earlier);
        lemma_run_list_increasing(config, earlier);
        lemma_run_list_increasing(config, events);
    } else {
        lemma_initial_inv(config);
    }
}

/// The list holds exactly the primes below the bound covered so far.
pub open spec fn exact(config: SieveConfig, m: Model) -> bool {
    m.primes == primes_between(0, covered(config, m.segment))
}

/// When the kernel has kept its contract for the segment in progress, taking
/// the segment in leaves the list exact: every prime below the new bound,
/// each once, and no composite.
pub proof fn lemma_retrieve_keeps_exact(
    config: SieveConfig,
    m: Model,
    base: Seq<u32>,
    words: Seq<u32>,
)
    requires
        valid(config),
        inv(config, m),
        exact(config, m),
        m.phase is Retrieve,
        words.len() == planned(config).bitset_words,
        is_base_prime_set(base, config.base_bound as int),
        kernel_output(offset_of(config, m.segment), base, words, config.segment_width as int),
    ensures
        exact(config, retrieve(config, m, words)),
{
    lemma_planned(config);
    lemma_segment_bounds(config, m.segment);
    let offset = offset_of(config, m.segment);
    let width = config.segment_width as nat;
    let reach = covered(config, m.segment);
    let end = offset + width;
    let floor = floor_of(m.primes);
    let lo = first_kept(offset, floor);
    lemma_decoded_kernel_output(offset, base, words, floor, width, config.base_bound as int);
    lemma_primes_between(0, reach);
    assert(floor == 1 || floor < reach) by {
        if m.primes.len() > 0 {
            assert(m.primes.contains(m.primes.last()));
        }
    }
    assert forall|v: int| floor < v < reach implies !is_prime(v) by {
        if is_prime(v) {
            assert(m.primes.contains(v as u32));
            let i = choose|i: int| 0 <= i < m.primes.len() && m.primes[i] == v as u32;
            assert(m.primes[i] <= m.primes.last());
        }
    }
    let goal = primes_between(0, covered(config, m.segment + 1));
    if lo > reach {
        assert(floor == 1 && reach <= 1 && lo == 2);
        lemma_no_primes_below_two(0, reach);
        lemma_no_primes_below_two(0, 2);
        if end >= 2 {
            lemma_primes_between_split(0, 2, end);
        } else {
            lemma_no_primes_below_two(0, end);
            lemma_primes_between_empty(lo, end);
        }
        assert(m.primes + primes_between(lo, end) == goal);
    } else if end >= reach {
        lemma_primes_between_empty(lo, reach);
        lemma_primes_between_split(lo, reach, end);
        lemma_primes_between_split(0, reach, end);
        assert(m.primes + primes_between(lo, end) == goal);
    } else {
        lemma_primes_between_empty(lo, end);
        assert(m.primes + primes_between(lo, end) == goal);
    }
}

/// The words that an event hands over; none where it hands no bitset over.
pub open spec fn retrieved_words(event: Event) -> Seq<u32> {
    match event {
        Event::Retrieved(words) => words@,
        _ => Seq::empty(),
    }
}

/// Every bitset that the run took in was what the kernel's contract asks for
/// the segment then in progress, with `base` as the base prime set.
pub open spec fn kernel_kept_contract(
    config: SieveConfig,
    base: Seq<u32>,
    events: Seq<Event>,
) -> bool
    decreases events.len(),
{
    events.len() == 0 || {
        let before = run(config, events.drop_last());
        &&& kernel_kept_contract(config, base, events.drop_last())
        &&& before.phase is Retrieve && is_whole_bitset(config, events.last()) ==> kernel_output(
            offset_of(config, before.segment),
            base,
            retrieved_words(events.last()),
            config.segment_width as int,
        )
    }
}

/// A run in which the kernel kept its contract holds, at every moment,
/// exactly the primes below the bound covered so far, and when it is done,
/// exactly the primes below the end of the last segment (or below the base
/// primes' bound, where that lies beyond): every prime once, in increasing
/// order, and no composite.
pub proof fn lemma_faithful_run_is_exact(config: SieveConfig, base: Seq<u32>, events: Seq<Event>)
    requires
        valid(config),
        is_base_prime_set(base, config.base_bound as int),
        kernel_kept_contract(config, base, events),
    ensures
        exact(config, run(config, events)),
        run(config, events).phase is Done ==> run(config, events).primes == primes_between(
            0,
            covered(config, config.segment_count as nat),
        ),
        run(config, events).phase is Done && config.base_bound <= total(config) ==> run(
            config,
            events,
        ).primes == primes_between(0, total(config)),
    decreases events.len(),
{
    lemma_run_list_increasing(config, events);
    if events.len() > 0 {
        let earlier = events.drop_last();
        let before = run(config, earlier);
        lemma_faithful_run_is_exact(config, base, earlier);
        lemma_run_list_increasing(config, earlier);
        if before.phase is Retrieve && is_whole_bitset(config, events.last()) {
            lemma_retrieve_keeps_exact(config, before, base, retrieved_words(events.last()));
        }
    }
}

/// The host-side driver of the segmented sieve: a state machine that is told
/// what happened and says what to do next. It owns the result list, which
/// starts as the base primes and grows by one segment's candidates at a
/// time.
pub struct Orchestrator {
    config: SieveConfig,
    plan: Plan,
    phase: Phase,
    segment: u32,
    primes: Vec<u32>,
}

impl View for Orchestrator {
    type V = Model;

    closed spec fn view(&self) -> Model {
        Model { phase: self.phase, segment: self.segment as nat, primes: self.primes@ }
    }
}

impl Orchestrator {
    /// The dimensions of the run.
    pub closed spec fn dimensions(&self) -> SieveConfig {
        self.config
    }

    /// The geometry held for the run.
    pub closed spec fn geometry(&self) -> Plan {
        self.plan
    }

    /// The orchestrator holds a state of a run with valid dimensions.
    pub open spec fn wf(&self) -> bool {
        &&& valid(self.dimensions())
        &&& self.geometry() == planned(self.dimensions())
        &&& inv(self.dimensions(), self@)
    }

    /// Sets a run up: plans the geometry and generates the base primes.
    ///
    /// Fails when the dimensions are not valid.
    pub fn new(config: SieveConfig) -> (made: Result<Orchestrator, SieveError>)
        ensures
            made is Ok <==> valid(config),
            made matches Ok(o) ==> o.wf() && o.dimensions() == config && o@ == initial(config),
            made matches Err(e) ==> e == SieveError::Configuration,
    {
        if !config.is_valid() {
            return Err(SieveError::Configuration);
        }
        match plan_partition(config.segment_width, config.group_width, config.max_dispatch_groups) {
            Ok(plan) => {
                let primes = primes_below(config.base_bound);
                proof {
                    lemma_initial_inv(config);
                }
                Ok(Orchestrator { config, plan, phase: Phase::Idle, segment: 0, primes })
            },
            Err(e) => Err(e),
        }
    }

    /// Takes the segment's words in: appends its candidates above the floor
    /// and moves on to the next segment, or to the end.
    fn take_segment(&mut self, words: &Vec<u32>)
        requires
            old(self).wf(),
            old(self)@.phase is Retrieve,
            words@.len() == planned(old(self).dimensions()).bitset_words,
        ensures
            final(self).wf(),
            final(self).dimensions() == old(self).dimensions(),
            final(self)@ == retrieve(old(self).dimensions(), old(self)@, words@),
    {
        proof {
            lemma_planned(self.config);
            lemma_segment_bounds(self.config, self.segment as nat);
            lemma_retrieve_keeps_inv(self.config, self@, words@);
        }
        let offset: u32 = self.segment * self.config.segment_width;
        let floor: u32 = if self.primes.len() == 0 {
            1
        } else {
            let last = self.primes[self.primes.len() - 1];
            if last < 1 {
                1
            } else {
                last
            }
        };
        decode_above(&mut self.primes, offset, self.config.segment_width, words.as_slice(), floor);
        self.segment = self.segment + 1;
        self.phase = if self.segment < self.config.segment_count {
            Phase::PrepareOffset
        } else {
            Phase::Done
        };
    }

    /// What the current state asks of the outside.
    pub fn pending_action(&self) -> (action: Action)
        requires
            self.wf(),
        ensures
            action == pending(self.dimensions(), self@),
    {
        match self.phase {
            Phase::Idle => Action::Idle,
            Phase::PrepareOffset => {
                proof {
                    lemma_segment_bounds(self.config, self.segment as nat);
                }
                Action::WriteOffset(self.segment * self.config.segment_width)
            },
            Phase::Dispatch => Action::Dispatch(self.plan.dispatch_groups),
            Phase::AwaitCompletion => Action::AwaitCompletion,
            Phase::Retrieve => Action::Retrieve,
            Phase::Done => Action::Finish,
            Phase::Failed(e) => Action::Abort(e),
        }
    }

    /// Takes one event in and says what to do next.
    pub fn step(&mut self, event: Event) -> (action: Action)
        requires
            old(self).wf(),
        ensures
            final(self).wf(),
            final(self).dimensions() == old(self).dimensions(),
            final(self)@ == next(old(self).dimensions(), old(self)@, event),
            action == pending(final(self).dimensions(), final(self)@),
    {
        proof {
            lemma_next_keeps_inv(self.config, self@, event);
        }
        match self.phase {
            Phase::Done => {},
            Phase::Failed(_) => {},
            _ => match event {
                Event::Failed(e) => {
                    self.phase = Phase::Failed(e);
                },
                Event::Start => {
                    if let Phase::Idle = self.phase {
                        self.phase = Phase::PrepareOffset;
                    }
                },
                Event::OffsetWritten => {
                    if let Phase::PrepareOffset = self.phase {
                        self.phase = Phase::Dispatch;
                    }
                },
                Event::Dispatched => {
                    if let Phase::Dispatch = self.phase {
                        self.phase = Phase::AwaitCompletion;
                    }
                },
                Event::Completed => {
                    if let Phase::AwaitCompletion = self.phase {
                        self.phase = Phase::Retrieve;
                    }
                },
                Event::Retrieved(words) => {
                    if let Phase::Retrieve = self.phase {
                        if words.len() as u64 != self.plan.bitset_words as u64 {
                            self.phase = Phase::Failed(SieveError::TransferFailure);
                        } else {
                            self.take_segment(&words);
                        }
                    }
                },
            },
        }
        self.pending_action()
    }

    /// The dimensions of the run.
    pub fn config(&self) -> (config: SieveConfig)
        ensures
            config == self.dimensions(),
    {
        self.config
    }

    /// The dispatch geometry, the same for every segment.
    pub fn plan(&self) -> (plan: Plan)
        ensures
            plan == self.geometry(),
    {
        self.plan
    }

    /// Where the run stands.
    pub fn phase(&self) -> (phase: Phase)
        ensures
            phase == self@.phase,
    {
        self.phase
    }

    /// Segments whose results are in the list.
    pub fn segment(&self) -> (segment: u32)
        ensures
            segment == self@.segment,
    {
        self.segment
    }

    /// The list as it stands: the base primes, then each segment's
    /// candidates in the order of the segments.
    pub fn primes(&self) -> (primes: &Vec<u32>)
        ensures
            primes@ == self@.primes,
    {
        &self.primes
    }

    /// Gives the list up.
    pub fn into_primes(self) -> (primes: Vec<u32>)
        ensures
            primes@ == self@.primes,
    {
        self.primes
    }
}

} // verus!
