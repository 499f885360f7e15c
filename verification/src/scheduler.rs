//! The crawl scheduler as a state machine.
//!
//! A crawl is a stack of pending units, the units whose pages are being
//! fetched, and the visited registry. The scheduler decides; whoever drives
//! it fetches the pages and hands the bodies back. `next_step` takes one
//! pending unit through the registry and, if it is admitted, asks for its
//! page. `page_fetched` takes the body of a page, or the failure to get it,
//! and stacks the eligible links of the page as new units. It does so in
//! two parts that can also be called one by one: `expand` reads a body and
//! touches no crawl, `page_expanded` takes what was read.

use crate::links::{extract_links, extract_links_spec, ParseError};
use crate::normalize::{normalize, normalize_spec};
use crate::policy::{DomainPolicy, Sifted};
use crate::registry::{
    lemma_register_keeps, RegisterOutcome, RegistryView, Visit, VisitedRegistry,
};
use vstd::prelude::*;

verus! {

/// One unit of work: a URL to visit and the page it was found on.
#[derive(Debug)]
pub struct CrawlUnit {
    pub target: String,
    pub referrer: String,
}

/// A unit as the contracts see it.
pub struct UnitView {
    pub target: Seq<char>,
    pub referrer: Seq<char>,
}

impl DeepView for CrawlUnit {
    type V = UnitView;

    open spec fn deep_view(&self) -> UnitView {
        UnitView { target: self.target@, referrer: self.referrer@ }
    }
}

impl View for CrawlUnit {
    type V = UnitView;

    open spec fn view(&self) -> UnitView {
        self.deep_view()
    }
}

impl CrawlUnit {
    /// A copy of the unit.
    pub fn duplicate(&self) -> (copy: CrawlUnit)
        ensures
            copy@ == self@,
    {
        CrawlUnit { target: self.target.clone(), referrer: self.referrer.clone() }
    }
}

/// Why a page could not be had. Every failure of the transport is one of
/// these, and the scheduler treats them all alike.
#[derive(Debug)]
pub struct FetchError {
    pub message: String,
}

/// The referrer of the seed, which was found on no page.
pub open spec fn seed_referrer() -> Seq<char> {
    "STARTING_URL"@
}

/// The record that a unit gets when it is admitted at time `now`.
pub open spec fn visit_of(unit: UnitView, now: u64) -> Visit {
    Visit {
        key: normalize_spec(unit.target),
        url: unit.target,
        referrer: unit.referrer,
        visited_at: now,
    }
}

/// The units that the links of the page `target` make, as they are stacked:
/// in reverse, so that the first link of the page is on top.
pub open spec fn stack_of(target: Seq<char>, links: Seq<Seq<char>>) -> Seq<UnitView> {
    Seq::new(
        links.len(),
        |j: int| UnitView { target: links[links.len() - 1 - j], referrer: target },
    )
}

/// Position of the first of `units` whose target is `target`, or the number
/// of units if there is none.
pub open spec fn first_with_target(units: Seq<UnitView>, target: Seq<char>) -> int
    decreases units.len(),
{
    if units.len() == 0 || units[0].target == target {
        0
    } else {
        1 + first_with_target(units.skip(1), target)
    }
}

/// `first_with_target` is the least position that holds the target.
pub proof fn lemma_first_with_target(units: Seq<UnitView>, target: Seq<char>)
    ensures
        0 <= first_with_target(units, target) <= units.len(),
        forall|j: int| 0 <= j < first_with_target(units, target) ==> units[j].target != target,
        first_with_target(units, target) < units.len() ==> units[first_with_target(
            units,
            target,
        )].target == target,
    decreases units.len(),
{
    if units.len() == 0 || units[0].target == target {
    } else {
        let rest = units.skip(1);
        lemma_first_with_target(rest, target);
        assert forall|j: int| 0 <= j < first_with_target(units, target) implies units[j].target
            != target by {
            if j > 0 {
                assert(units[j] == rest[j - 1]);
            }
        }
        if first_with_target(units, target) < units.len() {
            assert(units[first_with_target(units, target)] == rest[first_with_target(rest, target)]);
        }
    }
}

/// A position before which no unit has the target, and which holds it or
/// is the end, is `first_with_target`.
pub proof fn lemma_first_with_target_unique(units: Seq<UnitView>, target: Seq<char>, at: int)
    requires
        0 <= at <= units.len(),
        forall|j: int| 0 <= j < at ==> units[j].target != target,
        at < units.len() ==> units[at].target == target,
    ensures
        first_with_target(units, target) == at,
{
    lemma_first_with_target(units, target);
    let p = first_with_target(units, target);
    if p < at {
        assert(units[p].target == target);
    } else if at < p {
        assert(units[at].target == target);
    }
}

/// What `next_step` decided.
#[derive(Debug)]
pub enum Step {
    /// The unit was admitted: its page is to be fetched and handed to
    /// `page_fetched`.
    Fetch(CrawlUnit),
    /// The unit was not admitted, for the reason given. Nothing is to be
    /// done for it.
    Skipped(CrawlUnit, RegisterOutcome),
    /// Nothing can be decided until a page that is being fetched comes
    /// back.
    Wait,
    /// The crawl is over.
    Done,
}

/// A step as the contracts see it.
pub enum StepView {
    Fetch(UnitView),
    Skipped(UnitView, RegisterOutcome),
    Wait,
    Done,
}

impl View for Step {
    type V = StepView;

    open spec fn view(&self) -> StepView {
        match self {
            Step::Fetch(u) => StepView::Fetch(u@),
            Step::Skipped(u, o) => StepView::Skipped(u@, *o),
            Step::Wait => StepView::Wait,
            Step::Done => StepView::Done,
        }
    }
}

/// What became of a page that came back.
#[derive(Clone, Copy, Debug, PartialEq, Eq, Structural)]
pub enum Branch {
    /// No page with this target was being fetched: nothing was changed.
    NotInFlight,
    /// The page could not be had: the branch ends here.
    Abandoned,
    /// The links of the page were stacked, this many.
    Expanded(usize),
}

/// The state of a crawl as the contracts see it.
pub struct CrawlView {
    /// The visited registry.
    pub registry: RegistryView,
    /// The units that wait for their turn. The last one is the next.
    pub pending: Seq<UnitView>,
    /// The units whose pages are being fetched.
    pub in_flight: Seq<UnitView>,
    /// The most pages that may be fetched at once.
    pub workers: nat,
}

impl CrawlView {
    /// The state before anything was done: only the seed waits.
    pub open spec fn initial(seed: Seq<char>, workers: nat, cap: nat) -> CrawlView {
        CrawlView {
            registry: RegistryView::empty(cap),
            pending: seq![UnitView { target: seed, referrer: seed_referrer() }],
            in_flight: Seq::empty(),
            workers,
        }
    }

    /// `unit` has its record in the registry.
    pub open spec fn recorded(self, unit: UnitView) -> bool {
        exists|i: int|
            0 <= i < self.registry.visits.len() && {
                let v = #[trigger] self.registry.visits[i];
                v.key == normalize_spec(unit.target) && v.url == unit.target && v.referrer
                    == unit.referrer
            }
    }

    /// `url` is the URL of a page that has a record.
    pub open spec fn visited_page(self, url: Seq<char>) -> bool {
        exists|i: int|
            0 <= i < self.registry.visits.len() && (#[trigger] self.registry.visits[i]).url == url
    }

    /// What holds of every state of a crawl.
    pub open spec fn wf(self) -> bool {
        &&& self.registry.wf()
        &&& self.in_flight.len() <= self.workers
        &&& self.registry.visits.len() == 0 ==> self.pending.len() <= 1
        &&& forall|i: int|
            0 <= i < self.in_flight.len() ==> self.recorded(#[trigger] self.in_flight[i])
        &&& forall|i: int|
            0 <= i < self.pending.len() ==> self.registry.visits.len() == 0 || self.visited_page(
                (#[trigger] self.pending[i]).referrer,
            )
        &&& forall|i: int|
            0 <= i < self.registry.visits.len() ==> (#[trigger] self.registry.visits[i]).key
                == normalize_spec(self.registry.visits[i].url)
        &&& forall|i: int|
            0 < i < self.registry.visits.len() ==> exists|j: int|
                0 <= j < i && (#[trigger] self.registry.visits[j]).url == (
                #[trigger] self.registry.visits[i]).referrer
    }

    /// No step can change anything any more, now or later.
    pub open spec fn is_done(self) -> bool {
        self.in_flight.len() == 0 && (self.pending.len() == 0 || self.workers == 0)
    }

    /// No unit can be taken up now: every worker is busy, or nothing waits.
    pub open spec fn is_blocked(self) -> bool {
        self.in_flight.len() >= self.workers || self.pending.len() == 0
    }

    /// The state after `next_step` at time `now`, and what it decides.
    pub open spec fn next(self, now: u64) -> (CrawlView, StepView) {
        if self.is_done() {
            (self, StepView::Done)
        } else if self.is_blocked() {
            (self, StepView::Wait)
        } else {
            let unit = self.pending.last();
            let visit = visit_of(unit, now);
            let outcome = self.registry.outcome(visit.key, now);
            let registry = self.registry.register(visit);
            let pending = self.pending.drop_last();
            if outcome is Admitted {
                (
                    CrawlView { registry, pending, in_flight: self.in_flight.push(unit), ..self },
                    StepView::Fetch(unit),
                )
            } else {
                (CrawlView { registry, pending, ..self }, StepView::Skipped(unit, outcome))
            }
        }
    }

    /// The state after the page `target` came back with `links` to follow,
    /// or with none because it could not be had, and what became of it.
    pub open spec fn complete(self, target: Seq<char>, links: Option<Seq<Seq<char>>>) -> (
        CrawlView,
        Branch,
    ) {
        let at = first_with_target(self.in_flight, target);
        if at >= self.in_flight.len() {
            (self, Branch::NotInFlight)
        } else {
            let in_flight = self.in_flight.remove(at);
            match links {
                None => (CrawlView { in_flight, ..self }, Branch::Abandoned),
                Some(l) => (
                    CrawlView { in_flight, pending: self.pending + stack_of(target, l), ..self },
                    Branch::Expanded(l.len() as usize),
                ),
            }
        }
    }

    /// What is left to do, as three numbers: the room in the registry, the
    /// pages that are being fetched, and the units that wait.
    pub open spec fn fuel(self) -> (int, int, int) {
        (
            self.registry.cap - self.registry.visits.len(),
            self.in_flight.len() as int,
            self.pending.len() as int,
        )
    }
}

/// The order in which `fuel` goes down: by the first number, then by the
/// second, then by the third.
pub open spec fn fuel_below(a: (int, int, int), b: (int, int, int)) -> bool {
    ||| a.0 < b.0
    ||| a.0 == b.0 && a.1 < b.1
    ||| a.0 == b.0 && a.1 == b.1 && a.2 < b.2
}

/// What can happen to a crawl: a step is asked for at some time, or a page
/// comes back with the links to follow, or without any because it could
/// not be had.
pub enum Event {
    Step(u64),
    Fetched(Seq<char>, Option<Seq<Seq<char>>>),
}

impl CrawlView {
    /// The state after `event`.
    pub open spec fn apply(self, event: Event) -> CrawlView {
        match event {
            Event::Step(now) => self.next(now).0,
            Event::Fetched(target, links) => self.complete(target, links).0,
        }
    }

    /// The state after each of `events`, in order.
    pub open spec fn run(self, events: Seq<Event>) -> CrawlView
        decreases events.len(),
    {
        if events.len() == 0 {
            self
        } else {
            self.run(events.drop_last()).apply(events.last())
        }
    }
}

/// A step keeps a well-formed state well-formed, and changes neither the
/// cap nor the number of workers.
pub proof fn lemma_next_keeps_wf(state: CrawlView, now: u64)
    requires
        state.wf(),
    ensures
        state.next(now).0.wf(),
        state.next(now).0.workers == state.workers,
        state.next(now).0.registry.cap == state.registry.cap,
        state.registry.visits.is_prefix_of(state.next(now).0.registry.visits),
{
    let after = state.next(now).0;
    assert(state.registry.visits =~= state.registry.visits.subrange(
        0,
        state.registry.visits.len() as int,
    ));
    if !state.is_done() && !state.is_blocked() {
        let unit = state.pending.last();
        let visit = visit_of(unit, now);
        lemma_register_keeps(state.registry, visit);
        let n = state.registry.visits.len() as int;
        assert forall|i: int| 0 <= i < n implies after.registry.visits[i]
            == state.registry.visits[i] by {
            assert(state.registry.visits[i] == after.registry.visits.subrange(0, n)[i]);
        }
        assert forall|i: int| 0 <= i < after.pending.len() implies after.registry.visits.len() == 0
            || after.visited_page((#[trigger] after.pending[i]).referrer) by {
            assert(after.pending[i] == state.pending[i]);
            if n > 0 {
                let j = choose|j: int|
                    0 <= j < n && (#[trigger] state.registry.visits[j]).url
                        == state.pending[i].referrer;
                assert(after.registry.visits[j].url == after.pending[i].referrer);
            }
        }
        if state.registry.outcome(visit.key, now) is Admitted {
            assert(after.registry.visits[n] == visit);
            assert forall|i: int| 0 <= i < after.in_flight.len() implies after.recorded(
                #[trigger] after.in_flight[i],
            ) by {
                if i < state.in_flight.len() {
                    assert(after.in_flight[i] == state.in_flight[i]);
                    assert(state.recorded(state.in_flight[i]));
                    let j = choose|j: int|
                        0 <= j < n && {
                            let v = #[trigger] state.registry.visits[j];
                            v.key == normalize_spec(state.in_flight[i].target) && v.url
                                == state.in_flight[i].target && v.referrer
                                == state.in_flight[i].referrer
                        };
                    assert(after.registry.visits[j] == state.registry.visits[j]);
                } else {
                    assert(after.in_flight[i] == unit);
                    assert(after.registry.visits[n] == visit);
                }
            }
            assert forall|i: int| 0 <= i < after.registry.visits.len() implies (
            #[trigger] after.registry.visits[i]).key == normalize_spec(
                after.registry.visits[i].url,
            ) by {
                if i < n {
                    assert(after.registry.visits[i] == state.registry.visits[i]);
                }
            }
            assert forall|i: int| 0 < i < after.registry.visits.len() implies exists|j: int|
                0 <= j < i && (#[trigger] after.registry.visits[j]).url == (
                #[trigger] after.registry.visits[i]).referrer by {
                if i < n {
                    let j = choose|j: int|
                        0 <= j < i && (#[trigger] state.registry.visits[j]).url == (
                        #[trigger] state.registry.visits[i]).referrer;
                    assert(after.registry.visits[j] == state.registry.visits[j]);
                    assert(after.registry.visits[i] == state.registry.visits[i]);
                } else {
                    assert(state.visited_page(state.pending[state.pending.len() - 1].referrer));
                    let j = choose|j: int|
                        0 <= j < n && (#[trigger] state.registry.visits[j]).url == unit.referrer;
                    assert(after.registry.visits[j] == state.registry.visits[j]);
                }
            }
        } else {
            assert(after.registry == state.registry);
        }
    }
}

/// A page that comes back keeps a well-formed state well-formed, and changes
/// neither the registry nor the number of workers.
pub proof fn lemma_complete_keeps_wf(
    state: CrawlView,
    target: Seq<char>,
    links: Option<Seq<Seq<char>>>,
)
    requires
        state.wf(),
    ensures
        state.complete(target, links).0.wf(),
        state.complete(target, links).0.workers == state.workers,
        state.complete(target, links).0.registry == state.registry,
{
    let after = state.complete(target, links).0;
    let at = first_with_target(state.in_flight, target);
    lemma_first_with_target(state.in_flight, target);
    if at < state.in_flight.len() {
        let unit = state.in_flight[at];
        assert(state.recorded(unit));
        assert(state.visited_page(target));
        assert forall|i: int| 0 <= i < after.in_flight.len() implies after.recorded(
            #[trigger] after.in_flight[i],
        ) by {
            let k = if i < at {
                i
            } else {
                i + 1
            };
            assert(after.in_flight[i] == state.in_flight[k]);
            assert(state.recorded(state.in_flight[k]));
            assert(after.registry == state.registry);
        }
        assert forall|i: int| 0 <= i < after.pending.len() implies after.registry.visits.len() == 0
            || after.visited_page((#[trigger] after.pending[i]).referrer) by {
            if i < state.pending.len() {
                assert(after.pending[i] == state.pending[i]);
            } else {
                assert(after.pending[i].referrer == target);
            }
        }
    }
}

/// Every state of every run is well-formed: whatever happens to a crawl,
/// and in whatever order, its registry never holds more records than the
/// cap nor a key twice, and never are more pages being fetched than there
/// are workers.
pub proof fn lemma_run_keeps_wf(start: CrawlView, events: Seq<Event>)
    requires
        start.wf(),
    ensures
        start.run(events).wf(),
        start.run(events).workers == start.workers,
        start.run(events).registry.cap == start.registry.cap,
        start.run(events).registry.visits.len() <= start.registry.cap,
        start.run(events).in_flight.len() <= start.workers,
        start.registry.visits.is_prefix_of(start.run(events).registry.visits),
    decreases events.len(),
{
    if events.len() == 0 {
        assert(start.registry.visits =~= start.registry.visits.subrange(
            0,
            start.registry.visits.len() as int,
        ));
    } else {
        lemma_run_keeps_wf(start, events.drop_last());
        let before = start.run(events.drop_last());
        let after = start.run(events);
        match events.last() {
            Event::Step(now) => {
                lemma_next_keeps_wf(before, now);
            },
            Event::Fetched(target, links) => {
                lemma_complete_keeps_wf(before, target, links);
                assert(before.registry.visits =~= before.registry.visits.subrange(
                    0,
                    before.registry.visits.len() as int,
                ));
            },
        }
        let n = start.registry.visits.len() as int;
        assert(start.registry.visits =~= after.registry.visits.subrange(0, n)) by {
            assert forall|i: int| 0 <= i < n implies start.registry.visits[i]
                == after.registry.visits[i] by {
                assert(start.registry.visits[i] == before.registry.visits.subrange(0, n)[i]);
                assert(before.registry.visits[i] == after.registry.visits.subrange(
                    0,
                    before.registry.visits.len() as int,
                )[i]);
            }
        }
    }
}

/// The state in which a crawl starts is well-formed.
pub proof fn lemma_initial_wf(seed: Seq<char>, workers: nat, cap: nat)
    ensures
        CrawlView::initial(seed, workers, cap).wf(),
{
}

/// Referrer correctness. In every state of a run, every record but the
/// first names as its referrer the URL, as it was found, of a page that was
/// recorded before it; and the first record, if there is one, is the seed's.
pub proof fn lemma_referrer_was_visited(
    seed: Seq<char>,
    workers: nat,
    cap: nat,
    events: Seq<Event>,
    i: int,
)
    requires
        0 <= i < CrawlView::initial(seed, workers, cap).run(events).registry.visits.len(),
    ensures
        i > 0 ==> exists|j: int|
            0 <= j < i && (#[trigger] CrawlView::initial(seed, workers, cap).run(
                events,
            ).registry.visits[j]).url == CrawlView::initial(seed, workers, cap).run(
                events,
            ).registry.visits[i].referrer,
        i == 0 ==> CrawlView::initial(seed, workers, cap).run(events).registry.visits[0].url
            == seed && CrawlView::initial(seed, workers, cap).run(events).registry.visits[0].referrer
            == seed_referrer(),
    decreases events.len(),
{
    let start = CrawlView::initial(seed, workers, cap);
    lemma_run_keeps_wf(start, events);
    let end = start.run(events);
    if i > 0 {
        let j = choose|j: int|
            0 <= j < i && (#[trigger] end.registry.visits[j]).url == (
            #[trigger] end.registry.visits[i]).referrer;
        assert(end.registry.visits[j].url == end.registry.visits[i].referrer);
    } else {
        lemma_first_record_is_seed(seed, workers, cap, events);
    }
}

/// As long as nothing is recorded, the seed is all that can wait; and the
/// first record is the seed's.
proof fn lemma_first_record_is_seed(seed: Seq<char>, workers: nat, cap: nat, events: Seq<Event>)
    ensures
        ({
            let end = CrawlView::initial(seed, workers, cap).run(events);
            let seed_unit = UnitView { target: seed, referrer: seed_referrer() };
            &&& end.registry.visits.len() == 0 ==> forall|k: int|
                0 <= k < end.pending.len() ==> end.pending[k] == seed_unit
            &&& end.registry.visits.len() > 0 ==> end.registry.visits[0].url == seed
                && end.registry.visits[0].referrer == seed_referrer()
        }),
    decreases events.len(),
{
    let start = CrawlView::initial(seed, workers, cap);
    if events.len() > 0 {
        lemma_first_record_is_seed(seed, workers, cap, events.drop_last());
        lemma_run_keeps_wf(start, events.drop_last());
        let before = start.run(events.drop_last());
        let after = start.run(events);
        match events.last() {
            Event::Step(now) => {
                lemma_next_keeps_wf(before, now);
                if before.registry.visits.len() > 0 {
                    assert(before.registry.visits[0] == after.registry.visits.subrange(
                        0,
                        before.registry.visits.len() as int,
                    )[0]);
                } else if !before.is_done() && !before.is_blocked() {
                    assert(before.pending[before.pending.len() - 1] == before.pending.last());
                }
            },
            Event::Fetched(target, links) => {
                lemma_complete_keeps_wf(before, target, links);
                lemma_first_with_target(before.in_flight, target);
                if before.registry.visits.len() == 0 {
                    if before.in_flight.len() > 0 {
                        assert(before.recorded(before.in_flight[0]));
                    }
                }
            },
        }
    }
}

/// Termination. Every step that takes up a unit, and every page that comes
/// back, lowers the fuel of the crawl, which is never negative; a step that
/// takes up none changes nothing. So every run comes to an end after
/// finitely many such events, however many links its pages hold.
pub proof fn lemma_fuel_goes_down(state: CrawlView, event: Event)
    requires
        state.wf(),
    ensures
        state.fuel().0 >= 0 && state.fuel().1 >= 0 && state.fuel().2 >= 0,
        state.apply(event) == state || fuel_below(state.apply(event).fuel(), state.fuel()),
        event matches Event::Step(now) ==> (state.next(now).1 is Wait || state.next(now).1 is Done
            <==> state.apply(event) == state),
{
    match event {
        Event::Step(now) => {
            lemma_next_keeps_wf(state, now);
        },
        Event::Fetched(target, links) => {
            lemma_first_with_target(state.in_flight, target);
        },
    }
}

/// No stall. A step answers `Wait` only while a page is being fetched, so
/// some event is always due that lowers the fuel; and it answers `Done`
/// only when nothing waits that could ever be taken up and nothing is being
/// fetched.
pub proof fn lemma_wait_means_in_flight(state: CrawlView, now: u64)
    requires
        state.wf(),
    ensures
        state.next(now).1 is Wait ==> state.in_flight.len() > 0,
        state.next(now).1 is Done <==> state.is_done(),
{
}

/// A crawl whose seed has no link to follow ends after one visit.
pub proof fn lemma_lonely_seed(seed: Seq<char>, workers: nat, cap: nat, t0: u64, t1: u64)
    requires
        workers > 0,
        cap > 0,
    ensures
        ({
            let start = CrawlView::initial(seed, workers, cap);
            let fetching = start.next(t0);
            let back = fetching.0.complete(seed, Some(Seq::empty()));
            let end = back.0.next(t1);
            &&& fetching.1 == StepView::Fetch(UnitView { target: seed, referrer: seed_referrer() })
            &&& back.1 == Branch::Expanded(0)
            &&& end.1 == StepView::Done
            &&& end.0.registry.visits == seq![
                visit_of(UnitView { target: seed, referrer: seed_referrer() }, t0),
            ]
        }),
{
    let start = CrawlView::initial(seed, workers, cap);
    let unit = UnitView { target: seed, referrer: seed_referrer() };
    assert(start.pending.last() == unit);
    let fetching = start.next(t0);
    assert(fetching.0.registry.visits =~= seq![visit_of(unit, t0)]);
    assert(fetching.0.in_flight =~= seq![unit]);
    assert(fetching.0.pending =~= Seq::empty());
    assert(first_with_target(fetching.0.in_flight, seed) == 0);
    let back = fetching.0.complete(seed, Some(Seq::empty()));
    assert(back.0.in_flight =~= Seq::empty());
    assert(stack_of(seed, Seq::empty()) =~= Seq::empty());
    assert(back.0.pending =~= Seq::empty());
}

/// What became of a page that was handed to `page_fetched`.
#[derive(Debug)]
pub enum PageOutcome {
    /// No page with this target was being fetched: nothing was changed.
    NotInFlight,
    /// The page could not be fetched: the branch ends here.
    FetchFailed,
    /// The links of the page could not be read: the branch ends here.
    ParseFailed(ParseError),
    /// The page was read: so many of its links were stacked, and these
    /// were rejected by the policy.
    Expanded { followed: usize, rejected: Vec<String> },
}

/// The outcome for a page as the contracts see it.
pub enum PageOutcomeView {
    NotInFlight,
    FetchFailed,
    ParseFailed(ParseError),
    Expanded { followed: nat, rejected: Seq<Seq<char>> },
}

impl View for PageOutcome {
    type V = PageOutcomeView;

    open spec fn view(&self) -> PageOutcomeView {
        match self {
            PageOutcome::NotInFlight => PageOutcomeView::NotInFlight,
            PageOutcome::FetchFailed => PageOutcomeView::FetchFailed,
            PageOutcome::ParseFailed(e) => PageOutcomeView::ParseFailed(*e),
            PageOutcome::Expanded { followed, rejected } => PageOutcomeView::Expanded {
                followed: *followed as nat,
                rejected: rejected.deep_view(),
            },
        }
    }
}

/// The body of a page, if it was had.
pub open spec fn body_view(body: Result<String, FetchError>) -> Option<Seq<char>> {
    match body {
        Ok(html) => Some(html@),
        Err(_) => None,
    }
}

/// The links of a page that are followed: the eligible ones among those
/// that the page holds; none where the page could not be had or read.
pub open spec fn links_to_follow(policy: DomainPolicy, body: Option<Seq<char>>) -> Option<
    Seq<Seq<char>>,
> {
    match body {
        None => None,
        Some(html) => match extract_links_spec(html) {
            Err(_) => None,
            Ok(links) => Some(policy.kept(links, true)),
        },
    }
}

/// What is said of a page that came back.
pub open spec fn page_outcome(
    state: CrawlView,
    policy: DomainPolicy,
    target: Seq<char>,
    body: Option<Seq<char>>,
) -> PageOutcomeView {
    if first_with_target(state.in_flight, target) >= state.in_flight.len() {
        PageOutcomeView::NotInFlight
    } else {
        match body {
            None => PageOutcomeView::FetchFailed,
            Some(html) => match extract_links_spec(html) {
                Err(e) => PageOutcomeView::ParseFailed(e),
                Ok(links) => PageOutcomeView::Expanded {
                    followed: policy.kept(links, true).len(),
                    rejected: policy.kept(links, false),
                },
            },
        }
    }
}

/// Failure isolation. A page that could not be fetched or read adds no
/// record and no unit: it frees its worker and nothing else. Every unit
/// that waits still waits, so the other links of the page on which the
/// failed one was found are still taken up.
pub proof fn lemma_failure_is_isolated(
    state: CrawlView,
    policy: DomainPolicy,
    target: Seq<char>,
    body: Option<Seq<char>>,
)
    requires
        state.wf(),
        body is None || extract_links_spec(body->0) is Err,
    ensures
        links_to_follow(policy, body) is None,
        state.complete(target, None).0.registry == state.registry,
        state.complete(target, None).0.pending == state.pending,
        state.complete(target, None).0.workers == state.workers,
        state.complete(target, None).0.wf(),
        state.complete(target, None).1 == Branch::Abandoned ==> state.complete(
            target,
            None,
        ).0.in_flight.len() == state.in_flight.len() - 1,
        state.complete(target, None).1 == Branch::NotInFlight ==> state.complete(target, None).0
            == state,
{
    lemma_complete_keeps_wf(state, target, None);
    lemma_first_with_target(state.in_flight, target);
}

/// What reading a page that came back gave, before the crawl is told.
#[derive(Debug)]
pub enum Expansion {
    /// The page could not be fetched.
    FetchFailed,
    /// The links of the page could not be read.
    ParseFailed(ParseError),
    /// The links of the page, parted by the policy.
    Links { eligible: Vec<String>, rejected: Vec<String> },
}

/// An expansion as the contracts see it.
pub enum ExpansionView {
    FetchFailed,
    ParseFailed(ParseError),
    Links { eligible: Seq<Seq<char>>, rejected: Seq<Seq<char>> },
}

impl View for Expansion {
    type V = ExpansionView;

    open spec fn view(&self) -> ExpansionView {
        match self {
            Expansion::FetchFailed => ExpansionView::FetchFailed,
            Expansion::ParseFailed(e) => ExpansionView::ParseFailed(*e),
            Expansion::Links { eligible, rejected } => ExpansionView::Links {
                eligible: eligible.deep_view(),
                rejected: rejected.deep_view(),
            },
        }
    }
}

impl ExpansionView {
    /// The links to follow: the eligible ones, or none where the page
    /// could not be had or read.
    pub open spec fn followed(self) -> Option<Seq<Seq<char>>> {
        match self {
            ExpansionView::Links { eligible, rejected } => Some(eligible),
            _ => None,
        }
    }

    /// What is said of the page, if it was in flight.
    pub open spec fn outcome(self) -> PageOutcomeView {
        match self {
            ExpansionView::FetchFailed => PageOutcomeView::FetchFailed,
            ExpansionView::ParseFailed(e) => PageOutcomeView::ParseFailed(e),
            ExpansionView::Links { eligible, rejected } => PageOutcomeView::Expanded {
                followed: eligible.len(),
                rejected,
            },
        }
    }
}

/// What reading the body of a page gives under `policy`.
pub open spec fn expansion_of(policy: DomainPolicy, body: Option<Seq<char>>) -> ExpansionView {
    match body {
        None => ExpansionView::FetchFailed,
        Some(html) => match extract_links_spec(html) {
            Err(e) => ExpansionView::ParseFailed(e),
            Ok(links) => ExpansionView::Links {
                eligible: policy.kept(links, true),
                rejected: policy.kept(links, false),
            },
        },
    }
}

/// Reads a page that came back: its links are extracted and parted by the
/// policy. Nothing of a crawl is touched, so pages can be read side by side
/// and handed to `Crawl::page_expanded` one after the other.
pub fn expand(policy: &DomainPolicy, body: Result<String, FetchError>) -> (page: Expansion)
    ensures
        page@ == expansion_of(*policy, body_view(body)),
        page@.followed() == links_to_follow(*policy, body_view(body)),
{
    match body {
        Err(_) => Expansion::FetchFailed,
        Ok(html) => match extract_links(html.as_str()) {
            Err(e) => Expansion::ParseFailed(e),
            Ok(links) => {
                let Sifted { eligible, rejected } = policy.sift(&links);
                Expansion::Links { eligible, rejected }
            },
        },
    }
}

/// A crawl: the policy, the registry, the units that wait and the units
/// whose pages are being fetched.
pub struct Crawl {
    policy: DomainPolicy,
    registry: VisitedRegistry,
    pending: Vec<CrawlUnit>,
    in_flight: Vec<CrawlUnit>,
    workers: usize,
}

impl View for Crawl {
    type V = CrawlView;

    closed spec fn view(&self) -> CrawlView {
        CrawlView {
            registry: self.registry@,
            pending: self.pending.deep_view(),
            in_flight: self.in_flight.deep_view(),
            workers: self.workers as nat,
        }
    }
}

impl Crawl {
    /// The invariant of a crawl. `new` establishes it and every method
    /// keeps it.
    pub open spec fn wf(&self) -> bool {
        self@.wf()
    }

    /// The policy of the crawl.
    pub closed spec fn policy_spec(&self) -> DomainPolicy {
        self.policy
    }

    /// A crawl that starts at `seed`, fetches at most `workers` pages at
    /// once and visits at most `cap` pages.
    pub fn new(seed: String, policy: DomainPolicy, workers: usize, cap: usize) -> (crawl: Crawl)
        ensures
            crawl.wf(),
            crawl@ == CrawlView::initial(seed@, workers as nat, cap as nat),
            crawl.policy_spec() == policy,
    {
        let mut pending: Vec<CrawlUnit> = Vec::new();
        pending.push(CrawlUnit { target: seed, referrer: "STARTING_URL".to_owned() });
        let crawl = Crawl {
            policy,
            registry: VisitedRegistry::new(cap),
            pending,
            in_flight: Vec::new(),
            workers,
        };
        assert(crawl@.pending =~= CrawlView::initial(seed@, workers as nat, cap as nat).pending);
        assert(crawl@.in_flight =~= Seq::empty());
        crawl
    }

    /// The policy.
    pub fn policy(&self) -> (policy: &DomainPolicy)
        ensures
            *policy == self.policy_spec(),
    {
        &self.policy
    }

    /// The registry.
    pub fn registry(&self) -> (registry: &VisitedRegistry)
        ensures
            registry@ == self@.registry,
    {
        &self.registry
    }

    /// The most pages that are fetched at once.
    pub fn workers(&self) -> (n: usize)
        ensures
            n == self@.workers,
    {
        self.workers
    }

    /// Number of units that wait.
    pub fn pending_len(&self) -> (n: usize)
        ensures
            n == self@.pending.len(),
    {
        self.pending.len()
    }

    /// Number of pages that are being fetched.
    pub fn in_flight_len(&self) -> (n: usize)
        ensures
            n == self@.in_flight.len(),
    {
        self.in_flight.len()
    }

    /// Tells whether the crawl is over.
    pub fn is_done(&self) -> (done: bool)
        ensures
            done == self@.is_done(),
    {
        self.in_flight.len() == 0 && (self.pending.len() == 0 || self.workers == 0)
    }

    /// Takes up the next unit, if a worker is free and a unit waits.
    ///
    /// The unit's target is normalised and offered to the registry. If it
    /// is admitted, the unit counts as being fetched and comes back in
    /// `Fetch`: its page is to be fetched and handed to `page_fetched`.
    /// If it is not, it comes back in `Skipped`. Where no unit can be taken
    /// up, the answer is `Wait` while a page is being fetched and `Done`
    /// when none is, and nothing changes.
    pub fn next_step(&mut self, now: u64) -> (step: Step)
        requires
            old(self).wf(),
        ensures
            final(self).wf(),
            final(self).policy_spec() == old(self).policy_spec(),
            (final(self)@, step@) == old(self)@.next(now),
    {
        proof {
            lemma_next_keeps_wf(self@, now);
        }
        if self.is_done() {
            return Step::Done;
        }
        if self.in_flight.len() >= self.workers || self.pending.len() == 0 {
            return Step::Wait;
        }
        let ghost before = self@;
        let unit = self.pending.pop().unwrap();
        assert(unit@ == before.pending.last());
        assert(self.pending.deep_view() =~= before.pending.drop_last());
        let key = normalize(unit.target.as_str());
        let outcome = self.registry.try_register(
            key,
            unit.target.clone(),
            unit.referrer.clone(),
            now,
        );
        match outcome {
            RegisterOutcome::Admitted(_) => {
                self.in_flight.push(unit.duplicate());
                assert(self.in_flight.deep_view() =~= before.in_flight.push(unit@));
                Step::Fetch(unit)
            },
            RegisterOutcome::AlreadyVisited => Step::Skipped(unit, RegisterOutcome::AlreadyVisited),
            RegisterOutcome::CapReached => Step::Skipped(unit, RegisterOutcome::CapReached),
        }
    }

    /// Position of the first unit in flight whose target is `target`.
    fn in_flight_position(&self, target: &String) -> (at: usize)
        ensures
            at == first_with_target(self@.in_flight, target@),
            at <= self@.in_flight.len(),
    {
        let mut i: usize = 0;
        while i < self.in_flight.len()
            invariant
                i <= self.in_flight.len(),
                forall|j: int| 0 <= j < i ==> self@.in_flight[j].target != target@,
            decreases self.in_flight.len() - i,
        {
            if self.in_flight[i].target == *target {
                proof {
                    lemma_first_with_target_unique(self@.in_flight, target@, i as int);
                }
                return i;
            }
            i += 1;
        }
        proof {
            lemma_first_with_target_unique(self@.in_flight, target@, i as int);
        }
        i
    }

    /// Takes back the page `target` with the links to follow, or with none
    /// because the page could not be had or read.
    ///
    /// A page that was not being fetched changes nothing. Else its worker
    /// is free again, and each link becomes a unit with `target` as its
    /// referrer, stacked so that the first link is taken up first. A page
    /// without links to follow adds no unit, and no page adds a record.
    pub fn complete(&mut self, target: &String, links: Option<Vec<String>>) -> (branch: Branch)
        requires
            old(self).wf(),
        ensures
            final(self).wf(),
            final(self).policy_spec() == old(self).policy_spec(),
            (final(self)@, branch) == old(self)@.complete(target@, links.deep_view()),
    {
        proof {
            lemma_complete_keeps_wf(self@, target@, links.deep_view());
        }
        let ghost before = self@;
        let at = self.in_flight_position(target);
        if at >= self.in_flight.len() {
            return Branch::NotInFlight;
        }
        let _gone = self.in_flight.remove(at);
        assert(self.in_flight.deep_view() =~= before.in_flight.remove(at as int));
        match links {
            None => Branch::Abandoned,
            Some(l) => {
                let n = l.len();
                let mut i: usize = n;
                let ghost stack = stack_of(target@, l.deep_view());
                assert(self.pending.deep_view() =~= before.pending + stack.take(0));
                while i > 0
                    invariant
                        i <= n,
                        n == l.len(),
                        stack == stack_of(target@, l.deep_view()),
                        self.pending.deep_view() == before.pending + stack.take(n - i),
                        self.in_flight.deep_view() == before.in_flight.remove(at as int),
                        self.registry@ == before.registry,
                        self.workers == before.workers,
                        self.policy == old(self).policy,
                    decreases i,
                {
                    i -= 1;
                    let ghost so_far = self.pending.deep_view();
                    let unit = CrawlUnit { target: l[i].clone(), referrer: target.clone() };
                    assert(unit@ == stack[n - 1 - i]);
                    self.pending.push(unit);
                    assert(self.pending.deep_view() =~= so_far.push(unit@));
                    assert(stack.take(n - i) =~= stack.take(n - 1 - i).push(stack[n - 1 - i]));
                    assert(self.pending.deep_view() =~= before.pending + stack.take(n - i));
                }
                assert(stack.take(n as int) =~= stack);
                Branch::Expanded(n)
            },
        }
    }

    /// Takes back the page `target` as it was read by `expand`.
    ///
    /// The eligible links are handed to `complete`. A page that could not
    /// be fetched or read ends its branch and nothing else: the crawl goes
    /// on with the units that wait.
    pub fn page_expanded(&mut self, target: &String, page: Expansion) -> (outcome: PageOutcome)
        requires
            old(self).wf(),
        ensures
            final(self).wf(),
            final(self).policy_spec() == old(self).policy_spec(),
            final(self)@ == old(self)@.complete(target@, page@.followed()).0,
            outcome@ == (if old(self)@.complete(target@, page@.followed()).1
                == Branch::NotInFlight {
                PageOutcomeView::NotInFlight
            } else {
                page@.outcome()
            }),
    {
        match page {
            Expansion::FetchFailed => match self.complete(target, None) {
                Branch::NotInFlight => PageOutcome::NotInFlight,
                _ => PageOutcome::FetchFailed,
            },
            Expansion::ParseFailed(e) => match self.complete(target, None) {
                Branch::NotInFlight => PageOutcome::NotInFlight,
                _ => PageOutcome::ParseFailed(e),
            },
            Expansion::Links { eligible, rejected } => {
                let followed = eligible.len();
                match self.complete(target, Some(eligible)) {
                    Branch::NotInFlight => PageOutcome::NotInFlight,
                    _ => PageOutcome::Expanded { followed, rejected },
                }
            },
        }
    }

    /// Takes back the page `target`: its body, or the failure to fetch it.
    ///
    /// The body is read under the policy of the crawl, as `expand` does,
    /// and the outcome handed to `page_expanded`.
    pub fn page_fetched(&mut self, target: &String, body: Result<String, FetchError>) -> (outcome:
        PageOutcome)
        requires
            old(self).wf(),
        ensures
            final(self).wf(),
            final(self).policy_spec() == old(self).policy_spec(),
            final(self)@ == old(self)@.complete(
                target@,
                links_to_follow(old(self).policy_spec(), body_view(body)),
            ).0,
            outcome@ == page_outcome(
                old(self)@,
                old(self).policy_spec(),
                target@,
                body_view(body),
            ),
    {
        proof {
            lemma_first_with_target(self@.in_flight, target@);
        }
        let page = expand(&self.policy, body);
        self.page_expanded(target, page)
    }
}

} // verus!
