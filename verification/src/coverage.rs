//! What a crawl has covered when it ends.
//!
//! A web gives for each URL the links that are followed from its page, or
//! none where the page cannot be had. A run is faithful to a web if every
//! page comes back with the links that the web gives it. The laws here say
//! that a faithful run ends short of the cap only when nothing is left to
//! visit, and that every record but the seed's was reached by a link of the
//! page that it names as its referrer.

use crate::normalize::normalize_spec;
use crate::registry::Visit;
use crate::scheduler::{
    first_with_target, lemma_complete_keeps_wf, lemma_first_with_target, lemma_initial_wf,
    lemma_next_keeps_wf, lemma_run_keeps_wf, stack_of, CrawlView, Event, UnitView,
};
use vstd::prelude::*;
use vstd::seq_lib::seq_to_set_is_finite;
use vstd::set_lib::lemma_len_subset;

verus! {

/// The page of `url` can be had and has a link at position `j`.
pub open spec fn has_link(
    web: spec_fn(Seq<char>) -> Option<Seq<Seq<char>>>,
    url: Seq<char>,
    j: int,
) -> bool {
    web(url) matches Some(links) && 0 <= j < links.len()
}

/// The link at position `j` of the page of `url`.
pub open spec fn link_at(
    web: spec_fn(Seq<char>) -> Option<Seq<Seq<char>>>,
    url: Seq<char>,
    j: int,
) -> Seq<char> {
    match web(url) {
        Some(links) => links[j],
        None => Seq::empty(),
    }
}

/// The event is one that the web allows: a page comes back with the links
/// that the web gives it.
pub open spec fn follows(web: spec_fn(Seq<char>) -> Option<Seq<Seq<char>>>, event: Event) -> bool {
    match event {
        Event::Step(_) => true,
        Event::Fetched(target, links) => links == web(target),
    }
}

/// Every event of the run is one that the web allows.
pub open spec fn faithful(
    web: spec_fn(Seq<char>) -> Option<Seq<Seq<char>>>,
    events: Seq<Event>,
) -> bool {
    forall|i: int| 0 <= i < events.len() ==> follows(web, #[trigger] events[i])
}

/// A unit with target `url` waits.
pub open spec fn waits(state: CrawlView, url: Seq<char>) -> bool {
    exists|k: int| 0 <= k < state.pending.len() && (#[trigger] state.pending[k]).target == url
}

/// The page of `url` is being fetched.
pub open spec fn flies(state: CrawlView, url: Seq<char>) -> bool {
    exists|k: int| 0 <= k < state.in_flight.len() && (#[trigger] state.in_flight[k]).target == url
}

/// The registry holds as many records as the cap allows.
pub open spec fn is_full(state: CrawlView) -> bool {
    state.registry.visits.len() >= state.registry.cap
}

/// Nothing is left to decide for `url`: its key has a record, or a unit for
/// it waits, or the registry is full.
pub open spec fn settled(state: CrawlView, url: Seq<char>) -> bool {
    state.registry.holds(normalize_spec(url)) || waits(state, url) || is_full(state)
}

/// The seed is settled, and so is every link of every recorded page that
/// has come back.
pub open spec fn covered(
    state: CrawlView,
    web: spec_fn(Seq<char>) -> Option<Seq<Seq<char>>>,
    seed: Seq<char>,
) -> bool {
    &&& settled(state, seed)
    &&& forall|i: int, j: int|
        0 <= i < state.registry.visits.len() && #[trigger] has_link(
            web,
            state.registry.visits[i].url,
            j,
        ) && !flies(state, state.registry.visits[i].url) ==> settled(
            state,
            link_at(web, state.registry.visits[i].url, j),
        )
}

/// What is settled stays settled over a step.
proof fn lemma_settled_after_next(state: CrawlView, now: u64, url: Seq<char>)
    requires
        state.wf(),
        settled(state, url),
    ensures
        settled(state.next(now).0, url),
{
    let after = state.next(now).0;
    lemma_next_keeps_wf(state, now);
    let n = state.registry.visits.len() as int;
    if state.registry.holds(normalize_spec(url)) {
        let i = choose|i: int|
            0 <= i < n && (#[trigger] state.registry.visits[i]).key == normalize_spec(url);
        assert(state.registry.visits[i] == after.registry.visits.subrange(0, n)[i]);
        assert(after.registry.visits[i].key == normalize_spec(url));
    } else if waits(state, url) && !is_full(state) {
        if !state.is_done() && !state.is_blocked() {
            let k = choose|k: int|
                0 <= k < state.pending.len() && (#[trigger] state.pending[k]).target == url;
            if k < state.pending.len() - 1 {
                assert(after.pending[k].target == url);
            } else {
                // the unit for `url` is the one that was taken up
                assert(state.pending.last().target == url);
                if state.registry.holds(normalize_spec(url)) {
                } else {
                    assert(after.registry.visits[n].key == normalize_spec(url));
                }
            }
        }
    }
}

/// What is settled stays settled when a page comes back.
proof fn lemma_settled_after_complete(
    state: CrawlView,
    target: Seq<char>,
    links: Option<Seq<Seq<char>>>,
    url: Seq<char>,
)
    requires
        state.wf(),
        settled(state, url),
    ensures
        settled(state.complete(target, links).0, url),
{
    let after = state.complete(target, links).0;
    lemma_complete_keeps_wf(state, target, links);
    if waits(state, url) {
        let k = choose|k: int|
            0 <= k < state.pending.len() && (#[trigger] state.pending[k]).target == url;
        assert(after.pending[k].target == url);
    }
}

/// A step keeps a state covered.
proof fn lemma_next_keeps_covered(
    state: CrawlView,
    web: spec_fn(Seq<char>) -> Option<Seq<Seq<char>>>,
    seed: Seq<char>,
    now: u64,
)
    requires
        state.wf(),
        covered(state, web, seed),
    ensures
        covered(state.next(now).0, web, seed),
{
    let after = state.next(now).0;
    lemma_next_keeps_wf(state, now);
    lemma_settled_after_next(state, now, seed);
    let n = state.registry.visits.len() as int;
    assert forall|i: int, j: int|
        0 <= i < after.registry.visits.len() && #[trigger] has_link(
            web,
            after.registry.visits[i].url,
            j,
        ) && !flies(after, after.registry.visits[i].url) implies settled(
        after,
        link_at(web, after.registry.visits[i].url, j),
    ) by {
        let url = after.registry.visits[i].url;
        if i < n {
            assert(state.registry.visits[i] == after.registry.visits.subrange(0, n)[i]);
            if flies(state, url) {
                let k = choose|k: int|
                    0 <= k < state.in_flight.len() && (#[trigger] state.in_flight[k]).target
                        == url;
                assert(after.in_flight[k].target == url);
            }
            assert(has_link(web, state.registry.visits[i].url, j));
            lemma_settled_after_next(state, now, link_at(web, url, j));
        } else {
            // the record was made by this step: its page is being fetched
            assert(after.in_flight[after.in_flight.len() - 1].target == url);
        }
    }
}

/// A page that comes back as the web has it keeps a state covered.
proof fn lemma_complete_keeps_covered(
    state: CrawlView,
    web: spec_fn(Seq<char>) -> Option<Seq<Seq<char>>>,
    seed: Seq<char>,
    target: Seq<char>,
)
    requires
        state.wf(),
        covered(state, web, seed),
    ensures
        covered(state.complete(target, web(target)).0, web, seed),
{
    let links = web(target);
    let after = state.complete(target, links).0;
    lemma_complete_keeps_wf(state, target, links);
    lemma_settled_after_complete(state, target, links, seed);
    lemma_first_with_target(state.in_flight, target);
    let at = first_with_target(state.in_flight, target);
    assert forall|i: int, j: int|
        0 <= i < after.registry.visits.len() && #[trigger] has_link(
            web,
            after.registry.visits[i].url,
            j,
        ) && !flies(after, after.registry.visits[i].url) implies settled(
        after,
        link_at(web, after.registry.visits[i].url, j),
    ) by {
        let url = after.registry.visits[i].url;
        let link = link_at(web, url, j);
        if at < state.in_flight.len() && url == target {
            let l = links->0;
            let stack = stack_of(target, l);
            let k = l.len() - 1 - j;
            assert(stack[k].target == link);
            assert(after.pending[state.pending.len() + k] == stack[k]);
            assert(waits(after, link));
        } else {
            if flies(state, url) {
                let k = choose|k: int|
                    0 <= k < state.in_flight.len() && (#[trigger] state.in_flight[k]).target
                        == url;
                if at < state.in_flight.len() {
                    let moved = if k < at {
                        k
                    } else {
                        k - 1
                    };
                    assert(k != at);
                    assert(after.in_flight[moved] == state.in_flight[k]);
                    assert(after.in_flight[moved].target == url);
                }
                assert(flies(after, url));
            }
            assert(has_link(web, state.registry.visits[i].url, j));
            lemma_settled_after_complete(state, target, links, link);
        }
    }
}

/// Every state of a faithful run is covered.
proof fn lemma_run_keeps_covered(
    seed: Seq<char>,
    workers: nat,
    cap: nat,
    web: spec_fn(Seq<char>) -> Option<Seq<Seq<char>>>,
    events: Seq<Event>,
)
    requires
        faithful(web, events),
    ensures
        CrawlView::initial(seed, workers, cap).run(events).wf(),
        covered(CrawlView::initial(seed, workers, cap).run(events), web, seed),
    decreases events.len(),
{
    let start = CrawlView::initial(seed, workers, cap);
    lemma_initial_wf(seed, workers, cap);
    lemma_run_keeps_wf(start, events);
    if events.len() == 0 {
        assert(start.pending[0].target == seed);
    } else {
        let earlier = events.drop_last();
        assert forall|i: int| 0 <= i < earlier.len() implies follows(web, #[trigger] earlier[i]) by {
            assert(earlier[i] == events[i]);
        }
        lemma_run_keeps_covered(seed, workers, cap, web, earlier);
        let before = start.run(earlier);
        assert(follows(web, events[events.len() - 1]));
        match events.last() {
            Event::Step(now) => {
                lemma_next_keeps_covered(before, web, seed, now);
            },
            Event::Fetched(target, links) => {
                lemma_complete_keeps_covered(before, web, seed, target);
            },
        }
    }
}

/// The registry holds the key of the seed and of every link of every page
/// that it has a record of.
pub open spec fn is_closed(
    state: CrawlView,
    web: spec_fn(Seq<char>) -> Option<Seq<Seq<char>>>,
    seed: Seq<char>,
) -> bool {
    &&& state.registry.holds(normalize_spec(seed))
    &&& forall|i: int, j: int|
        0 <= i < state.registry.visits.len() && #[trigger] has_link(
            web,
            state.registry.visits[i].url,
            j,
        ) ==> state.registry.holds(normalize_spec(link_at(web, state.registry.visits[i].url, j)))
}

/// A crawl never stops short of the cap while anything is left to visit.
/// When a faithful run with at least one worker is over, the registry is
/// full, or it holds the key of the seed and of every link to follow of
/// every page that it has a record of.
pub proof fn lemma_done_is_full_or_closed(
    seed: Seq<char>,
    workers: nat,
    cap: nat,
    web: spec_fn(Seq<char>) -> Option<Seq<Seq<char>>>,
    events: Seq<Event>,
)
    requires
        workers > 0,
        faithful(web, events),
        CrawlView::initial(seed, workers, cap).run(events).is_done(),
    ensures
        CrawlView::initial(seed, workers, cap).run(events).registry.visits.len() == cap
            || is_closed(CrawlView::initial(seed, workers, cap).run(events), web, seed),
{
    let start = CrawlView::initial(seed, workers, cap);
    let end = start.run(events);
    lemma_initial_wf(seed, workers, cap);
    lemma_run_keeps_wf(start, events);
    lemma_run_keeps_covered(seed, workers, cap, web, events);
    if end.registry.visits.len() < cap {
        assert(!waits(end, seed));
        assert forall|i: int, j: int|
            0 <= i < end.registry.visits.len() && #[trigger] has_link(
                web,
                end.registry.visits[i].url,
                j,
            ) implies end.registry.holds(
            normalize_spec(link_at(web, end.registry.visits[i].url, j)),
        ) by {
            let url = end.registry.visits[i].url;
            assert(!flies(end, url));
            assert(settled(end, link_at(web, url, j)));
            assert(!waits(end, link_at(web, url, j)));
        }
    }
}

/// The page of `from` has a link to `to`.
pub open spec fn links_to(
    web: spec_fn(Seq<char>) -> Option<Seq<Seq<char>>>,
    from: Seq<char>,
    to: Seq<char>,
) -> bool {
    exists|j: int| #[trigger] has_link(web, from, j) && link_at(web, from, j) == to
}

/// `path` leads from the seed along links of pages that can be had.
pub open spec fn is_path(
    web: spec_fn(Seq<char>) -> Option<Seq<Seq<char>>>,
    seed: Seq<char>,
    path: Seq<Seq<char>>,
) -> bool {
    &&& path.len() > 0
    &&& path[0] == seed
    &&& forall|i: int| 0 <= i < path.len() - 1 ==> links_to(web, #[trigger] path[i], path[i + 1])
}

/// A path from the seed ends at a URL with this key.
pub open spec fn reaches(
    web: spec_fn(Seq<char>) -> Option<Seq<Seq<char>>>,
    seed: Seq<char>,
    key: Seq<char>,
) -> bool {
    exists|path: Seq<Seq<char>>|
        #[trigger] is_path(web, seed, path) && normalize_spec(path.last()) == key
}

/// Where `u` and `v` have one key and the page of `u` has a link at `j`,
/// the page of `v` has a link with the same key.
pub open spec fn alike_at(
    web: spec_fn(Seq<char>) -> Option<Seq<Seq<char>>>,
    u: Seq<char>,
    v: Seq<char>,
    j: int,
) -> bool {
    normalize_spec(u) == normalize_spec(v) && has_link(web, u, j) ==> exists|k: int|
        #[trigger] has_link(web, v, k) && normalize_spec(link_at(web, v, k)) == normalize_spec(
            link_at(web, u, j),
        )
}

/// Pages under one key lead to the same keys. A crawl fetches one page for
/// each key, so on a web that lacks this it can miss what only the other
/// pages lead to.
pub open spec fn aliases_link_alike(web: spec_fn(Seq<char>) -> Option<Seq<Seq<char>>>) -> bool {
    forall|u: Seq<char>, v: Seq<char>, j: int| #[trigger] alike_at(web, u, v, j)
}

/// In a closed registry every key is held that a path from the seed
/// reaches.
proof fn lemma_path_is_held(
    state: CrawlView,
    web: spec_fn(Seq<char>) -> Option<Seq<Seq<char>>>,
    seed: Seq<char>,
    path: Seq<Seq<char>>,
)
    requires
        state.wf(),
        is_closed(state, web, seed),
        aliases_link_alike(web),
        is_path(web, seed, path),
    ensures
        state.registry.holds(normalize_spec(path.last())),
    decreases path.len(),
{
    if path.len() > 1 {
        let shorter = path.drop_last();
        assert forall|i: int| 0 <= i < shorter.len() - 1 implies links_to(
            web,
            #[trigger] shorter[i],
            shorter[i + 1],
        ) by {
            assert(links_to(web, path[i], path[i + 1]));
        }
        lemma_path_is_held(state, web, seed, shorter);
        let from = path[path.len() - 2];
        let to = path[path.len() - 1];
        assert(shorter.last() == from);
        assert(links_to(web, from, to));
        let j = choose|j: int| #[trigger] has_link(web, from, j) && link_at(web, from, j) == to;
        let i = choose|i: int|
            0 <= i < state.registry.visits.len() && (#[trigger] state.registry.visits[i]).key
                == normalize_spec(from);
        let fetched = state.registry.visits[i].url;
        assert(normalize_spec(from) == normalize_spec(fetched));
        assert(alike_at(web, from, fetched, j));
        let k = choose|k: int|
            #[trigger] has_link(web, fetched, k) && normalize_spec(link_at(web, fetched, k))
                == normalize_spec(link_at(web, from, j));
        assert(has_link(web, state.registry.visits[i].url, k));
    }
}

/// A crawl of a web that is larger than the cap ends with exactly as many
/// visits as the cap allows. When a faithful run with at least one worker is
/// over, on a web whose pages under one key lead to the same keys, and paths
/// from the seed reach at least as many keys as the cap, the registry holds
/// exactly that many records.
pub proof fn lemma_large_web_fills_registry(
    seed: Seq<char>,
    workers: nat,
    cap: nat,
    web: spec_fn(Seq<char>) -> Option<Seq<Seq<char>>>,
    events: Seq<Event>,
    keys: Set<Seq<char>>,
)
    requires
        workers > 0,
        faithful(web, events),
        CrawlView::initial(seed, workers, cap).run(events).is_done(),
        aliases_link_alike(web),
        keys.finite(),
        keys.len() >= cap,
        forall|key: Seq<char>| keys.contains(key) ==> reaches(web, seed, key),
    ensures
        CrawlView::initial(seed, workers, cap).run(events).registry.visits.len() == cap,
{
    let start = CrawlView::initial(seed, workers, cap);
    let end = start.run(events);
    lemma_initial_wf(seed, workers, cap);
    lemma_run_keeps_wf(start, events);
    lemma_done_is_full_or_closed(seed, workers, cap, web, events);
    if end.registry.visits.len() < cap {
        let held = end.registry.visits.map_values(|v: Visit| v.key);
        assert forall|key: Seq<char>| keys.contains(key) implies held.to_set().contains(key) by {
            assert(reaches(web, seed, key));
            let path = choose|path: Seq<Seq<char>>|
                #[trigger] is_path(web, seed, path) && normalize_spec(path.last()) == key;
            lemma_path_is_held(end, web, seed, path);
            let i = choose|i: int|
                0 <= i < end.registry.visits.len() && (#[trigger] end.registry.visits[i]).key
                    == key;
            assert(held[i] == key);
        }
        seq_to_set_is_finite(held);
        lemma_len_subset(keys, held.to_set());
        held.lemma_cardinality_of_set();
    }
}

/// `path` leads from the seed along links of pages that have a record.
pub open spec fn is_fetched_path(
    state: CrawlView,
    web: spec_fn(Seq<char>) -> Option<Seq<Seq<char>>>,
    seed: Seq<char>,
    path: Seq<Seq<char>>,
) -> bool {
    &&& path.len() > 0
    &&& path[0] == seed
    &&& forall|i: int|
        0 <= i < path.len() - 1 ==> state.visited_page(#[trigger] path[i]) && links_to(
            web,
            path[i],
            path[i + 1],
        )
}

/// A path from the seed along links of recorded pages ends at a URL with
/// this key.
pub open spec fn reaches_by_fetched(
    state: CrawlView,
    web: spec_fn(Seq<char>) -> Option<Seq<Seq<char>>>,
    seed: Seq<char>,
    key: Seq<char>,
) -> bool {
    exists|path: Seq<Seq<char>>|
        #[trigger] is_fetched_path(state, web, seed, path) && normalize_spec(path.last()) == key
}

/// A crawl of a web that is larger than the cap ends with exactly as many
/// visits as the cap allows, whatever the web. When a faithful run with at
/// least one worker is over, and paths from the seed along links of the
/// pages that it has recorded reach at least as many keys as the cap, the
/// registry holds exactly that many records.
pub proof fn lemma_fetched_web_fills_registry(
    seed: Seq<char>,
    workers: nat,
    cap: nat,
    web: spec_fn(Seq<char>) -> Option<Seq<Seq<char>>>,
    events: Seq<Event>,
    keys: Set<Seq<char>>,
)
    requires
        workers > 0,
        faithful(web, events),
        CrawlView::initial(seed, workers, cap).run(events).is_done(),
        keys.finite(),
        keys.len() >= cap,
        forall|key: Seq<char>|
            keys.contains(key) ==> reaches_by_fetched(
                CrawlView::initial(seed, workers, cap).run(events),
                web,
                seed,
                key,
            ),
    ensures
        CrawlView::initial(seed, workers, cap).run(events).registry.visits.len() == cap,
{
    let start = CrawlView::initial(seed, workers, cap);
    let end = start.run(events);
    lemma_initial_wf(seed, workers, cap);
    lemma_run_keeps_wf(start, events);
    lemma_done_is_full_or_closed(seed, workers, cap, web, events);
    if end.registry.visits.len() < cap {
        let held = end.registry.visits.map_values(|v: Visit| v.key);
        assert forall|key: Seq<char>| keys.contains(key) implies held.to_set().contains(key) by {
            assert(reaches_by_fetched(end, web, seed, key));
            let path = choose|path: Seq<Seq<char>>|
                #[trigger] is_fetched_path(end, web, seed, path) && normalize_spec(path.last())
                    == key;
            if path.len() > 1 {
                // the last step of the path is a link of a recorded page
                let from = path[path.len() - 2];
                let to = path[path.len() - 1];
                assert(end.visited_page(from) && links_to(web, from, to));
                let r = choose|r: int|
                    0 <= r < end.registry.visits.len() && (#[trigger] end.registry.visits[r]).url
                        == from;
                let j = choose|j: int|
                    #[trigger] has_link(web, from, j) && link_at(web, from, j) == to;
                assert(has_link(web, end.registry.visits[r].url, j));
            }
            assert(end.registry.holds(key));
            let i = choose|i: int|
                0 <= i < end.registry.visits.len() && (#[trigger] end.registry.visits[i]).key
                    == key;
            assert(held[i] == key);
        }
        seq_to_set_is_finite(held);
        lemma_len_subset(keys, held.to_set());
        held.lemma_cardinality_of_set();
    }
}

/// `unit` was found on a recorded page: its referrer is the URL of a
/// record, and the page of that URL has a link to its target.
pub open spec fn found_on_page(
    state: CrawlView,
    web: spec_fn(Seq<char>) -> Option<Seq<Seq<char>>>,
    unit: UnitView,
) -> bool {
    state.visited_page(unit.referrer) && links_to(web, unit.referrer, unit.target)
}

/// The record at `i` was reached from a page that was recorded before it:
/// its referrer is the URL of an earlier record, and the page of that URL
/// has a link to the URL of the record.
pub open spec fn reached_from_earlier(
    state: CrawlView,
    web: spec_fn(Seq<char>) -> Option<Seq<Seq<char>>>,
    i: int,
) -> bool {
    &&& exists|j: int|
        0 <= j < i && (#[trigger] state.registry.visits[j]).url == state.registry.visits[i].referrer
    &&& links_to(web, state.registry.visits[i].referrer, state.registry.visits[i].url)
}

/// Every unit that waits was found on a recorded page, unless nothing is
/// recorded yet; and every record but the first was reached from an earlier
/// one.
pub open spec fn traced(
    state: CrawlView,
    web: spec_fn(Seq<char>) -> Option<Seq<Seq<char>>>,
) -> bool {
    &&& forall|k: int|
        0 <= k < state.pending.len() ==> state.registry.visits.len() == 0 || found_on_page(
            state,
            web,
            #[trigger] state.pending[k],
        )
    &&& forall|i: int|
        0 < i < state.registry.visits.len() ==> #[trigger] reached_from_earlier(state, web, i)
}

/// A step keeps a state traced.
proof fn lemma_next_keeps_traced(
    state: CrawlView,
    web: spec_fn(Seq<char>) -> Option<Seq<Seq<char>>>,
    now: u64,
)
    requires
        state.wf(),
        traced(state, web),
    ensures
        traced(state.next(now).0, web),
{
    let after = state.next(now).0;
    lemma_next_keeps_wf(state, now);
    let n = state.registry.visits.len() as int;
    assert forall|r: int| 0 <= r < n implies after.registry.visits[r]
        == state.registry.visits[r] by {
        assert(state.registry.visits[r] == after.registry.visits.subrange(0, n)[r]);
    }
    if !state.is_done() && !state.is_blocked() {
        assert forall|k: int| 0 <= k < after.pending.len() implies after.registry.visits.len() == 0
            || found_on_page(after, web, #[trigger] after.pending[k]) by {
            assert(after.pending[k] == state.pending[k]);
            if n > 0 {
                assert(found_on_page(state, web, state.pending[k]));
                let r = choose|r: int|
                    0 <= r < n && (#[trigger] state.registry.visits[r]).url
                        == state.pending[k].referrer;
                assert(after.registry.visits[r].url == after.pending[k].referrer);
            }
        }
        assert forall|i: int| 0 < i < after.registry.visits.len() implies #[trigger] reached_from_earlier(
            after,
            web,
            i,
        ) by {
            if i < n {
                assert(reached_from_earlier(state, web, i));
                let j = choose|j: int|
                    0 <= j < i && (#[trigger] state.registry.visits[j]).url
                        == state.registry.visits[i].referrer;
                assert(after.registry.visits[j].url == after.registry.visits[i].referrer);
            } else {
                // the record was made by this step, from a unit that waited
                let unit = state.pending[state.pending.len() - 1];
                assert(found_on_page(state, web, unit));
                let j = choose|j: int|
                    0 <= j < n && (#[trigger] state.registry.visits[j]).url == unit.referrer;
                assert(after.registry.visits[j].url == after.registry.visits[i].referrer);
            }
        }
    }
}

/// A page that comes back as the web has it keeps a state traced.
proof fn lemma_complete_keeps_traced(
    state: CrawlView,
    web: spec_fn(Seq<char>) -> Option<Seq<Seq<char>>>,
    target: Seq<char>,
)
    requires
        state.wf(),
        traced(state, web),
    ensures
        traced(state.complete(target, web(target)).0, web),
{
    let links = web(target);
    let after = state.complete(target, links).0;
    lemma_complete_keeps_wf(state, target, links);
    lemma_first_with_target(state.in_flight, target);
    let at = first_with_target(state.in_flight, target);
    if at < state.in_flight.len() {
        assert(state.recorded(state.in_flight[at]));
        assert(state.visited_page(target));
        assert forall|k: int| 0 <= k < after.pending.len() implies after.registry.visits.len() == 0
            || found_on_page(after, web, #[trigger] after.pending[k]) by {
            if k < state.pending.len() {
                assert(after.pending[k] == state.pending[k]);
            } else {
                let l = links->0;
                let j = l.len() - 1 - (k - state.pending.len());
                assert(after.pending[k] == stack_of(target, l)[k - state.pending.len()]);
                assert(has_link(web, target, j) && link_at(web, target, j)
                    == after.pending[k].target);
            }
        }
        assert forall|i: int| 0 < i < after.registry.visits.len() implies #[trigger] reached_from_earlier(
            after,
            web,
            i,
        ) by {
            assert(reached_from_earlier(state, web, i));
        }
    }
}

/// Every state of a faithful run is traced.
proof fn lemma_run_keeps_traced(
    seed: Seq<char>,
    workers: nat,
    cap: nat,
    web: spec_fn(Seq<char>) -> Option<Seq<Seq<char>>>,
    events: Seq<Event>,
)
    requires
        faithful(web, events),
    ensures
        traced(CrawlView::initial(seed, workers, cap).run(events), web),
    decreases events.len(),
{
    let start = CrawlView::initial(seed, workers, cap);
    lemma_initial_wf(seed, workers, cap);
    if events.len() > 0 {
        let earlier = events.drop_last();
        assert forall|i: int| 0 <= i < earlier.len() implies follows(web, #[trigger] earlier[i]) by {
            assert(earlier[i] == events[i]);
        }
        lemma_run_keeps_traced(seed, workers, cap, web, earlier);
        lemma_run_keeps_wf(start, earlier);
        let before = start.run(earlier);
        assert(follows(web, events[events.len() - 1]));
        match events.last() {
            Event::Step(now) => {
                lemma_next_keeps_traced(before, web, now);
            },
            Event::Fetched(target, links) => {
                lemma_complete_keeps_traced(before, web, target);
            },
        }
    }
}

/// Referrer correctness for whole runs. In every state of a faithful run,
/// every record but the first names as its referrer the URL, as it was
/// found, of a page that was recorded before it, that could be had, and
/// among whose links to follow the URL of the record stands.
pub proof fn lemma_referrer_held_the_link(
    seed: Seq<char>,
    workers: nat,
    cap: nat,
    web: spec_fn(Seq<char>) -> Option<Seq<Seq<char>>>,
    events: Seq<Event>,
    i: int,
)
    requires
        faithful(web, events),
        0 < i < CrawlView::initial(seed, workers, cap).run(events).registry.visits.len(),
    ensures
        ({
            let visits = CrawlView::initial(seed, workers, cap).run(events).registry.visits;
            &&& exists|j: int| 0 <= j < i && (#[trigger] visits[j]).url == visits[i].referrer
            &&& web(visits[i].referrer) is Some
            &&& web(visits[i].referrer)->0.contains(visits[i].url)
            &&& visits[i].key == normalize_spec(visits[i].url)
        }),
{
    let start = CrawlView::initial(seed, workers, cap);
    let end = start.run(events);
    lemma_initial_wf(seed, workers, cap);
    lemma_run_keeps_wf(start, events);
    lemma_run_keeps_traced(seed, workers, cap, web, events);
    assert(reached_from_earlier(end, web, i));
    let from = end.registry.visits[i].referrer;
    let j = choose|j: int|
        #[trigger] has_link(web, from, j) && link_at(web, from, j) == end.registry.visits[i].url;
    assert(web(from)->0[j] == end.registry.visits[i].url);
}

} // verus!
