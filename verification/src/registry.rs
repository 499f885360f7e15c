//! The registry of visited pages: one record per key, never more records
//! than the cap allows. The records stand in the order of their admission;
//! a hash map from key to position finds them.

use vstd::hash_map::StringHashMap;
use vstd::prelude::*;

verus! {

/// One visit as the contracts see it: the key it was admitted under, the
/// URL as it was found, the page it was found on, and when it was admitted.
pub struct Visit {
    pub key: Seq<char>,
    pub url: Seq<char>,
    pub referrer: Seq<char>,
    pub visited_at: u64,
}

/// What a registration came to.
#[derive(Clone, Copy, Debug, PartialEq, Eq, Structural)]
pub enum RegisterOutcome {
    /// The key was new and there was room: a record was made, with this
    /// timestamp.
    Admitted(u64),
    /// The key already has a record.
    AlreadyVisited,
    /// The registry already holds as many records as the cap allows.
    CapReached,
}

/// The registry as the contracts see it: the cap, and the visits in the
/// order in which they were admitted.
pub struct RegistryView {
    pub cap: nat,
    pub visits: Seq<Visit>,
}

/// Number of visits in `visits` that were admitted under `key`.
pub open spec fn records_under(visits: Seq<Visit>, key: Seq<char>) -> nat
    decreases visits.len(),
{
    if visits.len() == 0 {
        0
    } else {
        let earlier = records_under(visits.drop_last(), key);
        if visits.last().key == key {
            earlier + 1
        } else {
            earlier
        }
    }
}

impl RegistryView {
    /// An empty registry with the given cap.
    pub open spec fn empty(cap: nat) -> RegistryView {
        RegistryView { cap, visits: Seq::empty() }
    }

    /// `key` has a record.
    pub open spec fn holds(self, key: Seq<char>) -> bool {
        exists|i: int| 0 <= i < self.visits.len() && (#[trigger] self.visits[i]).key == key
    }

    /// Number of records under `key`.
    pub open spec fn count(self, key: Seq<char>) -> nat {
        records_under(self.visits, key)
    }

    /// No more records than the cap allows, and no key twice.
    pub open spec fn wf(self) -> bool {
        &&& self.visits.len() <= self.cap
        &&& forall|i: int, j: int|
            0 <= i < j < self.visits.len() ==> (#[trigger] self.visits[i]).key != (
            #[trigger] self.visits[j]).key
    }

    /// What registering `key` at time `now` comes to. The cap is looked at
    /// before the key is.
    pub open spec fn outcome(self, key: Seq<char>, now: u64) -> RegisterOutcome {
        if self.visits.len() >= self.cap {
            RegisterOutcome::CapReached
        } else if self.holds(key) {
            RegisterOutcome::AlreadyVisited
        } else {
            RegisterOutcome::Admitted(now)
        }
    }

    /// The registry after `visit` was offered: with it as the last record
    /// if it was admitted, else unchanged.
    pub open spec fn register(self, visit: Visit) -> RegistryView {
        if self.outcome(visit.key, visit.visited_at) is Admitted {
            RegistryView { cap: self.cap, visits: self.visits.push(visit) }
        } else {
            self
        }
    }

    /// The registry after each of `offers` was offered, in order.
    pub open spec fn register_all(self, offers: Seq<Visit>) -> RegistryView
        decreases offers.len(),
    {
        if offers.len() == 0 {
            self
        } else {
            self.register_all(offers.drop_last()).register(offers.last())
        }
    }
}

/// The record of one visited page.
#[derive(Clone, Debug)]
pub struct VisitRecord {
    /// The canonical key under which the page was admitted.
    pub key: String,
    /// The URL as it was found, not normalised.
    pub url: String,
    /// The URL of the page on which it was found.
    pub referrer: String,
    /// When the record was made.
    pub visited_at: u64,
}

impl View for VisitRecord {
    type V = Visit;

    open spec fn view(&self) -> Visit {
        Visit {
            key: self.key@,
            url: self.url@,
            referrer: self.referrer@,
            visited_at: self.visited_at,
        }
    }
}

/// The records in the order of their admission, and where each key stands.
struct Records {
    entries: Vec<VisitRecord>,
    index: StringHashMap<usize>,
}

impl Records {
    /// The records as visits.
    closed spec fn visits(self) -> Seq<Visit> {
        Seq::new(self.entries.len() as nat, |i: int| self.entries[i]@)
    }

    /// The index holds the keys of the records and no others, each with
    /// the position of its record.
    closed spec fn indexed(self) -> bool {
        &&& forall|key: Seq<char>| #[trigger]
            self.index@.contains_key(key) ==> self.index@[key] < self.entries.len()
                && self.entries[self.index@[key] as int]@.key == key
        &&& forall|i: int|
            0 <= i < self.entries.len() ==> self.index@.contains_key(
                (#[trigger] self.entries[i])@.key,
            )
    }
}

/// The visited registry. It only grows, holds each key once, and never
/// holds more records than its cap.
pub struct VisitedRegistry {
    cap: usize,
    records: Records,
}

impl View for VisitedRegistry {
    type V = RegistryView;

    closed spec fn view(&self) -> RegistryView {
        RegistryView { cap: self.cap as nat, visits: self.records.visits() }
    }
}

impl VisitedRegistry {
    /// Holds of every registry there is: see `RegistryView::wf`.
    #[verifier::type_invariant]
    closed spec fn inv(self) -> bool {
        self@.wf() && self.records.indexed()
    }

    /// An empty registry that admits at most `cap` keys.
    pub fn new(cap: usize) -> (registry: Self)
        ensures
            registry@ == RegistryView::empty(cap as nat),
    {
        let records = Records { entries: Vec::new(), index: StringHashMap::new() };
        let registry = VisitedRegistry { cap, records };
        assert(registry@.visits =~= Seq::empty());
        registry
    }

    /// The cap.
    pub fn cap(&self) -> (cap: usize)
        ensures
            cap == self@.cap,
    {
        self.cap
    }

    /// Number of records. It never exceeds the cap.
    pub fn len(&self) -> (n: usize)
        ensures
            n == self@.visits.len(),
            n <= self@.cap,
            self@.wf(),
    {
        proof {
            use_type_invariant(self);
        }
        self.records.entries.len()
    }

    /// Tells whether the registry holds as many records as the cap allows.
    pub fn is_full(&self) -> (full: bool)
        ensures
            full == (self@.visits.len() == self@.cap),
            self@.wf(),
    {
        proof {
            use_type_invariant(self);
        }
        self.records.entries.len() >= self.cap
    }

    /// Position of the record under `key`, if there is one.
    fn position(&self, key: &String) -> (found: Option<usize>)
        ensures
            match found {
                Some(i) => i < self@.visits.len() && self@.visits[i as int].key == key@,
                None => !self@.holds(key@),
            },
    {
        proof {
            use_type_invariant(self);
        }
        match self.records.index.get(key.as_str()) {
            Some(at) => Some(*at),
            None => {
                assert forall|i: int| 0 <= i < self@.visits.len() implies (
                #[trigger] self@.visits[i]).key != key@ by {
                    assert(self.records.index@.contains_key(self.records.entries[i]@.key));
                }
                None
            },
        }
    }

    /// Tells whether `key` has a record.
    pub fn contains(&self, key: &String) -> (held: bool)
        ensures
            held == self@.holds(key@),
    {
        self.position(key).is_some()
    }

    /// The record under `key`, if there is one.
    pub fn get(&self, key: &String) -> (found: Option<&VisitRecord>)
        ensures
            found is Some == self@.holds(key@),
            found matches Some(r) ==> r.key@ == key@ && self@.visits.contains(r@),
    {
        match self.position(key) {
            Some(i) => {
                assert(self@.visits[i as int] == self.records.entries[i as int]@);
                Some(&self.records.entries[i])
            },
            None => None,
        }
    }

    /// The `i`-th record in order of admission.
    pub fn record_at(&self, i: usize) -> (r: &VisitRecord)
        requires
            i < self@.visits.len(),
        ensures
            r@ == self@.visits[i as int],
    {
        &self.records.entries[i]
    }

    /// Offers `key` for registration.
    ///
    /// If the registry is full the answer is `CapReached`, whatever the key.
    /// Else, if the key has a record, it is `AlreadyVisited`. Else a record
    /// of `url`, `referrer` and `now` is added under `key`, and the answer is
    /// `Admitted(now)`. No record is ever changed or removed.
    pub fn try_register(&mut self, key: String, url: String, referrer: String, now: u64) -> (outcome:
        RegisterOutcome)
        ensures
            outcome == old(self)@.outcome(key@, now),
            final(self)@ == old(self)@.register(
                Visit { key: key@, url: url@, referrer: referrer@, visited_at: now },
            ),
            final(self)@.wf(),
    {
        proof {
            use_type_invariant(&*self);
        }
        if self.records.entries.len() >= self.cap {
            return RegisterOutcome::CapReached;
        }
        if self.position(&key).is_some() {
            return RegisterOutcome::AlreadyVisited;
        }
        let ghost before = self@;
        let ghost held = self.records;
        let ghost visit = Visit { key: key@, url: url@, referrer: referrer@, visited_at: now };
        // The records are taken out while they grow, so that the registry
        // is whole, and its invariant holds, at every moment.
        let mut records = Records { entries: Vec::new(), index: StringHashMap::new() };
        core::mem::swap(&mut self.records, &mut records);
        let at = records.entries.len();
        records.index.insert(key.clone(), at);
        records.entries.push(VisitRecord { key, url, referrer, visited_at: now });
        proof {
            assert(records.visits() =~= before.visits.push(visit));
            assert forall|i: int| 0 <= i < at implies records.entries[i]@.key != visit.key by {
                assert(before.visits[i] == held.entries[i]@);
            }
            assert forall|i: int, j: int| 0 <= i < j < records.entries.len() implies (
            #[trigger] records.visits()[i]).key != (#[trigger] records.visits()[j]).key by {
                assert(before.visits[i] == held.entries[i]@);
                if j < at {
                    assert(before.visits[j] == held.entries[j]@);
                }
            }
            assert forall|k: Seq<char>| #[trigger]
                records.index@.contains_key(k) implies records.index@[k] < records.entries.len()
                && records.entries[records.index@[k] as int]@.key == k by {
                if k != visit.key {
                    assert(held.index@.contains_key(k));
                }
            }
            assert forall|i: int| 0 <= i < records.entries.len() implies records.index@.contains_key(
                (#[trigger] records.entries[i])@.key,
            ) by {
                if i < at {
                    assert(held.index@.contains_key(held.entries[i]@.key));
                }
            }
        }
        core::mem::swap(&mut self.records, &mut records);
        RegisterOutcome::Admitted(now)
    }
}

/// One offer leaves a well-formed registry well-formed, leaves its cap as
/// it is, and leaves every record in its place.
pub proof fn lemma_register_keeps(state: RegistryView, offer: Visit)
    requires
        state.wf(),
    ensures
        state.register(offer).wf(),
        state.register(offer).cap == state.cap,
        state.visits.is_prefix_of(state.register(offer).visits),
{
    let next = state.register(offer);
    if state.outcome(offer.key, offer.visited_at) is Admitted {
        assert forall|i: int, j: int| 0 <= i < j < next.visits.len() implies (
        #[trigger] next.visits[i]).key != (#[trigger] next.visits[j]).key by {
            if j == state.visits.len() {
                assert(state.visits[i].key != offer.key);
            } else {
                assert(state.visits[i].key != state.visits[j].key);
            }
        }
        assert(state.visits =~= next.visits.subrange(0, state.visits.len() as int));
    } else {
        assert(state.visits =~= next.visits.subrange(0, state.visits.len() as int));
    }
}

/// Cap invariant. Whatever is offered to a registry, and in whatever order,
/// at no point of the run does it hold more records than its cap, nor a key
/// twice.
pub proof fn lemma_cap_never_exceeded(state: RegistryView, offers: Seq<Visit>, n: int)
    requires
        state.wf(),
        0 <= n <= offers.len(),
    ensures
        state.register_all(offers.take(n)).wf(),
        state.register_all(offers.take(n)).cap == state.cap,
        state.register_all(offers.take(n)).visits.len() <= state.cap,
    decreases n,
{
    if n > 0 {
        lemma_cap_never_exceeded(state, offers, n - 1);
        assert(offers.take(n).drop_last() =~= offers.take(n - 1));
        lemma_register_keeps(state.register_all(offers.take(n - 1)), offers[n - 1]);
    }
}

/// Records stay. What the registry holds at one point of a run it holds at
/// every later point, unchanged and in the same place.
pub proof fn lemma_records_stay(state: RegistryView, offers: Seq<Visit>, n: int, m: int)
    requires
        state.wf(),
        0 <= n <= m <= offers.len(),
    ensures
        state.register_all(offers.take(n)).visits.is_prefix_of(
            state.register_all(offers.take(m)).visits,
        ),
    decreases m - n,
{
    let at_n = state.register_all(offers.take(n));
    if n < m {
        lemma_records_stay(state, offers, n, m - 1);
        lemma_cap_never_exceeded(state, offers, m - 1);
        assert(offers.take(m).drop_last() =~= offers.take(m - 1));
        let before = state.register_all(offers.take(m - 1));
        let after = state.register_all(offers.take(m));
        lemma_register_keeps(before, offers[m - 1]);
        assert(at_n.visits =~= after.visits.subrange(0, at_n.visits.len() as int)) by {
            assert forall|i: int| 0 <= i < at_n.visits.len() implies at_n.visits[i]
                == after.visits[i] by {
                assert(at_n.visits[i] == before.visits.subrange(0, at_n.visits.len() as int)[i]);
                assert(before.visits[i] == after.visits.subrange(0, before.visits.len() as int)[i]);
            }
        }
    } else {
        assert(at_n.visits =~= at_n.visits.subrange(0, at_n.visits.len() as int));
    }
}

/// In a well-formed registry a key that is held has one record, and a key
/// that is not held has none.
pub proof fn lemma_count_is_one(state: RegistryView, key: Seq<char>)
    requires
        state.wf(),
    ensures
        state.count(key) == (if state.holds(key) {
            1nat
        } else {
            0nat
        }),
    decreases state.visits.len(),
{
    if state.visits.len() > 0 {
        let earlier = RegistryView { cap: state.cap, visits: state.visits.drop_last() };
        let last = state.visits.last();
        lemma_count_is_one(earlier, key);
        if earlier.holds(key) {
            let i = choose|i: int|
                0 <= i < earlier.visits.len() && (#[trigger] earlier.visits[i]).key == key;
            assert(state.visits[i].key == key);
            assert(state.visits[i].key != state.visits[state.visits.len() - 1].key);
        } else if last.key == key {
            assert(state.visits[state.visits.len() - 1].key == key);
        } else {
            if state.holds(key) {
                let i = choose|i: int|
                    0 <= i < state.visits.len() && (#[trigger] state.visits[i]).key == key;
                assert(earlier.visits[i].key == key);
            }
        }
    }
}

/// No-duplicate invariant. A key that is admitted at some point of a run
/// has exactly one record from then on, and it is the record that was made
/// when it was admitted.
pub proof fn lemma_admitted_once(state: RegistryView, offers: Seq<Visit>, n: int, m: int)
    requires
        state.wf(),
        0 <= n < m <= offers.len(),
        state.register_all(offers.take(n)).outcome(offers[n].key, offers[n].visited_at) is Admitted,
    ensures
        state.register_all(offers.take(m)).count(offers[n].key) == 1,
        state.register_all(offers.take(n)).visits.len() < state.register_all(
            offers.take(m),
        ).visits.len(),
        state.register_all(offers.take(m)).visits[state.register_all(
            offers.take(n),
        ).visits.len() as int] == offers[n],
{
    let before = state.register_all(offers.take(n));
    let admitted = state.register_all(offers.take(n + 1));
    let later = state.register_all(offers.take(m));
    assert(offers.take(n + 1).drop_last() =~= offers.take(n));
    assert(admitted == before.register(offers[n]));
    lemma_records_stay(state, offers, n + 1, m);
    lemma_cap_never_exceeded(state, offers, m);
    let at = before.visits.len() as int;
    assert(admitted.visits[at] == offers[n]);
    assert(later.visits.subrange(0, admitted.visits.len() as int)[at] == later.visits[at]);
    assert(later.visits[at].key == offers[n].key);
    lemma_count_is_one(later, offers[n].key);
}

/// The first offer to an empty registry with room is admitted: nothing can
/// stand in the way of the seed of a run.
pub proof fn lemma_first_offer_admitted(cap: nat, offer: Visit)
    requires
        cap > 0,
    ensures
        RegistryView::empty(cap).outcome(offer.key, offer.visited_at) == RegisterOutcome::Admitted(
            offer.visited_at,
        ),
        RegistryView::empty(cap).register(offer).visits == seq![offer],
{
    assert(RegistryView::empty(cap).register(offer).visits =~= seq![offer]);
}


} // verus!
