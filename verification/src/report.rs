//! The report of a run: the visits in the order of their timestamps, and
//! the time that the run took.

use crate::registry::{Visit, VisitedRegistry};
use vstd::prelude::*;
use vstd::string::*;

verus! {

/// One line of the report.
#[derive(Debug)]
pub struct ReportLine {
    /// The URL of the page on which `url` was found.
    pub referrer: String,
    /// The URL that was visited, as it was found.
    pub url: String,
}

/// A line as the contracts see it.
pub struct LineView {
    pub referrer: Seq<char>,
    pub url: Seq<char>,
}

impl DeepView for ReportLine {
    type V = LineView;

    open spec fn deep_view(&self) -> LineView {
        LineView { referrer: self.referrer@, url: self.url@ }
    }
}

impl View for ReportLine {
    type V = LineView;

    open spec fn view(&self) -> LineView {
        self.deep_view()
    }
}

/// The report of a run.
#[derive(Debug)]
pub struct RunReport {
    /// One line for each visit, earliest first.
    pub lines: Vec<ReportLine>,
    /// The time between the start and the end of the run.
    pub elapsed: u64,
}

/// The visit at position `a` is reported before the one at position `b`:
/// it is earlier, or as early and admitted first.
pub open spec fn comes_before(visits: Seq<Visit>, a: int, b: int) -> bool {
    visits[a].visited_at < visits[b].visited_at || (visits[a].visited_at == visits[b].visited_at
        && a < b)
}

/// Position `i` stands in `order`.
pub open spec fn listed(order: Seq<usize>, i: int) -> bool {
    exists|k: int| 0 <= k < order.len() && #[trigger] order[k] == i
}

/// `order` lists every position of `visits` once, so that each visit comes
/// before all that follow it.
pub open spec fn is_visit_order(visits: Seq<Visit>, order: Seq<usize>) -> bool {
    &&& order.len() == visits.len()
    &&& forall|k: int| 0 <= k < order.len() ==> 0 <= #[trigger] order[k] < visits.len()
    &&& forall|k: int, l: int|
        0 <= k < l < order.len() ==> comes_before(
            visits,
            #[trigger] order[k] as int,
            #[trigger] order[l] as int,
        )
    &&& forall|i: int| 0 <= i < visits.len() ==> #[trigger] listed(order, i)
}

/// The line for a visit.
pub open spec fn line_of(visit: Visit) -> LineView {
    LineView { referrer: visit.referrer, url: visit.url }
}

/// The lines for `visits`, taken in `order`.
pub open spec fn lines_in_order(visits: Seq<Visit>, order: Seq<usize>) -> Seq<LineView> {
    Seq::new(order.len(), |k: int| line_of(visits[order[k] as int]))
}

/// The time from `started` to `finished`; none where the clock went back.
pub open spec fn elapsed_spec(started: u64, finished: u64) -> u64 {
    if finished >= started {
        (finished - started) as u64
    } else {
        0
    }
}

/// There is only one order of the visits: two orders of the same visits are
/// the same up to any position, hence everywhere.
pub proof fn lemma_visit_order_unique(
    visits: Seq<Visit>,
    first: Seq<usize>,
    second: Seq<usize>,
    upto: int,
)
    requires
        is_visit_order(visits, first),
        is_visit_order(visits, second),
        0 <= upto <= visits.len(),
    ensures
        forall|k: int| 0 <= k < upto ==> first[k] == second[k],
        upto == visits.len() ==> first == second,
    decreases upto,
{
    if upto > 0 {
        lemma_visit_order_unique(visits, first, second, upto - 1);
        let k = upto - 1;
        let a = first[k] as int;
        let b = second[k] as int;
        if a != b {
            // each of the two stands somewhere in the other order
            assert(listed(second, a));
            assert(listed(first, b));
            let la = choose|l: int| 0 <= l < second.len() && #[trigger] second[l] == a;
            let lb = choose|l: int| 0 <= l < first.len() && #[trigger] first[l] == b;
            if la < k {
                assert(first[la] == second[la]);
                assert(comes_before(visits, first[la] as int, first[k] as int));
            } else if lb < k {
                assert(first[lb] == second[lb]);
                assert(comes_before(visits, second[lb] as int, second[k] as int));
            } else {
                assert(comes_before(visits, second[k] as int, second[la] as int));
                assert(comes_before(visits, first[k] as int, first[lb] as int));
            }
        }
    }
    if upto == visits.len() {
        assert(first =~= second);
    }
}

/// The positions of the records of `registry` in the order of the report:
/// by timestamp, the earliest first, and by admission where two timestamps
/// are the same.
pub fn visit_order(registry: &VisitedRegistry) -> (order: Vec<usize>)
    ensures
        is_visit_order(registry@.visits, order@),
{
    let n = registry.len();
    let ghost visits = registry@.visits;
    let mut order: Vec<usize> = Vec::new();
    let mut m: usize = 0;
    while m < n
        invariant
            m <= n,
            n == visits.len(),
            visits == registry@.visits,
            order.len() == m,
            forall|k: int| 0 <= k < order.len() ==> 0 <= #[trigger] order[k] < m,
            forall|k: int, l: int|
                0 <= k < l < order.len() ==> comes_before(
                    visits,
                    #[trigger] order[k] as int,
                    #[trigger] order[l] as int,
                ),
            forall|i: int| 0 <= i < m ==> #[trigger] listed(order@, i),
        decreases n - m,
    {
        let t = registry.record_at(m).visited_at;
        let mut p: usize = 0;
        while p < m && registry.record_at(order[p]).visited_at <= t
            invariant
                p <= m,
                m < n,
                n == visits.len(),
                visits == registry@.visits,
                order.len() == m,
                t == visits[m as int].visited_at,
                forall|k: int| 0 <= k < order.len() ==> 0 <= #[trigger] order[k] < m,
                forall|k: int| 0 <= k < p ==> visits[#[trigger] order[k] as int].visited_at <= t,
            decreases m - p,
        {
            p += 1;
        }
        let ghost before = order@;
        order.insert(p, m);
        proof {
            let after = order@;
            assert forall|k: int, l: int| 0 <= k < l < after.len() implies comes_before(
                visits,
                #[trigger] after[k] as int,
                #[trigger] after[l] as int,
            ) by {
                if l < p {
                    assert(after[k] == before[k] && after[l] == before[l]);
                } else if l == p {
                    assert(after[k] == before[k]);
                } else if k == p {
                    assert(after[l] == before[l - 1]);
                    if p < l - 1 {
                        assert(comes_before(visits, before[p as int] as int, before[l - 1] as int));
                    }
                } else if k < p {
                    assert(after[k] == before[k] && after[l] == before[l - 1]);
                } else {
                    assert(after[k] == before[k - 1] && after[l] == before[l - 1]);
                }
            }
            assert forall|i: int| 0 <= i < m + 1 implies #[trigger] listed(after, i) by {
                if i == m {
                    assert(after[p as int] == m);
                } else {
                    assert(listed(before, i));
                    let k = choose|k: int| 0 <= k < before.len() && #[trigger] before[k] == i;
                    if k < p {
                        assert(after[k] == i);
                    } else {
                        assert(after[k + 1] == i);
                    }
                }
            }
            assert forall|k: int| 0 <= k < after.len() implies 0 <= #[trigger] after[k] < m + 1 by {
                if k < p {
                    assert(after[k] == before[k]);
                } else if k > p {
                    assert(after[k] == before[k - 1]);
                }
            }
        }
        m += 1;
    }
    order
}

/// The time that a run took, from its two timestamps.
pub fn elapsed(started: u64, finished: u64) -> (took: u64)
    ensures
        took == elapsed_spec(started, finished),
{
    if finished >= started {
        finished - started
    } else {
        0
    }
}

/// The report of a run: for each record of `registry` its referrer and its
/// URL, in the one order that `is_visit_order` allows, and the time between
/// `started` and `finished`. The registry is left as it is.
pub fn report(registry: &VisitedRegistry, started: u64, finished: u64) -> (out: RunReport)
    ensures
        out.lines.len() == registry@.visits.len(),
        exists|order: Seq<usize>|
            is_visit_order(registry@.visits, order) && out.lines.deep_view() == lines_in_order(
                registry@.visits,
                order,
            ),
        out.elapsed == elapsed_spec(started, finished),
{
    let order = visit_order(registry);
    let n = order.len();
    let ghost visits = registry@.visits;
    let mut lines: Vec<ReportLine> = Vec::new();
    let mut k: usize = 0;
    while k < n
        invariant
            k <= n,
            n == order.len(),
            visits == registry@.visits,
            is_visit_order(visits, order@),
            lines.len() == k,
            forall|j: int|
                0 <= j < k ==> (#[trigger] lines.deep_view()[j]) == line_of(
                    visits[order[j] as int],
                ),
        decreases n - k,
    {
        let record = registry.record_at(order[k]);
        let ghost so_far = lines.deep_view();
        let line = ReportLine { referrer: record.referrer.clone(), url: record.url.clone() };
        lines.push(line);
        assert(lines.deep_view() =~= so_far.push(line_of(visits[order[k as int] as int])));
        k += 1;
    }
    assert(lines.deep_view() =~= lines_in_order(visits, order@));
    RunReport { lines, elapsed: elapsed(started, finished) }
}

impl ReportLine {
    /// The line as text: the referrer, an arrow, the URL.
    pub fn render(&self) -> (text: String)
        ensures
            text@ == self.referrer@ + " - > "@ + self.url@,
    {
        let head = self.referrer.clone().concat(" - > ");
        head.concat(self.url.as_str())
    }
}

} // verus!
