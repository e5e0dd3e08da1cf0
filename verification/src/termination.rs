//! Why a crawl of a finite web ends: nobody can be stuck while work is left,
//! and every step that changes anything uses up some of a finite amount of
//! work.

use crate::frontier::QueueView;
use crate::laws::{
    all_in, closed_under, faithful, fetches, law_fetched_once, law_invariant, lemma_start_inv,
    lemma_within_step, links_on, run, step, truthful, within, Event,
};
use crate::model::{first_fresh, fits, lemma_first_fresh, CrawlView, WorkerView};
use vstd::prelude::*;

verus! {

/// The work that a page stands for while it is not claimed: to claim it, to
/// report it, and to submit and to look at each of its links.
pub open spec fn page_work(site: Map<Seq<char>, Seq<Seq<char>>>, url: Seq<char>) -> nat {
    2 + 2 * links_on(site, url).len()
}

/// The work that one worker stands for: to submit and to look at each link
/// that it holds, to report the page that it fetches and to deal with that
/// page's links, and to exit.
pub open spec fn worker_work(w: WorkerView, site: Map<Seq<char>, Seq<Seq<char>>>) -> nat {
    2 * w.outbox.len() + (match w.fetching {
        Some(url) => 1 + 2 * links_on(site, url).len(),
        None => 0,
    }) + (if w.exited {
        0nat
    } else {
        1nat
    })
}

/// The work that the workers stand for.
pub open spec fn pool_work(workers: Seq<WorkerView>, site: Map<Seq<char>, Seq<Seq<char>>>) -> nat
    decreases workers.len(),
{
    if workers.len() == 0 {
        0
    } else {
        pool_work(workers.drop_last(), site) + worker_work(workers.last(), site)
    }
}

/// The work that the pages of `universe` which are not claimed stand for.
pub open spec fn unvisited_work(
    universe: Seq<Seq<char>>,
    visited: Seq<Seq<char>>,
    site: Map<Seq<char>, Seq<Seq<char>>>,
) -> nat
    decreases universe.len(),
{
    if universe.len() == 0 {
        0
    } else {
        unvisited_work(universe.drop_last(), visited, site) + if visited.contains(universe.last()) {
            0nat
        } else {
            page_work(site, universe.last())
        }
    }
}

/// An upper bound on the steps that can still change the state of a crawl
/// of the web `site`, whose pages are those of `universe`.
pub open spec fn work_left(
    s: CrawlView,
    universe: Seq<Seq<char>>,
    site: Map<Seq<char>, Seq<Seq<char>>>,
) -> nat {
    2 * s.seeds.len() + s.queue.items.len() + (if s.queue.open {
        1nat
    } else {
        0nat
    }) + pool_work(s.workers, site) + unvisited_work(universe, s.visited, site)
}

/// The number of steps of a run that change the state.
pub open spec fn changes(s: CrawlView, events: Seq<Event>) -> nat
    decreases events.len(),
{
    if events.len() == 0 {
        0
    } else {
        let before = run(s, events.drop_last());
        changes(s, events.drop_last()) + if step(before, events.last()) == before {
            0nat
        } else {
            1nat
        }
    }
}

/// Replacing one worker changes the work of the pool by that worker's alone.
pub proof fn lemma_pool_update(
    workers: Seq<WorkerView>,
    site: Map<Seq<char>, Seq<Seq<char>>>,
    w: int,
    worker: WorkerView,
)
    requires
        0 <= w < workers.len(),
    ensures
        pool_work(workers.update(w, worker), site) + worker_work(workers[w], site) == pool_work(
            workers,
            site,
        ) + worker_work(worker, site),
    decreases workers.len(),
{
    let updated = workers.update(w, worker);
    if w == workers.len() - 1 {
        assert(updated.drop_last() =~= workers.drop_last());
    } else {
        lemma_pool_update(workers.drop_last(), site, w, worker);
        assert(updated.drop_last() =~= workers.drop_last().update(w, worker));
    }
}

/// A pool of idle workers stands for one step each: the exit.
pub proof fn lemma_pool_idle(workers: Seq<WorkerView>, site: Map<Seq<char>, Seq<Seq<char>>>)
    requires
        forall|w: int| 0 <= w < workers.len() ==> #[trigger] workers[w] == WorkerView::idle(),
    ensures
        pool_work(workers, site) == workers.len(),
    decreases workers.len(),
{
    if workers.len() > 0 {
        let front = workers.drop_last();
        assert forall|w: int| 0 <= w < front.len() implies #[trigger] front[w]
            == WorkerView::idle() by {
            assert(front[w] == workers[w]);
        }
        lemma_pool_idle(front, site);
        assert(workers.last() == workers[workers.len() - 1]);
    }
}

/// Claiming a page of the universe takes its work off the unclaimed pages.
pub proof fn lemma_unvisited_claim(
    universe: Seq<Seq<char>>,
    visited: Seq<Seq<char>>,
    site: Map<Seq<char>, Seq<Seq<char>>>,
    url: Seq<char>,
)
    requires
        universe.no_duplicates(),
        !visited.contains(url),
    ensures
        unvisited_work(universe, visited.push(url), site) + (if universe.contains(url) {
            page_work(site, url)
        } else {
            0nat
        }) == unvisited_work(universe, visited, site),
    decreases universe.len(),
{
    let after = visited.push(url);
    if universe.len() > 0 {
        let front = universe.drop_last();
        let last = universe.last();
        lemma_unvisited_claim(front, visited, site, url);
        assert(after[visited.len() as int] == url);
        if visited.contains(last) {
            let i = choose|i: int| 0 <= i < visited.len() && visited[i] == last;
            assert(after[i] == last);
        }
        if after.contains(last) && last != url {
            let i = choose|i: int| 0 <= i < after.len() && after[i] == last;
            assert(visited[i] == last);
        }
        if last == url {
            if front.contains(url) {
                let i = choose|i: int| 0 <= i < front.len() && front[i] == url;
                assert(universe[i] == universe[universe.len() - 1]);
            }
            assert(universe[universe.len() - 1] == url);
        } else {
            if universe.contains(url) {
                let i = choose|i: int| 0 <= i < universe.len() && universe[i] == url;
                assert(front[i] == url);
            }
            if front.contains(url) {
                let i = choose|i: int| 0 <= i < front.len() && front[i] == url;
                assert(universe[i] == url);
            }
        }
    }
}

/// The work that a crawl starts with: two steps for each seed, one to close
/// the queue, one for each worker, and the work of every page.
pub proof fn lemma_start_work(
    seeds: Seq<Seq<char>>,
    workers: nat,
    bound: Option<nat>,
    ceiling: Option<nat>,
    universe: Seq<Seq<char>>,
    site: Map<Seq<char>, Seq<Seq<char>>>,
)
    ensures
        work_left(CrawlView::start(seeds, workers, bound, ceiling), universe, site) == 2
            * seeds.len() + 1 + workers + unvisited_work(universe, Seq::empty(), site),
{
    lemma_pool_idle(CrawlView::start(seeds, workers, bound, ceiling).workers, site);
}

/// A sequence without duplicates, all of whose values are among those of
/// another, is at most as long as the other.
pub proof fn lemma_all_in_len(urls: Seq<Seq<char>>, universe: Seq<Seq<char>>)
    requires
        urls.no_duplicates(),
        all_in(urls, universe.to_set()),
    ensures
        urls.len() <= universe.len(),
{
    urls.unique_seq_to_set();
    universe.lemma_cardinality_of_set();
    assert(urls.to_set().subset_of(universe.to_set())) by {
        assert forall|u: Seq<char>| urls.to_set().contains(u) implies universe.to_set().contains(
            u,
        ) by {
            let i = choose|i: int| 0 <= i < urls.len() && urls[i] == u;
            assert(universe.to_set().contains(urls[i]));
        }
    }
    vstd::seq_lib::seq_to_set_is_finite(universe);
    vstd::set_lib::lemma_len_subset(urls.to_set(), universe.to_set());
}

/// The seeds that a queue accepts are at least one, where it is empty and
/// there is a seed.
proof fn lemma_fits_some(q: QueueView, n: nat)
    requires
        q.inv(),
        q.items.len() == 0,
        n > 0,
    ensures
        fits(q, n) > 0,
{
}

/// No deadlock. While a crawl with at least one worker is not over, a page
/// is being fetched, whose report is owed, or some step changes the state:
/// the request of a worker for its next task, or, while seeds are left, the
/// coordinator's step. So it cannot be that everybody waits.
pub proof fn law_no_deadlock(s: CrawlView)
    requires
        s.inv(),
        s.workers.len() > 0,
        !s.over(),
    ensures
        (exists|w: int| 0 <= w < s.workers.len() && (#[trigger] s.workers[w]).fetching is Some)
            || (s.seeds.len() > 0 && s.seed() != s) || (exists|w: int|
            0 <= w < s.workers.len() && #[trigger] s.poll(w).0 != s),
{
    if exists|w: int| 0 <= w < s.workers.len() && (#[trigger] s.workers[w]).fetching is Some {
    } else {
        assert forall|w: int| 0 <= w < s.workers.len() implies s.active(w) && (
        #[trigger] s.workers[w]).fetching is None by {}
        let busy = exists|w: int| 0 <= w < s.workers.len() && (#[trigger] s.workers[w]).outbox.len() > 0;
        let w = if busy {
            choose|w: int| 0 <= w < s.workers.len() && (#[trigger] s.workers[w]).outbox.len() > 0
        } else {
            0
        };
        assert(s.active(w) && s.workers[w].fetching is None);
        let t = s.poll(w).0;
        if s.halted() {
            assert(t.workers[w].exited);
            assert(t != s);
        } else {
            let stream = s.queue.items + s.workers[w].outbox;
            let i = first_fresh(stream, s.visited) as int;
            lemma_first_fresh(stream, s.visited);
            if i < stream.len() {
                assert(t.visited.len() == s.visited.len() + 1);
                assert(t != s);
            } else if stream.len() > 0 {
                assert(t.queue.items.len() == 0 && t.workers[w].outbox.len() == 0);
                assert(t != s);
            } else if s.seeds.len() > 0 {
                if !s.queue.open {
                    assert(s.quiet());
                }
                lemma_fits_some(s.queue, s.seeds.len());
                assert(s.seed().seeds.len() < s.seeds.len());
                assert(s.seed() != s);
            } else {
                assert(!busy);
                let drained = CrawlView {
                    queue: QueueView { items: Seq::empty(), ..s.queue },
                    workers: s.workers.update(w, WorkerView::idle()),
                    ..s
                };
                assert forall|v: int| 0 <= v < drained.workers.len() implies (
                #[trigger] drained.workers[v]).is_idle() by {
                    if v != w {
                        assert(s.workers[v].fetching is None);
                        assert(s.workers[v].outbox.len() == 0);
                    }
                }
                assert(drained.quiet());
                assert(t.workers[w].exited);
                assert(t != s);
            }
        }
    }
}

/// Once a crawl is over, every worker that asks is told to exit, unless it
/// is still fetching; and then it is told so after its report.
pub proof fn law_over_means_exit(s: CrawlView, w: int)
    requires
        s.inv(),
        s.over(),
        0 <= w < s.workers.len(),
        s.workers[w].fetching is None,
    ensures
        s.poll(w).1 is Exit,
        s.poll(w).0.over(),
{
    let gone = choose|v: int| 0 <= v < s.workers.len() && (#[trigger] s.workers[v]).exited;
    assert(!s.queue.open);
    let t = s.poll(w).0;
    if !s.active(w) {
    } else if s.halted() {
        assert(t.workers[w].exited);
    } else {
        assert(s.quiet());
        assert(s.workers[w].is_idle());
        let stream = s.queue.items + s.workers[w].outbox;
        assert(stream.len() == 0);
        let drained = CrawlView {
            queue: QueueView { items: Seq::empty(), ..s.queue },
            workers: s.workers.update(w, WorkerView::idle()),
            ..s
        };
        assert forall|v: int| 0 <= v < drained.workers.len() implies (
        #[trigger] drained.workers[v]).is_idle() by {
            if v != w {
                assert(s.workers[v].is_idle());
            }
        }
        assert(drained.quiet());
        assert(t.workers[w].exited);
    }
}

/// A truthfully reported step either leaves the state as it is or uses up
/// some of the work that is left.
pub proof fn lemma_work_step(
    s: CrawlView,
    e: Event,
    universe: Seq<Seq<char>>,
    site: Map<Seq<char>, Seq<Seq<char>>>,
)
    requires
        s.inv(),
        universe.no_duplicates(),
        within(s, universe.to_set()),
        truthful(s, e, site),
    ensures
        step(s, e) == s || work_left(step(s, e), universe, site) < work_left(s, universe, site),
{
    let t = step(s, e);
    match e {
        Event::Seed => {
            if s.halted() || !s.queue.open {
                if !s.queue.open && s.seeds.len() == 0 {
                    assert(t.seeds =~= s.seeds);
                    assert(t.queue == s.queue);
                }
            } else {
                let k = fits(s.queue, s.seeds.len()) as int;
                if k == 0 {
                    assert(t.seeds =~= s.seeds);
                    assert(t.queue.items =~= s.queue.items);
                }
            }
        },
        Event::Complete(w, links) => {
            if 0 <= w < s.workers.len() && s.workers[w].fetching is Some {
                assert(!s.workers[w].is_idle());
                lemma_pool_update(s.workers, site, w, t.workers[w]);
                assert(t.workers =~= s.workers.update(w, t.workers[w]));
            }
        },
        Event::Poll(w) => {
            if !s.active(w) || s.workers[w].fetching is Some {
            } else {
                lemma_pool_update(s.workers, site, w, t.workers[w]);
                assert(t.workers =~= s.workers.update(w, t.workers[w]));
                if s.halted() {
                } else {
                    let stream = s.queue.items + s.workers[w].outbox;
                    let i = first_fresh(stream, s.visited) as int;
                    lemma_first_fresh(stream, s.visited);
                    if i < stream.len() {
                        assert(universe.to_set().contains(stream[i])) by {
                            if i < s.queue.items.len() {
                                assert(stream[i] == s.queue.items[i]);
                            } else {
                                assert(stream[i] == s.workers[w].outbox[i - s.queue.items.len()]);
                            }
                        }
                        lemma_unvisited_claim(universe, s.visited, site, stream[i]);
                    } else if stream.len() == 0 {
                        let drained = CrawlView {
                            queue: QueueView { items: Seq::empty(), ..s.queue },
                            workers: s.workers.update(w, WorkerView::idle()),
                            ..s
                        };
                        if !drained.quiet() {
                            assert(s.workers[w].outbox =~= Seq::<Seq<char>>::empty());
                            assert(s.workers[w] == WorkerView::idle());
                            assert(t.workers =~= s.workers);
                            assert(t.queue.items =~= s.queue.items);
                        }
                    }
                }
            }
        },
    }
}

/// Bounded work. In a run in which every report is what the web gives, the
/// steps that change the state and the work that is left after them make up
/// no more than the work that was left before. The state stays within the
/// universe, so that no more pages are claimed than the universe has.
pub proof fn law_bounded_work(
    s: CrawlView,
    events: Seq<Event>,
    universe: Seq<Seq<char>>,
    site: Map<Seq<char>, Seq<Seq<char>>>,
)
    requires
        s.inv(),
        universe.no_duplicates(),
        closed_under(universe.to_set(), site),
        within(s, universe.to_set()),
        faithful(s, events, site),
    ensures
        within(run(s, events), universe.to_set()),
        changes(s, events) + work_left(run(s, events), universe, site) <= work_left(
            s,
            universe,
            site,
        ),
        run(s, events).visited.len() <= universe.len(),
    decreases events.len(),
{
    if events.len() > 0 {
        let front = events.drop_last();
        law_bounded_work(s, front, universe, site);
        law_invariant(s, front);
        lemma_within_step(run(s, front), events.last(), universe.to_set(), site);
        lemma_work_step(run(s, front), events.last(), universe, site);
    }
    law_invariant(s, events);
    lemma_all_in_len(run(s, events).visited, universe);
}

/// Termination in bounded time. Take a finite web: a universe of pages that
/// holds the seeds and every page that a link of one of its pages leads to.
/// In every run of a crawl of it in which every report is what the web
/// gives, the steps that change the state number at most two for each seed,
/// one for each worker, one more, and for each page of the universe two and
/// two for each of its links; and at most as many pages are fetched as the
/// universe has. With `law_no_deadlock` this is why the crawl ends: as long
/// as it is not over, a step that changes the state is possible or a report
/// is owed, and only so many such steps exist.
pub proof fn law_bounded_crawl(
    seeds: Seq<Seq<char>>,
    workers: nat,
    bound: Option<nat>,
    ceiling: Option<nat>,
    universe: Seq<Seq<char>>,
    site: Map<Seq<char>, Seq<Seq<char>>>,
    events: Seq<Event>,
)
    requires
        bound != Some(0nat),
        universe.no_duplicates(),
        all_in(seeds, universe.to_set()),
        closed_under(universe.to_set(), site),
        faithful(CrawlView::start(seeds, workers, bound, ceiling), events, site),
    ensures
        changes(CrawlView::start(seeds, workers, bound, ceiling), events) <= 2 * seeds.len() + 1
            + workers + unvisited_work(universe, Seq::empty(), site),
        fetches(CrawlView::start(seeds, workers, bound, ceiling), events).len() <= universe.len(),
{
    let start = CrawlView::start(seeds, workers, bound, ceiling);
    lemma_start_inv(seeds, workers, bound, ceiling);
    lemma_start_work(seeds, workers, bound, ceiling, universe, site);
    assert(within(start, universe.to_set()));
    law_bounded_work(start, events, universe, site);
    law_fetched_once(start, events);
    assert(start.visited + fetches(start, events) =~= fetches(start, events));
}

} // verus!
