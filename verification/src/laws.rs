//! What holds of every run of a crawl, whatever the order in which the
//! coordinator and the workers take their steps.

use crate::model::{first_fresh, fits, lemma_first_fresh, CrawlView, TaskView, WorkerView};
use vstd::prelude::*;

verus! {

/// One step of a crawl, as the engine sees it.
pub enum Event {
    /// The coordinator submits seeds.
    Seed,
    /// The worker with this number asks for its next task.
    Poll(int),
    /// The worker with this number reports a page with these links; a
    /// failed page is reported with none.
    Complete(int, Seq<Seq<char>>),
}

/// The state after one step.
pub open spec fn step(s: CrawlView, e: Event) -> CrawlView {
    match e {
        Event::Seed => s.seed(),
        Event::Poll(w) => s.poll(w).0,
        Event::Complete(w, links) => s.complete(w, links),
    }
}

/// The URL that a step hands out for fetching, if it hands one out.
pub open spec fn handed_out(s: CrawlView, e: Event) -> Option<Seq<char>> {
    match e {
        Event::Poll(w) => match s.poll(w).1 {
            TaskView::Fetch(url) => Some(url),
            _ => None,
        },
        _ => None,
    }
}

/// The state after a sequence of steps.
pub open spec fn run(s: CrawlView, events: Seq<Event>) -> CrawlView
    decreases events.len(),
{
    if events.len() == 0 {
        s
    } else {
        step(run(s, events.drop_last()), events.last())
    }
}

/// The URLs handed out for fetching in a sequence of steps, in their order.
pub open spec fn fetches(s: CrawlView, events: Seq<Event>) -> Seq<Seq<char>>
    decreases events.len(),
{
    if events.len() == 0 {
        Seq::empty()
    } else {
        let before = fetches(s, events.drop_last());
        match handed_out(run(s, events.drop_last()), events.last()) {
            Some(url) => before.push(url),
            None => before,
        }
    }
}

/// A sequence without duplicates stays without duplicates when a value that
/// it does not hold is appended.
pub proof fn lemma_push_fresh(s: Seq<Seq<char>>, u: Seq<char>)
    requires
        s.no_duplicates(),
        !s.contains(u),
    ensures
        s.push(u).no_duplicates(),
{
    assert forall|i: int, j: int|
        0 <= i < s.push(u).len() && 0 <= j < s.push(u).len() && i != j implies s.push(u)[i]
        != s.push(u)[j] by {
        if i < s.len() && j < s.len() {
        } else if i < s.len() {
            assert(s.contains(s[i]));
        } else {
            assert(s.contains(s[j]));
        }
    }
}

/// The state in which a crawl starts satisfies the invariant.
pub proof fn lemma_start_inv(
    seeds: Seq<Seq<char>>,
    workers: nat,
    bound: Option<nat>,
    ceiling: Option<nat>,
)
    requires
        bound != Some(0nat),
    ensures
        CrawlView::start(seeds, workers, bound, ceiling).inv(),
{
}

/// The coordinator's step keeps the invariant.
pub proof fn lemma_seed_inv(s: CrawlView)
    requires
        s.inv(),
    ensures
        s.seed().inv(),
{
    let t = s.seed();
    if s.halted() || !s.queue.open {
        if !s.halted() {
            assert(s.quiet());
            assert(t.quiet());
        }
    } else {
        assert forall|w: int| 0 <= w < t.workers.len() implies !(#[trigger] t.workers[w]).exited by {
            assert(s.workers[w].exited ==> !s.queue.open);
        }
    }
}

/// A report keeps the invariant.
pub proof fn lemma_complete_inv(s: CrawlView, w: int, links: Seq<Seq<char>>)
    requires
        s.inv(),
    ensures
        s.complete(w, links).inv(),
{
    let t = s.complete(w, links);
    if 0 <= w < s.workers.len() && s.workers[w].fetching is Some {
        assert(!s.workers[w].is_idle());
        assert(!s.quiet());
        assert forall|v: int| 0 <= v < t.workers.len() && (#[trigger] t.workers[v]).exited implies t.workers[v].is_idle()
            && !t.queue.open by {
            assert(v != w);
            assert(s.workers[v].exited);
        }
    }
}

/// A worker's step keeps the invariant.
pub proof fn lemma_poll_inv(s: CrawlView, w: int)
    requires
        s.inv(),
    ensures
        s.poll(w).0.inv(),
{
    let t = s.poll(w).0;
    if !s.active(w) || s.workers[w].fetching is Some {
    } else if s.halted() {
        assert forall|v: int| 0 <= v < t.workers.len() && (#[trigger] t.workers[v]).exited implies t.workers[v].is_idle()
            && !t.queue.open by {
            if v != w {
                assert(s.workers[v].exited);
            }
        }
    } else {
        let stream = s.queue.items + s.workers[w].outbox;
        let i = first_fresh(stream, s.visited) as int;
        lemma_first_fresh(stream, s.visited);
        if !s.queue.open {
            assert(s.quiet());
            assert(s.workers[w].is_idle());
            assert(stream.len() == 0);
        }
        if i < stream.len() {
            lemma_push_fresh(s.visited, stream[i]);
            assert forall|v: int| 0 <= v < t.workers.len() implies !(#[trigger] t.workers[v]).exited by {
                if v != w {
                    assert(s.workers[v].exited ==> !s.queue.open);
                }
            }
        } else {
            let drained = CrawlView {
                queue: crate::frontier::QueueView { items: Seq::empty(), ..s.queue },
                workers: s.workers.update(w, WorkerView::idle()),
                ..s
            };
            if drained.quiet() {
                assert forall|v: int| 0 <= v < t.workers.len() implies (#[trigger] t.workers[v]).is_idle() by {
                    if v != w {
                        assert(drained.workers[v].is_idle());
                    }
                }
                assert(t.quiet());
            } else {
                if !s.queue.open {
                    assert forall|v: int| 0 <= v < drained.workers.len() implies (#[trigger] drained.workers[v]).is_idle() by {
                        if v != w {
                            assert(s.workers[v].is_idle());
                        }
                    }
                    assert(drained.quiet());
                }
                assert forall|v: int| 0 <= v < t.workers.len() implies !(#[trigger] t.workers[v]).exited by {
                    if v != w {
                        assert(s.workers[v].exited ==> !s.queue.open);
                    }
                }
            }
        }
    }
}

/// Every step keeps the invariant.
pub proof fn lemma_step_inv(s: CrawlView, e: Event)
    requires
        s.inv(),
    ensures
        step(s, e).inv(),
{
    match e {
        Event::Seed => lemma_seed_inv(s),
        Event::Poll(w) => lemma_poll_inv(s, w),
        Event::Complete(w, links) => lemma_complete_inv(s, w, links),
    }
}

/// The invariant holds after every sequence of steps.
pub proof fn law_invariant(s: CrawlView, events: Seq<Event>)
    requires
        s.inv(),
    ensures
        run(s, events).inv(),
    decreases events.len(),
{
    if events.len() > 0 {
        law_invariant(s, events.drop_last());
        lemma_step_inv(run(s, events.drop_last()), events.last());
    }
}

/// Uniqueness. In every run the claimed URLs are those that were claimed
/// before it, followed by the URLs handed out for fetching during it, in
/// their order; and no URL occurs twice among them. So no URL is handed out
/// twice, however often it is found as a link, and none that was claimed
/// before is handed out again.
pub proof fn law_fetched_once(s: CrawlView, events: Seq<Event>)
    requires
        s.inv(),
    ensures
        run(s, events).visited == s.visited + fetches(s, events),
        (s.visited + fetches(s, events)).no_duplicates(),
        fetches(s, events).no_duplicates(),
        forall|i: int|
            0 <= i < fetches(s, events).len() ==> !s.visited.contains(
                #[trigger] fetches(s, events)[i],
            ),
    decreases events.len(),
{
    let all = s.visited + fetches(s, events);
    if events.len() == 0 {
        assert(all =~= s.visited);
    } else {
        let front = events.drop_last();
        let before = run(s, front);
        law_fetched_once(s, front);
        law_invariant(s, front);
        lemma_step_inv(before, events.last());
        match handed_out(before, events.last()) {
            Some(url) => {
                assert(run(s, events).visited == before.visited.push(url));
                assert(all =~= before.visited.push(url));
            },
            None => {
                assert(run(s, events).visited == before.visited);
            },
        }
    }
    let f = fetches(s, events);
    let n = s.visited.len() as int;
    assert forall|i: int, j: int| 0 <= i < f.len() && 0 <= j < f.len() && i != j implies f[i]
        != f[j] by {
        assert(all[n + i] == f[i]);
        assert(all[n + j] == f[j]);
    }
    assert forall|i: int| 0 <= i < f.len() implies !s.visited.contains(#[trigger] f[i]) by {
        if s.visited.contains(f[i]) {
            let k = choose|k: int| 0 <= k < s.visited.len() && s.visited[k] == f[i];
            assert(all[k] == s.visited[k]);
            assert(all[n + i] == f[i]);
        }
    }
}

/// The links of the page at `url` in the web `site`. The domain of `site`
/// holds the pages whose fetch succeeds; the fetch of any other URL fails,
/// and a failed page has no links.
pub open spec fn links_on(site: Map<Seq<char>, Seq<Seq<char>>>, url: Seq<char>) -> Seq<Seq<char>> {
    if site.dom().contains(url) {
        site[url]
    } else {
        Seq::empty()
    }
}

/// Whether a report, made in the state `s`, is what the web `site` gives for
/// the URL that the reporting worker is fetching.
pub open spec fn truthful(s: CrawlView, e: Event, site: Map<Seq<char>, Seq<Seq<char>>>) -> bool {
    match e {
        Event::Complete(w, links) => 0 <= w < s.workers.len() && s.workers[w].fetching is Some
            ==> links == links_on(site, s.workers[w].fetching.unwrap()),
        _ => true,
    }
}

/// Whether every report in a run is what the web `site` gives.
pub open spec fn faithful(
    s: CrawlView,
    events: Seq<Event>,
    site: Map<Seq<char>, Seq<Seq<char>>>,
) -> bool
    decreases events.len(),
{
    events.len() == 0 || (faithful(s, events.drop_last(), site) && truthful(
        run(s, events.drop_last()),
        events.last(),
        site,
    ))
}

/// Whether `path` leads from a seed along links of `site`.
pub open spec fn is_path(
    seeds: Seq<Seq<char>>,
    site: Map<Seq<char>, Seq<Seq<char>>>,
    path: Seq<Seq<char>>,
) -> bool {
    &&& path.len() > 0
    &&& seeds.contains(path[0])
    &&& forall|i: int|
        0 <= i < path.len() - 1 ==> links_on(site, #[trigger] path[i]).contains(path[i + 1])
}

/// Whether `url` is a seed or can be reached from one over links of pages
/// whose fetch succeeds.
pub open spec fn reachable(
    seeds: Seq<Seq<char>>,
    site: Map<Seq<char>, Seq<Seq<char>>>,
    url: Seq<char>,
) -> bool {
    exists|path: Seq<Seq<char>>| #[trigger] is_path(seeds, site, path) && path.last() == url
}

/// Whether `url` waits somewhere to be looked at: in the queue, among the
/// seeds not yet submitted, or among the links that a worker holds.
pub open spec fn pending(s: CrawlView, url: Seq<char>) -> bool {
    ||| s.queue.items.contains(url)
    ||| s.seeds.contains(url)
    ||| exists|w: int| 0 <= w < s.workers.len() && (#[trigger] s.workers[w]).outbox.contains(url)
}

/// Whether `url` is claimed or waits to be looked at.
pub open spec fn known(s: CrawlView, url: Seq<char>) -> bool {
    s.visited.contains(url) || pending(s, url)
}

/// Whether a worker is fetching `url`.
pub open spec fn in_fetch(s: CrawlView, url: Seq<char>) -> bool {
    exists|w: int| 0 <= w < s.workers.len() && (#[trigger] s.workers[w]).fetching == Some(url)
}

/// Nothing that the crawl has found is lost: every seed is known, and so is
/// every link of every claimed page whose fetch is over.
pub open spec fn covered(
    s: CrawlView,
    seeds: Seq<Seq<char>>,
    site: Map<Seq<char>, Seq<Seq<char>>>,
) -> bool {
    &&& forall|u: Seq<char>| #[trigger] seeds.contains(u) ==> known(s, u)
    &&& forall|u: Seq<char>, v: Seq<char>|
        s.visited.contains(u) && #[trigger] links_on(site, u).contains(v) ==> in_fetch(s, u)
            || known(s, v)
}

/// No step changes the ceiling or the number of workers.
pub proof fn lemma_run_frame(s: CrawlView, events: Seq<Event>)
    ensures
        run(s, events).ceiling == s.ceiling,
        run(s, events).workers.len() == s.workers.len(),
        run(s, events).queue.bound == s.queue.bound,
    decreases events.len(),
{
    if events.len() > 0 {
        lemma_run_frame(s, events.drop_last());
    }
}

/// In a crawl without a ceiling, a URL that is known stays known.
pub proof fn lemma_known_step(s: CrawlView, e: Event, u: Seq<char>)
    requires
        s.inv(),
        s.ceiling is None,
        known(s, u),
    ensures
        known(step(s, e), u),
{
    let t = step(s, e);
    match e {
        Event::Seed => {
            if !s.queue.open {
                assert(s.quiet());
                assert(t.seeds =~= s.seeds);
            } else {
                let k = fits(s.queue, s.seeds.len()) as int;
                if s.queue.items.contains(u) {
                    let j = choose|j: int| 0 <= j < s.queue.items.len() && s.queue.items[j] == u;
                    assert(t.queue.items[j] == u);
                } else if s.seeds.contains(u) {
                    let j = choose|j: int| 0 <= j < s.seeds.len() && s.seeds[j] == u;
                    if j < k {
                        assert(t.queue.items[s.queue.items.len() + j] == u);
                    } else {
                        assert(t.seeds[j - k] == u);
                    }
                } else if !s.visited.contains(u) {
                    let w = choose|w: int|
                        0 <= w < s.workers.len() && (#[trigger] s.workers[w]).outbox.contains(u);
                    assert(t.workers[w].outbox.contains(u));
                }
            }
        },
        Event::Complete(w, links) => {
            if 0 <= w < s.workers.len() && s.workers[w].fetching is Some {
                if !s.visited.contains(u) && !s.queue.items.contains(u) && !s.seeds.contains(u) {
                    let v = choose|v: int|
                        0 <= v < s.workers.len() && (#[trigger] s.workers[v]).outbox.contains(u);
                    if v == w {
                        let j = choose|j: int|
                            0 <= j < s.workers[w].outbox.len() && s.workers[w].outbox[j] == u;
                        assert(t.workers[w].outbox[j] == u);
                    }
                    assert(t.workers[v].outbox.contains(u));
                }
            }
        },
        Event::Poll(w) => {
            if !s.active(w) || s.workers[w].fetching is Some {
            } else {
                let stream = s.queue.items + s.workers[w].outbox;
                let i = first_fresh(stream, s.visited) as int;
                lemma_first_fresh(stream, s.visited);
                if s.visited.contains(u) {
                    if i < stream.len() {
                        let j = choose|j: int| 0 <= j < s.visited.len() && s.visited[j] == u;
                        assert(t.visited[j] == u);
                    }
                } else if s.seeds.contains(u) {
                } else {
                    let held = exists|v: int|
                        0 <= v < s.workers.len() && v != w && (#[trigger] s.workers[v]).outbox.contains(
                            u,
                        );
                    if held {
                        let v = choose|v: int|
                            0 <= v < s.workers.len() && v != w && (
                            #[trigger] s.workers[v]).outbox.contains(u);
                        assert(t.workers[v] == s.workers[v]);
                        assert(t.workers[v].outbox.contains(u));
                    } else {
                        assert(stream.contains(u)) by {
                            if s.queue.items.contains(u) {
                                let j = choose|j: int|
                                    0 <= j < s.queue.items.len() && s.queue.items[j] == u;
                                assert(stream[j] == u);
                            } else {
                                let v = choose|v: int|
                                    0 <= v < s.workers.len() && (
                                    #[trigger] s.workers[v]).outbox.contains(u);
                                assert(v == w);
                                let j = choose|j: int|
                                    0 <= j < s.workers[w].outbox.len() && s.workers[w].outbox[j]
                                        == u;
                                assert(stream[s.queue.items.len() + j] == u);
                            }
                        }
                        let j = choose|j: int| 0 <= j < stream.len() && stream[j] == u;
                        if j < i {
                            assert(s.visited.contains(stream[j]));
                        } else if j == i {
                            assert(t.visited[s.visited.len() as int] == u);
                        } else {
                            let rest = stream.skip(i + 1);
                            let k = fits(
                                crate::frontier::QueueView { items: Seq::empty(), ..s.queue },
                                rest.len(),
                            ) as int;
                            assert(rest[j - i - 1] == u);
                            if j - i - 1 < k {
                                assert(t.queue.items[j - i - 1] == u);
                            } else {
                                assert(t.workers[w].outbox[j - i - 1 - k] == u);
                                assert(t.workers[w].outbox.contains(u));
                            }
                        }
                    }
                }
            }
        },
    }
}

/// In a crawl without a ceiling, the links of a claimed page are known as
/// soon as its fetch is over and truthfully reported.
pub proof fn lemma_links_step(
    s: CrawlView,
    e: Event,
    site: Map<Seq<char>, Seq<Seq<char>>>,
    u: Seq<char>,
    v: Seq<char>,
)
    requires
        s.inv(),
        s.ceiling is None,
        truthful(s, e, site),
        links_on(site, u).contains(v),
        in_fetch(s, u) || known(s, v),
    ensures
        in_fetch(step(s, e), u) || known(step(s, e), v),
{
    let t = step(s, e);
    if known(s, v) {
        lemma_known_step(s, e, v);
    } else {
        let x = choose|x: int| 0 <= x < s.workers.len() && (#[trigger] s.workers[x]).fetching == Some(u);
        match e {
            Event::Seed => {
                assert(t.workers[x].fetching == Some(u));
            },
            Event::Poll(w) => {
                assert(t.workers[x] == s.workers[x]);
                assert(t.workers[x].fetching == Some(u));
            },
            Event::Complete(w, links) => {
                if w == x {
                    let j = choose|j: int| 0 <= j < links.len() && links[j] == v;
                    assert(t.workers[w].outbox[s.workers[w].outbox.len() + j] == v);
                    assert(t.workers[w].outbox.contains(v));
                } else {
                    assert(t.workers[x] == s.workers[x]);
                    assert(t.workers[x].fetching == Some(u));
                }
            },
        }
    }
}

/// A URL that a step claims is being fetched after the step.
pub proof fn lemma_claim_step(s: CrawlView, e: Event, u: Seq<char>)
    requires
        s.inv(),
        !s.visited.contains(u),
        step(s, e).visited.contains(u),
    ensures
        in_fetch(step(s, e), u),
{
    let t = step(s, e);
    match e {
        Event::Poll(w) => {
            if s.active(w) && s.workers[w].fetching is None && !s.halted() {
                let stream = s.queue.items + s.workers[w].outbox;
                let i = first_fresh(stream, s.visited) as int;
                lemma_first_fresh(stream, s.visited);
                if i < stream.len() {
                    let j = choose|j: int| 0 <= j < t.visited.len() && t.visited[j] == u;
                    if j < s.visited.len() {
                        assert(s.visited[j] == u);
                    }
                    assert(t.workers[w].fetching == Some(u));
                }
            }
        },
        _ => {},
    }
}

/// In a crawl without a ceiling, a truthfully reported step loses nothing.
pub proof fn lemma_covered_step(
    s: CrawlView,
    e: Event,
    seeds: Seq<Seq<char>>,
    site: Map<Seq<char>, Seq<Seq<char>>>,
)
    requires
        s.inv(),
        s.ceiling is None,
        truthful(s, e, site),
        covered(s, seeds, site),
    ensures
        covered(step(s, e), seeds, site),
{
    let t = step(s, e);
    assert forall|u: Seq<char>| #[trigger] seeds.contains(u) implies known(t, u) by {
        lemma_known_step(s, e, u);
    }
    assert forall|u: Seq<char>, v: Seq<char>|
        t.visited.contains(u) && #[trigger] links_on(site, u).contains(v) implies in_fetch(t, u)
        || known(t, v) by {
        if s.visited.contains(u) {
            lemma_links_step(s, e, site, u, v);
        } else {
            lemma_claim_step(s, e, u);
        }
    }
}

/// In a crawl without a ceiling, a truthfully reported run loses nothing.
pub proof fn lemma_covered_run(
    s: CrawlView,
    events: Seq<Event>,
    seeds: Seq<Seq<char>>,
    site: Map<Seq<char>, Seq<Seq<char>>>,
)
    requires
        s.inv(),
        s.ceiling is None,
        faithful(s, events, site),
        covered(s, seeds, site),
    ensures
        covered(run(s, events), seeds, site),
    decreases events.len(),
{
    if events.len() > 0 {
        let front = events.drop_last();
        lemma_covered_run(s, front, seeds, site);
        law_invariant(s, front);
        lemma_run_frame(s, front);
        lemma_covered_step(run(s, front), events.last(), seeds, site);
    }
}

/// Completeness. Take a crawl without a ceiling, from
/// any seeds, with any number of workers and any capacity, and any run of it
/// in which every report is what the web `site` gives: the links of the page
/// where the fetch succeeds, none where it fails. Once the crawl is over,
/// every URL that can be reached from a seed over the links of pages whose
/// fetch succeeds is visited. A failing page costs the crawl the links of
/// that page and nothing else.
pub proof fn law_reachable_is_visited(
    seeds: Seq<Seq<char>>,
    workers: nat,
    bound: Option<nat>,
    site: Map<Seq<char>, Seq<Seq<char>>>,
    events: Seq<Event>,
    url: Seq<char>,
)
    requires
        bound != Some(0nat),
        faithful(CrawlView::start(seeds, workers, bound, None), events, site),
        run(CrawlView::start(seeds, workers, bound, None), events).over(),
        reachable(seeds, site, url),
    ensures
        run(CrawlView::start(seeds, workers, bound, None), events).visited.contains(url),
{
    let start = CrawlView::start(seeds, workers, bound, None);
    let end = run(start, events);
    lemma_start_inv(seeds, workers, bound, None);
    law_invariant(start, events);
    lemma_run_frame(start, events);
    assert(covered(start, seeds, site));
    lemma_covered_run(start, events, seeds, site);
    let gone = choose|w: int| 0 <= w < end.workers.len() && (#[trigger] end.workers[w]).exited;
    assert(!end.queue.open);
    assert(end.quiet());
    let path = choose|path: Seq<Seq<char>>| #[trigger]
        is_path(seeds, site, path) && path.last() == url;
    lemma_path_visited(end, seeds, site, path, path.len() - 1);
}

/// Failure isolation. Let the fetch of one page fail that the web `site`
/// would have given. The crawl still visits every URL that can be reached
/// without the links of that page, the failing page itself among them if a
/// link leads to it.
pub proof fn law_failure_is_isolated(
    seeds: Seq<Seq<char>>,
    workers: nat,
    bound: Option<nat>,
    site: Map<Seq<char>, Seq<Seq<char>>>,
    failing: Seq<char>,
    events: Seq<Event>,
    url: Seq<char>,
)
    requires
        bound != Some(0nat),
        faithful(CrawlView::start(seeds, workers, bound, None), events, site.remove(failing)),
        run(CrawlView::start(seeds, workers, bound, None), events).over(),
        reachable(seeds, site.remove(failing), url),
    ensures
        run(CrawlView::start(seeds, workers, bound, None), events).visited.contains(url),
{
    law_reachable_is_visited(seeds, workers, bound, site.remove(failing), events, url);
}

/// In a state that has lost nothing and in which no work is left, every URL
/// on a path from a seed is visited.
proof fn lemma_path_visited(
    s: CrawlView,
    seeds: Seq<Seq<char>>,
    site: Map<Seq<char>, Seq<Seq<char>>>,
    path: Seq<Seq<char>>,
    i: int,
)
    requires
        s.quiet(),
        covered(s, seeds, site),
        is_path(seeds, site, path),
        0 <= i < path.len(),
    ensures
        s.visited.contains(path[i]),
    decreases i,
{
    lemma_quiet_known(s, path[i]);
    if i == 0 {
        assert(known(s, path[0]));
    } else {
        lemma_path_visited(s, seeds, site, path, i - 1);
        assert(links_on(site, path[i - 1]).contains(path[i]));
        assert(in_fetch(s, path[i - 1]) || known(s, path[i]));
        if in_fetch(s, path[i - 1]) {
            let w = choose|w: int|
                0 <= w < s.workers.len() && (#[trigger] s.workers[w]).fetching == Some(path[i - 1]);
            assert(s.workers[w].is_idle());
        }
    }
}

/// Where no work is left, a URL that is known is visited.
proof fn lemma_quiet_known(s: CrawlView, u: Seq<char>)
    requires
        s.quiet(),
    ensures
        known(s, u) ==> s.visited.contains(u),
{
    if pending(s, u) {
        if exists|w: int| 0 <= w < s.workers.len() && (#[trigger] s.workers[w]).outbox.contains(u) {
            let w = choose|w: int|
                0 <= w < s.workers.len() && (#[trigger] s.workers[w]).outbox.contains(u);
            assert(s.workers[w].is_idle());
        }
    }
}

/// Whether every URL of `urls` is one of `universe`.
pub open spec fn all_in(urls: Seq<Seq<char>>, universe: Set<Seq<char>>) -> bool {
    forall|i: int| 0 <= i < urls.len() ==> universe.contains(#[trigger] urls[i])
}

/// Whether every link of every page of `universe` leads to a page of
/// `universe`.
pub open spec fn closed_under(
    universe: Set<Seq<char>>,
    site: Map<Seq<char>, Seq<Seq<char>>>,
) -> bool {
    forall|u: Seq<char>, v: Seq<char>|
        universe.contains(u) && #[trigger] links_on(site, u).contains(v) ==> universe.contains(v)
}

/// Whether every URL that occurs in the state is one of `universe`.
pub open spec fn within(s: CrawlView, universe: Set<Seq<char>>) -> bool {
    &&& all_in(s.visited, universe)
    &&& all_in(s.queue.items, universe)
    &&& all_in(s.seeds, universe)
    &&& forall|w: int|
        0 <= w < s.workers.len() ==> all_in((#[trigger] s.workers[w]).outbox, universe) && (
        s.workers[w].fetching is Some ==> universe.contains(s.workers[w].fetching.unwrap()))
}

/// A truthfully reported step keeps the state within a universe that is
/// closed under the links of the web.
pub proof fn lemma_within_step(
    s: CrawlView,
    e: Event,
    universe: Set<Seq<char>>,
    site: Map<Seq<char>, Seq<Seq<char>>>,
)
    requires
        s.inv(),
        closed_under(universe, site),
        within(s, universe),
        truthful(s, e, site),
    ensures
        within(step(s, e), universe),
{
    let t = step(s, e);
    match e {
        Event::Seed => {
            assert forall|w: int| 0 <= w < t.workers.len() implies all_in(
                (#[trigger] t.workers[w]).outbox,
                universe,
            ) && (t.workers[w].fetching is Some ==> universe.contains(
                t.workers[w].fetching.unwrap(),
            )) by {
                assert(t.workers[w] == s.workers[w]);
            }
            if !(s.halted() || !s.queue.open) {
                let k = fits(s.queue, s.seeds.len()) as int;
                assert forall|i: int| 0 <= i < t.queue.items.len() implies universe.contains(
                    #[trigger] t.queue.items[i],
                ) by {
                    if i < s.queue.items.len() {
                        assert(t.queue.items[i] == s.queue.items[i]);
                    } else {
                        assert(t.queue.items[i] == s.seeds[i - s.queue.items.len()]);
                    }
                }
                assert forall|i: int| 0 <= i < t.seeds.len() implies universe.contains(
                    #[trigger] t.seeds[i],
                ) by {
                    assert(t.seeds[i] == s.seeds[i + k]);
                }
            }
        },
        Event::Complete(w, links) => {
            if 0 <= w < s.workers.len() && s.workers[w].fetching is Some {
                let url = s.workers[w].fetching.unwrap();
                assert forall|v: int| 0 <= v < t.workers.len() implies all_in(
                    (#[trigger] t.workers[v]).outbox,
                    universe,
                ) && (t.workers[v].fetching is Some ==> universe.contains(
                    t.workers[v].fetching.unwrap(),
                )) by {
                    if v == w {
                        let own = s.workers[w].outbox;
                        assert forall|i: int| 0 <= i < t.workers[w].outbox.len() implies universe.contains(
                        #[trigger] t.workers[w].outbox[i]) by {
                            if i < own.len() {
                                assert(t.workers[w].outbox[i] == own[i]);
                            } else {
                                assert(t.workers[w].outbox[i] == links[i - own.len()]);
                                assert(links_on(site, url).contains(links[i - own.len()]));
                            }
                        }
                    } else {
                        assert(t.workers[v] == s.workers[v]);
                    }
                }
            }
        },
        Event::Poll(w) => {
            if !s.active(w) || s.workers[w].fetching is Some {
            } else {
                let stream = s.queue.items + s.workers[w].outbox;
                let i = first_fresh(stream, s.visited) as int;
                lemma_first_fresh(stream, s.visited);
                assert(all_in(stream, universe)) by {
                    assert forall|j: int| 0 <= j < stream.len() implies universe.contains(
                        #[trigger] stream[j],
                    ) by {
                        if j < s.queue.items.len() {
                            assert(stream[j] == s.queue.items[j]);
                        } else {
                            assert(stream[j] == s.workers[w].outbox[j - s.queue.items.len()]);
                        }
                    }
                }
                assert forall|v: int| 0 <= v < t.workers.len() implies all_in(
                    (#[trigger] t.workers[v]).outbox,
                    universe,
                ) && (t.workers[v].fetching is Some ==> universe.contains(
                    t.workers[v].fetching.unwrap(),
                )) by {
                    if v != w {
                        assert(t.workers[v] == s.workers[v]);
                    } else if !s.halted() && i < stream.len() {
                        let rest = stream.skip(i + 1);
                        let k = fits(crate::frontier::QueueView { items: Seq::empty(), ..s.queue }, rest.len()) as int;
                        assert forall|j: int| 0 <= j < t.workers[w].outbox.len() implies universe.contains(
                        #[trigger] t.workers[w].outbox[j]) by {
                            assert(t.workers[w].outbox[j] == stream[i + 1 + k + j]);
                        }
                    }
                }
                if !s.halted() && i < stream.len() {
                    let rest = stream.skip(i + 1);
                    let k = fits(crate::frontier::QueueView { items: Seq::empty(), ..s.queue }, rest.len()) as int;
                    assert forall|j: int| 0 <= j < t.queue.items.len() implies universe.contains(
                        #[trigger] t.queue.items[j],
                    ) by {
                        assert(t.queue.items[j] == stream[i + 1 + j]);
                    }
                    assert forall|j: int| 0 <= j < t.visited.len() implies universe.contains(
                        #[trigger] t.visited[j],
                    ) by {
                        if j < s.visited.len() {
                            assert(t.visited[j] == s.visited[j]);
                        } else {
                            assert(t.visited[j] == stream[i]);
                        }
                    }
                }
            }
        },
    }
}

/// The URLs that can be reached from the seeds.
pub open spec fn reachable_set(
    seeds: Seq<Seq<char>>,
    site: Map<Seq<char>, Seq<Seq<char>>>,
) -> Set<Seq<char>> {
    Set::new(|url: Seq<char>| reachable(seeds, site, url))
}

/// The seeds can be reached, and so can every URL that a link of a page
/// which can be reached leads to.
pub proof fn lemma_reachable_closed(seeds: Seq<Seq<char>>, site: Map<Seq<char>, Seq<Seq<char>>>)
    ensures
        all_in(seeds, reachable_set(seeds, site)),
        closed_under(reachable_set(seeds, site), site),
{
    assert forall|i: int| 0 <= i < seeds.len() implies reachable_set(seeds, site).contains(
        #[trigger] seeds[i],
    ) by {
        let path = seq![seeds[i]];
        assert(path[0] == seeds[i]);
        assert(is_path(seeds, site, path));
        assert(path.last() == seeds[i]);
    }
    assert forall|u: Seq<char>, v: Seq<char>|
        reachable_set(seeds, site).contains(u) && #[trigger] links_on(site, u).contains(
            v,
        ) implies reachable_set(seeds, site).contains(v) by {
        let path = choose|path: Seq<Seq<char>>| #[trigger]
            is_path(seeds, site, path) && path.last() == u;
        let longer = path.push(v);
        assert(longer[0] == path[0]);
        assert forall|i: int| 0 <= i < longer.len() - 1 implies links_on(
            site,
            #[trigger] longer[i],
        ).contains(longer[i + 1]) by {
            if i < path.len() - 1 {
                assert(longer[i] == path[i]);
                assert(longer[i + 1] == path[i + 1]);
            } else {
                assert(longer[i] == path.last());
                assert(longer[i + 1] == v);
            }
        }
        assert(is_path(seeds, site, longer));
        assert(longer.last() == v);
    }
}

/// A truthfully reported run keeps the state within a universe that is
/// closed under the links of the web.
pub proof fn lemma_within_run(
    s: CrawlView,
    events: Seq<Event>,
    universe: Set<Seq<char>>,
    site: Map<Seq<char>, Seq<Seq<char>>>,
)
    requires
        s.inv(),
        closed_under(universe, site),
        within(s, universe),
        faithful(s, events, site),
    ensures
        within(run(s, events), universe),
    decreases events.len(),
{
    if events.len() > 0 {
        let front = events.drop_last();
        lemma_within_run(s, front, universe, site);
        law_invariant(s, front);
        lemma_within_step(run(s, front), events.last(), universe, site);
    }
}

/// Soundness. At every moment of a crawl in which every report is what the
/// web gives, with or without a ceiling, every URL that is claimed can be
/// reached from a seed.
pub proof fn law_visited_is_reachable(
    seeds: Seq<Seq<char>>,
    workers: nat,
    bound: Option<nat>,
    ceiling: Option<nat>,
    site: Map<Seq<char>, Seq<Seq<char>>>,
    events: Seq<Event>,
    url: Seq<char>,
)
    requires
        bound != Some(0nat),
        faithful(CrawlView::start(seeds, workers, bound, ceiling), events, site),
        run(CrawlView::start(seeds, workers, bound, ceiling), events).visited.contains(url),
    ensures
        reachable(seeds, site, url),
{
    let start = CrawlView::start(seeds, workers, bound, ceiling);
    let all = reachable_set(seeds, site);
    lemma_start_inv(seeds, workers, bound, ceiling);
    lemma_reachable_closed(seeds, site);
    assert(within(start, all));
    lemma_within_run(start, events, all, site);
    let end = run(start, events);
    let i = choose|i: int| 0 <= i < end.visited.len() && end.visited[i] == url;
    assert(all.contains(end.visited[i]));
}

/// The result of a crawl. Once a crawl without a ceiling is over, in which
/// every report was what the web gives, the visited URLs are exactly those
/// that can be reached from the seeds.
pub proof fn law_result(
    seeds: Seq<Seq<char>>,
    workers: nat,
    bound: Option<nat>,
    site: Map<Seq<char>, Seq<Seq<char>>>,
    events: Seq<Event>,
)
    requires
        bound != Some(0nat),
        faithful(CrawlView::start(seeds, workers, bound, None), events, site),
        run(CrawlView::start(seeds, workers, bound, None), events).over(),
    ensures
        run(CrawlView::start(seeds, workers, bound, None), events).visited.to_set()
            == reachable_set(seeds, site),
{
    let end = run(CrawlView::start(seeds, workers, bound, None), events);
    assert forall|url: Seq<char>| end.visited.to_set().contains(url) <==> reachable_set(
        seeds,
        site,
    ).contains(url) by {
        if end.visited.contains(url) {
            law_visited_is_reachable(seeds, workers, bound, None, site, events, url);
        }
        if reachable(seeds, site, url) {
            law_reachable_is_visited(seeds, workers, bound, site, events, url);
        }
    }
    assert(end.visited.to_set() =~= reachable_set(seeds, site));
}

} // verus!
