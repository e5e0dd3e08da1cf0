//! The crawl engine: the frontier queue, the visited set and the state of
//! every worker, behind one value that the pool shares under a lock. Each
//! operation is one step of the state machine of `model`.

use crate::channel::max_bound;
use crate::frontier::{FrontierQueue, Next, QueueError, QueueView, SubmitError};
use crate::links::PageError;
use crate::model::{
    busy_count, first_fresh, fits, lemma_busy_count, lemma_busy_update, lemma_first_fresh_is,
    CrawlView, TaskView, WorkerView,
};
use crate::visited::VisitedSet;
use std::collections::VecDeque;
use vstd::prelude::*;

verus! {

/// What a worker is told to do next.
#[derive(Debug)]
pub enum Task {
    /// Fetch this URL, which the worker now owns, and report the page with
    /// `complete`.
    Fetch(String),
    /// Nothing to do for now; ask again when the state has changed.
    Wait,
    /// No work will ever come; stop.
    Exit,
}

impl View for Task {
    type V = TaskView;

    open spec fn view(&self) -> TaskView {
        match self {
            Task::Fetch(url) => TaskView::Fetch(url@),
            Task::Wait => TaskView::Wait,
            Task::Exit => TaskView::Exit,
        }
    }
}

/// Why a crawl could not be set up.
#[derive(Clone, Copy, Debug, PartialEq, Eq)]
pub enum SetupError {
    /// A pool without workers would never fetch anything.
    NoWorkers,
    /// The frontier queue could not be made.
    Queue(QueueError),
}

struct Worker {
    fetching: Option<String>,
    outbox: VecDeque<String>,
    exited: bool,
}

impl View for Worker {
    type V = WorkerView;

    closed spec fn view(&self) -> WorkerView {
        WorkerView {
            fetching: self.fetching.deep_view(),
            outbox: self.outbox.deep_view(),
            exited: self.exited,
        }
    }
}

/// One crawl: everything that its workers share.
pub struct Crawl {
    queue: FrontierQueue,
    visited: VisitedSet,
    workers: Vec<Worker>,
    seeds: VecDeque<String>,
    ceiling: Option<usize>,
    in_flight: usize,
}

/// An optional count as a value of the model.
pub open spec fn count_view(count: Option<usize>) -> Option<nat> {
    match count {
        Some(c) => Some(c as nat),
        None => None,
    }
}

/// The links that a page's report contributes: none if the page failed.
pub open spec fn page_links(page: Result<Vec<String>, PageError>) -> Seq<Seq<char>> {
    match page {
        Ok(links) => links.deep_view(),
        Err(_) => Seq::empty(),
    }
}

impl View for Crawl {
    type V = CrawlView;

    closed spec fn view(&self) -> CrawlView {
        CrawlView {
            queue: self.queue@,
            visited: self.visited.claimed(),
            workers: Seq::new(self.workers@.len(), |w: int| self.workers@[w]@),
            seeds: self.seeds.deep_view(),
            ceiling: count_view(self.ceiling),
        }
    }
}

/// The same URLs, in the same order, ready to be taken from the front.
fn to_deque(urls: Vec<String>) -> (deque: VecDeque<String>)
    ensures
        deque.deep_view() == urls.deep_view(),
{
    let mut urls = urls;
    let ghost all = urls.deep_view();
    let mut deque: VecDeque<String> = VecDeque::new();
    assert(urls.deep_view() + deque.deep_view() =~= all);
    while urls.len() > 0
        invariant
            urls.deep_view() + deque.deep_view() == all,
        decreases urls.len(),
    {
        let ghost front = urls.deep_view();
        let ghost back = deque.deep_view();
        let url = urls.pop().unwrap();
        deque.push_front(url);
        assert(urls.deep_view() + deque.deep_view() =~= front + back);
    }
    assert(deque.deep_view() =~= urls.deep_view() + deque.deep_view());
    deque
}

/// Moves URLs from the front of `outbox` to the queue until the queue
/// refuses one.
fn flush(queue: &mut FrontierQueue, outbox: &mut VecDeque<String>)
    requires
        old(queue).wf(),
        old(queue)@.open,
    ensures
        final(queue).wf(),
        ({
            let k = fits(old(queue)@, old(outbox).deep_view().len()) as int;
            &&& final(queue)@ == (QueueView {
                items: old(queue)@.items + old(outbox).deep_view().take(k),
                ..old(queue)@
            })
            &&& final(outbox).deep_view() == old(outbox).deep_view().skip(k)
        }),
{
    let ghost all = outbox.deep_view();
    let ghost before = queue@;
    let ghost mut moved: int = 0;
    proof {
        queue.lemma_inv();
        assert(before.items + all.take(0) =~= before.items);
        assert(all.skip(0) =~= all);
    }
    loop
        invariant
            queue.wf(),
            before.inv(),
            before.open,
            0 <= moved <= all.len(),
            moved <= fits(before, all.len()),
            queue@ == (QueueView { items: before.items + all.take(moved), ..before }),
            outbox.deep_view() == all.skip(moved),
        ensures
            queue.wf(),
            moved == fits(before, all.len()),
            queue@ == (QueueView { items: before.items + all.take(moved), ..before }),
            outbox.deep_view() == all.skip(moved),
        decreases all.len() - moved,
    {
        let ghost left = outbox.deep_view();
        let ghost held = outbox@;
        match outbox.pop_front() {
            None => {
                assert(outbox.deep_view() =~= left);
                break ;
            },
            Some(url) => {
                assert(left.len() == held.len());
                assert(url@ == all[moved]) by {
                    assert(held[0].deep_view() == left[0]);
                    assert(left[0] == all[moved]);
                }
                assert(outbox.deep_view() =~= all.skip(moved + 1)) by {
                    assert(outbox.deep_view() =~= left.skip(1));
                    assert(left.skip(1) =~= all.skip(moved + 1));
                }
                match queue.submit(url) {
                    Ok(_) => {
                        proof {
                            assert(all.take(moved + 1) =~= all.take(moved).push(all[moved]));
                            assert(before.items + all.take(moved + 1) =~= (before.items + all.take(
                                moved,
                            )).push(all[moved]));
                            moved = moved + 1;
                        }
                    },
                    Err(refused) => {
                        let back = match refused {
                            SubmitError::Full(back) => back,
                            SubmitError::Closed(back) => back,
                        };
                        outbox.push_front(back);
                        assert(outbox.deep_view() =~= all.skip(moved));
                        break ;
                    },
                }
            },
        }
    }
}

/// Goes through the pending URLs, the queue's first and then those of
/// `outbox`, until one is claimed.
fn next_fresh(
    queue: &mut FrontierQueue,
    outbox: &mut VecDeque<String>,
    visited: &mut VisitedSet,
) -> (found: Option<String>)
    requires
        old(queue).wf(),
        old(visited).wf(),
    ensures
        final(queue).wf(),
        final(visited).wf(),
        ({
            let stream = old(queue)@.items + old(outbox).deep_view();
            let i = first_fresh(stream, old(visited).claimed()) as int;
            &&& final(queue)@.bound == old(queue)@.bound
            &&& final(queue)@.open == old(queue)@.open
            &&& final(queue)@.items.len() <= old(queue)@.items.len()
            &&& i <= stream.len()
            &&& final(queue)@.items + final(outbox).deep_view() == (if i < stream.len() {
                stream.skip(i + 1)
            } else {
                Seq::empty()
            })
            &&& match found {
                Some(url) => i < stream.len() && url@ == stream[i] && final(visited).claimed()
                    == old(visited).claimed().push(url@),
                None => i == stream.len() && final(visited).claimed() == old(visited).claimed(),
            }
        }),
{
    let ghost stream = queue@.items + outbox.deep_view();
    let ghost seen = visited.claimed();
    let ghost first = queue@;
    let ghost mut passed: int = 0;
    proof {
        assert(stream.skip(0) =~= stream);
    }
    loop
        invariant
            stream == old(queue)@.items + old(outbox).deep_view(),
            seen == old(visited).claimed(),
            first == old(queue)@,
            queue.wf(),
            visited.wf(),
            visited.claimed() == seen,
            queue@.bound == first.bound,
            queue@.open == first.open,
            queue@.items.len() <= first.items.len(),
            0 <= passed <= stream.len(),
            queue@.items + outbox.deep_view() == stream.skip(passed),
            forall|j: int| 0 <= j < passed ==> seen.contains(#[trigger] stream[j]),
        decreases stream.len() - passed,
    {
        let ghost items = queue@.items;
        let ghost own = outbox.deep_view();
        let candidate = match queue.next() {
            Next::Item(url) => {
                assert(queue@.items + outbox.deep_view() =~= (items + own).skip(1));
                Some(url)
            },
            _ => {
                let ghost held = outbox@;
                let taken = outbox.pop_front();
                proof {
                    assert(items + own =~= own);
                    if taken is Some {
                        assert(held[0].deep_view() == own[0]);
                        assert(outbox.deep_view() =~= own.skip(1));
                        assert(queue@.items + outbox.deep_view() =~= (items + own).skip(1));
                    } else {
                        assert(own.len() == 0);
                    }
                }
                taken
            },
        };
        match candidate {
            None => {
                proof {
                    assert(stream.skip(passed).len() == 0);
                    lemma_first_fresh_is(stream, seen, passed);
                    assert(queue@.items + outbox.deep_view() =~= Seq::<Seq<char>>::empty());
                }
                return None;
            },
            Some(url) => {
                proof {
                    assert((items + own).len() > 0);
                    assert(url@ == (items + own)[0]);
                    assert(stream.skip(passed)[0] == stream[passed]);
                    assert(stream.skip(passed).skip(1) =~= stream.skip(passed + 1));
                }
                if visited.claim(url.as_str()) {
                    proof {
                        lemma_first_fresh_is(stream, seen, passed);
                    }
                    return Some(url);
                } else {
                    proof {
                        assert(seen.contains(stream[passed]));
                        passed = passed + 1;
                    }
                }
            },
        }
    }
}

impl Crawl {
    /// Well-formedness: the parts are well-formed, the state satisfies the
    /// invariant of the model, and the in-flight counter is the number of
    /// workers that hold work.
    pub closed spec fn wf(&self) -> bool {
        &&& self.queue.wf()
        &&& self.visited.wf()
        &&& self@.inv()
        &&& self.in_flight == busy_count(self@.workers)
    }

    /// A well-formed crawl satisfies the invariant of the model.
    pub proof fn lemma_inv(&self)
        requires
            self.wf(),
        ensures
            self@.inv(),
    {
    }

    /// A crawl that is about to start: nothing is claimed, the queue is
    /// empty, every worker is idle and every seed waits to be submitted.
    pub fn new(
        seeds: Vec<String>,
        workers: usize,
        capacity: Option<usize>,
        ceiling: Option<usize>,
    ) -> (made: Result<Crawl, SetupError>)
        ensures
            match made {
                Ok(crawl) => {
                    &&& crawl.wf()
                    &&& crawl@ == CrawlView::start(
                        seeds.deep_view(),
                        workers as nat,
                        count_view(capacity),
                        count_view(ceiling),
                    )
                    &&& workers > 0
                    &&& capacity != Some(0usize)
                    &&& capacity is Some ==> capacity.unwrap() <= max_bound()
                },
                Err(SetupError::NoWorkers) => workers == 0,
                Err(SetupError::Queue(QueueError::ZeroCapacity)) => workers > 0 && capacity == Some(
                    0usize,
                ),
                Err(SetupError::Queue(QueueError::CapacityTooLarge)) => workers > 0
                    && capacity is Some && capacity.unwrap() > max_bound(),
            },
    {
        if workers == 0 {
            return Err(SetupError::NoWorkers);
        }
        let queue = match FrontierQueue::new(capacity) {
            Ok(queue) => queue,
            Err(e) => {
                return Err(SetupError::Queue(e));
            },
        };
        let mut pool: Vec<Worker> = Vec::new();
        while pool.len() < workers
            invariant
                pool.len() <= workers,
                forall|w: int| 0 <= w < pool.len() ==> (#[trigger] pool@[w])@ == WorkerView::idle(),
            decreases workers - pool.len(),
        {
            let worker = Worker { fetching: None, outbox: VecDeque::new(), exited: false };
            assert(worker@.outbox =~= Seq::<Seq<char>>::empty());
            pool.push(worker);
        }
        let crawl = Crawl {
            queue,
            visited: VisitedSet::new(),
            workers: pool,
            seeds: to_deque(seeds),
            ceiling,
            in_flight: 0,
        };
        proof {
            let start = CrawlView::start(
                seeds.deep_view(),
                workers as nat,
                count_view(capacity),
                count_view(ceiling),
            );
            assert(crawl@.workers =~= start.workers);
            lemma_busy_count(crawl@.workers);
            crawl.queue.lemma_inv();
        }
        Ok(crawl)
    }

    /// Whether the ceiling on the number of claims has been reached.
    pub fn is_halted(&self) -> (halted: bool)
        requires
            self.wf(),
        ensures
            halted == self@.halted(),
    {
        match self.ceiling {
            Some(c) => self.visited.len() >= c,
            None => false,
        }
    }

    /// The coordinator's step: submits the seeds that are left as far as the
    /// queue has room. Returns whether no seed is left to submit.
    pub fn seed(&mut self) -> (done: bool)
        requires
            old(self).wf(),
        ensures
            final(self).wf(),
            final(self)@ == old(self)@.seed(),
            done == (final(self)@.seeds.len() == 0),
    {
        if self.is_halted() || self.queue.is_closed() {
            self.queue.close();
            self.seeds.clear();
            proof {
                assert(self.seeds.deep_view() =~= Seq::<Seq<char>>::empty());
                assert(self@.workers =~= old(self)@.workers);
            }
            true
        } else {
            proof {
                self.queue.lemma_inv();
            }
            flush(&mut self.queue, &mut self.seeds);
            proof {
                assert(self@.workers =~= old(self)@.workers);
                assert(self@.seeds.len() > 0 ==> !self@.quiet());
            }
            self.seeds.len() == 0
        }
    }

    /// A worker's step: tells the worker `w` what to do next. A URL is handed
    /// out for fetching at the moment it is claimed, and so at most once.
    pub fn poll(&mut self, w: usize) -> (task: Task)
        requires
            old(self).wf(),
        ensures
            final(self).wf(),
            final(self)@ == old(self)@.poll(w as int).0,
            task@ == old(self)@.poll(w as int).1,
    {
        if w >= self.workers.len() {
            return Task::Exit;
        }
        if self.workers[w].exited {
            return Task::Exit;
        }
        if self.workers[w].fetching.is_some() {
            return Task::Wait;
        }
        let ghost start = self@;
        let halted = self.is_halted();
        let was_busy = self.workers[w].outbox.len() > 0;
        proof {
            assert(start.workers[w as int] == self.workers@[w as int]@);
            assert(was_busy == !start.workers[w as int].is_idle());
            lemma_busy_count(start.workers);
        }
        if halted {
            self.queue.close();
            self.workers[w].outbox.clear();
            self.workers[w].exited = true;
            proof {
                lemma_busy_update(start.workers, w as int, WorkerView::gone());
                assert(self.workers@[w as int]@.outbox =~= Seq::<Seq<char>>::empty());
                assert(self@.workers =~= start.workers.update(w as int, WorkerView::gone()));
            }
            if was_busy {
                self.in_flight = self.in_flight - 1;
            }
            return Task::Exit;
        }
        let mut outbox: VecDeque<String> = VecDeque::new();
        std::mem::swap(&mut outbox, &mut self.workers[w].outbox);
        let ghost stream = start.queue.items + start.workers[w as int].outbox;
        let ghost i = first_fresh(stream, start.visited) as int;
        let found = next_fresh(&mut self.queue, &mut outbox, &mut self.visited);
        match found {
            Some(url) => {
                let ghost rest = stream.skip(i + 1);
                let ghost taken = self.queue@.items;
                let ghost own = outbox.deep_view();
                proof {
                    self.queue.lemma_inv();
                    if !start.queue.open {
                        assert(start.quiet());
                        assert(start.workers[w as int].is_idle());
                    }
                }
                flush(&mut self.queue, &mut outbox);
                let claimed = url.clone();
                self.workers[w].outbox = outbox;
                self.workers[w].fetching = Some(claimed);
                proof {
                    let k = fits(QueueView { items: Seq::empty(), ..start.queue }, rest.len()) as int;
                    let moved = fits(QueueView { items: taken, ..start.queue }, own.len()) as int;
                    assert(taken + own == rest);
                    assert(k == taken.len() + moved);
                    assert(taken + own.take(moved) =~= rest.take(k));
                    assert(own.skip(moved) =~= rest.skip(k));
                    let worker = WorkerView {
                        fetching: Some(stream[i]),
                        outbox: rest.skip(k),
                        exited: false,
                    };
                    lemma_busy_update(start.workers, w as int, worker);
                    lemma_busy_count(start.workers.update(w as int, worker));
                    assert(self@.workers =~= start.workers.update(w as int, worker));
                }
                if !was_busy {
                    self.in_flight = self.in_flight + 1;
                }
                Task::Fetch(url)
            },
            None => {
                proof {
                    assert(self.queue@.items + outbox.deep_view() =~= Seq::<Seq<char>>::empty());
                    assert(self.queue@.items =~= Seq::<Seq<char>>::empty());
                    lemma_busy_update(start.workers, w as int, WorkerView::idle());
                    lemma_busy_count(start.workers.update(w as int, WorkerView::idle()));
                    assert(self.workers@[w as int]@.outbox =~= Seq::<Seq<char>>::empty());
                    assert(self@.workers =~= start.workers.update(w as int, WorkerView::idle()));
                }
                if was_busy {
                    self.in_flight = self.in_flight - 1;
                }
                let ghost drained = self@;
                if self.seeds.len() == 0 && self.in_flight == 0 {
                    self.queue.close();
                    self.workers[w].exited = true;
                    proof {
                        assert(drained.quiet());
                        lemma_busy_update(drained.workers, w as int, WorkerView::gone());
                        assert(self@.workers =~= start.workers.update(w as int, WorkerView::gone()));
                        assert(self@.workers =~= drained.workers.update(w as int, WorkerView::gone()));
                        assert(self@.quiet());
                    }
                    Task::Exit
                } else {
                    proof {
                        assert(!drained.quiet());
                        if !start.queue.open {
                            assert(start.quiet());
                            assert(drained.quiet());
                        }
                    }
                    Task::Wait
                }
            },
        }
    }

    /// The report of a page: the worker `w` has fetched its URL and found
    /// these links on the page, or failed. A failed page contributes no
    /// links, and its URL stays claimed. Returns whether the worker was
    /// fetching; a report from one that was not changes nothing.
    pub fn complete(&mut self, w: usize, page: Result<Vec<String>, PageError>) -> (accepted: bool)
        requires
            old(self).wf(),
        ensures
            final(self).wf(),
            final(self)@ == old(self)@.complete(w as int, page_links(page)),
            accepted == (w < old(self)@.workers.len() && old(self)@.workers[w as int].fetching
                is Some),
    {
        if w >= self.workers.len() {
            return false;
        }
        if self.workers[w].fetching.is_none() {
            return false;
        }
        let ghost start = self@;
        let links = match page {
            Ok(links) => links,
            Err(_) => {
                let none: Vec<String> = Vec::new();
                assert(none.deep_view() =~= Seq::<Seq<char>>::empty());
                none
            },
        };
        let mut found = to_deque(links);
        let ghost own = self.workers@[w as int]@.outbox;
        self.workers[w].fetching = None;
        self.workers[w].outbox.append(&mut found);
        let emptied = self.workers[w].outbox.len() == 0;
        proof {
            let worker = WorkerView { fetching: None, outbox: own + page_links(page), exited: false };
            assert(start.workers[w as int] == old(self).workers@[w as int]@);
            assert(self.workers@[w as int]@.outbox =~= own + page_links(page));
            assert(self@.workers =~= start.workers.update(w as int, worker));
            lemma_busy_update(start.workers, w as int, worker);
            assert(!start.quiet());
        }
        if emptied {
            self.in_flight = self.in_flight - 1;
        }
        true
    }

    /// The claimed URLs, each once, in the order of their claims.
    pub fn into_visited(self) -> (urls: Vec<String>)
        requires
            self.wf(),
        ensures
            urls.deep_view() == self@.visited,
            urls.deep_view().no_duplicates(),
    {
        self.visited.into_urls()
    }

    /// The number of claimed URLs.
    pub fn visited_len(&self) -> (n: usize)
        requires
            self.wf(),
        ensures
            n == self@.visited.len(),
    {
        self.visited.len()
    }

    /// The number of workers in the pool.
    pub fn workers(&self) -> (n: usize)
        ensures
            n == self@.workers.len(),
    {
        self.workers.len()
    }
}

} // verus!
