//! The crawl as a state machine over plain values: what each operation of the
//! engine does to the state, stated once, for the engine's contracts and for
//! the laws proved of every run.

use crate::frontier::QueueView;
use vstd::prelude::*;

verus! {

/// One worker of the pool.
pub struct WorkerView {
    /// The URL that the worker has claimed and is fetching, if any.
    pub fetching: Option<Seq<char>>,
    /// The links that the worker has found and not yet submitted.
    pub outbox: Seq<Seq<char>>,
    /// Whether the worker has been told to exit.
    pub exited: bool,
}

impl WorkerView {
    /// A worker that holds nothing.
    pub open spec fn idle() -> WorkerView {
        WorkerView { fetching: None, outbox: Seq::empty(), exited: false }
    }

    /// A worker that holds nothing and has been told to exit.
    pub open spec fn gone() -> WorkerView {
        WorkerView { fetching: None, outbox: Seq::empty(), exited: true }
    }

    /// Whether the worker holds no work that could still produce a submission.
    pub open spec fn is_idle(self) -> bool {
        self.fetching is None && self.outbox.len() == 0
    }
}

/// What a worker is told to do next.
pub enum TaskView {
    /// Fetch this URL, which the worker now owns, and report the page.
    Fetch(Seq<char>),
    /// Nothing to do for now; ask again when the state has changed.
    Wait,
    /// No work will ever come; stop.
    Exit,
}

/// The state of one crawl.
pub struct CrawlView {
    /// The frontier queue.
    pub queue: QueueView,
    /// The claimed URLs, in the order of their claims.
    pub visited: Seq<Seq<char>>,
    /// The workers of the pool.
    pub workers: Seq<WorkerView>,
    /// The seed URLs that are not yet submitted.
    pub seeds: Seq<Seq<char>>,
    /// The number of claims at which the crawl halts, if there is one.
    pub ceiling: Option<nat>,
}

/// How many of `n` URLs a queue accepts before it is full.
pub open spec fn fits(q: QueueView, n: nat) -> nat {
    match q.bound {
        None => n,
        Some(b) => if q.items.len() + n <= b {
            n
        } else if q.items.len() <= b {
            (b - q.items.len()) as nat
        } else {
            0
        },
    }
}

/// The position of the first URL of `stream` that is not in `visited`; the
/// length of `stream` if there is none.
pub open spec fn first_fresh(stream: Seq<Seq<char>>, visited: Seq<Seq<char>>) -> nat
    decreases stream.len(),
{
    if stream.len() == 0 || !visited.contains(stream[0]) {
        0
    } else {
        1 + first_fresh(stream.drop_first(), visited)
    }
}

/// The number of workers that are not idle.
pub open spec fn busy_count(workers: Seq<WorkerView>) -> nat
    decreases workers.len(),
{
    if workers.len() == 0 {
        0
    } else {
        busy_count(workers.drop_last()) + if workers.last().is_idle() {
            0nat
        } else {
            1nat
        }
    }
}

impl CrawlView {
    /// The state in which a crawl starts.
    pub open spec fn start(
        seeds: Seq<Seq<char>>,
        workers: nat,
        bound: Option<nat>,
        ceiling: Option<nat>,
    ) -> CrawlView {
        CrawlView {
            queue: QueueView { items: Seq::empty(), bound, open: true },
            visited: Seq::empty(),
            workers: Seq::new(workers, |i: int| WorkerView::idle()),
            seeds,
            ceiling,
        }
    }

    /// Whether the ceiling on the number of claims has been reached.
    pub open spec fn halted(self) -> bool {
        self.ceiling is Some && self.visited.len() >= self.ceiling.unwrap()
    }

    /// Whether no work is left anywhere: every seed is submitted, the queue is
    /// empty and every worker is idle.
    pub open spec fn quiet(self) -> bool {
        &&& self.seeds.len() == 0
        &&& self.queue.items.len() == 0
        &&& forall|w: int| 0 <= w < self.workers.len() ==> (#[trigger] self.workers[w]).is_idle()
    }

    /// Whether the crawl is over: a worker has been told to exit.
    pub open spec fn over(self) -> bool {
        exists|w: int| 0 <= w < self.workers.len() && (#[trigger] self.workers[w]).exited
    }

    /// Whether `w` names a worker that has not been told to exit.
    pub open spec fn active(self, w: int) -> bool {
        0 <= w < self.workers.len() && !self.workers[w].exited
    }

    /// What holds of every state of a crawl.
    pub open spec fn inv(self) -> bool {
        &&& self.queue.inv()
        &&& self.visited.no_duplicates()
        &&& self.ceiling is Some ==> self.visited.len() <= self.ceiling.unwrap()
        &&& !self.queue.open ==> self.halted() || self.quiet()
        &&& forall|w: int|
            0 <= w < self.workers.len() && (#[trigger] self.workers[w]).exited
                ==> self.workers[w].is_idle() && !self.queue.open
    }

    /// The coordinator's step: submits the seeds that are left, in their
    /// order, as far as the queue has room. In a halted crawl the seeds that
    /// are left are dropped and the queue is closed.
    pub open spec fn seed(self) -> CrawlView {
        if self.halted() || !self.queue.open {
            CrawlView { queue: self.queue.closed(), seeds: Seq::empty(), ..self }
        } else {
            let k = fits(self.queue, self.seeds.len());
            CrawlView {
                queue: QueueView { items: self.queue.items + self.seeds.take(k as int), ..self.queue },
                seeds: self.seeds.skip(k as int),
                ..self
            }
        }
    }

    /// A worker's step. The worker goes through the pending URLs, the queue's
    /// first and then its own links, and discards those that are claimed
    /// already. The first that is not, it claims: that URL is its task. What
    /// is left of its own links goes to the queue as far as the queue has
    /// room. If every pending URL was discarded, the worker waits, unless no
    /// work is left anywhere: then the queue is closed and the worker exits.
    /// In a halted crawl the worker drops its links, closes the queue and
    /// exits. A worker that is fetching is told to wait, and one that has
    /// exited, or a number that names no worker, to exit; neither changes the
    /// state.
    pub open spec fn poll(self, w: int) -> (CrawlView, TaskView) {
        if !self.active(w) {
            (self, TaskView::Exit)
        } else if self.workers[w].fetching is Some {
            (self, TaskView::Wait)
        } else if self.halted() {
            (
                CrawlView {
                    queue: self.queue.closed(),
                    workers: self.workers.update(w, WorkerView::gone()),
                    ..self
                },
                TaskView::Exit,
            )
        } else {
            let stream = self.queue.items + self.workers[w].outbox;
            let i = first_fresh(stream, self.visited) as int;
            if i < stream.len() {
                let rest = stream.skip(i + 1);
                let k = fits(QueueView { items: Seq::empty(), ..self.queue }, rest.len()) as int;
                (
                    CrawlView {
                        queue: QueueView { items: rest.take(k), ..self.queue },
                        visited: self.visited.push(stream[i]),
                        workers: self.workers.update(
                            w,
                            WorkerView {
                                fetching: Some(stream[i]),
                                outbox: rest.skip(k),
                                exited: false,
                            },
                        ),
                        ..self
                    },
                    TaskView::Fetch(stream[i]),
                )
            } else {
                let drained = CrawlView {
                    queue: QueueView { items: Seq::empty(), ..self.queue },
                    workers: self.workers.update(w, WorkerView::idle()),
                    ..self
                };
                if drained.quiet() {
                    (
                        CrawlView {
                            queue: drained.queue.closed(),
                            workers: self.workers.update(w, WorkerView::gone()),
                            ..drained
                        },
                        TaskView::Exit,
                    )
                } else {
                    (drained, TaskView::Wait)
                }
            }
        }
    }

    /// The report of a fetched page: the worker `w`, if it is fetching, has
    /// its task done and the page's links appended to its own. A failed page
    /// is reported with no links. A report from a worker that is not fetching
    /// changes nothing.
    pub open spec fn complete(self, w: int, links: Seq<Seq<char>>) -> CrawlView {
        if 0 <= w < self.workers.len() && self.workers[w].fetching is Some {
            CrawlView {
                workers: self.workers.update(
                    w,
                    WorkerView {
                        fetching: None,
                        outbox: self.workers[w].outbox + links,
                        exited: false,
                    },
                ),
                ..self
            }
        } else {
            self
        }
    }
}

/// `first_fresh` is at most the length, every URL before it is visited, and
/// the URL at it, if there is one, is not.
pub proof fn lemma_first_fresh(stream: Seq<Seq<char>>, visited: Seq<Seq<char>>)
    ensures
        first_fresh(stream, visited) <= stream.len(),
        forall|j: int| 0 <= j < first_fresh(stream, visited) ==> visited.contains(#[trigger] stream[j]),
        first_fresh(stream, visited) < stream.len() ==> !visited.contains(
            stream[first_fresh(stream, visited) as int],
        ),
    decreases stream.len(),
{
    if stream.len() == 0 || !visited.contains(stream[0]) {
    } else {
        let tail = stream.drop_first();
        lemma_first_fresh(tail, visited);
        assert forall|j: int| 0 <= j < first_fresh(stream, visited) implies visited.contains(
            #[trigger] stream[j],
        ) by {
            if j > 0 {
                assert(stream[j] == tail[j - 1]);
            }
        }
        if first_fresh(stream, visited) < stream.len() {
            assert(stream[first_fresh(stream, visited) as int] == tail[first_fresh(tail, visited) as int]);
        }
    }
}

/// A position before which every URL is visited, and at which the stream
/// ends or holds a URL that is not, is `first_fresh`.
pub proof fn lemma_first_fresh_is(stream: Seq<Seq<char>>, visited: Seq<Seq<char>>, i: int)
    requires
        0 <= i <= stream.len(),
        forall|j: int| 0 <= j < i ==> visited.contains(#[trigger] stream[j]),
        i < stream.len() ==> !visited.contains(stream[i]),
    ensures
        first_fresh(stream, visited) == i,
{
    lemma_first_fresh(stream, visited);
    let f = first_fresh(stream, visited) as int;
    if f < i {
        assert(visited.contains(stream[f]));
    } else if i < f {
        assert(visited.contains(stream[i]));
    }
}

/// Replacing one worker changes the number of busy workers by that worker
/// alone.
pub proof fn lemma_busy_update(workers: Seq<WorkerView>, w: int, worker: WorkerView)
    requires
        0 <= w < workers.len(),
    ensures
        busy_count(workers.update(w, worker)) + (if workers[w].is_idle() {
            0nat
        } else {
            1nat
        }) == busy_count(workers) + (if worker.is_idle() {
            0nat
        } else {
            1nat
        }),
        busy_count(workers) >= (if workers[w].is_idle() {
            0nat
        } else {
            1nat
        }),
    decreases workers.len(),
{
    let updated = workers.update(w, worker);
    if w == workers.len() - 1 {
        assert(updated.drop_last() =~= workers.drop_last());
    } else {
        lemma_busy_update(workers.drop_last(), w, worker);
        assert(updated.drop_last() =~= workers.drop_last().update(w, worker));
    }
}

/// The number of busy workers is at most the number of workers, and it is
/// zero exactly when every worker is idle.
pub proof fn lemma_busy_count(workers: Seq<WorkerView>)
    ensures
        busy_count(workers) <= workers.len(),
        busy_count(workers) == 0 <==> forall|w: int|
            0 <= w < workers.len() ==> (#[trigger] workers[w]).is_idle(),
    decreases workers.len(),
{
    if workers.len() > 0 {
        let front = workers.drop_last();
        lemma_busy_count(front);
        if busy_count(workers) == 0 {
            assert forall|w: int| 0 <= w < workers.len() implies (#[trigger] workers[w]).is_idle() by {
                if w < front.len() {
                    assert(front[w].is_idle());
                }
            }
        }
        if forall|w: int| 0 <= w < workers.len() ==> (#[trigger] workers[w]).is_idle() {
            assert forall|w: int| 0 <= w < front.len() implies (#[trigger] front[w]).is_idle() by {
                assert(workers[w].is_idle());
            }
        }
    }
}

} // verus!
