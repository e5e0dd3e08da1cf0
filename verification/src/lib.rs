//! The engine of a concurrent, breadth-first web crawler.
//!
//! A crawl is one value, [`Crawl`], that a pool of worker threads shares under
//! a lock. It holds the frontier queue, the set of claimed URLs and what each
//! worker is doing. A worker asks it for a task with [`Crawl::poll`], fetches
//! the page outside the lock, turns the body into links with [`fetch_links`]
//! and reports them with [`Crawl::complete`]; the coordinator feeds the seeds
//! with [`Crawl::seed`]. The engine detects by itself when no work is left
//! anywhere, closes the queue and tells every worker to exit.
//!
//! Each operation is one step of a state machine over plain values
//! ([`model`]). What holds of every run of that machine, whatever the order of
//! the steps, is proved in [`laws`] and [`termination`].

pub mod channel;
pub mod crawl;
pub mod frontier;
pub mod laws;
pub mod links;
pub mod model;
pub mod resolve;
pub mod termination;
pub mod visited;

pub use crawl::{Crawl, SetupError, Task};
pub use frontier::{FrontierQueue, Next, QueueError, SubmitError};
pub use links::{fetch_links, PageError};
pub use resolve::{get_full_url, resolve, ResolveError};
pub use visited::VisitedSet;
