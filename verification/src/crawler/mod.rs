//! Crawling of the DHT.

pub mod engine;
pub mod respond;

pub use crate::config::CrawlerConfig;
pub use engine::{CrawlerEngine, CrawlerState};

use vstd::prelude::*;

verus! {

/// A crawler that can be started and stopped.
pub trait Crawler {
    /// What holds of every crawler.
    spec fn valid(&self) -> bool;

    /// Whether the crawler may be started.
    spec fn may_start(&self) -> bool;

    /// Whether the crawler is running.
    spec fn running(&self) -> bool;

    /// The name of the crawler.
    fn name(&self) -> &str;

    /// Starts the crawler. Returns whether it was started: a crawler that may not start, or that is
    /// running, is not.
    fn start(&mut self) -> (r: bool)
        requires
            old(self).valid(),
        ensures
            final(self).valid(),
            r == (old(self).may_start() && !old(self).running()),
            final(self).running() == (old(self).running() || r),
    ;

    /// Stops the crawler. Returns whether it was running.
    fn stop(&mut self) -> (r: bool)
        requires
            old(self).valid(),
        ensures
            final(self).valid(),
            r == old(self).running(),
            !final(self).running(),
    ;

    /// Whether the crawler is running.
    fn is_running(&self) -> (r: bool)
        ensures
            r == self.running(),
    ;

    /// How far the crawler has got.
    fn state(&self) -> (r: CrawlerState)
        requires
            self.valid(),
        ensures
            r.running == self.running(),
    ;
}

} // verus!
