//! The actor's stance: standing, crawling, or crawling while waiting for
//! headroom to stand up.
use vstd::prelude::*;

verus! {

#[derive(Clone, Copy, Debug, PartialEq, Eq, Structural)]
pub enum CrawlState {
    Stand,
    Crawl,
    /// The crawl key is released but the full-height hitbox does not fit yet.
    Wait,
}

impl CrawlState {
    /// Crawling and waiting both use the reduced hitbox.
    pub fn is_crawling(&self) -> (r: bool)
        ensures
            r == !(*self is Stand),
    {
        match self {
            CrawlState::Stand => false,
            _ => true,
        }
    }

    /// The stance after the crawl key goes down (`pressed`) or up; in
    /// no-clip flight the stance does not change.
    pub fn after_crawl_key(&self, pressed: bool, noclip: bool) -> (r: CrawlState)
        ensures
            noclip ==> r == *self,
            !noclip && pressed ==> r == CrawlState::Crawl,
            !noclip && !pressed ==> r == CrawlState::Wait,
    {
        if noclip {
            *self
        } else if pressed {
            CrawlState::Crawl
        } else {
            CrawlState::Wait
        }
    }

    /// The stance after a tick's headroom check: a waiting actor stands up
    /// once nothing `blocked` the full-height hitbox; other stances stay.
    pub fn after_headroom(&self, blocked: bool) -> (r: CrawlState)
        ensures
            *self is Wait && blocked ==> r == CrawlState::Wait,
            *self is Wait && !blocked ==> r == CrawlState::Stand,
            !(*self is Wait) ==> r == *self,
    {
        match self {
            CrawlState::Wait => if blocked {
                CrawlState::Wait
            } else {
                CrawlState::Stand
            },
            _ => *self,
        }
    }
}

} // verus!
