//! The paginated fetcher's decision logic: a two-state machine (fetching,
//! done) that consumes one page of records per step and stops exactly on the
//! first empty page. The HTTP transport itself lives outside the library;
//! the caller requests the page this state machine asks for, classifies the
//! response with [`check_status`], and feeds the parsed records back in.

use vstd::prelude::*;
use crate::repo::Repo;

verus! {

/// Why a fetch run failed; every failure is terminal, nothing is retried.
pub enum FetchError {
    /// The request itself failed (connection, name resolution, timeout).
    Transport(String),
    /// The listing endpoint answered 404: the account does not exist.
    NotFound,
    /// Any other non-success status, with its code and response body text.
    Api(u16, String),
    /// The response body was not a well-formed page of records.
    Parse(String),
}

/// The concatenation of all consumed pages, in order.
pub open spec fn concat_pages(pages: Seq<Seq<Repo>>) -> Seq<Repo>
    decreases pages.len(),
{
    if pages.len() == 0 {
        Seq::empty()
    } else {
        concat_pages(pages.drop_last()) + pages.last()
    }
}

/// Accumulates the records of successive pages. `pages` records the history
/// of consumed pages, so the central invariant can be stated: the accumulator
/// is exactly the concatenation of the pages fed in, and every consumed page
/// was non-empty (an empty page ends the run instead of being consumed).
pub struct Fetcher {
    repos: Vec<Repo>,
    next_page: u32,
    pages: Ghost<Seq<Seq<Repo>>>,
}

impl Fetcher {
    /// The history of pages consumed so far.
    pub closed spec fn pages(self) -> Seq<Seq<Repo>> {
        self.pages@
    }

    /// The records accumulated so far.
    pub closed spec fn repos_seq(self) -> Seq<Repo> {
        self.repos@
    }

    /// The page number the next request must ask for.
    pub closed spec fn spec_next_page(self) -> u32 {
        self.next_page
    }

    /// The accumulator equals the concatenation of the consumed pages, none
    /// of which was empty, and page numbers advance one per page from 1.
    pub open spec fn wf(self) -> bool {
        &&& self.repos_seq() == concat_pages(self.pages())
        &&& forall|i: int| 0 <= i < self.pages().len() ==> (#[trigger] self.pages()[i]).len() > 0
        &&& self.spec_next_page() == self.pages().len() + 1
    }

    /// Starts a run: nothing consumed, the first request asks for page 1.
    pub fn new() -> (r: Fetcher)
        ensures
            r.wf(),
            r.pages() == Seq::<Seq<Repo>>::empty(),
            r.spec_next_page() == 1,
    {
        Fetcher { repos: Vec::new(), next_page: 1, pages: Ghost(Seq::empty()) }
    }

    /// The page number to request next.
    pub fn next_page(&self) -> (p: u32)
        ensures
            p == self.spec_next_page(),
    {
        self.next_page
    }

    /// Consumes one successfully parsed page. Returns true exactly when the
    /// page is empty: pagination is complete and nothing was consumed.
    /// Otherwise the records are appended and the page counter advances.
    pub fn on_page(&mut self, page: Vec<Repo>) -> (done: bool)
        requires
            old(self).wf(),
            old(self).spec_next_page() < u32::MAX,
        ensures
            final(self).wf(),
            done == (page@.len() == 0),
            done ==> *final(self) == *old(self),
            !done ==> final(self).pages() == old(self).pages().push(page@)
                && final(self).repos_seq() == old(self).repos_seq() + page@
                && final(self).spec_next_page() == old(self).spec_next_page() + 1,
    {
        if page.len() == 0 {
            return true;
        }
        let ghost old_pages = self.pages@;
        let mut p = page;
        self.repos.append(&mut p);
        self.next_page = self.next_page + 1;
        self.pages = Ghost(old_pages.push(page@));
        proof {
            assert(self.pages@.drop_last() =~= old_pages);
            assert(self.pages@.last() == page@);
        }
        false
    }

    /// Hands out the full accumulated sequence: the concatenation, in order,
    /// of every page consumed.
    pub fn into_repos(self) -> (r: Vec<Repo>)
        requires
            self.wf(),
        ensures
            r@ == concat_pages(self.pages()),
            r@ == self.repos_seq(),
    {
        self.repos
    }
}

/// Classifies one HTTP response status: success admits the page body,
/// 404 is the terminal "account not found" failure, and any other
/// non-success status is surfaced with its code and body text.
pub fn check_status(status: u16, body: String) -> (r: Result<(), FetchError>)
    ensures
        200 <= status < 300 ==> r is Ok,
        status == 404 ==> r == Result::<(), FetchError>::Err(FetchError::NotFound),
        !(200 <= status < 300) && status != 404 ==> r == Result::<(), FetchError>::Err(
            FetchError::Api(status, body),
        ),
{
    if status == 404 {
        Err(FetchError::NotFound)
    } else if 200 <= status && status < 300 {
        Ok(())
    } else {
        Err(FetchError::Api(status, body))
    }
}

} // verus!
