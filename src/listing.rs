//! Listing results and the pagination engine that turns a backend's
//! continuation-token list API into a finite sequence of pages.

use vstd::prelude::*;
use crate::error::Error;
use crate::path::{Path, opt_string_view};

verus! {

/// A point in time, in milliseconds since the Unix epoch (UTC).
#[derive(Clone, Copy, Debug, PartialEq, Eq, Structural)]
pub struct Timestamp {
    pub millis: i64,
}

/// The metadata of one object, as a listing reports it.
#[derive(Debug)]
pub struct ObjectMeta {
    pub location: Path,
    pub last_modified: Timestamp,
    pub size: u64,
}

/// One page of a delimited listing.
#[derive(Debug)]
pub struct ListResult {
    pub objects: Vec<ObjectMeta>,
    pub common_prefixes: Vec<Path>,
    pub next_token: Option<String>,
}

/// Where a paginated listing stands.
#[derive(Debug)]
pub enum ListState {
    /// No request issued yet.
    Start,
    /// The last page carried this continuation token.
    HasMore(String),
    /// The last page carried no token, or a request failed.
    Done,
}

/// The mathematical value of a [`ListState`].
pub enum ListStateView {
    Start,
    HasMore(Seq<char>),
    Done,
}

impl View for ListState {
    type V = ListStateView;

    open spec fn view(&self) -> ListStateView {
        match self {
            ListState::Start => ListStateView::Start,
            ListState::HasMore(t) => ListStateView::HasMore(t@),
            ListState::Done => ListStateView::Done,
        }
    }
}

/// The state after a page whose continuation token is `token`: more pages
/// exist exactly when the token is present and non-empty.
pub open spec fn state_after_page(token: Option<Seq<char>>) -> ListStateView {
    match token {
        Some(t) => if t.len() > 0 {
            ListStateView::HasMore(t)
        } else {
            ListStateView::Done
        },
        None => ListStateView::Done,
    }
}

/// The request that a pull issues in state `s`: `None` when the listing is
/// over, otherwise the continuation token to send (none on the first page).
pub open spec fn request_in(s: ListStateView) -> Option<Option<Seq<char>>> {
    match s {
        ListStateView::Start => Some(None),
        ListStateView::HasMore(t) => Some(Some(t)),
        ListStateView::Done => None,
    }
}

/// A pull-based driver of one paginated listing.
#[derive(Debug)]
pub struct ListingEngine {
    state: ListState,
}

impl ListingEngine {
    pub closed spec fn state(&self) -> ListStateView {
        self.state@
    }

    /// A listing that has issued no request yet.
    pub fn new() -> (e: ListingEngine)
        ensures
            e.state() == ListStateView::Start,
    {
        ListingEngine { state: ListState::Start }
    }

    /// Whether the listing is over.
    pub fn is_done(&self) -> (b: bool)
        ensures
            b == (self.state() is Done),
    {
        match self.state {
            ListState::Done => true,
            _ => false,
        }
    }

    /// The page request to issue next: `None` once the listing is over,
    /// otherwise the continuation token to send, if any.
    pub fn next_request(&self) -> (r: Option<Option<String>>)
        ensures
            match r {
                None => request_in(self.state()) is None,
                Some(t) => request_in(self.state()) == Some(opt_string_view(t)),
            },
    {
        match &self.state {
            ListState::Start => Some(None),
            ListState::HasMore(t) => Some(Some(t.clone())),
            ListState::Done => None,
        }
    }

    /// Records the answer to the request last issued. A page moves the listing
    /// on by its continuation token; a failure ends it. The page's batch, or
    /// the failure, is handed back to be yielded.
    pub fn on_response<T>(&mut self, response: Result<(T, Option<String>), Error>) -> (r: Result<
        T,
        Error,
    >)
        requires
            !(old(self).state() is Done),
        ensures
            match response {
                Ok((batch, token)) => final(self).state() == state_after_page(opt_string_view(token))
                    && r == Ok::<T, Error>(batch),
                Err(e) => final(self).state() is Done && r == Err::<T, Error>(e),
            },
    {
        match response {
            Ok((batch, token)) => {
                self.state = match token {
                    Some(t) => if !t.as_str().is_empty() {
                        ListState::HasMore(t)
                    } else {
                        ListState::Done
                    },
                    None => ListState::Done,
                };
                Ok(batch)
            },
            Err(e) => {
                self.state = ListState::Done;
                Err(e)
            },
        }
    }
}

/// The number of batches that successive pulls yield from state `s`,
/// when the backend answers the `i`-th request with a page carrying
/// `tokens[i]`.
pub open spec fn batches_yielded(s: ListStateView, tokens: Seq<Option<Seq<char>>>) -> nat
    decreases tokens.len(),
{
    if tokens.len() == 0 {
        0
    } else {
        match s {
            ListStateView::Done => 0,
            _ => 1 + batches_yielded(state_after_page(tokens[0]), tokens.drop_first()),
        }
    }
}

/// A listing whose backend answers with `n` pages, each but the last carrying
/// a continuation token and the last carrying none, yields exactly `n`
/// batches however many times it is pulled beyond that.
pub proof fn lemma_listing_yields_each_page_once(tokens: Seq<Option<Seq<char>>>, n: nat)
    requires
        1 <= n <= tokens.len(),
        forall|i: int| 0 <= i < n - 1 ==> (#[trigger] tokens[i] matches Some(t) && t.len() > 0),
        tokens[n - 1] is None,
    ensures
        batches_yielded(ListStateView::Start, tokens) == n,
{
    lemma_yields_from(ListStateView::Start, tokens, n);
}

proof fn lemma_yields_from(s: ListStateView, tokens: Seq<Option<Seq<char>>>, n: nat)
    requires
        !(s is Done),
        1 <= n <= tokens.len(),
        forall|i: int| 0 <= i < n - 1 ==> (#[trigger] tokens[i] matches Some(t) && t.len() > 0),
        tokens[n - 1] is None,
    ensures
        batches_yielded(s, tokens) == n,
    decreases n,
{
    if n == 1 {
        lemma_done_yields_nothing(tokens.drop_first());
    } else {
        let rest = tokens.drop_first();
        assert forall|i: int| 0 <= i < n - 2 implies (#[trigger] rest[i] matches Some(t) && t.len()
            > 0) by {
            assert(rest[i] == tokens[i + 1]);
        }
        assert(tokens[0] matches Some(t) && t.len() > 0);
        lemma_yields_from(state_after_page(tokens[0]), rest, (n - 1) as nat);
    }
}

/// A finished listing yields nothing more.
pub proof fn lemma_done_yields_nothing(tokens: Seq<Option<Seq<char>>>)
    ensures
        batches_yielded(ListStateView::Done, tokens) == 0,
{
}

} // verus!
