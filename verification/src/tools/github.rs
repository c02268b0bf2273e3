//! The GitHub side: the account handle, the request for one page of starred
//! repositories, the repositories that come back, and the pager that decides
//! which page to ask for next.

use vstd::prelude::*;

verus! {

/// A character that may stand in an HTTP header value: a tab, a space, a
/// visible ASCII character, or any character outside ASCII (whose UTF-8
/// bytes are all 0x80 or above). Only the control characters and DEL are
/// refused.
pub open spec fn header_char(c: char) -> bool {
    c == '\t' || (' ' <= c && c != '\x7f')
}

/// A header value refuses exactly the control characters other than tab
/// (codes below 32) and DEL (code 127); every other character, ASCII or
/// not, is accepted.
pub proof fn lemma_header_chars(c: char)
    ensures
        header_char(c) <==> (c == '\t' || (c as u32 >= 32 && c as u32 != 127)),
{
}

/// Every character of `s` may stand in an HTTP header value.
pub open spec fn valid_header_value(s: Seq<char>) -> bool {
    forall|i: int| 0 <= i < s.len() ==> header_char(s[i])
}

/// The value of the `Authorization` header sent with the given token.
pub open spec fn authorization_value(api_key: Seq<char>) -> Seq<char> {
    "Bearer "@ + api_key
}

/// Whether every character of `s` may stand in an HTTP header value.
pub fn is_valid_header_value(s: &str) -> (r: bool)
    ensures
        r == valid_header_value(s@),
{
    let n = s.unicode_len();
    let mut i: usize = 0;
    while i < n
        invariant
            i <= n,
            n == s@.len(),
            forall|j: int| 0 <= j < i ==> header_char(s@[j]),
        decreases n - i,
    {
        let c = s.get_char(i);
        if !(c == '\t' || (' ' <= c && c != '\x7f')) {
            return false;
        }
        i = i + 1;
    }
    true
}

/// A GitHub account, reached with its API token.
pub struct Github {
    api_key: String,
}

impl View for Github {
    type V = Seq<char>;

    /// The API token.
    closed spec fn view(&self) -> Seq<char> {
        self.api_key@
    }
}

/// One request for a page of the authenticated user's starred repositories.
pub struct StarredRequest {
    /// The endpoint.
    pub url: String,
    /// The `User-Agent` header value.
    pub user_agent: String,
    /// The `Authorization` header value.
    pub authorization: String,
    /// The `page` query parameter.
    pub page: i16,
    /// The `per_page` query parameter.
    pub per_page: i16,
}

impl Github {
    /// A handle on the account that `api_key` opens.
    pub fn new(api_key: String) -> (g: Github)
        ensures
            g@ == api_key@,
    {
        Github { api_key }
    }

    /// Whether the token can be sent as a bearer token in the
    /// `Authorization` header.
    pub fn authorization_is_valid(&self) -> (r: bool)
        ensures
            r == valid_header_value(authorization_value(self@)),
    {
        proof {
            reveal_strlit("Bearer ");
        }
        let mut value = String::from_str("Bearer ");
        value.append(self.api_key.as_str());
        is_valid_header_value(value.as_str())
    }

    /// The request for page `page` (page 1 when none is given) of the
    /// starred repositories, thirty to a page.
    pub fn starred_request(&self, page: Option<i16>) -> (r: StarredRequest)
        requires
            valid_header_value(authorization_value(self@)),
        ensures
            r.url@ == "https://api.github.com/user/starred"@,
            r.user_agent@ == "request"@,
            r.authorization@ == authorization_value(self@),
            r.page == (match page {
                Some(p) => p,
                None => 1i16,
            }),
            r.per_page == 30,
    {
        let page = match page {
            Some(p) => p,
            None => 1i16,
        };
        let mut authorization = String::from_str("Bearer ");
        authorization.append(self.api_key.as_str());
        StarredRequest {
            url: String::from_str("https://api.github.com/user/starred"),
            user_agent: String::from_str("request"),
            authorization,
            page,
            per_page: 30,
        }
    }
}

/// A repository as GitHub lists it among the starred ones.
#[derive(Debug, Clone)]
pub struct Repository {
    pub id: i32,
    pub name: String,
    pub topics: Vec<String>,
    pub description: Option<String>,
    /// The repository's page on GitHub.
    pub repo_url: String,
    /// The category it was sorted into, if any.
    pub category: Option<String>,
}

/// What came back for the page that was asked for.
#[derive(Debug, Clone, Copy)]
pub enum PageEvent {
    /// The page was read and held this many repositories.
    Loaded(usize),
    /// The request for the page failed.
    Failed,
}

/// What to do with what came back.
#[derive(Debug, Clone, Copy, PartialEq, Eq, Structural)]
pub enum PageStep {
    /// Hand the page's repositories on.
    Yield,
    /// Hand nothing on for this page and go on to the next.
    Skip,
    /// The listing is over.
    Stop,
}

/// The pager's state: the next page to ask for, the last page that may be
/// asked for, and whether the listing has ended.
pub type PagerState = (int, int, bool);

/// The page the pager asks for in `s`, if it asks for one.
pub open spec fn pending_page(s: PagerState) -> Option<int> {
    if !s.2 && s.0 <= s.1 {
        Some(s.0)
    } else {
        None
    }
}

/// The pager's next state and step once `e` came back for the pending page:
/// an empty page ends the listing; a full page is handed on and a failed one
/// skipped, and either way the next page is the following one.
pub open spec fn next_state(s: PagerState, e: PageEvent) -> (PagerState, PageStep) {
    match e {
        PageEvent::Loaded(n) => if n == 0 {
            ((s.0, s.1, true), PageStep::Stop)
        } else {
            ((s.0 + 1, s.1, false), PageStep::Yield)
        },
        PageEvent::Failed => ((s.0 + 1, s.1, false), PageStep::Skip),
    }
}

/// The pages that a pager in state `s` asks for, in order, when `events`
/// are the outcomes of its requests one after another.
pub open spec fn pages_asked(s: PagerState, events: Seq<PageEvent>) -> Seq<int>
    decreases events.len(),
{
    match pending_page(s) {
        None => Seq::empty(),
        Some(p) => if events.len() == 0 {
            Seq::empty()
        } else {
            seq![p] + pages_asked(next_state(s, events[0]).0, events.drop_first())
        },
    }
}

/// Walks the starred repositories page by page, from page 1 up to a last
/// page, stopping early at the first empty page.
pub struct StarredPages {
    page: i16,
    max_page: i16,
    done: bool,
}

impl View for StarredPages {
    type V = PagerState;

    closed spec fn view(&self) -> PagerState {
        (self.page as int, self.max_page as int, self.done)
    }
}

impl StarredPages {
    #[verifier::type_invariant]
    spec fn inv(&self) -> bool {
        &&& 1 <= self.page
        &&& self.max_page < i16::MAX
    }

    /// A pager that starts at page 1 and asks for no page after `max_page`.
    pub fn new(max_page: i16) -> (p: StarredPages)
        requires
            max_page < i16::MAX,
        ensures
            p@ == (1int, max_page as int, false),
    {
        StarredPages { page: 1, max_page, done: false }
    }

    /// The page to ask for now, or `None` once the listing is over.
    pub fn next_page(&self) -> (r: Option<i16>)
        ensures
            r matches Some(p) ==> pending_page(self@) == Some(p as int),
            r is None ==> pending_page(self@) is None,
    {
        if !self.done && self.page <= self.max_page {
            Some(self.page)
        } else {
            None
        }
    }

    /// Takes in what came back for the pending page and says what to do
    /// with it.
    pub fn record(&mut self, event: PageEvent) -> (step: PageStep)
        requires
            pending_page(old(self)@) is Some,
        ensures
            (final(self)@, step) == next_state(old(self)@, event),
    {
        proof {
            use_type_invariant(&*self);
        }
        match event {
            PageEvent::Loaded(n) => {
                if n == 0 {
                    self.done = true;
                    PageStep::Stop
                } else {
                    self.page = self.page + 1;
                    PageStep::Yield
                }
            },
            PageEvent::Failed => {
                self.page = self.page + 1;
                PageStep::Skip
            },
        }
    }
}

/// What the pager does with each outcome, for every state with a pending
/// page: a page holding any number of repositories above zero is handed on
/// and the pager moves to the following page with the listing still open; a
/// failed page is skipped and the pager moves on the same way; only an empty
/// page ends the listing, after which no page is pending.
pub proof fn lemma_outcomes(s: PagerState, n: usize)
    requires
        pending_page(s) is Some,
    ensures
        n > 0 ==> next_state(s, PageEvent::Loaded(n)).1 == PageStep::Yield,
        n > 0 ==> next_state(s, PageEvent::Loaded(n)).0 == (s.0 + 1, s.1, false),
        next_state(s, PageEvent::Failed).1 == PageStep::Skip,
        next_state(s, PageEvent::Failed).0 == (s.0 + 1, s.1, false),
        n > 0 ==> pending_page(next_state(s, PageEvent::Loaded(n)).0) == if s.0 + 1 <= s.1 {
            Some(s.0 + 1)
        } else {
            None
        },
        next_state(s, PageEvent::Loaded(0)).1 == PageStep::Stop,
        pending_page(next_state(s, PageEvent::Loaded(0)).0) is None,
        forall|e: PageEvent| #[trigger] next_state(s, e).1 == PageStep::Stop <==> e matches PageEvent::Loaded(0),
{
}

/// A fresh pager asks first for page 1 when there is at least one page,
/// and for nothing otherwise.
pub proof fn lemma_pager_starts_at_first_page(max_page: int)
    ensures
        pending_page((1, max_page, false)) == if max_page >= 1 {
            Some(1int)
        } else {
            None
        },
{
}

proof fn lemma_pages_asked_count_from(s: PagerState, events: Seq<PageEvent>)
    requires
        !s.2,
        forall|k: int| 0 <= k < events.len() ==> !(#[trigger] events[k] matches PageEvent::Loaded(0)),
    ensures
        pages_asked(s, events).len() == if s.1 - s.0 + 1 <= 0 {
            0
        } else if events.len() <= s.1 - s.0 + 1 {
            events.len() as int
        } else {
            s.1 - s.0 + 1
        },
    decreases events.len(),
{
    if pending_page(s) is Some && events.len() > 0 {
        let t = next_state(s, events[0]).0;
        assert forall|k: int| 0 <= k < events.drop_first().len() implies !(
        #[trigger] events.drop_first()[k] matches PageEvent::Loaded(0)) by {
            assert(events.drop_first()[k] == events[k + 1]);
        }
        assert(!(events[0] matches PageEvent::Loaded(0)));
        lemma_pages_asked_count_from(t, events.drop_first());
    }
}

/// As long as no page comes back empty, a pager made with
/// `StarredPages::new(max_page)` asks for one page per outcome until it has
/// asked for all `max_page` pages: it asks for `min(outcomes, max_page)`
/// pages (none when `max_page` is below 1).
pub proof fn lemma_pager_asks_every_page(max_page: int, events: Seq<PageEvent>)
    requires
        forall|k: int| 0 <= k < events.len() ==> !(#[trigger] events[k] matches PageEvent::Loaded(0)),
    ensures
        pages_asked((1, max_page, false), events).len() == if max_page <= 0 {
            0
        } else if events.len() <= max_page {
            events.len() as int
        } else {
            max_page
        },
{
    lemma_pages_asked_count_from((1, max_page, false), events);
}

proof fn lemma_pages_asked_from(s: PagerState, events: Seq<PageEvent>)
    requires
        s.0 >= 1,
    ensures
        pages_asked(s, events).len() <= events.len(),
        !s.2 && s.1 >= s.0 - 1 ==> pages_asked(s, events).len() <= s.1 - s.0 + 1,
        s.2 || s.1 < s.0 ==> pages_asked(s, events).len() == 0,
        forall|i: int|
            0 <= i < pages_asked(s, events).len() ==> #[trigger] pages_asked(s, events)[i] == s.0 + i,
    decreases events.len(),
{
    if pending_page(s) is Some && events.len() > 0 {
        let t = next_state(s, events[0]).0;
        lemma_pages_asked_from(t, events.drop_first());
        let rest = pages_asked(t, events.drop_first());
        assert(pages_asked(s, events) == seq![s.0] + rest);
        assert forall|i: int| 0 <= i < pages_asked(s, events).len() implies #[trigger] pages_asked(
            s,
            events,
        )[i] == s.0 + i by {
            if i > 0 {
                assert(pages_asked(s, events)[i] == rest[i - 1]);
                if t.2 {
                    assert(rest.len() == 0);
                }
            }
        }
    }
}

/// A pager made with `StarredPages::new(max_page)` asks for pages 1, 2, 3,
/// ... in order, one page per outcome it is given, never for a page after
/// `max_page`, and for none at all once a page comes back empty.
pub proof fn lemma_pager_pages(max_page: int, events: Seq<PageEvent>)
    ensures
        pages_asked((1, max_page, false), events).len() <= events.len(),
        pages_asked((1, max_page, false), events).len() <= if max_page < 0 {
            0
        } else {
            max_page
        },
        forall|i: int|
            0 <= i < pages_asked((1, max_page, false), events).len()
                ==> #[trigger] pages_asked((1, max_page, false), events)[i] == i + 1,
        forall|k: int|
            0 <= k < pages_asked((1, max_page, false), events).len() - 1 ==> !(
            #[trigger] events[k] matches PageEvent::Loaded(0)),
{
    lemma_pages_asked_from((1, max_page, false), events);
    lemma_pages_stop_at_empty((1, max_page, false), events);
}

proof fn lemma_pages_stop_at_empty(s: PagerState, events: Seq<PageEvent>)
    requires
        s.0 >= 1,
    ensures
        forall|k: int|
            0 <= k < pages_asked(s, events).len() - 1 ==> !(#[trigger] events[k] matches PageEvent::Loaded(0)),
    decreases events.len(),
{
    if pending_page(s) is Some && events.len() > 0 {
        let t = next_state(s, events[0]).0;
        lemma_pages_stop_at_empty(t, events.drop_first());
        lemma_pages_asked_from(s, events);
        assert forall|k: int|
            0 <= k < pages_asked(s, events).len() - 1 implies !(#[trigger] events[k] matches PageEvent::Loaded(0)) by {
            if k == 0 {
                if events[0] matches PageEvent::Loaded(0) {
                    assert(t.2);
                    assert(pages_asked(t, events.drop_first()).len() == 0);
                }
            } else {
                assert(events[k] == events.drop_first()[k - 1]);
            }
        }
    }
}

} // verus!
