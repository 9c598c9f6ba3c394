//! The course of the searches for a group of people: which search to send next,
//! how far to follow its answer, and when to pause.

use vstd::prelude::*;

use crate::collect::{
    law_query_says_what_is_asked, prs_query, prs_query_text, query_type_word, query_word,
};
use crate::model::{AppParams, Item, PullRequestQueryType};

verus! {

/// How long a pause between two users takes, in seconds. The service does not like
/// requests that come too often.
pub const PAUSE_SECONDS: u64 = 1;

/// Where the searches stand.
#[derive(Debug, Clone, Copy, PartialEq, Eq, Structural)]
pub enum SearchPhase {
    /// No search is under way: the next user's can start.
    BetweenUsers,
    /// A page of the current user's answer is awaited.
    AwaitingPage,
    /// Every user has been searched for.
    Finished,
}

/// What is to be done next.
#[derive(Debug, PartialEq)]
pub enum SearchAction {
    /// Send this search and hand over the first page of its answer.
    Search(String),
    /// Fetch the page after the last one and hand it over.
    NextPage,
    /// Wait, so that requests do not come too often, and say when it is over.
    Pause,
    /// Nothing: the items are complete.
    Finish,
}

/// What has happened.
#[derive(Debug, PartialEq)]
pub enum SearchEvent {
    /// The next user's search can start.
    Ready,
    /// A page came: its items, and whether there is a page after it.
    Page { items: Vec<Item>, has_next: bool },
}

/// What a [`SearchAction`] asks for.
pub enum SearchActionView {
    Search(Seq<char>),
    NextPage,
    Pause,
    Finish,
}

/// What a [`SearchEvent`] reports.
pub enum SearchEventView {
    Ready,
    Page { items: Seq<Item>, has_next: bool },
}

impl View for SearchAction {
    type V = SearchActionView;

    open spec fn view(&self) -> SearchActionView {
        match self {
            SearchAction::Search(query) => SearchActionView::Search(query@),
            SearchAction::NextPage => SearchActionView::NextPage,
            SearchAction::Pause => SearchActionView::Pause,
            SearchAction::Finish => SearchActionView::Finish,
        }
    }
}

impl View for SearchEvent {
    type V = SearchEventView;

    open spec fn view(&self) -> SearchEventView {
        match self {
            SearchEvent::Ready => SearchEventView::Ready,
            SearchEvent::Page { items, has_next } => SearchEventView::Page {
                items: items@,
                has_next: *has_next,
            },
        }
    }
}

/// The view of an action asks for what the action asks for, and that of an event
/// reports what the event reports.
pub proof fn law_step_views_are_faithful(
    action: SearchAction,
    event: SearchEvent,
    query: String,
    items: Vec<Item>,
    has_next: bool,
)
    ensures
        action == SearchAction::Search(query) ==> action@ == SearchActionView::Search(query@),
        action@ is Search <==> action is Search,
        action@ is NextPage <==> action is NextPage,
        action@ is Pause <==> action is Pause,
        action@ is Finish <==> action is Finish,
        event == (SearchEvent::Page { items, has_next }) ==> event@ == (SearchEventView::Page {
            items: items@,
            has_next,
        }),
        event@ is Ready <==> event is Ready,
{
}

/// The searches for the pull requests of a group of users, one user after the
/// other and page by page.
#[derive(Debug, PartialEq)]
pub struct UserSearch {
    queries: Vec<String>,
    next_user: usize,
    phase: SearchPhase,
    items: Vec<Item>,
}

/// The state of a [`UserSearch`].
#[verifier::ext_equal]
pub struct UserSearchView {
    /// The searches to send, one per user.
    pub queries: Seq<Seq<char>>,
    /// How many of them have been sent.
    pub next_user: nat,
    pub phase: SearchPhase,
    /// What has been found so far.
    pub items: Seq<Item>,
}

impl View for UserSearch {
    type V = UserSearchView;

    closed spec fn view(&self) -> UserSearchView {
        UserSearchView {
            queries: self.queries.deep_view(),
            next_user: self.next_user as nat,
            phase: self.phase,
            items: self.items@,
        }
    }
}

impl UserSearchView {
    /// The state in which no search has been sent.
    pub open spec fn initial(queries: Seq<Seq<char>>) -> Self {
        UserSearchView {
            queries,
            next_user: 0,
            phase: SearchPhase::BetweenUsers,
            items: Seq::empty(),
        }
    }

    /// Whether `event` can happen in this state.
    pub open spec fn expects(self, event: SearchEventView) -> bool {
        match event {
            SearchEventView::Ready => self.phase == SearchPhase::BetweenUsers,
            SearchEventView::Page { .. } => self.phase == SearchPhase::AwaitingPage,
        }
    }

    /// The state after `event`, and what is to be done then: a user's search is
    /// followed page by page to its end, then comes a pause and the next user.
    pub open spec fn next(self, event: SearchEventView) -> (Self, SearchActionView) {
        match event {
            SearchEventView::Ready => if self.next_user < self.queries.len() {
                (
                    UserSearchView {
                        next_user: self.next_user + 1,
                        phase: SearchPhase::AwaitingPage,
                        ..self
                    },
                    SearchActionView::Search(self.queries[self.next_user as int]),
                )
            } else {
                (
                    UserSearchView { phase: SearchPhase::Finished, ..self },
                    SearchActionView::Finish,
                )
            },
            SearchEventView::Page { items, has_next } => if has_next {
                (
                    UserSearchView { items: self.items + items, ..self },
                    SearchActionView::NextPage,
                )
            } else {
                (
                    UserSearchView {
                        items: self.items + items,
                        phase: SearchPhase::BetweenUsers,
                        ..self
                    },
                    SearchActionView::Pause,
                )
            },
        }
    }

    /// The state after `events`, and what was to be done after each of them.
    pub open spec fn run(self, events: Seq<SearchEventView>) -> (Self, Seq<SearchActionView>)
        decreases events.len(),
    {
        if events.len() == 0 {
            (self, Seq::empty())
        } else {
            let (state, actions) = self.run(events.drop_last());
            let (last_state, action) = state.next(events.last());
            (last_state, actions.push(action))
        }
    }

    /// Whether each of `events` can happen in the state in which it comes.
    pub open spec fn expects_all(self, events: Seq<SearchEventView>) -> bool {
        forall|k: int|
            0 <= k < events.len() ==> self.run(events.take(k)).0.expects(#[trigger] events[k])
    }
}

/// The searches that `app_params` asks for, one per user.
pub open spec fn user_queries(app_params: AppParams) -> Seq<Seq<char>> {
    Seq::new(
        app_params.users@.len(),
        |i: int|
            prs_query_text(
                app_params.users@[i]@,
                app_params.date_sign@,
                app_params.date@,
                query_word(app_params.query_type),
            ),
    )
}

impl UserSearch {
    /// No more searches have been sent than there are.
    #[verifier::type_invariant]
    spec fn well_formed(self) -> bool {
        self.next_user <= self.queries@.len()
    }

    /// The searches that `app_params` asks for, none of them sent yet.
    pub fn new(app_params: &AppParams) -> (search: Self)
        ensures
            search@ == UserSearchView::initial(user_queries(*app_params)),
    {
        let word = query_type_word(app_params.query_type);
        let mut queries: Vec<String> = Vec::new();
        let mut i: usize = 0;
        while i < app_params.users.len()
            invariant
                i <= app_params.users.len(),
                word@ == query_word(app_params.query_type),
                queries.deep_view() == user_queries(*app_params).take(i as int),
            decreases app_params.users.len() - i,
        {
            let ghost before = queries.deep_view();
            let query = prs_query(
                &app_params.users[i],
                &app_params.date_sign,
                &app_params.date,
                word,
            );
            queries.push(query);
            assert(queries.deep_view() =~= before.push(query@));
            assert(queries.deep_view() =~= user_queries(*app_params).take(i + 1));
            i = i + 1;
        }
        assert(user_queries(*app_params).take(i as int) =~= user_queries(*app_params));
        UserSearch { queries, next_user: 0, phase: SearchPhase::BetweenUsers, items: Vec::new() }
    }

    /// Whether a page is awaited, a search can start, or all is done.
    pub fn phase(&self) -> (phase: SearchPhase)
        ensures
            phase == self@.phase,
    {
        self.phase
    }

    /// Takes note of `event` and says what is to be done next.
    pub fn step(&mut self, event: SearchEvent) -> (action: SearchAction)
        requires
            old(self)@.expects(event@),
        ensures
            (final(self)@, action@) == old(self)@.next(event@),
    {
        proof {
            use_type_invariant(&*self);
        }
        match event {
            SearchEvent::Ready => {
                if self.next_user < self.queries.len() {
                    let query = self.queries[self.next_user].clone();
                    assert(self.queries.deep_view()[self.next_user as int] == query@);
                    self.next_user = self.next_user + 1;
                    self.phase = SearchPhase::AwaitingPage;
                    SearchAction::Search(query)
                } else {
                    self.phase = SearchPhase::Finished;
                    SearchAction::Finish
                }
            },
            SearchEvent::Page { items, has_next } => {
                let mut new_items = items;
                let mut found: Vec<Item> = Vec::new();
                std::mem::swap(&mut found, &mut self.items);
                found.append(&mut new_items);
                self.items = found;
                if has_next {
                    SearchAction::NextPage
                } else {
                    self.phase = SearchPhase::BetweenUsers;
                    SearchAction::Pause
                }
            },
        }
    }

    /// What has been found.
    pub fn into_items(self) -> (items: Vec<Item>)
        ensures
            items@ == self@.items,
    {
        self.items
    }
}

// ---------------------------------------------------------------------------
// The whole course
// ---------------------------------------------------------------------------

/// What happens in the course of one user's search whose answer has these pages.
pub open spec fn user_events(pages: Seq<Seq<Item>>) -> Seq<SearchEventView> {
    seq![SearchEventView::Ready] + Seq::new(
        pages.len(),
        |k: int| SearchEventView::Page { items: pages[k], has_next: k + 1 < pages.len() },
    )
}

/// What is to be done in the course of one user's search whose answer has this
/// many pages.
pub open spec fn user_actions(query: Seq<char>, pages: nat) -> Seq<SearchActionView> {
    seq![SearchActionView::Search(query)] + Seq::new(
        pages,
        |k: int|
            if k + 1 < pages {
                SearchActionView::NextPage
            } else {
                SearchActionView::Pause
            },
    )
}

/// What happens in the course of the searches for the users whose answers have
/// these pages, one user after the other.
pub open spec fn course_events(answers: Seq<Seq<Seq<Item>>>) -> Seq<SearchEventView>
    decreases answers.len(),
{
    if answers.len() == 0 {
        Seq::empty()
    } else {
        course_events(answers.drop_last()) + user_events(answers.last())
    }
}

/// What is to be done in the course of the searches for the first users, whose
/// answers have these pages.
pub open spec fn course_actions(queries: Seq<Seq<char>>, answers: Seq<Seq<Seq<Item>>>) -> Seq<
    SearchActionView,
>
    decreases answers.len(),
{
    if answers.len() == 0 {
        Seq::empty()
    } else {
        course_actions(queries, answers.drop_last()) + user_actions(
            queries[answers.len() - 1],
            answers.last().len(),
        )
    }
}

/// The items of all pages of all answers, in order.
pub open spec fn course_items(answers: Seq<Seq<Seq<Item>>>) -> Seq<Item>
    decreases answers.len(),
{
    if answers.len() == 0 {
        Seq::empty()
    } else {
        course_items(answers.drop_last()) + answers.last().flatten()
    }
}

/// Where all events but the last come in turn, and the last does too, all do.
#[verifier::spinoff_prover]
proof fn lemma_expects_one_more(state: UserSearchView, events: Seq<SearchEventView>)
    requires
        events.len() > 0,
        state.expects_all(events.drop_last()),
        state.run(events.drop_last()).0.expects(events.last()),
    ensures
        state.expects_all(events),
{
    let front = events.drop_last();
    assert forall|k: int| 0 <= k < events.len() implies state.run(events.take(k)).0.expects(
        #[trigger] events[k],
    ) by {
        if k < front.len() {
            assert(events.take(k) =~= front.take(k));
            assert(events[k] == front[k]);
        } else {
            assert(events.take(k) =~= front);
        }
    }
}

/// Where all events come in turn, all but the last do, and the last does too.
#[verifier::spinoff_prover]
proof fn lemma_expects_one_less(state: UserSearchView, events: Seq<SearchEventView>)
    requires
        events.len() > 0,
        state.expects_all(events),
    ensures
        state.expects_all(events.drop_last()),
        state.run(events.drop_last()).0.expects(events.last()),
{
    let front = events.drop_last();
    assert forall|k: int| 0 <= k < front.len() implies state.run(front.take(k)).0.expects(
        #[trigger] front[k],
    ) by {
        assert(front.take(k) =~= events.take(k));
        assert(front[k] == events[k]);
    }
    assert(events.take(events.len() - 1) =~= front);
    assert(state.run(events.take(events.len() - 1)).0.expects(events[events.len() - 1]));
}

/// A course can be cut in two anywhere.
#[verifier::spinoff_prover]
proof fn lemma_run_concat(
    state: UserSearchView,
    first: Seq<SearchEventView>,
    second: Seq<SearchEventView>,
)
    ensures
        state.run(first + second).0 == state.run(first).0.run(second).0,
        state.run(first + second).1 == state.run(first).1 + state.run(first).0.run(second).1,
    decreases second.len(),
{
    let whole = first + second;
    let done = state.run(first).1;
    let middle = state.run(first).0;
    if second.len() == 0 {
        assert(whole =~= first);
        assert(done + Seq::<SearchActionView>::empty() =~= done);
    } else {
        let shorter = second.drop_last();
        lemma_run_concat(state, first, shorter);
        assert(whole.drop_last() =~= first + shorter);
        let action = middle.run(shorter).0.next(second.last()).1;
        let rest = middle.run(shorter).1;
        assert((done + rest).push(action) =~= done + rest.push(action));
    }
}

/// Two courses in which all events come in turn make one in which they do.
#[verifier::spinoff_prover]
proof fn lemma_expects_concat(
    state: UserSearchView,
    first: Seq<SearchEventView>,
    second: Seq<SearchEventView>,
)
    requires
        state.expects_all(first),
        state.run(first).0.expects_all(second),
    ensures
        state.expects_all(first + second),
    decreases second.len(),
{
    let whole = first + second;
    if second.len() == 0 {
        assert(whole =~= first);
    } else {
        let shorter = second.drop_last();
        lemma_expects_one_less(state.run(first).0, second);
        lemma_expects_concat(state, first, shorter);
        lemma_run_concat(state, first, shorter);
        assert(whole.drop_last() =~= first + shorter);
        lemma_expects_one_more(state, whole);
    }
}

/// The state and the actions after the first `n` pages of a user's answer.
proof fn lemma_run_pages(state: UserSearchView, pages: Seq<Seq<Item>>, n: int)
    requires
        state.phase == SearchPhase::BetweenUsers,
        state.next_user < state.queries.len(),
        0 <= n <= pages.len(),
        pages.len() >= 1,
    ensures
        ({
            let events = user_events(pages).take(n + 1);
            let query = state.queries[state.next_user as int];
            &&& state.expects_all(events)
            &&& state.run(events) == (
                UserSearchView {
                    queries: state.queries,
                    next_user: state.next_user + 1,
                    phase: if n < pages.len() {
                        SearchPhase::AwaitingPage
                    } else {
                        SearchPhase::BetweenUsers
                    },
                    items: state.items + pages.take(n).flatten(),
                },
                user_actions(query, pages.len()).take(n + 1),
            )
        }),
    decreases n,
{
    let all = user_events(pages);
    let events = all.take(n + 1);
    let query = state.queries[state.next_user as int];
    let actions = user_actions(query, pages.len());
    if n == 0 {
        assert(events =~= seq![SearchEventView::Ready]);
        assert(events.drop_last() =~= Seq::empty());
        assert(pages.take(0) =~= Seq::empty());
        assert(state.items + Seq::<Item>::empty() =~= state.items);
        reveal_with_fuel(UserSearchView::run, 2);
        assert(state.run(events).1 =~= actions.take(1));
        assert(events.take(0) =~= Seq::empty());
    } else {
        lemma_run_pages(state, pages, n - 1);
        assert(events.drop_last() =~= all.take(n));
        assert(pages.take(n) =~= pages.take(n - 1).push(pages[n - 1]));
        pages.take(n - 1).lemma_flatten_push(pages[n - 1]);
        let before = state.run(all.take(n)).0;
        assert(before.items + pages[n - 1] =~= state.items + pages.take(n).flatten());
        assert(actions.take(n + 1) =~= actions.take(n).push(actions[n]));
        lemma_expects_one_more(state, events);
    }
}

/// The state and the actions after the searches for the first users.
proof fn lemma_run_course(queries: Seq<Seq<char>>, answers: Seq<Seq<Seq<Item>>>)
    requires
        answers.len() <= queries.len(),
        forall|u: int| 0 <= u < answers.len() ==> (#[trigger] answers[u]).len() >= 1,
    ensures
        ({
            let start = UserSearchView::initial(queries);
            &&& start.expects_all(course_events(answers))
            &&& start.run(course_events(answers)) == (
                UserSearchView {
                    queries,
                    next_user: answers.len(),
                    phase: SearchPhase::BetweenUsers,
                    items: course_items(answers),
                },
                course_actions(queries, answers),
            )
        }),
    decreases answers.len(),
{
    let start = UserSearchView::initial(queries);
    if answers.len() > 0 {
        let front = answers.drop_last();
        let pages = answers.last();
        let last_query = queries[answers.len() - 1];
        assert forall|u: int| 0 <= u < front.len() implies (#[trigger] front[u]).len() >= 1 by {
            assert(front[u] == answers[u]);
        }
        assert(answers[answers.len() - 1].len() >= 1);
        lemma_run_course(queries, front);
        let middle = start.run(course_events(front)).0;
        lemma_run_pages(middle, pages, pages.len() as int);
        assert(user_events(pages).take((pages.len() + 1) as int) =~= user_events(pages));
        assert(user_actions(last_query, pages.len()).take((pages.len() + 1) as int) =~= user_actions(
            last_query,
            pages.len(),
        ));
        assert(pages.take(pages.len() as int) =~= pages);
        lemma_run_concat(start, course_events(front), user_events(pages));
        lemma_expects_concat(start, course_events(front), user_events(pages));
    }
}

/// Where each user's search is answered by at least one page, the course ends, no
/// event comes out of turn, each user is searched for once and in order, every page
/// is fetched, a pause follows each user, and the items at the end are those of all
/// pages in order.
pub proof fn law_search_collects_everything(
    queries: Seq<Seq<char>>,
    answers: Seq<Seq<Seq<Item>>>,
)
    requires
        answers.len() == queries.len(),
        forall|u: int| 0 <= u < answers.len() ==> (#[trigger] answers[u]).len() >= 1,
    ensures
        ({
            let start = UserSearchView::initial(queries);
            let events = course_events(answers).push(SearchEventView::Ready);
            &&& start.expects_all(events)
            &&& start.run(events) == (
                UserSearchView {
                    queries,
                    next_user: queries.len(),
                    phase: SearchPhase::Finished,
                    items: course_items(answers),
                },
                course_actions(queries, answers).push(SearchActionView::Finish),
            )
        }),
{
    let start = UserSearchView::initial(queries);
    let course = course_events(answers);
    let events = course.push(SearchEventView::Ready);
    lemma_run_course(queries, answers);
    assert(events.drop_last() =~= course);
    lemma_expects_one_more(start, events);
}

/// The searches are those for the users in order, by the date of merging or of
/// creation as the configuration says, and nothing else of it matters to them.
pub proof fn law_queries_follow_the_configuration(app_params: AppParams)
    ensures
        user_queries(app_params).len() == app_params.users@.len(),
        forall|i: int|
            #![trigger app_params.users@[i]]
            0 <= i < app_params.users@.len() ==> {
                let word = match app_params.query_type {
                    PullRequestQueryType::Merged => " merged:"@,
                    PullRequestQueryType::Created => " created:"@,
                };
                user_queries(app_params)[i] == "is:pr author:"@ + app_params.users@[i]@ + word
                    + app_params.date_sign@ + app_params.date@
            },
{
    assert forall|i: int|
        #![trigger app_params.users@[i]]
        0 <= i < app_params.users@.len() implies {
        let word = match app_params.query_type {
            PullRequestQueryType::Merged => " merged:"@,
            PullRequestQueryType::Created => " created:"@,
        };
        user_queries(app_params)[i] == "is:pr author:"@ + app_params.users@[i]@ + word
            + app_params.date_sign@ + app_params.date@
    } by {
        law_query_says_what_is_asked(
            app_params.users@[i]@,
            app_params.date_sign@,
            app_params.date@,
            Seq::empty(),
        );
    }
}

/// Two configurations that differ in the date that they go by, and in nothing else
/// that a search says, search differently for every user.
pub proof fn law_query_types_search_differently(a: AppParams, b: AppParams, i: int)
    requires
        0 <= i < a.users@.len(),
        i < b.users@.len(),
        a.users@[i]@ == b.users@[i]@,
        a.date_sign@ == b.date_sign@,
        a.date@ == b.date@,
    ensures
        user_queries(a)[i] == user_queries(b)[i] <==> a.query_type == b.query_type,
{
    law_query_says_what_is_asked(a.users@[i]@, a.date_sign@, a.date@, Seq::empty());
}

/// What one event does. The searches never change. A page adds its items behind those
/// found so far; where there is another page it is fetched, else comes a pause. When
/// the next user can be searched for, that user's search is sent, and where there is
/// no such user all is finished. A page comes only where one is awaited, and a search
/// starts only where none is under way.
pub proof fn law_what_an_event_does(state: UserSearchView, items: Seq<Item>)
    ensures
        ({
            let (more, fetch) = state.next(SearchEventView::Page { items, has_next: true });
            let (last, rest) = state.next(SearchEventView::Page { items, has_next: false });
            let (ready, start) = state.next(SearchEventView::Ready);
            &&& more.queries == state.queries && last.queries == state.queries && ready.queries
                == state.queries
            &&& more.items == state.items + items
            &&& last.items == state.items + items
            &&& ready.items == state.items
            &&& more.next_user == state.next_user && last.next_user == state.next_user
            &&& fetch is NextPage
            &&& rest is Pause
            &&& more.phase == state.phase
            &&& last.phase is BetweenUsers
            &&& state.next_user < state.queries.len() ==> {
                &&& start == SearchActionView::Search(state.queries[state.next_user as int])
                &&& ready.next_user == state.next_user + 1
                &&& ready.phase is AwaitingPage
            }
            &&& state.next_user >= state.queries.len() ==> {
                &&& start is Finish
                &&& ready.next_user == state.next_user
                &&& ready.phase is Finished
            }
        }),
        forall|has_next: bool|
            #[trigger] state.expects(SearchEventView::Page { items, has_next }) <==> state.phase
                is AwaitingPage,
        state.expects(SearchEventView::Ready) <==> state.phase is BetweenUsers,
{
}

/// In any course in which no event comes out of turn, the items found are those of
/// the pages that came, in order and nothing else.
pub proof fn law_items_are_those_of_the_pages(
    queries: Seq<Seq<char>>,
    events: Seq<SearchEventView>,
)
    ensures
        UserSearchView::initial(queries).run(events).0.queries == queries,
        UserSearchView::initial(queries).run(events).1.len() == events.len(),
        UserSearchView::initial(queries).run(events).0.items == events.map_values(
            |event: SearchEventView|
                match event {
                    SearchEventView::Page { items, .. } => items,
                    SearchEventView::Ready => Seq::empty(),
                },
        ).flatten(),
    decreases events.len(),
{
    let start = UserSearchView::initial(queries);
    let found = |event: SearchEventView|
        match event {
            SearchEventView::Page { items, .. } => items,
            SearchEventView::Ready => Seq::<Item>::empty(),
        };
    if events.len() == 0 {
        assert(events.map_values(found) =~= Seq::empty());
    } else {
        let front = events.drop_last();
        law_items_are_those_of_the_pages(queries, front);
        assert(events.map_values(found) =~= front.map_values(found).push(found(events.last())));
        front.map_values(found).lemma_flatten_push(found(events.last()));
        assert(start.run(events).0.items =~= front.map_values(found).flatten() + found(
            events.last(),
        ));
    }
}

/// The number of searches that have been allowed to start so far is how many have
/// been sent, until there are no more users.
#[verifier::spinoff_prover]
proof fn lemma_searches_sent(queries: Seq<Seq<char>>, events: Seq<SearchEventView>)
    ensures
        ({
            let state = UserSearchView::initial(queries).run(events).0;
            let starts = events.filter(|event: SearchEventView| event is Ready).len();
            &&& state.queries == queries
            &&& state.next_user == (if starts < queries.len() {
                starts
            } else {
                queries.len()
            })
        }),
    decreases events.len(),
{
    reveal(Seq::filter);
    if events.len() > 0 {
        lemma_searches_sent(queries, events.drop_last());
    }
}

/// In any course, the searches are sent for one user after the other, each once: the
/// search that follows an event that lets one start is that of the user whose turn it
/// is, counted by such events before it, and where no user is left all is finished.
/// After a page comes the next page, or a pause where there is none.
#[verifier::spinoff_prover]
pub proof fn law_users_are_searched_in_order(
    queries: Seq<Seq<char>>,
    events: Seq<SearchEventView>,
    k: int,
)
    requires
        0 <= k < events.len(),
    ensures
        ({
            let actions = UserSearchView::initial(queries).run(events).1;
            let starts = events.take(k).filter(|event: SearchEventView| event is Ready).len();
            match events[k] {
                SearchEventView::Ready => actions[k] == (if starts < queries.len() {
                    SearchActionView::Search(queries[starts as int])
                } else {
                    SearchActionView::Finish
                }),
                SearchEventView::Page { has_next, .. } => actions[k] == (if has_next {
                    SearchActionView::NextPage
                } else {
                    SearchActionView::Pause
                }),
            }
        }),
    decreases events.len(),
{
    let start = UserSearchView::initial(queries);
    let front = events.drop_last();
    law_items_are_those_of_the_pages(queries, front);
    if k < front.len() {
        law_users_are_searched_in_order(queries, front, k);
        assert(front.take(k) =~= events.take(k));
    } else {
        assert(events.take(k) =~= front);
        lemma_searches_sent(queries, front);
    }
}

/// In a course in which no event comes out of turn, a search starts at the beginning
/// and after each pause and nowhere else, and a page comes after each search that was
/// sent and after each page that was asked for and nowhere else.
pub proof fn law_events_come_in_turn(
    queries: Seq<Seq<char>>,
    events: Seq<SearchEventView>,
    k: int,
)
    requires
        UserSearchView::initial(queries).expects_all(events),
        0 <= k < events.len(),
    ensures
        ({
            let actions = UserSearchView::initial(queries).run(events).1;
            &&& events[k] is Ready <==> k == 0 || actions[k - 1] is Pause
            &&& events[k] is Page <==> k > 0 && (actions[k - 1] is Search || actions[k - 1]
                is NextPage)
        }),
    decreases events.len(),
{
    let start = UserSearchView::initial(queries);
    let front = events.drop_last();
    law_items_are_those_of_the_pages(queries, front);
    lemma_expects_one_less(start, events);
    if k < front.len() {
        law_events_come_in_turn(queries, front, k);
    } else if k > 0 {
        let before = front.drop_last();
        law_items_are_those_of_the_pages(queries, before);
        lemma_expects_one_less(start, front);
    }
}

/// The items of all pages of all answers are the pages strung together, answer by
/// answer.
pub proof fn law_course_items_are_the_pages(answers: Seq<Seq<Seq<Item>>>)
    ensures
        course_items(answers) == answers.map_values(
            |pages: Seq<Seq<Item>>| pages.flatten(),
        ).flatten(),
    decreases answers.len(),
{
    let flat = |pages: Seq<Seq<Item>>| pages.flatten();
    if answers.len() == 0 {
        assert(answers.map_values(flat) =~= Seq::empty());
    } else {
        let front = answers.drop_last();
        law_course_items_are_the_pages(front);
        assert(answers.map_values(flat) =~= front.map_values(flat).push(answers.last().flatten()));
        front.map_values(flat).lemma_flatten_push(answers.last().flatten());
    }
}

} // verus!
