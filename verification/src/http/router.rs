//! Routes and the table that finds them, and the course that a request
//! takes through the route that it found.

use crate::http::middleware::MiddlewareGroup;
use crate::http::request::Request;
use crate::http::response::{missing, not_found, response_view, Response, ResponseView};
use crate::http::text::same_text;
use vstd::pervasive::cloned;
use vstd::prelude::*;

verus! {

/// A route: the key that requests are matched against, the handler, and
/// the interceptors that run before and behind the handler. The key is a
/// verb, a space and a path, such as `GET /`.
pub struct Route<H, M> {
    pub path: &'static str,
    pub handler: H,
    pub middlewares: Vec<M>,
    pub outerwares: Vec<M>,
}

impl<H, M> Route<H, M> {
    /// A route without interceptors.
    pub fn new(path: &'static str, handler: H) -> (out: Self)
        ensures
            out.path == path,
            out.handler == handler,
            out.middlewares@ == Seq::<M>::empty(),
            out.outerwares@ == Seq::<M>::empty(),
    {
        Route { path, handler, middlewares: Vec::new(), outerwares: Vec::new() }
    }

    /// This route with one more interceptor before the handler, behind those
    /// that are there.
    pub fn middleware(self, middleware: M) -> (out: Self)
        ensures
            out.path == self.path,
            out.handler == self.handler,
            out.middlewares@ == self.middlewares@.push(middleware),
            out.outerwares@ == self.outerwares@,
    {
        let mut out = self;
        out.middlewares.push(middleware);
        out
    }

    /// This route with one more interceptor behind the handler, behind those
    /// that are there.
    pub fn outerware(self, outerware: M) -> (out: Self)
        ensures
            out.path == self.path,
            out.handler == self.handler,
            out.middlewares@ == self.middlewares@,
            out.outerwares@ == self.outerwares@.push(outerware),
    {
        let mut out = self;
        out.outerwares.push(outerware);
        out
    }

    /// This route with the interceptors of a group behind its own, those
    /// before the handler and those behind it.
    pub fn group(self, middleware_group: MiddlewareGroup<M>) -> (out: Self)
        ensures
            out.path == self.path,
            out.handler == self.handler,
            out.middlewares@ == self.middlewares@ + middleware_group.middlewares@,
            out.outerwares@ == self.outerwares@ + middleware_group.outerwares@,
    {
        let mut out = self;
        let mut group = middleware_group;
        out.middlewares.append(&mut group.middlewares);
        out.outerwares.append(&mut group.outerwares);
        out
    }
}

impl<H: Clone, M: Clone> Route<H, M> {
    /// Whether `copy` is a copy of this route: the same key, and a clone of
    /// the handler and of each interceptor in its place.
    pub open spec fn copied(&self, copy: Self) -> bool {
        &&& copy.path == self.path
        &&& cloned(self.handler, copy.handler)
        &&& copy.middlewares.len() == self.middlewares.len()
        &&& forall|i: int|
            0 <= i < self.middlewares.len() ==> cloned(
                self.middlewares[i],
                #[trigger] copy.middlewares[i],
            )
        &&& copy.outerwares.len() == self.outerwares.len()
        &&& forall|i: int|
            0 <= i < self.outerwares.len() ==> cloned(
                self.outerwares[i],
                #[trigger] copy.outerwares[i],
            )
    }

    /// A copy of this route.
    pub fn clone(&self) -> (out: Self)
        ensures
            self.copied(out),
    {
        Route {
            path: self.path,
            handler: self.handler.clone(),
            middlewares: self.middlewares.clone(),
            outerwares: self.outerwares.clone(),
        }
    }
}

/// The position of the first route with the given key.
pub open spec fn position<H, M>(routes: Seq<Route<H, M>>, key: Seq<char>) -> Option<int>
    decreases routes.len(),
{
    if routes.len() == 0 {
        None
    } else if routes[0].path@ == key {
        Some(0)
    } else {
        match position(routes.drop_first(), key) {
            Some(i) => Some(i + 1),
            None => None,
        }
    }
}

/// The table of routes. Each key leads to one route: the one that was
/// added last under it.
pub struct Router<H, M> {
    pub routes: Vec<Route<H, M>>,
}

impl<H, M> View for Router<H, M> {
    type V = Map<Seq<char>, Route<H, M>>;

    open spec fn view(&self) -> Map<Seq<char>, Route<H, M>> {
        Map::new(
            |key: Seq<char>| position(self.routes@, key) is Some,
            |key: Seq<char>| self.routes@[position(self.routes@, key)->0],
        )
    }
}

/// A position that `position` reports holds a route with the key, and no
/// route before it has the key.
pub proof fn lemma_position<H, M>(routes: Seq<Route<H, M>>, key: Seq<char>)
    ensures
        match position(routes, key) {
            Some(i) => 0 <= i < routes.len() && routes[i].path@ == key && forall|j: int|
                0 <= j < i ==> (#[trigger] routes[j]).path@ != key,
            None => forall|j: int| 0 <= j < routes.len() ==> (#[trigger] routes[j]).path@ != key,
        },
    decreases routes.len(),
{
    if routes.len() > 0 && routes[0].path@ != key {
        let rest = routes.drop_first();
        lemma_position(rest, key);
        match position(rest, key) {
            Some(i) => {
                assert forall|j: int| 0 <= j < i + 1 implies (#[trigger] routes[j]).path@
                    != key by {
                    if j > 0 {
                        assert(rest[j - 1] == routes[j]);
                    }
                }
            },
            None => {
                assert forall|j: int| 0 <= j < routes.len() implies (#[trigger] routes[j]).path@
                    != key by {
                    if j > 0 {
                        assert(rest[j - 1] == routes[j]);
                    }
                }
            },
        }
    }
}

/// The first route with the key stands where a route has the key and none
/// before it has.
pub proof fn lemma_position_is<H, M>(routes: Seq<Route<H, M>>, key: Seq<char>, at: int)
    requires
        0 <= at < routes.len(),
        routes[at].path@ == key,
        forall|j: int| 0 <= j < at ==> (#[trigger] routes[j]).path@ != key,
    ensures
        position(routes, key) == Some(at),
{
    lemma_position(routes, key);
}

/// No route has the key where none of them has.
pub proof fn lemma_position_none<H, M>(routes: Seq<Route<H, M>>, key: Seq<char>)
    requires
        forall|j: int| 0 <= j < routes.len() ==> (#[trigger] routes[j]).path@ != key,
    ensures
        position(routes, key) is None,
{
    lemma_position(routes, key);
}

impl<H, M> Router<H, M> {
    /// A table without routes.
    pub fn new() -> (out: Self)
        ensures
            out@ == Map::<Seq<char>, Route<H, M>>::empty(),
    {
        let out = Router { routes: Vec::new() };
        assert(out@ =~= Map::<Seq<char>, Route<H, M>>::empty());
        out
    }

    /// The position of the first route with the given key.
    pub fn find(&self, key: &str) -> (out: Option<usize>)
        ensures
            match out {
                Some(i) => position(self.routes@, key@) == Some(i as int),
                None => position(self.routes@, key@) is None,
            },
    {
        let mut i: usize = 0;
        while i < self.routes.len()
            invariant
                i <= self.routes.len(),
                forall|j: int| 0 <= j < i ==> (#[trigger] self.routes@[j]).path@ != key@,
            decreases self.routes.len() - i,
        {
            if same_text(self.routes[i].path, key) {
                proof {
                    lemma_position_is(self.routes@, key@, i as int);
                }
                return Some(i);
            }
            i += 1;
        }
        proof {
            lemma_position_none(self.routes@, key@);
        }
        None
    }

    /// The route that the key leads to.
    pub fn get(&self, key: &str) -> (out: Option<&Route<H, M>>)
        ensures
            out is Some == self@.contains_key(key@),
            out is Some ==> *out->0 == self@[key@],
    {
        match self.find(key) {
            Some(i) => {
                proof {
                    lemma_position(self.routes@, key@);
                }
                Some(&self.routes[i])
            },
            None => None,
        }
    }

    /// Puts a route into the table, under its key. A route that the key led
    /// to before gives way to it.
    pub fn add(&mut self, route: Route<H, M>) -> (out: &mut Self)
        ensures
            out@ == old(self)@.insert(route.path@, route),
            *final(self) == *final(out),
    {
        let ghost before = self.routes@;
        let ghost key = route.path@;
        match self.find(route.path) {
            Some(i) => {
                proof {
                    lemma_position(before, key);
                }
                self.routes.push(route);
                let _ = self.routes.swap_remove(i);
                assert(self.routes@ == before.update(i as int, route));
                let ghost now = self@;
                let ghost then = old(self)@.insert(key, route);
                assert forall|other: Seq<char>|
                    #![trigger now.dom().contains(other)]
                    #![trigger then.dom().contains(other)]
                    now.dom().contains(other) == then.dom().contains(other) && (now.dom().contains(
                        other,
                    ) ==> now[other] == then[other]) by {
                    lemma_position_replaced(before, i as int, route, other);
                    lemma_position(before, other);
                }
                assert(now =~= then);
                self
            },
            None => {
                self.routes.push(route);
                let ghost now = self@;
                let ghost then = old(self)@.insert(key, route);
                assert forall|other: Seq<char>|
                    #![trigger now.dom().contains(other)]
                    #![trigger then.dom().contains(other)]
                    now.dom().contains(other) == then.dom().contains(other) && (now.dom().contains(
                        other,
                    ) ==> now[other] == then[other]) by {
                    lemma_position_pushed(before, route, other);
                    lemma_position(before, other);
                }
                assert(now =~= then);
                self
            },
        }
    }
}

/// A route that takes the place of the first route with its key leaves
/// every key where it was.
pub proof fn lemma_position_replaced<H, M>(
    routes: Seq<Route<H, M>>,
    at: int,
    route: Route<H, M>,
    key: Seq<char>,
)
    requires
        position(routes, route.path@) == Some(at),
    ensures
        position(routes.update(at, route), key) == position(routes, key),
{
    let after = routes.update(at, route);
    lemma_position(routes, route.path@);
    lemma_position(routes, key);
    match position(routes, key) {
        Some(j) => {
            assert forall|k: int| 0 <= k < j implies (#[trigger] after[k]).path@ != key by {
                assert(routes[k].path@ != key);
            }
            lemma_position_is(after, key, j);
        },
        None => {
            assert forall|k: int| 0 <= k < after.len() implies (#[trigger] after[k]).path@
                != key by {
                assert(routes[k].path@ != key);
            }
            lemma_position_none(after, key);
        },
    }
}

/// A route whose key is new, put behind the others, is found under its key,
/// and every other key stays where it was.
pub proof fn lemma_position_pushed<H, M>(
    routes: Seq<Route<H, M>>,
    route: Route<H, M>,
    key: Seq<char>,
)
    requires
        position(routes, route.path@) is None,
    ensures
        position(routes.push(route), key) == if key == route.path@ {
            Some(routes.len() as int)
        } else {
            position(routes, key)
        },
{
    let after = routes.push(route);
    lemma_position(routes, route.path@);
    lemma_position(routes, key);
    match position(routes, key) {
        Some(j) => {
            assert forall|k: int| 0 <= k < j implies (#[trigger] after[k]).path@ != key by {
                assert(routes[k].path@ != key);
            }
            lemma_position_is(after, key, j);
        },
        None => {
            if key == route.path@ {
                assert forall|k: int| 0 <= k < routes.len() implies (#[trigger] after[k]).path@
                    != key by {
                    assert(routes[k].path@ != key);
                }
                lemma_position_is(after, key, routes.len() as int);
            } else {
                assert forall|k: int| 0 <= k < after.len() implies (#[trigger] after[k]).path@
                    != key by {
                    if k < routes.len() {
                        assert(routes[k].path@ != key);
                    }
                }
                lemma_position_none(after, key);
            }
        },
    }
}

/// Where a request stands on its way through the table of routes.
#[derive(Debug, Clone, Copy, PartialEq, Eq, Structural)]
pub enum Stage {
    /// The route is found, and nothing else may use it yet.
    Claiming,
    /// The interceptors before the handler run.
    Before,
    /// The handler runs.
    Handling,
    /// The interceptors behind the handler run.
    After,
    /// The answer is there, or there will be none.
    Done,
}

/// The way of one request through the table of routes: where it stands, and
/// the response of the handler while the interceptors behind it run.
#[derive(Debug)]
pub struct Dispatch {
    pub stage: Stage,
    pub response: Option<Response>,
}

/// What happened to a request on its way.
#[derive(Debug)]
pub enum Progress {
    /// The route is now for this request alone.
    Claimed,
    /// The route cannot be used.
    Refused,
    /// The interceptors before the handler ran, and one of them answered or
    /// none did.
    Intercepted(Option<Response>),
    /// The handler answered.
    Answered(Response),
    /// The interceptors behind the handler ran.
    Observed,
}

/// What is to happen next to a request.
#[derive(Debug)]
pub enum Course {
    /// Wait until the route at this position is free, and keep it from
    /// other requests until the answer is there.
    Claim { route: usize },
    /// Run the interceptors before the handler.
    RunMiddlewares,
    /// Run the handler.
    RunHandler,
    /// Run the interceptors behind the handler.
    RunOuterwares,
    /// Answer with this response.
    Reply(Response),
    /// Give no answer.
    GiveUp,
}

/// What is to happen next, in contracts.
#[verifier::ext_equal]
pub enum Plan {
    Claim { route: int },
    RunMiddlewares,
    RunHandler,
    RunOuterwares,
    Reply(ResponseView),
    GiveUp,
}

/// Whether a course is what a plan asks for.
pub open spec fn follows(course: Course, plan: Plan) -> bool {
    match (course, plan) {
        (Course::Claim { route: a }, Plan::Claim { route: b }) => a == b,
        (Course::RunMiddlewares, Plan::RunMiddlewares) => true,
        (Course::RunHandler, Plan::RunHandler) => true,
        (Course::RunOuterwares, Plan::RunOuterwares) => true,
        (Course::Reply(response), Plan::Reply(view)) => response@ == view,
        (Course::GiveUp, Plan::GiveUp) => true,
        _ => false,
    }
}

/// Where a request starts, and with what: a key that leads to a route
/// claims the route, and any other key is answered at once with status 404.
pub open spec fn start<H, M>(routes: Seq<Route<H, M>>, key: Seq<char>) -> (Stage, Plan) {
    match position(routes, key) {
        Some(route) => (Stage::Claiming, Plan::Claim { route }),
        None => (Stage::Done, Plan::Reply(missing())),
    }
}

/// The stage that follows a stage on what happened, the response that is
/// kept, and what is to happen next. The answer of an interceptor before
/// the handler is final, and the handler does not run. The answer of the
/// handler is kept while the interceptors behind it run, and is final then.
/// What cannot happen at a stage ends the way without an answer.
pub open spec fn advance(stage: Stage, kept: Option<ResponseView>, progress: Progress) -> (
    Stage,
    Option<ResponseView>,
    Plan,
) {
    match (stage, progress) {
        (Stage::Claiming, Progress::Claimed) => (Stage::Before, None, Plan::RunMiddlewares),
        (Stage::Before, Progress::Intercepted(Some(response))) => (
            Stage::Done,
            None,
            Plan::Reply(response@),
        ),
        (Stage::Before, Progress::Intercepted(None)) => (Stage::Handling, None, Plan::RunHandler),
        (Stage::Handling, Progress::Answered(response)) => (
            Stage::After,
            Some(response@),
            Plan::RunOuterwares,
        ),
        (Stage::After, Progress::Observed) => match kept {
            Some(response) => (Stage::Done, None, Plan::Reply(response)),
            None => (Stage::Done, None, Plan::GiveUp),
        },
        _ => (Stage::Done, None, Plan::GiveUp),
    }
}

impl Dispatch {
    /// Starts a request on its way: looks its key up in the table.
    pub fn begin<H, M>(router: &Router<H, M>, request: &Request) -> (out: (Dispatch, Course))
        ensures
            out.0.stage == start(router.routes@, request@.method_and_path).0,
            out.0.response is None,
            follows(out.1, start(router.routes@, request@.method_and_path).1),
    {
        match router.find(request.method_and_path.as_str()) {
            Some(route) => (Dispatch { stage: Stage::Claiming, response: None }, Course::Claim {
                route,
            }),
            None => (Dispatch { stage: Stage::Done, response: None }, Course::Reply(not_found())),
        }
    }

    /// Takes a request one step further on what happened.
    pub fn step(self, progress: Progress) -> (out: (Dispatch, Course))
        ensures
            out.0.stage == advance(self.stage, response_view(self.response), progress).0,
            response_view(out.0.response) == advance(self.stage, response_view(self.response), progress).1,
            follows(out.1, advance(self.stage, response_view(self.response), progress).2),
    {
        let done = Dispatch { stage: Stage::Done, response: None };
        match (self.stage, progress) {
            (Stage::Claiming, Progress::Claimed) => (
                Dispatch { stage: Stage::Before, response: None },
                Course::RunMiddlewares,
            ),
            (Stage::Before, Progress::Intercepted(Some(response))) => (done, Course::Reply(response)),
            (Stage::Before, Progress::Intercepted(None)) => (
                Dispatch { stage: Stage::Handling, response: None },
                Course::RunHandler,
            ),
            (Stage::Handling, Progress::Answered(response)) => (
                Dispatch { stage: Stage::After, response: Some(response) },
                Course::RunOuterwares,
            ),
            (Stage::After, Progress::Observed) => match self.response {
                Some(response) => (done, Course::Reply(response)),
                None => (done, Course::GiveUp),
            },
            _ => (done, Course::GiveUp),
        }
    }
}

/// Nothing runs on a route that was not claimed: the interceptors before
/// the handler run in one case only, which is right after the claim, and
/// those behind the handler run in one case only, which is right after the
/// handler answered.
pub proof fn lemma_runs_follow_claim(
    stage: Stage,
    kept: Option<ResponseView>,
    progress: Progress,
)
    ensures
        advance(stage, kept, progress).2 is RunMiddlewares <==> stage == Stage::Claiming
            && progress == Progress::Claimed,
        advance(stage, kept, progress).2 is RunOuterwares <==> stage == Stage::Handling
            && progress is Answered,
        !(advance(stage, kept, progress).2 is Claim),
{
}

/// The handler runs in one case only: the interceptors before it ran and
/// none of them answered.
pub proof fn lemma_handler_runs_unanswered(
    stage: Stage,
    kept: Option<ResponseView>,
    progress: Progress,
)
    ensures
        advance(stage, kept, progress).2 is RunHandler <==> stage == Stage::Before && progress
            == Progress::Intercepted(None),
{
}

/// The answer of an interceptor before the handler is the answer to the
/// request, as it is, and ends the way of the request.
pub proof fn lemma_answer_is_final(kept: Option<ResponseView>, response: Response)
    ensures
        advance(Stage::Before, kept, Progress::Intercepted(Some(response))) == (
            Stage::Done,
            None::<ResponseView>,
            Plan::Reply(response@),
        ),
{
}

/// The answer of the handler is the answer to the request, whatever the
/// interceptors behind the handler do.
pub proof fn lemma_handler_answer_stands(response: Response)
    ensures
        advance(
            advance(Stage::Handling, None, Progress::Answered(response)).0,
            advance(Stage::Handling, None, Progress::Answered(response)).1,
            Progress::Observed,
        ) == (Stage::Done, None::<ResponseView>, Plan::Reply(response@)),
{
}

/// A way that has ended stays ended and gives no further answer.
pub proof fn lemma_done_stays_done(kept: Option<ResponseView>, progress: Progress)
    ensures
        advance(Stage::Done, kept, progress) == (
            Stage::Done,
            None::<ResponseView>,
            Plan::GiveUp,
        ),
{
}

/// How many steps a request has left at most on its way.
pub open spec fn stages_left(stage: Stage) -> nat {
    match stage {
        Stage::Claiming => 4,
        Stage::Before => 3,
        Stage::Handling => 2,
        Stage::After => 1,
        Stage::Done => 0,
    }
}

/// Every step brings a request nearer to the end of its way, whatever
/// happens.
pub proof fn lemma_way_ends(stage: Stage, kept: Option<ResponseView>, progress: Progress)
    ensures
        stage != Stage::Done ==> stages_left(advance(stage, kept, progress).0) < stages_left(
            stage,
        ),
{
}

} // verus!
