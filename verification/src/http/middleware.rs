//! Interceptors: functions that see a request before its handler does, or
//! after it.
//!
//! An interceptor takes the request and hands it back, changed or not. With
//! it comes a response or none. Before the handler, the first response ends
//! the chain and is the answer. After the handler, a response is dropped.

use crate::http::request::Request;
use crate::http::response::Response;
use vstd::prelude::*;

verus! {

/// Interceptors to put before a handler and interceptors to put behind it,
/// kept together so that several routes can share them.
pub struct MiddlewareGroup<M> {
    pub middlewares: Vec<M>,
    pub outerwares: Vec<M>,
}

impl<M> MiddlewareGroup<M> {
    /// A group of the given interceptors.
    pub fn new(middlewares: Vec<M>, outerwares: Vec<M>) -> (out: Self)
        ensures
            out.middlewares == middlewares,
            out.outerwares == outerwares,
    {
        MiddlewareGroup { middlewares, outerwares }
    }
}

/// What a request and a response that may be absent are when nothing
/// answered.
pub open spec fn unanswered(request: Request) -> (Request, Option<Response>) {
    (request, None)
}

/// Whether `out` can come out of a chain of interceptors that `request` goes
/// into: the first interceptor that gives a response ends the chain with it,
/// each one before it hands its request on to the next, and a chain in
/// which none answers hands on the last request with no response.
pub open spec fn passes<M: Fn(Request) -> (Request, Option<Response>)>(
    chain: Seq<M>,
    request: Request,
    out: (Request, Option<Response>),
) -> bool
    decreases chain.len(),
{
    if chain.len() == 0 {
        out == unanswered(request)
    } else {
        exists|mid: (Request, Option<Response>)|
            {
                &&& #[trigger] call_ensures(chain[0], (request,), mid)
                &&& if mid.1 is Some {
                    out == mid
                } else {
                    passes(chain.drop_first(), mid.0, out)
                }
            }
    }
}

/// Whether `out` can be the request that comes out of a chain of
/// interceptors whose responses are dropped.
pub open spec fn observes<M: Fn(Request) -> (Request, Option<Response>)>(
    chain: Seq<M>,
    request: Request,
    out: Request,
) -> bool
    decreases chain.len(),
{
    if chain.len() == 0 {
        out == request
    } else {
        exists|mid: (Request, Option<Response>)|
            {
                &&& #[trigger] call_ensures(chain[0], (request,), mid)
                &&& observes(chain.drop_first(), mid.0, out)
            }
    }
}

/// Runs the interceptors that stand before a handler, in order, until one
/// of them answers.
pub fn handle_middleware<M: Fn(Request) -> (Request, Option<Response>)>(
    request: Request,
    middlewares: &Vec<M>,
) -> (out: (Request, Option<Response>))
    requires
        forall|i: int, r: Request|
            0 <= i < middlewares.len() ==> #[trigger] call_requires(middlewares[i], (r,)),
    ensures
        passes(middlewares@, request, out),
{
    let ghost chain = middlewares@;
    let ghost first = request;
    let mut current = request;
    let mut i: usize = 0;
    assert(chain.skip(0) == chain);
    while i < middlewares.len()
        invariant
            i <= middlewares.len(),
            chain == middlewares@,
            forall|k: int, r: Request|
                0 <= k < middlewares.len() ==> #[trigger] call_requires(middlewares[k], (r,)),
            first == request,
            forall|out: (Request, Option<Response>)| #[trigger]
                passes(chain.skip(i as int), current, out) ==> passes(chain, first, out),
        decreases middlewares.len() - i,
    {
        let ghost before = current;
        let mid = (middlewares[i])(current);
        assert(chain.skip(i as int)[0] == middlewares[i as int]);
        assert(chain.skip(i as int).drop_first() == chain.skip(i + 1));
        if mid.1.is_some() {
            assert(passes(chain.skip(i as int), before, mid));
            return mid;
        }
        current = mid.0;
        assert forall|out: (Request, Option<Response>)| #[trigger]
            passes(chain.skip(i + 1), current, out) implies passes(chain, first, out) by {
            assert(passes(chain.skip(i as int), before, out));
        }
        i += 1;
    }
    assert(passes(chain.skip(i as int), current, unanswered(current)));
    (current, None)
}

/// Runs the interceptors that stand behind a handler, in order, each for
/// what it does on the side. What they answer is dropped.
pub fn handle_outerware<M: Fn(Request) -> (Request, Option<Response>)>(
    request: Request,
    outerwares: &Vec<M>,
) -> (out: Request)
    requires
        forall|i: int, r: Request|
            0 <= i < outerwares.len() ==> #[trigger] call_requires(outerwares[i], (r,)),
    ensures
        observes(outerwares@, request, out),
{
    let ghost chain = outerwares@;
    let ghost first = request;
    let mut current = request;
    let mut i: usize = 0;
    assert(chain.skip(0) == chain);
    while i < outerwares.len()
        invariant
            i <= outerwares.len(),
            chain == outerwares@,
            forall|k: int, r: Request|
                0 <= k < outerwares.len() ==> #[trigger] call_requires(outerwares[k], (r,)),
            first == request,
            forall|out: Request| #[trigger]
                observes(chain.skip(i as int), current, out) ==> observes(chain, first, out),
        decreases outerwares.len() - i,
    {
        let ghost before = current;
        let mid = (outerwares[i])(current);
        assert(chain.skip(i as int)[0] == outerwares[i as int]);
        assert(chain.skip(i as int).drop_first() == chain.skip(i + 1));
        current = mid.0;
        assert forall|out: Request| #[trigger]
            observes(chain.skip(i + 1), current, out) implies observes(chain, first, out) by {
            assert(call_ensures(chain.skip(i as int)[0], (before,), mid));
            assert(observes(chain.skip(i as int), before, out));
        }
        i += 1;
    }
    assert(observes(chain.skip(i as int), current, current));
    current
}

/// Where the first interceptor of a chain answers whatever request it is
/// given, the chain ends there: what comes out is what that interceptor
/// gave, request and response, and nothing behind it had a part in it.
pub proof fn lemma_first_answer_is_final<M: Fn(Request) -> (Request, Option<Response>)>(
    chain: Seq<M>,
    request: Request,
    out: (Request, Option<Response>),
)
    requires
        chain.len() > 0,
        forall|mid: (Request, Option<Response>)| #[trigger]
            call_ensures(chain[0], (request,), mid) ==> mid.1 is Some,
        passes(chain, request, out),
    ensures
        call_ensures(chain[0], (request,), out),
        out.1 is Some,
{
}

/// A chain without interceptors hands the request on as it came, with no
/// response.
pub proof fn lemma_empty_chain_passes<M: Fn(Request) -> (Request, Option<Response>)>(
    chain: Seq<M>,
    request: Request,
    out: (Request, Option<Response>),
)
    requires
        chain.len() == 0,
        passes(chain, request, out),
    ensures
        out.0 == request,
        out.1 is None,
{
}

} // verus!
