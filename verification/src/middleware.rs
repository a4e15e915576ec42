pub mod compression;

use vstd::prelude::*;

use crate::middleware::compression::{compressed, spec_accepts_gzip, CompressionMw};
use crate::request::RequestContext;
use crate::Response;

verus! {

/// The capability a route's endpoint implements: one call per dispatch,
/// reading the context and producing the response.
pub trait Handler: Send + Sync {
    fn handle(&self, ctx: &RequestContext) -> Response;
}

/// An interceptor around a handler invocation: it may read and change the
/// context, must call `next` to proceed inward, and may transform the
/// response on the way out.
pub trait Middleware: Send + Sync {
    fn handle(&self, ctx: &mut RequestContext, next: Next<'_>) -> Response;
}

/// The middlewares a chain can be built from.
pub enum MiddlewareKind {
    Compression(CompressionMw),
}

/// The rest of a middleware chain: the interceptors still to run, ending
/// in the handler.
pub struct Next<'a> {
    pub middlewares: &'a [MiddlewareKind],
    pub handler: &'a dyn Handler,
}

impl<'a> Next<'a> {
    /// Runs the remaining chain: the first remaining middleware wraps the
    /// rest, and an empty chain is the handler itself. A chain of exactly
    /// the compression middleware answers with a correctly compressed form
    /// of some inner response.
    pub fn run(self, ctx: &mut RequestContext) -> (r: Response)
        ensures
            (self.middlewares@.len() == 1 && self.middlewares@[0] matches
                MiddlewareKind::Compression(_)) ==> exists|inner: Response|
                #[trigger] compressed(
                    spec_accepts_gzip(old(ctx).request.headers@),
                    inner,
                    r,
                ),
        decreases self.middlewares@.len(), 0int,
    {
        if self.middlewares.len() > 0 {
            let rest = &self.middlewares[1..self.middlewares.len()];
            let next = Next { middlewares: rest, handler: self.handler };
            match &self.middlewares[0] {
                MiddlewareKind::Compression(m) => m.handle(ctx, next),
            }
        } else {
            self.handler.handle(ctx)
        }
    }
}

} // verus!
