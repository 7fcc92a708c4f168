//! Middleware chains.
//!
//! Handlers and middleware are referred to by ids; the application keeps
//! the callables under those ids. A chain is built once per route and fixes
//! the order in which the middleware and the handler run.
use vstd::prelude::*;

verus! {

/// A route handler, named by the id under which the application keeps it.
#[derive(Debug, Clone, Copy, PartialEq, Eq, Structural, Hash)]
pub struct RouteHandler {
    pub id: u64,
}

/// A middleware function, named by the id under which the application keeps
/// it.
#[derive(Debug, Clone, Copy, PartialEq, Eq, Structural, Hash)]
pub struct Middleware {
    pub id: u64,
}

/// A pre-built invocation chain: each layer runs one middleware, whose
/// "next" capability is the chain inside it; the innermost link runs the
/// handler.
#[derive(Debug)]
pub enum Invoker {
    Handler(RouteHandler),
    Layer(Middleware, Box<Invoker>),
}

/// The middleware of a chain, outermost first.
pub open spec fn invoker_layers(inv: Invoker) -> Seq<Middleware>
    decreases inv,
{
    match inv {
        Invoker::Handler(_) => Seq::empty(),
        Invoker::Layer(m, inner) => seq![m] + invoker_layers(*inner),
    }
}

/// The handler at the end of a chain.
pub open spec fn invoker_handler(inv: Invoker) -> RouteHandler
    decreases inv,
{
    match inv {
        Invoker::Handler(h) => h,
        Invoker::Layer(_, inner) => invoker_handler(*inner),
    }
}

/// One step of a run through a chain.
#[derive(Debug, Clone, Copy, PartialEq, Eq, Structural)]
pub enum ChainEvent {
    /// A middleware starts, before it calls its next capability.
    Enter(Middleware),
    /// The handler runs.
    Handle(RouteHandler),
    /// A middleware resumes, after its next capability has returned.
    Leave(Middleware),
}

/// The steps of a run through a chain in which every middleware calls its
/// next capability once.
pub open spec fn run_events(inv: Invoker) -> Seq<ChainEvent>
    decreases inv,
{
    match inv {
        Invoker::Handler(h) => seq![ChainEvent::Handle(h)],
        Invoker::Layer(m, inner) => seq![ChainEvent::Enter(m)] + run_events(*inner) + seq![
            ChainEvent::Leave(m),
        ],
    }
}

/// The middleware that enter, in the order of a sequence of steps.
pub open spec fn entered(evs: Seq<ChainEvent>) -> Seq<Middleware>
    decreases evs.len(),
{
    if evs.len() == 0 {
        Seq::empty()
    } else {
        let init = entered(evs.drop_last());
        match evs.last() {
            ChainEvent::Enter(m) => init.push(m),
            _ => init,
        }
    }
}

/// The middleware that leave, in the order of a sequence of steps.
pub open spec fn left(evs: Seq<ChainEvent>) -> Seq<Middleware>
    decreases evs.len(),
{
    if evs.len() == 0 {
        Seq::empty()
    } else {
        let init = left(evs.drop_last());
        match evs.last() {
            ChainEvent::Leave(m) => init.push(m),
            _ => init,
        }
    }
}

proof fn lemma_entered_left_concat(a: Seq<ChainEvent>, b: Seq<ChainEvent>)
    ensures
        entered(a + b) == entered(a) + entered(b),
        left(a + b) == left(a) + left(b),
    decreases b.len(),
{
    if b.len() == 0 {
        assert(a + b =~= a);
        assert(entered(a) + entered(b) =~= entered(a));
        assert(left(a) + left(b) =~= left(a));
    } else {
        lemma_entered_left_concat(a, b.drop_last());
        assert((a + b).drop_last() =~= a + b.drop_last());
        assert((a + b).last() == b.last());
        assert(entered(a + b) =~= entered(a) + entered(b));
        assert(left(a + b) =~= left(a) + left(b));
    }
}

proof fn lemma_entered_left_single(ev: ChainEvent)
    ensures
        entered(seq![ev]) == (match ev {
            ChainEvent::Enter(m) => seq![m],
            _ => Seq::<Middleware>::empty(),
        }),
        left(seq![ev]) == (match ev {
            ChainEvent::Leave(m) => seq![m],
            _ => Seq::<Middleware>::empty(),
        }),
{
    let evs = seq![ev];
    assert(evs.drop_last() =~= Seq::<ChainEvent>::empty());
    assert(entered(Seq::<ChainEvent>::empty()) == Seq::<Middleware>::empty());
    assert(left(Seq::<ChainEvent>::empty()) == Seq::<Middleware>::empty());
    assert(evs.last() == ev);
    assert(Seq::<Middleware>::empty().push(ev->Enter_0) =~= seq![ev->Enter_0]);
    assert(Seq::<Middleware>::empty().push(ev->Leave_0) =~= seq![ev->Leave_0]);
}

/// In a run through a chain in which every middleware calls its next
/// capability, the middleware start outermost first and resume innermost
/// first, and the handler runs exactly once, between the two.
pub proof fn lemma_chain_order(inv: Invoker)
    ensures
        entered(run_events(inv)) == invoker_layers(inv),
        left(run_events(inv)) == invoker_layers(inv).reverse(),
        run_events(inv).len() == 2 * invoker_layers(inv).len() + 1,
        run_events(inv)[invoker_layers(inv).len() as int] == ChainEvent::Handle(
            invoker_handler(inv),
        ),
    decreases inv,
{
    match inv {
        Invoker::Handler(h) => {
            let evs = seq![ChainEvent::Handle(h)];
            lemma_entered_left_single(ChainEvent::Handle(h));
            assert(invoker_layers(inv).reverse() =~= Seq::<Middleware>::empty());
        },
        Invoker::Layer(m, inner) => {
            lemma_chain_order(*inner);
            let e = seq![ChainEvent::Enter(m)];
            let mid = run_events(*inner);
            let l = seq![ChainEvent::Leave(m)];
            lemma_entered_left_concat(e, mid);
            lemma_entered_left_concat(e + mid, l);
            lemma_entered_left_single(ChainEvent::Enter(m));
            lemma_entered_left_single(ChainEvent::Leave(m));
            assert(entered(run_events(inv)) =~= invoker_layers(inv));
            assert(invoker_layers(inv).reverse() =~= invoker_layers(*inner).reverse() + seq![m]);
            assert(left(run_events(inv)) =~= invoker_layers(inv).reverse());
            assert(run_events(inv)[invoker_layers(inv).len() as int] == mid[invoker_layers(
                *inner,
            ).len() as int]);
        },
    }
}

impl Invoker {
    /// Builds the chain for `middleware`, outermost first, around `handler`.
    /// The chain is built from the innermost layer outwards.
    pub fn build(middleware: &[Middleware], handler: RouteHandler) -> (r: Invoker)
        ensures
            invoker_layers(r) == middleware@,
            invoker_handler(r) == handler,
    {
        let mut inv = Invoker::Handler(handler);
        let mut i: usize = middleware.len();
        while i > 0
            invariant
                i <= middleware@.len(),
                invoker_layers(inv) == middleware@.subrange(i as int, middleware@.len() as int),
                invoker_handler(inv) == handler,
            decreases i,
        {
            i = i - 1;
            let m = middleware[i];
            let ghost inner = inv;
            inv = Invoker::Layer(m, Box::new(inv));
            assert(invoker_layers(inv) =~= middleware@.subrange(i as int, middleware@.len() as int));
        }
        assert(middleware@.subrange(0, middleware@.len() as int) =~= middleware@);
        inv
    }

    /// The steps of a run through the chain in which every middleware calls
    /// its next capability once.
    pub fn trace(&self) -> (r: Vec<ChainEvent>)
        ensures
            r@ == run_events(*self),
        decreases *self,
    {
        match self {
            Invoker::Handler(h) => {
                let mut r: Vec<ChainEvent> = Vec::new();
                r.push(ChainEvent::Handle(*h));
                assert(r@ =~= run_events(*self));
                r
            },
            Invoker::Layer(m, inner) => {
                let mut r: Vec<ChainEvent> = Vec::new();
                r.push(ChainEvent::Enter(*m));
                let mut rest = inner.trace();
                r.append(&mut rest);
                r.push(ChainEvent::Leave(*m));
                assert(r@ =~= run_events(*self));
                r
            },
        }
    }

    /// The middleware of the chain, outermost first.
    pub fn layers(&self) -> (r: Vec<Middleware>)
        ensures
            r@ == invoker_layers(*self),
        decreases *self,
    {
        match self {
            Invoker::Handler(_) => Vec::new(),
            Invoker::Layer(m, inner) => {
                let mut r: Vec<Middleware> = Vec::new();
                r.push(*m);
                let mut rest = inner.layers();
                r.append(&mut rest);
                assert(r@ =~= invoker_layers(*self));
                r
            },
        }
    }

    /// The handler at the end of the chain.
    pub fn handler(&self) -> (r: RouteHandler)
        ensures
            r == invoker_handler(*self),
        decreases *self,
    {
        match self {
            Invoker::Handler(h) => *h,
            Invoker::Layer(_, inner) => inner.handler(),
        }
    }
}

} // verus!
