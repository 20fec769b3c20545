//! The holders of connect and message handlers: each keeps a handler together with the types it
//! is used with.

use crate::packet::{bins_view, BinaryPacketView, Packet, PacketDataView, PacketView, Value};
use std::marker::PhantomData;
use vstd::prelude::*;

verus! {

/// A struct used to erase the type of a connect or message handler so it can be stored in a map.
pub struct MakeErasedHandler<H, A, T> {
    handler: H,
    adapter: PhantomData<A>,
    type_: PhantomData<T>,
}

impl<H, A, T> MakeErasedHandler<H, A, T> {
    /// The handler held.
    pub closed spec fn spec_handler(&self) -> H {
        self.handler
    }

    /// Holds the handler.
    pub fn new(handler: H) -> (s: Self)
        ensures
            s.spec_handler() == handler,
    {
        MakeErasedHandler { handler, adapter: PhantomData, type_: PhantomData }
    }

    /// The handler held.
    pub fn handler(&self) -> (h: &H)
        ensures
            *h == self.spec_handler(),
    {
        &self.handler
    }
}

/// A message handler with the type of the data it takes.
pub struct CallbackHandler<Param, F, A> {
    param: PhantomData<Param>,
    adapter: PhantomData<A>,
    handler: F,
}

impl<Param, F, A> CallbackHandler<Param, F, A> {
    /// The handler held.
    pub closed spec fn spec_handler(&self) -> F {
        self.handler
    }

    /// Holds the handler, boxed.
    pub fn boxed_message_handler(handler: F) -> (b: Box<Self>)
        ensures
            b.spec_handler() == handler,
    {
        Box::new(CallbackHandler { param: PhantomData, adapter: PhantomData, handler })
    }

    /// The handler held.
    pub fn handler(&self) -> (h: &F)
        ensures
            *h == self.spec_handler(),
    {
        &self.handler
    }
}

/// A `connect` handler that is layered with a middleware: `handler` (the middleware given to
/// `with`) runs first, then `next` (the handler it was layered on), only if `handler` succeeded.
pub struct LayeredConnectHandler<H, N, A, T, T1> {
    next: N,
    handler: H,
    adapter: PhantomData<A>,
    type_: PhantomData<T>,
    type1_: PhantomData<T1>,
}

impl<H, N, A, T, T1> LayeredConnectHandler<H, N, A, T, T1> {
    /// The middleware held, run first.
    pub closed spec fn spec_handler(&self) -> H {
        self.handler
    }

    /// The handler the middleware is layered on, run once the middleware succeeded.
    pub closed spec fn spec_next(&self) -> N {
        self.next
    }

    /// Layers the middleware `handler` on top of `next`.
    pub fn new(handler: H, next: N) -> (s: Self)
        ensures
            s.spec_handler() == handler,
            s.spec_next() == next,
    {
        LayeredConnectHandler { next, handler, adapter: PhantomData, type_: PhantomData, type1_: PhantomData }
    }
}

/// What to do next while the connect middlewares of a namespace run, one after the other.
#[derive(Debug, Clone, PartialEq)]
pub enum MiddlewareStep {
    /// Run the middleware of this position.
    Run(usize),
    /// Every middleware succeeded: the socket connects.
    Accept,
    /// A middleware failed, with this message: the connection is refused and no other
    /// middleware runs.
    Refuse(String),
}

/// The model of a [`MiddlewareStep`].
pub enum MiddlewareStepView {
    Run(nat),
    Accept,
    Refuse(Seq<char>),
}

impl View for MiddlewareStep {
    type V = MiddlewareStepView;

    open spec fn view(&self) -> MiddlewareStepView {
        match self {
            MiddlewareStep::Run(i) => MiddlewareStepView::Run(*i as nat),
            MiddlewareStep::Accept => MiddlewareStepView::Accept,
            MiddlewareStep::Refuse(m) => MiddlewareStepView::Refuse(m@),
        }
    }
}

/// The step after the middleware at `ran` (of `count`) ended with `outcome`: a failure refuses
/// with its message; a success runs the next middleware, or accepts after the last one.
pub open spec fn spec_middleware_after(count: nat, ran: nat, outcome: Result<(), Seq<char>>) -> MiddlewareStepView {
    match outcome {
        Err(m) => MiddlewareStepView::Refuse(m),
        Ok(_) => if ran + 1 < count {
            MiddlewareStepView::Run(ran + 1)
        } else {
            MiddlewareStepView::Accept
        },
    }
}

/// The first step of `count` middlewares: run the first, or accept when there is none.
pub fn middleware_first(count: usize) -> (s: MiddlewareStep)
    ensures
        s@ == (if count > 0 { MiddlewareStepView::Run(0) } else { MiddlewareStepView::Accept }),
{
    if count > 0 {
        MiddlewareStep::Run(0)
    } else {
        MiddlewareStep::Accept
    }
}

/// The step after the middleware at `ran` ended with `outcome`: the next middleware runs only
/// after a success, and the first failure stops the chain with its message.
pub fn middleware_after(count: usize, ran: usize, outcome: Result<(), String>) -> (s: MiddlewareStep)
    requires
        ran < count,
    ensures
        s@ == spec_middleware_after(
            count as nat,
            ran as nat,
            match outcome {
                Ok(_) => Ok(()),
                Err(m) => Err(m@),
            },
        ),
{
    match outcome {
        Err(m) => MiddlewareStep::Refuse(m),
        Ok(()) => if ran + 1 < count {
            MiddlewareStep::Run(ran + 1)
        } else {
            MiddlewareStep::Accept
        },
    }
}

/// Running middlewares from position `i` on, given what each would answer: how many have run
/// when the chain stops, and the message it was refused with, if it was.
pub open spec fn spec_chain_from(outcomes: Seq<Result<(), Seq<char>>>, i: nat) -> (nat, Option<Seq<char>>)
    decreases outcomes.len() - i,
{
    if i >= outcomes.len() {
        (i, None)
    } else {
        match spec_middleware_after(outcomes.len(), i, outcomes[i as int]) {
            MiddlewareStepView::Run(j) => spec_chain_from(outcomes, j),
            MiddlewareStepView::Refuse(m) => ((i + 1) as nat, Some(m)),
            MiddlewareStepView::Accept => ((i + 1) as nat, None),
        }
    }
}

/// The middlewares run in order and the first failure stops them: following the steps from the
/// first middleware, the ones that run are the first `n`, every one before the last of them
/// succeeded, and the chain is refused exactly when the last one run failed, with its message;
/// otherwise all of them ran.
pub proof fn lemma_middlewares_in_order(outcomes: Seq<Result<(), Seq<char>>>, i: nat)
    requires
        i <= outcomes.len(),
        forall|k: int| 0 <= k < i ==> outcomes[k] is Ok,
    ensures
        ({
            let (n, refused) = spec_chain_from(outcomes, i);
            &&& i <= n <= outcomes.len()
            &&& forall|k: int| 0 <= k < n - 1 ==> outcomes[k] is Ok
            &&& match refused {
                Some(m) => n > 0 && outcomes[n - 1] == Err::<(), Seq<char>>(m),
                None => n == outcomes.len() && forall|k: int| 0 <= k < n ==> outcomes[k] is Ok,
            }
        }),
    decreases outcomes.len() - i,
{
    if i < outcomes.len() {
        if outcomes[i as int] is Ok {
            if i + 1 < outcomes.len() {
                lemma_middlewares_in_order(outcomes, i + 1);
            }
        }
    }
}

/// Sends an ack response to the client, if the client asked for one: the answer to the event
/// with the ack id `ack_id` of the namespace `ns`.
#[derive(Debug)]
pub struct AckSender {
    binary: Vec<Vec<u8>>,
    ns: String,
    ack_id: Option<i64>,
}

impl AckSender {
    /// The binary payloads of the response.
    pub closed spec fn spec_binary(&self) -> Seq<Seq<u8>> {
        bins_view(self.binary@)
    }

    /// The namespace of the response.
    pub closed spec fn spec_ns(&self) -> Seq<char> {
        self.ns@
    }

    /// The ack id the client asked for, if any.
    pub closed spec fn spec_ack_id(&self) -> Option<i64> {
        self.ack_id
    }

    /// A sender of the response to the event with the ack id `ack_id` (if the client asked for
    /// one) of the namespace `ns`, with no binary payload.
    pub fn new(ns: &str, ack_id: Option<i64>) -> (s: AckSender)
        ensures
            s.spec_binary() == Seq::<Seq<u8>>::empty(),
            s.spec_ns() == ns@,
            s.spec_ack_id() == ack_id,
    {
        let s = AckSender { binary: Vec::new(), ns: ns.to_owned(), ack_id };
        assert(bins_view(s.binary@) =~= Seq::<Seq<u8>>::empty());
        s
    }

    /// Add binary data to the ack response.
    pub fn bin(self, bin: Vec<Vec<u8>>) -> (s: AckSender)
        ensures
            s.spec_binary() == bins_view(bin@),
            s.spec_ns() == self.spec_ns(),
            s.spec_ack_id() == self.spec_ack_id(),
    {
        AckSender { binary: bin, ..self }
    }

    /// The packet that sends the response `data`: none when the client asked for no ack; an ack
    /// packet, or a binary ack packet when binary payloads were added.
    pub fn packet(self, data: Value) -> (p: Option<Packet>)
        ensures
            match self.spec_ack_id() {
                None => p is None,
                Some(id) => p matches Some(q) && q@ == (if self.spec_binary().len() == 0 {
                    PacketView { inner: PacketDataView::EventAck(data@, id), ns: self.spec_ns() }
                } else {
                    PacketView {
                        inner: PacketDataView::BinaryAck(
                            BinaryPacketView {
                                data: data@,
                                bin: self.spec_binary(),
                                payload_count: self.spec_binary().len() as usize,
                            },
                            id,
                        ),
                        ns: self.spec_ns(),
                    }
                }),
            },
    {
        match self.ack_id {
            None => None,
            Some(id) => {
                if self.binary.len() == 0 {
                    Some(Packet::ack(self.ns.as_str(), data, id))
                } else {
                    Some(Packet::bin_ack(self.ns.as_str(), data, self.binary, id))
                }
            },
        }
    }
}

} // verus!
