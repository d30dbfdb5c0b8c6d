use crate::safe_read::{is_suffix, ByteReader, DecodeError, SafeRead};
use crate::spec::wifi::ProtocolViolation;
use crate::spec::{
    answers, catalog_answer, lemma_catalog_answers, lemma_request_round_trip,
    lemma_request_takes_bytes, lemma_truncated_request_refused, CalcRequest,
    CalcRequestView, CalcResponse, CalcResponseView, Deserialise, Outcome, Serialise,
};
use std::collections::VecDeque;
use vstd::prelude::*;

verus! {

/// The dispatcher as the contracts see it: the requests that wait, the one
/// in flight, and the history of what was accepted and what was answered.
pub ghost struct StateView {
    /// The requests that wait, oldest first.
    pub queue: Seq<CalcRequestView>,
    /// The request whose operation is in flight.
    pub in_flight: Option<CalcRequestView>,
    /// Every request that was ever accepted, in the order of acceptance.
    pub accepted: Seq<CalcRequestView>,
    /// Every response that was ever emitted, in the order of emission.
    pub answered: Seq<CalcResponseView>,
}

/// The slot as a sequence of no request or one.
pub open spec fn slot(in_flight: Option<CalcRequestView>) -> Seq<CalcRequestView> {
    match in_flight {
        Some(request) => seq![request],
        None => Seq::empty(),
    }
}

impl StateView {
    /// The dispatcher at startup.
    pub open spec fn empty() -> StateView {
        StateView {
            queue: Seq::empty(),
            in_flight: None,
            accepted: Seq::empty(),
            answered: Seq::empty(),
        }
    }

    /// Every accepted request is accounted for: the answered ones come
    /// first, each with a response of its own catalog entry, then the one in
    /// flight, then those that wait, all in the order of acceptance.
    pub open spec fn wf(self) -> bool {
        &&& self.answered.len() <= self.accepted.len()
        &&& self.accepted.skip(self.answered.len() as int) == slot(self.in_flight) + self.queue
        &&& forall|i: int|
            0 <= i < self.answered.len() ==> #[trigger] answers(
                self.accepted[i],
                self.answered[i],
            )
    }

    /// Whether an operation is in flight or a request waits.
    pub open spec fn busy(self) -> bool {
        self.in_flight.is_some() || self.queue.len() > 0
    }

    /// How many requests have left the queue.
    pub open spec fn dispatched(self) -> int {
        self.accepted.len() - self.queue.len()
    }

    /// The dispatcher after it accepted `request`.
    pub open spec fn pushed(self, request: CalcRequestView) -> StateView {
        StateView {
            queue: self.queue.push(request),
            accepted: self.accepted.push(request),
            ..self
        }
    }

    /// Whether a start step takes a request from the queue: the slot is
    /// free and a request waits.
    pub open spec fn can_start(self) -> bool {
        self.in_flight.is_none() && self.queue.len() > 0
    }

    /// The dispatcher after a start step: the oldest waiting request is in
    /// flight, where the slot was free and a request waited.
    pub open spec fn started(self) -> StateView {
        if self.can_start() {
            StateView {
                queue: self.queue.drop_first(),
                in_flight: Some(self.queue[0]),
                ..self
            }
        } else {
            self
        }
    }

    /// The dispatcher after the operation in flight ended with `response`.
    pub open spec fn concluded(self, response: CalcResponseView) -> StateView {
        StateView { in_flight: None, answered: self.answered.push(response), ..self }
    }

    /// The dispatcher after it was handed `bytes`: it accepted the request
    /// that they decode to, or nothing where they decode to none.
    pub open spec fn received(self, bytes: Seq<u8>) -> StateView {
        match CalcRequest::decoding(bytes).result {
            Ok(request) => self.pushed(request),
            Err(_) => self,
        }
    }
}

/// One step of a dispatcher's life.
pub ghost enum Step {
    /// A request is accepted.
    Push(CalcRequestView),
    /// A start step runs.
    Start,
    /// The operation in flight ends with a response.
    Conclude(CalcResponseView),
}

/// The dispatcher after `step`. An operation can only end while one is in
/// flight, and with a response of its request's catalog entry.
pub open spec fn after_step(state: StateView, step: Step) -> StateView {
    match step {
        Step::Push(request) => state.pushed(request),
        Step::Start => state.started(),
        Step::Conclude(response) => match state.in_flight {
            Some(request) => if answers(request, response) {
                state.concluded(response)
            } else {
                state
            },
            None => state,
        },
    }
}

/// The dispatcher after the steps of `trace`, from startup.
pub open spec fn after_trace(trace: Seq<Step>) -> StateView
    decreases trace.len(),
{
    if trace.len() == 0 {
        StateView::empty()
    } else {
        after_step(after_trace(trace.drop_last()), trace.last())
    }
}

/// Every step keeps the accounting.
pub proof fn lemma_step_keeps_wf(state: StateView, step: Step)
    requires
        state.wf(),
    ensures
        after_step(state, step).wf(),
{
    let next = after_step(state, step);
    let done = state.answered.len() as int;
    match step {
        Step::Push(request) => {
            assert(next.accepted.skip(done) =~= slot(next.in_flight) + next.queue) by {
                assert(state.accepted.skip(done) == slot(state.in_flight) + state.queue);
                assert(state.accepted.push(request).skip(done) =~= state.accepted.skip(done).push(
                    request,
                ));
            }
        },
        Step::Start => {
            if state.can_start() {
                assert(slot(next.in_flight) + next.queue =~= slot(state.in_flight) + state.queue);
            }
        },
        Step::Conclude(response) => {
            if state.in_flight.is_some() && answers(state.in_flight.unwrap(), response) {
                let request = state.in_flight.unwrap();
                assert(state.accepted.skip(done) == seq![request] + state.queue);
                assert(state.accepted.skip(done).len() == (seq![request] + state.queue).len());
                assert(state.accepted.skip(done)[0] == request);
                assert(state.accepted[done] == request);
                assert(next.accepted.skip(done + 1) =~= state.accepted.skip(done).drop_first());
                assert((seq![request] + state.queue).drop_first() =~= state.queue);
                assert(slot(next.in_flight) + next.queue =~= state.queue);
                assert forall|i: int| 0 <= i < next.answered.len() implies #[trigger] answers(
                    next.accepted[i],
                    next.answered[i],
                ) by {
                    if i < done {
                        assert(answers(state.accepted[i], state.answered[i]));
                    }
                }
            }
        },
    }
}

/// The accounting holds at every point of every trace.
pub proof fn lemma_trace_wf(trace: Seq<Step>)
    ensures
        after_trace(trace).wf(),
    decreases trace.len(),
{
    if trace.len() == 0 {
        assert(StateView::empty().accepted.skip(0) =~= slot(None) + Seq::empty());
    } else {
        lemma_trace_wf(trace.drop_last());
        lemma_step_keeps_wf(after_trace(trace.drop_last()), trace.last());
    }
}

/// Responses come in the order in which their requests were accepted: the
/// response emitted at place `i` answers the request accepted at place `i`,
/// the request in flight is the oldest that has no response yet, and those
/// that wait follow it in the order of acceptance.
pub proof fn lemma_first_in_first_out(state: StateView)
    requires
        state.wf(),
    ensures
        state.answered.len() <= state.accepted.len(),
        forall|i: int|
            0 <= i < state.answered.len() ==> #[trigger] answers(
                state.accepted[i],
                state.answered[i],
            ),
        state.in_flight.is_some() ==> state.answered.len() < state.accepted.len()
            && state.in_flight.unwrap() == state.accepted[state.answered.len() as int],
        forall|j: int|
            0 <= j < state.queue.len() ==> state.dispatched() + j < state.accepted.len()
                && #[trigger] state.queue[j] == state.accepted[state.dispatched() + j],
{
    let done = state.answered.len() as int;
    let open = slot(state.in_flight) + state.queue;
    assert(state.accepted.skip(done).len() == open.len());
    if state.in_flight.is_some() {
        assert(state.accepted.skip(done)[0] == open[0]);
    }
    assert forall|j: int| 0 <= j < state.queue.len() implies state.dispatched() + j
        < state.accepted.len() && #[trigger] state.queue[j] == state.accepted[state.dispatched()
        + j] by {
        let k = slot(state.in_flight).len() as int + j;
        assert(state.accepted.skip(done)[k] == open[k]);
    }
}

/// At most one operation is in flight: of the requests that have left the
/// queue, all but the one in the slot have their response.
pub proof fn lemma_single_flight(state: StateView)
    requires
        state.wf(),
    ensures
        state.dispatched() - state.answered.len() == (if state.in_flight.is_some() {
            1int
        } else {
            0int
        }),
        0 <= state.dispatched() - state.answered.len() <= 1,
{
    let done = state.answered.len() as int;
    assert(state.accepted.skip(done).len() == (slot(state.in_flight) + state.queue).len());
}

/// In every trace, responses come in the order of acceptance and at most
/// one operation is in flight.
pub proof fn lemma_trace_in_order_and_single(trace: Seq<Step>)
    ensures
        0 <= after_trace(trace).dispatched() - after_trace(trace).answered.len() <= 1,
        forall|i: int|
            0 <= i < after_trace(trace).answered.len() ==> i < after_trace(trace).accepted.len()
                && #[trigger] answers(
                after_trace(trace).accepted[i],
                after_trace(trace).answered[i],
            ),
{
    lemma_trace_wf(trace);
    lemma_single_flight(after_trace(trace));
    lemma_first_in_first_out(after_trace(trace));
}

/// Bytes that decode to no request leave the dispatcher as it was, and the
/// frame of a request that is handed in afterwards is accepted as if the
/// bad bytes had never come.
pub proof fn lemma_refused_bytes_leave_no_trace(
    state: StateView,
    garbage: Seq<u8>,
    request: CalcRequest,
    tail: Seq<u8>,
)
    requires
        CalcRequest::decoding(garbage).result.is_err(),
        request.encodable(),
    ensures
        state.received(garbage) == state,
        state.received(garbage).received(request.encoding() + tail) == state.pushed(request@),
{
    lemma_request_round_trip(request, tail);
}

/// A request's frame that was cut short is refused and leaves the
/// dispatcher as it was.
pub proof fn lemma_truncated_frame_leaves_no_trace(
    state: StateView,
    request: CalcRequest,
    cut: int,
)
    requires
        request.encodable(),
        0 <= cut < request.encoding().len(),
    ensures
        CalcRequest::decoding(request.encoding().take(cut)).result.is_err(),
        state.received(request.encoding().take(cut)) == state,
{
    lemma_truncated_request_refused(request, cut);
}

/// How the transport took a response's frame.
#[derive(Debug, Clone, Copy, PartialEq, Eq, Structural)]
pub enum Delivery {
    /// Every byte was written.
    Complete,
    /// Only `written` of `expected` bytes were written.
    Partial { written: usize, expected: usize },
    /// The transport failed, with this code.
    Failed(i32),
}

/// Judges what the transport reports of a write of `expected` bytes. A
/// short write is reported and not tried again.
pub fn delivery(written: Result<usize, i32>, expected: usize) -> (report: Delivery)
    ensures
        report == match written {
            Ok(size) => if size == expected {
                Delivery::Complete
            } else {
                Delivery::Partial { written: size, expected }
            },
            Err(code) => Delivery::Failed(code),
        },
{
    match written {
        Ok(size) => if size == expected {
            Delivery::Complete
        } else {
            Delivery::Partial { written: size, expected }
        },
        Err(code) => Delivery::Failed(code),
    }
}

/// The dispatcher: a queue of requests and one slot for the operation in
/// flight.
pub struct State {
    processing: Option<CalcRequest>,
    incoming: VecDeque<CalcRequest>,
    accepted: Ghost<Seq<CalcRequestView>>,
    answered: Ghost<Seq<CalcResponseView>>,
}

impl View for State {
    type V = StateView;

    closed spec fn view(&self) -> StateView {
        StateView {
            queue: self.incoming.deep_view(),
            in_flight: match self.processing {
                Some(request) => Some(request.deep_view()),
                None => None,
            },
            accepted: self.accepted@,
            answered: self.answered@,
        }
    }
}

impl State {
    /// Whether the dispatcher accounts for every request that it accepted.
    pub open spec fn wf(&self) -> bool {
        self@.wf()
    }

    /// A dispatcher with nothing waiting and nothing in flight.
    pub fn new() -> (state: State)
        ensures
            state@ == StateView::empty(),
            state.wf(),
    {
        let state = State {
            processing: None,
            incoming: VecDeque::new(),
            accepted: Ghost(Seq::empty()),
            answered: Ghost(Seq::empty()),
        };
        assert(state.incoming.deep_view() =~= Seq::<CalcRequestView>::empty());
        assert(state@.accepted.skip(0) =~= slot(state@.in_flight) + state@.queue);
        state
    }

    /// Accepts `req`: it waits behind every request accepted before it.
    pub fn push_incoming(&mut self, req: CalcRequest)
        requires
            old(self).wf(),
        ensures
            final(self)@ == old(self)@.pushed(req@),
            final(self).wf(),
    {
        let ghost before = self.incoming.deep_view();
        self.incoming.push_back(req);
        proof {
            self.accepted@ = self.accepted@.push(req@);
            assert(self.incoming.deep_view() =~= before.push(req@));
            lemma_step_keeps_wf(old(self)@, Step::Push(req@));
        }
    }

    /// Decodes one request from the front of `bytes` and accepts it. Hands
    /// back the bytes that follow the request's frame. Bytes that decode to
    /// no request change nothing.
    pub fn read_incoming<'a>(&mut self, bytes: &'a [u8]) -> (res: Result<&'a [u8], DecodeError>)
        requires
            old(self).wf(),
        ensures
            final(self)@ == old(self)@.received(bytes@),
            final(self).wf(),
            match res {
                Ok(rest) => CalcRequest::decoding(bytes@).result.is_ok() && rest@
                    == CalcRequest::decoding(bytes@).rest && rest@.len() < bytes@.len()
                    && is_suffix(rest@, bytes@),
                Err(error) => CalcRequest::decoding(bytes@).result == Err::<
                    CalcRequestView,
                    DecodeError,
                >(error),
            },
    {
        proof {
            lemma_request_takes_bytes(bytes@);
        }
        let mut reader = ByteReader::new(bytes);
        match CalcRequest::from_bytes(&mut reader) {
            Ok(request) => {
                self.push_incoming(request);
                Ok(reader.into_rest())
            },
            Err(error) => Err(error),
        }
    }

    /// Whether an operation is in flight or a request waits.
    pub fn is_processing(&self) -> (busy: bool)
        ensures
            busy == self@.busy(),
    {
        self.processing.is_some() || self.incoming.len() > 0
    }

    /// The request whose operation is in flight.
    pub fn in_flight(&self) -> (request: Option<&CalcRequest>)
        ensures
            match request {
                Some(current) => self@.in_flight == Some(current@),
                None => self@.in_flight.is_none(),
            },
    {
        self.processing.as_ref()
    }

    /// The start step: where the slot is free and a request waits, the
    /// oldest waiting request goes in flight. Tells whether it did.
    pub fn try_process_incoming(&mut self) -> (started: bool)
        requires
            old(self).wf(),
        ensures
            started == old(self)@.can_start(),
            final(self)@ == old(self)@.started(),
            final(self).wf(),
    {
        if self.processing.is_some() {
            return false;
        }
        let ghost before = self.incoming.deep_view();
        match self.incoming.pop_front() {
            Some(next) => {
                self.processing = Some(next);
                proof {
                    assert(self.incoming.deep_view() =~= before.drop_first());
                    lemma_step_keeps_wf(old(self)@, Step::Start);
                }
                true
            },
            None => {
                assert(self.incoming.deep_view() =~= before);
                false
            },
        }
    }

    /// Ends the operation in flight with `outcome`, where the catalog has
    /// a response for it and, if `must_fit`, the response fits a frame.
    fn settle(&mut self, outcome: Outcome, must_fit: bool) -> (res: Result<
        CalcResponse,
        ProtocolViolation,
    >)
        requires
            old(self).wf(),
        ensures
            final(self).wf(),
            settled(old(self)@, outcome, must_fit).is_ok() ==> res == settled(
                old(self)@,
                outcome,
                must_fit,
            ) && final(self)@ == old(self)@.concluded(res.unwrap()@),
            settled(old(self)@, outcome, must_fit).is_err() ==> res == settled(
                old(self)@,
                outcome,
                must_fit,
            ) && final(self)@ == old(self)@,
    {
        let response = match &self.processing {
            None => { return Err(ProtocolViolation::NothingInFlight); },
            Some(request) => match request.respond(outcome) {
                Ok(response) => response,
                Err(violation) => { return Err(violation); },
            },
        };
        if must_fit && !response.fits_frame() {
            return Err(ProtocolViolation::OversizedResponse);
        }
        self.processing = None;
        proof {
            self.answered@ = self.answered@.push(response@);
            lemma_catalog_answers(old(self)@.in_flight.unwrap(), outcome);
            lemma_step_keeps_wf(old(self)@, Step::Conclude(response@));
        }
        Ok(response)
    }

    /// The poll step. `polled` is what polling the operation in flight
    /// gave: nothing while it is not complete, else its outcome. An outcome
    /// ends the operation: the slot is freed and the response handed back.
    /// An outcome that the catalog has no response for, or one that comes
    /// while nothing is in flight, is a violation and changes nothing.
    pub fn poll_processing(&mut self, polled: Option<Outcome>) -> (res: Result<
        Option<CalcResponse>,
        ProtocolViolation,
    >)
        requires
            old(self).wf(),
        ensures
            final(self).wf(),
            match polled {
                None => res == Ok::<Option<CalcResponse>, ProtocolViolation>(None) && final(self)@
                    == old(self)@,
                Some(outcome) => match settled(old(self)@, outcome, false) {
                    Ok(response) => res == Ok::<Option<CalcResponse>, ProtocolViolation>(
                        Some(response),
                    ) && final(self)@ == old(self)@.concluded(response@),
                    Err(violation) => res == Err::<Option<CalcResponse>, ProtocolViolation>(
                        violation,
                    ) && final(self)@ == old(self)@,
                },
            },
    {
        match polled {
            None => Ok(None),
            Some(outcome) => match self.settle(outcome, false) {
                Ok(response) => Ok(Some(response)),
                Err(violation) => Err(violation),
            },
        }
    }

    /// The poll step, with the response made ready for the transport: its
    /// frame is handed back. A response that fits no frame is a violation
    /// and changes nothing.
    pub fn try_send_processing(&mut self, polled: Option<Outcome>) -> (res: Result<
        Option<Vec<u8>>,
        ProtocolViolation,
    >)
        requires
            old(self).wf(),
        ensures
            final(self).wf(),
            match polled {
                None => res == Ok::<Option<Vec<u8>>, ProtocolViolation>(None) && final(self)@
                    == old(self)@,
                Some(outcome) => match settled(old(self)@, outcome, true) {
                    Ok(response) => res.is_ok() && res.unwrap().is_some()
                        && res.unwrap().unwrap()@ == response.encoding() && final(self)@ == old(
                        self,
                    )@.concluded(response@),
                    Err(violation) => res == Err::<Option<Vec<u8>>, ProtocolViolation>(violation)
                        && final(self)@ == old(self)@,
                },
            },
    {
        match polled {
            None => Ok(None),
            Some(outcome) => match self.settle(outcome, true) {
                Ok(response) => Ok(Some(response.to_bytes())),
                Err(violation) => Err(violation),
            },
        }
    }
}

/// What ending the operation in flight with `outcome` gives: the catalog's
/// response, or the violation. Nothing in flight is a violation, an outcome
/// without a response in the catalog is one, and so is, where the response
/// must fit a frame, a response that fits none.
pub open spec fn settled(state: StateView, outcome: Outcome, must_fit: bool) -> Result<
    CalcResponse,
    ProtocolViolation,
> {
    match state.in_flight {
        None => Err(ProtocolViolation::NothingInFlight),
        Some(request) => match catalog_answer(request, outcome) {
            None => Err(ProtocolViolation::UnexpectedReply),
            Some(response) => if must_fit && !response.encodable() {
                Err(ProtocolViolation::OversizedResponse)
            } else {
                Ok(response)
            },
        },
    }
}

} // verus!
