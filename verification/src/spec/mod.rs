use crate::safe_read::{
    decoded, is_suffix, lemma_suffix_of_suffix, lemma_take_byte_leaves_suffix,
    lemma_take_leaves_suffix, refused, take_byte, take_bytes, DecodeError, Decoded, SafeRead,
};
use crate::spec::http::{HttpReq, HttpReqView, HttpResp};
use crate::spec::serialise::{
    be32, be32_value, i32_from_be_bytes, lemma_be32_round_trip, lemma_cut_tagged,
    lemma_signed_word_round_trip,
    lemma_take_block, lemma_take_tag, signed_word, word_signed,
};
use crate::spec::wifi::{
    catalog_outcome, ProtocolViolation, WifiActions, WifiActionsView, WifiReply, WifiResponse,
    WifiResponseView,
};
use vstd::prelude::*;

pub mod http;
pub mod serialise;
pub mod wifi;

pub use serialise::{Deserialise, RoundTrip, Serialise};

verus! {

/// What the controller asks for: an operation of the radio or a network
/// call.
#[derive(Debug, Clone, PartialEq, Eq)]
pub enum CalcRequest {
    Wifi(WifiActions),
    Http(HttpReq),
}

/// `CalcRequest` as the frame model has it.
pub ghost enum CalcRequestView {
    Wifi(WifiActionsView),
    Http(HttpReqView),
}

impl DeepView for CalcRequest {
    type V = CalcRequestView;

    open spec fn deep_view(&self) -> CalcRequestView {
        match self {
            CalcRequest::Wifi(action) => CalcRequestView::Wifi(action.deep_view()),
            CalcRequest::Http(call) => CalcRequestView::Http(call.deep_view()),
        }
    }
}

impl View for CalcRequest {
    type V = CalcRequestView;

    open spec fn view(&self) -> CalcRequestView {
        self.deep_view()
    }
}

/// A request travels as its family tag and the frame of what it asks for.
impl Serialise for CalcRequest {
    open spec fn encodable(&self) -> bool {
        match self {
            CalcRequest::Wifi(action) => action.encodable(),
            CalcRequest::Http(call) => call.encodable(),
        }
    }

    open spec fn encoding(&self) -> Seq<u8> {
        match self {
            CalcRequest::Wifi(action) => seq![0u8] + action.encoding(),
            CalcRequest::Http(call) => seq![1u8] + call.encoding(),
        }
    }

    fn to_bytes(self) -> (out: Vec<u8>) {
        let mut out: Vec<u8> = Vec::new();
        match self {
            CalcRequest::Wifi(action) => {
                out.push(0);
                let mut frame = action.to_bytes();
                out.append(&mut frame);
            },
            CalcRequest::Http(call) => {
                out.push(1);
                let mut frame = call.to_bytes();
                out.append(&mut frame);
            },
        }
        out
    }
}

impl Deserialise for CalcRequest {
    #[verifier::opaque]
    open spec fn decoding(bytes: Seq<u8>) -> Decoded<CalcRequestView> {
        let tag = take_byte(bytes);
        match tag.result {
            Err(error) => refused(error, tag.rest),
            Ok(id) => if id == 0 {
                let action = WifiActions::decoding(tag.rest);
                match action.result {
                    Err(error) => refused(error, action.rest),
                    Ok(value) => decoded(CalcRequestView::Wifi(value), action.rest),
                }
            } else if id == 1 {
                let call = HttpReq::decoding(tag.rest);
                match call.result {
                    Err(error) => refused(error, call.rest),
                    Ok(value) => decoded(CalcRequestView::Http(value), call.rest),
                }
            } else {
                refused(DecodeError::UnknownTag { tag: id }, tag.rest)
            },
        }
    }

    proof fn lemma_leaves_suffix(bytes: Seq<u8>) {
        reveal(<CalcRequest as Deserialise>::decoding);
        let tag = take_byte(bytes);
        lemma_take_byte_leaves_suffix(bytes);
        if tag.result.is_ok() {
            WifiActions::lemma_leaves_suffix(tag.rest);
            lemma_suffix_of_suffix(WifiActions::decoding(tag.rest).rest, tag.rest, bytes);
            HttpReq::lemma_leaves_suffix(tag.rest);
            lemma_suffix_of_suffix(HttpReq::decoding(tag.rest).rest, tag.rest, bytes);
        }
    }

    fn from_bytes<R: SafeRead>(src: &mut R) -> (res: Result<Self, DecodeError>) {
        proof {
            reveal(<CalcRequest as Deserialise>::decoding);
        }
        let id = match src.try_next() {
            Ok(id) => id,
            Err(error) => { return Err(error); },
        };
        match id {
            0 => match WifiActions::from_bytes(src) {
                Ok(action) => Ok(CalcRequest::Wifi(action)),
                Err(error) => Err(error),
            },
            1 => match HttpReq::from_bytes(src) {
                Ok(call) => Ok(CalcRequest::Http(call)),
                Err(error) => Err(error),
            },
            _ => Err(DecodeError::UnknownTag { tag: id }),
        }
    }
}

impl RoundTrip for CalcRequest {
    proof fn lemma_round_trip(&self, tail: Seq<u8>) {
        reveal(<CalcRequest as Deserialise>::decoding);
        match self {
            CalcRequest::Wifi(action) => {
                lemma_radio_request(*action, tail);
            },
            CalcRequest::Http(call) => {
                lemma_network_request(*call, tail);
            },
        }
    }

    proof fn lemma_truncated(&self, cut: int) {
        reveal(<CalcRequest as Deserialise>::decoding);
        match self {
            CalcRequest::Wifi(action) => {
                lemma_cut_tagged(0, action.encoding(), cut);
                if cut > 0 {
                    action.lemma_truncated(cut - 1);
                }
            },
            CalcRequest::Http(call) => {
                lemma_cut_tagged(1, call.encoding(), cut);
                if cut > 0 {
                    call.lemma_truncated(cut - 1);
                }
            },
        }
    }

    proof fn lemma_frame_of_view(&self, other: &Self) {
        match (self, other) {
            (CalcRequest::Wifi(mine), CalcRequest::Wifi(theirs)) => {
                mine.lemma_frame_of_view(theirs);
            },
            (CalcRequest::Http(mine), CalcRequest::Http(theirs)) => {
                mine.lemma_frame_of_view(theirs);
            },
            _ => {},
        }
    }
}

/// A radio request is read back from its frame.
proof fn lemma_radio_request(action: WifiActions, tail: Seq<u8>)
    requires
        action.encodable(),
    ensures
        CalcRequest::decoding(seq![0u8] + action.encoding() + tail) == decoded(
            CalcRequestView::Wifi(action.deep_view()),
            tail,
        ),
{
    reveal(<CalcRequest as Deserialise>::decoding);
    let inner = action.encoding() + tail;
    assert(seq![0u8] + action.encoding() + tail =~= seq![0u8] + inner);
    lemma_take_tag(0, inner);
    action.lemma_round_trip(tail);
}

/// A network call is read back from its frame.
proof fn lemma_network_request(call: HttpReq, tail: Seq<u8>)
    requires
        call.encodable(),
    ensures
        CalcRequest::decoding(seq![1u8] + call.encoding() + tail) == decoded(
            CalcRequestView::Http(call.deep_view()),
            tail,
        ),
{
    reveal(<CalcRequest as Deserialise>::decoding);
    let inner = call.encoding() + tail;
    assert(seq![1u8] + call.encoding() + tail =~= seq![1u8] + inner);
    lemma_take_tag(1, inner);
    call.lemma_round_trip(tail);
}

/// What the device answers: the radio's response, or the outcome of a
/// network call, which is a body or a failure's code.
#[derive(Debug)]
pub enum CalcResponse {
    Wifi(WifiResponse),
    Http(Result<HttpResp, i32>),
}

/// `CalcResponse` as the frame model has it.
pub ghost enum CalcResponseView {
    Wifi(WifiResponseView),
    Http(Result<Seq<u8>, i32>),
}

impl DeepView for CalcResponse {
    type V = CalcResponseView;

    open spec fn deep_view(&self) -> CalcResponseView {
        match self {
            CalcResponse::Wifi(response) => CalcResponseView::Wifi(response.deep_view()),
            CalcResponse::Http(Ok(body)) => CalcResponseView::Http(Ok(body.deep_view())),
            CalcResponse::Http(Err(code)) => CalcResponseView::Http(Err(*code)),
        }
    }
}

impl View for CalcResponse {
    type V = CalcResponseView;

    open spec fn view(&self) -> CalcResponseView {
        self.deep_view()
    }
}

/// The family tag of a response frame: `0` for the radio, `1` for a network
/// call.
pub open spec fn family_tag(response: CalcResponseView) -> u8 {
    match response {
        CalcResponseView::Wifi(_) => 0,
        CalcResponseView::Http(_) => 1,
    }
}

impl CalcResponse {
    /// The response's family tag in a frame.
    pub fn id(&self) -> (tag: u8)
        ensures
            tag == family_tag(self@),
    {
        match self {
            CalcResponse::Wifi(_) => 0,
            CalcResponse::Http(_) => 1,
        }
    }

    /// The frame of what the response carries, without the family tag.
    fn serialise_child(self) -> (out: Vec<u8>)
        requires
            self.encodable(),
        ensures
            seq![family_tag(self@)] + out@ == self.encoding(),
    {
        match self {
            CalcResponse::Wifi(response) => response.to_bytes(),
            CalcResponse::Http(outcome) => outcome.to_bytes(),
        }
    }

    /// Whether the response fits a frame.
    pub fn fits_frame(&self) -> (fits: bool)
        ensures
            fits == self.encodable(),
    {
        match self {
            CalcResponse::Wifi(response) => response.fits_frame(),
            CalcResponse::Http(Ok(body)) => body.fits_frame(),
            CalcResponse::Http(Err(_)) => true,
        }
    }
}

/// A response travels as its family tag and the frame of what it carries:
/// the radio's response, or the outcome of a network call.
impl Serialise for CalcResponse {
    open spec fn encodable(&self) -> bool {
        match self {
            CalcResponse::Wifi(response) => response.encodable(),
            CalcResponse::Http(outcome) => outcome.encodable(),
        }
    }

    open spec fn encoding(&self) -> Seq<u8> {
        match self {
            CalcResponse::Wifi(response) => seq![0u8] + response.encoding(),
            CalcResponse::Http(outcome) => seq![1u8] + outcome.encoding(),
        }
    }

    fn to_bytes(self) -> (out: Vec<u8>) {
        let mut out: Vec<u8> = Vec::new();
        out.push(self.id());
        let mut child = self.serialise_child();
        out.append(&mut child);
        out
    }
}

impl Deserialise for CalcResponse {
    #[verifier::opaque]
    open spec fn decoding(bytes: Seq<u8>) -> Decoded<CalcResponseView> {
        let tag = take_byte(bytes);
        match tag.result {
            Err(error) => refused(error, tag.rest),
            Ok(id) => if id == 0 {
                let response = WifiResponse::decoding(tag.rest);
                match response.result {
                    Err(error) => refused(error, response.rest),
                    Ok(value) => decoded(CalcResponseView::Wifi(value), response.rest),
                }
            } else if id == 1 {
                let mark = take_byte(tag.rest);
                match mark.result {
                    Err(error) => refused(error, mark.rest),
                    Ok(failed) => if failed == 0 {
                        let body = HttpResp::decoding(mark.rest);
                        match body.result {
                            Err(error) => refused(error, body.rest),
                            Ok(raw) => decoded(CalcResponseView::Http(Ok(raw)), body.rest),
                        }
                    } else if failed == 1 {
                        let word = take_bytes(mark.rest, 4);
                        match word.result {
                            Err(error) => refused(error, word.rest),
                            Ok(block) => decoded(
                                CalcResponseView::Http(Err(word_signed(be32_value(block)))),
                                word.rest,
                            ),
                        }
                    } else {
                        refused(DecodeError::Malformed { byte: failed }, mark.rest)
                    },
                }
            } else {
                refused(DecodeError::UnknownTag { tag: id }, tag.rest)
            },
        }
    }

    proof fn lemma_leaves_suffix(bytes: Seq<u8>) {
        reveal(<CalcResponse as Deserialise>::decoding);
        let tag = take_byte(bytes);
        lemma_take_byte_leaves_suffix(bytes);
        if tag.result.is_ok() {
            WifiResponse::lemma_leaves_suffix(tag.rest);
            lemma_suffix_of_suffix(WifiResponse::decoding(tag.rest).rest, tag.rest, bytes);
            let mark = take_byte(tag.rest);
            lemma_take_byte_leaves_suffix(tag.rest);
            lemma_suffix_of_suffix(mark.rest, tag.rest, bytes);
            if mark.result.is_ok() {
                HttpResp::lemma_leaves_suffix(mark.rest);
                lemma_suffix_of_suffix(HttpResp::decoding(mark.rest).rest, mark.rest, bytes);
                lemma_take_leaves_suffix(mark.rest, 4);
                lemma_suffix_of_suffix(take_bytes(mark.rest, 4).rest, mark.rest, bytes);
            }
        }
    }

    fn from_bytes<R: SafeRead>(src: &mut R) -> (res: Result<Self, DecodeError>) {
        proof {
            reveal(<CalcResponse as Deserialise>::decoding);
        }
        let id = match src.try_next() {
            Ok(id) => id,
            Err(error) => { return Err(error); },
        };
        match id {
            0 => match WifiResponse::from_bytes(src) {
                Ok(response) => Ok(CalcResponse::Wifi(response)),
                Err(error) => Err(error),
            },
            1 => {
                let failed = match src.try_next() {
                    Ok(failed) => failed,
                    Err(error) => { return Err(error); },
                };
                match failed {
                    0 => match HttpResp::from_bytes(src) {
                        Ok(body) => Ok(CalcResponse::Http(Ok(body))),
                        Err(error) => Err(error),
                    },
                    1 => match src.try_read::<4>() {
                        Ok(word) => Ok(CalcResponse::Http(Err(i32_from_be_bytes(word)))),
                        Err(error) => Err(error),
                    },
                    _ => Err(DecodeError::Malformed { byte: failed }),
                }
            },
            _ => Err(DecodeError::UnknownTag { tag: id }),
        }
    }
}

impl RoundTrip for CalcResponse {
    proof fn lemma_round_trip(&self, tail: Seq<u8>) {
        reveal(<CalcResponse as Deserialise>::decoding);
        match self {
            CalcResponse::Wifi(response) => {
                assert(self.encoding() + tail =~= seq![0u8] + (response.encoding() + tail));
                lemma_take_tag(0, response.encoding() + tail);
                response.lemma_round_trip(tail);
            },
            CalcResponse::Http(Ok(body)) => {
                assert(self.encoding() + tail =~= seq![1u8] + (seq![0u8] + (body.encoding()
                    + tail)));
                lemma_take_tag(1, seq![0u8] + (body.encoding() + tail));
                lemma_take_tag(0, body.encoding() + tail);
                body.lemma_round_trip(tail);
            },
            CalcResponse::Http(Err(code)) => {
                let word = be32(signed_word(*code));
                lemma_be32_round_trip(signed_word(*code));
                lemma_signed_word_round_trip(*code);
                assert(self.encoding() + tail =~= seq![1u8] + (seq![1u8] + (word + tail)));
                lemma_take_tag(1, seq![1u8] + (word + tail));
                lemma_take_tag(1, word + tail);
                lemma_take_block(word, tail);
            },
        }
    }

    proof fn lemma_truncated(&self, cut: int) {
        reveal(<CalcResponse as Deserialise>::decoding);
        match self {
            CalcResponse::Wifi(response) => {
                lemma_cut_tagged(0, response.encoding(), cut);
                if cut > 0 {
                    response.lemma_truncated(cut - 1);
                }
            },
            CalcResponse::Http(Ok(body)) => {
                lemma_cut_tagged(1, seq![0u8] + body.encoding(), cut);
                if cut > 0 {
                    lemma_cut_tagged(0, body.encoding(), cut - 1);
                    if cut > 1 {
                        body.lemma_truncated(cut - 2);
                    }
                }
            },
            CalcResponse::Http(Err(code)) => {
                let word = be32(signed_word(*code));
                lemma_be32_round_trip(signed_word(*code));
                lemma_cut_tagged(1, seq![1u8] + word, cut);
                if cut > 0 {
                    lemma_cut_tagged(1, word, cut - 1);
                }
            },
        }
    }

    proof fn lemma_frame_of_view(&self, other: &Self) {
        match (self, other) {
            (CalcResponse::Wifi(mine), CalcResponse::Wifi(theirs)) => {
                mine.lemma_frame_of_view(theirs);
            },
            (CalcResponse::Http(Ok(mine)), CalcResponse::Http(Ok(theirs))) => {
                mine.lemma_frame_of_view(theirs);
            },
            _ => {},
        }
    }
}

/// Every request that the frame format can hold is read back from its
/// frame, whatever bytes follow the frame.
pub proof fn lemma_request_round_trip(request: CalcRequest, tail: Seq<u8>)
    requires
        request.encodable(),
    ensures
        CalcRequest::decoding(request.encoding() + tail) == decoded(request@, tail),
        CalcRequest::decoding(request.encoding()) == decoded(request@, Seq::<u8>::empty()),
{
    request.lemma_round_trip(tail);
    request.lemma_round_trip(Seq::empty());
    assert(request.encoding() + Seq::<u8>::empty() =~= request.encoding());
}

/// Every response that the frame format can hold is read back from its
/// frame, whatever bytes follow the frame.
pub proof fn lemma_response_round_trip(response: CalcResponse, tail: Seq<u8>)
    requires
        response.encodable(),
    ensures
        CalcResponse::decoding(response.encoding() + tail) == decoded(response@, tail),
        CalcResponse::decoding(response.encoding()) == decoded(response@, Seq::<u8>::empty()),
{
    response.lemma_round_trip(tail);
    response.lemma_round_trip(Seq::empty());
    assert(response.encoding() + Seq::<u8>::empty() =~= response.encoding());
}

/// Writing what was read from a request's frame gives the frame again: a
/// request with the view that the frame decodes to has that very frame.
pub proof fn lemma_request_frame_symmetric(
    request: CalcRequest,
    read_back: CalcRequest,
    tail: Seq<u8>,
)
    requires
        request.encodable(),
        CalcRequest::decoding(request.encoding() + tail).result == Ok::<
            CalcRequestView,
            DecodeError,
        >(read_back@),
    ensures
        read_back.encodable(),
        read_back.encoding() == request.encoding(),
{
    request.lemma_round_trip(tail);
    request.lemma_frame_of_view(&read_back);
}

/// Writing what was read from a response's frame gives the frame again: a
/// response with the view that the frame decodes to has that very frame.
pub proof fn lemma_response_frame_symmetric(
    response: CalcResponse,
    read_back: CalcResponse,
    tail: Seq<u8>,
)
    requires
        response.encodable(),
        CalcResponse::decoding(response.encoding() + tail).result == Ok::<
            CalcResponseView,
            DecodeError,
        >(read_back@),
    ensures
        read_back.encodable(),
        read_back.encoding() == response.encoding(),
{
    response.lemma_round_trip(tail);
    response.lemma_frame_of_view(&read_back);
}

/// A request is read from the front of the bytes and takes at least its
/// family tag: what is left is a shorter end of the bytes.
pub proof fn lemma_request_takes_bytes(bytes: Seq<u8>)
    ensures
        is_suffix(CalcRequest::decoding(bytes).rest, bytes),
        CalcRequest::decoding(bytes).result.is_ok() ==> CalcRequest::decoding(bytes).rest.len()
            < bytes.len(),
{
    reveal(<CalcRequest as Deserialise>::decoding);
    CalcRequest::lemma_leaves_suffix(bytes);
    let tag = take_byte(bytes);
    lemma_take_byte_leaves_suffix(bytes);
    if tag.result.is_ok() {
        WifiActions::lemma_leaves_suffix(tag.rest);
        HttpReq::lemma_leaves_suffix(tag.rest);
    }
}

/// No strict prefix of a request's frame decodes to a request.
pub proof fn lemma_truncated_request_refused(request: CalcRequest, cut: int)
    requires
        request.encodable(),
        0 <= cut < request.encoding().len(),
    ensures
        CalcRequest::decoding(request.encoding().take(cut)).result.is_err(),
{
    request.lemma_truncated(cut);
}

/// No strict prefix of a response's frame decodes to a response.
pub proof fn lemma_truncated_response_refused(response: CalcResponse, cut: int)
    requires
        response.encodable(),
        0 <= cut < response.encoding().len(),
    ensures
        CalcResponse::decoding(response.encoding().take(cut)).result.is_err(),
{
    response.lemma_truncated(cut);
}

/// How an operation ended: what the radio handed back or the code with
/// which it failed, or the body of a network call or its failure's code.
#[derive(Debug)]
pub enum Outcome {
    Wifi(Result<WifiReply, i32>),
    Http(Result<HttpResp, i32>),
}

/// The catalog: the response that answers `request` when its operation
/// ended in `outcome`. There is none where the outcome is of another family
/// than the request, or of a kind that the radio action does not ask for.
pub open spec fn catalog_answer(request: CalcRequestView, outcome: Outcome) -> Option<
    CalcResponse,
> {
    match (request, outcome) {
        (CalcRequestView::Wifi(action), Outcome::Wifi(result)) => match catalog_outcome(
            action,
            result,
        ) {
            Some(response) => Some(CalcResponse::Wifi(response)),
            None => None,
        },
        (CalcRequestView::Http(_), Outcome::Http(result)) => Some(CalcResponse::Http(result)),
        _ => None,
    }
}

/// Whether `response` is one that the catalog gives for `request`: a
/// failure, or the success that belongs to the request's operation.
pub open spec fn answers(request: CalcRequestView, response: CalcResponseView) -> bool {
    match (request, response) {
        (CalcRequestView::Wifi(action), CalcResponseView::Wifi(reply)) => match (action, reply) {
            (_, WifiResponseView::Error(_)) => true,
            (WifiActionsView::IsStarted, WifiResponseView::IsStarted(_)) => true,
            (WifiActionsView::IsConnected, WifiResponseView::IsConnected(_)) => true,
            (WifiActionsView::GetCapabilities, WifiResponseView::Capabilities(_)) => true,
            (WifiActionsView::Start, WifiResponseView::Started) => true,
            (WifiActionsView::Stop, WifiResponseView::Stopped) => true,
            (WifiActionsView::Scan, WifiResponseView::AccessPoints(_)) => true,
            (WifiActionsView::Connect, WifiResponseView::Connected) => true,
            (WifiActionsView::Disconnect, WifiResponseView::Disconnected) => true,
            (WifiActionsView::SetConfig(_), WifiResponseView::Configured) => true,
            _ => false,
        },
        (CalcRequestView::Http(_), CalcResponseView::Http(_)) => true,
        _ => false,
    }
}

/// Every request has exactly the responses of its own catalog entry: what
/// the catalog gives for a request answers that request.
pub proof fn lemma_catalog_answers(request: CalcRequestView, outcome: Outcome)
    ensures
        catalog_answer(request, outcome) matches Some(response) ==> answers(request, response@),
{
}

impl CalcRequest {
    /// Answers the request with the outcome that its operation had. An
    /// outcome of another family, or of a kind that the catalog does not
    /// give for the operation, is a violation.
    pub fn respond(&self, outcome: Outcome) -> (res: Result<CalcResponse, ProtocolViolation>)
        ensures
            match catalog_answer(self@, outcome) {
                Some(response) => res == Ok::<CalcResponse, ProtocolViolation>(response),
                None => res == Err::<CalcResponse, ProtocolViolation>(
                    ProtocolViolation::UnexpectedReply,
                ),
            },
    {
        match (self, outcome) {
            (CalcRequest::Wifi(action), Outcome::Wifi(result)) => match action.run_on(result) {
                Ok(response) => Ok(CalcResponse::Wifi(response)),
                Err(violation) => Err(violation),
            },
            (CalcRequest::Http(_), Outcome::Http(result)) => Ok(CalcResponse::Http(result)),
            _ => Err(ProtocolViolation::UnexpectedReply),
        }
    }
}

} // verus!
