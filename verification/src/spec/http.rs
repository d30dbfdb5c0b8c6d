use crate::safe_read::{
    decoded, lemma_suffix_of_suffix, lemma_take_byte_leaves_suffix,
    lemma_take_leaves_suffix, refused, take_byte, take_bytes, DecodeError, Decoded, SafeRead,
};
use crate::spec::serialise::{
    be32, be32_value, lemma_be32_round_trip, lemma_cut, lemma_cut_tagged, lemma_take_block,
    lemma_take_tag, string_decoding,
    string_encoding, u32_from_be_bytes, u32_to_be_bytes, Deserialise, RoundTrip, Serialise,
};
use vstd::prelude::*;
use vstd::slice::{slice_subrange, slice_to_vec};

verus! {

/// The headers of a network call, as pairs of key and value.
pub type Headers = Vec<(String, String)>;

/// The headers of a network call as the frame model has them.
pub type HeadersView = Seq<(Seq<char>, Seq<char>)>;

/// The most bytes of a response body that are kept.
pub const RESPONSE_LIMIT: usize = 4096;

/// Whether `refs` borrows the texts of `headers`, pair by pair.
pub open spec fn borrows_headers(refs: Seq<(&str, &str)>, headers: Seq<(String, String)>) -> bool {
    &&& refs.len() == headers.len()
    &&& forall|i: int|
        0 <= i < refs.len() ==> (#[trigger] refs[i]).0@ == headers[i].0@ && refs[i].1@
            == headers[i].1@
}

/// Headers that can be borrowed as pairs of string slices, as a network
/// client takes them.
pub trait HeadersTrait {
    /// The headers as borrowed pairs, in their order.
    fn as_full_ref(&self) -> Vec<(&str, &str)>;
}

impl HeadersTrait for Headers {
    fn as_full_ref(&self) -> (refs: Vec<(&str, &str)>)
        ensures
            borrows_headers(refs@, self@),
    {
        let mut refs: Vec<(&str, &str)> = Vec::with_capacity(self.len());
        let mut i: usize = 0;
        while i < self.len()
            invariant
                i <= self@.len(),
                borrows_headers(refs@, self@.take(i as int)),
            decreases self@.len() - i,
        {
            let pair = &self[i];
            refs.push((pair.0.as_str(), pair.1.as_str()));
            i += 1;
        }
        assert(self@.take(i as int) =~= self@);
        refs
    }
}

/// The verb of a network call.
#[derive(Debug, Clone, Copy, PartialEq, Eq, Structural)]
pub enum Method {
    Delete,
    Get,
    Head,
    Post,
    Put,
}

/// The verb of a network call together with the headers that it carries.
#[derive(Debug, Clone, PartialEq, Eq)]
pub enum MethodWithArgs {
    Delete,
    Get,
    Head(Headers),
    Post(Headers),
    Put(Headers),
}

/// `MethodWithArgs` as the frame model has it.
pub ghost enum MethodView {
    Delete,
    Get,
    Head(HeadersView),
    Post(HeadersView),
    Put(HeadersView),
}

impl DeepView for MethodWithArgs {
    type V = MethodView;

    open spec fn deep_view(&self) -> MethodView {
        match self {
            MethodWithArgs::Delete => MethodView::Delete,
            MethodWithArgs::Get => MethodView::Get,
            MethodWithArgs::Head(headers) => MethodView::Head(headers.deep_view()),
            MethodWithArgs::Post(headers) => MethodView::Post(headers.deep_view()),
            MethodWithArgs::Put(headers) => MethodView::Put(headers.deep_view()),
        }
    }
}

impl View for MethodWithArgs {
    type V = MethodView;

    open spec fn view(&self) -> MethodView {
        self.deep_view()
    }
}

/// A network call that is ready to be made: what to hand to the client.
#[derive(Debug, Clone, PartialEq, Eq)]
pub struct HttpCall<'a> {
    pub method: Method,
    pub uri: &'a str,
    pub headers: Vec<(&'a str, &'a str)>,
}

impl MethodWithArgs {
    /// The verb without its headers.
    pub open spec fn spec_method(&self) -> Method {
        match self {
            MethodWithArgs::Delete => Method::Delete,
            MethodWithArgs::Get => Method::Get,
            MethodWithArgs::Head(_) => Method::Head,
            MethodWithArgs::Post(_) => Method::Post,
            MethodWithArgs::Put(_) => Method::Put,
        }
    }

    /// The headers that the verb carries; `DELETE` and `GET` carry none.
    pub open spec fn spec_headers(&self) -> Option<Seq<(String, String)>> {
        match self {
            MethodWithArgs::Delete | MethodWithArgs::Get => None,
            MethodWithArgs::Head(headers)
            | MethodWithArgs::Post(headers)
            | MethodWithArgs::Put(headers) => Some(headers@),
        }
    }

    /// The verb without its headers.
    pub fn method(&self) -> (method: Method)
        ensures
            method == self.spec_method(),
    {
        match self {
            MethodWithArgs::Delete => Method::Delete,
            MethodWithArgs::Get => Method::Get,
            MethodWithArgs::Head(_) => Method::Head,
            MethodWithArgs::Post(_) => Method::Post,
            MethodWithArgs::Put(_) => Method::Put,
        }
    }

    /// The headers that the verb carries, borrowed; `DELETE` and `GET`
    /// carry none.
    pub fn headers(&self) -> (out: Option<Vec<(&str, &str)>>)
        ensures
            match out {
                Some(refs) => self.spec_headers().is_some() && borrows_headers(
                    refs@,
                    self.spec_headers().unwrap(),
                ),
                None => self.spec_headers().is_none(),
            },
    {
        match self {
            MethodWithArgs::Delete | MethodWithArgs::Get => None,
            MethodWithArgs::Head(headers) => Some(headers.as_full_ref()),
            MethodWithArgs::Post(headers) => Some(headers.as_full_ref()),
            MethodWithArgs::Put(headers) => Some(headers.as_full_ref()),
        }
    }

    /// The call to make on `uri`: the verb, and its headers where it
    /// carries any, else none.
    pub fn request<'a>(&'a self, uri: &'a str) -> (call: HttpCall<'a>)
        ensures
            call.method == self.spec_method(),
            call.uri@ == uri@,
            match self.spec_headers() {
                Some(headers) => borrows_headers(call.headers@, headers),
                None => call.headers@.len() == 0,
            },
    {
        let headers = match self.headers() {
            Some(refs) => refs,
            None => Vec::new(),
        };
        HttpCall { method: self.method(), uri, headers }
    }
}

/// A frame's method tag.
pub open spec fn method_tag(method: MethodView) -> u8 {
    match method {
        MethodView::Delete => 0,
        MethodView::Get => 1,
        MethodView::Head(_) => 2,
        MethodView::Post(_) => 3,
        MethodView::Put(_) => 4,
    }
}

/// A method travels as its tag and, for `HEAD`, `POST` and `PUT`, the list
/// of its headers.
impl Serialise for MethodWithArgs {
    open spec fn encodable(&self) -> bool {
        match self {
            MethodWithArgs::Delete | MethodWithArgs::Get => true,
            MethodWithArgs::Head(headers)
            | MethodWithArgs::Post(headers)
            | MethodWithArgs::Put(headers) => headers.encodable(),
        }
    }

    open spec fn encoding(&self) -> Seq<u8> {
        match self {
            MethodWithArgs::Delete | MethodWithArgs::Get => seq![method_tag(self.deep_view())],
            MethodWithArgs::Head(headers)
            | MethodWithArgs::Post(headers)
            | MethodWithArgs::Put(headers) => seq![method_tag(self.deep_view())]
                + headers.encoding(),
        }
    }

    fn to_bytes(self) -> (out: Vec<u8>) {
        let mut out: Vec<u8> = Vec::new();
        match self {
            MethodWithArgs::Delete => {
                out.push(0);
            },
            MethodWithArgs::Get => {
                out.push(1);
            },
            MethodWithArgs::Head(headers) => {
                out.push(2);
                let mut list = headers.to_bytes();
                out.append(&mut list);
            },
            MethodWithArgs::Post(headers) => {
                out.push(3);
                let mut list = headers.to_bytes();
                out.append(&mut list);
            },
            MethodWithArgs::Put(headers) => {
                out.push(4);
                let mut list = headers.to_bytes();
                out.append(&mut list);
            },
        }
        out
    }
}

impl Deserialise for MethodWithArgs {
    #[verifier::opaque]
    open spec fn decoding(bytes: Seq<u8>) -> Decoded<MethodView> {
        let tag = take_byte(bytes);
        match tag.result {
            Err(error) => refused(error, tag.rest),
            Ok(id) => if id == 0 {
                decoded(MethodView::Delete, tag.rest)
            } else if id == 1 {
                decoded(MethodView::Get, tag.rest)
            } else if id == 2 || id == 3 || id == 4 {
                let list = Headers::decoding(tag.rest);
                match list.result {
                    Err(error) => refused(error, list.rest),
                    Ok(headers) => decoded(
                        if id == 2 {
                            MethodView::Head(headers)
                        } else if id == 3 {
                            MethodView::Post(headers)
                        } else {
                            MethodView::Put(headers)
                        },
                        list.rest,
                    ),
                }
            } else {
                refused(DecodeError::UnknownTag { tag: id }, tag.rest)
            },
        }
    }

    proof fn lemma_leaves_suffix(bytes: Seq<u8>) {
        reveal(<MethodWithArgs as Deserialise>::decoding);
        let tag = take_byte(bytes);
        lemma_take_byte_leaves_suffix(bytes);
        if tag.result.is_ok() {
            Headers::lemma_leaves_suffix(tag.rest);
            lemma_suffix_of_suffix(Headers::decoding(tag.rest).rest, tag.rest, bytes);
        }
    }

    fn from_bytes<R: SafeRead>(src: &mut R) -> (res: Result<Self, DecodeError>) {
        proof {
            reveal(<MethodWithArgs as Deserialise>::decoding);
        }
        let id = match src.try_next() {
            Ok(id) => id,
            Err(error) => { return Err(error); },
        };
        match id {
            0 => Ok(MethodWithArgs::Delete),
            1 => Ok(MethodWithArgs::Get),
            2 => match Headers::from_bytes(src) {
                Ok(headers) => Ok(MethodWithArgs::Head(headers)),
                Err(error) => Err(error),
            },
            3 => match Headers::from_bytes(src) {
                Ok(headers) => Ok(MethodWithArgs::Post(headers)),
                Err(error) => Err(error),
            },
            4 => match Headers::from_bytes(src) {
                Ok(headers) => Ok(MethodWithArgs::Put(headers)),
                Err(error) => Err(error),
            },
            _ => Err(DecodeError::UnknownTag { tag: id }),
        }
    }
}

impl RoundTrip for MethodWithArgs {
    proof fn lemma_round_trip(&self, tail: Seq<u8>) {
        reveal(<MethodWithArgs as Deserialise>::decoding);
        let tag = method_tag(self.deep_view());
        match self {
            MethodWithArgs::Delete | MethodWithArgs::Get => {
                lemma_take_tag(tag, tail);
            },
            MethodWithArgs::Head(headers)
            | MethodWithArgs::Post(headers)
            | MethodWithArgs::Put(headers) => {
                lemma_tagged_headers(tag, *headers, tail);
            },
        }
    }

    proof fn lemma_truncated(&self, cut: int) {
        reveal(<MethodWithArgs as Deserialise>::decoding);
        let tag = method_tag(self.deep_view());
        match self {
            MethodWithArgs::Delete | MethodWithArgs::Get => {},
            MethodWithArgs::Head(headers)
            | MethodWithArgs::Post(headers)
            | MethodWithArgs::Put(headers) => {
                lemma_cut_tagged(tag, headers.encoding(), cut);
                if cut > 0 {
                    headers.lemma_truncated(cut - 1);
                }
            },
        }
    }

    proof fn lemma_frame_of_view(&self, other: &Self) {
        match (self, other) {
            (MethodWithArgs::Head(mine), MethodWithArgs::Head(theirs))
            | (MethodWithArgs::Post(mine), MethodWithArgs::Post(theirs))
            | (MethodWithArgs::Put(mine), MethodWithArgs::Put(theirs)) => {
                mine.lemma_frame_of_view(theirs);
            },
            _ => {},
        }
    }
}

/// What a tag in front of a list of headers decodes to.
proof fn lemma_tagged_headers(tag: u8, headers: Headers, tail: Seq<u8>)
    requires
        headers.encodable(),
    ensures
        take_byte(seq![tag] + headers.encoding() + tail) == decoded(
            tag,
            headers.encoding() + tail,
        ),
        Headers::decoding(headers.encoding() + tail) == decoded(headers.deep_view(), tail),
{
    assert(seq![tag] + headers.encoding() + tail =~= seq![tag] + (headers.encoding() + tail));
    lemma_take_tag(tag, headers.encoding() + tail);
    headers.lemma_round_trip(tail);
}

/// A network call: where to, and how.
#[derive(Debug, Clone, PartialEq, Eq)]
pub struct HttpReq {
    pub url: String,
    pub extra: MethodWithArgs,
}

/// `HttpReq` as the frame model has it.
pub ghost struct HttpReqView {
    pub url: Seq<char>,
    pub extra: MethodView,
}

impl DeepView for HttpReq {
    type V = HttpReqView;

    open spec fn deep_view(&self) -> HttpReqView {
        HttpReqView { url: self.url@, extra: self.extra.deep_view() }
    }
}

impl View for HttpReq {
    type V = HttpReqView;

    open spec fn view(&self) -> HttpReqView {
        self.deep_view()
    }
}

impl HttpReq {
    /// The call that this request asks for.
    pub fn send(&self) -> (call: HttpCall<'_>)
        ensures
            call.method == self.extra.spec_method(),
            call.uri@ == self.url@,
            match self.extra.spec_headers() {
                Some(headers) => borrows_headers(call.headers@, headers),
                None => call.headers@.len() == 0,
            },
    {
        self.extra.request(self.url.as_str())
    }
}

/// A network call travels as its URL, a string, and its method.
impl Serialise for HttpReq {
    open spec fn encodable(&self) -> bool {
        self.url.encodable() && self.extra.encodable()
    }

    open spec fn encoding(&self) -> Seq<u8> {
        string_encoding(self.url@) + self.extra.encoding()
    }

    fn to_bytes(self) -> (out: Vec<u8>) {
        let mut out = self.url.to_bytes();
        let mut method = self.extra.to_bytes();
        out.append(&mut method);
        out
    }
}

impl Deserialise for HttpReq {
    #[verifier::opaque]
    open spec fn decoding(bytes: Seq<u8>) -> Decoded<HttpReqView> {
        let url = string_decoding(bytes);
        match url.result {
            Err(error) => refused(error, url.rest),
            Ok(text) => {
                let extra = MethodWithArgs::decoding(url.rest);
                match extra.result {
                    Err(error) => refused(error, extra.rest),
                    Ok(method) => decoded(HttpReqView { url: text, extra: method }, extra.rest),
                }
            },
        }
    }

    proof fn lemma_leaves_suffix(bytes: Seq<u8>) {
        reveal(<HttpReq as Deserialise>::decoding);
        let url = string_decoding(bytes);
        String::lemma_leaves_suffix(bytes);
        if url.result.is_ok() {
            MethodWithArgs::lemma_leaves_suffix(url.rest);
            lemma_suffix_of_suffix(MethodWithArgs::decoding(url.rest).rest, url.rest, bytes);
        }
    }

    fn from_bytes<R: SafeRead>(src: &mut R) -> (res: Result<Self, DecodeError>) {
        proof {
            reveal(<HttpReq as Deserialise>::decoding);
        }
        let url = match String::from_bytes(src) {
            Ok(url) => url,
            Err(error) => { return Err(error); },
        };
        let extra = match MethodWithArgs::from_bytes(src) {
            Ok(extra) => extra,
            Err(error) => { return Err(error); },
        };
        Ok(HttpReq { url, extra })
    }
}

impl RoundTrip for HttpReq {
    proof fn lemma_round_trip(&self, tail: Seq<u8>) {
        reveal(<HttpReq as Deserialise>::decoding);
        assert(self.encoding() + tail =~= self.url.encoding() + (self.extra.encoding() + tail));
        self.url.lemma_round_trip(self.extra.encoding() + tail);
        self.extra.lemma_round_trip(tail);
    }

    proof fn lemma_truncated(&self, cut: int) {
        reveal(<HttpReq as Deserialise>::decoding);
        let first = self.url.encoding();
        let second = self.extra.encoding();
        lemma_cut(first, second, cut);
        if cut < first.len() {
            self.url.lemma_truncated(cut);
        } else {
            self.url.lemma_round_trip(second.take(cut - first.len()));
            self.extra.lemma_truncated(cut - first.len());
        }
    }

    proof fn lemma_frame_of_view(&self, other: &Self) {
        self.url.lemma_frame_of_view(&other.url);
        self.extra.lemma_frame_of_view(&other.extra);
    }
}

/// The body that a network call brought back.
#[derive(Debug, Clone, PartialEq, Eq)]
pub struct HttpResp {
    pub raw: Vec<u8>,
}

impl DeepView for HttpResp {
    type V = Seq<u8>;

    open spec fn deep_view(&self) -> Seq<u8> {
        self.raw@
    }
}

impl View for HttpResp {
    type V = Seq<u8>;

    open spec fn view(&self) -> Seq<u8> {
        self.raw@
    }
}

/// The smaller of two lengths.
pub open spec fn at_most(n: int, limit: int) -> int {
    if n <= limit {
        n
    } else {
        limit
    }
}

impl HttpResp {
    /// The body that was read into `buf`: its first `bytes_read` bytes, or
    /// all of `buf` where it holds fewer.
    pub fn from_read(buf: &[u8], bytes_read: usize) -> (resp: HttpResp)
        ensures
            resp@ == buf@.take(at_most(bytes_read as int, buf@.len() as int)),
    {
        let n = if bytes_read <= buf.len() {
            bytes_read
        } else {
            buf.len()
        };
        HttpResp { raw: slice_to_vec(slice_subrange(buf, 0, n)) }
    }

    /// Whether the body's length fits the frame's four-byte prefix.
    pub fn fits_frame(&self) -> (fits: bool)
        ensures
            fits == self.encodable(),
    {
        self.raw.len() <= u32::MAX as usize
    }
}

/// A body travels as its length, four bytes most significant first, and its
/// bytes.
impl Serialise for HttpResp {
    open spec fn encodable(&self) -> bool {
        self.raw@.len() <= u32::MAX
    }

    open spec fn encoding(&self) -> Seq<u8> {
        be32(self.raw@.len() as u32) + self.raw@
    }

    fn to_bytes(self) -> (out: Vec<u8>) {
        let prefix = u32_to_be_bytes(self.raw.len() as u32);
        let mut out = slice_to_vec(prefix.as_slice());
        let mut body = self.raw;
        out.append(&mut body);
        out
    }
}

impl Deserialise for HttpResp {
    #[verifier::opaque]
    open spec fn decoding(bytes: Seq<u8>) -> Decoded<Seq<u8>> {
        let prefix = take_bytes(bytes, 4);
        match prefix.result {
            Err(error) => refused(error, prefix.rest),
            Ok(word) => take_bytes(prefix.rest, be32_value(word) as nat),
        }
    }

    proof fn lemma_leaves_suffix(bytes: Seq<u8>) {
        reveal(<HttpResp as Deserialise>::decoding);
        let prefix = take_bytes(bytes, 4);
        lemma_take_leaves_suffix(bytes, 4);
        if prefix.result.is_ok() {
            let len = be32_value(prefix.result.unwrap()) as nat;
            lemma_take_leaves_suffix(prefix.rest, len);
            lemma_suffix_of_suffix(take_bytes(prefix.rest, len).rest, prefix.rest, bytes);
        }
    }

    fn from_bytes<R: SafeRead>(src: &mut R) -> (res: Result<Self, DecodeError>) {
        proof {
            reveal(<HttpResp as Deserialise>::decoding);
        }
        let word = match src.try_read::<4>() {
            Ok(word) => word,
            Err(error) => { return Err(error); },
        };
        let len = u32_from_be_bytes(word);
        match src.try_read_dyn(len as usize) {
            Ok(raw) => Ok(HttpResp { raw }),
            Err(error) => Err(error),
        }
    }
}

impl RoundTrip for HttpResp {
    proof fn lemma_round_trip(&self, tail: Seq<u8>) {
        reveal(<HttpResp as Deserialise>::decoding);
        let prefix = be32(self.raw@.len() as u32);
        lemma_be32_round_trip(self.raw@.len() as u32);
        assert(self.encoding() + tail =~= prefix + (self.raw@ + tail));
        lemma_take_block(prefix, self.raw@ + tail);
        lemma_take_block(self.raw@, tail);
    }

    proof fn lemma_truncated(&self, cut: int) {
        reveal(<HttpResp as Deserialise>::decoding);
        let prefix = be32(self.raw@.len() as u32);
        lemma_be32_round_trip(self.raw@.len() as u32);
        if cut >= 4 {
            lemma_cut(prefix, self.raw@, cut);
            lemma_take_block(prefix, self.raw@.take(cut - 4));
        }
    }

    proof fn lemma_frame_of_view(&self, other: &Self) {
    }
}

} // verus!
