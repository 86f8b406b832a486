//! The HTTP transport of the sync engine: each request goes to the server
//! as the CBOR body of a POST, through an HTTP client the user supplies,
//! and the response body is decoded as CBOR.

use crate::cbor::failure_message;
use crate::messages::{
    spec_decode_handshake_response, spec_decode_pull_response, spec_decode_push_response,
    spec_encode_handshake_request, spec_encode_pull_request, spec_encode_push_request,
    HandshakeRequest, HandshakeResponse, PullRequest, PullResponse, PushRequest, PushResponse,
};
use crate::sync_engine::{outcome_view, SyncError, SyncTransport, TransportCall};
use crate::text::push_str;
use vstd::prelude::*;

verus! {

/// The HTTP client a transport sends through. Implement it with the HTTP
/// library of your choice (or another transport altogether).
pub trait HttpClient {
    /// Whether `reply` is an answer this client may give to a POST of
    /// `body` to `url`. Each implementation gives it its meaning; code
    /// generic over clients sees only that `post` answers by it (the body
    /// here is never seen there).
    closed spec fn replies(&self, url: Seq<char>, body: Seq<u8>, reply: Result<Seq<u8>, Seq<char>>) -> bool {
        true
    }

    /// Sends `body` in a POST request to `url` and returns the response
    /// body.
    fn post(&self, url: &str, body: Vec<u8>) -> (r: Result<Vec<u8>, String>)
        ensures
            self.replies(url@, body@, reply_model(r)),
    ;

    /// Whether the client is connected and healthy.
    fn is_healthy(&self) -> bool;
}

/// A request that encodes itself as CBOR.
pub trait CborEncode {
    /// The encoding.
    spec fn cbor_bytes(&self) -> Seq<u8>;

    /// Encodes the value as CBOR bytes.
    fn encode_cbor(&self) -> (r: Result<Vec<u8>, String>)
        ensures
            r matches Ok(b) && b@ == self.cbor_bytes(),
    ;
}

/// A response that decodes itself from CBOR.
pub trait CborDecode: Sized {
    /// Whether `bytes` decode to `value`.
    spec fn cbor_decodes(bytes: Seq<u8>, value: Self) -> bool;

    /// Why `bytes` do not decode, if they do not.
    spec fn cbor_error(bytes: Seq<u8>) -> Option<Seq<char>>;

    /// Decodes a value from CBOR bytes.
    fn decode_cbor(bytes: &[u8]) -> (r: Result<Self, String>)
        ensures
            match r {
                Ok(v) => Self::cbor_error(bytes@) is None && Self::cbor_decodes(bytes@, v),
                Err(e) => Self::cbor_error(bytes@) == Some(e@),
            },
    ;
}

impl CborEncode for HandshakeRequest {
    open spec fn cbor_bytes(&self) -> Seq<u8> {
        spec_encode_handshake_request(self@)
    }

    fn encode_cbor(&self) -> (r: Result<Vec<u8>, String>) {
        match self.encode() {
            Ok(b) => Ok(b),
            Err(e) => Err(e.to_string()),
        }
    }
}

impl CborEncode for PullRequest {
    open spec fn cbor_bytes(&self) -> Seq<u8> {
        spec_encode_pull_request(self@)
    }

    fn encode_cbor(&self) -> (r: Result<Vec<u8>, String>) {
        match self.encode() {
            Ok(b) => Ok(b),
            Err(e) => Err(e.to_string()),
        }
    }
}

impl CborEncode for PushRequest {
    open spec fn cbor_bytes(&self) -> Seq<u8> {
        spec_encode_push_request(self@)
    }

    fn encode_cbor(&self) -> (r: Result<Vec<u8>, String>) {
        match self.encode() {
            Ok(b) => Ok(b),
            Err(e) => Err(e.to_string()),
        }
    }
}

impl CborDecode for HandshakeResponse {
    open spec fn cbor_decodes(bytes: Seq<u8>, value: Self) -> bool {
        spec_decode_handshake_response(bytes) == Ok::<_, crate::cbor::DecodeFailure>(value@)
    }

    open spec fn cbor_error(bytes: Seq<u8>) -> Option<Seq<char>> {
        match spec_decode_handshake_response(bytes) {
            Ok(_) => None,
            Err(f) => Some(failure_message(f)),
        }
    }

    fn decode_cbor(bytes: &[u8]) -> (r: Result<Self, String>) {
        match Self::decode(bytes) {
            Ok(m) => Ok(m),
            Err(e) => Err(e.to_string()),
        }
    }
}

impl CborDecode for PullResponse {
    open spec fn cbor_decodes(bytes: Seq<u8>, value: Self) -> bool {
        spec_decode_pull_response(bytes) == Ok::<_, crate::cbor::DecodeFailure>(value@)
    }

    open spec fn cbor_error(bytes: Seq<u8>) -> Option<Seq<char>> {
        match spec_decode_pull_response(bytes) {
            Ok(_) => None,
            Err(f) => Some(failure_message(f)),
        }
    }

    fn decode_cbor(bytes: &[u8]) -> (r: Result<Self, String>) {
        match Self::decode(bytes) {
            Ok(m) => Ok(m),
            Err(e) => Err(e.to_string()),
        }
    }
}

impl CborDecode for PushResponse {
    open spec fn cbor_decodes(bytes: Seq<u8>, value: Self) -> bool {
        spec_decode_push_response(bytes) == Ok::<_, crate::cbor::DecodeFailure>(value@)
    }

    open spec fn cbor_error(bytes: Seq<u8>) -> Option<Seq<char>> {
        match spec_decode_push_response(bytes) {
            Ok(_) => None,
            Err(f) => Some(failure_message(f)),
        }
    }

    fn decode_cbor(bytes: &[u8]) -> (r: Result<Self, String>) {
        match Self::decode(bytes) {
            Ok(m) => Ok(m),
            Err(e) => Err(e.to_string()),
        }
    }
}

/// What the client's reply to a POST does: a failed request disconnects
/// the transport and records the failure; a response clears the recorded
/// failure and is decoded.
pub open spec fn reply_handled<Res: CborDecode>(
    before_connected: bool,
    after_connected: bool,
    after_error: Option<Seq<char>>,
    reply: Result<Seq<u8>, Seq<char>>,
    r: Result<Res, SyncError>,
) -> bool {
    match reply {
        Err(e) => {
            &&& !after_connected
            &&& after_error == Some(e)
            &&& r matches Err(SyncError::Transport { message, retryable }) && message@ == e && retryable
        },
        Ok(b) => {
            &&& after_connected == before_connected
            &&& after_error is None
            &&& match Res::cbor_error(b) {
                None => r matches Ok(v) && Res::cbor_decodes(b, v),
                Some(m) => r matches Err(SyncError::Protocol(p)) && p@ == "Failed to decode response: "@ + m,
            }
        },
    }
}

/// The model of a client's reply.
pub open spec fn reply_model(reply: Result<Vec<u8>, String>) -> Result<Seq<u8>, Seq<char>> {
    match reply {
        Ok(b) => Ok(b@),
        Err(e) => Err(e@),
    }
}

/// A sync transport over HTTP: each message is POSTed as CBOR to an
/// endpoint under the server's base URL.
pub struct HttpTransport<C: HttpClient> {
    base_url: String,
    client: C,
    connected: bool,
    last_error: Option<String>,
    log: Ghost<Seq<TransportCall>>,
}

/// The model of an optional message.
pub open spec fn opt_text(s: Option<String>) -> Option<Seq<char>> {
    match s {
        Some(m) => Some(m@),
        None => None,
    }
}

impl<C: HttpClient> HttpTransport<C> {
    /// The server's base URL.
    pub closed spec fn url(&self) -> Seq<char> {
        self.base_url@
    }

    /// The client.
    pub closed spec fn client(&self) -> C {
        self.client
    }

    /// Whether the transport has not been closed or disconnected.
    pub closed spec fn open_flag(&self) -> bool {
        self.connected
    }

    /// The failure of the last request, if it failed.
    pub closed spec fn error(&self) -> Option<Seq<char>> {
        opt_text(self.last_error)
    }

    /// A transport to the server at `base_url`, through `client`.
    pub fn new(base_url: &str, client: C) -> (r: Self)
        ensures
            r.url() == base_url@,
            r.client() == client,
            r.open_flag(),
            r.error() is None,
            r.calls() == Seq::<TransportCall>::empty(),
    {
        HttpTransport {
            base_url: base_url.to_owned(),
            client,
            connected: true,
            last_error: None,
            log: Ghost(Seq::empty()),
        }
    }

    /// The server's base URL.
    pub fn base_url(&self) -> (r: &str)
        ensures
            r@ == self.url(),
    {
        self.base_url.as_str()
    }

    /// The failure of the last request, if it failed.
    pub fn last_error(&self) -> (r: Option<String>)
        ensures
            opt_text(r) == self.error(),
    {
        match &self.last_error {
            Some(m) => Some(m.clone()),
            None => None,
        }
    }

    /// The URL of an endpoint.
    fn endpoint_url(&self, endpoint: &str) -> (r: String)
        ensures
            r@ == self.url() + endpoint@,
    {
        let mut url = String::new();
        push_str(&mut url, self.base_url.as_str());
        push_str(&mut url, endpoint);
        url
    }

    /// Takes the client's reply to a POST.
    fn accept_reply<Res: CborDecode>(&mut self, reply: Result<Vec<u8>, String>) -> (r: Result<Res, SyncError>)
        ensures
            final(self).url() == old(self).url(),
            final(self).client() == old(self).client(),
            final(self).log == old(self).log,
            reply_handled(
                old(self).open_flag(),
                final(self).open_flag(),
                final(self).error(),
                reply_model(reply),
                r,
            ),
    {
        match reply {
            Err(e) => {
                let err = SyncError::transport_retryable(e.as_str());
                self.last_error = Some(e);
                self.connected = false;
                Err(err)
            },
            Ok(body) => {
                self.last_error = None;
                match Res::decode_cbor(body.as_slice()) {
                    Ok(v) => Ok(v),
                    Err(e) => {
                        let mut message = String::new();
                        push_str(&mut message, "Failed to decode response: ");
                        push_str(&mut message, e.as_str());
                        Err(SyncError::Protocol(message))
                    },
                }
            },
        }
    }

    /// POSTs a request to an endpoint and decodes the response: refused
    /// when the transport is not connected; else the request's encoding
    /// goes to the endpoint's URL and the client's reply is taken as
    /// `reply_handled` says.
    fn post_cbor<Req: CborEncode, Res: CborDecode>(&mut self, endpoint: &str, request: &Req) -> (r: Result<
        Res,
        SyncError,
    >)
        ensures
            final(self).url() == old(self).url(),
            final(self).client() == old(self).client(),
            final(self).log == old(self).log,
            !old(self).open_flag() ==> (r matches Err(SyncError::NotConnected)) && *final(self) == *old(self),
            r matches Err(SyncError::NotConnected) ==> *final(self) == *old(self),
            old(self).open_flag() && !(r matches Err(SyncError::NotConnected)) ==> exists|
                reply: Result<Seq<u8>, Seq<char>>,
            | #[trigger] old(self).client().replies(old(self).url() + endpoint@, request.cbor_bytes(), reply)
                && reply_handled(old(self).open_flag(), final(self).open_flag(), final(self).error(), reply, r),
    {
        if !self.is_connected() {
            return Err(SyncError::NotConnected);
        }
        let body = match request.encode_cbor() {
            Ok(b) => b,
            Err(e) => {
                let mut message = String::new();
                push_str(&mut message, "Failed to encode request: ");
                push_str(&mut message, e.as_str());
                return Err(SyncError::Protocol(message));
            },
        };
        let url = self.endpoint_url(endpoint);
        let reply = self.client.post(url.as_str(), body);
        let ghost reply_view = reply_model(reply);
        let r = self.accept_reply(reply);
        assert(old(self).client().replies(old(self).url() + endpoint@, request.cbor_bytes(), reply_view));
        assert(reply_handled(old(self).open_flag(), self.open_flag(), self.error(), reply_view, r));
        r
    }
}

impl<C: HttpClient> SyncTransport for HttpTransport<C> {
    closed spec fn calls(&self) -> Seq<TransportCall> {
        self.log@
    }

    fn handshake(&mut self, request: &HandshakeRequest) -> (r: Result<HandshakeResponse, SyncError>)
        ensures
            final(self).url() == old(self).url(),
            final(self).client() == old(self).client(),
            !old(self).open_flag() ==> (r matches Err(SyncError::NotConnected)),
            r matches Err(SyncError::NotConnected) ==> final(self).open_flag() == old(self).open_flag()
                && final(self).error() == old(self).error(),
            old(self).open_flag() && !(r matches Err(SyncError::NotConnected)) ==> exists|
                reply: Result<Seq<u8>, Seq<char>>,
            | #[trigger] old(self).client().replies(old(self).url() + "/sync/handshake"@, request.cbor_bytes(), reply)
                && reply_handled(old(self).open_flag(), final(self).open_flag(), final(self).error(), reply, r),
    {
        let r = self.post_cbor("/sync/handshake", request);
        self.log = Ghost(self.log@.push(TransportCall::Handshake(request@, outcome_view(r))));
        r
    }

    fn pull(&mut self, request: &PullRequest) -> (r: Result<PullResponse, SyncError>)
        ensures
            final(self).url() == old(self).url(),
            final(self).client() == old(self).client(),
            !old(self).open_flag() ==> (r matches Err(SyncError::NotConnected)),
            r matches Err(SyncError::NotConnected) ==> final(self).open_flag() == old(self).open_flag()
                && final(self).error() == old(self).error(),
            old(self).open_flag() && !(r matches Err(SyncError::NotConnected)) ==> exists|
                reply: Result<Seq<u8>, Seq<char>>,
            | #[trigger] old(self).client().replies(old(self).url() + "/sync/pull"@, request.cbor_bytes(), reply)
                && reply_handled(old(self).open_flag(), final(self).open_flag(), final(self).error(), reply, r),
    {
        let r = self.post_cbor("/sync/pull", request);
        self.log = Ghost(self.log@.push(TransportCall::Pull(request@, outcome_view(r))));
        r
    }

    fn push(&mut self, request: &PushRequest) -> (r: Result<PushResponse, SyncError>)
        ensures
            final(self).url() == old(self).url(),
            final(self).client() == old(self).client(),
            !old(self).open_flag() ==> (r matches Err(SyncError::NotConnected)),
            r matches Err(SyncError::NotConnected) ==> final(self).open_flag() == old(self).open_flag()
                && final(self).error() == old(self).error(),
            old(self).open_flag() && !(r matches Err(SyncError::NotConnected)) ==> exists|
                reply: Result<Seq<u8>, Seq<char>>,
            | #[trigger] old(self).client().replies(old(self).url() + "/sync/push"@, request.cbor_bytes(), reply)
                && reply_handled(old(self).open_flag(), final(self).open_flag(), final(self).error(), reply, r),
    {
        let r = self.post_cbor("/sync/push", request);
        self.log = Ghost(self.log@.push(TransportCall::Push(request@, outcome_view(r))));
        r
    }

    fn is_connected(&self) -> (r: bool)
        ensures
            r ==> self.open_flag(),
    {
        self.connected && self.client.is_healthy()
    }

    fn close(&mut self) -> (r: Result<(), SyncError>)
        ensures
            r is Ok,
            !final(self).open_flag(),
            final(self).url() == old(self).url(),
            final(self).client() == old(self).client(),
            final(self).error() == old(self).error(),
    {
        self.connected = false;
        Ok(())
    }
}

/// Where the first `/sync/` of `url` starts, if it has one.
pub open spec fn sync_path_start(url: Seq<char>) -> Option<int> {
    if exists|i: int| #![trigger path_at(url, i)] path_at(url, i) {
        Some(choose|i: int| path_at(url, i) && forall|j: int| 0 <= j < i ==> !path_at(url, j))
    } else {
        None
    }
}

/// Whether `/sync/` starts at index `i` of `url`.
pub open spec fn path_at(url: Seq<char>, i: int) -> bool {
    0 <= i && i + 6 <= url.len() && url.subrange(i, i + 6) == "/sync/"@
}

/// The path of a URL: from its first `/sync/` on, or the whole URL when it
/// has none.
pub open spec fn sync_path(url: Seq<char>) -> Seq<char> {
    match sync_path_start(url) {
        Some(i) => url.skip(i),
        None => url,
    }
}

/// A server a loopback client hands requests to directly. Implement it
/// to test a transport without a network.
pub trait LoopbackServer {
    /// Whether `reply` is an answer this server may give to a POST of
    /// `body` to `path`, in the same way as [`HttpClient::replies`].
    closed spec fn answers(&self, path: Seq<char>, body: Seq<u8>, reply: Result<Seq<u8>, Seq<char>>) -> bool {
        true
    }

    /// Answers a POST to `path` with `body`.
    fn handle_post(&self, path: &str, body: &[u8]) -> (r: Result<Vec<u8>, String>)
        ensures
            self.answers(path@, body@, reply_model(r)),
    ;
}

/// An HTTP client that hands each request to a server in the same
/// process.
pub struct LoopbackClient<S: LoopbackServer> {
    server: S,
}

impl<S: LoopbackServer> LoopbackClient<S> {
    /// A client in front of `server`.
    pub fn new(server: S) -> (r: Self)
        ensures
            r.server() == server,
    {
        LoopbackClient { server }
    }

    /// The server.
    pub closed spec fn server(&self) -> S {
        self.server
    }
}

/// The path of a URL, from its first `/sync/` on.
fn url_path(url: &str) -> (r: &str)
    ensures
        r@ == sync_path(url@),
{
    let n = url.unicode_len();
    let ghost pat = "/sync/"@;
    proof {
        reveal_strlit("/sync/");
        assert(pat =~= seq!['/', 's', 'y', 'n', 'c', '/']);
    }
    let mut i: usize = 0;
    while i < n && n - i >= 6
        invariant
            n == url@.len(),
            pat == "/sync/"@,
            pat == seq!['/', 's', 'y', 'n', 'c', '/'],
            i <= n,
            forall|j: int| 0 <= j < i ==> !path_at(url@, j),
        decreases n - i,
    {
        if url.get_char(i) == '/' && url.get_char(i + 1) == 's' && url.get_char(i + 2) == 'y' && url.get_char(i + 3)
            == 'n' && url.get_char(i + 4) == 'c' && url.get_char(i + 5) == '/' {
            proof {
                assert(url@.subrange(i as int, i + 6) =~= pat);
                assert(path_at(url@, i as int));
                let k = choose|k: int| path_at(url@, k) && forall|j: int| 0 <= j < k ==> !path_at(url@, j);
                assert(k == i);
            }
            return url.substring_char(i, n);
        }
        proof {
            if path_at(url@, i as int) {
                assert(url@.subrange(i as int, i + 6)[0] == url@[i as int]);
                assert(url@.subrange(i as int, i + 6)[1] == url@[i + 1]);
                assert(url@.subrange(i as int, i + 6)[2] == url@[i + 2]);
                assert(url@.subrange(i as int, i + 6)[3] == url@[i + 3]);
                assert(url@.subrange(i as int, i + 6)[4] == url@[i + 4]);
                assert(url@.subrange(i as int, i + 6)[5] == url@[i + 5]);
            }
        }
        i = i + 1;
    }
    proof {
        assert forall|j: int| !path_at(url@, j) by {
            if 0 <= j && j >= i {
                assert(j + 6 > n);
            }
        }
    }
    url
}

impl<S: LoopbackServer> HttpClient for LoopbackClient<S> {
    /// The server answers at the path of the URL.
    open spec fn replies(&self, url: Seq<char>, body: Seq<u8>, reply: Result<Seq<u8>, Seq<char>>) -> bool {
        self.server().answers(sync_path(url), body, reply)
    }

    fn post(&self, url: &str, body: Vec<u8>) -> (r: Result<Vec<u8>, String>) {
        let path = url_path(url);
        self.server.handle_post(path, body.as_slice())
    }

    fn is_healthy(&self) -> (r: bool)
        ensures
            r,
    {
        true
    }
}

} // verus!
