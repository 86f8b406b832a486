use entidb::{
    CborDecode, CborEncode, HandshakeRequest, HandshakeResponse, HttpClient, HttpTransport,
    LoopbackClient, LoopbackServer, PullRequest, PullResponse, PushRequest, ServerConfig,
    SyncError, SyncMessage, SyncServer, SyncTransport,
};
use std::cell::RefCell;
use std::sync::atomic::{AtomicBool, Ordering};
use std::sync::RwLock;

struct TestClient {
    response: RwLock<Option<Vec<u8>>>,
    healthy: AtomicBool,
    last_url: RwLock<Option<String>>,
}

impl TestClient {
    fn new() -> Self {
        Self {
            response: RwLock::new(None),
            healthy: AtomicBool::new(true),
            last_url: RwLock::new(None),
        }
    }

    fn set_response(&self, resp: Vec<u8>) {
        *self.response.write().unwrap() = Some(resp);
    }

    fn set_healthy(&self, healthy: bool) {
        self.healthy.store(healthy, Ordering::SeqCst);
    }
}

impl HttpClient for TestClient {
    fn post(&self, url: &str, _body: Vec<u8>) -> Result<Vec<u8>, String> {
        *self.last_url.write().unwrap() = Some(url.to_string());
        self.response.read().unwrap().clone().ok_or_else(|| "No response set".into())
    }

    fn is_healthy(&self) -> bool {
        self.healthy.load(Ordering::SeqCst)
    }
}

#[test]
fn transport_creation() {
    let client = TestClient::new();
    let transport = HttpTransport::new("https://sync.example.com", client);
    assert_eq!(transport.base_url(), "https://sync.example.com");
    assert!(transport.is_connected());
}

#[test]
fn transport_disconnect() {
    let client = TestClient::new();
    let mut transport = HttpTransport::new("https://sync.example.com", client);
    assert!(transport.is_connected());
    transport.close().unwrap();
    assert!(!transport.is_connected());
}

#[test]
fn transport_not_connected_error() {
    let client = TestClient::new();
    let mut transport = HttpTransport::new("https://sync.example.com", client);
    transport.close().unwrap();

    let request = HandshakeRequest::new([0u8; 16], [0u8; 16], 0);
    let result = transport.handshake(&request);
    assert!(matches!(result, Err(SyncError::NotConnected)));
}

#[test]
fn transport_unhealthy_client() {
    let client = TestClient::new();
    client.set_healthy(false);
    let transport = HttpTransport::new("https://sync.example.com", client);
    assert!(!transport.is_connected());
}

#[test]
fn transport_handshake() {
    let client = TestClient::new();
    let response = HandshakeResponse::success(42);
    client.set_response(response.encode().unwrap());

    let mut transport = HttpTransport::new("https://sync.example.com", client);
    let request = HandshakeRequest::new([1u8; 16], [2u8; 16], 0);
    let result = transport.handshake(&request).unwrap();

    assert!(result.success);
    assert_eq!(result.server_cursor, 42);
    assert!(transport.last_error().is_none());
}

#[test]
fn failed_post_disconnects_and_records_error() {
    let client = TestClient::new();
    let mut transport = HttpTransport::new("https://sync.example.com", client);
    let result = transport.pull(&PullRequest::new(0, 10));
    match result {
        Err(SyncError::Transport { message, retryable }) => {
            assert_eq!(message, "No response set");
            assert!(retryable);
        }
        other => panic!("unexpected {:?}", other),
    }
    assert_eq!(transport.last_error(), Some("No response set".to_string()));
    assert!(!transport.is_connected());
    assert!(matches!(transport.pull(&PullRequest::new(0, 10)), Err(SyncError::NotConnected)));
}

#[test]
fn undecodable_response_is_protocol_error() {
    let client = TestClient::new();
    client.set_response(vec![0xFF]);
    let mut transport = HttpTransport::new("https://sync.example.com", client);
    match transport.handshake(&HandshakeRequest::new([1u8; 16], [2u8; 16], 0)) {
        Err(SyncError::Protocol(m)) => assert!(m.starts_with("Failed to decode response: ")),
        other => panic!("unexpected {:?}", other),
    }
    assert!(transport.is_connected());
    assert!(transport.last_error().is_none());
}

#[test]
fn cbor_traits_match_message_codecs() {
    let request = PullRequest::new(7, 3);
    assert_eq!(request.encode_cbor().unwrap(), request.encode().unwrap());
    let response = PullResponse::new(Vec::new(), 7, false);
    let bytes = response.encode().unwrap();
    let back = <PullResponse as CborDecode>::decode_cbor(&bytes).unwrap();
    assert_eq!(back.new_cursor, 7);
    assert!(!back.has_more);
    assert!(<PullResponse as CborDecode>::decode_cbor(&[0x01]).is_err());
}

struct ServerEndpoint {
    server: RefCell<SyncServer>,
}

impl LoopbackServer for ServerEndpoint {
    fn handle_post(&self, path: &str, body: &[u8]) -> Result<Vec<u8>, String> {
        let mut server = self.server.borrow_mut();
        match path {
            "/sync/handshake" => {
                let request = HandshakeRequest::decode(body).map_err(|e| e.to_string())?;
                match server.handle_message(SyncMessage::HandshakeRequest(request))? {
                    SyncMessage::HandshakeResponse(r) => r.encode().map_err(|e| e.to_string()),
                    _ => Err("unexpected".into()),
                }
            }
            "/sync/pull" => {
                let request = PullRequest::decode(body).map_err(|e| e.to_string())?;
                server.handle_pull(request)?.encode().map_err(|e| e.to_string())
            }
            "/sync/push" => {
                let request = PushRequest::decode(body).map_err(|e| e.to_string())?;
                server.handle_push(request)?.encode().map_err(|e| e.to_string())
            }
            other => Err(format!("no endpoint {}", other)),
        }
    }
}

#[test]
fn loopback_round_trip() {
    let endpoint = ServerEndpoint { server: RefCell::new(SyncServer::new(ServerConfig::default())) };
    let client = LoopbackClient::new(endpoint);
    assert!(client.is_healthy());
    let mut transport = HttpTransport::new("http://localhost:8080", client);

    let hs = transport.handshake(&HandshakeRequest::new([1u8; 16], [2u8; 16], 0)).unwrap();
    assert!(hs.success);
    assert_eq!(hs.server_cursor, 1);

    let op = entidb::SyncOperation::put(1, 1, [9u8; 16], vec![1, 2, 3], 0);
    let pushed = transport.push(&PushRequest::new(vec![op], 1)).unwrap();
    assert!(pushed.success);
    assert_eq!(pushed.new_cursor, 2);

    let pulled = transport.pull(&PullRequest::new(0, 10)).unwrap();
    assert_eq!(pulled.operations.len(), 1);
    assert_eq!(pulled.operations[0].entity_id, [9u8; 16]);
    assert_eq!(pulled.new_cursor, 1);
}

struct RecordingClient {
    posts: std::sync::Arc<RwLock<Vec<(String, Vec<u8>)>>>,
    reply: Vec<u8>,
}

impl HttpClient for RecordingClient {
    fn post(&self, url: &str, body: Vec<u8>) -> Result<Vec<u8>, String> {
        self.posts.write().unwrap().push((url.to_string(), body));
        Ok(self.reply.clone())
    }

    fn is_healthy(&self) -> bool {
        true
    }
}

#[test]
fn each_message_goes_to_its_endpoint_with_its_encoding() {
    let posts = std::sync::Arc::new(RwLock::new(Vec::new()));
    let client = RecordingClient {
        posts: posts.clone(),
        reply: HandshakeResponse::success(1).encode().unwrap(),
    };
    let mut transport = HttpTransport::new("https://sync.example.com", client);
    let handshake = HandshakeRequest::new([1u8; 16], [2u8; 16], 5);
    transport.handshake(&handshake).unwrap();
    let pull = PullRequest::new(5, 10);
    let _ = transport.pull(&pull);
    let push = PushRequest::new(Vec::new(), 5);
    let _ = transport.push(&push);
    let posts = posts.read().unwrap();
    assert_eq!(posts.len(), 3);
    assert_eq!(posts[0].0, "https://sync.example.com/sync/handshake");
    assert_eq!(posts[0].1, handshake.encode().unwrap());
    assert_eq!(posts[1].0, "https://sync.example.com/sync/pull");
    assert_eq!(posts[1].1, pull.encode().unwrap());
    assert_eq!(posts[2].0, "https://sync.example.com/sync/push");
    assert_eq!(posts[2].1, push.encode().unwrap());
}
