use entidb::{
    HandshakeRequest, HandshakeResponse, MemorySyncApplier, OperationType, PullRequest,
    PullResponse, PushRequest, PushResponse, ServerConfig, ServerOplog, SyncEngine, SyncError,
    SyncOperation, SyncServer, SyncSettings, SyncTransport,
};
use std::cell::RefCell;
use std::rc::Rc;

/// A transport that hands requests to a server in the same process.
struct InMemoryTransport {
    server: Rc<RefCell<SyncServer>>,
}

impl InMemoryTransport {
    fn new(server: Rc<RefCell<SyncServer>>) -> Self {
        Self { server }
    }
}

impl SyncTransport for InMemoryTransport {
    fn handshake(&mut self, request: &HandshakeRequest) -> Result<HandshakeResponse, SyncError> {
        self.server.borrow_mut().handle_handshake(request.clone()).map_err(SyncError::ServerError)
    }

    fn pull(&mut self, request: &PullRequest) -> Result<PullResponse, SyncError> {
        self.server.borrow().handle_pull(request.clone()).map_err(SyncError::ServerError)
    }

    fn push(&mut self, request: &PushRequest) -> Result<PushResponse, SyncError> {
        self.server.borrow_mut().handle_push(request.clone()).map_err(SyncError::ServerError)
    }

    fn is_connected(&self) -> bool {
        true
    }

    fn close(&mut self) -> Result<(), SyncError> {
        Ok(())
    }
}

fn make_op(op_id: u64, entity_id: [u8; 16]) -> SyncOperation {
    SyncOperation {
        op_id,
        collection_id: 1,
        entity_id,
        op_type: OperationType::Put,
        payload: Some(vec![0x42, op_id as u8]),
        sequence: op_id,
    }
}

fn settings() -> SyncSettings {
    SyncSettings::new([1u8; 16], [2u8; 16])
}

#[test]
fn client_server_full_sync() {
    let server = Rc::new(RefCell::new(SyncServer::new(ServerConfig::default())));
    let transport = InMemoryTransport::new(Rc::clone(&server));
    let mut applier = MemorySyncApplier::new();
    applier.add_pending(make_op(0, [1u8; 16]));
    applier.add_pending(make_op(0, [2u8; 16]));

    let mut engine = SyncEngine::new(settings(), transport, applier);
    let result = engine.sync().unwrap();
    assert!(result.success);
    assert_eq!(result.pushed, 2);
    assert_eq!(result.pulled, 0);

    assert_eq!(server.borrow().operation_count(), 2);
}

#[test]
fn bidirectional_sync() {
    let server = Rc::new(RefCell::new(SyncServer::with_oplog(ServerConfig::default(), ServerOplog::new())));
    server
        .borrow_mut()
        .handle_push(PushRequest::new(vec![make_op(0, [100u8; 16]), make_op(0, [101u8; 16])], 1))
        .unwrap();

    let transport = InMemoryTransport::new(Rc::clone(&server));
    let mut applier = MemorySyncApplier::new();
    applier.add_pending(make_op(0, [1u8; 16]));

    let mut engine = SyncEngine::new(settings(), transport, applier);
    let result = engine.sync().unwrap();
    assert!(result.success);
    assert_eq!(result.pulled, 2);
    assert_eq!(result.pushed, 1);

    assert_eq!(server.borrow().operation_count(), 3);
}

#[test]
fn empty_sync() {
    let server = Rc::new(RefCell::new(SyncServer::new(ServerConfig::default())));
    let transport = InMemoryTransport::new(server);
    let applier = MemorySyncApplier::new();

    let mut engine = SyncEngine::new(settings(), transport, applier);
    let result = engine.sync().unwrap();
    assert!(result.success);
    assert_eq!(result.pushed, 0);
    assert_eq!(result.pulled, 0);
}
