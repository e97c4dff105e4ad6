use beam_worker::worker_pool::{
    ExternalWorkerPool, StartWorkerRequest, StopWorkerRequest,
};

fn start_req(id: &str, url: &str) -> StartWorkerRequest {
    StartWorkerRequest {
        worker_id: id.to_string(),
        control_endpoint_url: Some(url.to_string()),
    }
}

fn stop_req(id: &str) -> StopWorkerRequest {
    StopWorkerRequest {
        worker_id: id.to_string(),
    }
}

#[test]
fn test_start_then_stop_removes_worker() {
    let mut pool = ExternalWorkerPool::new("localhost:5555".to_string());
    let w = pool.start_worker(start_req("W1", "localhost:6000"));
    assert_eq!(w.id, "W1");
    assert_eq!(
        w.endpoints.control_endpoint_url.as_deref(),
        Some("localhost:6000")
    );
    assert!(!w.stop_requested);
    assert!(pool.get_worker(&"W1".to_string()).is_some());
    let stopped = pool.stop_worker(stop_req("W1")).unwrap();
    // the removed record left with its stop signal raised
    assert_eq!(stopped.id, "W1");
    assert!(stopped.stop_requested);
    assert!(pool.get_worker(&"W1".to_string()).is_none());
}

#[test]
fn test_stop_unknown_id_is_noop() {
    let mut pool = ExternalWorkerPool::new("localhost:5555".to_string());
    pool.start_worker(start_req("W1", "localhost:6000"));
    assert!(pool.stop_worker(stop_req("W2")).is_none());
    assert!(pool.get_worker(&"W1".to_string()).is_some());
}

#[test]
fn test_start_replaces_record() {
    let mut pool = ExternalWorkerPool::new("localhost:5555".to_string());
    pool.start_worker(start_req("W1", "localhost:6000"));
    pool.start_worker(start_req("W1", "localhost:6001"));
    let w = pool.get_worker(&"W1".to_string()).unwrap();
    assert_eq!(
        w.endpoints.control_endpoint_url.as_deref(),
        Some("localhost:6001")
    );
}

#[test]
fn test_cancellation_is_idempotent() {
    let mut pool = ExternalWorkerPool::new("localhost:5555".to_string());
    assert!(!pool.cancelled());
    pool.stop(100);
    assert!(pool.cancelled());
    pool.stop(100);
    assert!(pool.cancelled());
}
