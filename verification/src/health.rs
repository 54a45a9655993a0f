//! The health status that the health endpoint reports.
use vstd::prelude::*;
use std::sync::{Arc, Mutex};

verus! {

broadcast use vstd::string::group_string_axioms;

#[verifier::external_type_specification]
#[verifier::external_body]
#[verifier::reject_recursive_types(T)]
pub struct ExMutex<T: ?Sized>(Mutex<T>);

/// Calls `Mutex::lock` and stores `value` unless the lock is poisoned. The
/// flag is shared with other tasks, so nothing is stated of later reads.
#[verifier::external_body]
fn store_flag(flag: &Mutex<bool>, value: bool) {
    if let Ok(mut status) = flag.lock() {
        *status = value;
    }
}

/// Calls `Mutex::lock` and reads the flag, `false` when the lock is
/// poisoned. The flag is shared with other tasks, so nothing is stated of the
/// value read.
#[verifier::external_body]
fn load_flag(flag: &Mutex<bool>) -> (r: bool) {
    match flag.lock() {
        Ok(status) => *status,
        Err(_) => false,
    }
}

/// Calls `Mutex::new` on a flag.
#[verifier::external_body]
fn new_flag(value: bool) -> (r: Mutex<bool>) {
    Mutex::new(value)
}

/// Answers health checks with the outcome of the last update cycle.
pub struct HealthServer {
    pub last_update_success: Arc<Mutex<bool>>,
}

/// Reports the outcome of update cycles to the health server.
#[derive(Clone)]
pub struct HealthHandle {
    pub last_update_success: Arc<Mutex<bool>>,
}

impl HealthServer {
    /// A server that starts healthy, and the handle that reports to it; the
    /// two share one status flag.
    pub fn new() -> (r: (Self, HealthHandle))
        ensures
            r.0.last_update_success == r.1.last_update_success,
    {
        let last_update_success = Arc::new(new_flag(true));
        let handle = HealthHandle { last_update_success: last_update_success.clone() };
        (HealthServer { last_update_success }, handle)
    }

    /// The current status: whether the last update cycle succeeded.
    pub fn is_healthy(&self) -> bool {
        load_flag(&self.last_update_success)
    }
}

impl HealthHandle {
    /// Records whether the last update cycle succeeded.
    pub fn set_health_status(&self, is_healthy: bool) {
        store_flag(&self.last_update_success, is_healthy);
    }

    /// Records a successful update cycle.
    pub fn report_update_success(&self) {
        self.set_health_status(true);
    }

    /// Records a failed update cycle.
    pub fn report_update_failure(&self) {
        self.set_health_status(false);
    }
}

/// `{"status":"healthy"}`
pub open spec fn healthy_body() -> Seq<char> {
    seq!['{', '"', 's', 't', 'a', 't', 'u', 's', '"', ':', '"', 'h', 'e', 'a', 'l', 't', 'h', 'y', '"', '}']
}

/// `{"status":"unhealthy"}`
pub open spec fn unhealthy_body() -> Seq<char> {
    seq!['{', '"', 's', 't', 'a', 't', 'u', 's', '"', ':', '"', 'u', 'n', 'h', 'e', 'a', 'l', 't', 'h', 'y', '"', '}']
}

/// The HTTP response to a health check: `200 OK` with
/// `{"status":"healthy"}`, or `503 Service Unavailable` with
/// `{"status":"unhealthy"}`, as JSON with its length and `Connection: close`.
pub open spec fn health_response(is_healthy: bool) -> Seq<char> {
    let (status_line, body) = if is_healthy {
        (
            seq!['H', 'T', 'T', 'P', '/', '1', '.', '1', ' ', '2', '0', '0', ' ', 'O', 'K'],
            healthy_body(),
        )
    } else {
        (
            seq![
                'H', 'T', 'T', 'P', '/', '1', '.', '1', ' ', '5', '0', '3', ' ', 'S', 'e', 'r',
                'v', 'i', 'c', 'e', ' ', 'U', 'n', 'a', 'v', 'a', 'i', 'l', 'a', 'b', 'l', 'e',
            ],
            unhealthy_body(),
        )
    };
    status_line + seq!['\r', '\n'] + seq![
        'C', 'o', 'n', 't', 'e', 'n', 't', '-', 'T', 'y', 'p', 'e', ':', ' ', 'a', 'p', 'p', 'l',
        'i', 'c', 'a', 't', 'i', 'o', 'n', '/', 'j', 's', 'o', 'n', '\r', '\n',
    ] + seq![
        'C', 'o', 'n', 't', 'e', 'n', 't', '-', 'L', 'e', 'n', 'g', 't', 'h', ':', ' ',
    ] + crate::version::decimal_string(body.len()) + seq!['\r', '\n'] + seq![
        'C', 'o', 'n', 'n', 'e', 'c', 't', 'i', 'o', 'n', ':', ' ', 'c', 'l', 'o', 's', 'e',
        '\r', '\n', '\r', '\n',
    ] + body
}

/// The HTTP response to a health check for the given status.
pub fn http_response(is_healthy: bool) -> (r: String)
    ensures
        r@ == health_response(is_healthy),
{
    let mut r = String::new();
    let body: &str = if is_healthy {
        r.append("HTTP/1.1 200 OK");
        "{\"status\":\"healthy\"}"
    } else {
        r.append("HTTP/1.1 503 Service Unavailable");
        "{\"status\":\"unhealthy\"}"
    };
    r.append("\r\nContent-Type: application/json\r\nContent-Length: ");
    proof {
        reveal_strlit("HTTP/1.1 200 OK");
        reveal_strlit("HTTP/1.1 503 Service Unavailable");
        reveal_strlit("{\"status\":\"healthy\"}");
        reveal_strlit("{\"status\":\"unhealthy\"}");
        reveal_strlit("\r\nContent-Type: application/json\r\nContent-Length: ");
        reveal_strlit("\r\nConnection: close\r\n\r\n");
    }
    let len: u64 = if is_healthy {
        20
    } else {
        22
    };
    assert(body@.len() == len);
    crate::version::push_decimal(&mut r, len);
    r.append("\r\nConnection: close\r\n\r\n");
    r.append(body);
    assert(r@ =~= health_response(is_healthy));
    r
}

} // verus!
