//! The gateway's own answers: the health endpoint, the reply for a service
//! that is not running, and the decision of what to do with a request.
use vstd::prelude::*;
use vstd::string::*;
use crate::config::{service_name, ServiceKind};
use crate::router::{route, route_spec, starts_with, Header, RequestHead};
use crate::text::{ascii_lowercase, chars_of, lower_seq, str_eq};

verus! {

pub const STATUS_OK: u16 = 200;
pub const STATUS_SERVICE_UNAVAILABLE: u16 = 503;

/// A JSON reply with its HTTP status code.
pub struct JsonResponse {
    pub status: u16,
    pub body: String,
}

pub open spec fn has_header(hs: Seq<Header>, name: Seq<char>) -> bool {
    exists|i: int| 0 <= i < hs.len() && lower_seq(#[trigger] hs[i].name@) == name
}

pub open spec fn has_amz_header(hs: Seq<Header>) -> bool {
    exists|i: int| 0 <= i < hs.len() && starts_with(lower_seq(#[trigger] hs[i].name@), "x-amz-"@)
}

/// A request for the gateway's own health: path `/health` with neither an
/// `Authorization` header nor any `x-amz-*` header (those go to a service).
pub open spec fn is_health_check(head_path: Seq<char>, hs: Seq<Header>) -> bool {
    head_path == "/health"@ && !has_header(hs, "authorization"@) && !has_amz_header(hs)
}

/// Whether the request asks for the gateway's own health.
pub fn is_facade_health_check(head: &RequestHead) -> (r: bool)
    ensures
        r == is_health_check(head.path@, head.headers@),
{
    if !str_eq(head.path.as_str(), "/health") {
        return false;
    }
    let n = head.headers.len();
    let amz = chars_of("x-amz-");
    proof {
        reveal_strlit("x-amz-");
    }
    let mut i: usize = 0;
    while i < n
        invariant
            n == head.headers@.len(),
            i <= n,
            amz@ == "x-amz-"@,
            forall|j: int| 0 <= j < i ==> lower_seq(#[trigger] head.headers@[j].name@) != "authorization"@,
            forall|j: int| 0 <= j < i ==> !starts_with(lower_seq(#[trigger] head.headers@[j].name@), "x-amz-"@),
        decreases n - i,
    {
        let lowered = ascii_lowercase(head.headers[i].name.as_str());
        if str_eq(lowered.as_str(), "authorization") {
            return false;
        }
        let name = chars_of(lowered.as_str());
        if name.len() >= amz.len() {
            let mut j: usize = 0;
            let mut same = true;
            while j < amz.len()
                invariant
                    amz@.len() <= name@.len(),
                    j <= amz@.len(),
                    same == forall|k: int| 0 <= k < j ==> name@[k] == amz@[k],
                decreases amz@.len() - j,
            {
                if name[j] != amz[j] {
                    same = false;
                }
                j = j + 1;
            }
            if same {
                proof {
                    assert(name@.subrange(0, amz@.len() as int) =~= amz@);
                }
                return false;
            }
            proof {
                let k = choose|k: int| 0 <= k < amz@.len() && name@[k] != amz@[k];
                assert(name@.subrange(0, amz@.len() as int)[k] != amz@[k]);
            }
        }
        i = i + 1;
    }
    true
}

// ---------------------------------------------------------------------------
// The health report
// ---------------------------------------------------------------------------

pub open spec fn all_healthy(es: Seq<(ServiceKind, bool)>) -> bool {
    forall|i: int| 0 <= i < es.len() ==> (#[trigger] es[i]).1
}

/// The overall status: `initializing` until the init scripts are done, then
/// `ok` when every service is up and `degraded` otherwise.
pub open spec fn overall_status(es: Seq<(ServiceKind, bool)>, init_done: bool) -> Seq<char> {
    if !init_done {
        "initializing"@
    } else if all_healthy(es) {
        "ok"@
    } else {
        "degraded"@
    }
}

pub open spec fn health_code(es: Seq<(ServiceKind, bool)>, init_done: bool) -> u16 {
    if init_done && all_healthy(es) {
        STATUS_OK
    } else {
        STATUS_SERVICE_UNAVAILABLE
    }
}

/// `"<name>":{"status":"ok"}` or `"<name>":{"status":"unhealthy"}`.
pub open spec fn entry_json(e: (ServiceKind, bool)) -> Seq<char> {
    "\""@ + service_name(e.0) + "\":{\"status\":\""@ + (if e.1 { "ok"@ } else { "unhealthy"@ }) + "\"}"@
}

/// The entries joined with commas.
pub open spec fn entries_json(es: Seq<(ServiceKind, bool)>) -> Seq<char>
    decreases es.len(),
{
    if es.len() == 0 {
        seq![]
    } else if es.len() == 1 {
        entry_json(es[0])
    } else {
        entries_json(es.drop_last()) + ","@ + entry_json(es.last())
    }
}

/// `{"status":"<overall>","services":{<entries>}}`.
pub open spec fn health_body(es: Seq<(ServiceKind, bool)>, init_done: bool) -> Seq<char> {
    "{\"status\":\""@ + overall_status(es, init_done) + "\",\"services\":{"@ + entries_json(es) + "}}"@
}

/// The reply of the health endpoint, given each service's reachability (in
/// the order they were probed) and whether the init scripts have finished.
pub fn health_report(services: &[(ServiceKind, bool)], init_done: bool) -> (r: JsonResponse)
    ensures
        r.status == health_code(services@, init_done),
        r.body@ == health_body(services@, init_done),
{
    let mut all_ok = true;
    let mut entries = String::new();
    let mut i: usize = 0;
    while i < services.len()
        invariant
            i <= services@.len(),
            all_ok == all_healthy(services@.take(i as int)),
            entries@ == entries_json(services@.take(i as int)),
        decreases services@.len() - i,
    {
        let (kind, healthy) = services[i];
        if !healthy {
            all_ok = false;
        }
        let ghost before = entries@;
        if i > 0 {
            entries.append(",");
        }
        entries.append("\"");
        entries.append(kind.as_str());
        entries.append("\":{\"status\":\"");
        if healthy {
            entries.append("ok");
        } else {
            entries.append("unhealthy");
        }
        entries.append("\"}");
        proof {
            let next = services@.take(i + 1);
            assert(next.drop_last() =~= services@.take(i as int));
            assert(next.last() == services@[i as int]);
            if i == 0 {
                assert(before =~= Seq::<char>::empty());
            }
            assert(entries@ =~= entries_json(next));
            if all_ok {
                assert forall|j: int| 0 <= j < next.len() implies (#[trigger] next[j]).1 by {
                    if j < i {
                        assert(next[j] == services@.take(i as int)[j]);
                    }
                }
            } else if healthy {
                let j = choose|j: int| 0 <= j < i && !(#[trigger] services@.take(i as int)[j]).1;
                assert(next[j] == services@.take(i as int)[j]);
            }
        }
        i = i + 1;
    }
    proof {
        assert(services@.take(services@.len() as int) =~= services@);
    }
    let (status_str, status) = if !init_done {
        ("initializing", STATUS_SERVICE_UNAVAILABLE)
    } else if all_ok {
        ("ok", STATUS_OK)
    } else {
        ("degraded", STATUS_SERVICE_UNAVAILABLE)
    };
    let mut body = String::from_str("{\"status\":\"");
    body.append(status_str);
    body.append("\",\"services\":{");
    body.append(entries.as_str());
    body.append("}}");
    JsonResponse { status, body }
}

/// `{"error":"service_unavailable","service":"<name>"}`.
pub open spec fn unavailable_body(service: ServiceKind) -> Seq<char> {
    "{\"error\":\"service_unavailable\",\"service\":\""@ + service_name(service) + "\"}"@
}

/// The reply for a request whose service is not running or did not answer.
pub fn service_unavailable(service: ServiceKind) -> (r: JsonResponse)
    ensures
        r.status == STATUS_SERVICE_UNAVAILABLE,
        r.body@ == unavailable_body(service),
{
    let mut body = String::from_str("{\"error\":\"service_unavailable\",\"service\":\"");
    body.append(service.as_str());
    body.append("\"}");
    JsonResponse { status: STATUS_SERVICE_UNAVAILABLE, body }
}

// ---------------------------------------------------------------------------
// Dispatch
// ---------------------------------------------------------------------------

/// What the gateway does with a request.
#[derive(Clone, Copy, Debug, PartialEq, Eq, Structural)]
pub enum Dispatch {
    /// Answer from the health endpoint.
    Health,
    /// Proxy the request to this running service.
    Forward(ServiceKind),
    /// Answer that this service is unavailable.
    Unavailable(ServiceKind),
}

pub open spec fn dispatch_spec(path: Seq<char>, hs: Seq<Header>, running: Seq<ServiceKind>) -> Dispatch {
    if is_health_check(path, hs) {
        Dispatch::Health
    } else if running.contains(route_spec(hs)) {
        Dispatch::Forward(route_spec(hs))
    } else {
        Dispatch::Unavailable(route_spec(hs))
    }
}

/// Decides how to answer a request, given the services that are running.
pub fn dispatch(head: &RequestHead, running: &[ServiceKind]) -> (r: Dispatch)
    ensures
        r == dispatch_spec(head.path@, head.headers@, running@),
{
    if is_facade_health_check(head) {
        return Dispatch::Health;
    }
    let target = route(head);
    let mut i: usize = 0;
    while i < running.len()
        invariant
            i <= running@.len(),
            forall|j: int| 0 <= j < i ==> running@[j] != target,
            target == route_spec(head.headers@),
            !is_health_check(head.path@, head.headers@),
        decreases running@.len() - i,
    {
        if running[i] == target {
            assert(running@[i as int] == target);
            return Dispatch::Forward(target);
        }
        i = i + 1;
    }
    Dispatch::Unavailable(target)
}

/// The health endpoint answers 200 exactly when the init scripts are done and
/// every service is reachable, and then says `ok`.
pub proof fn lemma_health_ok_iff(es: Seq<(ServiceKind, bool)>, init_done: bool)
    ensures
        (health_code(es, init_done) == STATUS_OK) == (init_done && all_healthy(es)),
        health_code(es, init_done) == STATUS_OK ==> overall_status(es, init_done) == "ok"@,
        !init_done ==> overall_status(es, init_done) == "initializing"@,
{
}

/// One unreachable service, wherever it stands in the list, makes a finished
/// gateway report `degraded` with 503.
pub proof fn lemma_unreachable_service_degrades(es: Seq<(ServiceKind, bool)>, i: int)
    requires
        0 <= i < es.len(),
        !es[i].1,
    ensures
        health_code(es, true) == STATUS_SERVICE_UNAVAILABLE,
        overall_status(es, true) == "degraded"@,
        health_report_status_matches(es),
{
}

/// Whether the report's code and overall status agree with the probes: 200
/// and `ok` exactly when no probe failed.
pub open spec fn health_report_status_matches(es: Seq<(ServiceKind, bool)>) -> bool {
    (health_code(es, true) == STATUS_OK) <==> !(exists|j: int| 0 <= j < es.len() && !(#[trigger] es[j]).1)
}

/// When every probe succeeded, a finished gateway reports `ok` with 200.
pub proof fn lemma_all_reachable_ok(es: Seq<(ServiceKind, bool)>)
    requires
        forall|j: int| 0 <= j < es.len() ==> (#[trigger] es[j]).1,
    ensures
        health_code(es, true) == STATUS_OK,
        overall_status(es, true) == "ok"@,
{
}

/// A request that is not a health check and whose service is running is
/// proxied to that service; it is answered as unavailable only when its
/// service is not running.
pub proof fn lemma_dispatch_forwards_running(path: Seq<char>, hs: Seq<Header>, running: Seq<ServiceKind>)
    requires
        !is_health_check(path, hs),
    ensures
        running.contains(route_spec(hs)) ==> dispatch_spec(path, hs, running) == Dispatch::Forward(route_spec(hs)),
        !running.contains(route_spec(hs)) ==> dispatch_spec(path, hs, running) == Dispatch::Unavailable(route_spec(hs)),
{
}

/// A health check is answered by the gateway itself and never proxied; a
/// request that carries AWS credentials or `x-amz-*` headers goes to a
/// service even on `/health`; and a request is only proxied to a running
/// service.
pub proof fn lemma_dispatch_safety(path: Seq<char>, hs: Seq<Header>, running: Seq<ServiceKind>)
    ensures
        is_health_check(path, hs) ==> dispatch_spec(path, hs, running) == Dispatch::Health,
        (has_header(hs, "authorization"@) || has_amz_header(hs)) ==> dispatch_spec(path, hs, running) != Dispatch::Health,
        dispatch_spec(path, hs, running) matches Dispatch::Forward(k) ==> running.contains(k),
{
}

// ---------------------------------------------------------------------------
// Waiting for a service to come up
// ---------------------------------------------------------------------------

/// How often, in milliseconds, a starting service is probed.
pub const HEALTH_POLL_INTERVAL_MS: u64 = 100;

/// The next move while waiting for a service to accept connections.
#[derive(Clone, Copy, Debug, PartialEq, Eq, Structural)]
pub enum HealthWait {
    /// The service accepted a connection.
    Healthy,
    /// Probe again after the poll interval.
    KeepPolling,
    /// The time allowed has run out: the gateway gives up on the service.
    GiveUp,
}

/// One step of waiting for a service: past the deadline the wait ends in
/// failure, otherwise a successful probe ends it and a failed one continues it.
pub fn health_wait_step(elapsed_ms: u64, timeout_ms: u64, connected: bool) -> (r: HealthWait)
    ensures
        r == if elapsed_ms > timeout_ms {
            HealthWait::GiveUp
        } else if connected {
            HealthWait::Healthy
        } else {
            HealthWait::KeepPolling
        },
{
    if elapsed_ms > timeout_ms {
        HealthWait::GiveUp
    } else if connected {
        HealthWait::Healthy
    } else {
        HealthWait::KeepPolling
    }
}

} // verus!
