use miasma::routes::{
    accept_encoding_offers_gzip, negotiate_gzip, plan_request, poison_response_headers,
    AcquireRefusal, RequestPlan, INTERNAL_SERVER_ERROR, RETRY_AFTER_SECS, TOO_MANY_REQUESTS,
};
use miasma::{handle_request, QueryParams};
use std::sync::Arc;
use tokio::sync::Semaphore;

fn serve_parts(plan: RequestPlan) -> (bool, u32) {
    match plan {
        RequestPlan::Serve { gzip, depth, .. } => (gzip, depth),
        RequestPlan::Rejected { status, .. } => panic!("expected to serve, got {}", status),
    }
}

fn rejection(plan: RequestPlan) -> (u16, Option<u32>) {
    match plan {
        RequestPlan::Rejected {
            status,
            retry_after_secs,
        } => (status, retry_after_secs),
        RequestPlan::Serve { .. } => panic!("expected a rejection"),
    }
}

#[test]
fn happy_path_works() {
    let limiter = Arc::new(Semaphore::new(1));
    let plan = handle_request(&limiter, false, None, None);
    assert!(matches!(plan, RequestPlan::Serve { .. }));
}

#[test]
fn returns_429_when_max_in_flight_reached() {
    let limiter = Arc::new(Semaphore::new(1));
    let first = handle_request(&limiter, false, None, None);
    let second = handle_request(&limiter, false, None, None);

    assert!(matches!(first, RequestPlan::Serve { .. }));
    let (status, retry_after) = rejection(second);
    assert_eq!(status, 429);
    assert_eq!(retry_after, Some(5));
}

#[test]
fn permit_is_returned_when_the_page_is_done() {
    let limiter = Arc::new(Semaphore::new(1));
    let first = handle_request(&limiter, false, None, None);
    drop(first);
    let second = handle_request(&limiter, false, None, None);
    assert!(matches!(second, RequestPlan::Serve { .. }));
}

#[test]
fn closed_limiter_gives_500() {
    let limiter = Arc::new(Semaphore::new(3));
    limiter.close();
    let (status, retry_after) = rejection(handle_request(&limiter, false, None, None));
    assert_eq!(status, INTERNAL_SERVER_ERROR);
    assert_eq!(retry_after, None);
}

#[test]
fn refusals_map_to_statuses() {
    assert_eq!(
        rejection(plan_request(Err(AcquireRefusal::NoPermits), true, None, None)),
        (TOO_MANY_REQUESTS, Some(RETRY_AFTER_SECS))
    );
    assert_eq!(
        rejection(plan_request(Err(AcquireRefusal::Closed), true, None, None)),
        (500, None)
    );
}

#[test]
fn depth_comes_from_page_or_defaults_to_one() {
    let limiter = Arc::new(Semaphore::new(10));
    let q = Some(QueryParams { page: Some(7) });
    assert_eq!(serve_parts(handle_request(&limiter, false, None, q)), (false, 7));
    let q = Some(QueryParams { page: None });
    assert_eq!(serve_parts(handle_request(&limiter, false, None, q)), (false, 1));
    assert_eq!(serve_parts(handle_request(&limiter, false, None, None)), (false, 1));
    assert_eq!(QueryParams::CURRENT_DEPTH_QUERY_PARAM, "page");
}

#[test]
fn gzip_is_negotiated_from_accept_encoding() {
    assert!(accept_encoding_offers_gzip(b"gzip"));
    assert!(accept_encoding_offers_gzip(b"deflate, gzip, br"));
    assert!(accept_encoding_offers_gzip(b" GZip\t"));
    assert!(accept_encoding_offers_gzip(b"br,gzip"));
    assert!(!accept_encoding_offers_gzip(b""));
    assert!(!accept_encoding_offers_gzip(b"deflate, br"));
    assert!(!accept_encoding_offers_gzip(b"x-gzip"));
    assert!(!accept_encoding_offers_gzip(b"gzip;q=1.0"));
    assert!(!accept_encoding_offers_gzip(b"g zip"));
    // a value that is not visible ASCII reads as empty
    assert!(!accept_encoding_offers_gzip(b"gzip, \xff"));
    assert!(!accept_encoding_offers_gzip(b"gzip\n"));
}

#[test]
fn forced_gzip_wins() {
    assert!(negotiate_gzip(true, None));
    assert!(negotiate_gzip(true, Some(b"br")));
    assert!(!negotiate_gzip(false, None));
    assert!(negotiate_gzip(false, Some(b"gzip")));
    let limiter = Arc::new(Semaphore::new(10));
    assert_eq!(
        serve_parts(handle_request(&limiter, false, Some(b"deflate, gzip"), None)),
        (true, 1)
    );
}

#[test]
fn poison_headers_follow_the_encoding() {
    assert_eq!(poison_response_headers(false), vec![("content-type", "text/html")]);
    assert_eq!(
        poison_response_headers(true),
        vec![("content-type", "text/html"), ("content-encoding", "gzip")]
    );
}
