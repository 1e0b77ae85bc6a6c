//! Requests: refusal and order.

use llamanyon::engine::chat_template::ChatMessage;
use llamanyon::server::circuit_breaker::CircuitBreaker;
use llamanyon::server::scheduler::{PriorityQueueScheduler, QueuedRequest};

#[test]
fn the_breaker_opens_at_the_threshold() {
    let mut b = CircuitBreaker::new(3, 500);
    assert_eq!(b.record_failure(), None);
    assert_eq!(b.record_failure(), None);
    assert!(!b.is_open());
    assert_eq!(b.record_failure(), Some(500));
    assert!(b.is_open());
    // a success does not close it, the timeout does
    b.record_success();
    assert!(b.is_open());
    assert_eq!(b.record_failure(), None);
    assert!(b.is_open());
    b.reset();
    assert!(!b.is_open());
    assert_eq!(b.record_failure(), None);
}

#[test]
fn a_success_starts_the_count_anew() {
    let mut b = CircuitBreaker::new(2, 1);
    b.record_failure();
    b.record_success();
    b.record_failure();
    assert!(!b.is_open());
    let mut never = CircuitBreaker::new(0, 1);
    assert_eq!(never.record_failure(), Some(1));
    assert!(never.is_open());
}

#[test]
fn urgent_requests_go_first_then_early_ones() {
    let mut q: PriorityQueueScheduler<&str> = PriorityQueueScheduler::new(3);
    assert!(q.is_empty());
    q.submit(50, 1, "later");
    q.submit(10, 5, "urgent and late");
    q.submit(50, 0, "early");
    q.submit(10, 2, "urgent");
    q.submit(10, 2, "urgent too");
    let served: Vec<&str> = q.next_batch().into_iter().map(|r| r.req).collect();
    assert_eq!(served, vec!["urgent", "urgent too", "urgent and late"]);
    assert_eq!(q.len(), 2);
    assert_eq!(q.pop().unwrap().req, "early");
    let rest: Vec<&str> = q.next_batch().into_iter().map(|r| r.req).collect();
    assert_eq!(rest, vec!["later"]);
    assert!(q.pop().is_none());
    assert!(q.next_batch().is_empty());
}

#[test]
fn a_request_becomes_an_inference() {
    let q = QueuedRequest {
        id: 7,
        prompt: None,
        messages: Some(vec![ChatMessage {
            role: "user".to_string(),
            content: "hi".to_string(),
        }]),
        user_tier: "free".to_string(),
        workload_type: "CHAT".to_string(),
        max_tokens: 5,
        temperature: 0.5f32.to_bits(),
        top_k: 40,
        top_p: 0.9f32.to_bits(),
    };
    let r = q.into_inference();
    assert_eq!(r.prompt_text(), "<|user|>\nhi</s>\n<|assistant|>\n");
    assert_eq!((r.max_tokens, r.top_k), (5, 40));
    assert_eq!((r.temperature, r.top_p), (0.5f32.to_bits(), 0.9f32.to_bits()));
}
