use spider::fetch::{after_failure, classify, response_result, ContentKind, FetchError, FetchResult, RetryDecision};

#[test]
fn content_types_are_classified() {
    assert_eq!(classify(b"text/html; charset=utf-8"), ContentKind::Html);
    assert_eq!(classify(b"IMAGE/PNG"), ContentKind::Image);
    assert_eq!(classify(b"application/json"), ContentKind::Other);
    assert_eq!(classify(b""), ContentKind::Other);
}

#[test]
fn oversized_body_fails_as_too_large() {
    let r = response_result(b"image/jpeg".to_vec(), vec![1, 2, 3], 2);
    assert!(matches!(r, FetchResult::Failed(FetchError::TooLarge)));
}

#[test]
fn bodies_within_the_cap_are_kept() {
    match response_result(b"image/jpeg".to_vec(), vec![1, 2, 3], 3) {
        FetchResult::Image(body, ct) => {
            assert_eq!(body, vec![1, 2, 3]);
            assert_eq!(ct, b"image/jpeg".to_vec());
        }
        _ => panic!("expected an image"),
    }
    assert!(matches!(response_result(b"text/html".to_vec(), vec![60], 10), FetchResult::Html(_)));
    assert!(matches!(response_result(b"text/css".to_vec(), vec![60], 10), FetchResult::Other));
}

#[test]
fn retries_are_bounded_with_growing_backoff() {
    assert_eq!(after_failure(1, FetchError::Network), RetryDecision::Retry(250));
    assert_eq!(after_failure(2, FetchError::Timeout), RetryDecision::Retry(500));
    assert_eq!(after_failure(3, FetchError::Network), RetryDecision::GiveUp(FetchError::Network));
    assert_eq!(after_failure(1, FetchError::TooLarge), RetryDecision::GiveUp(FetchError::TooLarge));
}
