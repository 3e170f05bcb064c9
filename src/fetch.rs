//! What the fetcher decides: how a response is classified, when it is too
//! large, and whether a failed attempt is tried again.
use vstd::prelude::*;
use crate::bytes::{copy_range, has_prefix, lower, starts_with};

verus! {

/// How many times one URL is requested before the fetch counts as failed.
pub const MAX_ATTEMPTS: u32 = 3;

/// The wait before the second attempt; each later attempt waits this much longer.
pub const BACKOFF_MS: u64 = 250;

/// The kind of a response, by its content type.
#[derive(Clone, Copy, Debug, PartialEq, Eq, Structural)]
pub enum ContentKind {
    Html,
    Image,
    Other,
}

/// Why a fetch failed.
#[derive(Clone, Copy, Debug, PartialEq, Eq, Structural)]
pub enum FetchError {
    /// The connection failed or the response could not be read.
    Network,
    /// No response came in time.
    Timeout,
    /// The body is larger than the configured cap.
    TooLarge,
}

/// The outcome of fetching one URL.
pub enum FetchResult {
    Html(Vec<u8>),
    /// The body and the content type.
    Image(Vec<u8>, Vec<u8>),
    Other,
    Failed(FetchError),
}

pub open spec fn text_html() -> Seq<u8> {
    seq![116u8, 101u8, 120u8, 116u8, 47u8, 104u8, 116u8, 109u8, 108u8]
}

pub open spec fn image_slash() -> Seq<u8> {
    seq![105u8, 109u8, 97u8, 103u8, 101u8, 47u8]
}

/// `text/html...` is a page, `image/...` an image, without regard to case.
pub open spec fn kind_of(content_type: Seq<u8>) -> ContentKind {
    if starts_with(lower(content_type), text_html()) {
        ContentKind::Html
    } else if starts_with(lower(content_type), image_slash()) {
        ContentKind::Image
    } else {
        ContentKind::Other
    }
}

/// The kind of a response with the given content type.
pub fn classify(content_type: &[u8]) -> (r: ContentKind)
    ensures
        r == kind_of(content_type@),
{
    let folded = copy_range(content_type, 0, content_type.len(), true);
    assert(content_type@.subrange(0, content_type@.len() as int) =~= content_type@);
    let html: Vec<u8> = vec![116u8, 101u8, 120u8, 116u8, 47u8, 104u8, 116u8, 109u8, 108u8];
    let image: Vec<u8> = vec![105u8, 109u8, 97u8, 103u8, 101u8, 47u8];
    assert(html@ =~= text_html());
    assert(image@ =~= image_slash());
    if has_prefix(folded.as_slice(), html.as_slice()) {
        ContentKind::Html
    } else if has_prefix(folded.as_slice(), image.as_slice()) {
        ContentKind::Image
    } else {
        ContentKind::Other
    }
}

/// The result of a response that arrived: over the cap it fails as
/// `TooLarge`, else it is classified by its content type.
pub fn response_result(content_type: Vec<u8>, body: Vec<u8>, max_size: usize) -> (r: FetchResult)
    ensures
        body@.len() > max_size ==> r == FetchResult::Failed(FetchError::TooLarge),
        body@.len() <= max_size && kind_of(content_type@) == ContentKind::Html ==> r
            == FetchResult::Html(body),
        body@.len() <= max_size && kind_of(content_type@) == ContentKind::Image ==> r
            == FetchResult::Image(body, content_type),
        body@.len() <= max_size && kind_of(content_type@) == ContentKind::Other ==> r
            == FetchResult::Other,
{
    if body.len() > max_size {
        return FetchResult::Failed(FetchError::TooLarge);
    }
    match classify(content_type.as_slice()) {
        ContentKind::Html => FetchResult::Html(body),
        ContentKind::Image => FetchResult::Image(body, content_type),
        ContentKind::Other => FetchResult::Other,
    }
}

/// What to do after an attempt failed.
#[derive(Clone, Copy, Debug, PartialEq, Eq, Structural)]
pub enum RetryDecision {
    /// Try again after waiting this many milliseconds.
    Retry(u64),
    /// Report the fetch as failed with this error.
    GiveUp(FetchError),
}

/// After attempt number `attempt` (counting from 1) failed with `err`:
/// connection failures and timeouts are tried again, with a wait that grows
/// by `BACKOFF_MS` each time, until `MAX_ATTEMPTS` attempts were made; an
/// oversized body is not tried again.
pub fn after_failure(attempt: u32, err: FetchError) -> (r: RetryDecision)
    ensures
        attempt < MAX_ATTEMPTS && err != FetchError::TooLarge ==> r == RetryDecision::Retry(
            (BACKOFF_MS * attempt) as u64,
        ),
        attempt >= MAX_ATTEMPTS || err == FetchError::TooLarge ==> r == RetryDecision::GiveUp(err),
{
    if attempt < MAX_ATTEMPTS && err != FetchError::TooLarge {
        RetryDecision::Retry(BACKOFF_MS * (attempt as u64))
    } else {
        RetryDecision::GiveUp(err)
    }
}

} // verus!
