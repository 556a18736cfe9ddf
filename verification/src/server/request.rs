//! What a request asks for, and how it is refused.

use crate::text::{bool_name, bool_text, decimal, push_decimal};
use vstd::prelude::*;
use vstd::string::*;

verus! {

/// An answer that refuses a request.
#[derive(Debug)]
pub struct ApiError {
    pub status: u16,
    pub error_type: String,
    pub message: String,
}

/// The contents of an [`ApiError`].
#[verifier::ext_equal]
pub struct ApiErrorView {
    pub status: u16,
    pub error_type: Seq<char>,
    pub message: Seq<char>,
}

impl View for ApiError {
    type V = ApiErrorView;

    open spec fn view(&self) -> ApiErrorView {
        ApiErrorView {
            status: self.status,
            error_type: self.error_type@,
            message: self.message@,
        }
    }
}

/// The answer to a request over the rate limit.
pub open spec fn rate_limited() -> ApiErrorView {
    ApiErrorView {
        status: 429,
        error_type: "rate_limit_exceeded"@,
        message: "Too many requests (global rate limit per minute exceeded)"@,
    }
}

/// The answer to a request without the right key.
pub open spec fn unauthorized() -> ApiErrorView {
    ApiErrorView {
        status: 401,
        error_type: "invalid_api_key"@,
        message: "Missing or invalid Authorization header (expected Bearer token)"@,
    }
}

/// The answer to a request that makes no sense.
pub open spec fn invalid(message: Seq<char>) -> ApiErrorView {
    ApiErrorView { status: 400, error_type: "invalid_request_error"@, message }
}

/// The answer where the model failed.
pub open spec fn generation_failure(cause: Seq<char>) -> ApiErrorView {
    ApiErrorView {
        status: 500,
        error_type: "server_error"@,
        message: "Generation failed: "@ + cause,
    }
}

fn refusal(status: u16, error_type: &str, message: &str) -> (e: ApiError)
    ensures
        e@ == (ApiErrorView { status, error_type: error_type@, message: message@ }),
{
    ApiError {
        status,
        error_type: String::from_str(error_type),
        message: String::from_str(message),
    }
}

/// Refuses a request over the rate limit.
pub fn refuse_rate() -> (e: ApiError)
    ensures
        e@ == rate_limited(),
{
    refusal(
        429,
        "rate_limit_exceeded",
        "Too many requests (global rate limit per minute exceeded)",
    )
}

/// Refuses a request without the right key.
pub fn refuse_key() -> (e: ApiError)
    ensures
        e@ == unauthorized(),
{
    refusal(
        401,
        "invalid_api_key",
        "Missing or invalid Authorization header (expected Bearer token)",
    )
}

/// Reports that the model failed.
pub fn report_failure(cause: &str) -> (e: ApiError)
    ensures
        e@ == generation_failure(cause@),
{
    let mut message = String::from_str("Generation failed: ");
    message.append(cause);
    ApiError { status: 500, error_type: String::from_str("server_error"), message }
}

/// How many tokens a request gets: what it asks for, at most the cap; without
/// a number, the cap.
pub open spec fn granted(asked: Option<usize>, cap: usize) -> usize {
    match asked {
        Some(n) => if n < cap {
            n
        } else {
            cap
        },
        None => cap,
    }
}

/// How many tokens a text completion gets. It is refused where that is none.
pub fn completion_tokens(asked: Option<usize>, cap: usize) -> (r: Result<usize, ApiError>)
    ensures
        match r {
            Ok(n) => n == granted(asked, cap) && n > 0,
            Err(e) => granted(asked, cap) == 0 && e@ == invalid("max_tokens must be at least 1"@),
        },
{
    let n: usize = match asked {
        Some(n) => if n < cap {
            n
        } else {
            cap
        },
        None => cap,
    };
    if n == 0 {
        Err(refusal(400, "invalid_request_error", "max_tokens must be at least 1"))
    } else {
        Ok(n)
    }
}

/// How many tokens a chat with the given number of messages gets. Without
/// messages it is refused, and then where the number of tokens is zero.
pub fn chat_tokens(messages: usize, asked: Option<usize>, cap: usize) -> (r: Result<
    usize,
    ApiError,
>)
    ensures
        match r {
            Ok(n) => messages > 0 && n == granted(asked, cap) && n > 0,
            Err(e) => if messages == 0 {
                e@ == invalid("messages must not be empty"@)
            } else {
                granted(asked, cap) == 0 && e@ == invalid("max_tokens must be at least 1"@)
            },
        },
{
    if messages == 0 {
        return Err(refusal(400, "invalid_request_error", "messages must not be empty"));
    }
    completion_tokens(asked, cap)
}

/// How many requests run at the same time: at least one.
pub fn concurrency(asked: usize) -> (n: usize)
    ensures
        n == (if asked == 0 {
            1
        } else {
            asked as int
        }),
{
    if asked == 0 {
        1
    } else {
        asked
    }
}

/// The status of the readiness probe.
pub fn ready_status(ready: bool) -> (status: u16)
    ensures
        status == (if ready {
            200int
        } else {
            503
        }),
{
    if ready {
        200
    } else {
        503
    }
}

/// The numbers of tokens that an answer reports.
#[derive(Debug, Clone, Copy, PartialEq, Eq, Structural)]
pub struct ChatUsage {
    pub prompt_tokens: usize,
    pub completion_tokens: usize,
    pub total_tokens: usize,
}

/// The usage of a prompt and a completion.
pub fn usage(prompt_tokens: usize, completion_tokens: usize) -> (u: ChatUsage)
    requires
        prompt_tokens + completion_tokens <= usize::MAX,
    ensures
        u.prompt_tokens == prompt_tokens,
        u.completion_tokens == completion_tokens,
        u.total_tokens == prompt_tokens + completion_tokens,
{
    ChatUsage { prompt_tokens, completion_tokens, total_tokens: prompt_tokens + completion_tokens }
}

/// A space in the sense of Unicode: the characters with the property
/// `White_Space`.
pub open spec fn is_space(c: char) -> bool {
    ||| '\u{9}' <= c <= '\u{d}'
    ||| c == ' '
    ||| c == '\u{85}'
    ||| c == '\u{a0}'
    ||| c == '\u{1680}'
    ||| '\u{2000}' <= c <= '\u{200a}'
    ||| c == '\u{2028}'
    ||| c == '\u{2029}'
    ||| c == '\u{202f}'
    ||| c == '\u{205f}'
    ||| c == '\u{3000}'
}

/// A word begins at place `i`: no space, and before it a space or nothing.
pub open spec fn word_begins(s: Seq<char>, i: int) -> bool {
    0 <= i < s.len() && !is_space(s[i]) && (i == 0 || is_space(s[i - 1]))
}

/// How many words begin among the first `n` places.
pub open spec fn words_before(s: Seq<char>, n: nat) -> nat
    decreases n,
{
    if n == 0 {
        0
    } else {
        words_before(s, (n - 1) as nat) + (if word_begins(s, n - 1) {
            1nat
        } else {
            0
        })
    }
}

/// Whether a character is a space.
pub fn space(c: char) -> (r: bool)
    ensures
        r == is_space(c),
{
    ('\u{9}' <= c && c <= '\u{d}') || c == ' ' || c == '\u{85}' || c == '\u{a0}' || c == '\u{1680}'
        || ('\u{2000}' <= c && c <= '\u{200a}') || c == '\u{2028}' || c == '\u{2029}' || c
        == '\u{202f}' || c == '\u{205f}' || c == '\u{3000}'
}

/// The number of words of a text, separated by spaces.
pub fn count_words(text: &str) -> (n: usize)
    ensures
        n == words_before(text@, text@.len()),
{
    let v = crate::text::chars_of(text);
    let mut n: usize = 0;
    for i in 0..v.len()
        invariant
            v@ == text@,
            n <= i,
            n == words_before(text@, i as nat),
    {
        if !space(v[i]) && (i == 0 || space(v[i - 1])) {
            n = n + 1;
        }
    }
    n
}

/// What is measured of the server. Uptime and rate are given as texts.
pub open spec fn metrics(
    uptime: Seq<char>,
    served: nat,
    rate: Seq<char>,
    model: Seq<char>,
    cpu_only: bool,
) -> Seq<char> {
    "# HELP aether_uptime_seconds Server uptime\n# TYPE aether_uptime_seconds gauge\naether_uptime_seconds "@
        + uptime
        + "\n# HELP aether_requests_served_total Total requests served\n# TYPE aether_requests_served_total counter\naether_requests_served_total "@
        + decimal(served)
        + "\n# HELP aether_requests_per_second Request rate\n# TYPE aether_requests_per_second gauge\naether_requests_per_second "@
        + rate
        + "\n# HELP aether_model_info Static model metadata\n# TYPE aether_model_info gauge\naether_model_info{model=\""@
        + model + "\",cpu_only=\""@ + bool_name(cpu_only) + "\"} 1\n"@
}

/// What is measured of the server, in the text format of its monitor.
pub fn metrics_text(uptime: &str, served: u64, rate: &str, model: &str, cpu_only: bool) -> (s:
    String)
    ensures
        s@ == metrics(uptime@, served as nat, rate@, model@, cpu_only),
{
    let mut s = String::from_str(
        "# HELP aether_uptime_seconds Server uptime\n# TYPE aether_uptime_seconds gauge\naether_uptime_seconds ",
    );
    s.append(uptime);
    s.append(
        "\n# HELP aether_requests_served_total Total requests served\n# TYPE aether_requests_served_total counter\naether_requests_served_total ",
    );
    push_decimal(&mut s, served);
    s.append(
        "\n# HELP aether_requests_per_second Request rate\n# TYPE aether_requests_per_second gauge\naether_requests_per_second ",
    );
    s.append(rate);
    s.append(
        "\n# HELP aether_model_info Static model metadata\n# TYPE aether_model_info gauge\naether_model_info{model=\"",
    );
    s.append(model);
    s.append("\",cpu_only=\"");
    s.append(bool_text(cpu_only));
    s.append("\"} 1\n");
    s
}

} // verus!
