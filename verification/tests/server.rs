use aether::c_api::{
    budgeted_status, context_len, hot_layers, pack_tokens, packed_len, plain_status, AETHER_ERR,
    AETHER_OK, AETHER_TIMEOUT,
};
use aether::cli::parse::{
    parse_count, parse_scenarios, preview, reported_speeds, scenario_label, split, trim,
};
use aether::cli::scenario::{tally, Scenario};
use aether::error::Error;
use aether::server::auth::{is_authorized, open_on_network};
use aether::server::generate::{GenAction, GenEvent, Generation};
use aether::server::limit::RateLimiter;
use aether::server::prompt::{fast_rand_id, format_messages, Message, FIRST_STATE};
use aether::server::request::{
    chat_tokens, completion_tokens, concurrency, count_words, metrics_text, ready_status,
    refuse_key, refuse_rate, report_failure, usage,
};
use aether::server::stream::{chat_event, completion_event, StreamEvent};

const SECOND: u64 = 1_000_000_000;

fn text(s: &str) -> String {
    s.to_owned()
}

fn letters(s: &str) -> Vec<char> {
    s.chars().collect()
}

#[test]
fn limiter_admits_so_many_a_minute() {
    let mut l = RateLimiter::new(2);
    assert!(l.check(0));
    assert!(l.check(10 * SECOND));
    assert!(!l.check(20 * SECOND));
    assert!(!l.check(59 * SECOND));
    assert!(l.check(60 * SECOND));
    assert!(!l.check(61 * SECOND));
    assert!(l.check(70 * SECOND));
    let mut open = RateLimiter::new(0);
    for i in 0..1000 {
        assert!(open.check(i));
    }
}

#[test]
fn tokens_are_accepted_with_a_scheme() {
    assert!(is_authorized(None, None));
    assert!(is_authorized(Some("key"), Some("Bearer key")));
    assert!(is_authorized(Some("key"), Some("bearer key")));
    assert!(!is_authorized(Some("key"), Some("key")));
    assert!(is_authorized(Some("Bearer key"), Some("Bearer Bearer key")));
    assert!(!is_authorized(Some("key"), Some("Bearer other")));
    assert!(!is_authorized(Some("key"), Some("BEARER key")));
    assert!(!is_authorized(Some("key"), None));
    assert!(open_on_network(false, "0.0.0.0"));
    assert!(!open_on_network(true, "0.0.0.0"));
    assert!(!open_on_network(false, "127.0.0.1"));
    assert!(!open_on_network(false, "localhost"));
}

#[test]
fn refusals_say_what_is_wrong() {
    let e = refuse_rate();
    assert_eq!((e.status, e.error_type.as_str()), (429, "rate_limit_exceeded"));
    let e = refuse_key();
    assert_eq!((e.status, e.error_type.as_str()), (401, "invalid_api_key"));
    let e = report_failure("boom");
    assert_eq!((e.status, e.message.as_str()), (500, "Generation failed: boom"));
    assert_eq!(completion_tokens(Some(10), 5).unwrap(), 5);
    assert_eq!(completion_tokens(Some(3), 5).unwrap(), 3);
    assert_eq!(completion_tokens(None, 5).unwrap(), 5);
    let e = completion_tokens(Some(0), 5).unwrap_err();
    assert_eq!((e.status, e.message.as_str()), (400, "max_tokens must be at least 1"));
    let e = chat_tokens(0, Some(0), 5).unwrap_err();
    assert_eq!(e.message, "messages must not be empty");
    assert_eq!(chat_tokens(1, None, 7).unwrap(), 7);
    assert_eq!(concurrency(0), 1);
    assert_eq!(concurrency(4), 4);
    assert_eq!(ready_status(true), 200);
    assert_eq!(ready_status(false), 503);
}

#[test]
fn usage_adds_up() {
    let u = usage(3, 4);
    assert_eq!((u.prompt_tokens, u.completion_tokens, u.total_tokens), (3, 4, 7));
    assert_eq!(count_words(" a  b\u{a0}c\n"), 3);
    assert_eq!(count_words(""), 0);
}

#[test]
fn metrics_are_text() {
    let s = metrics_text("1.5", 12, "8.00", "tiny", true);
    assert!(s.starts_with("# HELP aether_uptime_seconds Server uptime\n"));
    assert!(s.contains("\naether_requests_served_total 12\n"));
    assert!(s.ends_with("aether_model_info{model=\"tiny\",cpu_only=\"true\"} 1\n"));
}

#[test]
fn chats_become_prompts() {
    let message = |role: &str, content: &str| Message { role: text(role), content: text(content) };
    let chat = vec![
        message("system", "Be brief."),
        message("user", "Hi"),
        message("assistant", "Hello"),
        message("tool", "42"),
    ];
    assert_eq!(
        format_messages(&chat),
        "<|system|>\nBe brief.</s>\n<|user|>\nHi</s>\n<|assistant|>\nHello</s>\ntool: 42\n<|assistant|>\n"
    );
    assert_eq!(format_messages(&vec![]), "<|assistant|>\n");
}

#[test]
fn identifiers_differ() {
    let mut state = FIRST_STATE;
    let mut x = FIRST_STATE;
    let mut seen: Vec<String> = Vec::new();
    for _ in 0..100 {
        let id = fast_rand_id(&mut state);
        x ^= x << 13;
        x ^= x >> 7;
        x ^= x << 17;
        assert_eq!(id, format!("{:016x}", x));
        assert_eq!(state, x);
        assert!(!seen.contains(&id));
        seen.push(id);
    }
}

#[test]
fn streams_wrap_pieces_and_failures() {
    assert!(matches!(chat_event(Ok(text("[DONE]"))), StreamEvent::Raw(s) if s == "[DONE]"));
    assert!(matches!(chat_event(Ok(text("{\"a\":1}"))), StreamEvent::Raw(_)));
    match chat_event(Ok(text("hi"))) {
        StreamEvent::Chunk { content, finish_reason } => {
            assert_eq!(content, "hi");
            assert_eq!(finish_reason, None);
        }
        other => panic!("{:?}", other),
    }
    match chat_event(Err(text("lost"))) {
        StreamEvent::Chunk { content, finish_reason } => {
            assert_eq!(content, "[Error: lost]");
            assert_eq!(finish_reason, Some(text("error")));
        }
        other => panic!("{:?}", other),
    }
    assert!(matches!(completion_event(Err(text("x"))), StreamEvent::Raw(s) if s == "[Error: x]"));
    assert!(matches!(completion_event(Ok(text("y"))), StreamEvent::Raw(s) if s == "y"));
}

/// Runs a generation on a model that says the given tokens.
fn generate(max: usize, says: &[u32], keep: bool, capacity: usize) -> (Vec<u32>, GenAction) {
    let mut g = Generation::new(vec![7, 8], max, 0, keep);
    let mut used = 2;
    let mut next = 0;
    let mut a = g.step(GenEvent::Prefilled);
    loop {
        a = match a {
            GenAction::Sample => {
                next += 1;
                g.step(GenEvent::Sampled(says[next - 1]))
            }
            GenAction::Emit(_) => g.step(GenEvent::Emitted { used, capacity }),
            GenAction::Decode { token, pos } => {
                assert_eq!(token, *g.context().last().unwrap());
                assert_eq!(pos, used);
                used += 1;
                g.step(GenEvent::Decoded)
            }
            end => return (g.generated(), end),
        };
    }
}

#[test]
fn generation_stops_at_the_cap() {
    assert_eq!(generate(3, &[5, 6, 7, 8], true, 100), (vec![5, 6, 7], GenAction::Finish));
    assert_eq!(generate(0, &[5, 6], true, 100), (vec![5], GenAction::Finish));
}

#[test]
fn generation_stops_at_the_end_token() {
    assert_eq!(generate(9, &[5, 0, 7], true, 100), (vec![5, 0], GenAction::Finish));
    assert_eq!(generate(9, &[5, 0, 7], false, 100), (vec![5], GenAction::Finish));
    assert_eq!(generate(9, &[0, 7], false, 100), (vec![0], GenAction::Finish));
}

#[test]
fn generation_stops_where_the_context_is_full() {
    assert_eq!(generate(9, &[5, 6, 7, 8], true, 4), (vec![5, 6, 7], GenAction::Finish));
}

#[test]
fn an_ended_generation_stays_ended() {
    let mut g = Generation::new(vec![1], 5, 0, true);
    assert_eq!(g.step(GenEvent::Broken), GenAction::Abort);
    assert_eq!(g.step(GenEvent::Prefilled), GenAction::Abort);
    assert_eq!(g.decoded(), 0);
    assert_eq!(g.context(), &vec![1]);
}

#[test]
fn lists_of_numbers_are_read_leniently() {
    assert_eq!(parse_scenarios("0,32,16,4,2"), vec![0, 32, 16, 4, 2]);
    assert_eq!(parse_scenarios(" 7 , x,+3,-1,"), vec![7, 0, 3, 0, 0]);
    assert_eq!(parse_scenarios(""), vec![0]);
    assert_eq!(parse_count(&letters("18446744073709551615")), Some(usize::MAX));
    assert_eq!(parse_count(&letters("18446744073709551616")), None);
    assert_eq!(parse_count(&letters("+")), None);
    assert_eq!(parse_count(&letters("007")), Some(7));
    assert_eq!(trim(&letters("\t a b \n")), letters("a b"));
    assert_eq!(split(&letters("a,,b"), ','), vec![letters("a"), letters(""), letters("b")]);
}

#[test]
fn labels_and_previews() {
    assert_eq!(scenario_label(0), "in-memory");
    assert_eq!(scenario_label(16), "streaming(max_hot=16)");
    let long = "\u{e9}".repeat(70);
    assert_eq!(preview(&long), "\u{e9}".repeat(60));
    assert_eq!(preview("short"), "short");
}

#[test]
fn speeds_of_another_program_are_found() {
    let out = "loading\nPrompt: only\n[ Prompt: 12.5 t/s | Generation: 7.25 t/s ]\nPrompt: 1 Generation: 2\n";
    let (p, g) = reported_speeds(out);
    assert_eq!(p, Some(letters("12.5")));
    assert_eq!(g, Some(letters("7.25")));
    assert_eq!(reported_speeds("nothing"), (None, None));
    assert_eq!(reported_speeds("Prompt: Generation:"), (Some(letters("Generation:")), None));
}

#[test]
fn scenarios_record_what_went_wrong() {
    let mut s = Scenario::new(4);
    assert_eq!(s.label(), "streaming(max_hot=4)");
    s.load_failed("no file");
    assert!(!s.passed());
    assert_eq!(s.errors(), &vec![text("Load failed: no file")]);

    let mut s = Scenario::new(0);
    s.loaded(vec![1, 2], 5, 9);
    s.prefill_failed("oops");
    assert_eq!(s.errors(), &vec![text("Prefill failed: oops")]);
    assert_eq!(s.prefill_tokens(), 2);

    let mut s = Scenario::new(0);
    s.loaded(vec![1, 2], 5, 9);
    let a = s.prefilled(&vec![1.5f32.to_bits(), (-2.0f32).to_bits()]);
    assert_eq!(a, GenAction::Sample);
    assert_eq!(s.logit_bounds(), ((-2.0f32).to_bits(), 1.5f32.to_bits()));
    assert!(s.passed());
    assert_eq!(s.event(GenEvent::Sampled(3)), GenAction::Emit(3));
    assert_eq!(
        s.event(GenEvent::Emitted { used: 2, capacity: 8 }),
        GenAction::Decode { token: 3, pos: 2 }
    );
    assert_eq!(s.event(GenEvent::Decoded), GenAction::Sample);
    assert_eq!(s.event(GenEvent::Sampled(4)), GenAction::Emit(4));
    assert_eq!(
        s.event(GenEvent::Emitted { used: 3, capacity: 8 }),
        GenAction::Decode { token: 4, pos: 3 }
    );
    assert_eq!(s.decode_failed("gone"), GenAction::Abort);
    assert_eq!(s.errors(), &vec![text("Decode step 1 failed: gone")]);
    assert_eq!(s.generated(), vec![3, 4]);
    assert_eq!(s.decode_tokens(), 1);
}

#[test]
fn infinite_scores_are_reported() {
    let mut bad = Scenario::new(0);
    bad.loaded(vec![1], 5, 9);
    bad.prefilled(&vec![1.0f32.to_bits(), f32::INFINITY.to_bits()]);
    assert_eq!(bad.errors(), &vec![text("Infinity detected in prefill logits!")]);
    let mut lost = Scenario::new(0);
    lost.loaded(vec![1], 5, 9);
    lost.prefilled(&vec![1.0f32.to_bits(), f32::NAN.to_bits(), f32::INFINITY.to_bits()]);
    assert_eq!(
        lost.errors(),
        &vec![text("NaN detected in prefill logits!"), text("Infinity detected in prefill logits!")]
    );
    assert!(!lost.passed());
    assert_eq!(lost.logit_bounds(), (1.0f32.to_bits(), f32::INFINITY.to_bits()));
    let mut good = Scenario::new(2);
    good.loaded(vec![1], 5, 9);
    good.prefilled(&vec![1.0f32.to_bits()]);
    assert_eq!(tally(&vec![bad, good, Scenario::new(1)]), (1, 2));
}

#[test]
fn status_codes() {
    let failed = || Error::ExecutionError(text("x"));
    assert_eq!(plain_status(&Ok(())), AETHER_OK);
    assert_eq!(plain_status(&Err(Error::BudgetExceeded)), AETHER_ERR);
    assert_eq!(budgeted_status(&Ok(())), 0);
    assert_eq!(budgeted_status(&Err(Error::BudgetExceeded)), AETHER_TIMEOUT);
    assert_eq!(budgeted_status(&Err(failed())), -1);
    assert_eq!(AETHER_TIMEOUT, -2);
}

#[test]
fn sizes_for_c_programs() {
    assert_eq!(hot_layers(0), None);
    assert_eq!(hot_layers(-5), Some(32));
    assert_eq!(hot_layers(8), Some(8));
    assert_eq!(context_len(8192), 4096);
    assert_eq!(context_len(2048), 2048);
    let block = pack_tokens(&vec![5, u32::MAX]);
    assert_eq!(block, vec![2, 5, -1]);
    assert_eq!(packed_len(block[0]), Some(block.len()));
    assert_eq!(packed_len(-1), None);
}
