use llama_dash::sampler::{plan_sampler_chain, ChainChoice, SamplerStage};
use llama_dash::{
    chat_prompt, fallback_prompt, ChatMessage, FinishReason, GenerateEvent, Generation, Step,
    StepInput,
};

const EOS: i32 = 2;

fn piece(tok: i32) -> String {
    match tok {
        100 => "a".to_string(),
        101 => "b".to_string(),
        102 => "c".to_string(),
        _ => format!("<{tok}>"),
    }
}

/// Drive a run with a scripted decoder: `stream` is what the sampler picks
/// in turn; the consumer takes at most `accept` token events.
fn drive(mut g: Generation, stream: &[i32], accept: usize) -> Vec<GenerateEvent> {
    let mut events = Vec::new();
    let mut next = 0;
    let mut step = g.advance(StepInput::Decoded(Ok(())));
    loop {
        step = match step {
            Step::Sample => {
                let t = stream[next % stream.len()];
                next += 1;
                g.advance(StepInput::Sampled(t))
            }
            Step::Render { tok } => g.advance(StepInput::Piece(piece(tok))),
            Step::Send(e) => {
                let ok = events.len() < accept;
                if ok {
                    events.push(e);
                }
                g.advance(StepInput::Sent(ok))
            }
            Step::Decode { .. } => g.advance(StepInput::Decoded(Ok(()))),
            Step::Finish(e) => {
                events.push(e);
                break;
            }
            Step::Stop => break,
        };
    }
    events
}

fn texts(events: &[GenerateEvent]) -> Vec<String> {
    events
        .iter()
        .map(|e| match e {
            GenerateEvent::Token(t) => t.clone(),
            GenerateEvent::Done { finish_reason, prompt_tokens, completion_tokens } => {
                format!("done:{}:{prompt_tokens}:{completion_tokens}", finish_reason.to_string())
            }
            GenerateEvent::Error(m) => format!("error:{m}"),
        })
        .collect()
}

#[test]
fn natural_stop() {
    let g = Generation::new(2, 10, vec![], 4096, EOS, EOS);
    let ev = drive(g, &[100, 101, 102, EOS], usize::MAX);
    assert_eq!(texts(&ev), vec!["a", "b", "c", "done:stop:2:4"]);
}

#[test]
fn length_stop() {
    let g = Generation::new(2, 2, vec![], 4096, EOS, EOS);
    let ev = drive(g, &[100, 101, 102], usize::MAX);
    assert_eq!(texts(&ev), vec!["a", "b", "done:length:2:2"]);
}

#[test]
fn stop_word_after_piece() {
    let g = Generation::new(2, 10, vec!["b".to_string()], 4096, EOS, EOS);
    let ev = drive(g, &[100, 101, 102, EOS], usize::MAX);
    // The piece that completes the stop word is sent, then the run ends.
    assert_eq!(texts(&ev), vec!["a", "b", "done:stop_word:b:2:2"]);
    match &ev[2] {
        GenerateEvent::Done { finish_reason, .. } => {
            assert_eq!(*finish_reason, FinishReason::StopWord("b".to_string()))
        }
        other => panic!("unexpected {other:?}"),
    }
}

#[test]
fn stop_word_on_first_piece() {
    let g = Generation::new(1, 10, vec!["a".to_string()], 4096, EOS, EOS);
    let ev = drive(g, &[100], usize::MAX);
    assert_eq!(texts(&ev), vec!["a", "done:stop_word:a:1:1"]);
}

#[test]
fn stop_word_across_pieces() {
    let g = Generation::new(1, 10, vec!["zz".to_string(), "bc".to_string()], 4096, EOS, EOS);
    let ev = drive(g, &[100, 101, 102, EOS], usize::MAX);
    assert_eq!(texts(&ev), vec!["a", "b", "c", "done:stop_word:bc:1:3"]);
}

#[test]
fn zero_max_tokens_finishes_at_once() {
    let g = Generation::new(3, 0, vec![], 4096, EOS, EOS);
    let ev = drive(g, &[100], usize::MAX);
    assert_eq!(texts(&ev), vec!["done:length:3:0"]);
}

#[test]
fn context_full_is_length() {
    let g = Generation::new(2, 10, vec![], 3, EOS, EOS);
    let ev = drive(g, &[100, 101, 102], usize::MAX);
    assert_eq!(texts(&ev), vec!["a", "b", "done:length:2:2"]);
}

#[test]
fn end_of_turn_token_stops() {
    let g = Generation::new(1, 10, vec![], 4096, EOS, 7);
    let ev = drive(g, &[100, 7], usize::MAX);
    assert_eq!(texts(&ev), vec!["a", "done:stop:1:2"]);
}

#[test]
fn dropped_consumer_cancels_silently() {
    let g = Generation::new(2, 10, vec![], 4096, EOS, EOS);
    let ev = drive(g, &[100, 101, 102, EOS], 1);
    assert_eq!(texts(&ev), vec!["a"]);
}

#[test]
fn prompt_decode_error() {
    let mut g = Generation::new(2, 10, vec![], 4096, EOS, EOS);
    match g.advance(StepInput::Decoded(Err("Decode failed with code 1".to_string()))) {
        Step::Finish(GenerateEvent::Error(m)) => assert_eq!(m, "prompt decode: Decode failed with code 1"),
        other => panic!("unexpected {other:?}"),
    }
    assert!(matches!(g.advance(StepInput::Sampled(100)), Step::Stop));
}

#[test]
fn later_decode_error_and_positions() {
    let mut g = Generation::new(2, 10, vec![], 4096, EOS, EOS);
    assert!(matches!(g.advance(StepInput::Decoded(Ok(()))), Step::Sample));
    assert!(matches!(g.advance(StepInput::Sampled(100)), Step::Render { tok: 100 }));
    assert!(matches!(g.advance(StepInput::Piece("a".to_string())), Step::Send(GenerateEvent::Token(_))));
    assert!(matches!(g.advance(StepInput::Sent(true)), Step::Decode { tok: 100, pos: 2 }));
    match g.advance(StepInput::Decoded(Err("x".to_string()))) {
        Step::Finish(GenerateEvent::Error(m)) => assert_eq!(m, "decode: x"),
        other => panic!("unexpected {other:?}"),
    }
}

#[test]
fn out_of_order_input_stops() {
    let mut g = Generation::new(2, 10, vec![], 4096, EOS, EOS);
    assert!(matches!(g.advance(StepInput::Sent(true)), Step::Stop));
    assert!(matches!(g.advance(StepInput::Decoded(Ok(()))), Step::Stop));
}

#[test]
fn finish_reason_names() {
    assert_eq!(FinishReason::Stop.to_string(), "stop");
    assert_eq!(FinishReason::Length.to_string(), "length");
    assert_eq!(FinishReason::StopWord("x".to_string()).to_string(), "stop_word:x");
}

fn choice() -> ChainChoice {
    ChainChoice {
        penalties: true,
        repeat_last_n: 64,
        top_k: 40,
        top_p_below_one: true,
        min_p_positive: true,
        temperature_positive: true,
        seed: None,
    }
}

#[test]
fn sampler_chain_order() {
    let v = plan_sampler_chain(choice());
    assert_eq!(
        v,
        vec![
            SamplerStage::Penalties { last_n: 64 },
            SamplerStage::TopK { k: 40 },
            SamplerStage::TopP,
            SamplerStage::MinP,
            SamplerStage::Temperature,
            SamplerStage::Dist { seed: 0 },
        ]
    );
}

#[test]
fn zero_temperature_is_greedy() {
    let c = ChainChoice {
        penalties: false,
        top_k: 0,
        top_p_below_one: false,
        min_p_positive: false,
        temperature_positive: false,
        seed: Some(9),
        ..choice()
    };
    assert_eq!(plan_sampler_chain(c), vec![SamplerStage::Greedy]);
    let c = ChainChoice { temperature_positive: true, seed: Some(9), ..c };
    assert_eq!(
        plan_sampler_chain(c),
        vec![SamplerStage::Temperature, SamplerStage::Dist { seed: 9 }]
    );
}

fn msg(role: &str, content: &str) -> ChatMessage {
    ChatMessage { role: role.to_string(), content: content.to_string() }
}

#[test]
fn plain_chat_prompt() {
    let m = vec![msg("system", "be brief"), msg("user", "hi")];
    assert_eq!(fallback_prompt(&m), "system: be brief\nuser: hi\nassistant:");
    assert_eq!(fallback_prompt(&vec![]), "\nassistant:");
    assert_eq!(chat_prompt(None, &m), "system: be brief\nuser: hi\nassistant:");
    assert_eq!(chat_prompt(Some("<t>".to_string()), &m), "<t>");
}
