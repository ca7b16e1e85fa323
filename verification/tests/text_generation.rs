use ic_dev_kit_rs::model_server::InferenceResponse;
use ic_dev_kit_rs::text_generation::{
    find_eos_token, format_generation_stats, GenerationResponse, StopReason,
};

#[test]
fn test_format_generation_stats() {
    let response = GenerationResponse {
        text: "hello".to_string(),
        tokens_generated: 12,
        instructions_used: 34567,
        stopped_reason: StopReason::EndOfSequence,
    };
    assert_eq!(
        format_generation_stats(&response),
        "Generated 12 tokens using 34567 instructions (completed)"
    );

    let response = GenerationResponse {
        text: String::new(),
        tokens_generated: 0,
        instructions_used: 0,
        stopped_reason: StopReason::MaxTokens,
    };
    assert_eq!(
        format_generation_stats(&response),
        "Generated 0 tokens using 0 instructions (max tokens reached)"
    );

    let response = GenerationResponse {
        text: String::new(),
        tokens_generated: 3,
        instructions_used: 9,
        stopped_reason: StopReason::InstructionLimit,
    };
    assert_eq!(
        format_generation_stats(&response),
        "Generated 3 tokens using 9 instructions (instruction limit reached)"
    );

    let response = GenerationResponse {
        text: String::new(),
        tokens_generated: 3,
        instructions_used: 9,
        stopped_reason: StopReason::Error("out of fuel".to_string()),
    };
    assert_eq!(format_generation_stats(&response), "error: out of fuel");
}

#[test]
fn test_find_eos_token() {
    let vocab = vec![
        ("hello".to_string(), 1),
        ("</s>".to_string(), 2),
        ("<eos>".to_string(), 3),
    ];
    // "</s>" outranks "<eos>".
    assert_eq!(find_eos_token(&vocab), 2);

    let vocab = vec![
        ("<eos>".to_string(), 7),
        ("<|endoftext|>".to_string(), 50256),
    ];
    // "<|endoftext|>" outranks everything.
    assert_eq!(find_eos_token(&vocab), 50256);

    let vocab = vec![("hello".to_string(), 1)];
    assert_eq!(find_eos_token(&vocab), 0);

    let vocab = vec![("<|im_end|>".to_string(), 100)];
    assert_eq!(find_eos_token(&vocab), 100);
}

#[test]
fn test_inference_response_from_generation() {
    let response = GenerationResponse {
        text: "out".to_string(),
        tokens_generated: 2,
        instructions_used: 5,
        stopped_reason: StopReason::EndOfSequence,
    };
    let inf = InferenceResponse::from(response);
    assert_eq!(inf.generated_text, "out");
    assert_eq!(inf.tokens_generated, 2);
    assert_eq!(inf.instructions_used, 5);
    assert!(inf.success);
    assert_eq!(inf.error, None);
}
