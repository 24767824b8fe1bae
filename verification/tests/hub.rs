//! Weights on the hub, devices, and generation.

use gemma4_text::device::{device, weights_dtype, Device};
use gemma4_text::generation::{chat_prompt, sampling, Generation, Sampling};
use gemma4_text::refusal::Refusal;
use gemma4_text::shards::{hub_load_safetensors, shard_files, IndexError, WeightMap};
use gemma4_text::term::{DType, F64Bits};

fn sorted(mut files: Vec<String>) -> Vec<String> {
    files.sort();
    files
}

#[test]
fn an_index_names_each_shard_once() {
    let json = r#"{
        "metadata": {"total_size": 12},
        "weight_map": {
            "a.weight": "model-00001-of-00002.safetensors",
            "b.weight": "model-00002-of-00002.safetensors",
            "c.weight": "model-00001-of-00002.safetensors"
        }
    }"#;
    assert_eq!(
        sorted(hub_load_safetensors(json.as_bytes()).unwrap()),
        vec!["model-00001-of-00002.safetensors", "model-00002-of-00002.safetensors"]
    );
}

#[test]
fn values_that_are_no_text_are_passed_over() {
    let json = r#"{"weight_map": {"a": 1, "b": "x", "c": null, "d": ["y"], "e": {"f": "z"}}}"#;
    assert_eq!(hub_load_safetensors(json.as_bytes()).unwrap(), vec!["x"]);
}

#[test]
fn an_empty_weight_map_names_no_files() {
    assert!(hub_load_safetensors(b"{\"weight_map\": {}}").unwrap().is_empty());
}

#[test]
fn escapes_in_names_are_read() {
    let json = r#"{"weight_map": {"a": "model\/0"}}"#;
    assert_eq!(hub_load_safetensors(json.as_bytes()).unwrap(), vec!["model/0"]);
}

#[test]
fn an_index_without_a_weight_map_is_refused() {
    assert!(matches!(hub_load_safetensors(b"{}"), Err(IndexError::NoWeightMap)));
    assert!(matches!(
        hub_load_safetensors(b"{\"weight\": {\"a\": \"x\"}}"),
        Err(IndexError::NoWeightMap)
    ));
    assert!(matches!(hub_load_safetensors(b"[1, 2]"), Err(IndexError::NoWeightMap)));
    assert!(matches!(hub_load_safetensors(b"\"weight_map\""), Err(IndexError::NoWeightMap)));
}

#[test]
fn a_weight_map_that_is_no_object_is_refused() {
    assert!(matches!(
        hub_load_safetensors(b"{\"weight_map\": [\"x\"]}"),
        Err(IndexError::NotAMap)
    ));
    assert!(matches!(
        hub_load_safetensors(b"{\"weight_map\": null}"),
        Err(IndexError::NotAMap)
    ));
}

#[test]
fn text_that_is_not_json_is_refused() {
    assert!(matches!(hub_load_safetensors(b""), Err(IndexError::Syntax(_))));
    assert!(matches!(
        hub_load_safetensors(b"{\"weight_map\": {\"a\": \"x\"}"),
        Err(IndexError::Syntax(_))
    ));
    assert!(matches!(
        hub_load_safetensors(b"{\"weight_map\": {}} trailing"),
        Err(IndexError::Syntax(_))
    ));
    match hub_load_safetensors(b"nul") {
        Err(IndexError::Syntax(e)) => assert!(e.to_string().contains("EOF")),
        _ => panic!("the text was read"),
    }
}

#[test]
fn shards_come_in_the_order_in_which_they_are_first_named() {
    let files = vec![
        Some(String::from("b")),
        None,
        Some(String::from("a")),
        Some(String::from("b")),
    ];
    assert_eq!(shard_files(&WeightMap::Files(files)).unwrap(), vec!["b", "a"]);
    assert!(matches!(shard_files(&WeightMap::Missing), Err(IndexError::NoWeightMap)));
    assert!(matches!(shard_files(&WeightMap::NotAMap), Err(IndexError::NotAMap)));
}

#[test]
fn the_first_gpu_is_used_unless_the_cpu_is_asked_for() {
    let notice = "Running on CPU; build with the cuda feature to use the GPU.";
    assert_eq!(device(true, true), (Device::Cpu, None));
    assert_eq!(device(true, false), (Device::Cpu, None));
    assert_eq!(device(false, true), (Device::Cuda(0), None));
    assert_eq!(device(false, false), (Device::Cpu, Some(notice)));
}

#[test]
fn weights_are_narrow_on_the_gpu_only() {
    assert_eq!(weights_dtype(Device::Cpu), DType::F32);
    assert_eq!(weights_dtype(Device::Cuda(0)), DType::BF16);
}

#[test]
fn the_refusal_of_the_decoder_has_a_message() {
    assert_eq!(
        Refusal::SharedKv.message(),
        Some("Gemma4 shared-KV layer ran before its source K/V state")
    );
    assert_eq!(Refusal::NoAxis.message(), None);
    assert_eq!(Refusal::Range { start: 1, len: 2, size: 2 }.message(), None);
    assert_eq!(Refusal::Rank { expected: 2, found: 1 }.message(), None);
}

#[test]
fn a_prompt_is_wrapped_as_a_turn() {
    assert_eq!(
        chat_prompt("Explain what CUDA threads are."),
        "<start_of_turn>user\nExplain what CUDA threads are.<end_of_turn>\n<start_of_turn>model\n"
    );
    assert_eq!(
        chat_prompt(""),
        "<start_of_turn>user\n<end_of_turn>\n<start_of_turn>model\n"
    );
}

#[test]
fn cutoffs_choose_the_sampling() {
    let t = F64Bits { bits: 0.7f64.to_bits() };
    let p = F64Bits { bits: 0.9f64.to_bits() };
    assert_eq!(sampling(true, t, Some(3), Some(p)), Sampling::ArgMax);
    assert_eq!(sampling(false, t, None, None), Sampling::All { temperature: t });
    assert_eq!(sampling(false, t, Some(3), None), Sampling::TopK { k: 3, temperature: t });
    assert_eq!(sampling(false, t, None, Some(p)), Sampling::TopP { p, temperature: t });
    assert_eq!(
        sampling(false, t, Some(3), Some(p)),
        Sampling::TopKThenTopP { k: 3, p, temperature: t }
    );
}

#[test]
fn a_generation_feeds_the_prompt_and_then_single_tokens() {
    let mut g = Generation::new(vec![5, 6, 7], 3, 1);
    assert_eq!(g.next_context(), Some(0));
    assert!(g.accept(8));
    assert_eq!(g.next_context(), Some(3));
    assert!(g.accept(9));
    assert_eq!(g.next_context(), Some(4));
    assert!(g.accept(4));
    assert_eq!(g.next_context(), None);
    assert_eq!(g.tokens, vec![5, 6, 7, 8, 9, 4]);
    assert_eq!(g.generated, 3);
    assert!(!g.ended);
}

#[test]
fn the_closing_token_ends_a_generation() {
    let mut g = Generation::new(vec![5], 10, 1);
    assert_eq!(g.next_context(), Some(0));
    assert!(!g.accept(1));
    assert!(g.ended);
    assert_eq!(g.next_context(), None);
    assert_eq!(g.tokens, vec![5, 1]);
}

#[test]
fn nothing_is_generated_where_nothing_is_asked_for() {
    let g = Generation::new(vec![5, 1], 0, 1);
    assert_eq!(g.next_context(), None);
}

#[test]
fn the_penalty_looks_at_the_last_tokens() {
    let g = Generation::new(vec![5, 6, 7], 3, 1);
    assert_eq!(g.penalty_context(2), 1);
    assert_eq!(g.penalty_context(3), 0);
    assert_eq!(g.penalty_context(64), 0);
    assert_eq!(g.penalty_context(0), 3);
}
