use privstrip::attention::{
    bidirectional_sliding_mask, cached_mask, check_length, mask_bytes, qkv_slices, query_group,
    table_positions, MaskCache, MASK_CACHE_MAX_BYTES,
};
use privstrip::config::ModelConfig;
use privstrip::routing::{are_numbers, choose_experts, dispatch, rank_classes, top_k, Batch};
use privstrip::score::{NEG_INFINITY, ZERO};
use privstrip::weights::{attention_tensors, detect_naming, head_tensors, mlp_tensors, Naming, TensorSpec};

fn config() -> ModelConfig {
    ModelConfig {
        vocab_size: 200,
        hidden_size: 64,
        intermediate_size: 48,
        num_hidden_layers: 8,
        num_attention_heads: 14,
        num_key_value_heads: 2,
        head_dim: 8,
        num_local_experts: 16,
        num_experts_per_tok: 4,
        sliding_window: 128,
        num_labels: 217,
    }
}

fn shown(tensor: &TensorSpec) -> (&str, &[usize]) {
    (tensor.name.as_str(), tensor.dims.as_slice())
}

fn bits(values: &[f32]) -> Vec<u32> {
    values.iter().map(|v| v.to_bits()).collect()
}

#[test]
fn classes_come_from_the_labels() {
    assert_eq!(config().num_classes(), 217);
}

#[test]
fn sizes_are_countable() {
    assert!(config().is_countable());
    assert!(!ModelConfig { head_dim: usize::MAX, ..config() }.is_countable());
    assert!(!ModelConfig { num_key_value_heads: usize::MAX, head_dim: 0, ..config() }.is_countable());
    assert!(!ModelConfig { intermediate_size: usize::MAX, ..config() }.is_countable());
    assert!(ModelConfig { head_dim: 0, ..config() }.is_countable());
}

#[test]
fn naming_is_detected() {
    assert_eq!(detect_naming(true, false).unwrap(), Naming::Custom);
    assert_eq!(detect_naming(true, true).unwrap(), Naming::Custom);
    assert_eq!(detect_naming(false, true).unwrap(), Naming::Hf);
    assert_eq!(
        detect_naming(false, false).unwrap_err(),
        "could not detect tensor naming convention: neither `embedding.weight` (openai/privacy-filter) \
         nor `model.embed_tokens.weight` (HF MoE) found"
    );
}

#[test]
fn head_tensor_names() {
    let custom = head_tensors(Naming::Custom, &config());
    assert_eq!(shown(&custom.embedding), ("embedding.weight", &[200, 64][..]));
    assert_eq!(shown(&custom.final_norm), ("norm.scale", &[64][..]));
    assert_eq!(shown(&custom.unembedding), ("unembedding.weight", &[217, 64][..]));
    assert!(custom.unembedding_bias.is_none());
    let hf = head_tensors(Naming::Hf, &config());
    assert_eq!(shown(&hf.embedding), ("model.embed_tokens.weight", &[200, 64][..]));
    assert_eq!(shown(&hf.final_norm), ("model.norm.weight", &[64][..]));
    assert_eq!(shown(&hf.unembedding), ("score.weight", &[217, 64][..]));
    assert_eq!(shown(&hf.unembedding_bias.unwrap()), ("score.bias", &[217][..]));
}

#[test]
fn attention_tensor_names() {
    let custom = attention_tensors(Naming::Custom, &config(), 0);
    assert_eq!(shown(&custom.norm), ("block.0.attn.norm.scale", &[64][..]));
    assert_eq!(custom.qkv_weight.len(), 1);
    assert_eq!(shown(&custom.qkv_weight[0]), ("block.0.attn.qkv.weight", &[144, 64][..]));
    assert_eq!(shown(&custom.qkv_bias[0]), ("block.0.attn.qkv.bias", &[144][..]));
    assert_eq!(shown(&custom.out_weight), ("block.0.attn.out.weight", &[64, 112][..]));
    assert_eq!(shown(&custom.out_bias), ("block.0.attn.out.bias", &[64][..]));
    assert_eq!(shown(&custom.sinks), ("block.0.attn.sinks", &[14][..]));
    let hf = attention_tensors(Naming::Hf, &config(), 10);
    assert_eq!(shown(&hf.norm), ("model.layers.10.input_layernorm.weight", &[64][..]));
    let weights: Vec<_> = hf.qkv_weight.iter().map(shown).collect();
    assert_eq!(
        weights,
        vec![
            ("model.layers.10.self_attn.q_proj.weight", &[112, 64][..]),
            ("model.layers.10.self_attn.k_proj.weight", &[16, 64][..]),
            ("model.layers.10.self_attn.v_proj.weight", &[16, 64][..]),
        ]
    );
    let biases: Vec<_> = hf.qkv_bias.iter().map(shown).collect();
    assert_eq!(
        biases,
        vec![
            ("model.layers.10.self_attn.q_proj.bias", &[112][..]),
            ("model.layers.10.self_attn.k_proj.bias", &[16][..]),
            ("model.layers.10.self_attn.v_proj.bias", &[16][..]),
        ]
    );
    assert_eq!(shown(&hf.out_weight), ("model.layers.10.self_attn.o_proj.weight", &[64, 112][..]));
    assert_eq!(shown(&hf.out_bias), ("model.layers.10.self_attn.o_proj.bias", &[64][..]));
    assert_eq!(shown(&hf.sinks), ("model.layers.10.self_attn.sinks", &[14][..]));
}

#[test]
fn namings_pack_the_same_rows() {
    let total = |tensors: &[TensorSpec]| tensors.iter().map(|t| t.dims[0]).sum::<usize>();
    let custom = attention_tensors(Naming::Custom, &config(), 3);
    let hf = attention_tensors(Naming::Hf, &config(), 3);
    assert_eq!(total(&custom.qkv_weight), total(&hf.qkv_weight));
    assert_eq!(total(&custom.qkv_bias), total(&hf.qkv_bias));
    assert_ne!(custom.sinks.name, attention_tensors(Naming::Custom, &config(), 33).sinks.name);
}

#[test]
fn mlp_tensor_names() {
    let custom = mlp_tensors(Naming::Custom, &config(), 7);
    assert_eq!(shown(&custom.norm), ("block.7.mlp.norm.scale", &[64][..]));
    assert_eq!(shown(&custom.gate_weight), ("block.7.mlp.gate.weight", &[16, 64][..]));
    assert_eq!(shown(&custom.gate_bias), ("block.7.mlp.gate.bias", &[16][..]));
    assert_eq!(shown(&custom.mlp1_weight), ("block.7.mlp.swiglu.weight", &[16, 64, 96][..]));
    assert_eq!(shown(&custom.mlp1_bias), ("block.7.mlp.swiglu.bias", &[16, 96][..]));
    assert_eq!(shown(&custom.mlp2_weight), ("block.7.mlp.out.weight", &[16, 48, 64][..]));
    assert_eq!(shown(&custom.mlp2_bias), ("block.7.mlp.out.bias", &[16, 64][..]));
    let hf = mlp_tensors(Naming::Hf, &config(), 7);
    assert_eq!(shown(&hf.norm), ("model.layers.7.post_attention_layernorm.weight", &[64][..]));
    assert_eq!(shown(&hf.gate_weight), ("model.layers.7.mlp.router.weight", &[16, 64][..]));
    assert_eq!(shown(&hf.gate_bias), ("model.layers.7.mlp.router.bias", &[16][..]));
    assert_eq!(shown(&hf.mlp1_weight), ("model.layers.7.mlp.experts.gate_up_proj", &[16, 64, 96][..]));
    assert_eq!(shown(&hf.mlp1_bias), ("model.layers.7.mlp.experts.gate_up_proj_bias", &[16, 96][..]));
    assert_eq!(shown(&hf.mlp2_weight), ("model.layers.7.mlp.experts.down_proj", &[16, 48, 64][..]));
    assert_eq!(shown(&hf.mlp2_bias), ("model.layers.7.mlp.experts.down_proj_bias", &[16, 64][..]));
}

#[test]
fn slices_of_a_projection() {
    let s = qkv_slices(&config());
    assert_eq!((s.q_start, s.q_len), (0, 112));
    assert_eq!((s.k_start, s.k_len), (112, 16));
    assert_eq!((s.v_start, s.v_len), (128, 16));
    assert_eq!(query_group(&config()), 7);
}

#[test]
fn long_inputs_are_refused() {
    assert_eq!(table_positions(4096), 4096);
    assert_eq!(table_positions(131072), 16384);
    assert!(check_length(16384, 16384).is_ok());
    assert_eq!(
        check_length(16385, 16384).unwrap_err(),
        "input is 16385 tokens but RoPE table is sized for 16384; raise the cap in build_yarn_rope or chunk the input"
    );
}

#[test]
fn sliding_mask() {
    let (o, x) = (ZERO, NEG_INFINITY);
    assert_eq!(
        bidirectional_sliding_mask(4, 1),
        vec![o, o, x, x, o, o, o, x, x, o, o, o, x, x, o, o]
    );
    assert_eq!(bidirectional_sliding_mask(2, 0), vec![o, x, x, o]);
    assert_eq!(bidirectional_sliding_mask(2, usize::MAX), vec![o; 4]);
    assert_eq!(bidirectional_sliding_mask(0, 3), Vec::<u32>::new());
    assert_eq!(f32::from_bits(x), f32::NEG_INFINITY);
    assert_eq!(f32::from_bits(o).to_bits(), 0f32.to_bits());
}

#[test]
fn mask_is_symmetric() {
    let mask = bidirectional_sliding_mask(7, 2);
    for i in 0..7 {
        assert_eq!(mask[i * 7 + i], ZERO);
        for j in 0..7 {
            assert_eq!(mask[i * 7 + j], mask[j * 7 + i]);
        }
    }
}

#[test]
fn mask_memory() {
    assert_eq!(mask_bytes(0), 0);
    assert_eq!(mask_bytes(3), 36);
    assert_eq!(mask_bytes(16384), 1 << 30);
    assert_eq!(mask_bytes(usize::MAX), usize::MAX);
}

#[test]
fn cache_stays_within_its_bound() {
    let mut cache: MaskCache<&str> = MaskCache::new();
    assert!(cache.get(5).is_none());
    cache.offer(16384, "big");
    cache.offer(5, "small");
    assert_eq!(cache.get(16384), Some(&"big"));
    assert_eq!(cache.get(5), Some(&"small"));
    assert_eq!(cache.cache_bytes(), (1 << 30) + 100);
    cache.offer(5, "other");
    assert_eq!(cache.get(5), Some(&"small"));
    cache.offer(40000, "too big");
    assert_eq!(cache.get(40000), None);
    assert_eq!(cache.get(5), Some(&"small"));
    cache.offer(16385, "one too many");
    assert_eq!(cache.get(16384), None);
    assert_eq!(cache.get(5), None);
    assert_eq!(cache.get(16385), Some(&"one too many"));
    assert!(cache.cache_bytes() <= MASK_CACHE_MAX_BYTES);
}

#[test]
fn greatest_scores() {
    let scores = bits(&[0.1, 0.9, -0.5, 0.9, 0.3]);
    let (places, values) = top_k(&scores, 3);
    assert_eq!(places, vec![1, 3, 4]);
    assert_eq!(values, bits(&[0.9, 0.9, 0.3]));
    assert_eq!(top_k(&scores, 9).0, vec![1, 3, 4, 0, 2]);
    assert_eq!(top_k(&scores, 0).0, Vec::<usize>::new());
    assert_eq!(top_k(&bits(&[0.0, -0.0, f32::INFINITY, f32::NEG_INFINITY]), 4).0, vec![2, 0, 1, 3]);
    let ranked = rank_classes(&bits(&[-3.0, -1.0, -2.0]));
    assert_eq!(ranked.iter().map(|p| p.0).collect::<Vec<_>>(), vec![1, 2, 0]);
    assert_eq!(ranked[0].1, (-1.0f32).to_bits());
}

#[test]
fn numbers_are_told_from_nan() {
    assert!(are_numbers(&bits(&[0.0, f32::INFINITY])));
    assert!(!are_numbers(&bits(&[0.0, f32::NAN])));
    assert!(!are_numbers(&bits(&[-f32::NAN])));
    assert!(are_numbers(&[]));
}

#[test]
fn experts_are_chosen() {
    let rows = vec![bits(&[0.0, 2.0, 1.0]), bits(&[3.0, -1.0, 4.0])];
    let (experts, logits) = choose_experts(&rows, 2, 3);
    assert_eq!(experts, vec![1, 2, 2, 0]);
    assert_eq!(logits, bits(&[2.0, 1.0, 4.0, 3.0]));
}

#[test]
fn choices_are_dispatched() {
    let d = dispatch(&[2, 0, 2, 1], 2, 4);
    assert_eq!(d.order, vec![1, 3, 0, 2]);
    assert_eq!(d.token_idx, vec![0, 1, 0, 1]);
    assert_eq!(d.bucket_offsets, vec![0, 1, 2, 4, 4]);
    assert_eq!(
        d.batches,
        vec![
            Batch { expert: 0, start: 0, len: 1 },
            Batch { expert: 1, start: 1, len: 1 },
            Batch { expert: 2, start: 2, len: 2 },
        ]
    );
    let none = dispatch(&[], 4, 2);
    assert_eq!(none.order.len(), 0);
    assert_eq!(none.bucket_offsets, vec![0, 0, 0]);
}

#[test]
fn every_choice_is_dispatched_once() {
    let experts: Vec<u32> = (0..40u32).map(|i| (i * 7 + i / 3) % 5).collect();
    let d = dispatch(&experts, 4, 5);
    let mut seen = d.order.clone();
    seen.sort();
    assert_eq!(seen, (0..40).collect::<Vec<usize>>());
    for e in 0..5 {
        let bucket = &d.order[d.bucket_offsets[e]..d.bucket_offsets[e + 1]];
        assert!(bucket.iter().all(|&i| experts[i] == e as u32));
        assert!(bucket.windows(2).all(|w| w[0] < w[1]));
    }
}

#[test]
fn answers_do_not_depend_on_hits() {
    let mut cache: MaskCache<Vec<u32>> = MaskCache::new();
    let mut made: usize = 0;
    for t in [2, 3, 2, 3, 1, 2] {
        let mask = cached_mask(&mut cache, t, 1, |bits| {
            made += 1;
            Ok::<Vec<u32>, String>(bits)
        });
        assert_eq!(mask.unwrap(), bidirectional_sliding_mask(t, 1));
        assert!(cache.cache_bytes() <= MASK_CACHE_MAX_BYTES);
    }
    assert_eq!(made, 3);
    assert_eq!(cache.cache_bytes(), mask_bytes(1) + mask_bytes(2) + mask_bytes(3));
    let failed = cached_mask(&mut cache, 4, 1, |_| Err::<Vec<u32>, String>("no room".to_string()));
    assert_eq!(failed.unwrap_err(), "no room");
    assert!(cache.get(4).is_none());
}

#[test]
fn nan_scores_stay_where_they_come() {
    let places = |scores: &[f32]| -> Vec<usize> {
        rank_classes(&bits(scores)).into_iter().map(|(place, _)| place).collect()
    };
    assert_eq!(places(&[f32::NAN, 1.0, 2.0]), vec![0, 2, 1]);
    assert_eq!(places(&[1.0, 2.0, 3.0]), vec![2, 1, 0]);
}
