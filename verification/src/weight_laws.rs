//! The names and the sizes of the tensors that a checkpoint of either naming holds.

use vstd::prelude::*;

use crate::config::ModelConfig;
use crate::text;
use crate::weights;
use crate::weights::{AttentionTensors, HeadTensors, MlpTensors, Naming, TensorSpec};

verus! {

/// A tensor has a name, and so many sizes.
pub open spec fn is_tensor(tensor: TensorSpec, name: Seq<char>, dims: Seq<int>) -> bool {
    &&& tensor.name@ == name
    &&& tensor.dims@.len() == dims.len()
    &&& forall|i: int| 0 <= i < dims.len() ==> #[trigger] tensor.dims@[i] == dims[i]
}

proof fn lemma_is_tensor(tensor: TensorSpec)
    ensures
        is_tensor(tensor, tensor@.name, tensor@.dims),
{
    assert forall|i: int| 0 <= i < tensor@.dims.len() implies #[trigger] tensor.dims@[i]
        == tensor@.dims[i] by {}
}

/// The tensors outside the layers: an embedding for each word of the vocabulary, a norm,
/// and a row for each class. Under one naming only, the classes have a bias.
pub proof fn law_tensors_outside_the_layers(naming: Naming, config: ModelConfig, t: HeadTensors)
    requires
        weights::are_head_tensors(naming, config, t),
    ensures
        ({
            let words = config.vocab_size as int;
            let hidden = config.hidden_size as int;
            let classes = config.num_labels as int;
            &&& naming is Custom ==> {
                &&& is_tensor(t.embedding, "embedding.weight"@, seq![words, hidden])
                &&& is_tensor(t.final_norm, "norm.scale"@, seq![hidden])
                &&& is_tensor(t.unembedding, "unembedding.weight"@, seq![classes, hidden])
                &&& t.unembedding_bias is None
            }
            &&& naming is Hf ==> {
                &&& is_tensor(t.embedding, "model.embed_tokens.weight"@, seq![words, hidden])
                &&& is_tensor(t.final_norm, "model.norm.weight"@, seq![hidden])
                &&& is_tensor(t.unembedding, "score.weight"@, seq![classes, hidden])
                &&& t.unembedding_bias matches Some(bias) && is_tensor(
                    bias,
                    "score.bias"@,
                    seq![classes],
                )
            }
        }),
{
    lemma_is_tensor(t.embedding);
    lemma_is_tensor(t.final_norm);
    lemma_is_tensor(t.unembedding);
    if let Some(bias) = t.unembedding_bias {
        lemma_is_tensor(bias);
    }
}

/// The name of a tensor in a layer: the naming's word for layers, the layer's number, and
/// the tensor's own name.
pub proof fn law_names_in_layers(layer: nat, rest: Seq<char>)
    ensures
        weights::in_layer(Naming::Custom, layer, rest) == "block."@ + text::decimal(layer) + rest,
        weights::in_layer(Naming::Hf, layer, rest) == "model.layers."@ + text::decimal(layer)
            + rest,
{
}

/// The tensors of the attention in a layer. The rows of queries, keys and values stand in
/// one tensor or in three, and there is a sink for each head.
pub proof fn law_attention_tensors(
    naming: Naming,
    config: ModelConfig,
    layer: nat,
    t: AttentionTensors,
)
    requires
        weights::are_attention_tensors(naming, config, layer, t),
    ensures
        ({
            let hidden = config.hidden_size as int;
            let heads = config.num_attention_heads as int;
            let q = heads * config.head_dim;
            let kv = config.num_key_value_heads * config.head_dim;
            let at = |rest: Seq<char>| weights::in_layer(naming, layer, rest);
            &&& naming is Custom ==> {
                &&& is_tensor(t.norm, at(".attn.norm.scale"@), seq![hidden])
                &&& t.qkv_weight@.len() == 1 && t.qkv_bias@.len() == 1
                &&& is_tensor(t.qkv_weight@[0], at(".attn.qkv.weight"@), seq![q + kv + kv, hidden])
                &&& is_tensor(t.qkv_bias@[0], at(".attn.qkv.bias"@), seq![q + kv + kv])
                &&& is_tensor(t.out_weight, at(".attn.out.weight"@), seq![hidden, q])
                &&& is_tensor(t.out_bias, at(".attn.out.bias"@), seq![hidden])
                &&& is_tensor(t.sinks, at(".attn.sinks"@), seq![heads])
            }
            &&& naming is Hf ==> {
                &&& is_tensor(t.norm, at(".input_layernorm.weight"@), seq![hidden])
                &&& t.qkv_weight@.len() == 3 && t.qkv_bias@.len() == 3
                &&& is_tensor(t.qkv_weight@[0], at(".self_attn.q_proj.weight"@), seq![q, hidden])
                &&& is_tensor(t.qkv_weight@[1], at(".self_attn.k_proj.weight"@), seq![kv, hidden])
                &&& is_tensor(t.qkv_weight@[2], at(".self_attn.v_proj.weight"@), seq![kv, hidden])
                &&& is_tensor(t.qkv_bias@[0], at(".self_attn.q_proj.bias"@), seq![q])
                &&& is_tensor(t.qkv_bias@[1], at(".self_attn.k_proj.bias"@), seq![kv])
                &&& is_tensor(t.qkv_bias@[2], at(".self_attn.v_proj.bias"@), seq![kv])
                &&& is_tensor(t.out_weight, at(".self_attn.o_proj.weight"@), seq![hidden, q])
                &&& is_tensor(t.out_bias, at(".self_attn.o_proj.bias"@), seq![hidden])
                &&& is_tensor(t.sinks, at(".self_attn.sinks"@), seq![heads])
            }
        }),
{
    config.law_rows_add_up();
    lemma_is_tensor(t.norm);
    lemma_is_tensor(t.out_weight);
    lemma_is_tensor(t.out_bias);
    lemma_is_tensor(t.sinks);
    let w = weights::named(t.qkv_weight@);
    let b = weights::named(t.qkv_bias@);
    assert(w.len() == t.qkv_weight@.len());
    assert(b.len() == t.qkv_bias@.len());
    assert forall|i: int| 0 <= i < w.len() implies #[trigger] w[i] == t.qkv_weight@[i]@ && is_tensor(
        t.qkv_weight@[i],
        w[i].name,
        w[i].dims,
    ) by {
        lemma_is_tensor(t.qkv_weight@[i]);
    }
    assert forall|i: int| 0 <= i < b.len() implies #[trigger] b[i] == t.qkv_bias@[i]@ && is_tensor(
        t.qkv_bias@[i],
        b[i].name,
        b[i].dims,
    ) by {
        lemma_is_tensor(t.qkv_bias@[i]);
    }
    assert(is_tensor(t.qkv_weight@[0], w[0].name, w[0].dims));
    assert(is_tensor(t.qkv_bias@[0], b[0].name, b[0].dims));
    if naming is Hf {
        assert(is_tensor(t.qkv_weight@[1], w[1].name, w[1].dims));
        assert(is_tensor(t.qkv_weight@[2], w[2].name, w[2].dims));
        assert(is_tensor(t.qkv_bias@[1], b[1].name, b[1].dims));
        assert(is_tensor(t.qkv_bias@[2], b[2].name, b[2].dims));
    }
}

/// The tensors of the experts in a layer: a row of scores for each expert, and for each
/// expert a matrix out to twice the inner size and one back from the inner size.
pub proof fn law_expert_tensors(naming: Naming, config: ModelConfig, layer: nat, t: MlpTensors)
    requires
        weights::are_mlp_tensors(naming, config, layer, t),
    ensures
        ({
            let hidden = config.hidden_size as int;
            let inner = config.intermediate_size as int;
            let experts = config.num_local_experts as int;
            let at = |rest: Seq<char>| weights::in_layer(naming, layer, rest);
            let custom = naming is Custom;
            &&& is_tensor(
                t.norm,
                at(if custom {
                    ".mlp.norm.scale"@
                } else {
                    ".post_attention_layernorm.weight"@
                }),
                seq![hidden],
            )
            &&& is_tensor(
                t.gate_weight,
                at(if custom {
                    ".mlp.gate.weight"@
                } else {
                    ".mlp.router.weight"@
                }),
                seq![experts, hidden],
            )
            &&& is_tensor(
                t.gate_bias,
                at(if custom {
                    ".mlp.gate.bias"@
                } else {
                    ".mlp.router.bias"@
                }),
                seq![experts],
            )
            &&& is_tensor(
                t.mlp1_weight,
                at(if custom {
                    ".mlp.swiglu.weight"@
                } else {
                    ".mlp.experts.gate_up_proj"@
                }),
                seq![experts, hidden, inner + inner],
            )
            &&& is_tensor(
                t.mlp1_bias,
                at(if custom {
                    ".mlp.swiglu.bias"@
                } else {
                    ".mlp.experts.gate_up_proj_bias"@
                }),
                seq![experts, inner + inner],
            )
            &&& is_tensor(
                t.mlp2_weight,
                at(if custom {
                    ".mlp.out.weight"@
                } else {
                    ".mlp.experts.down_proj"@
                }),
                seq![experts, inner, hidden],
            )
            &&& is_tensor(
                t.mlp2_bias,
                at(if custom {
                    ".mlp.out.bias"@
                } else {
                    ".mlp.experts.down_proj_bias"@
                }),
                seq![experts, hidden],
            )
        }),
{
    lemma_is_tensor(t.norm);
    lemma_is_tensor(t.gate_weight);
    lemma_is_tensor(t.gate_bias);
    lemma_is_tensor(t.mlp1_weight);
    lemma_is_tensor(t.mlp1_bias);
    lemma_is_tensor(t.mlp2_weight);
    lemma_is_tensor(t.mlp2_bias);
}

} // verus!
