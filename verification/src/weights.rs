//! The tensors of a checkpoint: their names and sizes under each naming.

use vstd::prelude::*;

use crate::config::ModelConfig;
use crate::text;

verus! {

/// How the tensors of a checkpoint are named and packed. The numbers are the same.
#[derive(Debug, Clone, Copy, PartialEq, Eq, Structural)]
pub enum Naming {
    /// One tensor for query, key and value, norms named by scale, no bias on the
    /// classes.
    Custom,
    /// A tensor each for query, key and value, norms named by weight, and a bias on
    /// the classes.
    Hf,
}

/// What is said of a checkpoint of neither naming.
pub open spec fn no_naming() -> Seq<char> {
    "could not detect tensor naming convention: neither `embedding.weight` (openai/privacy-filter) nor `model.embed_tokens.weight` (HF MoE) found"@
}

/// Tells the naming of a checkpoint by which of the two embeddings it has:
/// `embedding.weight`, or else `model.embed_tokens.weight`.
pub fn detect_naming(has_embedding: bool, has_embed_tokens: bool) -> (r: Result<Naming, String>)
    ensures
        match r {
            Ok(naming) => if has_embedding {
                naming == Naming::Custom
            } else {
                has_embed_tokens && naming == Naming::Hf
            },
            Err(message) => !has_embedding && !has_embed_tokens && message@ == no_naming(),
        },
{
    if has_embedding {
        Ok(Naming::Custom)
    } else if has_embed_tokens {
        Ok(Naming::Hf)
    } else {
        Err(
            "could not detect tensor naming convention: neither `embedding.weight` (openai/privacy-filter) nor `model.embed_tokens.weight` (HF MoE) found".to_owned(),
        )
    }
}

/// A tensor to load.
#[derive(Debug)]
pub struct TensorSpec {
    pub name: String,
    pub dims: Vec<usize>,
}

/// The name of a tensor and its sizes.
#[verifier::ext_equal]
pub struct Named {
    pub name: Seq<char>,
    pub dims: Seq<int>,
}

impl View for TensorSpec {
    type V = Named;

    open spec fn view(&self) -> Named {
        Named { name: self.name@, dims: self.dims@.map_values(|n: usize| n as int) }
    }
}

/// What tensors to load are.
pub open spec fn named(tensors: Seq<TensorSpec>) -> Seq<Named> {
    tensors.map_values(|tensor: TensorSpec| tensor@)
}

/// A tensor of one size.
pub open spec fn of_one(name: Seq<char>, a: int) -> Named {
    Named { name, dims: seq![a] }
}

/// A tensor of two sizes.
pub open spec fn of_two(name: Seq<char>, a: int, b: int) -> Named {
    Named { name, dims: seq![a, b] }
}

/// A tensor of three sizes.
pub open spec fn of_three(name: Seq<char>, a: int, b: int, c: int) -> Named {
    Named { name, dims: seq![a, b, c] }
}

fn one(name: String, a: usize) -> (r: TensorSpec)
    ensures
        r@ == of_one(name@, a as int),
{
    let r = TensorSpec { name, dims: vec![a] };
    assert(r@ =~= of_one(name@, a as int));
    r
}

fn two(name: String, a: usize, b: usize) -> (r: TensorSpec)
    ensures
        r@ == of_two(name@, a as int, b as int),
{
    let r = TensorSpec { name, dims: vec![a, b] };
    assert(r@ =~= of_two(name@, a as int, b as int));
    r
}

fn three(name: String, a: usize, b: usize, c: usize) -> (r: TensorSpec)
    ensures
        r@ == of_three(name@, a as int, b as int, c as int),
{
    let r = TensorSpec { name, dims: vec![a, b, c] };
    assert(r@ =~= of_three(name@, a as int, b as int, c as int));
    r
}

/// The tensors outside the layers.
#[derive(Debug)]
pub struct HeadTensors {
    pub embedding: TensorSpec,
    pub final_norm: TensorSpec,
    pub unembedding: TensorSpec,
    pub unembedding_bias: Option<TensorSpec>,
}

/// The tensors outside the layers are those of a naming.
pub open spec fn are_head_tensors(naming: Naming, config: ModelConfig, t: HeadTensors) -> bool {
    let h = config.hidden_size as int;
    let classes = config.num_labels as int;
    match naming {
        Naming::Custom => {
            &&& t.embedding@ == of_two("embedding.weight"@, config.vocab_size as int, h)
            &&& t.final_norm@ == of_one("norm.scale"@, h)
            &&& t.unembedding@ == of_two("unembedding.weight"@, classes, h)
            &&& t.unembedding_bias is None
        },
        Naming::Hf => {
            &&& t.embedding@ == of_two("model.embed_tokens.weight"@, config.vocab_size as int, h)
            &&& t.final_norm@ == of_one("model.norm.weight"@, h)
            &&& t.unembedding@ == of_two("score.weight"@, classes, h)
            &&& t.unembedding_bias matches Some(bias) && bias@ == of_one("score.bias"@, classes)
        },
    }
}

/// The tensors outside the layers.
pub fn head_tensors(naming: Naming, config: &ModelConfig) -> (r: HeadTensors)
    ensures
        are_head_tensors(naming, *config, r),
{
    let h: usize = config.hidden_size;
    let classes: usize = config.num_classes();
    match naming {
        Naming::Custom => HeadTensors {
            embedding: two("embedding.weight".to_owned(), config.vocab_size, h),
            final_norm: one("norm.scale".to_owned(), h),
            unembedding: two("unembedding.weight".to_owned(), classes, h),
            unembedding_bias: None,
        },
        Naming::Hf => HeadTensors {
            embedding: two("model.embed_tokens.weight".to_owned(), config.vocab_size, h),
            final_norm: one("model.norm.weight".to_owned(), h),
            unembedding: two("score.weight".to_owned(), classes, h),
            unembedding_bias: Some(one("score.bias".to_owned(), classes)),
        },
    }
}

/// The name of a tensor in a layer.
pub open spec fn in_layer(naming: Naming, layer: nat, rest: Seq<char>) -> Seq<char> {
    (match naming {
        Naming::Custom => "block."@,
        Naming::Hf => "model.layers."@,
    }) + text::decimal(layer) + rest
}

/// The name of a tensor in a layer.
fn layer_name(naming: Naming, layer: usize, rest: &str) -> (r: String)
    ensures
        r@ == in_layer(naming, layer as nat, rest@),
{
    let mut r = match naming {
        Naming::Custom => "block.".to_owned(),
        Naming::Hf => "model.layers.".to_owned(),
    };
    r.append(text::write_decimal(layer).as_str());
    r.append(rest);
    r
}

/// Two layers do not share a tensor.
pub proof fn law_layers_have_their_own_tensors(
    naming: Naming,
    a: usize,
    b: usize,
    rest: Seq<char>,
)
    requires
        in_layer(naming, a as nat, rest) == in_layer(naming, b as nat, rest),
    ensures
        a == b,
{
    let prefix = match naming {
        Naming::Custom => "block."@,
        Naming::Hf => "model.layers."@,
    };
    let x = text::decimal(a as nat);
    let y = text::decimal(b as nat);
    let whole = in_layer(naming, a as nat, rest);
    assert(whole.subrange(prefix.len() as int, whole.len() - rest.len()) =~= x);
    assert(in_layer(naming, b as nat, rest).subrange(
        prefix.len() as int,
        whole.len() - rest.len(),
    ) =~= y);
    text::law_decimal_reads_back(a);
    text::law_decimal_reads_back(b);
}

/// The tensors of the attention in a layer. Query, key and value stand in one
/// tensor, or in three that make it up from top to bottom.
#[derive(Debug)]
pub struct AttentionTensors {
    pub norm: TensorSpec,
    pub qkv_weight: Vec<TensorSpec>,
    pub qkv_bias: Vec<TensorSpec>,
    pub out_weight: TensorSpec,
    pub out_bias: TensorSpec,
    pub sinks: TensorSpec,
}

/// The tensors of the attention in a layer are those of a naming.
pub open spec fn are_attention_tensors(
    naming: Naming,
    config: ModelConfig,
    layer: nat,
    t: AttentionTensors,
) -> bool {
    let h = config.hidden_size as int;
    let q = config.q_rows();
    let kv = config.kv_rows();
    let qkv = config.qkv_rows();
    let heads = config.num_attention_heads as int;
    match naming {
        Naming::Custom => {
            &&& t.norm@ == of_one(in_layer(naming, layer, ".attn.norm.scale"@), h)
            &&& named(t.qkv_weight@) == seq![
                of_two(in_layer(naming, layer, ".attn.qkv.weight"@), qkv, h),
            ]
            &&& named(t.qkv_bias@) == seq![
                of_one(in_layer(naming, layer, ".attn.qkv.bias"@), qkv),
            ]
            &&& t.out_weight@ == of_two(in_layer(naming, layer, ".attn.out.weight"@), h, q)
            &&& t.out_bias@ == of_one(in_layer(naming, layer, ".attn.out.bias"@), h)
            &&& t.sinks@ == of_one(in_layer(naming, layer, ".attn.sinks"@), heads)
        },
        Naming::Hf => {
            &&& t.norm@ == of_one(in_layer(naming, layer, ".input_layernorm.weight"@), h)
            &&& named(t.qkv_weight@) == seq![
                of_two(in_layer(naming, layer, ".self_attn.q_proj.weight"@), q, h),
                of_two(in_layer(naming, layer, ".self_attn.k_proj.weight"@), kv, h),
                of_two(in_layer(naming, layer, ".self_attn.v_proj.weight"@), kv, h),
            ]
            &&& named(t.qkv_bias@) == seq![
                of_one(in_layer(naming, layer, ".self_attn.q_proj.bias"@), q),
                of_one(in_layer(naming, layer, ".self_attn.k_proj.bias"@), kv),
                of_one(in_layer(naming, layer, ".self_attn.v_proj.bias"@), kv),
            ]
            &&& t.out_weight@ == of_two(in_layer(naming, layer, ".self_attn.o_proj.weight"@), h, q)
            &&& t.out_bias@ == of_one(in_layer(naming, layer, ".self_attn.o_proj.bias"@), h)
            &&& t.sinks@ == of_one(in_layer(naming, layer, ".self_attn.sinks"@), heads)
        },
    }
}

/// The tensors of the attention in a layer.
pub fn attention_tensors(naming: Naming, config: &ModelConfig, layer: usize) -> (r: AttentionTensors)
    requires
        config.countable(),
    ensures
        are_attention_tensors(naming, *config, layer as nat, r),
{
    proof {
        config.law_rows_add_up();
    }
    let h: usize = config.hidden_size;
    let nq: usize = config.num_attention_heads;
    let nkv: usize = config.num_key_value_heads;
    let d: usize = config.head_dim;
    let q: usize = nq * d;
    let kv: usize = nkv * d;
    let qkv: usize = (nq + 2 * nkv) * d;
    let r = match naming {
        Naming::Custom => AttentionTensors {
            norm: one(layer_name(naming, layer, ".attn.norm.scale"), h),
            qkv_weight: vec![two(layer_name(naming, layer, ".attn.qkv.weight"), qkv, h)],
            qkv_bias: vec![one(layer_name(naming, layer, ".attn.qkv.bias"), qkv)],
            out_weight: two(layer_name(naming, layer, ".attn.out.weight"), h, q),
            out_bias: one(layer_name(naming, layer, ".attn.out.bias"), h),
            sinks: one(layer_name(naming, layer, ".attn.sinks"), nq),
        },
        Naming::Hf => AttentionTensors {
            norm: one(layer_name(naming, layer, ".input_layernorm.weight"), h),
            qkv_weight: vec![
                two(layer_name(naming, layer, ".self_attn.q_proj.weight"), q, h),
                two(layer_name(naming, layer, ".self_attn.k_proj.weight"), kv, h),
                two(layer_name(naming, layer, ".self_attn.v_proj.weight"), kv, h),
            ],
            qkv_bias: vec![
                one(layer_name(naming, layer, ".self_attn.q_proj.bias"), q),
                one(layer_name(naming, layer, ".self_attn.k_proj.bias"), kv),
                one(layer_name(naming, layer, ".self_attn.v_proj.bias"), kv),
            ],
            out_weight: two(layer_name(naming, layer, ".self_attn.o_proj.weight"), h, q),
            out_bias: one(layer_name(naming, layer, ".self_attn.o_proj.bias"), h),
            sinks: one(layer_name(naming, layer, ".self_attn.sinks"), nq),
        },
    };
    proof {
        let at = layer as nat;
        match naming {
            Naming::Custom => {
                assert(named(r.qkv_weight@) =~= seq![
                    of_two(in_layer(naming, at, ".attn.qkv.weight"@), qkv as int, h as int),
                ]);
                assert(named(r.qkv_bias@) =~= seq![
                    of_one(in_layer(naming, at, ".attn.qkv.bias"@), qkv as int),
                ]);
            },
            Naming::Hf => {
                assert(named(r.qkv_weight@) =~= seq![
                    of_two(in_layer(naming, at, ".self_attn.q_proj.weight"@), q as int, h as int),
                    of_two(in_layer(naming, at, ".self_attn.k_proj.weight"@), kv as int, h as int),
                    of_two(in_layer(naming, at, ".self_attn.v_proj.weight"@), kv as int, h as int),
                ]);
                assert(named(r.qkv_bias@) =~= seq![
                    of_one(in_layer(naming, at, ".self_attn.q_proj.bias"@), q as int),
                    of_one(in_layer(naming, at, ".self_attn.k_proj.bias"@), kv as int),
                    of_one(in_layer(naming, at, ".self_attn.v_proj.bias"@), kv as int),
                ]);
            },
        }
    }
    r
}

/// The sum of the first sizes of tensors.
pub open spec fn rows(tensors: Seq<Named>) -> int
    decreases tensors.len(),
{
    if tensors.len() == 0 {
        0
    } else {
        rows(tensors.drop_last()) + tensors.last().dims[0]
    }
}

/// Under either naming the tensors of query, key and value have the same rows in all.
pub proof fn law_namings_pack_the_same_rows(
    naming: Naming,
    config: ModelConfig,
    layer: nat,
    t: AttentionTensors,
)
    requires
        are_attention_tensors(naming, config, layer, t),
    ensures
        rows(named(t.qkv_weight@)) == config.qkv_rows(),
        rows(named(t.qkv_bias@)) == config.qkv_rows(),
{
    config.law_rows_add_up();
    reveal_with_fuel(rows, 4);
    let w = named(t.qkv_weight@);
    let b = named(t.qkv_bias@);
    match naming {
        Naming::Custom => {
            assert(w.drop_last() =~= Seq::empty());
            assert(b.drop_last() =~= Seq::empty());
        },
        Naming::Hf => {
            assert(w.drop_last().drop_last().drop_last() =~= Seq::empty());
            assert(b.drop_last().drop_last().drop_last() =~= Seq::empty());
        },
    }
}

/// The tensors of the experts in a layer.
#[derive(Debug)]
pub struct MlpTensors {
    pub norm: TensorSpec,
    pub gate_weight: TensorSpec,
    pub gate_bias: TensorSpec,
    pub mlp1_weight: TensorSpec,
    pub mlp1_bias: TensorSpec,
    pub mlp2_weight: TensorSpec,
    pub mlp2_bias: TensorSpec,
}

/// The tensors of the experts in a layer are those of a naming.
pub open spec fn are_mlp_tensors(
    naming: Naming,
    config: ModelConfig,
    layer: nat,
    t: MlpTensors,
) -> bool {
    let h = config.hidden_size as int;
    let inter = config.intermediate_size as int;
    let ne = config.num_local_experts as int;
    match naming {
        Naming::Custom => {
            &&& t.norm@ == of_one(in_layer(naming, layer, ".mlp.norm.scale"@), h)
            &&& t.gate_weight@ == of_two(in_layer(naming, layer, ".mlp.gate.weight"@), ne, h)
            &&& t.gate_bias@ == of_one(in_layer(naming, layer, ".mlp.gate.bias"@), ne)
            &&& t.mlp1_weight@ == of_three(
                in_layer(naming, layer, ".mlp.swiglu.weight"@),
                ne,
                h,
                2 * inter,
            )
            &&& t.mlp1_bias@ == of_two(in_layer(naming, layer, ".mlp.swiglu.bias"@), ne, 2 * inter)
            &&& t.mlp2_weight@ == of_three(
                in_layer(naming, layer, ".mlp.out.weight"@),
                ne,
                inter,
                h,
            )
            &&& t.mlp2_bias@ == of_two(in_layer(naming, layer, ".mlp.out.bias"@), ne, h)
        },
        Naming::Hf => {
            &&& t.norm@ == of_one(in_layer(naming, layer, ".post_attention_layernorm.weight"@), h)
            &&& t.gate_weight@ == of_two(in_layer(naming, layer, ".mlp.router.weight"@), ne, h)
            &&& t.gate_bias@ == of_one(in_layer(naming, layer, ".mlp.router.bias"@), ne)
            &&& t.mlp1_weight@ == of_three(
                in_layer(naming, layer, ".mlp.experts.gate_up_proj"@),
                ne,
                h,
                2 * inter,
            )
            &&& t.mlp1_bias@ == of_two(
                in_layer(naming, layer, ".mlp.experts.gate_up_proj_bias"@),
                ne,
                2 * inter,
            )
            &&& t.mlp2_weight@ == of_three(
                in_layer(naming, layer, ".mlp.experts.down_proj"@),
                ne,
                inter,
                h,
            )
            &&& t.mlp2_bias@ == of_two(
                in_layer(naming, layer, ".mlp.experts.down_proj_bias"@),
                ne,
                h,
            )
        },
    }
}

/// The tensors of the experts in a layer.
pub fn mlp_tensors(naming: Naming, config: &ModelConfig, layer: usize) -> (r: MlpTensors)
    requires
        config.countable(),
    ensures
        are_mlp_tensors(naming, *config, layer as nat, r),
{
    let h: usize = config.hidden_size;
    let inter: usize = config.intermediate_size;
    let ne: usize = config.num_local_experts;
    match naming {
        Naming::Custom => MlpTensors {
            norm: one(layer_name(naming, layer, ".mlp.norm.scale"), h),
            gate_weight: two(layer_name(naming, layer, ".mlp.gate.weight"), ne, h),
            gate_bias: one(layer_name(naming, layer, ".mlp.gate.bias"), ne),
            mlp1_weight: three(layer_name(naming, layer, ".mlp.swiglu.weight"), ne, h, 2 * inter),
            mlp1_bias: two(layer_name(naming, layer, ".mlp.swiglu.bias"), ne, 2 * inter),
            mlp2_weight: three(layer_name(naming, layer, ".mlp.out.weight"), ne, inter, h),
            mlp2_bias: two(layer_name(naming, layer, ".mlp.out.bias"), ne, h),
        },
        Naming::Hf => MlpTensors {
            norm: one(layer_name(naming, layer, ".post_attention_layernorm.weight"), h),
            gate_weight: two(layer_name(naming, layer, ".mlp.router.weight"), ne, h),
            gate_bias: one(layer_name(naming, layer, ".mlp.router.bias"), ne),
            mlp1_weight: three(
                layer_name(naming, layer, ".mlp.experts.gate_up_proj"),
                ne,
                h,
                2 * inter,
            ),
            mlp1_bias: two(
                layer_name(naming, layer, ".mlp.experts.gate_up_proj_bias"),
                ne,
                2 * inter,
            ),
            mlp2_weight: three(layer_name(naming, layer, ".mlp.experts.down_proj"), ne, inter, h),
            mlp2_bias: two(layer_name(naming, layer, ".mlp.experts.down_proj_bias"), ne, h),
        },
    }
}

} // verus!
