//! The sizes of a model.

use vstd::prelude::*;

verus! {

/// The sizes of a model, as its configuration gives them.
#[derive(Debug, Clone, Copy)]
pub struct ModelConfig {
    pub vocab_size: usize,
    pub hidden_size: usize,
    pub intermediate_size: usize,
    pub num_hidden_layers: usize,
    pub num_attention_heads: usize,
    pub num_key_value_heads: usize,
    pub head_dim: usize,
    pub num_local_experts: usize,
    pub num_experts_per_tok: usize,
    pub sliding_window: usize,
    /// The number of labels that the configuration lists.
    pub num_labels: usize,
}

impl ModelConfig {
    /// The number of classes: one for each label.
    pub fn num_classes(&self) -> (n: usize)
        ensures
            n == self.num_labels,
    {
        self.num_labels
    }

    /// The rows of the query projection.
    pub open spec fn q_rows(&self) -> int {
        self.num_attention_heads * self.head_dim
    }

    /// The rows of the key projection, and of the value projection.
    pub open spec fn kv_rows(&self) -> int {
        self.num_key_value_heads * self.head_dim
    }

    /// The rows of query, key and value projection in one.
    pub open spec fn qkv_rows(&self) -> int {
        (self.num_attention_heads + 2 * self.num_key_value_heads) * self.head_dim
    }

    /// The sizes of the tensors can be counted.
    pub open spec fn countable(&self) -> bool {
        &&& self.num_attention_heads + 2 * self.num_key_value_heads <= usize::MAX
        &&& self.qkv_rows() <= usize::MAX
        &&& 2 * self.intermediate_size <= usize::MAX
    }

    /// Decides whether the sizes of the tensors can be counted.
    pub fn is_countable(&self) -> (r: bool)
        ensures
            r == self.countable(),
    {
        if self.intermediate_size > usize::MAX / 2 {
            return false;
        }
        if self.num_key_value_heads > usize::MAX / 2 {
            return false;
        }
        match self.num_attention_heads.checked_add(2 * self.num_key_value_heads) {
            Some(heads) => match heads.checked_mul(self.head_dim) {
                Some(_) => true,
                None => false,
            },
            None => false,
        }
    }

    /// The rows of query, key and value projection make up those of all in one.
    pub proof fn law_rows_add_up(&self)
        ensures
            self.qkv_rows() == self.q_rows() + self.kv_rows() + self.kv_rows(),
            0 <= self.q_rows(),
            0 <= self.kv_rows(),
            (self.num_attention_heads + self.num_key_value_heads) * self.head_dim == self.q_rows()
                + self.kv_rows(),
    {
        let nq = self.num_attention_heads as int;
        let nkv = self.num_key_value_heads as int;
        let d = self.head_dim as int;
        assert((nq + 2 * nkv) * d == nq * d + nkv * d + nkv * d) by (nonlinear_arith);
        assert((nq + nkv) * d == nq * d + nkv * d) by (nonlinear_arith);
        assert(0 <= nq * d) by (nonlinear_arith)
            requires
                0 <= nq,
                0 <= d,
        ;
        assert(0 <= nkv * d) by (nonlinear_arith)
            requires
                0 <= nkv,
                0 <= d,
        ;
    }
}

} // verus!
