//! The fixed parameters of an all-to-all context.

use vstd::prelude::*;
use crate::arith::{align_up, align_up_spec, ceil_div, ceil_div_spec};
use crate::cluster::Cluster;
use crate::workspace::{TensorRequest, WORD_BYTES};

verus! {

/// The alignment of the parts of a token in the exchange buffers, in bytes.
pub const TOKEN_ALIGNMENT: usize = 16;

/// The sizes and limits that a context is made with.
#[derive(Clone, Copy, Debug, PartialEq, Eq, Structural)]
pub struct ContextConfig {
    pub hidden_dim: usize,
    pub hidden_dim_scale: usize,
    pub in_elemsize: usize,
    pub out_elemsize: usize,
    pub scale_elemsize: usize,
    pub num_experts: usize,
    pub max_num_tokens: usize,
    pub max_recv_tokens: usize,
    pub max_tokens_per_expert: usize,
    pub expert_padding: usize,
    pub num_experts_per_token: usize,
    pub max_private_tokens: usize,
    pub rank: usize,
    pub dp_size: usize,
    pub node_size: usize,
    pub world_size: usize,
}

impl ContextConfig {
    /// The cluster as the configured rank sees it.
    pub open spec fn cluster(self) -> Cluster {
        Cluster {
            dp_group: (self.rank as int / self.dp_size as int) as usize,
            dp_rank: (self.rank as int % self.dp_size as int) as usize,
            dp_size: self.dp_size,
            node_size: self.node_size,
            world_size: self.world_size,
            num_experts: self.num_experts,
        }
    }

    /// The number of experts in a full block.
    pub open spec fn local_experts(self) -> int {
        ceil_div_spec(self.num_experts as int, self.world_size as int / self.dp_size as int)
    }

    /// Whether there is at least one group, so that experts can be dealt out.
    pub open spec fn has_groups(self) -> bool {
        0 < self.dp_size <= self.world_size
    }

    /// The size of a token on its way to an expert: the activations, their scales and a header,
    /// each aligned.
    pub open spec fn dispatch_token_dim(self) -> int {
        align_up_spec(self.hidden_dim * self.in_elemsize, TOKEN_ALIGNMENT as int) + align_up_spec(
            self.hidden_dim_scale * self.scale_elemsize,
            TOKEN_ALIGNMENT as int,
        ) + TOKEN_ALIGNMENT
    }

    /// The size of a token on its way back, aligned.
    pub open spec fn combine_token_dim(self) -> int {
        align_up_spec(self.hidden_dim * self.out_elemsize, TOKEN_ALIGNMENT as int)
    }

    /// The tensors of the low-latency workspace.
    pub open spec fn workspace_requests(self) -> Seq<TensorRequest> {
        let experts = self.local_experts() as usize;
        let word = WORD_BYTES as int;
        let plain = seq![
            TensorRequest {
                name: "expert_num_tokens"@,
                shape: seq![experts],
                dtype: "int32"@,
                element_size: word,
            },
            TensorRequest {
                name: "expert_x"@,
                shape: seq![experts, self.max_tokens_per_expert, self.hidden_dim],
                dtype: "activation"@,
                element_size: self.in_elemsize as int,
            },
            TensorRequest {
                name: "indices"@,
                shape: seq![self.max_num_tokens, self.num_experts_per_token],
                dtype: "uint32"@,
                element_size: word,
            },
            TensorRequest {
                name: "weights"@,
                shape: seq![self.max_num_tokens, self.num_experts_per_token],
                dtype: "float32"@,
                element_size: word,
            },
            TensorRequest {
                name: "dp_x"@,
                shape: seq![self.max_num_tokens, self.hidden_dim],
                dtype: "activation"@,
                element_size: self.in_elemsize as int,
            },
        ];
        let scales = seq![
            TensorRequest {
                name: "expert_x_scale"@,
                shape: seq![experts, self.max_tokens_per_expert, self.hidden_dim_scale],
                dtype: "scale"@,
                element_size: self.scale_elemsize as int,
            },
            TensorRequest {
                name: "dp_x_scale"@,
                shape: seq![self.max_num_tokens, self.hidden_dim_scale],
                dtype: "scale"@,
                element_size: self.scale_elemsize as int,
            },
        ];
        if self.scale_elemsize != 0 {
            plain + scales
        } else {
            plain
        }
    }

    /// The size of a token on its way to an expert, in bytes.
    pub fn get_dispatch_token_dim(&self) -> (dim: usize)
        requires
            self.hidden_dim * self.in_elemsize <= usize::MAX,
            self.hidden_dim_scale * self.scale_elemsize <= usize::MAX,
            self.dispatch_token_dim() <= usize::MAX,
        ensures
            dim == self.dispatch_token_dim(),
    {
        proof {
            assert(0 <= self.hidden_dim * self.in_elemsize) by (nonlinear_arith);
            assert(0 <= self.hidden_dim_scale * self.scale_elemsize) by (nonlinear_arith);
            crate::arith::lemma_ceil_div(
                self.hidden_dim * self.in_elemsize,
                TOKEN_ALIGNMENT as int,
            );
            crate::arith::lemma_ceil_div(
                self.hidden_dim_scale * self.scale_elemsize,
                TOKEN_ALIGNMENT as int,
            );
        }
        let token_dim: usize = align_up(self.hidden_dim * self.in_elemsize, TOKEN_ALIGNMENT);
        let scale_dim: usize = align_up(
            self.hidden_dim_scale * self.scale_elemsize,
            TOKEN_ALIGNMENT,
        );
        token_dim + scale_dim + TOKEN_ALIGNMENT
    }

    /// The size of a token on its way back, in bytes.
    pub fn get_combine_token_dim(&self) -> (dim: usize)
        requires
            self.hidden_dim * self.out_elemsize <= usize::MAX,
            self.combine_token_dim() <= usize::MAX,
        ensures
            dim == self.combine_token_dim(),
    {
        proof {
            assert(0 <= self.hidden_dim * self.out_elemsize) by (nonlinear_arith);
        }
        align_up(self.hidden_dim * self.out_elemsize, TOKEN_ALIGNMENT)
    }

    /// This rank's place in the cluster.
    pub fn get_cluster(&self) -> (cluster: Cluster)
        requires
            0 < self.dp_size,
        ensures
            cluster == self.cluster(),
    {
        proof {
            vstd::arithmetic::div_mod::lemma_div_pos_is_pos(
                self.rank as int,
                self.dp_size as int,
            );
            vstd::arithmetic::div_mod::lemma_div_is_ordered_by_denominator(
                self.rank as int,
                1,
                self.dp_size as int,
            );
        }
        Cluster {
            dp_group: self.rank / self.dp_size,
            dp_rank: self.rank % self.dp_size,
            dp_size: self.dp_size,
            node_size: self.node_size,
            world_size: self.world_size,
            num_experts: self.num_experts,
        }
    }

    /// The number of experts in a full block.
    pub fn num_local_experts(&self) -> (experts: usize)
        requires
            self.has_groups(),
        ensures
            experts == self.local_experts(),
    {
        proof {
            lemma_has_groups(*self);
        }
        let num_ep_groups: usize = self.world_size / self.dp_size;
        ceil_div(self.num_experts, num_ep_groups)
    }
}

/// With a group to deal experts to, the number of groups is positive.
pub proof fn lemma_has_groups(config: ContextConfig)
    requires
        config.has_groups(),
    ensures
        0 < config.world_size as int / config.dp_size as int <= config.world_size,
        0 <= config.local_experts() <= config.num_experts,
        config.rank == config.cluster().rank(),
        config.cluster().dp_group == config.rank as int / config.dp_size as int,
        config.cluster().dp_rank == config.rank as int % config.dp_size as int,
        config.cluster().dp_rank < config.dp_size,
{
    let dp = config.dp_size as int;
    let world = config.world_size as int;
    let rank = config.rank as int;
    vstd::arithmetic::div_mod::lemma_fundamental_div_mod(world, dp);
    assert(0 < world / dp <= world) by (nonlinear_arith)
        requires
            world == dp * (world / dp) + world % dp,
            0 <= world % dp < dp,
            0 < dp <= world,
    ;
    crate::arith::lemma_ceil_div(config.num_experts as int, world / dp);
    vstd::arithmetic::div_mod::lemma_fundamental_div_mod(rank, dp);
    assert(0 <= rank / dp <= rank && (rank / dp) * dp == dp * (rank / dp)) by (nonlinear_arith)
        requires
            rank == dp * (rank / dp) + rank % dp,
            0 <= rank % dp < dp,
            0 < dp,
            0 <= rank,
    ;
}

} // verus!
