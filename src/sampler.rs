use vstd::prelude::*;

verus! {

/// One stage of a sampler chain. The stages that take floating-point
/// parameters carry none here: the driver attaches them from its settings.
#[derive(Debug, Clone, Copy, PartialEq, Eq, Structural)]
pub enum SamplerStage {
    /// Repetition, frequency and presence penalties over the last `last_n` tokens.
    Penalties { last_n: i32 },
    /// Keep the `k` most likely tokens.
    TopK { k: i32 },
    /// Keep the smallest set whose probability reaches `top_p` (at least one token).
    TopP,
    /// Drop tokens less likely than `min_p` times the best (at least one token kept).
    MinP,
    /// Scale logits by the temperature.
    Temperature,
    /// Draw a token at random, seeded.
    Dist { seed: u32 },
    /// Take the most likely token.
    Greedy,
}

/// What decides the shape of a sampler chain, with the floating-point
/// comparisons already made.
#[derive(Debug, Clone, Copy, PartialEq, Eq, Structural)]
pub struct ChainChoice {
    /// Some penalty differs from its neutral value (repeat 1, frequency 0, presence 0).
    pub penalties: bool,
    pub repeat_last_n: i32,
    pub top_k: i32,
    /// `top_p < 1`.
    pub top_p_below_one: bool,
    /// `min_p > 0`.
    pub min_p_positive: bool,
    /// `temperature > 0`.
    pub temperature_positive: bool,
    pub seed: Option<u32>,
}

pub open spec fn stage_if(b: bool, s: SamplerStage) -> Seq<SamplerStage> {
    if b {
        seq![s]
    } else {
        Seq::empty()
    }
}

/// The chain: penalties first, then the truncating filters, then either
/// temperature and a seeded draw (seed 0 when none is given) or the greedy
/// pick.
pub open spec fn chain_plan(c: ChainChoice) -> Seq<SamplerStage> {
    stage_if(c.penalties, SamplerStage::Penalties { last_n: c.repeat_last_n })
        + stage_if(c.top_k > 0, SamplerStage::TopK { k: c.top_k })
        + stage_if(c.top_p_below_one, SamplerStage::TopP)
        + stage_if(c.min_p_positive, SamplerStage::MinP)
        + if c.temperature_positive {
            seq![SamplerStage::Temperature, SamplerStage::Dist { seed: match c.seed {
                Some(s) => s,
                None => 0,
            } }]
        } else {
            seq![SamplerStage::Greedy]
        }
}

/// The stages of the sampler chain for `c`, in order.
pub fn plan_sampler_chain(c: ChainChoice) -> (r: Vec<SamplerStage>)
    ensures
        r@ == chain_plan(c),
        !c.temperature_positive ==> r@.last() == SamplerStage::Greedy,
{
    let mut v: Vec<SamplerStage> = Vec::new();
    if c.penalties {
        v.push(SamplerStage::Penalties { last_n: c.repeat_last_n });
    }
    if c.top_k > 0 {
        v.push(SamplerStage::TopK { k: c.top_k });
    }
    if c.top_p_below_one {
        v.push(SamplerStage::TopP);
    }
    if c.min_p_positive {
        v.push(SamplerStage::MinP);
    }
    if c.temperature_positive {
        v.push(SamplerStage::Temperature);
        let seed = match c.seed {
            Some(s) => s,
            None => 0,
        };
        v.push(SamplerStage::Dist { seed });
    } else {
        v.push(SamplerStage::Greedy);
    }
    assert(v@ =~= chain_plan(c));
    v
}

} // verus!
