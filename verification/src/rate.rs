//! What a model charges, and what usage costs at that rate.
use crate::binary64::Binary64;
use vstd::prelude::*;

verus! {

/// Tokens by the class that they are billed in. `input_tokens` counts only
/// tokens that were not served from cache, so the four classes do not overlap.
#[derive(Clone, Copy, Debug, PartialEq, Eq, Structural)]
pub struct TokenUsage {
    pub input_tokens: u64,
    pub output_tokens: u64,
    pub cache_creation_input_tokens: u64,
    pub cache_read_input_tokens: u64,
}

/// Token counts without a limit, by class.
pub struct TokenCount {
    pub input: nat,
    pub output: nat,
    pub cache_creation: nat,
    pub cache_read: nat,
}

impl TokenCount {
    pub open spec fn none() -> TokenCount {
        TokenCount { input: 0, output: 0, cache_creation: 0, cache_read: 0 }
    }

    pub open spec fn plus(self, usage: TokenUsage) -> TokenCount {
        TokenCount {
            input: self.input + usage.input_tokens as nat,
            output: self.output + usage.output_tokens as nat,
            cache_creation: self.cache_creation + usage.cache_creation_input_tokens as nat,
            cache_read: self.cache_read + usage.cache_read_input_tokens as nat,
        }
    }

    /// Whether each class can be counted in 64 bits.
    pub open spec fn fits(self) -> bool {
        &&& self.input <= u64::MAX
        &&& self.output <= u64::MAX
        &&& self.cache_creation <= u64::MAX
        &&& self.cache_read <= u64::MAX
    }
}

impl View for TokenUsage {
    type V = TokenCount;

    open spec fn view(&self) -> TokenCount {
        TokenCount {
            input: self.input_tokens as nat,
            output: self.output_tokens as nat,
            cache_creation: self.cache_creation_input_tokens as nat,
            cache_read: self.cache_read_input_tokens as nat,
        }
    }
}

impl Default for TokenUsage {
    fn default() -> (usage: TokenUsage)
        ensures
            usage@ == TokenCount::none(),
    {
        TokenUsage {
            input_tokens: 0,
            output_tokens: 0,
            cache_creation_input_tokens: 0,
            cache_read_input_tokens: 0,
        }
    }
}

impl TokenUsage {
    /// All tokens, whatever their class.
    pub open spec fn total(self) -> nat {
        (self.input_tokens + self.output_tokens + self.cache_read_input_tokens
            + self.cache_creation_input_tokens) as nat
    }

    /// Class by class, the tokens of both.
    pub fn plus(self, other: TokenUsage) -> (sum: TokenUsage)
        requires
            self@.plus(other).fits(),
        ensures
            sum@ == self@.plus(other),
    {
        TokenUsage {
            input_tokens: self.input_tokens + other.input_tokens,
            output_tokens: self.output_tokens + other.output_tokens,
            cache_creation_input_tokens: self.cache_creation_input_tokens
                + other.cache_creation_input_tokens,
            cache_read_input_tokens: self.cache_read_input_tokens + other.cache_read_input_tokens,
        }
    }

    /// All tokens, whatever their class.
    pub fn total_tokens(&self) -> (total: u64)
        requires
            self.total() <= u64::MAX,
        ensures
            total == self.total(),
    {
        self.input_tokens + self.output_tokens + self.cache_read_input_tokens
            + self.cache_creation_input_tokens
    }
}

/// What a model charges, in dollars per single token.
///
/// Four rates rather than one, because cached and uncached input are billed
/// very differently; a blended rate would misreport any agent that leans on
/// prompt caching, which is most of them.
#[derive(Clone, Copy, Debug)]
pub struct Rate {
    pub input: Binary64,
    pub output: Binary64,
    pub cache_read: Binary64,
    pub cache_write: Binary64,
}

/// A price that the user has set, in dollars per million tokens: binary32
/// numbers, as their bits.
#[derive(Clone, Copy, Debug)]
pub struct ModelPricing {
    pub input: u32,
    pub output: u32,
    pub cache_read: Option<u32>,
    pub cache_write: Option<u32>,
}

/// What a provider says that its own model costs.
#[derive(Clone, Copy, Debug)]
pub enum LanguageModelCostInfo {
    TokenCost { input_token_cost_per_1m: Binary64, output_token_cost_per_1m: Binary64 },
    RequestCost { cost_per_request: Binary64 },
}

impl Rate {
    /// Equal as numbers, class by class.
    pub open spec fn equals(self, other: Rate) -> bool {
        &&& self.input.equals(other.input)
        &&& self.output.equals(other.output)
        &&& self.cache_read.equals(other.cache_read)
        &&& self.cache_write.equals(other.cache_write)
    }

    /// A cache price that is not set is the input price.
    pub open spec fn of_settings(pricing: ModelPricing) -> Rate {
        let input = Binary64::widened(pricing.input).per_million();
        Rate {
            input,
            output: Binary64::widened(pricing.output).per_million(),
            cache_read: match pricing.cache_read {
                Some(rate) => Binary64::widened(rate).per_million(),
                None => input,
            },
            cache_write: match pricing.cache_write {
                Some(rate) => Binary64::widened(rate).per_million(),
                None => input,
            },
        }
    }

    /// Cached tokens cost what input does. A price per request is no rate.
    pub open spec fn of_provider(info: LanguageModelCostInfo) -> Option<Rate> {
        match info {
            LanguageModelCostInfo::TokenCost {
                input_token_cost_per_1m,
                output_token_cost_per_1m,
            } => {
                let input = input_token_cost_per_1m.per_million();
                Some(
                    Rate {
                        input,
                        output: output_token_cost_per_1m.per_million(),
                        cache_read: input,
                        cache_write: input,
                    },
                )
            },
            LanguageModelCostInfo::RequestCost { .. } => None,
        }
    }

    /// Each class at its own rate, added up in the order of the classes: input,
    /// output, cache reads, cache writes.
    pub open spec fn cost_of(self, usage: TokenUsage) -> Binary64 {
        Binary64::from_count(usage.input_tokens as nat).times(self.input).plus(
            Binary64::from_count(usage.output_tokens as nat).times(self.output),
        ).plus(
            Binary64::from_count(usage.cache_read_input_tokens as nat).times(self.cache_read),
        ).plus(
            Binary64::from_count(usage.cache_creation_input_tokens as nat).times(self.cache_write),
        )
    }

    /// The cache reads at the difference of the input rate and their own.
    pub open spec fn savings_of(self, usage: TokenUsage) -> Binary64 {
        Binary64::from_count(usage.cache_read_input_tokens as nat).times(
            self.input.minus(self.cache_read),
        )
    }

    /// The rate that the user has set.
    ///
    /// An unspecified cache rate bills cached tokens as plain input rather than
    /// as free, which is the safer direction to be wrong in.
    pub fn from_settings(pricing: &ModelPricing) -> (rate: Rate)
        ensures
            rate == Self::of_settings(*pricing),
            rate.input == Binary64::widened(pricing.input).over(1_000_000),
            rate.output == Binary64::widened(pricing.output).over(1_000_000),
            pricing.cache_read is Some ==> rate.cache_read == Binary64::widened(
                pricing.cache_read->0,
            ).over(1_000_000),
            pricing.cache_write is Some ==> rate.cache_write == Binary64::widened(
                pricing.cache_write->0,
            ).over(1_000_000),
            pricing.cache_read is None ==> rate.cache_read == rate.input,
            pricing.cache_write is None ==> rate.cache_write == rate.input,
    {
        let input: Binary64 = Binary64::widen(pricing.input).divided_per_million();
        Rate {
            input,
            output: Binary64::widen(pricing.output).divided_per_million(),
            cache_read: match pricing.cache_read {
                Some(rate) => Binary64::widen(rate).divided_per_million(),
                None => input,
            },
            cache_write: match pricing.cache_write {
                Some(rate) => Binary64::widen(rate).divided_per_million(),
                None => input,
            },
        }
    }

    /// The rate that a provider reports.
    ///
    /// Providers report one input and one output rate, so cache reads are priced
    /// as full input here. That overstates cost wherever cache reads are
    /// discounted; a price in the settings corrects it.
    pub fn from_provider(info: &LanguageModelCostInfo) -> (rate: Option<Rate>)
        ensures
            rate == Self::of_provider(*info),
            rate is Some <==> *info is TokenCost,
            rate matches Some(found) ==> {
                &&& found.input == info->input_token_cost_per_1m.over(1_000_000)
                &&& found.output == info->output_token_cost_per_1m.over(1_000_000)
                &&& found.cache_read == found.input
                &&& found.cache_write == found.input
            },
    {
        match info {
            LanguageModelCostInfo::TokenCost {
                input_token_cost_per_1m,
                output_token_cost_per_1m,
            } => {
                let input: Binary64 = input_token_cost_per_1m.divided_per_million();
                Some(
                    Rate {
                        input,
                        output: output_token_cost_per_1m.divided_per_million(),
                        cache_read: input,
                        cache_write: input,
                    },
                )
            },
            // A per-request multiplier is not a dollar figure, and converting
            // one would be inventing a number.
            LanguageModelCostInfo::RequestCost { .. } => None,
        }
    }

    /// What the usage costs.
    pub fn cost(&self, usage: &TokenUsage) -> (cost: Binary64)
        ensures
            cost == self.cost_of(*usage),
    {
        Binary64::of_count(usage.input_tokens).product(self.input).sum(
            Binary64::of_count(usage.output_tokens).product(self.output),
        ).sum(Binary64::of_count(usage.cache_read_input_tokens).product(self.cache_read)).sum(
            Binary64::of_count(usage.cache_creation_input_tokens).product(self.cache_write),
        )
    }

    /// What the cache reads would have cost at the full input rate, less what
    /// they did cost. Zero when the rate carries no cache discount.
    pub fn cache_savings(&self, usage: &TokenUsage) -> (savings: Binary64)
        ensures
            savings == self.savings_of(*usage),
    {
        Binary64::of_count(usage.cache_read_input_tokens).product(
            self.input.difference(self.cache_read),
        )
    }
}

impl PartialEq for Rate {
    fn eq(&self, other: &Rate) -> (result: bool) {
        self.input == other.input && self.output == other.output && self.cache_read
            == other.cache_read && self.cache_write == other.cache_write
    }
}

impl vstd::std_specs::cmp::PartialEqSpecImpl for Rate {
    open spec fn obeys_eq_spec() -> bool {
        true
    }

    open spec fn eq_spec(&self, other: &Rate) -> bool {
        self.equals(*other)
    }
}

} // verus!
