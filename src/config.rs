//! Protocol parameters of the Alonzo genesis file, as plain records. Reading
//! them from JSON is done outside the library.
use std::collections::HashMap;
use vstd::prelude::*;

verus! {

/// A ratio of two unsigned integers.
#[derive(Debug, PartialEq, Eq, Clone, Copy, Structural)]
pub struct Fraction {
    pub numerator: u64,
    pub denominator: u64,
}

/// Prices of script execution: per step and per unit of memory.
#[derive(Debug, PartialEq, Eq, Clone, Copy, Structural)]
pub struct ExecutionPrices {
    pub pr_steps: Fraction,
    pub pr_mem: Fraction,
}

/// An execution budget: memory and steps.
#[derive(Debug, PartialEq, Eq, Clone, Copy, Structural)]
pub struct ExUnits {
    pub ex_units_mem: u64,
    pub ex_units_steps: u64,
}

/// A script language.
#[derive(Debug, PartialEq, Eq, Hash, Clone, Copy, Structural)]
pub enum Language {
    PlutusV1,
    PlutusV2,
}

/// The cost model of one language: a cost per named operation.
#[derive(Debug, Clone)]
pub struct CostModel(HashMap<String, i64>);

impl CostModel {
    pub closed spec fn spec_costs(&self) -> HashMap<String, i64> {
        self.0
    }

    pub fn new(costs: HashMap<String, i64>) -> (r: CostModel)
        ensures
            r.spec_costs() == costs,
    {
        CostModel(costs)
    }

    pub fn costs(&self) -> (r: &HashMap<String, i64>)
        ensures
            *r == self.spec_costs(),
    {
        &self.0
    }
}

/// The cost models of the languages.
#[derive(Debug, Clone)]
pub struct CostModelPerLanguage(HashMap<Language, CostModel>);

impl CostModelPerLanguage {
    pub closed spec fn spec_models(&self) -> HashMap<Language, CostModel> {
        self.0
    }

    pub fn new(models: HashMap<Language, CostModel>) -> (r: CostModelPerLanguage)
        ensures
            r.spec_models() == models,
    {
        CostModelPerLanguage(models)
    }

    pub fn models(&self) -> (r: &HashMap<Language, CostModel>)
        ensures
            *r == self.spec_models(),
    {
        &self.0
    }
}

impl core::ops::Deref for CostModelPerLanguage {
    type Target = HashMap<Language, CostModel>;

    fn deref(&self) -> &HashMap<Language, CostModel> {
        &self.0
    }
}

/// The protocol parameters that the Alonzo genesis file sets.
#[derive(Debug, Clone)]
pub struct GenesisFile {
    pub lovelace_per_utxo_word: u64,
    pub execution_prices: ExecutionPrices,
    pub max_tx_ex_units: ExUnits,
    pub max_block_ex_units: ExUnits,
    pub max_value_size: u32,
    pub collateral_percentage: u32,
    pub max_collateral_inputs: u32,
    pub cost_models: CostModelPerLanguage,
}

} // verus!
