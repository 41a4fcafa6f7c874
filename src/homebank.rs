//! The normalized accounting line that personal-finance software imports.

use vstd::prelude::*;
use crate::amount::Decimal;
use crate::config::BankConfig;
use crate::date::Date;

verus! {

#[derive(Clone, Debug)]
pub struct HomebankAccountingLine {
    pub date: Date,
    pub payee: String,
    pub memo: String,
    pub amount: Decimal,
    pub category: String,
    pub tags: Vec<String>,
}

/// A bank's own transaction record that can be normalized with that bank's
/// effective configuration.
pub trait IntoHomebankAccountingLine {
    /// What `into` promises of its result for this record and configuration.
    spec fn into_spec(&self, cfg: BankConfig, r: HomebankAccountingLine) -> bool;

    fn into(self, bank_cfg: &BankConfig) -> (r: HomebankAccountingLine)
        ensures
            self.into_spec(*bank_cfg, r),
    ;
}

} // verus!
