//! Transactions of BAWAG exports and their normalization.
//!
//! A row of the export holds, by position: the account's IBAN, the free
//! text, the execution date (`dd.mm.yyyy`), the value date, the amount and
//! the currency.

use vstd::prelude::*;
use crate::amount::{Decimal, parse_to_number, parsed_number};
use crate::classify::{entries_view, find_payee, has_pair, lemma_longest_phrase_first, lemma_picked_unique, look_for_mapping_in_text, mapping_pairs, mapping_view, matches_any, picked, switch_key_with_values_of_map};
use crate::config::BankConfig;
use crate::date::{Date, DATE_FORMAT, date_of, parse_to_date, parsed_date};
use crate::homebank::{HomebankAccountingLine, IntoHomebankAccountingLine};

verus! {

/// The payee of a line whose payee no keyword names.
pub const UNKNOWN_PAYEE: &'static str = "{{ UNKNOWN - I HAVE NO CLUE }}";

#[derive(Clone, Debug)]
pub struct BawagAccountingLine {
    pub iban: String,
    pub text: String,
    pub execution_date: Date,
    pub amount: Decimal,
    pub currency: String,
}

/// `r` is the normalized form of `line` under `cfg`: date, text and amount
/// carried over, the payee from the income rule or the payee keywords, the
/// category from the category keywords, each with its fallback.
pub open spec fn normalized(line: BawagAccountingLine, cfg: BankConfig, r: HomebankAccountingLine) -> bool {
    let texts = seq![line.text];
    &&& r.date == line.execution_date
    &&& r.memo@ == line.text@
    &&& r.amount == line.amount
    &&& r.tags@.len() == 0
    &&& line.amount.mantissa > 0 ==> r.payee@ == cfg.income@
    &&& line.amount.mantissa <= 0 ==> picked(
        mapping_pairs(mapping_view(cfg.payee.mapping@)),
        texts,
        r.payee@,
        UNKNOWN_PAYEE@,
    )
    &&& picked(mapping_pairs(mapping_view(cfg.category.mapping@)), texts, r.category@, cfg.category.default@)
}

impl BawagAccountingLine {
    /// Normalizes this transaction with the bank's effective configuration.
    pub fn normalize(&self, bank_cfg: &BankConfig) -> (r: HomebankAccountingLine)
        ensures
            normalized(*self, *bank_cfg, r),
    {
        let payees = switch_key_with_values_of_map(&bank_cfg.payee.mapping);
        let categories = switch_key_with_values_of_map(&bank_cfg.category.mapping);
        let mut text_to_search: Vec<String> = Vec::new();
        text_to_search.push(self.text.clone());
        assert(text_to_search@ == seq![self.text]);
        let payee = match find_payee(&payees, &text_to_search, self.amount, bank_cfg.income.clone()) {
            Some(p) => p,
            None => String::from_str(UNKNOWN_PAYEE),
        };
        let category = match look_for_mapping_in_text(&categories, &text_to_search) {
            Some(c) => c,
            None => bank_cfg.category.default.clone(),
        };
        proof {
            lemma_longest_phrase_first(
                entries_view(payees@),
                mapping_pairs(mapping_view(bank_cfg.payee.mapping@)),
                text_to_search@,
                UNKNOWN_PAYEE@,
            );
            lemma_longest_phrase_first(
                entries_view(categories@),
                mapping_pairs(mapping_view(bank_cfg.category.mapping@)),
                text_to_search@,
                bank_cfg.category.default@,
            );
        }
        HomebankAccountingLine {
            date: self.execution_date,
            payee,
            memo: self.text.clone(),
            amount: self.amount,
            category,
            tags: Vec::new(),
        }
    }
}

impl IntoHomebankAccountingLine for BawagAccountingLine {
    open spec fn into_spec(&self, cfg: BankConfig, r: HomebankAccountingLine) -> bool {
        normalized(*self, cfg, r)
    }

    fn into(self, bank_cfg: &BankConfig) -> (r: HomebankAccountingLine) {
        self.normalize(bank_cfg)
    }
}

/// Normalizing is a function of the text and configuration: the category
/// does not depend on the amount, and the payee depends on it only through
/// whether it is above zero.
pub proof fn lemma_normalized_deterministic(
    a: BawagAccountingLine,
    b: BawagAccountingLine,
    cfg: BankConfig,
    ra: HomebankAccountingLine,
    rb: HomebankAccountingLine,
)
    requires
        normalized(a, cfg, ra),
        normalized(b, cfg, rb),
        a.text@ == b.text@,
    ensures
        ra.category@ == rb.category@,
        (a.amount.mantissa > 0) == (b.amount.mantissa > 0) ==> ra.payee@ == rb.payee@,
{
    let ta = seq![a.text];
    let tb = seq![b.text];
    assert forall|k: Seq<char>| matches_any(k, ta) == matches_any(k, tb) by {
        if matches_any(k, ta) {
            assert(tb[0]@ == ta[0]@);
        }
        if matches_any(k, tb) {
            assert(tb[0]@ == ta[0]@);
        }
    }
    let cps = mapping_pairs(mapping_view(cfg.category.mapping@));
    let pps = mapping_pairs(mapping_view(cfg.payee.mapping@));
    assert(picked(cps, ta, rb.category@, cfg.category.default@) == picked(cps, tb, rb.category@, cfg.category.default@));
    lemma_picked_unique(cps, ta, ra.category@, rb.category@, cfg.category.default@);
    if a.amount.mantissa <= 0 && b.amount.mantissa <= 0 {
        assert(picked(pps, ta, rb.payee@, UNKNOWN_PAYEE@) == picked(pps, tb, rb.payee@, UNKNOWN_PAYEE@));
        lemma_picked_unique(pps, ta, ra.payee@, rb.payee@, UNKNOWN_PAYEE@);
    }
}

/// No keyword falls back: a transaction whose text holds no configured
/// keyword, with an amount below zero, gets the configured default category
/// and the unknown payee.
pub proof fn lemma_no_keyword_falls_back(line: BawagAccountingLine, cfg: BankConfig, r: HomebankAccountingLine)
    requires
        normalized(line, cfg, r),
        line.amount.mantissa < 0,
        forall|k: Seq<char>, l: Seq<char>|
            #[trigger] has_pair(mapping_pairs(mapping_view(cfg.payee.mapping@)), k, l) ==> !matches_any(k, seq![line.text]),
        forall|k: Seq<char>, l: Seq<char>|
            #[trigger] has_pair(mapping_pairs(mapping_view(cfg.category.mapping@)), k, l) ==> !matches_any(k, seq![line.text]),
    ensures
        r.category@ == cfg.category.default@,
        r.payee@ == UNKNOWN_PAYEE@,
{
}

pub open spec fn field_or(record: Seq<String>, i: int, default: Seq<char>) -> Seq<char> {
    if i < record.len() {
        record[i]@
    } else {
        default
    }
}

fn get_or(record: &Vec<String>, i: usize, default: &str) -> (r: String)
    ensures
        r@ == field_or(record@, i as int, default@),
{
    if i < record.len() {
        record[i].clone()
    } else {
        String::from_str(default)
    }
}

/// Turns the fields of one export row into a transaction. A missing field
/// reads as empty (the date as `1.1.1900`, the amount as `0.0`). `None`
/// when the date or the amount does not parse.
pub fn convert_to_accounting_line(record: &Vec<String>) -> (r: Option<BawagAccountingLine>)
    ensures
        ({
            let date = date_of(parsed_date(field_or(record@, 2, "1.1.1900"@), DATE_FORMAT@));
            let amount = parsed_number(field_or(record@, 4, "0.0"@));
            match r {
                Some(line) => date == Some(line.execution_date) && amount == Some(line.amount)
                    && line.iban@ == field_or(record@, 0, ""@) && line.text@ == field_or(record@, 1, ""@)
                    && line.currency@ == field_or(record@, 5, ""@),
                None => date is None || amount is None,
            }
        }),
{
    let date_text = get_or(record, 2, "1.1.1900");
    let amount_text = get_or(record, 4, "0.0");
    let execution_date = match parse_to_date(date_text.as_str()) {
        Some(d) => d,
        None => return None,
    };
    let amount = match parse_to_number(amount_text.as_str()) {
        Some(a) => a,
        None => return None,
    };
    Some(BawagAccountingLine {
        iban: get_or(record, 0, ""),
        text: get_or(record, 1, ""),
        execution_date,
        amount,
        currency: get_or(record, 5, ""),
    })
}

} // verus!
