use homebank_converter::amount::Decimal;
use homebank_converter::bawag::{convert_to_accounting_line, BawagAccountingLine, UNKNOWN_PAYEE};
use homebank_converter::config::{BankConfig, CategoryMappingConfig, PayeeMappingConfig};
use homebank_converter::date::{parse_to_date, Date};
use homebank_converter::homebank::IntoHomebankAccountingLine;

fn s(x: &str) -> String {
    x.to_owned()
}

fn row(fields: &[&str]) -> Vec<String> {
    fields.iter().map(|f| s(f)).collect()
}

fn bank() -> BankConfig {
    BankConfig {
        income: s("Salary"),
        category: CategoryMappingConfig {
            default: s("Unknown"),
            mapping: vec![(s("Family"), vec![s("Kill Bill")]), (s("Shopping"), vec![s("GmbH"), s("Company GmbH")])],
        },
        payee: PayeeMappingConfig { mapping: vec![(s("Company"), vec![s("company gmbh")])] },
    }
}

fn line(text: &str, mantissa: i64) -> BawagAccountingLine {
    BawagAccountingLine {
        iban: s("AT1"),
        text: s(text),
        execution_date: Date { year: 2020, month: 5, day: 26 },
        amount: Decimal { mantissa, scale: 2 },
        currency: s("EUR"),
    }
}

#[test]
fn test_parse_to_date() {
    assert_eq!(parse_to_date("25.05.2020"), Some(Date { year: 2020, month: 5, day: 25 }));
}

#[test]
fn rejects_bad_dates() {
    assert_eq!(parse_to_date("31.02.2020"), None);
    assert_eq!(parse_to_date("2020-05-25"), None);
    assert_eq!(parse_to_date(""), None);
}

#[test]
fn converts_export_row() {
    let got = convert_to_accounting_line(&row(&["AT1", "Some Text", "26.05.2020", "26.05.2020", "-15,39", "EUR"])).unwrap();
    assert_eq!(got.iban, s("AT1"));
    assert_eq!(got.text, s("Some Text"));
    assert_eq!(got.execution_date, Date { year: 2020, month: 5, day: 26 });
    assert_eq!(got.amount, Decimal { mantissa: -1539, scale: 2 });
    assert_eq!(got.amount.mantissa as f64 / 100.0, -15.39);
    assert_eq!(got.currency, s("EUR"));
    let line = got.normalize(&bank());
    assert_eq!(line.date, Date { year: 2020, month: 5, day: 26 });
    assert_eq!(line.memo, s("Some Text"));
    assert_eq!(line.amount, Decimal { mantissa: -1539, scale: 2 });
}

#[test]
fn short_rows_use_field_defaults() {
    let got = convert_to_accounting_line(&row(&["AT1", "Text"])).unwrap();
    assert_eq!(got.execution_date, Date { year: 1900, month: 1, day: 1 });
    assert_eq!(got.amount, Decimal { mantissa: 0, scale: 0 });
    assert_eq!(got.currency, s(""));
}

#[test]
fn unparsable_rows_are_skipped() {
    assert!(convert_to_accounting_line(&row(&["AT1", "T", "not a date", "", "-1,00", "EUR"])).is_none());
    assert!(convert_to_accounting_line(&row(&["AT1", "T", "26.05.2020", "", "abc", "EUR"])).is_none());
}

#[test]
fn normalizes_with_keywords() {
    let got = line("Some Text with Company GmbH\\\\SOME PLACE\\", -240).normalize(&bank());
    assert_eq!(got.payee, s("Company"));
    assert_eq!(got.category, s("Shopping"));
    assert!(got.tags.is_empty());
}

#[test]
fn unmatched_expense_falls_back() {
    let got = IntoHomebankAccountingLine::into(line("Some Other Text", -88000), &bank());
    assert_eq!(got.category, s("Unknown"));
    assert_eq!(got.payee, s(UNKNOWN_PAYEE));
    assert_eq!(got.memo, s("Some Other Text"));
}

#[test]
fn income_takes_configured_label() {
    let got = line("buy kill bill", 100).normalize(&bank());
    assert_eq!(got.payee, s("Salary"));
    assert_eq!(got.category, s("Family"));
}

#[test]
fn into_matches_normalize() {
    let cfg = bank();
    let a = line("Company GmbH shop", -100);
    let via_into = IntoHomebankAccountingLine::into(a.clone(), &cfg);
    let direct = a.normalize(&cfg);
    assert_eq!(via_into.payee, direct.payee);
    assert_eq!(via_into.category, direct.category);
    assert_eq!(via_into.category, s("Shopping"));
}

#[test]
fn category_ignores_amount() {
    let cfg = bank();
    let neg = line("buy kill bill", -100).normalize(&cfg);
    let pos = line("buy kill bill", 100).normalize(&cfg);
    assert_eq!(neg.category, pos.category);
    assert_eq!(neg.payee, s(UNKNOWN_PAYEE));
    assert_eq!(pos.payee, s("Salary"));
}
