use homebank_converter::config::{
    get_default_cfg_dir, get_default_file_path, load_config, Bank, BankConfig, CategoryMapping,
    CategoryMappingConfig, Config, ConfigDocument, ConfigurationError, PayeeMapping, PayeeMappingConfig,
};
use std::collections::HashMap;

fn s(x: &str) -> String {
    x.to_owned()
}

fn mapping(entries: &[(&str, &[&str])]) -> Vec<(String, Vec<String>)> {
    entries
        .iter()
        .map(|(label, phrases)| (s(label), phrases.iter().map(|p| s(p)).collect()))
        .collect()
}

type Flat = (String, String, HashMap<String, Vec<String>>, HashMap<String, Vec<String>>);

fn flat(c: &BankConfig) -> Flat {
    (
        c.income.clone(),
        c.category.default.clone(),
        c.category.mapping.iter().cloned().collect(),
        c.payee.mapping.iter().cloned().collect(),
    )
}

fn config(income: &str, default: &str, category: &[(&str, &[&str])], payee: &[(&str, &[&str])]) -> BankConfig {
    BankConfig {
        income: s(income),
        category: CategoryMappingConfig { default: s(default), mapping: mapping(category) },
        payee: PayeeMappingConfig { mapping: mapping(payee) },
    }
}

fn sample_source() -> Vec<(String, Bank)> {
    vec![
        (
            s("default"),
            Bank {
                income: None,
                category: Some(CategoryMapping {
                    default: None,
                    mapping: Some(mapping(&[("Family", &["Joe Doe", "Jill Doe"])])),
                }),
                payee: Some(PayeeMapping { mapping: Some(mapping(&[("joe doe", &["joe doe", "doe joe"])])) }),
            },
        ),
        (
            s("bank1"),
            Bank {
                income: Some(s("Banke Nr. 1")),
                category: Some(CategoryMapping { default: None, mapping: Some(mapping(&[("Family", &["Kill Bill"])])) }),
                payee: Some(PayeeMapping { mapping: Some(mapping(&[("joe doe", &["Kill Bill"])])) }),
            },
        ),
        (
            s("bank2"),
            Bank {
                income: Some(s("Banke Nr. 2")),
                category: Some(CategoryMapping {
                    default: Some(s("Whatever")),
                    mapping: Some(mapping(&[("Friends", &["Kill Bill"])])),
                }),
                payee: None,
            },
        ),
    ]
}

#[test]
fn test_load_config() {
    let got: HashMap<String, Flat> = load_config(&sample_source()).iter().map(|(k, c)| (k.clone(), flat(c))).collect();
    let expected: HashMap<String, Flat> = vec![
        (
            s("default"),
            flat(&config(
                "Unknown",
                "Unknown",
                &[("Family", &["Joe Doe", "Jill Doe"])],
                &[("joe doe", &["joe doe", "doe joe"])],
            )),
        ),
        (
            s("bank1"),
            flat(&config("Banke Nr. 1", "Unknown", &[("Family", &["Kill Bill"])], &[("joe doe", &["Kill Bill"])])),
        ),
        (
            s("bank2"),
            flat(&config(
                "Banke Nr. 2",
                "Whatever",
                &[("Family", &["Joe Doe", "Jill Doe"]), ("Friends", &["Kill Bill"])],
                &[("joe doe", &["joe doe", "doe joe"])],
            )),
        ),
    ]
    .into_iter()
    .collect();
    assert_eq!(got, expected);
}

#[test]
fn test_alias_add_activity_alias() {}

#[test]
fn empty_override_keeps_base() {
    let base = config("Salary", "Misc", &[("Family", &["Joe"])], &[("Shop", &["Spar"])]);
    let empty = Bank { income: None, category: None, payee: None };
    let got = Bank::into(&empty, &base);
    assert_eq!(flat(&got), flat(&base));
    assert_eq!(got.category.mapping, base.category.mapping);
    let hollow = Bank {
        income: None,
        category: Some(CategoryMapping { default: None, mapping: Some(vec![]) }),
        payee: Some(PayeeMapping { mapping: None }),
    };
    assert_eq!(flat(&Bank::into(&hollow, &base)), flat(&base));
}

#[test]
fn override_replaces_label_phrases() {
    let base = config("Unknown", "Unknown", &[("Family", &["Joe"]), ("Home", &["Rent"])], &[]);
    let over = CategoryMapping { default: None, mapping: Some(mapping(&[("Family", &["Jill"])])) };
    let got = CategoryMapping::into(&over, &base.category);
    let m: HashMap<String, Vec<String>> = got.mapping.into_iter().collect();
    assert_eq!(m.get("Family"), Some(&vec![s("Jill")]));
    assert_eq!(m.get("Home"), Some(&vec![s("Rent")]));
    assert_eq!(m.len(), 2);
}

#[test]
fn payee_override_adds_new_labels() {
    let base = PayeeMappingConfig { mapping: mapping(&[("A", &["a"])]) };
    let over = PayeeMapping { mapping: Some(mapping(&[("B", &["b"]), ("A", &["x", "y"])])) };
    assert_eq!(PayeeMapping::into(&over, &base).mapping, mapping(&[("A", &["x", "y"]), ("B", &["b"])]));
}

#[test]
fn missing_default_entry_uses_builtin() {
    let raw = vec![(s("bank"), Bank { income: Some(s("In")), category: None, payee: None })];
    let got = load_config(&raw);
    assert_eq!(got.len(), 1);
    assert_eq!(flat(&got[0].1), flat(&config("In", "Unknown", &[], &[])));
}

#[test]
fn explicit_missing_path_is_an_error() {
    match Config::new(Some("/nowhere/cfg.conf"), ConfigDocument::Missing) {
        Err(e) => assert_eq!(e, ConfigurationError::FileNotFound(s("/nowhere/cfg.conf"))),
        Ok(_) => panic!("expected an error"),
    }
}

#[test]
fn missing_default_path_gives_builtin() {
    let cfg = Config::new(None, ConfigDocument::Missing).unwrap();
    assert_eq!(cfg.bank_config.len(), 1);
    assert_eq!(cfg.bank_config[0].0, s("default"));
    assert_eq!(flat(&cfg.bank_config[0].1), flat(&BankConfig::default()));
    assert_eq!(flat(&BankConfig::default()), flat(&config("Unknown", "Unknown", &[], &[])));
}

#[test]
fn malformed_source_is_an_error() {
    match Config::new(None, ConfigDocument::Malformed(s("bad token"))) {
        Err(e) => assert_eq!(e, ConfigurationError::Hocon(s("bad token"))),
        Ok(_) => panic!("expected an error"),
    }
}

#[test]
fn parsed_source_is_resolved() {
    let cfg = Config::new(Some("x.conf"), ConfigDocument::Parsed(sample_source())).unwrap();
    assert_eq!(cfg.bank_config.len(), 3);
    assert_eq!(cfg.bank_config[2].1.category.default, s("Whatever"));
}

#[test]
fn default_paths() {
    assert_eq!(get_default_cfg_dir(Some(s("/home/joe"))), s("/home/joe/.hbc"));
    assert_eq!(get_default_cfg_dir(None), s(".hbc"));
    assert_eq!(get_default_file_path(Some(s("/home/joe"))), s("/home/joe/.hbc/config.conf"));
    assert_eq!(get_default_file_path(None), s(".hbc/config.conf"));
}

#[test]
fn looks_up_bank_by_identifier() {
    let cfg = Config::new(None, ConfigDocument::Parsed(sample_source())).unwrap();
    assert_eq!(cfg.bank(&s("bank1")).map(|c| c.income.clone()), Some(s("Banke Nr. 1")));
    assert!(cfg.bank(&s("bank9")).is_none());
    assert_eq!(cfg.bank_or_default(&s("bank9")).map(|c| c.income.clone()), Some(s("Unknown")));
    assert_eq!(cfg.bank_or_default(&s("bank2")).map(|c| c.income.clone()), Some(s("Banke Nr. 2")));
    let builtin = Config::new(None, ConfigDocument::Missing).unwrap();
    assert_eq!(builtin.bank_or_default(&s("bawag")).map(|c| c.category.default.clone()), Some(s("Unknown")));
}
