use homebank_converter::amount::Decimal;
use homebank_converter::classify::{find_payee, look_for_mapping_in_text, switch_key_with_values_of_map};
use std::collections::HashMap;

fn s(x: &str) -> String {
    x.to_owned()
}

fn mapping(entries: &[(&str, &[&str])]) -> Vec<(String, Vec<String>)> {
    entries
        .iter()
        .map(|(label, phrases)| (s(label), phrases.iter().map(|p| s(p)).collect()))
        .collect()
}

#[test]
fn test_look_for_mapping_in_text() {
    let mappings: Vec<(String, String)> = vec![
        (s("kill bill"), s("Family")),
        (s("bath room"), s("Maintenance")),
        (s("dish washer"), s("Maintenance")),
    ];

    assert_eq!(
        look_for_mapping_in_text(&mappings, &vec![s("buy kill bill")]),
        Some(s("Family"))
    );

    assert_eq!(
        look_for_mapping_in_text(&mappings, &vec![s("nothing can be found")]),
        None
    );
}

#[test]
fn test_switch_key_with_values_of_map() {
    let mappings = mapping(&[("Family", &["Kill Bill"]), ("Maintenance", &["Dish Washer", "Bath Room"])]);

    let res: HashMap<String, String> = vec![
        (s("bath room"), s("Maintenance")),
        (s("kill bill"), s("Family")),
        (s("dish washer"), s("Maintenance")),
    ]
    .into_iter()
    .collect();

    let got: HashMap<String, String> = switch_key_with_values_of_map(&mappings).into_iter().collect();
    assert_eq!(got, res);
}

#[test]
fn index_is_ordered_by_descending_keyword_length() {
    let mappings = mapping(&[("A", &["ab", "abcd"]), ("B", &["abc", "x"])]);
    let keys: Vec<String> = switch_key_with_values_of_map(&mappings).into_iter().map(|(k, _)| k).collect();
    assert_eq!(keys, vec![s("abcd"), s("abc"), s("ab"), s("x")]);
}

#[test]
fn equal_length_keywords_in_lexicographic_order() {
    let mappings = mapping(&[("A", &["bb"]), ("B", &["cc", "aa"])]);
    let keys: Vec<String> = switch_key_with_values_of_map(&mappings).into_iter().map(|(k, _)| k).collect();
    assert_eq!(keys, vec![s("aa"), s("bb"), s("cc")]);
}

#[test]
fn shared_keyword_goes_to_greatest_label() {
    let mappings = mapping(&[("First", &["Shop"]), ("Second", &["SHOP"])]);
    assert_eq!(switch_key_with_values_of_map(&mappings), vec![(s("shop"), s("Second"))]);
    let reversed = mapping(&[("Second", &["SHOP"]), ("First", &["Shop"])]);
    assert_eq!(switch_key_with_values_of_map(&reversed), vec![(s("shop"), s("Second"))]);
}

#[test]
fn index_does_not_depend_on_label_order() {
    let a = mapping(&[("Food", &["spar", "billa"]), ("Home", &["ikea", "spar"])]);
    let b = mapping(&[("Home", &["spar", "ikea"]), ("Food", &["billa", "spar"])]);
    assert_eq!(switch_key_with_values_of_map(&a), switch_key_with_values_of_map(&b));
}

#[test]
fn keywords_are_lower_cased_when_matching() {
    let mappings: Vec<(String, String)> = vec![(s("Kill Bill"), s("Family"))];
    assert_eq!(look_for_mapping_in_text(&mappings, &vec![s("buy kill bill")]), Some(s("Family")));
}

#[test]
fn longest_phrase_wins() {
    let mappings = mapping(&[("Generic", &["GmbH"]), ("Specific", &["ABC GmbH"])]);
    let index = switch_key_with_values_of_map(&mappings);
    assert_eq!(
        look_for_mapping_in_text(&index, &vec![s("Payment to ABC GmbH Vienna")]),
        Some(s("Specific"))
    );
    let reversed = mapping(&[("Specific", &["ABC GmbH"]), ("Generic", &["GmbH"])]);
    let index = switch_key_with_values_of_map(&reversed);
    assert_eq!(
        look_for_mapping_in_text(&index, &vec![s("Payment to ABC GmbH Vienna")]),
        Some(s("Specific"))
    );
    assert_eq!(
        look_for_mapping_in_text(&index, &vec![s("XYZ GmbH")]),
        Some(s("Generic"))
    );
}

#[test]
fn dish_washer_repair_outranks_dish_washer() {
    let mappings = mapping(&[("Household", &["dish washer"]), ("Repairs", &["dish washer repair"])]);
    let index = switch_key_with_values_of_map(&mappings);
    assert_eq!(
        look_for_mapping_in_text(&index, &vec![s("Dish Washer Repair Ltd")]),
        Some(s("Repairs"))
    );
}

#[test]
fn kill_bill_scenario_and_fallback() {
    let index = switch_key_with_values_of_map(&mapping(&[("Family", &["kill bill"])]));
    assert_eq!(look_for_mapping_in_text(&index, &vec![s("buy kill bill")]), Some(s("Family")));
    assert_eq!(look_for_mapping_in_text(&index, &vec![s("nothing found")]), None);
}

#[test]
fn matching_ignores_case_of_text() {
    let mappings: Vec<(String, String)> = vec![(s("kill bill"), s("Family"))];
    assert_eq!(
        look_for_mapping_in_text(&mappings, &vec![s("BUY KILL BILL NOW")]),
        Some(s("Family"))
    );
}

#[test]
fn later_texts_are_searched_too() {
    let mappings: Vec<(String, String)> = vec![(s("rent"), s("Home"))];
    assert_eq!(
        look_for_mapping_in_text(&mappings, &vec![s("nothing"), s("Monthly Rent")]),
        Some(s("Home"))
    );
    assert_eq!(look_for_mapping_in_text(&mappings, &vec![]), None);
}

#[test]
fn positive_amount_is_income_regardless_of_text() {
    let mappings: Vec<(String, String)> = vec![(s("kill bill"), s("Family"))];
    let texts = vec![s("kill bill")];
    let amount = Decimal { mantissa: 1, scale: 2 };
    assert_eq!(find_payee(&mappings, &texts, amount, s("Salary")), Some(s("Salary")));
}

#[test]
fn zero_and_negative_amounts_use_keywords() {
    let mappings: Vec<(String, String)> = vec![(s("kill bill"), s("Family"))];
    let zero = Decimal { mantissa: 0, scale: 0 };
    let negative = Decimal { mantissa: -1539, scale: 2 };
    assert_eq!(find_payee(&mappings, &vec![s("kill bill")], zero, s("Salary")), Some(s("Family")));
    assert_eq!(find_payee(&mappings, &vec![s("other")], zero, s("Salary")), None);
    assert_eq!(find_payee(&mappings, &vec![s("kill bill")], negative, s("Salary")), Some(s("Family")));
}
