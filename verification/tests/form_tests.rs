use kind_config::to_string_map_from_key_val_pairs;
use kind_config::to_string_map_from_key_val_pairs_allowing_duplicates;
use kind_config::Form;
use kind_config::StringMap;
use kind_config::Value;
use kind_config::ValueMap;

fn make_example_form() -> Form {
    Form::new()
        .item("num_zones", Value::from(5000i64), "Number of grid cells to use")
        .item(
            "tfinal",
            Value::float_from_literal("0.2").unwrap(),
            "Time at which to stop the simulation",
        )
        .item("rk_order", Value::from(2i64), "Runge-Kutta time integration order")
        .item("quiet", Value::from(false), "Suppress the iteration message")
        .item("outdir", Value::from("data"), "Directory where output data is written")
}

fn float_of(v: &Value) -> f64 {
    v.as_float_text().parse::<f64>().unwrap()
}

#[test]
fn can_freeze_parameter() {
    let form = make_example_form().freeze("num_zones");
    assert!(form.is_frozen("num_zones"));
    assert!(!form.is_frozen("outdir"));
}

#[test]
fn can_merge_vector_of_args() {
    let raw = vec![
        "tfinal=0.4".to_string(),
        "rk_order=1".to_string(),
        "quiet=true".to_string(),
    ];
    let args = to_string_map_from_key_val_pairs(&raw).unwrap();
    let form = make_example_form().merge_string_map(&args).unwrap();
    assert!(form.get("num_zones").as_int() == 5000);
    assert!(float_of(form.get("tfinal")) == 0.4);
    assert!(form.get("rk_order").as_int() == 1);
    assert!(form.get("quiet").as_bool() == true);
}

#[test]
fn can_merge_value_map() {
    let mut args = ValueMap::new();
    args.insert("num_zones", Value::from(2000i64));
    args.insert("quiet", Value::from(true));

    let form = make_example_form().merge_value_map(&args).unwrap();

    assert!(form.get("num_zones").as_int() == 2000);
    assert!(float_of(form.get("tfinal")) == 0.2);
    assert!(form.get("rk_order").as_int() == 2);
    assert!(form.get("quiet").as_bool() == true);
}

#[test]
fn can_merge_freeze_value_map() {
    let mut args = ValueMap::new();
    args.insert("num_zones", Value::from(2000i64));
    args.insert("quiet", Value::from(true));

    let to_freeze = vec!["num_zones".to_string(), "rk_order".to_string()];
    let form = make_example_form()
        .merge_value_map_freezing(&args, &to_freeze)
        .unwrap();

    assert!(form.is_frozen("num_zones"));
    assert!(!form.is_frozen("rk_order"));
}

#[test]
#[should_panic]
fn to_string_map_fails_with_duplicate_parameter() {
    let raw = vec!["a=1".to_string(), "a=2".to_string()];
    to_string_map_from_key_val_pairs(&raw).unwrap();
}

#[test]
#[should_panic]
fn to_string_map_fails_with_badly_formed_parameter() {
    let raw = vec!["a 2".to_string()];
    to_string_map_from_key_val_pairs(&raw).unwrap();
}

#[test]
#[should_panic]
fn merge_value_map_fails_with_kind_mismatch() {
    let mut args = ValueMap::new();
    args.insert("num_zones", Value::float_from_literal("3.14").unwrap());
    args.insert("quiet", Value::from(true));
    make_example_form().merge_value_map(&args).unwrap();
}

#[test]
fn duplicate_parameter_error_names_the_key() {
    let raw = vec!["a=1".to_string(), "a=2".to_string()];
    let err = to_string_map_from_key_val_pairs(&raw).unwrap_err();
    assert_eq!(err.key(), "a");
    assert_eq!(err.why(), "duplicate parameter");
}

#[test]
fn allowing_duplicates_keeps_the_later_value() {
    let raw = vec!["a=1".to_string(), "a=2".to_string()];
    let map = to_string_map_from_key_val_pairs_allowing_duplicates(&raw).unwrap();
    assert_eq!(map.len(), 1);
    assert_eq!(map.get("a").unwrap().as_str(), "2");
}

#[test]
fn badly_formed_argument_error_names_the_argument() {
    let raw = vec!["a 2".to_string()];
    let err = to_string_map_from_key_val_pairs(&raw).unwrap_err();
    assert_eq!(err.key(), "a 2");
    assert_eq!(err.why(), "is a badly formed argument");
    let raw2 = vec!["a=b=c".to_string()];
    let err2 = to_string_map_from_key_val_pairs(&raw2).unwrap_err();
    assert_eq!(err2.why(), "is a badly formed argument");
    let raw3 = vec!["a=".to_string()];
    assert!(to_string_map_from_key_val_pairs(&raw3).is_err());
    let raw4 = vec!["=b".to_string()];
    assert!(to_string_map_from_key_val_pairs(&raw4).is_err());
}

#[test]
fn merge_string_map_end_to_end() {
    let mut dict = StringMap::new();
    dict.insert("tfinal", "0.4");
    dict.insert("rk_order", "1");
    dict.insert("quiet", "true");
    let form = make_example_form().merge_string_map(&dict).unwrap();
    assert_eq!(form.get("num_zones").as_int(), 5000);
    assert!(float_of(form.get("tfinal")) == 0.4);
    assert_eq!(form.get("rk_order").as_int(), 1);
    assert_eq!(form.get("quiet").as_bool(), true);
    assert_eq!(form.get("outdir").as_str(), "data");
}

#[test]
fn kind_mismatch_error_names_key_and_reason() {
    let mut args = ValueMap::new();
    args.insert("num_zones", Value::float_from_literal("3.14").unwrap());
    let err = make_example_form().merge_value_map(&args).unwrap_err();
    assert_eq!(err.key(), "num_zones");
    assert_eq!(err.why(), "has the wrong type");
}

#[test]
fn unknown_key_error_names_key_and_reason() {
    let mut args = ValueMap::new();
    args.insert("missing", Value::from(1i64));
    let err = make_example_form().merge_value_map(&args).unwrap_err();
    assert_eq!(err.key(), "missing");
    assert_eq!(err.why(), "is not a valid key");
}

#[test]
fn sorted_keys_are_alphabetical() {
    let keys = make_example_form().sorted_keys();
    assert_eq!(keys, vec!["num_zones", "outdir", "quiet", "rk_order", "tfinal"]);
}

#[test]
fn sorted_keys_of_blank_form_is_empty() {
    let keys = Form::new().sorted_keys();
    assert!(keys.is_empty());
    assert_eq!(Form::new().len(), 0);
}

#[test]
fn frozen_key_accepts_identical_value_only() {
    let form = make_example_form().freeze("rk_order");
    let mut same = ValueMap::new();
    same.insert("rk_order", Value::from(2i64));
    let form = form.merge_value_map(&same).unwrap();
    assert_eq!(form.get("rk_order").as_int(), 2);

    let mut other = ValueMap::new();
    other.insert("rk_order", Value::from(3i64));
    let err = form.merge_value_map(&other).unwrap_err();
    assert_eq!(err.key(), "rk_order");
    assert_eq!(err.why(), "cannot be modified");
}

#[test]
fn freezing_merge_skips_keys_absent_from_updates() {
    let mut args = ValueMap::new();
    args.insert("quiet", Value::from(true));
    let to_freeze = vec!["num_zones".to_string()];
    let form = make_example_form()
        .merge_value_map_freezing(&args, &to_freeze)
        .unwrap();
    assert!(!form.is_frozen("num_zones"));
    assert!(!form.is_frozen("quiet"));
}

#[test]
fn about_and_len_report_the_declarations() {
    let form = make_example_form();
    assert_eq!(form.len(), 5);
    assert_eq!(form.about("num_zones"), "Number of grid cells to use");
    assert!(form.contains_key("tfinal"));
    assert!(!form.contains_key("absent"));
}

#[test]
fn redeclaring_a_key_changes_its_kind() {
    let form = Form::new()
        .item("mode", Value::from(1i64), "as a number")
        .item("mode", Value::from("fast"), "as a word");
    assert_eq!(form.get("mode").as_str(), "fast");
    let mut args = ValueMap::new();
    args.insert("mode", Value::from("slow"));
    let form = form.merge_value_map(&args).unwrap();
    assert_eq!(form.get("mode").as_str(), "slow");
}

#[test]
fn value_map_snapshots_current_values() {
    let vm = make_example_form().value_map();
    assert_eq!(vm.len(), 5);
    assert_eq!(vm.get("num_zones").unwrap().as_int(), 5000);
    assert_eq!(vm.get("outdir").unwrap().as_str(), "data");
    assert!(vm.get("absent").is_none());
}

#[test]
fn rendering_scalars_gives_their_natural_text() {
    assert_eq!(Value::from(true).render(), "true");
    assert_eq!(Value::from(false).render(), "false");
    assert_eq!(Value::from(0i64).render(), "0");
    assert_eq!(Value::from(5000i64).render(), "5000");
    assert_eq!(Value::from(-42i64).render(), "-42");
    assert_eq!(Value::from(i64::MIN).render(), "-9223372036854775808");
    assert_eq!(Value::from(i64::MAX).render(), "9223372036854775807");
    assert_eq!(Value::float_from_literal("0.2").unwrap().render(), "0.2");
    assert_eq!(Value::from("plain text").render(), "plain text");
}

#[test]
fn parsing_round_trips_through_rendering() {
    for v in [
        Value::from(true),
        Value::from(false),
        Value::from(0i64),
        Value::from(-17i64),
        Value::from(i64::MIN),
        Value::from(i64::MAX),
        Value::float_from_literal("1e-3").unwrap(),
        Value::from("verbatim"),
    ] {
        let text = v.render();
        let back = v.parse_as(&text).unwrap();
        assert!(back.same_as(&v));
    }
}

#[test]
fn integer_parsing_matches_the_grammar() {
    let probe = Value::from(0i64);
    assert_eq!(probe.parse_as("42").unwrap().as_int(), 42);
    assert_eq!(probe.parse_as("+42").unwrap().as_int(), 42);
    assert_eq!(probe.parse_as("-42").unwrap().as_int(), -42);
    assert_eq!(probe.parse_as("007").unwrap().as_int(), 7);
    assert_eq!(
        probe.parse_as("9223372036854775807").unwrap().as_int(),
        i64::MAX
    );
    assert_eq!(
        probe.parse_as("-9223372036854775808").unwrap().as_int(),
        i64::MIN
    );
    assert!(probe.parse_as("9223372036854775808").is_none());
    assert!(probe.parse_as("-9223372036854775809").is_none());
    assert!(probe.parse_as("").is_none());
    assert!(probe.parse_as("+").is_none());
    assert!(probe.parse_as(" 5").is_none());
    assert!(probe.parse_as("5 ").is_none());
    assert!(probe.parse_as("1.5").is_none());
}

#[test]
fn boolean_parsing_is_case_sensitive() {
    let probe = Value::from(false);
    assert_eq!(probe.parse_as("true").unwrap().as_bool(), true);
    assert_eq!(probe.parse_as("false").unwrap().as_bool(), false);
    assert!(probe.parse_as("True").is_none());
    assert!(probe.parse_as("FALSE").is_none());
    assert!(probe.parse_as("1").is_none());
    assert!(probe.parse_as("").is_none());
}

#[test]
fn float_literals_follow_the_standard_grammar() {
    for good in [
        "0.2", "-0.5", "+1.5", "5", "5.", ".5", "1e5", "1E5", "1e+5", "1.25e-3", "inf", "-inf",
        "Infinity", "NaN", "nan",
    ] {
        assert!(Value::float_from_literal(good).is_some(), "{}", good);
        assert!(good.parse::<f64>().is_ok(), "{}", good);
    }
    for bad in ["", "abc", "1e", "1.2.3", "--1", "1 ", " 1", "0x10", "e5", "+", "in"] {
        assert!(Value::float_from_literal(bad).is_none(), "{}", bad);
        assert!(bad.parse::<f64>().is_err(), "{}", bad);
    }
}

#[test]
fn badly_formed_strings_report_the_declared_kind() {
    let mut dict = StringMap::new();
    dict.insert("quiet", "maybe");
    let err = make_example_form().merge_string_map(&dict).unwrap_err();
    assert_eq!(err.key(), "quiet");
    assert_eq!(err.why(), "is a badly formed bool");

    let mut dict = StringMap::new();
    dict.insert("num_zones", "many");
    let err = make_example_form().merge_string_map(&dict).unwrap_err();
    assert_eq!(err.why(), "is a badly formed int");

    let mut dict = StringMap::new();
    dict.insert("tfinal", "soon");
    let err = make_example_form().merge_string_map(&dict).unwrap_err();
    assert_eq!(err.why(), "is a badly formed float");

    let mut dict = StringMap::new();
    dict.insert("outdir", "anything at all");
    let form = make_example_form().merge_string_map(&dict).unwrap();
    assert_eq!(form.get("outdir").as_str(), "anything at all");
}

#[test]
fn merge_string_args_end_to_end() {
    let raw = vec!["num_zones=250".to_string(), "outdir=run7".to_string()];
    let form = make_example_form().merge_string_args(&raw).unwrap();
    assert_eq!(form.get("num_zones").as_int(), 250);
    assert_eq!(form.get("outdir").as_str(), "run7");

    let dup = vec!["quiet=true".to_string(), "quiet=false".to_string()];
    assert!(make_example_form().merge_string_args(&dup).is_err());
    let form = make_example_form()
        .merge_string_args_allowing_duplicates(&dup)
        .unwrap();
    assert_eq!(form.get("quiet").as_bool(), false);
}

#[test]
fn error_message_names_the_key_and_reason() {
    let mut args = ValueMap::new();
    args.insert("absent", Value::from(1i64));
    let err = make_example_form().merge_value_map(&args).unwrap_err();
    assert_eq!(err.message(), "config key 'absent' is not a valid key");
}

#[test]
fn values_compare_by_kind_and_payload() {
    let a = Value::from(5i64);
    let b = Value::from(5i64);
    let c = Value::from(6i64);
    let d = Value::from(true);
    assert!(a.same_as(&b));
    assert!(!a.same_as(&c));
    assert!(!a.same_as(&d));
    assert!(a.same_kind_as(&c));
    assert!(!a.same_kind_as(&d));
    let e = Value::from("x");
    let f = Value::from("x");
    assert!(e.same_as(&f));
    assert!(e.same_kind_as(&Value::from("y")));
    assert!(!e.same_as(&Value::from("y")));
}
