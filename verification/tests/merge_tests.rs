use rami::fieldmap::{fm_from_entries, map_entries, FieldMap};
use rami::merge::{merge_map, merge_signatures, Category, Signature};
use rami::schema::{merge_value, FieldSchema};

fn schema(attrs: &[(&str, &str)]) -> FieldSchema {
    let mut s = FieldSchema::new();
    for (n, v) in attrs {
        s.push_attr(n.to_string(), v.to_string());
    }
    s
}

fn fmap(fields: &[(&str, &[(&str, &str)])]) -> FieldMap {
    let mut entries: Vec<(String, FieldSchema)> = Vec::new();
    for (k, attrs) in fields {
        entries.push((k.to_string(), schema(attrs)));
    }
    fm_from_entries(entries)
}

fn attrs_of(s: &FieldSchema) -> Vec<(String, String)> {
    s.attrs.iter().map(|a| (a.name.clone(), a.value.clone())).collect()
}

fn entries_of(m: &FieldMap) -> Vec<(String, Vec<(String, String)>)> {
    map_entries(m).iter().map(|(k, v)| (k.clone(), attrs_of(v))).collect()
}

fn pairs(v: &[(&str, &str)]) -> Vec<(String, String)> {
    v.iter().map(|(a, b)| (a.to_string(), b.to_string())).collect()
}

#[test]
fn merge_value_only_fills_missing() {
    let mut target = schema(&[("type", "integer"), ("min", "5")]);
    let source = schema(&[("min", "0"), ("max", "9")]);
    merge_value(&mut target, &source);
    assert_eq!(
        attrs_of(&target),
        pairs(&[("type", "integer"), ("min", "5"), ("max", "9")])
    );
}

#[test]
fn merge_value_with_itself_changes_nothing() {
    let mut target = schema(&[("type", "number"), ("min", "0")]);
    let source = schema(&[("type", "number"), ("min", "0")]);
    merge_value(&mut target, &source);
    assert_eq!(attrs_of(&target), pairs(&[("type", "number"), ("min", "0")]));
}

#[test]
fn merge_map_keeps_base_keys_only() {
    let base = fmap(&[("range", &[("type", "integer")])]);
    let newer = fmap(&[
        ("range", &[("type", "integer"), ("min", "0")]),
        ("timeout", &[("type", "number")]),
    ]);
    let merged = merge_map(&base, &newer);
    assert_eq!(
        entries_of(&merged),
        vec![("range".to_string(), pairs(&[("type", "integer"), ("min", "0")]))]
    );
}

fn category(name: &str, sigs: Vec<(&str, Option<FieldMap>, Option<FieldMap>)>) -> Category {
    Category {
        name: name.to_string(),
        signatures: sigs
            .into_iter()
            .map(|(n, args, returns)| (n.to_string(), Signature { args, returns }))
            .collect(),
    }
}

#[test]
fn scenario_two_categories_define_scan() {
    let a = category(
        "A",
        vec![("scan", Some(fmap(&[("range", &[("type", "integer")])])), None)],
    );
    let b = category(
        "B",
        vec![(
            "scan",
            Some(fmap(&[
                ("range", &[("type", "integer"), ("min", "0")]),
                ("timeout", &[("type", "number")]),
            ])),
            None,
        )],
    );
    let merged = merge_signatures(vec![a, b]);
    assert_eq!(merged.len(), 1);
    assert_eq!(merged[0].0, "scan");
    let args = merged[0].1.args.as_ref().expect("merged args present");
    assert_eq!(
        entries_of(args),
        vec![("range".to_string(), pairs(&[("type", "integer"), ("min", "0")]))]
    );
    let returns = merged[0].1.returns.as_ref().expect("merged returns present");
    assert_eq!(entries_of(returns), vec![]);
}

#[test]
fn remerging_identical_input_is_idempotent() {
    let make = || {
        category(
            "A",
            vec![(
                "scan",
                Some(fmap(&[("range", &[("type", "integer")])])),
                Some(fmap(&[("ok", &[("type", "integer")])])),
            )],
        )
    };
    let once = merge_signatures(vec![make()]);
    let twice = merge_signatures(vec![make(), make()]);
    assert_eq!(twice.len(), 1);
    assert_eq!(once[0].0, twice[0].0);
    let args_once = entries_of(once[0].1.args.as_ref().unwrap());
    let args_twice = entries_of(twice[0].1.args.as_ref().unwrap());
    assert_eq!(args_once, args_twice);
    let rets_once = entries_of(once[0].1.returns.as_ref().unwrap());
    let rets_twice = entries_of(twice[0].1.returns.as_ref().unwrap());
    assert_eq!(rets_once, rets_twice);
}

#[test]
fn later_definitions_never_extend_the_key_set() {
    let a = category(
        "A",
        vec![("scan", Some(fmap(&[("range", &[("type", "integer")])])), None)],
    );
    let b = category(
        "B",
        vec![(
            "scan",
            Some(fmap(&[("other", &[("type", "string")]), ("range", &[])])),
            Some(fmap(&[("extra", &[("type", "number")])])),
        )],
    );
    let c = category(
        "C",
        vec![("scan", Some(fmap(&[("third", &[("type", "number")])])), None)],
    );
    let merged = merge_signatures(vec![a, b, c]);
    assert_eq!(merged.len(), 1);
    let args = entries_of(merged[0].1.args.as_ref().unwrap());
    let keys: Vec<String> = args.iter().map(|(k, _)| k.clone()).collect();
    assert_eq!(keys, vec!["range".to_string()]);
}

#[test]
fn distinct_names_accumulate_in_first_seen_order() {
    let a = category(
        "A",
        vec![
            ("scan", Some(fmap(&[("range", &[("type", "integer")])])), None),
            ("emit", Some(fmap(&[("level", &[("type", "number")])])), None),
        ],
    );
    let b = category(
        "B",
        vec![("poll", Some(fmap(&[("ms", &[("type", "integer")])])), None)],
    );
    let merged = merge_signatures(vec![a, b]);
    let names: Vec<String> = merged.iter().map(|(n, _)| n.clone()).collect();
    assert_eq!(
        names,
        vec!["scan".to_string(), "emit".to_string(), "poll".to_string()]
    );
}
