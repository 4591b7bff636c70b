use defaults_diff::diff::{detect_diff, detect_domain_changes, Change, DiffResult};
use defaults_diff::snapshot::{DomainSettings, Snapshot};
use defaults_diff::value::{values_equal, RealNum, Value};

fn make_snapshot(domains: Vec<(&str, Vec<(&str, Value)>)>) -> Snapshot {
    let mut snap = Snapshot::new();
    for (domain, kvs) in domains {
        let mut settings = DomainSettings::new();
        for (k, v) in kvs {
            settings.insert(k.to_string(), v);
        }
        snap.insert_domain(domain.to_string(), settings);
    }
    snap
}

fn real_value(x: f64) -> Value {
    Value::Real(RealNum { bits: x.to_bits(), text: format!("{}", x) })
}

fn summary(result: &DiffResult) -> Vec<(String, Vec<String>)> {
    result
        .domain_diffs
        .iter()
        .map(|dd| {
            (
                dd.domain.clone(),
                dd.changes
                    .iter()
                    .map(|c| {
                        let tag = match c {
                            Change::Added { .. } => "+",
                            Change::Removed { .. } => "-",
                            Change::Modified { .. } => "~",
                        };
                        format!("{}{}", tag, c.key())
                    })
                    .collect(),
            )
        })
        .collect()
}

// --- detect_diff ---

#[test]
fn test_detect_diff_added() {
    let before = make_snapshot(vec![]);
    let after = make_snapshot(vec![("com.test", vec![("key1", Value::Boolean(true))])]);

    let result = detect_diff(&before, &after);
    assert_eq!(result.total_changes, 1);
    assert_eq!(result.domain_diffs.len(), 1);
    match &result.domain_diffs[0].changes[0] {
        Change::Added { domain, key, value } => {
            assert_eq!(domain, "com.test");
            assert_eq!(key, "key1");
            assert!(matches!(value, Value::Boolean(true)));
        }
        _ => panic!("Expected Added change"),
    }
}

#[test]
fn test_detect_diff_removed() {
    let before = make_snapshot(vec![("com.test", vec![("key1", Value::Text("old".to_string()))])]);
    let after = make_snapshot(vec![]);

    let result = detect_diff(&before, &after);
    assert_eq!(result.total_changes, 1);
    match &result.domain_diffs[0].changes[0] {
        Change::Removed { domain, key, old_value } => {
            assert_eq!(domain, "com.test");
            assert_eq!(key, "key1");
            assert!(matches!(old_value, Value::Text(s) if s == "old"));
        }
        _ => panic!("Expected Removed change"),
    }
}

#[test]
fn test_detect_diff_modified() {
    let before = make_snapshot(vec![("com.test", vec![("key1", Value::Integer(1))])]);
    let after = make_snapshot(vec![("com.test", vec![("key1", Value::Integer(2))])]);

    let result = detect_diff(&before, &after);
    assert_eq!(result.total_changes, 1);
    match &result.domain_diffs[0].changes[0] {
        Change::Modified { domain, key, old_value, new_value } => {
            assert_eq!(domain, "com.test");
            assert_eq!(key, "key1");
            assert!(matches!(old_value, Value::Integer(1)));
            assert!(matches!(new_value, Value::Integer(2)));
        }
        _ => panic!("Expected Modified change"),
    }
}

#[test]
fn test_detect_diff_no_change() {
    let before = make_snapshot(vec![("com.test", vec![("key1", Value::Boolean(true))])]);
    let after = make_snapshot(vec![("com.test", vec![("key1", Value::Boolean(true))])]);

    let result = detect_diff(&before, &after);
    assert_eq!(result.total_changes, 0);
    assert!(result.domain_diffs.is_empty());
}

#[test]
fn self_diff_is_empty() {
    let empty = make_snapshot(vec![]);
    let r = detect_diff(&empty, &empty);
    assert_eq!(r.total_changes, 0);
    assert!(r.domain_diffs.is_empty());

    let s = make_snapshot(vec![
        ("b.domain", vec![("x", Value::Array(vec![Value::Integer(1), real_value(0.25)]))]),
        ("a.domain", vec![("k", Value::Dictionary(vec![("z".to_string(), Value::Boolean(true))]))]),
    ]);
    let r = detect_diff(&s, &s);
    assert_eq!(r.total_changes, 0);
    assert!(r.domain_diffs.is_empty());
}

#[test]
fn removed_domain_scenario() {
    let before = make_snapshot(vec![("com.test", vec![("k1", Value::Boolean(true))])]);
    let after = make_snapshot(vec![]);
    let r = detect_diff(&before, &after);
    assert_eq!(r.total_changes, 1);
    assert_eq!(r.domain_diffs.len(), 1);
    assert_eq!(r.domain_diffs[0].domain, "com.test");
    assert_eq!(r.domain_diffs[0].changes.len(), 1);
    match &r.domain_diffs[0].changes[0] {
        Change::Removed { key, old_value, .. } => {
            assert_eq!(key, "k1");
            assert!(matches!(old_value, Value::Boolean(true)));
        }
        _ => panic!("Expected Removed change"),
    }
}

#[test]
fn one_sided_and_shared_keys() {
    let before = make_snapshot(vec![(
        "d",
        vec![("gone", Value::Integer(1)), ("same", Value::Integer(2)), ("changed", Value::Integer(3))],
    )]);
    let after = make_snapshot(vec![(
        "d",
        vec![("new", Value::Integer(4)), ("same", Value::Integer(2)), ("changed", Value::Integer(5))],
    )]);
    let r = detect_diff(&before, &after);
    assert_eq!(
        summary(&r),
        vec![(
            "d".to_string(),
            vec!["~changed".to_string(), "-gone".to_string(), "+new".to_string()]
        )]
    );
    assert_eq!(r.total_changes, 3);
    match &r.domain_diffs[0].changes[0] {
        Change::Modified { old_value, new_value, .. } => {
            assert!(matches!(old_value, Value::Integer(3)));
            assert!(matches!(new_value, Value::Integer(5)));
        }
        _ => panic!("Expected Modified change"),
    }
}

#[test]
fn domains_and_keys_come_out_sorted() {
    let before = make_snapshot(vec![
        ("zeta", vec![("b", Value::Integer(1)), ("a", Value::Integer(1))]),
        ("Alpha", vec![("x", Value::Integer(1))]),
    ]);
    let after = make_snapshot(vec![
        ("mid", vec![("q", Value::Boolean(true)), ("B", Value::Boolean(false))]),
        ("Alpha", vec![("x", Value::Integer(2))]),
    ]);
    let r = detect_diff(&before, &after);
    assert_eq!(
        summary(&r),
        vec![
            ("Alpha".to_string(), vec!["~x".to_string()]),
            ("mid".to_string(), vec!["+B".to_string(), "+q".to_string()]),
            ("zeta".to_string(), vec!["-a".to_string(), "-b".to_string()]),
        ]
    );
    assert_eq!(r.total_changes, 5);
    for dd in &r.domain_diffs {
        for c in &dd.changes {
            assert_eq!(c.domain(), dd.domain);
        }
    }
}

#[test]
fn empty_domain_is_not_reported() {
    let before = make_snapshot(vec![("empty.domain", vec![])]);
    let after = make_snapshot(vec![("other.empty", vec![])]);
    let r = detect_diff(&before, &after);
    assert_eq!(r.total_changes, 0);
    assert!(r.domain_diffs.is_empty());
}

#[test]
fn repeated_diff_is_identical() {
    let before = make_snapshot(vec![("d", vec![("a", Value::Integer(1)), ("b", Value::Boolean(true))])]);
    let after = make_snapshot(vec![("d", vec![("a", Value::Integer(2)), ("c", Value::Boolean(true))])]);
    let r1 = detect_diff(&before, &after);
    let r2 = detect_diff(&before, &after);
    assert_eq!(format!("{:?}", r1), format!("{:?}", r2));
    assert_eq!(r1.total_changes, r2.total_changes);
}

#[test]
fn diff_settings_marks_every_change_with_domain() {
    let mut b = DomainSettings::new();
    b.insert("k".to_string(), Value::Integer(1));
    let a = DomainSettings::new();
    let cs = detect_domain_changes("dom", &b, &a);
    assert_eq!(cs.len(), 1);
    assert_eq!(cs[0].domain(), "dom");
    assert_eq!(cs[0].key(), "k");
}

#[test]
fn insert_replaces_and_counts() {
    let mut s = DomainSettings::new();
    s.insert("b".to_string(), Value::Integer(1));
    s.insert("a".to_string(), Value::Integer(2));
    s.insert("b".to_string(), Value::Integer(3));
    assert_eq!(s.len(), 2);
    let keys: Vec<&str> = s.entries().iter().map(|(k, _)| k.as_str()).collect();
    assert_eq!(keys, vec!["a", "b"]);
    assert!(matches!(s.entries()[1].1, Value::Integer(3)));

    let mut snap = Snapshot::new();
    snap.insert_domain("x".to_string(), DomainSettings::new());
    snap.insert_domain("y".to_string(), s);
    snap.insert_domain("x".to_string(), DomainSettings::new());
    assert_eq!(snap.domain_count(), 2);
    assert_eq!(snap.total_keys(), Some(2));
}

#[test]
fn settings_from_root_value() {
    let root = Value::Dictionary(vec![
        ("b".to_string(), Value::Integer(1)),
        ("a".to_string(), Value::Boolean(true)),
    ]);
    let s = DomainSettings::from_value(&root);
    assert_eq!(s.len(), 2);
    assert_eq!(s.entries()[0].0, "a");
    let s = DomainSettings::from_value(&Value::Integer(3));
    assert_eq!(s.len(), 0);
}

// --- values_equal ---

#[test]
fn test_values_equal_bool() {
    assert!(values_equal(&Value::Boolean(true), &Value::Boolean(true)));
    assert!(!values_equal(&Value::Boolean(true), &Value::Boolean(false)));
}

#[test]
fn test_values_equal_int() {
    assert!(values_equal(&Value::Integer(42), &Value::Integer(42)));
    assert!(!values_equal(&Value::Integer(1), &Value::Integer(2)));
}

#[test]
fn test_values_equal_real() {
    assert!(values_equal(&real_value(3.14), &real_value(3.14)));
    assert!(!values_equal(&real_value(1.0), &real_value(2.0)));
}

#[test]
fn test_values_equal_string() {
    assert!(values_equal(&Value::Text("abc".to_string()), &Value::Text("abc".to_string())));
    assert!(!values_equal(&Value::Text("abc".to_string()), &Value::Text("xyz".to_string())));
}

#[test]
fn test_values_equal_array() {
    let a = Value::Array(vec![Value::Boolean(true), Value::Integer(1)]);
    let b = Value::Array(vec![Value::Boolean(true), Value::Integer(1)]);
    let c = Value::Array(vec![Value::Boolean(false)]);
    assert!(values_equal(&a, &b));
    assert!(!values_equal(&a, &c));
}

#[test]
fn test_values_equal_dict() {
    let da = vec![("k".to_string(), Value::Integer(1))];
    let db = vec![("k".to_string(), Value::Integer(1))];
    let dc = vec![("k".to_string(), Value::Integer(2))];

    assert!(values_equal(&Value::Dictionary(da.clone()), &Value::Dictionary(db)));
    assert!(!values_equal(&Value::Dictionary(da), &Value::Dictionary(dc)));
}

#[test]
fn test_values_equal_different_types() {
    assert!(!values_equal(&Value::Boolean(true), &Value::Integer(1)));
    assert!(!values_equal(&Value::Text("1".to_string()), &Value::Integer(1)));
}

#[test]
fn values_equal_dictionary_ignores_order() {
    let a = Value::Dictionary(vec![
        ("x".to_string(), Value::Integer(1)),
        ("y".to_string(), Value::Integer(2)),
    ]);
    let b = Value::Dictionary(vec![
        ("y".to_string(), Value::Integer(2)),
        ("x".to_string(), Value::Integer(1)),
    ]);
    assert!(values_equal(&a, &b));
    let c = Value::Dictionary(vec![("x".to_string(), Value::Integer(1))]);
    assert!(!values_equal(&a, &c));
}

#[test]
fn values_equal_reals_zero_and_nan() {
    assert!(values_equal(&real_value(0.0), &real_value(-0.0)));
    assert!(!values_equal(&real_value(f64::NAN), &real_value(f64::NAN)));
    assert!(values_equal(&Value::Unsupported, &Value::Unsupported));
    assert!(values_equal(&Value::Binary(vec![1, 2]), &Value::Binary(vec![1, 2])));
    assert!(!values_equal(&Value::Binary(vec![1, 2]), &Value::Binary(vec![1])));
}

#[test]
fn deep_copy_is_equal() {
    let v = Value::Array(vec![
        Value::Dictionary(vec![("k".to_string(), Value::Text("v".to_string()))]),
        Value::Reference(9),
        Value::Timestamp("2020-01-01T00:00:00Z".to_string()),
    ]);
    let c = v.deep_copy();
    assert!(values_equal(&v, &c));
    assert_eq!(format!("{:?}", v), format!("{:?}", c));
}
