use editsync::merge::{find_key, merge_entries, Combine, Json};

fn leaf(text: &str) -> Json {
    Json::Scalar(text.to_owned())
}

fn object(entries: Vec<(&str, Json)>) -> Json {
    Json::Object(entries.into_iter().map(|(k, v)| (k.to_owned(), v)).collect())
}

fn sorted(value: Json) -> Json {
    match value {
        Json::Object(entries) => {
            let mut entries: Vec<(String, Json)> =
                entries.into_iter().map(|(k, v)| (k, sorted(v))).collect();
            entries.sort_by(|a, b| a.0.cmp(&b.0));
            Json::Object(entries)
        }
        other => other,
    }
}

#[test]
fn null_on_the_right_changes_nothing() {
    assert_eq!(leaf("1").combine(Json::Null), leaf("1"));
    assert_eq!(Json::Null.combine(Json::Null), Json::Null);
    let o = object(vec![("a", leaf("1"))]);
    assert_eq!(o.duplicate().combine(Json::Null), o);
}

#[test]
fn right_wins_on_leaves_and_mixed_shapes() {
    assert_eq!(leaf("1").combine(leaf("2")), leaf("2"));
    assert_eq!(Json::Null.combine(leaf("2")), leaf("2"));
    let o = object(vec![("a", leaf("1"))]);
    assert_eq!(o.duplicate().combine(leaf("2")), leaf("2"));
    assert_eq!(leaf("2").combine(o.duplicate()), o);
    assert_eq!(Json::Null.combine(o.duplicate()), o);
}

#[test]
fn objects_merge_key_by_key() {
    let left = object(vec![
        ("keep", leaf("1")),
        ("both", leaf("2")),
        ("nested", object(vec![("x", leaf("3")), ("y", leaf("4"))])),
        ("nulled", leaf("5")),
    ]);
    let right = object(vec![
        ("both", leaf("20")),
        ("nested", object(vec![("y", leaf("40")), ("z", leaf("50"))])),
        ("nulled", Json::Null),
        ("new", leaf("6")),
    ]);
    let expect = object(vec![
        ("both", leaf("20")),
        ("keep", leaf("1")),
        ("nested", object(vec![("x", leaf("3")), ("y", leaf("40")), ("z", leaf("50"))])),
        ("new", leaf("6")),
        ("nulled", leaf("5")),
    ]);
    assert_eq!(sorted(left.combine(right)), expect);
}

#[test]
fn arrays_are_replaced_not_merged() {
    let left = Json::Array(vec![leaf("1"), leaf("2")]);
    let right = Json::Array(vec![leaf("3")]);
    assert_eq!(left.duplicate().combine(right.duplicate()), right);
    assert_eq!(left.duplicate().combine(Json::Null), left);
    let o = object(vec![("a", left.duplicate())]);
    let p = object(vec![("a", right.duplicate())]);
    assert_eq!(o.combine(p.duplicate()), p);
}

#[test]
fn merged_entries_keep_their_place_and_new_ones_follow() {
    let left = vec![("a".to_owned(), leaf("1")), ("b".to_owned(), leaf("2"))];
    let right = vec![("c".to_owned(), leaf("3")), ("a".to_owned(), leaf("9")), ("d".to_owned(), leaf("4"))];
    let out = merge_entries(left, right);
    let keys: Vec<&str> = out.iter().map(|e| e.0.as_str()).collect();
    assert_eq!(keys, vec!["a", "b", "d", "c"]);
    assert_eq!(out[0].1, leaf("9"));
    assert_eq!(find_key(&out, &"d".to_owned()), Some(2));
    assert_eq!(find_key(&out, &"zz".to_owned()), None);
}
