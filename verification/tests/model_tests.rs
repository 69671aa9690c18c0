use confrender::model::{build_template_model, insert_with_path, split_dotted_key, TemplateNode};
use confrender::order::{str_eq, str_lex_leq};
use confrender::props::PropertyMap;

fn leaf(s: &str) -> TemplateNode {
    TemplateNode::Leaf(s.to_string())
}

fn object(members: Vec<(&str, TemplateNode)>) -> TemplateNode {
    TemplateNode::Object(members.into_iter().map(|(k, n)| (k.to_string(), n)).collect())
}

#[test]
fn key_order_is_lexicographic() {
    assert!(str_lex_leq("db", "db.host"));
    assert!(str_lex_leq("db.host", "db.port"));
    assert!(!str_lex_leq("db.port", "db.host"));
    assert!(str_lex_leq("", "a"));
    assert!(str_lex_leq("a", "a"));
    assert!(str_lex_leq("Z", "a"));
}

#[test]
fn str_eq_compares_contents() {
    assert!(str_eq("abc", "abc"));
    assert!(!str_eq("abc", "abd"));
    assert!(!str_eq("abc", "ab"));
    assert!(str_eq("", ""));
}

#[test]
fn split_dotted_key_cases() {
    assert_eq!(split_dotted_key("a.b.c"), vec!["a", "b", "c"]);
    assert_eq!(split_dotted_key("plain"), vec!["plain"]);
    assert_eq!(split_dotted_key("a..b"), vec!["a", "", "b"]);
    assert_eq!(split_dotted_key(".a."), vec!["", "a", ""]);
    assert_eq!(split_dotted_key(""), vec![""]);
}

#[test]
fn build_nests_dotted_keys() {
    let mut pm = PropertyMap::new();
    pm.insert("a.b".to_string(), "1".to_string());
    pm.insert("a.c".to_string(), "2".to_string());
    pm.insert("d".to_string(), "3".to_string());
    let (doc, conflicts) = build_template_model(pm);
    let expected = object(vec![
        ("a", object(vec![("b", leaf("1")), ("c", leaf("2"))])),
        ("d", leaf("3")),
    ]);
    assert_eq!(doc, expected);
    assert!(conflicts.is_empty());
}

#[test]
fn conflict_tie_break_keeps_the_shorter_key() {
    let mut pm = PropertyMap::new();
    pm.insert("db".to_string(), "conflict".to_string());
    pm.insert("db.host".to_string(), "h1".to_string());
    pm.insert("db.port".to_string(), "5432".to_string());
    let (doc, conflicts) = build_template_model(pm);
    assert_eq!(doc, object(vec![("db", leaf("conflict"))]));
    assert_eq!(conflicts, vec!["db.host".to_string(), "db.port".to_string()]);
}

#[test]
fn shorter_key_wins_whatever_the_map_order_was() {
    let mut pm = PropertyMap::new();
    pm.insert("db.host".to_string(), "h1".to_string());
    pm.insert("db".to_string(), "late".to_string());
    let (doc, conflicts) = build_template_model(pm);
    assert_eq!(doc, object(vec![("db", leaf("late"))]));
    assert_eq!(conflicts, vec!["db.host".to_string()]);
}

#[test]
fn build_is_deterministic_across_insertion_orders() {
    let mut one = PropertyMap::new();
    one.insert("x.y".to_string(), "1".to_string());
    one.insert("x.z".to_string(), "2".to_string());
    one.insert("w".to_string(), "3".to_string());

    let mut two = PropertyMap::new();
    two.insert("w".to_string(), "3".to_string());
    two.insert("x.z".to_string(), "2".to_string());
    two.insert("x.y".to_string(), "1".to_string());

    let (doc_one, conflicts_one) = build_template_model(one);
    let (doc_two, conflicts_two) = build_template_model(two);
    assert_eq!(doc_one, doc_two);
    assert_eq!(conflicts_one, conflicts_two);
}

#[test]
fn build_repeats_identically() {
    let mut first = PropertyMap::new();
    first.insert("db".to_string(), "conflict".to_string());
    first.insert("db.host".to_string(), "h1".to_string());
    let mut second = PropertyMap::new();
    second.insert("db".to_string(), "conflict".to_string());
    second.insert("db.host".to_string(), "h1".to_string());
    assert_eq!(build_template_model(first), build_template_model(second));
}

#[test]
fn latest_insert_wins_inside_the_property_map() {
    let mut pm = PropertyMap::new();
    pm.insert("k".to_string(), "old".to_string());
    pm.insert("k".to_string(), "new".to_string());
    assert_eq!(pm.get("k"), Some(&"new".to_string()));
    let (doc, conflicts) = build_template_model(pm);
    assert_eq!(doc, object(vec![("k", leaf("new"))]));
    assert!(conflicts.is_empty());
}

#[test]
fn insert_with_path_sets_a_leaf_along_fresh_segments() {
    let root = TemplateNode::Object(Vec::new());
    let path = vec!["a".to_string(), "b".to_string()];
    let (doc, ok) = insert_with_path(root, &path, 0, &"v".to_string());
    assert!(ok);
    assert_eq!(doc, object(vec![("a", object(vec![("b", leaf("v"))]))]));
}

#[test]
fn insert_with_path_refuses_to_cross_a_leaf() {
    let root = object(vec![("a", leaf("taken"))]);
    let path = vec!["a".to_string(), "b".to_string()];
    let (doc, ok) = insert_with_path(root, &path, 0, &"v".to_string());
    assert!(!ok);
    assert_eq!(doc, object(vec![("a", leaf("taken"))]));
}

#[test]
fn insert_with_path_never_overrides_a_mapping() {
    let root = object(vec![("a", object(vec![("b", leaf("1"))]))]);
    let path = vec!["a".to_string()];
    let (doc, ok) = insert_with_path(root, &path, 0, &"flat".to_string());
    assert!(!ok);
    assert_eq!(doc, object(vec![("a", object(vec![("b", leaf("1"))]))]));
}

#[test]
fn empty_segments_are_ordinary_names() {
    let mut pm = PropertyMap::new();
    pm.insert("a..b".to_string(), "1".to_string());
    let (doc, conflicts) = build_template_model(pm);
    let expected = object(vec![("a", object(vec![("", object(vec![("b", leaf("1"))]))]))]);
    assert_eq!(doc, expected);
    assert!(conflicts.is_empty());
}
