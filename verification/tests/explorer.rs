use json_editor::input_manager::{process_input, InputAction};
use json_editor::json_enviroment::{EntryId, JsonEnviroment, JsonIndex, JsonValue, List};
use json_editor::json_tree::{JsonLeaf, JsonTree};
use json_editor::json_utils::json_value::{ToUI, ValueType};
use json_editor::json_utils::{
    checked_value_count, get_value_count, ReadError, key_document_accepted, valide_json_key, validate_json_value,
};
use json_editor::text::decimal_string;
use json_editor::text_filter::TextFilter;
use json_editor::ui_handles::{filter_next, Direction, SetErrors};

fn parse(text: &str) -> Option<JsonTree> {
    validate_json_value(text)
}

fn sample() -> JsonTree {
    parse(r#"{"name":"Ann","tags":["x",1,true,null],"n":2.5}"#).unwrap()
}

fn env_of(text: &str) -> JsonEnviroment {
    JsonEnviroment::from_json(parse(text).unwrap(), String::from("doc.json"))
}

fn ids(env: &JsonEnviroment) -> Vec<usize> {
    env.filtered_indicies.iter().map(|e| e.0).collect()
}

#[test]
fn list_new_is_folded() {
    let l = List::new(4);
    assert_eq!(l.size, 4);
    assert!(l.is_folded);
}

#[test]
fn value_count_of_sample() {
    assert_eq!(get_value_count(&sample()), 8);
    assert_eq!(get_value_count(&JsonTree::Leaf(JsonLeaf::Null)), 1);
    assert_eq!(get_value_count(&JsonTree::Array(vec![])), 1);
}

#[test]
fn from_json_flattens_in_document_order() {
    let env = JsonEnviroment::from_json(sample(), String::from("a/b.json"));
    assert_eq!(env.path(), "a/b.json");
    assert_eq!(env.entries.len(), 8);
    assert!(env.filtered_indicies.is_empty());
    let parents: Vec<usize> = env.entries.iter().map(|e| *e.parent()).collect();
    assert_eq!(parents, vec![0, 0, 0, 0, 3, 3, 3, 3]);
    let levels: Vec<usize> = env.entries.iter().map(|e| *e.level()).collect();
    assert_eq!(levels, vec![0, 1, 1, 1, 2, 2, 2, 2]);
    assert!(matches!(env.entries[0].index(), JsonIndex::Root));
    assert!(matches!(env.entries[0].value(), JsonValue::Object(List { size: 3, is_folded: true })));
    assert!(matches!(env.entries[1].index(), JsonIndex::Key(k) if k == "n"));
    assert!(matches!(env.entries[1].value(), JsonValue::Value(JsonLeaf::Number(n)) if n == "2.5"));
    assert!(matches!(env.entries[2].index(), JsonIndex::Key(k) if k == "name"));
    assert!(matches!(env.entries[3].value(), JsonValue::Array(List { size: 4, is_folded: true })));
    assert!(matches!(env.entries[5].index(), JsonIndex::Index(1)));
    assert!(matches!(env.entries[7].value(), JsonValue::Value(JsonLeaf::Null)));
}

#[test]
fn from_json_of_scalar_is_one_root_entry() {
    let env = env_of("true");
    assert_eq!(env.entries.len(), 1);
    assert!(matches!(env.entries[0].index(), JsonIndex::Root));
    assert!(matches!(env.entries[0].value(), JsonValue::Value(JsonLeaf::Bool(true))));
    assert_eq!(*env.entries[0].level(), 0);
}

#[test]
fn entry_rows_show_names_and_values() {
    let env = JsonEnviroment::from_json(sample(), String::from("x"));
    let root = env.entries[0].to_ui(0);
    assert_eq!(root.name, "");
    assert_eq!(root.value, "{");
    assert_eq!(root.value_type, ValueType::Object);
    assert!(!root.has_key);
    let name = env.entries[2].to_ui(2);
    assert_eq!(name.name, "\"name\"");
    assert_eq!(name.value, "\"Ann\"");
    assert_eq!(name.value_type, ValueType::String);
    assert!(name.has_key);
    assert_eq!(name.level, 1);
    assert_eq!(name.id, 2);
    assert!(!name.in_filter);
    let tags = env.entries[3].to_ui(3);
    assert_eq!(tags.value, "[");
    assert_eq!(tags.value_type, ValueType::Array);
    let one = env.entries[5].to_ui(5);
    assert_eq!(one.name, "1");
    assert_eq!(one.value, "1");
    assert_eq!(one.value_type, ValueType::Number);
    assert!(!one.has_key);
    assert_eq!(env.entries[6].to_ui(6).value, "true");
    assert_eq!(env.entries[6].value_type(), ValueType::Bool);
    assert_eq!(env.entries[7].to_ui(7).value, "null");
    assert_eq!(env.entries[7].value_type(), ValueType::Null);
    assert_eq!(env.entries[1].to_ui(1).value, "2.5");
}

#[test]
fn string_values_are_shown_escaped() {
    let env = env_of(r#"["a\"b\nc"]"#);
    assert_eq!(env.entries[1].to_ui(1).value, "\"a\\\"b\\nc\"");
}

#[test]
fn folded_containers_hide_their_scalars() {
    let env = JsonEnviroment::from_json(sample(), String::from("x"));
    let rows = env.to_ui();
    let shown: Vec<usize> = rows.iter().map(|r| r.id).collect();
    assert_eq!(shown, vec![0, 3]);
}

#[test]
fn scalar_after_a_folded_sibling_container_is_shown() {
    let env = env_of("[[1],2]");
    let rows = env.to_ui();
    let shown: Vec<usize> = rows.iter().map(|r| r.id).collect();
    assert_eq!(shown, vec![0, 1, 3]);
    assert_eq!(rows[2].value, "2");
    assert_eq!(rows[2].name, "1");
}

#[test]
fn scalar_document_is_shown() {
    let rows = env_of("\"hi\"").to_ui();
    assert_eq!(rows.len(), 1);
    assert_eq!(rows[0].value, "\"hi\"");
}

#[test]
fn filter_selects_by_key_and_value() {
    let mut env = JsonEnviroment::from_json(sample(), String::from("x"));
    env.set_filter(&TextFilter::new("a").unwrap());
    assert_eq!(ids(&env), vec![2, 3]);
    env.set_filter(&TextFilter::new("^2").unwrap());
    assert_eq!(ids(&env), vec![1]);
    env.set_filter(&TextFilter::new("true").unwrap());
    assert_eq!(ids(&env), vec![6]);
    env.set_filter(&TextFilter::new("null").unwrap());
    assert_eq!(ids(&env), Vec::<usize>::new());
    env.set_filter(&TextFilter::new("^Ann$").unwrap());
    assert_eq!(ids(&env), vec![2]);
    assert_eq!(env.entries.len(), 8);
}

#[test]
fn invalid_pattern_gives_no_filter() {
    assert!(TextFilter::new("(").is_none());
    assert!(TextFilter::new("[a-").is_none());
    assert!(TextFilter::new("a|b").is_some());
}

#[test]
fn rows_of_the_selection_are_marked() {
    let mut env = env_of("[[1],2]");
    env.set_filter(&TextFilter::new("^2$").unwrap());
    assert_eq!(ids(&env), vec![3]);
    let rows = env.to_ui();
    let marks: Vec<bool> = rows.iter().map(|r| r.in_filter).collect();
    assert_eq!(marks, vec![false, false, true]);
}

#[test]
fn hidden_selected_entry_stops_the_marking() {
    let mut env = JsonEnviroment::from_json(sample(), String::from("x"));
    env.set_filter(&TextFilter::new("a").unwrap());
    let rows = env.to_ui();
    assert!(rows.iter().all(|r| !r.in_filter));
}

#[test]
fn set_value_replaces_a_scalar() {
    let mut env = JsonEnviroment::from_json(sample(), String::from("x"));
    assert!(env.set_value(1, " false ").is_ok());
    assert!(matches!(env.entries[1].value(), JsonValue::Value(JsonLeaf::Bool(false))));
    assert!(matches!(env.entries[1].index(), JsonIndex::Key(k) if k == "n"));
    assert_eq!(env.entries[1].to_ui(1).value, "false");
    assert_eq!(env.entries.len(), 8);
}

#[test]
fn set_value_errors() {
    let mut env = JsonEnviroment::from_json(sample(), String::from("x"));
    assert_eq!(env.set_value(1, "{"), Err(SetErrors::InvalidJson));
    assert_eq!(env.set_value(1, "[1]"), Err(SetErrors::InvalidJson));
    assert_eq!(env.set_value(1, "{\"a\":1}"), Err(SetErrors::InvalidJson));
    assert_eq!(env.set_value(8, "1"), Err(SetErrors::InvalidIndex));
    assert_eq!(env.set_value(99, "["), Err(SetErrors::InvalidJson));
    assert!(matches!(env.entries[1].value(), JsonValue::Value(JsonLeaf::Number(n)) if n == "2.5"));
}

#[test]
fn set_value_on_a_container_keeps_its_elements() {
    let mut env = JsonEnviroment::from_json(sample(), String::from("x"));
    assert!(env.set_value(3, "7").is_ok());
    assert_eq!(env.entries.len(), 8);
    assert!(matches!(env.entries[3].value(), JsonValue::Value(JsonLeaf::Number(n)) if n == "7"));
    assert_eq!(*env.entries[4].parent(), 3);
}

#[test]
fn set_key_renames_an_entry() {
    let mut env = JsonEnviroment::from_json(sample(), String::from("x"));
    assert!(env.set_key(4, "\"first\"").is_ok());
    assert!(matches!(env.entries[4].index(), JsonIndex::Key(k) if k == "first"));
    let row = env.entries[4].to_ui(4);
    assert_eq!(row.name, "\"first\"");
    assert!(row.has_key);
    assert_eq!(row.value, "\"x\"");
}

#[test]
fn set_key_errors() {
    let mut env = JsonEnviroment::from_json(sample(), String::from("x"));
    assert_eq!(env.set_key(4, "nope"), Err(SetErrors::InvalidJson));
    assert_eq!(env.set_key(4, "12"), Err(SetErrors::InvalidKey));
    assert_eq!(env.set_key(4, "[\"a\"]"), Err(SetErrors::InvalidKey));
    assert_eq!(env.set_key(40, "\"a\""), Err(SetErrors::InvalidIndex));
    assert!(matches!(env.entries[4].index(), JsonIndex::Index(0)));
}

#[test]
fn key_text_validation() {
    assert!(valide_json_key("   "));
    assert!(valide_json_key(""));
    assert!(valide_json_key(" \"a\" "));
    assert!(!valide_json_key("1"));
    assert!(!valide_json_key("x"));
    assert!(!valide_json_key("null"));
}

#[test]
fn filter_next_moves_forward_and_backward() {
    let filter = vec![EntryId(2), EntryId(5), EntryId(9)];
    let rows = vec![EntryId(0), EntryId(2), EntryId(5), EntryId(7), EntryId(9)];
    assert_eq!(filter_next(&filter, &rows, 1, Direction::Forward), Some(2));
    assert_eq!(filter_next(&filter, &rows, 1, Direction::Backward), Some(1));
    assert_eq!(filter_next(&filter, &rows, 0, Direction::Forward), Some(1));
    assert_eq!(filter_next(&filter, &rows, 3, Direction::Forward), Some(4));
    assert_eq!(filter_next(&filter, &rows, 3, Direction::Backward), Some(1));
}

#[test]
fn filter_next_past_the_last_selected_entry() {
    let filter = vec![EntryId(2), EntryId(5), EntryId(9)];
    let rows = vec![EntryId(0), EntryId(2), EntryId(5), EntryId(7), EntryId(9)];
    assert_eq!(filter_next(&filter, &rows, 4, Direction::Forward), Some(1));
    let short = vec![EntryId(2), EntryId(5)];
    assert_eq!(filter_next(&short, &rows, 4, Direction::Forward), None);
    assert_eq!(filter_next(&Vec::new(), &rows, 0, Direction::Backward), None);
}

#[test]
fn filter_next_to_a_hidden_entry_goes_to_the_first_row() {
    let filter = vec![EntryId(3), EntryId(6)];
    let rows = vec![EntryId(0), EntryId(1), EntryId(6)];
    assert_eq!(filter_next(&filter, &rows, 1, Direction::Forward), Some(0));
    assert_eq!(filter_next(&filter, &rows, 0, Direction::Forward), Some(0));
}

#[test]
fn key_presses() {
    assert_eq!(process_input(Some('p'), true), InputAction::FilterNext(Direction::Backward));
    assert_eq!(process_input(Some('n'), true), InputAction::FilterNext(Direction::Forward));
    assert_eq!(process_input(Some('f'), true), InputAction::FocusFilter);
    assert_eq!(process_input(Some('n'), false), InputAction::ToggleToolbar);
    assert_eq!(process_input(Some('p'), false), InputAction::Ignore);
    assert_eq!(process_input(Some('f'), false), InputAction::Ignore);
    assert_eq!(process_input(None, true), InputAction::Ignore);
    assert_eq!(process_input(Some('x'), true), InputAction::Ignore);
}

#[test]
fn decimal_names() {
    assert_eq!(decimal_string(0), "0");
    assert_eq!(decimal_string(7), "7");
    assert_eq!(decimal_string(10), "10");
    assert_eq!(decimal_string(1234), "1234");
    assert_eq!(decimal_string(usize::MAX), usize::MAX.to_string());
}

#[test]
fn read_file_builds_the_explorer() {
    let bytes = br#"{"name":"Ann","tags":["x",1,true,null],"n":2.5}"#;
    let env = json_editor::json_utils::read_file(String::from("f.json"), bytes).unwrap();
    assert_eq!(env.path(), "f.json");
    assert_eq!(env.entries.len(), 8);
    match json_editor::json_utils::read_file(String::from("f.json"), b"{\"a\":") {
        Err(ReadError::Json(e)) => assert!(e.is_eof()),
        _ => panic!("expected a JSON error"),
    }
    match json_editor::json_utils::read_file(String::from("f.json"), b"[1,]") {
        Err(ReadError::Json(e)) => {
            assert!(e.is_syntax());
            assert_eq!(e.line(), 1);
        }
        _ => panic!("expected a JSON error"),
    }
    let current = json_editor::json_parser::read_file(String::from("g.json"), b"[1]").unwrap();
    assert_eq!(current.path, "g.json");
    assert!(matches!(current.json, JsonTree::Array(ref v) if v.len() == 1));
    assert!(matches!(
        json_editor::json_parser::read_file(String::from("g.json"), b"nope"),
        Err(ReadError::Json(_))
    ));
}

#[test]
fn entry_count_matches_value_count() {
    for text in ["1", "[]", "{}", "[[],[[]]]", r#"{"a":{"b":[1,2,{"c":null}]}}"#] {
        let t = parse(text).unwrap();
        let n = get_value_count(&t);
        let env = JsonEnviroment::from_json(t, String::new());
        assert_eq!(env.entries.len(), n);
        for (i, e) in env.entries.iter().enumerate().skip(1) {
            let p = *e.parent();
            assert!(p < i);
            assert_eq!(*e.level(), *env.entries[p].level() + 1);
            assert!(!matches!(env.entries[p].value(), JsonValue::Value(_)));
        }
    }
}

#[test]
fn container_sizes_count_their_elements() {
    let env = env_of(r#"{"a":[1,[2,3],{}],"b":{"c":null,"d":[true]},"e":"x"}"#);
    for (q, e) in env.entries.iter().enumerate() {
        let children = env.entries.iter().skip(1).filter(|c| *c.parent() == q).count();
        match e.value() {
            JsonValue::Array(l) | JsonValue::Object(l) => assert_eq!(l.size, children),
            JsonValue::Value(_) => assert_eq!(children, 0),
        }
    }
}

#[test]
fn selection_is_in_increasing_order() {
    let mut env = env_of(r#"{"k1":"v1","k2":["v2","w"],"z":{"v3":0}}"#);
    env.set_filter(&TextFilter::new("v|k").unwrap());
    let sel = ids(&env);
    assert_eq!(sel, vec![1, 2, 3, 6]);
    assert!(sel.windows(2).all(|w| w[0] < w[1]));
}

#[test]
fn parsed_edits_apply_the_document() {
    let mut env = JsonEnviroment::from_json(sample(), String::from("x"));
    assert!(env.apply_value(1, Some(JsonTree::Leaf(JsonLeaf::Null))).is_ok());
    assert!(matches!(env.entries[1].value(), JsonValue::Value(JsonLeaf::Null)));
    assert_eq!(env.apply_value(1, None), Err(SetErrors::InvalidJson));
    assert_eq!(env.apply_value(1, Some(JsonTree::Array(vec![]))), Err(SetErrors::InvalidJson));
    assert_eq!(env.apply_value(9, Some(JsonTree::Leaf(JsonLeaf::Null))), Err(SetErrors::InvalidIndex));
    assert!(env.apply_key(5, Some(JsonTree::Leaf(JsonLeaf::String(String::from("k"))))).is_ok());
    assert!(matches!(env.entries[5].index(), JsonIndex::Key(k) if k == "k"));
    assert_eq!(env.apply_key(5, None), Err(SetErrors::InvalidJson));
    assert_eq!(env.apply_key(5, Some(JsonTree::Leaf(JsonLeaf::Bool(true)))), Err(SetErrors::InvalidKey));
    assert_eq!(
        env.apply_key(50, Some(JsonTree::Leaf(JsonLeaf::String(String::new())))),
        Err(SetErrors::InvalidIndex)
    );
}

#[test]
fn parsing_trims_and_reads_documents() {
    assert!(validate_json_value("  ").is_none());
    assert!(validate_json_value("tru").is_none());
    assert!(matches!(validate_json_value(" \n 12 \t"), Some(JsonTree::Leaf(JsonLeaf::Number(n))) if n == "12"));
    assert!(matches!(validate_json_value("\"a b\""), Some(JsonTree::Leaf(JsonLeaf::String(s))) if s == "a b"));
    match validate_json_value(r#"{"b":1,"a":[null]}"#) {
        Some(JsonTree::Object(members)) => {
            assert_eq!(members.len(), 2);
            assert_eq!(members[0].0, "a");
            assert_eq!(members[1].0, "b");
        }
        _ => panic!("expected an object"),
    }
    assert!(key_document_accepted(validate_json_value("\"k\"")));
    assert!(!key_document_accepted(validate_json_value("3")));
    assert!(!key_document_accepted(None));
}

#[test]
fn control_characters_are_escaped_by_table() {
    let env = env_of("[\"a\\tb\\u0001c\\\\d/\\u00e9\"]");
    assert_eq!(env.entries[1].to_ui(1).value, "\"a\\tb\\u0001c\\\\d/\u{e9}\"");
}

#[test]
fn checked_count_and_depths() {
    assert_eq!(checked_value_count(&sample()), Some(8));
    assert_eq!(checked_value_count(&JsonTree::Leaf(JsonLeaf::Null)), Some(1));
    let env = JsonEnviroment::from_json(sample(), String::new());
    assert!(env.depths_in_range());
}

#[test]
fn fresh_document_rows() {
    let env = env_of(r#"[1,{"a":2},3,[4,[5],6]]"#);
    let rows: Vec<usize> = env.to_ui().iter().map(|r| r.id).collect();
    // entries: 0 [..], 1 1, 2 {..}, 3 2, 4 3, 5 [..], 6 4, 7 [5], 8 5, 9 6
    assert_eq!(rows, vec![0, 2, 4, 5, 7, 9]);
    assert!(env.to_ui().iter().all(|r| !r.in_filter));
}

fn rebuild(env: &JsonEnviroment, i: usize) -> JsonTree {
    let children: Vec<usize> =
        (1..env.entries.len()).filter(|&j| env.entries[j].parent == i).collect();
    match env.entries[i].value() {
        JsonValue::Value(JsonLeaf::Null) => JsonTree::Leaf(JsonLeaf::Null),
        JsonValue::Value(JsonLeaf::Bool(b)) => JsonTree::Leaf(JsonLeaf::Bool(*b)),
        JsonValue::Value(JsonLeaf::Number(n)) => JsonTree::Leaf(JsonLeaf::Number(n.clone())),
        JsonValue::Value(JsonLeaf::String(s)) => JsonTree::Leaf(JsonLeaf::String(s.clone())),
        JsonValue::Array(_) => JsonTree::Array(children.iter().map(|&j| rebuild(env, j)).collect()),
        JsonValue::Object(_) => JsonTree::Object(
            children
                .iter()
                .map(|&j| match env.entries[j].index() {
                    JsonIndex::Key(k) => (k.clone(), rebuild(env, j)),
                    _ => panic!("object member without a key"),
                })
                .collect(),
        ),
    }
}

#[test]
fn flattened_entries_keep_the_document() {
    for text in ["1", "[]", r#"{"a":{"b":[1,2,{"c":null}]},"d":"e","f":[[],{}]}"#] {
        let doc = parse(text).unwrap();
        let expected = format!("{:?}", doc);
        let env = JsonEnviroment::from_json(doc, String::new());
        assert_eq!(format!("{:?}", rebuild(&env, 0)), expected);
    }
}

#[test]
fn unfolded_container_depth_bound() {
    let mut env = env_of("[1]");
    assert!(env.depths_in_range());
    env.entries[1].level = usize::MAX;
    assert!(env.depths_in_range());
    assert_eq!(env.to_ui().len(), 1);
    if let JsonValue::Array(l) = &mut env.entries[0].value {
        l.is_folded = false;
    }
    env.entries[0].level = usize::MAX;
    assert!(!env.depths_in_range());
}
