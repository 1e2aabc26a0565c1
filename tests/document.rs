use redisjson_core::commands::KeyValue;
use redisjson_core::path::{backwards_compat_path, max_strlen, PathStep};
use redisjson_core::serialize::{to_json_text, Layout};
use redisjson_core::value::JsonValue;
use redisjson_core::verbs::{command_json_arr_append, command_json_arr_pop, command_json_get, command_json_num_op, command_json_set};
use redisjson_core::ops::{NumOp, NumOutcome};
use redisjson_core::planner::SetOptions;
use redisjson_core::error::JsonError;
use redisjson_core::planner::{static_path, StaticPathElement, UpdateInfo};
use redisjson_core::syntax::parse_query;
use redisjson_core::query::{select_paths, Segment, Selector};
use redisjson_core::serialize::{resp_serialize_inner, Reply};
use redisjson_core::verbs::{command_json_del, command_json_bool_toggle, command_json_str_append, command_json_arr_insert, command_json_arr_trim, command_json_clear, command_json_type, command_json_resp, parse_get_args};
use redisjson_core::commands::Format;
use redisjson_core::verbs::parse_set_args;
use redisjson_core::verbs::command_json_str_len;
use redisjson_core::access::{get_type_and_size, json_api_get_at, json_api_get_int, json_api_get_len, value_from_index};
use redisjson_core::value::JSONType;

fn num(i: i64) -> JsonValue {
    JsonValue::Integer(i)
}

fn arr(items: Vec<JsonValue>) -> JsonValue {
    JsonValue::Array(items)
}

fn obj(entries: Vec<(&str, JsonValue)>) -> JsonValue {
    JsonValue::Object(entries.into_iter().map(|(k, v)| (k.to_string(), v)).collect())
}

fn compact(v: &JsonValue) -> String {
    let layout = Layout { indent: String::new(), space: String::new(), newline: String::new() };
    to_json_text(v, &layout)
}

#[test]
fn legacy_paths_are_anchored_at_the_root() {
    assert_eq!(backwards_compat_path(".".to_string()), "$");
    assert_eq!(backwards_compat_path(".foo".to_string()), "$.foo");
    assert_eq!(backwards_compat_path("foo".to_string()), "$.foo");
    assert_eq!(backwards_compat_path("$.a[0]".to_string()), "$.a[0]");
    assert_eq!(backwards_compat_path("$".to_string()), "$");
}

#[test]
fn longest_subcommand_name() {
    assert_eq!(max_strlen(&["NOESCAPE", "INDENT", "NEWLINE", "SPACE", "FORMAT"]), 8);
    assert_eq!(max_strlen(&[]), 0);
}

#[test]
fn array_index_boundaries() {
    let doc = arr(vec![num(1), num(2), num(3)]);
    let kv = KeyValue::new(&doc);
    assert_eq!(kv.arr_index("$", &num(2), 0, 0), Ok(1));
    assert_eq!(kv.arr_index("$", &num(9), 0, 0), Ok(-1));
    assert_eq!(kv.arr_index("$", &num(2), 0, -2), Ok(-1));
    assert_eq!(kv.arr_index("$", &num(3), 0, -1), Ok(-1));
    assert_eq!(kv.arr_index("$", &num(3), -1, 0), Ok(2));
    assert_eq!(kv.arr_index("$", &num(1), -1, 0), Ok(-1));
}

#[test]
fn deep_equality_ignores_key_order() {
    let doc = JsonValue::Null;
    let kv = KeyValue::new(&doc);
    let a = obj(vec![("a", num(1)), ("b", num(2))]);
    let b = obj(vec![("b", num(2)), ("a", num(1))]);
    assert!(kv.is_eqaul(&a, &b));
    assert!(!kv.is_eqaul(&arr(vec![num(1), num(2)]), &arr(vec![num(2), num(1)])));
}

#[test]
fn compact_text() {
    let v = obj(vec![("a", arr(vec![num(1), num(-20), JsonValue::Str("x\"y".to_string())])), ("b", JsonValue::Null)]);
    assert_eq!(compact(&v), "{\"a\":[1,-20,\"x\\\"y\"],\"b\":null}");
}

#[test]
fn end_to_end_scenario() {
    let mut doc: Option<JsonValue> = None;
    let value = obj(vec![("a", arr(vec![num(1), num(2), num(3)]))]);
    assert_eq!(command_json_set(&mut doc, "$".to_string(), value, SetOptions::Any), Ok(true));
    let got = command_json_get(doc.as_ref(), &vec!["$.a[1]".to_string()]).unwrap().unwrap();
    assert_eq!(got, "[2]");
    let d = doc.as_mut().unwrap();
    assert_eq!(command_json_arr_append(d, "$.a".to_string(), vec![num(4)]), Ok(4));
    let popped = command_json_arr_pop(d, Some("$.a".to_string()), Some(-1)).unwrap().unwrap();
    assert_eq!(compact(&popped), "4");
    assert_eq!(compact(d), "{\"a\":[1,2,3]}");
    assert_eq!(command_json_num_op(d, "$.a".to_string(), NumOp::Incr, 1), Err(JsonError::TypeMismatch));
    assert_eq!(command_json_num_op(d, "$.b".to_string(), NumOp::Incr, 1), Err(JsonError::NotFound));
    assert_eq!(command_json_num_op(d, "$.a[0]".to_string(), NumOp::Incr, 1), Ok(NumOutcome::Int(2)));
    let _ = PathStep::Index(0);
}

fn pretty(v: &JsonValue) -> String {
    let layout = Layout { indent: "  ".to_string(), space: " ".to_string(), newline: "\n".to_string() };
    to_json_text(v, &layout)
}

fn sample() -> JsonValue {
    obj(vec![
        ("name", JsonValue::Str("tab\there \"q\" \\ \u{1}".to_string())),
        ("n", num(-9223372036854775808)),
        ("d", JsonValue::Double("1.5".to_string())),
        ("list", arr(vec![JsonValue::Bool(true), JsonValue::Bool(false), JsonValue::Null, arr(vec![]), obj(vec![])])),
        ("nested", obj(vec![("a", arr(vec![num(1), num(2)]))])),
    ])
}

#[test]
fn serialized_text_parses_back_to_the_same_value() {
    let v = sample();
    let compact_text = compact(&v);
    let pretty_text = pretty(&v);
    let a: serde_json::Value = serde_json::from_str(&compact_text).unwrap();
    let b: serde_json::Value = serde_json::from_str(&pretty_text).unwrap();
    assert_eq!(a, b);
    assert_eq!(a["name"], serde_json::Value::String("tab\there \"q\" \\ \u{1}".to_string()));
    assert_eq!(a["n"], serde_json::Value::from(i64::MIN));
    assert_eq!(a["list"][3], serde_json::Value::Array(vec![]));
}

#[test]
fn pretty_layout() {
    let v = obj(vec![("a", arr(vec![num(1), num(2)])), ("b", obj(vec![]))]);
    assert_eq!(pretty(&v), "{\n  \"a\": [\n    1,\n    2\n  ],\n  \"b\": {}\n}");
}

#[test]
fn control_characters_are_escaped() {
    let v = JsonValue::Str("a\u{8}\u{c}\n\r\t\u{1f}".to_string());
    assert_eq!(compact(&v), "\"a\\b\\f\\n\\r\\t\\u001f\"");
}

#[test]
fn set_prefers_existing_nodes() {
    let doc = obj(vec![("a", num(1))]);
    let kv = KeyValue::new(&doc);
    let plan = kv.find_paths("$.a", &SetOptions::Any).unwrap();
    assert_eq!(plan.len(), 1);
    assert!(matches!(&plan[0], UpdateInfo::SUI(_)));
    let plan = kv.find_paths("$.b", &SetOptions::Any).unwrap();
    assert_eq!(plan.len(), 1);
    match &plan[0] {
        UpdateInfo::AUI(a) => {
            assert_eq!(a.key, "b");
            assert!(a.path.is_empty());
        }
        _ => panic!("expected an addition"),
    }
    assert_eq!(kv.find_paths("$.b", &SetOptions::AlreadyExists).unwrap().len(), 0);
    let plan = kv.find_paths("$.a", &SetOptions::NotExists).unwrap();
    assert!(matches!(&plan[0], UpdateInfo::AUI(_)));
}

#[test]
fn additions_need_a_member_target() {
    let doc = obj(vec![("a", arr(vec![num(1)]))]);
    let kv = KeyValue::new(&doc);
    assert_eq!(kv.find_add_paths("$").err(), Some(JsonError::Syntax));
    assert_eq!(kv.find_add_paths("$.a[5]").err(), Some(JsonError::OutOfRange));
    assert_eq!(kv.find_add_paths("$..a").err(), Some(JsonError::Syntax));
    assert_eq!(kv.find_add_paths("$.*").err(), Some(JsonError::Syntax));
    assert_eq!(kv.find_add_paths("a").err(), Some(JsonError::Syntax));
    assert_eq!(kv.find_add_paths("$.x.y").unwrap().len(), 0);
}

#[test]
fn static_paths() {
    let e = static_path("$.a[2]['b c']").unwrap();
    assert_eq!(e.len(), 4);
    assert!(matches!(e[0], StaticPathElement::Root));
    assert!(matches!(&e[1], StaticPathElement::ObjectKey(k) if k == "a"));
    assert!(matches!(e[2], StaticPathElement::ArrayIndex(2)));
    assert!(matches!(&e[3], StaticPathElement::ObjectKey(k) if k == "b c"));
    assert_eq!(static_path("$[*]").err(), Some(JsonError::Syntax));
}

#[test]
fn query_syntax() {
    assert!(parse_query("$").unwrap().is_empty());
    let q = parse_query("$..x[-1].*[\"k\"]").unwrap();
    assert_eq!(q.len(), 4);
    assert!(matches!(&q[0], Segment::Descendant(Selector::Name(n)) if n == "x"));
    assert!(matches!(&q[1], Segment::Child(Selector::Index(-1))));
    assert!(matches!(&q[2], Segment::Child(Selector::All)));
    assert!(matches!(&q[3], Segment::Child(Selector::Name(n)) if n == "k"));
    assert!(parse_query("a").is_none());
    assert!(parse_query("$.").is_none());
    assert!(parse_query("$[1").is_none());
    assert!(parse_query("$[x]").is_none());
    assert!(parse_query("$[99999999999999999999]").is_none());
}

#[test]
fn selection_in_document_order() {
    let doc = obj(vec![("a", obj(vec![("a", num(1))])), ("b", arr(vec![obj(vec![("a", num(2))])]))]);
    let q = parse_query("$..a").unwrap();
    let ps = select_paths(&doc, &q);
    assert_eq!(ps.len(), 3);
    let kv = KeyValue::new(&doc);
    let vs = kv.get_values("$..a").unwrap();
    assert_eq!(vs.len(), 3);
    assert_eq!(compact(vs[1]), "1");
    assert_eq!(compact(vs[2]), "2");
    let last = kv.get_values("$.b[-1].a").unwrap();
    assert_eq!(compact(last[0]), "2");
    assert!(kv.get_values("$.b[-2]").unwrap().is_empty());
    assert_eq!(kv.get_first("$.zz").err(), Some(JsonError::NotFound));
    assert_eq!(kv.get_first("zz").err(), Some(JsonError::Syntax));
}

#[test]
fn reads_of_one_node() {
    let doc = obj(vec![("s", JsonValue::Str("héllo".to_string())), ("o", obj(vec![("x", num(1)), ("y", num(2))])), ("l", arr(vec![num(1)]))]);
    let kv = KeyValue::new(&doc);
    assert_eq!(kv.str_len("$.s"), Ok(6));
    assert_eq!(kv.str_len("$.o"), Err(JsonError::TypeMismatch));
    assert_eq!(kv.arr_len("$.l"), Ok(1));
    assert_eq!(kv.obj_len("$.o"), Ok(2));
    assert_eq!(kv.obj_keys("$.o").unwrap(), vec!["x".to_string(), "y".to_string()]);
    assert_eq!(kv.get_type("$.o").unwrap(), "object");
    assert_eq!(kv.get_type("$.l[0]").unwrap(), "integer");
    assert_eq!(KeyValue::value_name(&JsonValue::Double("2.5".to_string())), "number");
    assert_eq!(kv.to_string("$.o", Format::JSON).unwrap(), "{\"x\":1,\"y\":2}");
    assert_eq!(kv.to_string("$.o", Format::BSON).err(), Some(JsonError::UnsupportedFormat));
    assert_eq!(command_json_type(Some(&doc), ".s".to_string()), Some("string".to_string()));
    assert_eq!(command_json_type(None, ".s".to_string()), None);
}

#[test]
fn several_paths_in_one_read() {
    let doc = obj(vec![("a", num(1)), ("b", num(2))]);
    let got = command_json_get(Some(&doc), &vec!["$.a".to_string(), "$.zz".to_string(), "$.a".to_string()]).unwrap().unwrap();
    assert_eq!(got, "{\"$.a\":1,\"$.zz\":null}");
    let got = command_json_get(Some(&doc), &vec![".b".to_string()]).unwrap().unwrap();
    assert_eq!(got, "2");
    let got = command_json_get(Some(&doc), &vec![]).unwrap().unwrap();
    assert_eq!(got, "{\"a\":1,\"b\":2}");
    let got = command_json_get(Some(&doc), &vec!["indent".to_string(), "\t".to_string(), "NEWLINE".to_string(), "\n".to_string(), "$.a".to_string()]).unwrap().unwrap();
    assert_eq!(got, "[\n\t1\n]");
    assert_eq!(command_json_get(Some(&doc), &vec!["INDENT".to_string()]), Err(JsonError::WrongArity));
    assert_eq!(command_json_get(Some(&doc), &vec!["FORMAT".to_string(), "BSON".to_string()]), Err(JsonError::UnsupportedFormat));
    assert_eq!(command_json_get(Some(&doc), &vec!["FORMAT".to_string(), "XML".to_string()]), Err(JsonError::Syntax));
    assert_eq!(command_json_get(None, &vec!["$".to_string()]), Ok(None));
    let g = parse_get_args(&vec!["NOESCAPE".to_string(), "space".to_string(), " ".to_string(), "$.x".to_string()]).unwrap();
    assert_eq!(g.paths, vec!["$.x".to_string()]);
    assert_eq!(g.space, Some(" ".to_string()));
}

#[test]
fn set_and_delete() {
    let mut doc: Option<JsonValue> = None;
    assert_eq!(command_json_set(&mut doc, "$.a".to_string(), num(1), SetOptions::Any), Err(JsonError::NotFound));
    assert_eq!(command_json_set(&mut doc, "$".to_string(), obj(vec![]), SetOptions::AlreadyExists), Ok(false));
    assert_eq!(command_json_set(&mut doc, ".".to_string(), obj(vec![]), SetOptions::Any), Ok(true));
    assert_eq!(command_json_set(&mut doc, "a".to_string(), num(1), SetOptions::Any), Ok(true));
    assert_eq!(command_json_set(&mut doc, "$.a".to_string(), num(5), SetOptions::NotExists), Ok(false));
    assert_eq!(command_json_set(&mut doc, "$.a".to_string(), num(5), SetOptions::AlreadyExists), Ok(true));
    assert_eq!(command_json_set(&mut doc, "$.b".to_string(), arr(vec![num(1), num(2), num(3)]), SetOptions::Any), Ok(true));
    assert_eq!(command_json_set(&mut doc, "$.b[9]".to_string(), num(1), SetOptions::Any), Err(JsonError::OutOfRange));
    assert_eq!(command_json_set(&mut doc, "$[".to_string(), num(1), SetOptions::Any), Err(JsonError::Syntax));
    assert_eq!(compact(doc.as_ref().unwrap()), "{\"a\":5,\"b\":[1,2,3]}");
    assert_eq!(command_json_del(&mut doc, Some("$.b[*]".to_string())), Ok(3));
    assert_eq!(command_json_del(&mut doc, Some("$.zz".to_string())), Ok(0));
    assert_eq!(compact(doc.as_ref().unwrap()), "{\"a\":5,\"b\":[]}");
    assert_eq!(command_json_del(&mut doc, None), Ok(1));
    assert!(doc.is_none());
    assert_eq!(command_json_del(&mut doc, None), Ok(0));
}

#[test]
fn array_edits() {
    let mut d = obj(vec![("a", arr(vec![num(1), num(2), num(3)])), ("s", JsonValue::Str("ab".to_string()))]);
    assert_eq!(command_json_arr_insert(&mut d, "$.a".to_string(), vec![num(7), num(8)], -1), Ok(5));
    assert_eq!(compact(&d), "{\"a\":[1,2,7,8,3],\"s\":\"ab\"}");
    assert_eq!(command_json_arr_insert(&mut d, "$.a".to_string(), vec![num(0)], 9), Err(JsonError::OutOfRange));
    assert_eq!(command_json_arr_insert(&mut d, "$.a".to_string(), vec![num(0)], 5), Ok(6));
    assert_eq!(command_json_arr_trim(&mut d, "$.a".to_string(), 1, -2), Ok(4));
    assert_eq!(compact(&d), "{\"a\":[2,7,8,3],\"s\":\"ab\"}");
    assert_eq!(command_json_arr_trim(&mut d, "$.a".to_string(), 5, 9), Ok(0));
    assert_eq!(command_json_arr_pop(&mut d, Some("$.a".to_string()), Some(-1)).unwrap().is_none(), true);
    assert_eq!(command_json_arr_append(&mut d, "$.s".to_string(), vec![num(1)]), Err(JsonError::TypeMismatch));
    assert!(matches!(command_json_arr_pop(&mut d, Some("$.a".to_string()), Some(0)), Ok(None)));
}

#[test]
fn pop_clamps_its_index() {
    let mut d = arr(vec![num(1), num(2), num(3)]);
    assert_eq!(compact(&command_json_arr_pop(&mut d, Some("$".to_string()), Some(i64::MAX)).unwrap().unwrap()), "3");
    assert_eq!(compact(&command_json_arr_pop(&mut d, Some("$".to_string()), Some(-10)).unwrap().unwrap()), "1");
    assert_eq!(compact(&d), "[2]");
}

#[test]
fn string_boolean_number_and_clear_edits() {
    let mut d = obj(vec![("s", JsonValue::Str("ab".to_string())), ("t", JsonValue::Bool(true)), ("n", num(i64::MAX)), ("f", JsonValue::Double("2.5".to_string()))]);
    assert_eq!(command_json_str_append(&mut d, Some("$.s".to_string()), "cd"), Ok(4));
    assert_eq!(command_json_str_append(&mut d, Some("$.t".to_string()), "cd"), Err(JsonError::TypeMismatch));
    assert_eq!(command_json_bool_toggle(&mut d, "$.t".to_string()), Ok(false));
    assert_eq!(command_json_bool_toggle(&mut d, "$.t".to_string()), Ok(true));
    assert_eq!(command_json_num_op(&mut d, "$.n".to_string(), NumOp::Incr, 1), Ok(NumOutcome::Promote));
    assert_eq!(command_json_num_op(&mut d, "$.n".to_string(), NumOp::Mult, 1), Ok(NumOutcome::Int(i64::MAX)));
    assert_eq!(command_json_num_op(&mut d, "$.f".to_string(), NumOp::Incr, 1), Ok(NumOutcome::Promote));
    assert_eq!(command_json_clear(&mut d, Some("$.*".to_string())), Ok(1));
    assert_eq!(compact(&d), "{\"s\":\"abcd\",\"t\":true,\"n\":0,\"f\":0.0}");
    assert_eq!(command_json_bool_toggle(&mut d, "$[".to_string()), Err(JsonError::Syntax));
}

#[test]
fn protocol_replies() {
    let v = obj(vec![("a", arr(vec![num(1), JsonValue::Bool(true)])), ("b", JsonValue::Str("x".to_string()))]);
    match resp_serialize_inner(&v) {
        Reply::Array(items) => {
            assert_eq!(items.len(), 5);
            assert!(matches!(&items[0], Reply::SimpleString(s) if s == "{"));
            assert!(matches!(&items[1], Reply::BulkString(s) if s == "a"));
            match &items[2] {
                Reply::Array(inner) => {
                    assert_eq!(inner.len(), 3);
                    assert!(matches!(&inner[0], Reply::SimpleString(s) if s == "["));
                    assert!(matches!(&inner[1], Reply::Integer(1)));
                    assert!(matches!(&inner[2], Reply::SimpleString(s) if s == "true"));
                }
                _ => panic!("expected an array"),
            }
            assert!(matches!(&items[4], Reply::BulkString(s) if s == "x"));
        }
        _ => panic!("expected an array"),
    }
    assert!(matches!(command_json_resp(None, None), Ok(Reply::Null)));
    assert!(matches!(command_json_resp(Some(&v), Some("$.a[1]".to_string())), Ok(Reply::SimpleString(s)) if s == "false" || s == "true"));
}

#[test]
fn error_messages() {
    assert_eq!(JsonError::NotFound.message(), "ERR path does not exist");
    assert_eq!(JsonError::TypeMismatch.message(), "ERR wrong type of path value");
}

#[test]
fn equality_of_scalars_and_nesting() {
    let doc = JsonValue::Null;
    let kv = KeyValue::new(&doc);
    assert!(kv.is_eqaul(&JsonValue::Null, &JsonValue::Null));
    assert!(!kv.is_eqaul(&num(1), &JsonValue::Double("1.0".to_string())));
    assert!(!kv.is_eqaul(&obj(vec![("a", num(1))]), &obj(vec![("b", num(1))])));
    assert!(!kv.is_eqaul(&obj(vec![("a", num(1))]), &obj(vec![("a", num(1)), ("b", num(2))])));
    assert!(kv.is_eqaul(&arr(vec![obj(vec![("x", JsonValue::Str("y".to_string()))])]), &arr(vec![obj(vec![("x", JsonValue::Str("y".to_string()))])])));
    let copy = kv.to_value(&sample());
    assert!(kv.is_eqaul(&copy, &sample()));
}

#[test]
fn integer_powers() {
    let mut d = obj(vec![("a", num(3)), ("b", num(-1)), ("c", num(2)), ("z", num(0))]);
    assert_eq!(command_json_num_op(&mut d, "$.a".to_string(), NumOp::Pow, 4), Ok(NumOutcome::Int(81)));
    assert_eq!(command_json_num_op(&mut d, "$.b".to_string(), NumOp::Pow, 7), Ok(NumOutcome::Int(-1)));
    assert_eq!(command_json_num_op(&mut d, "$.c".to_string(), NumOp::Pow, 63), Ok(NumOutcome::Promote));
    assert_eq!(command_json_num_op(&mut d, "$.c".to_string(), NumOp::Pow, 62), Ok(NumOutcome::Int(1 << 62)));
    assert_eq!(command_json_num_op(&mut d, "$.z".to_string(), NumOp::Pow, 0), Ok(NumOutcome::Int(1)));
    assert_eq!(command_json_num_op(&mut d, "$.a".to_string(), NumOp::Pow, -1), Ok(NumOutcome::Promote));
    assert_eq!(compact(&d), "{\"a\":81,\"b\":-1,\"c\":4611686018427387904,\"z\":1}");
}

#[test]
fn write_options() {
    let args = |v: &[&str]| v.iter().map(|s| s.to_string()).collect::<Vec<String>>();
    assert_eq!(parse_set_args(&args(&[])), Ok((SetOptions::Any, Format::JSON)));
    assert_eq!(parse_set_args(&args(&["nx"])), Ok((SetOptions::NotExists, Format::JSON)));
    assert_eq!(parse_set_args(&args(&["XX", "FORMAT", "BSON"])), Ok((SetOptions::AlreadyExists, Format::BSON)));
    assert_eq!(parse_set_args(&args(&["NX", "XX"])), Err(JsonError::Syntax));
    assert_eq!(parse_set_args(&args(&["FORMAT"])), Err(JsonError::WrongArity));
    assert_eq!(parse_set_args(&args(&["bogus"])), Err(JsonError::Syntax));
}

#[test]
fn accessors() {
    let v = obj(vec![("a", num(7)), ("b", arr(vec![num(1), num(2)]))]);
    assert_eq!(json_api_get_len(&v), Some(2));
    assert_eq!(json_api_get_len(&num(1)), None);
    let (t, n) = get_type_and_size(&v);
    assert!(matches!(t, JSONType::Object));
    assert_eq!(n, 2);
    assert_eq!(json_api_get_int(value_from_index(&v, 0).unwrap()), Some(7));
    assert_eq!(value_from_index(&v, 2).err(), Some(JsonError::OutOfRange));
    assert_eq!(value_from_index(&num(1), 0).err(), Some(JsonError::TypeMismatch));
    let b = value_from_index(&v, 1).unwrap();
    assert_eq!(json_api_get_int(json_api_get_at(b, 1).unwrap()), Some(2));
    assert!(json_api_get_at(b, 2).is_none());
}

#[test]
fn pop_defaults_and_legacy_paths() {
    let mut d = obj(vec![("a", arr(vec![num(1), num(2), num(3)]))]);
    assert_eq!(compact(&command_json_arr_pop(&mut d, Some(".a".to_string()), None).unwrap().unwrap()), "3");
    assert_eq!(compact(&command_json_arr_pop(&mut d, Some("a".to_string()), Some(0)).unwrap().unwrap()), "1");
    assert!(matches!(command_json_arr_pop(&mut d, None, None), Err(JsonError::TypeMismatch)));
    let mut r = arr(vec![num(5), num(6)]);
    assert_eq!(compact(&command_json_arr_pop(&mut r, None, None).unwrap().unwrap()), "6");
    assert_eq!(command_json_bool_toggle(&mut d, "a".to_string()), Err(JsonError::TypeMismatch));
    assert_eq!(command_json_str_append(&mut d, Some(".zz".to_string()), "x"), Err(JsonError::NotFound));
}

#[test]
fn edits_reach_every_selected_node() {
    let mut d = obj(vec![
        ("f", JsonValue::Bool(false)),
        ("in", obj(vec![("f", JsonValue::Bool(true)), ("n", num(10)), ("s", JsonValue::Str("x".to_string()))])),
        ("n", num(1)),
        ("s", JsonValue::Str("y".to_string())),
    ]);
    assert_eq!(command_json_bool_toggle(&mut d, "$..f".to_string()), Ok(false));
    assert_eq!(command_json_num_op(&mut d, "$..n".to_string(), NumOp::Mult, 3), Ok(NumOutcome::Int(30)));
    assert_eq!(command_json_str_append(&mut d, Some("$..s".to_string()), "!"), Ok(2));
    assert_eq!(compact(&d), "{\"f\":true,\"in\":{\"f\":false,\"n\":30,\"s\":\"x!\"},\"n\":3,\"s\":\"y!\"}");
}

#[test]
fn object_order_is_kept_in_text() {
    let v = obj(vec![("z", num(1)), ("a", num(2)), ("m", num(3))]);
    assert_eq!(compact(&v), "{\"z\":1,\"a\":2,\"m\":3}");
    let parsed: serde_json::Value = serde_json::from_str(&compact(&v)).unwrap();
    let keys: Vec<&String> = parsed.as_object().unwrap().keys().collect();
    assert_eq!(keys, vec!["z", "a", "m"]);
}

#[test]
fn all_matches_in_document_order() {
    let doc = obj(vec![("a", obj(vec![("a", num(1))])), ("b", arr(vec![obj(vec![("a", num(2))]), num(3)]))]);
    let got = command_json_get(Some(&doc), &vec!["$..a".to_string()]).unwrap().unwrap();
    assert_eq!(got, "[{\"a\":1},1,2]");
    let got = command_json_get(Some(&doc), &vec!["$.b[*]".to_string()]).unwrap().unwrap();
    assert_eq!(got, "[{\"a\":2},3]");
    let got = command_json_get(Some(&doc), &vec!["$..*".to_string()]).unwrap().unwrap();
    assert_eq!(got, "[{\"a\":1},[{\"a\":2},3],1,{\"a\":2},3,2]");
}

#[test]
fn several_targets_fail_as_a_whole() {
    let mut d = obj(vec![("a", arr(vec![num(1), num(2), num(3)])), ("b", arr(vec![num(1)]))]);
    assert_eq!(command_json_arr_insert(&mut d, "$.*".to_string(), vec![num(9)], 2), Err(JsonError::OutOfRange));
    assert_eq!(compact(&d), "{\"a\":[1,2,3],\"b\":[1]}");
    assert_eq!(command_json_arr_insert(&mut d, "$.*".to_string(), vec![num(9)], 1), Ok(2));
    assert_eq!(compact(&d), "{\"a\":[1,9,2,3],\"b\":[1,9]}");
    assert_eq!(command_json_arr_append(&mut d, "$.*".to_string(), vec![]), Err(JsonError::WrongArity));
    assert_eq!(command_json_arr_insert(&mut d, "$.a".to_string(), vec![], 0), Err(JsonError::WrongArity));
    assert_eq!(command_json_arr_append(&mut d, "$.*".to_string(), vec![num(7)]), Ok(3));
    assert_eq!(command_json_arr_trim(&mut d, "$.*".to_string(), 0, 0), Ok(1));
    assert_eq!(command_json_clear(&mut d, Some("$.*".to_string())), Ok(1));
    assert_eq!(compact(&d), "{\"a\":[],\"b\":[]}");
}

#[test]
fn delete_counts_every_removed_node() {
    let mut doc: Option<JsonValue> = Some(obj(vec![("a", arr(vec![num(1), num(2), num(3)])), ("b", num(4))]));
    assert_eq!(command_json_del(&mut doc, Some("$..*".to_string())), Ok(5));
    assert_eq!(compact(doc.as_ref().unwrap()), "{}");
}

#[test]
fn create_only_write_on_an_existing_member() {
    let mut doc: Option<JsonValue> = Some(obj(vec![("a", num(1)), ("o", obj(vec![("a", num(2))]))]));
    assert_eq!(command_json_set(&mut doc, "$.a".to_string(), num(5), SetOptions::NotExists), Ok(false));
    assert_eq!(command_json_set(&mut doc, "$..a".to_string(), num(6), SetOptions::Any), Ok(true));
    assert_eq!(compact(doc.as_ref().unwrap()), "{\"a\":6,\"o\":{\"a\":6}}");
    assert_eq!(command_json_set(&mut doc, "$.a.z".to_string(), num(0), SetOptions::Any), Err(JsonError::TypeMismatch));
    assert_eq!(compact(doc.as_ref().unwrap()), "{\"a\":6,\"o\":{\"a\":6}}");
}

#[test]
fn index_search_end_minus_one_excludes_the_last_element() {
    let doc = arr(vec![num(1), num(2), num(3)]);
    let kv = KeyValue::new(&doc);
    assert_eq!(kv.arr_index("$", &num(1), 0, -1), Ok(0));
    assert_eq!(kv.arr_index("$", &num(3), 0, -1), Ok(-1));
    assert_eq!(kv.arr_index("$", &num(1), 0, -2), Ok(-1));
}

#[test]
fn reading_with_no_path_reads_the_document() {
    let doc = obj(vec![("a", num(1))]);
    let kv = KeyValue::new(&doc);
    assert_eq!(kv.to_json(&vec![], None, None, None, Format::JSON), Ok("{\"a\":1}".to_string()));
    assert_eq!(kv.to_json(&vec![], None, None, None, Format::BSON), Err(JsonError::UnsupportedFormat));
}

#[test]
fn zero_doubles_of_either_sign_are_equal() {
    let doc = JsonValue::Null;
    let kv = KeyValue::new(&doc);
    assert!(kv.is_eqaul(&JsonValue::Double("0.0".to_string()), &JsonValue::Double("-0.0".to_string())));
    assert!(kv.is_eqaul(&JsonValue::Double("1.5".to_string()), &JsonValue::Double("1.5".to_string())));
    assert!(!kv.is_eqaul(&JsonValue::Double("1.5".to_string()), &JsonValue::Double("-1.5".to_string())));
}

#[test]
fn append_and_clear_default_to_the_root() {
    let mut s = JsonValue::Str("ab".to_string());
    assert_eq!(command_json_str_append(&mut s, None, "c"), Ok(3));
    assert_eq!(compact(&s), "\"abc\"");
    let mut a = arr(vec![num(1)]);
    assert_eq!(command_json_clear(&mut a, None), Ok(1));
    assert_eq!(compact(&a), "[]");
}

#[test]
fn string_lengths_count_utf8_bytes() {
    let mut d = obj(vec![("s", JsonValue::Str("é".to_string()))]);
    assert_eq!(KeyValue::new(&d).str_len("$.s"), Ok(2));
    assert_eq!(command_json_str_len(Some(&d), "$.s".to_string()), Ok(Some(2)));
    assert_eq!(json_api_get_len(&JsonValue::Str("日本".to_string())), Some(6));
    let (_, n) = get_type_and_size(&JsonValue::Str("é".to_string()));
    assert_eq!(n, 2);
    assert_eq!(command_json_str_append(&mut d, Some("$.s".to_string()), "ü"), Ok(4));
    assert_eq!(compact(&d), "{\"s\":\"éü\"}");
}
