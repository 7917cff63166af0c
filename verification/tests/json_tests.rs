use cosmos_dump::dump_file::Collection;
use cosmos_dump::dump_file::Database;
use cosmos_dump::dump_file::Document;
use cosmos_dump::dump_file::DumpFile;
use cosmos_dump::dump_file::dump_to_string;
use cosmos_dump::json::Json;
use cosmos_dump::json::JsonField;
use cosmos_dump::json::write_json;
use cosmos_dump::parse::parse_json;

fn render(j: &Json) -> String {
    let mut out: Vec<char> = Vec::new();
    write_json(j, &mut out);
    out.into_iter().collect()
}

fn field(name: &str, value: Json) -> JsonField {
    JsonField { name: name.to_string(), value }
}

#[test]
fn scalars_serialize_exactly() {
    assert_eq!(render(&Json::Null), "null");
    assert_eq!(render(&Json::Bool(true)), "true");
    assert_eq!(render(&Json::Bool(false)), "false");
    assert_eq!(render(&Json::Int(0)), "0");
    assert_eq!(render(&Json::Int(123)), "123");
    assert_eq!(render(&Json::Int(-5)), "-5");
    assert_eq!(render(&Json::Int(i64::MAX)), "9223372036854775807");
    assert_eq!(render(&Json::Int(i64::MIN)), "-9223372036854775808");
}

#[test]
fn strings_escape_quote_and_backslash() {
    assert_eq!(render(&Json::Str("a\"b\\c".to_string())), "\"a\\\"b\\\\c\"");
    assert_eq!(render(&Json::Str("".to_string())), "\"\"");
}

#[test]
fn strings_escape_control_characters() {
    assert_eq!(render(&Json::Str("a\nb".to_string())), "\"a\\u000ab\"");
    assert_eq!(render(&Json::Str("\t".to_string())), "\"\\u0009\"");
    let s = render(&Json::Str("line1\nline2\u{1f}".to_string()));
    let v: serde_json::Value = serde_json::from_str(&s).unwrap();
    assert_eq!(v, serde_json::Value::String("line1\nline2\u{1f}".to_string()));
    let parsed = parse_json(&s).unwrap();
    assert_eq!(render(&parsed), s);
}

#[test]
fn non_integral_numbers_keep_their_text() {
    assert_eq!(render(&Json::Num("1.5".to_string())), "1.5");
    assert_eq!(render(&Json::Num("1e5".to_string())), "1e5");
    let parsed = parse_json(&"1.5".to_string()).unwrap();
    assert!(matches!(&parsed, Json::Num(t) if t == "1.5"));
    let big = parse_json(&"9223372036854775808".to_string()).unwrap();
    assert!(matches!(&big, Json::Num(t) if t == "9223372036854775808"));
}

#[test]
fn arrays_and_objects_serialize_exactly() {
    let j = Json::Arr(vec![Json::Int(1), Json::Null, Json::Str("x".to_string())]);
    assert_eq!(render(&j), "[1,null,\"x\"]");
    let o = Json::Obj(vec![field("a", Json::Int(1)), field("b", Json::Arr(vec![]))]);
    assert_eq!(render(&o), "{\"a\":1,\"b\":[]}");
    assert_eq!(render(&Json::Obj(vec![])), "{}");
}

#[test]
fn parse_accepts_only_texts_that_reserialize_to_themselves() {
    assert!(parse_json(&"1 ".to_string()).is_none());
    assert!(parse_json(&"[1,]".to_string()).is_none());
    assert!(parse_json(&"".to_string()).is_none());
    assert!(parse_json(&"nul".to_string()).is_none());
    assert!(parse_json(&"-".to_string()).is_none());
    assert!(parse_json(&"{\"a\":1".to_string()).is_none());
    assert!(parse_json(&"\"unterminated".to_string()).is_none());
    assert!(parse_json(&"\"a\u{01}b\"".to_string()).is_none());
    assert!(parse_json(&"\"\\u0041\"".to_string()).is_none());
    assert!(parse_json(&"0".to_string()).is_some());
    assert!(parse_json(&"-9223372036854775808".to_string()).is_some());
    for t in ["01", "-0", "1e5", "9223372036854775808"] {
        let parsed = parse_json(&t.to_string()).unwrap();
        assert_eq!(render(&parsed), t);
    }
}

#[test]
fn parse_rebuilds_the_same_text() {
    let texts = vec![
        "null",
        "true",
        "-987",
        "\"hi \\\"there\\\"\"",
        "[1,[2,3],{\"k\":null}]",
        "{\"a\":\"b\",\"c\":[false,-1]}",
    ];
    for t in texts {
        let parsed = parse_json(&t.to_string()).unwrap();
        assert_eq!(render(&parsed), t);
    }
}

#[test]
fn round_trip_preserves_structure() {
    let d1 = Document {
        fields: vec![field("id", Json::Str("1".to_string())), field("x", Json::Int(1))],
    };
    let d2 = Document {
        fields: vec![
            field("id", Json::Str("2".to_string())),
            field("nested", Json::Obj(vec![field("deep", Json::Arr(vec![Json::Bool(false)]))])),
        ],
    };
    let col1 = Collection { name: "c1".to_string(), documents: vec![d1] };
    let col2 = Collection { name: "c2".to_string(), documents: vec![d2] };
    let dba = Database { name: "A".to_string(), collections: vec![col1, col2] };
    let dbb = Database { name: "B".to_string(), collections: vec![] };
    let dump = DumpFile { databases: vec![dba, dbb] };
    let s = dump_to_string(dump);

    let parsed = parse_json(&s).unwrap();
    assert_eq!(render(&parsed), s);

    match parsed {
        Json::Obj(root) => {
            assert_eq!(root.len(), 1);
            assert_eq!(root[0].name, "databases");
            match &root[0].value {
                Json::Arr(dbs) => {
                    assert_eq!(dbs.len(), 2);
                    match &dbs[0] {
                        Json::Obj(db) => {
                            assert_eq!(db[0].name, "name");
                            assert!(matches!(&db[0].value, Json::Str(n) if n == "A"));
                            match &db[1].value {
                                Json::Arr(cols) => assert_eq!(cols.len(), 2),
                                _ => panic!("collections must be an array"),
                            }
                        },
                        _ => panic!("database must be an object"),
                    }
                    match &dbs[1] {
                        Json::Obj(db) => {
                            assert!(matches!(&db[0].value, Json::Str(n) if n == "B"));
                            assert!(matches!(&db[1].value, Json::Arr(cols) if cols.is_empty()));
                        },
                        _ => panic!("database must be an object"),
                    }
                },
                _ => panic!("databases must be an array"),
            }
        },
        _ => panic!("root must be an object"),
    }
}
