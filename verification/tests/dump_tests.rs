use cosmos_dump::dump_file::Collection;
use cosmos_dump::dump_file::Database;
use cosmos_dump::dump_file::Document;
use cosmos_dump::dump_file::DumpFile;
use cosmos_dump::dump_file::dump_to_string;
use cosmos_dump::json::Json;
use cosmos_dump::json::JsonField;
use cosmos_dump::traverse::FetchError;
use cosmos_dump::traverse::build_dump;
use cosmos_dump::traverse::dump_collection;
use cosmos_dump::traverse::dump_database;

fn field(name: &str, value: Json) -> JsonField {
    JsonField { name: name.to_string(), value }
}

fn doc(fields: Vec<JsonField>) -> Document {
    Document { fields }
}

fn err(msg: &str) -> FetchError {
    FetchError { message: msg.to_string() }
}

#[test]
fn collection_concatenates_pages_in_order() {
    let d1 = doc(vec![field("id", Json::Str("1".to_string()))]);
    let d2 = doc(vec![field("id", Json::Str("2".to_string()))]);
    let d3 = doc(vec![field("id", Json::Str("3".to_string()))]);
    let r = dump_collection(&"c".to_string(), vec![Ok(vec![d1, d2]), Ok(vec![d3])]).unwrap();
    assert_eq!(r.name, "c");
    assert_eq!(r.documents.len(), 3);
    assert_eq!(r.documents[2].fields[0].name, "id");
}

#[test]
fn collection_page_error_abandons_collection() {
    let d1 = doc(vec![field("id", Json::Str("1".to_string()))]);
    let r = dump_collection(&"c".to_string(), vec![Ok(vec![d1]), Err(err("boom"))]);
    assert!(r.is_err());
    assert_eq!(r.err().unwrap().message, "boom");
}

#[test]
fn database_skips_failed_collections() {
    let good = Collection { name: "good".to_string(), documents: vec![] };
    let also = Collection { name: "also".to_string(), documents: vec![] };
    let r = dump_database(
        &"db".to_string(),
        vec![Ok(vec![Ok(good), Err(err("skip me")), Ok(also)])],
    )
    .unwrap();
    assert_eq!(r.name, "db");
    assert_eq!(r.collections.len(), 2);
    assert_eq!(r.collections[0].name, "good");
    assert_eq!(r.collections[1].name, "also");
}

#[test]
fn database_listing_error_abandons_database() {
    let good = Collection { name: "good".to_string(), documents: vec![] };
    let r = dump_database(&"db".to_string(), vec![Ok(vec![Ok(good)]), Err(err("page down"))]);
    assert!(r.is_err());
    assert_eq!(r.err().unwrap().message, "page down");
}

#[test]
fn first_page_failure_fails_whole_export() {
    let r = build_dump(vec![Err(err("cannot list"))]);
    assert!(r.is_err());
    assert_eq!(r.err().unwrap().message, "cannot list");
}

#[test]
fn later_page_failure_fails_whole_export() {
    let a = Database { name: "A".to_string(), collections: vec![] };
    let r = build_dump(vec![Ok(vec![Ok(a)]), Err(err("second page"))]);
    assert!(r.is_err());
    assert_eq!(r.err().unwrap().message, "second page");
}

#[test]
fn failed_database_is_omitted_entirely() {
    let a = Database {
        name: "A".to_string(),
        collections: vec![Collection { name: "ca".to_string(), documents: vec![] }],
    };
    let c = Database {
        name: "C".to_string(),
        collections: vec![Collection { name: "cc".to_string(), documents: vec![] }],
    };
    let r = build_dump(vec![Ok(vec![Ok(a), Err(err("B failed")), Ok(c)])]).unwrap();
    assert_eq!(r.databases.len(), 2);
    assert_eq!(r.databases[0].name, "A");
    assert_eq!(r.databases[0].collections.len(), 1);
    assert_eq!(r.databases[1].name, "C");
    assert_eq!(r.databases[1].collections.len(), 1);
}

#[test]
fn end_to_end_two_databases() {
    let d1 = doc(vec![
        field("id", Json::Str("1".to_string())),
        field("x", Json::Int(1)),
    ]);
    let d2 = doc(vec![
        field("id", Json::Str("2".to_string())),
        field("y", Json::Str("a".to_string())),
    ]);
    let col = dump_collection(&"Col1".to_string(), vec![Ok(vec![d1, d2])]).unwrap();
    let db1 = dump_database(&"DB1".to_string(), vec![Ok(vec![Ok(col)])]).unwrap();
    let db2 = dump_database(&"DB2".to_string(), vec![Ok(vec![])]).unwrap();
    let dump = build_dump(vec![Ok(vec![Ok(db1), Ok(db2)])]).unwrap();
    let s = dump_to_string(dump);
    let expected = "{\"databases\":[{\"name\":\"DB1\",\"collections\":[{\"name\":\"Col1\",\"documents\":[{\"id\":\"1\",\"x\":1},{\"id\":\"2\",\"y\":\"a\"}]}]},{\"name\":\"DB2\",\"collections\":[]}]}";
    assert_eq!(s, expected);
}

#[test]
fn output_is_valid_json_for_outside_parser() {
    let d1 = doc(vec![
        field("n", Json::Int(-42)),
        field("b", Json::Bool(true)),
        field("z", Json::Null),
        field("arr", Json::Arr(vec![Json::Int(1), Json::Str("two".to_string())])),
    ]);
    let col = Collection { name: "c".to_string(), documents: vec![d1] };
    let db = Database { name: "d".to_string(), collections: vec![col] };
    let dump = DumpFile { databases: vec![db] };
    let s = dump_to_string(dump);
    let v: serde_json::Value = serde_json::from_str(&s).unwrap();
    assert_eq!(v["databases"][0]["name"], serde_json::Value::String("d".to_string()));
    assert_eq!(
        v["databases"][0]["collections"][0]["documents"][0]["n"],
        serde_json::Value::Number(serde_json::Number::from(-42))
    );
}
