use cosmos_dump::args::Cli;
use cosmos_dump::creds::parse_connection_args;
use cosmos_dump::creds::normalize_account;

fn cli(conn: Option<&str>, account: Option<&str>, key: Option<&str>) -> Cli {
    Cli {
        account: account.map(|s| s.to_string()),
        key: key.map(|s| s.to_string()),
        connection_string: conn.map(|s| s.to_string()),
        out: "out.json".to_string(),
    }
}

#[test]
fn connection_string_both_keys() {
    let c = cli(
        Some("AccountEndpoint=https://foo.documents.azure.com:443/;AccountKey=abc123"),
        None,
        None,
    );
    let r = parse_connection_args(&c).unwrap();
    assert_eq!(r.account, "https://foo.documents.azure.com:443/");
    assert_eq!(r.key, "abc123");
}

#[test]
fn connection_string_keys_any_order_and_case() {
    let c = cli(Some("ACCOUNTKEY=k1;accountendpoint=e1"), None, None);
    let r = parse_connection_args(&c).unwrap();
    assert_eq!(r.account, "e1");
    assert_eq!(r.key, "k1");
}

#[test]
fn connection_string_ignores_malformed_segments() {
    let c = cli(Some("junk;AccountEndpoint=e2;;stillnopair;AccountKey=k2"), None, None);
    let r = parse_connection_args(&c).unwrap();
    assert_eq!(r.account, "e2");
    assert_eq!(r.key, "k2");
}

#[test]
fn connection_string_value_may_hold_equals() {
    let c = cli(Some("AccountEndpoint=e3;AccountKey=k3=="), None, None);
    let r = parse_connection_args(&c).unwrap();
    assert_eq!(r.account, "e3");
    assert_eq!(r.key, "k3==");
}

#[test]
fn connection_string_wins_over_discrete() {
    let c = cli(Some("AccountEndpoint=e4;AccountKey=k4"), Some("other"), Some("otherkey"));
    let r = parse_connection_args(&c).unwrap();
    assert_eq!(r.account, "e4");
    assert_eq!(r.key, "k4");
}

#[test]
fn incomplete_connection_string_falls_back_to_discrete() {
    let c = cli(Some("AccountEndpoint=e5"), Some("acct"), Some("key5"));
    let r = parse_connection_args(&c).unwrap();
    assert_eq!(r.account, "acct");
    assert_eq!(r.key, "key5");
}

#[test]
fn discrete_account_and_key() {
    let c = cli(None, Some("myaccount"), Some("mykey"));
    let r = parse_connection_args(&c).unwrap();
    assert_eq!(r.account, "myaccount");
    assert_eq!(r.key, "mykey");
}

#[test]
fn missing_everything_is_config_error() {
    let c = cli(None, None, None);
    let e = parse_connection_args(&c).err().unwrap();
    assert_eq!(
        e.message(),
        "must supply either a connection string or both account and key"
    );
}

#[test]
fn account_without_key_is_config_error() {
    let c = cli(None, Some("a"), None);
    assert!(parse_connection_args(&c).is_err());
}

#[test]
fn key_without_account_is_config_error() {
    let c = cli(None, None, Some("k"));
    assert!(parse_connection_args(&c).is_err());
}

#[test]
fn unusable_connection_string_alone_is_config_error() {
    let c = cli(Some("no pairs here"), None, None);
    assert!(parse_connection_args(&c).is_err());
}

#[test]
fn normalize_full_endpoint() {
    let r = normalize_account(&"https://foo.documents.azure.com:443/".to_string());
    assert_eq!(r, "foo");
}

#[test]
fn normalize_bare_name_unchanged() {
    let r = normalize_account(&"foo".to_string());
    assert_eq!(r, "foo");
}

#[test]
fn normalize_scheme_and_slash_only() {
    let r = normalize_account(&"https://bar/".to_string());
    assert_eq!(r, "bar");
}

#[test]
fn normalize_is_idempotent() {
    let once = normalize_account(&"https://foo.documents.azure.com:443/".to_string());
    let twice = normalize_account(&once);
    assert_eq!(once, twice);
}
