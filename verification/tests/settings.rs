use shoal::server::{Access, Limits, MAX_PAYLOAD_BYTES};
use shoal::settings::{look_up, parse_origins, storage_is_unbounded, Origins};

fn env(pairs: &[(&str, &str)]) -> Vec<(String, String)> {
    pairs.iter().map(|p| (p.0.to_string(), p.1.to_string())).collect()
}

#[test]
fn empty_allowlist_stays_open() {
    let access = Access::allowlist(vec!["".to_string(), "  ".to_string()]);
    assert!(access.is_open());
    assert!(access.permits("anything"));
}

#[test]
fn allowlist_admits_only_listed_keys() {
    let access = Access::allowlist(vec!["alice".to_string(), " bob ".to_string()]);
    assert!(!access.is_open());
    assert!(access.permits("alice"));
    // Entries are trimmed when the list is built.
    assert!(access.permits("bob"));
    assert!(!access.permits("carol"));
}

#[test]
fn access_is_open_by_default() {
    assert!(Access::open().is_open());
    assert!(Access::default().permits("anyone"));
    assert!(Access::allowlist(Vec::new()).is_open());
}

#[test]
fn access_is_read_from_the_environment() {
    assert!(Access::from_env(&env(&[])).is_open());
    assert!(Access::from_env(&env(&[("SHOAL_ALLOWED_PUBKEYS", " , ,")])).is_open());
    let access = Access::from_env(&env(&[("SHOAL_ALLOWED_PUBKEYS", "alice,\u{2003}bob\n,,alice")]));
    assert!(!access.is_open());
    assert!(access.permits("alice"));
    assert!(access.permits("bob"));
    assert!(!access.permits(" bob"));
    assert!(!access.permits(""));
}

#[test]
fn limits_have_defaults() {
    for limits in [Limits::default(), Limits::from_env(&env(&[]))] {
        assert_eq!(limits.requests_per_minute, 120);
        assert_eq!(limits.max_ops_per_user, 1_000_000);
        assert_eq!(limits.max_users, 0);
        assert_eq!(limits.max_total_ops, 0);
        assert_eq!(limits.max_streams_per_user, 8);
        assert_eq!(limits.max_payload_bytes, 256 * 1024);
    }
    assert_eq!(MAX_PAYLOAD_BYTES, 262_144);
}

#[test]
fn limits_are_read_from_the_environment() {
    let limits = Limits::from_env(&env(&[
        ("SHOAL_RATE_PER_MIN", "7"),
        ("SHOAL_MAX_OPS_PER_USER", "-1"),
        ("SHOAL_MAX_USERS", "+3"),
        ("SHOAL_MAX_TOTAL_OPS", "9223372036854775807"),
        ("SHOAL_MAX_STREAMS_PER_USER", "0"),
        ("SHOAL_MAX_PAYLOAD_BYTES", "4194304"),
    ]));
    assert_eq!(limits.requests_per_minute, 7);
    assert_eq!(limits.max_ops_per_user, -1);
    assert_eq!(limits.max_users, 3);
    assert_eq!(limits.max_total_ops, i64::MAX);
    assert_eq!(limits.max_streams_per_user, 0);
    assert_eq!(limits.max_payload_bytes, 4_194_304);
    let caps = limits.caps();
    assert_eq!((caps.max_ops_per_user, caps.max_total_ops, caps.max_users), (-1, i64::MAX, 3));
}

#[test]
fn unreadable_settings_have_their_defaults() {
    let limits = Limits::from_env(&env(&[
        ("SHOAL_RATE_PER_MIN", "4294967296"),
        ("SHOAL_MAX_OPS_PER_USER", "many"),
        ("SHOAL_MAX_USERS", " 3"),
        ("SHOAL_MAX_TOTAL_OPS", "9223372036854775808"),
        ("SHOAL_MAX_STREAMS_PER_USER", "-1"),
        ("SHOAL_MAX_PAYLOAD_BYTES", ""),
    ]));
    assert_eq!(limits.requests_per_minute, 120);
    assert_eq!(limits.max_ops_per_user, 1_000_000);
    assert_eq!(limits.max_users, 0);
    assert_eq!(limits.max_total_ops, 0);
    assert_eq!(limits.max_streams_per_user, 8);
    assert_eq!(limits.max_payload_bytes, MAX_PAYLOAD_BYTES);
}

#[test]
fn variables_are_found_by_their_whole_name() {
    let env = env(&[("A", "1"), ("AB", "2"), ("A", "3")]);
    assert_eq!(look_up(&env, "A"), Some("1".to_string()));
    assert_eq!(look_up(&env, "AB"), Some("2".to_string()));
    assert_eq!(look_up(&env, "B"), None);
}

#[test]
fn an_open_server_without_ceilings_is_unbounded() {
    let limits = Limits::default();
    assert!(storage_is_unbounded(&Access::open(), &limits));
    assert!(!storage_is_unbounded(&Access::allowlist(vec!["a".to_string()]), &limits));
    assert!(!storage_is_unbounded(&Access::open(), &Limits { max_users: 1, ..limits }));
    assert!(!storage_is_unbounded(&Access::open(), &Limits { max_total_ops: 1, ..limits }));
}

fn listed(setting: &str) -> Option<Vec<String>> {
    match parse_origins(setting) {
        Origins::Any => None,
        Origins::List(list) => Some(list),
    }
}

#[test]
fn origins_are_listed_or_any() {
    assert_eq!(listed(""), None);
    assert_eq!(listed("  "), None);
    assert_eq!(listed(" * "), None);
    assert_eq!(
        listed("https://a.example, https://b.example"),
        Some(vec!["https://a.example".to_string(), "https://b.example".to_string()])
    );
    // What cannot be sent in a header is left out.
    assert_eq!(listed("a\u{7f}b,ok"), Some(vec!["ok".to_string()]));
    assert_eq!(listed("a\u{1}b"), None);
    assert_eq!(listed("a,"), Some(vec!["a".to_string(), "".to_string()]));
    assert!(matches!(Origins::from_env(&env(&[])), Origins::Any));
    assert!(matches!(Origins::from_env(&env(&[("SHOAL_ALLOWED_ORIGINS", "x")])), Origins::List(_)));
}
