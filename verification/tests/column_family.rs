use lark::column_family::cf_lower_bound;
use lark::column_family::cf_upper_bound;
use lark::column_family::meta;
use lark::column_family::prefix_key;
use lark::column_family::CfRegistry;

#[test]
fn prefix_key_contains_cf_id() {
    let k = prefix_key(5, b"hello");
    assert_eq!(&k[0..4], &[0, 0, 0, 5]);
    assert_eq!(&k[4..], b"hello");
}

#[test]
fn cf_bounds_are_adjacent() {
    let lo = cf_lower_bound(7);
    let hi = cf_upper_bound(7);
    assert_eq!(lo, vec![0, 0, 0, 7]);
    assert_eq!(hi, vec![0, 0, 0, 8]);
    assert!(lo < hi);
}

#[test]
fn meta_keys_live_under_reserved_cf() {
    let next = meta::next_id_key();
    assert_eq!(&next[0..4], &[0, 0, 0, 0]);
    let name = meta::name_key("foo");
    assert_eq!(&name[0..4], &[0, 0, 0, 0]);
    assert!(name.ends_with(b"foo"));
}

#[test]
fn meta_name_from_key_parses() {
    let key = meta::name_key("widgets");
    assert_eq!(meta::name_from_key(&key), Some("widgets"));
}

#[test]
fn meta_scan_range_is_tight() {
    let lo = meta::name_scan_prefix();
    let hi = meta::name_scan_upper();
    assert!(lo < hi);
    let foo = meta::name_key("foo");
    assert!(lo <= foo);
    assert!(foo < hi);
}

#[test]
fn registry_allocate_is_monotonic() {
    let mut r = CfRegistry::new();
    let (a, _) = r.allocate("alpha");
    let (b, _) = r.allocate("beta");
    assert!(a.id() < b.id());
    assert_eq!(r.get("alpha").unwrap(), a);
    assert_eq!(r.get("beta").unwrap(), b);
}
