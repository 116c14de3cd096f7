use searchidx::identifiers::{apply_demangling, validate_index, IdentMap, IdentResult};
use searchidx::order::uppercase;

fn index_of(text: &str) -> IdentMap {
    IdentMap::new(Some(text.as_bytes().to_vec()))
}

fn ids(results: &[IdentResult]) -> Vec<String> {
    results.iter().map(|r| r.id.clone()).collect()
}

#[test]
fn uppercase_folds_ascii_letters_only() {
    assert_eq!(uppercase(b"aZ_z0:~"), b"AZ_Z0:~".to_vec());
    assert_eq!(uppercase(b""), Vec::<u8>::new());
}

#[test]
fn absent_index_every_lookup_empty() {
    let map = IdentMap::new(None);
    assert_eq!(map.lookup("anything", false, true, 10).len(), 0);
    assert_eq!(map.lookup("", false, false, 0).len(), 0);
    assert_eq!(map.bisect(b"x", false), 0);
    assert_eq!(map.bisect(b"x", true), 0);
}

#[test]
fn bisect_bounds_are_ordered() {
    let map = index_of("ABC sym1\nabc sym2\nfoo sym3\n");
    for needle in [&b"abc"[..], b"ABC", b"", b"zzz", b"f", b"much_longer_than_any_record"] {
        let lo = map.bisect(needle, false);
        let hi = map.bisect(needle, true);
        assert!(lo <= hi, "bisect bounds out of order for {:?}", needle);
    }
}

#[test]
fn bisect_range_holds_exactly_the_prefixed_records() {
    let map = index_of("ABC sym1\nabc sym2\nfoo sym3\n");
    let lo = map.bisect(b"abc", false);
    let hi = map.bisect(b"abc", true);
    // the first two records (both uppercase to ABC ...) fall in the range
    assert_eq!(lo, 0);
    assert_eq!(hi, "ABC sym1\nabc sym2\n".len());
}

#[test]
fn case_sensitive_lookup_filters_by_exact_case() {
    let map = index_of("ABC x\nabc y\n");
    let found = map.lookup("abc", false, false, 10);
    assert_eq!(ids(&found), vec!["abc"]);
    assert_eq!(found[0].symbol, "y");
}

#[test]
fn case_insensitive_lookup_returns_both_cases() {
    let map = index_of("ABC x\nabc y\n");
    let found = map.lookup("abc", false, true, 10);
    assert_eq!(ids(&found), vec!["ABC", "abc"]);
}

#[test]
fn suffix_with_scope_separators_never_matches() {
    let map = index_of("foo s1\nfoo.bar s2\nfoo:bar s3\nfoobar s4\n");
    let found = map.lookup("foo", false, true, 10);
    assert_eq!(ids(&found), vec!["foo", "foobar"]);
}

#[test]
fn exact_match_rejects_every_nonempty_suffix() {
    let map = index_of("foo s1\nfoo.bar s2\nfoo:bar s3\nfoobar s4\n");
    let found = map.lookup("foo", true, true, 10);
    assert_eq!(ids(&found), vec!["foo"]);
}

#[test]
fn result_cap_returns_first_k_in_sorted_order() {
    let map = index_of("ida s1\nidb s2\nidc s3\nidd s4\nide s5\n");
    let capped = map.lookup("id", false, true, 2);
    assert_eq!(ids(&capped), vec!["ida", "idb"]);
    let none = map.lookup("id", false, true, 0);
    assert!(none.is_empty());
    let large = map.lookup("id", false, true, 100);
    assert_eq!(ids(&large), vec!["ida", "idb", "idc", "idd", "ide"]);
}

#[test]
fn lookup_misses_return_empty() {
    let map = index_of("foo s1\nfoobar s4\n");
    assert_eq!(map.lookup("zzz", false, true, 10).len(), 0);
    assert_eq!(map.lookup("foox", false, true, 10).len(), 0);
}

#[test]
fn empty_needle_matches_unscoped_records() {
    let map = index_of("bar s1\nfoo.bar s2\n");
    let found = map.lookup("", false, true, 10);
    assert_eq!(ids(&found), vec!["bar"]);
}

#[test]
fn demangled_symbol_replaces_display_id() {
    let results = vec![
        IdentResult { id: "one".to_string(), symbol: "_Z3onev".to_string() },
        IdentResult { id: "two".to_string(), symbol: "plain".to_string() },
    ];
    let demangled = vec!["one()".to_string(), "plain".to_string()];
    let shown = apply_demangling(results, demangled);
    assert_eq!(shown[0].id, "one()");
    assert_eq!(shown[0].symbol, "_Z3onev");
    assert_eq!(shown[1].id, "two");
    assert_eq!(shown[1].symbol, "plain");
}

#[test]
fn validator_accepts_well_formed_indexes() {
    assert!(validate_index(&b"".to_vec()));
    assert!(validate_index(&b"ABC x\nabc y\n".to_vec()));
    assert!(validate_index(&b"foo s1\nfoo.bar s2\nfoo:bar s3\nfoobar s4\n".to_vec()));
}

#[test]
fn validator_rejects_missing_terminator() {
    assert!(!validate_index(&b"abc x".to_vec()));
}

#[test]
fn validator_rejects_empty_lines() {
    assert!(!validate_index(&b"\n".to_vec()));
    assert!(!validate_index(&b"a x\n\nb y\n".to_vec()));
}

#[test]
fn validator_rejects_unsorted_records() {
    assert!(!validate_index(&b"beta x\nalpha y\n".to_vec()));
}

#[test]
fn validator_rejects_unprintable_bytes() {
    assert!(!validate_index(&b"a\tb x\n".to_vec()));
    assert!(!validate_index(&b"a~tilde x\n".to_vec()));
}

#[test]
fn validator_rejects_one_field_records() {
    assert!(!validate_index(&b"nospace\n".to_vec()));
    assert!(!validate_index(&b"a b\nnospace\n".to_vec()));
}
