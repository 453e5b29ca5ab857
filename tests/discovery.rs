use pep514_registry::discovery::{
    read_registry_entry, registry_pythons, CompanyKey, CompanySnapshot, RootKey, TagKey,
    TagValues,
};
use pep514_registry::ranking::{parts_le_of, path_le, precedes, rank_pythons, text_le, WindowsPython};
use pep514_registry::version::PythonVersion;
use windows_result::{Error, HRESULT};

fn v(major: u64, minor: u64, patch: u64) -> PythonVersion {
    PythonVersion { major, minor, patch }
}

fn entry(path: &str, version: Option<PythonVersion>) -> WindowsPython {
    WindowsPython { path: path.to_string(), version }
}

fn tag(exe: Option<&str>, sys_version: Option<&str>) -> TagKey {
    TagKey::Opened(TagValues {
        executable_path: exe.map(|s| s.to_string()),
        sys_version: sys_version.map(|s| s.to_string()),
    })
}

fn company(name: &str, tags: Vec<TagKey>) -> CompanySnapshot {
    CompanySnapshot { name: name.to_string(), key: CompanyKey::Listed(tags) }
}

fn summary(r: &[WindowsPython]) -> Vec<(String, Option<PythonVersion>)> {
    r.iter().map(|p| (p.path.clone(), p.version)).collect()
}

#[test]
fn parse_two_and_three_segments() {
    assert_eq!(PythonVersion::parse("3.12"), Some(v(3, 12, 0)));
    assert_eq!(PythonVersion::parse("3.11.5"), Some(v(3, 11, 5)));
    assert_eq!(PythonVersion::parse("3"), Some(v(3, 0, 0)));
    assert_eq!(PythonVersion::parse("18446744073709551615.0"), Some(v(u64::MAX, 0, 0)));
}

#[test]
fn parse_rejects_malformed_text() {
    for text in ["", "3.", ".3", "3..1", "3.1.2.4", "3.x", "abc", "3.12.0rc1", "18446744073709551616"] {
        assert_eq!(PythonVersion::parse(text), None, "{text}");
    }
}

#[test]
fn newer_compares_segments_in_order() {
    assert!(v(3, 12, 0).is_newer_than(&v(3, 11, 5)));
    assert!(!v(3, 11, 5).is_newer_than(&v(3, 12, 0)));
    assert!(v(3, 11, 6).is_newer_than(&v(3, 11, 5)));
    assert!(!v(3, 11, 5).is_newer_than(&v(3, 11, 5)));
}

#[test]
fn path_order_is_lexicographic() {
    assert!(path_le("/a", "/b"));
    assert!(!path_le("/b", "/a"));
    assert!(path_le("/a", "/a/b"));
    assert!(!path_le("/a/b", "/a"));
    assert!(path_le("", ""));
}

#[test]
fn path_order_compares_parts_between_separators() {
    assert!(path_le("C:\\Python\\x", "C:\\Python-3\\x"));
    assert!(!path_le("C:\\Python-3\\x", "C:\\Python\\x"));
    assert!(parts_le_of("C:\\Python\\x", "C:\\Python-3\\x"));
    assert!(!text_le("C:\\Python\\x", "C:\\Python-3\\x"));
    assert!(parts_le_of("a/b", "a\\b") && parts_le_of("a\\b", "a/b"));
    assert!(path_le("a/b", "a\\b"));
    assert!(!path_le("a\\b", "a/b"));
}

#[test]
fn text_order_is_character_order() {
    assert!(text_le("/a", "/b"));
    assert!(!text_le("/b", "/a"));
    assert!(text_le("ab", "abc"));
    assert!(!text_le("abc", "ab"));
}

#[test]
fn precedes_follows_ranking_rules() {
    assert!(precedes(&entry("/z", Some(v(3, 1, 0))), &entry("/a", None)));
    assert!(!precedes(&entry("/a", None), &entry("/z", Some(v(3, 1, 0)))));
    assert!(precedes(&entry("/z", Some(v(3, 12, 0))), &entry("/a", Some(v(3, 11, 0)))));
}

#[test]
fn versionless_paths_rank_part_by_part() {
    let ranked = rank_pythons(vec![
        entry("C:\\Python-3\\python.exe", None),
        entry("C:\\Python\\python.exe", None),
    ]);
    let paths: Vec<String> = ranked.iter().map(|p| p.path.clone()).collect();
    assert_eq!(paths, vec!["C:\\Python\\python.exe", "C:\\Python-3\\python.exe"]);
}

#[test]
fn version_precedence() {
    let a = entry("C:\\a\\python.exe", Some(v(3, 12, 0)));
    let b = entry("C:\\b\\python.exe", Some(v(3, 11, 5)));
    let c = entry("C:\\c\\python.exe", None);
    let ranked = rank_pythons(vec![c, b, a]);
    assert_eq!(
        summary(&ranked),
        vec![
            ("C:\\a\\python.exe".to_string(), Some(v(3, 12, 0))),
            ("C:\\b\\python.exe".to_string(), Some(v(3, 11, 5))),
            ("C:\\c\\python.exe".to_string(), None),
        ]
    );
}

#[test]
fn equal_versions_tie_break_on_path() {
    let ranked = rank_pythons(vec![entry("/b", Some(v(3, 12, 1))), entry("/a", Some(v(3, 12, 1)))]);
    assert_eq!(
        summary(&ranked),
        vec![("/a".to_string(), Some(v(3, 12, 1))), ("/b".to_string(), Some(v(3, 12, 1)))]
    );
}

#[test]
fn versionless_entries_by_path() {
    let ranked = rank_pythons(vec![entry("/c", None), entry("/a", None), entry("/b", None)]);
    let paths: Vec<String> = ranked.iter().map(|p| p.path.clone()).collect();
    assert_eq!(paths, vec!["/a", "/b", "/c"]);
}

#[test]
fn ranking_ignores_input_order() {
    let make = || {
        vec![
            entry("/x", None),
            entry("/b", Some(v(3, 12, 0))),
            entry("/a", Some(v(3, 12, 0))),
            entry("/y", Some(v(3, 9, 1))),
            entry("/w", None),
            entry("/a", Some(v(3, 12, 0))),
        ]
    };
    let first = summary(&rank_pythons(make()));
    let mut shuffled = make();
    shuffled.reverse();
    shuffled.swap(1, 4);
    let second = summary(&rank_pythons(shuffled));
    assert_eq!(first, second);
    assert_eq!(rank_pythons(Vec::new()).len(), 0);
}

#[test]
fn entry_without_executable_path_is_unusable() {
    let values = TagValues { executable_path: None, sys_version: Some("3.12".to_string()) };
    assert!(read_registry_entry(values).is_none());
    let values = TagValues { executable_path: Some(String::new()), sys_version: None };
    assert!(read_registry_entry(values).is_none());
}

#[test]
fn entry_with_bad_version_stays_versionless() {
    let values = TagValues {
        executable_path: Some("C:\\py\\python.exe".to_string()),
        sys_version: Some("three".to_string()),
    };
    let found = read_registry_entry(values).unwrap();
    assert_eq!(found.path, "C:\\py\\python.exe");
    assert_eq!(found.version, None);
}

#[test]
fn reserved_namespace_is_skipped() {
    let roots = vec![
        RootKey::Listed(vec![
            company("PyLauncher", vec![tag(Some("C:\\launcher\\py.exe"), Some("3.13"))]),
            company("PythonCore", vec![tag(Some("C:\\core\\python.exe"), Some("3.12"))]),
        ]),
        RootKey::Listed(vec![CompanySnapshot {
            name: "PyLauncher".to_string(),
            key: CompanyKey::Unlistable(Error::from_hresult(HRESULT(5))),
        }]),
    ];
    let found = registry_pythons(roots).unwrap();
    assert_eq!(summary(&found), vec![("C:\\core\\python.exe".to_string(), Some(v(3, 12, 0)))]);
}

#[test]
fn reserved_name_match_is_case_sensitive() {
    let roots = vec![RootKey::Listed(vec![company(
        "pylauncher",
        vec![tag(Some("C:\\other\\python.exe"), None)],
    )])];
    assert_eq!(registry_pythons(roots).unwrap().len(), 1);
}

#[test]
fn missing_executable_path_is_omitted_without_error() {
    let roots = vec![
        RootKey::Listed(vec![company(
            "PythonCore",
            vec![tag(None, Some("3.11")), tag(Some("C:\\ok\\python.exe"), Some("3.10"))],
        )]),
        RootKey::Unopenable,
    ];
    let found = registry_pythons(roots).unwrap();
    assert_eq!(summary(&found), vec![("C:\\ok\\python.exe".to_string(), Some(v(3, 10, 0)))]);
}

#[test]
fn unparsable_version_keeps_entry() {
    let roots = vec![RootKey::Listed(vec![company(
        "Vendor",
        vec![tag(Some("C:\\v\\python.exe"), Some("not-a-version"))],
    )])];
    let found = registry_pythons(roots).unwrap();
    assert_eq!(summary(&found), vec![("C:\\v\\python.exe".to_string(), None)]);
}

#[test]
fn scan_merges_scopes_and_ranks() {
    let roots = vec![
        RootKey::Listed(vec![company(
            "PythonCore",
            vec![tag(Some("C:\\user\\python.exe"), Some("3.11")), tag(Some("C:\\none\\python.exe"), None)],
        )]),
        RootKey::Listed(vec![
            CompanySnapshot { name: "Broken".to_string(), key: CompanyKey::Unopenable },
            company("PythonCore", vec![tag(Some("C:\\machine\\python.exe"), Some("3.13.1"))]),
        ]),
    ];
    let found = registry_pythons(roots).unwrap();
    assert_eq!(
        summary(&found),
        vec![
            ("C:\\machine\\python.exe".to_string(), Some(v(3, 13, 1))),
            ("C:\\user\\python.exe".to_string(), Some(v(3, 11, 0))),
            ("C:\\none\\python.exe".to_string(), None),
        ]
    );
}

#[test]
fn no_scopes_found_is_empty() {
    assert_eq!(registry_pythons(vec![RootKey::Unopenable, RootKey::Unopenable]).unwrap().len(), 0);
}

#[test]
fn root_listing_failure_aborts_scan() {
    let roots = vec![
        RootKey::Listed(vec![company("PythonCore", vec![tag(Some("C:\\a\\python.exe"), None)])]),
        RootKey::Unlistable(Error::from_hresult(HRESULT(7))),
    ];
    let err = registry_pythons(roots).err().unwrap();
    assert_eq!(err.code(), HRESULT(7));
}

#[test]
fn namespace_listing_failure_aborts_scan() {
    let roots = vec![RootKey::Listed(vec![
        CompanySnapshot { name: "A".to_string(), key: CompanyKey::Unlistable(Error::from_hresult(HRESULT(11))) },
        CompanySnapshot { name: "B".to_string(), key: CompanyKey::Unlistable(Error::from_hresult(HRESULT(12))) },
    ])];
    let err = registry_pythons(roots).err().unwrap();
    assert_eq!(err.code(), HRESULT(11));
}

#[test]
fn tag_open_failure_aborts_scan() {
    let roots = vec![RootKey::Listed(vec![company(
        "PythonCore",
        vec![tag(Some("C:\\a\\python.exe"), None), TagKey::Unopenable(Error::from_hresult(HRESULT(13)))],
    )])];
    let err = registry_pythons(roots).err().unwrap();
    assert_eq!(err.code(), HRESULT(13));
}

#[test]
fn scan_ignores_listing_order() {
    let listing = |swap: bool| {
        let mut tags = vec![
            tag(Some("C:\\b\\python.exe"), Some("3.12")),
            tag(Some("C:\\a\\python.exe"), Some("3.12")),
            tag(Some("C:\\c\\python.exe"), None),
        ];
        let mut companies = vec![
            company("Other", vec![tag(Some("C:\\o\\python.exe"), Some("3.13"))]),
        ];
        if swap {
            tags.reverse();
            companies.insert(0, company("PythonCore", tags));
        } else {
            companies.push(company("PythonCore", tags));
        }
        vec![RootKey::Listed(companies), RootKey::Unopenable]
    };
    let first = summary(&registry_pythons(listing(false)).unwrap());
    let second = summary(&registry_pythons(listing(true)).unwrap());
    assert_eq!(first, second);
    assert_eq!(first[0].0, "C:\\o\\python.exe");
    assert_eq!(first[1].0, "C:\\a\\python.exe");
}
