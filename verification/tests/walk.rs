use fries_corpus_script::walk::{is_candidate_dependent, ManifestInfo, ManifestWalk, PackageInfo};

fn strings(v: &[&str]) -> Vec<String> {
    v.iter().map(|s| s.to_string()).collect()
}

fn package(deps: &[&str]) -> ManifestInfo {
    ManifestInfo {
        package: Some(PackageInfo { name: "p".to_string(), in_workspace: false }),
        workspace_members: None,
        dependencies: strings(deps),
    }
}

#[test]
fn candidates_are_named_for_the_library() {
    assert!(is_candidate_dependent("url", "/root/dependents/url_dependent3"));
    assert!(!is_candidate_dependent("url", "/root/dependents/url_dependent61"));
    assert!(!is_candidate_dependent("url", "/root/dependents/serde_dependent3"));
    assert!(!is_candidate_dependent("url", "/root/dependents/url2_dependent3"));
    assert!(is_candidate_dependent("url", "url"));
    assert!(!is_candidate_dependent("url", "/x61/dependents/url_dependent3"));
}

#[test]
fn a_package_that_uses_the_library_is_found() {
    let mut w = ManifestWalk::new("url", "/d/url_dependent0");
    let dir = w.next_dir().unwrap();
    assert_eq!(dir, "/d/url_dependent0");
    w.visit(&dir, Some(&package(&["serde", "url"])));
    assert!(w.next_dir().is_none());
    assert_eq!(w.into_found(), strings(&["/d/url_dependent0"]));
}

#[test]
fn a_package_without_the_library_or_manifest_is_not() {
    let mut w = ManifestWalk::new("url", "/d/a");
    let dir = w.next_dir().unwrap();
    w.visit(&dir, Some(&package(&["serde"])));
    assert!(w.next_dir().is_none());
    assert!(w.into_found().is_empty());
    let mut w = ManifestWalk::new("url", "/d/a");
    let dir = w.next_dir().unwrap();
    w.visit(&dir, None);
    assert!(w.next_dir().is_none());
    assert!(w.into_found().is_empty());
}

#[test]
fn workspace_members_are_walked_in_order() {
    let mut w = ManifestWalk::new("url", "/d/ws");
    let dir = w.next_dir().unwrap();
    w.visit(
        &dir,
        Some(&ManifestInfo {
            package: Some(PackageInfo { name: "root".to_string(), in_workspace: false }),
            workspace_members: Some(strings(&[".", "a", "./", "b184", "c"])),
            dependencies: strings(&["url"]),
        }),
    );
    let a = w.next_dir().unwrap();
    assert_eq!(a, "/d/ws/a");
    w.visit(
        &a,
        Some(&ManifestInfo {
            package: None,
            workspace_members: Some(strings(&["x", "."])),
            dependencies: vec![],
        }),
    );
    let ax = w.next_dir().unwrap();
    assert_eq!(ax, "/d/ws/a/x");
    w.visit(&ax, Some(&package(&["url"])));
    let adot = w.next_dir().unwrap();
    assert_eq!(adot, "/d/ws/a/.");
    w.visit(&adot, Some(&package(&["url"])));
    let c = w.next_dir().unwrap();
    assert_eq!(c, "/d/ws/c");
    w.visit(
        &c,
        Some(&ManifestInfo {
            package: Some(PackageInfo { name: "c".to_string(), in_workspace: true }),
            workspace_members: Some(strings(&["ignored"])),
            dependencies: strings(&["url"]),
        }),
    );
    assert!(w.next_dir().is_none());
    assert_eq!(w.into_found(), strings(&["/d/ws", "/d/ws/a/x", "/d/ws/a/.", "/d/ws/c"]));
}

#[test]
fn passed_over_directories_are_not_read() {
    let mut w = ManifestWalk::new("url", "/d/url_dependent191");
    assert!(w.next_dir().is_none());
    assert!(w.into_found().is_empty());
}

#[test]
fn usable_manifests() {
    assert!(package(&[]).is_usable());
    let m = ManifestInfo { package: None, workspace_members: None, dependencies: vec![] };
    assert!(!m.is_usable());
}
