use tfenv_rs::catalog::{latest_remote_matching, list_remote_versions, resolve_remote};
use tfenv_rs::resolve::{
    find_local_version_file, latest_local_matching, pick_requested, resolve_requested,
    resolve_version_name, Pattern, Resolution, ResolveError, VfsDir,
};

fn installed(names: &[&str]) -> Vec<String> {
    names.iter().map(|s| s.to_string()).collect()
}

#[test]
fn test_exact_pin_resolves_as_is() {
    let r = resolve_requested("1.4.6", "", &installed(&[]), true);
    match r {
        Resolution::Resolved(s) => assert_eq!(s, "1.4.6"),
        _ => panic!("expected a resolved version"),
    }
}

#[test]
fn test_leading_v_stripped() {
    let r = resolve_requested("v1.4.6", "", &installed(&[]), true);
    match r {
        Resolution::Resolved(s) => assert_eq!(s, "1.4.6"),
        _ => panic!("expected a resolved version"),
    }
}

#[test]
fn test_latest_prefers_local_over_remote() {
    // local-before-remote: with a matching installed version the resolver
    // answers from the installed set and never asks for the catalog
    let r = resolve_requested("latest", "", &installed(&["1.2.0", "1.4.6"]), true);
    match r {
        Resolution::Resolved(s) => assert_eq!(s, "1.4.6"),
        Resolution::NeedRemote(_) => panic!("remote must not be consulted"),
        Resolution::Failed(_) => panic!("must resolve"),
    }
}

#[test]
fn test_latest_goes_remote_only_without_local_match() {
    let r = resolve_requested("latest", "", &installed(&[]), true);
    assert!(matches!(r, Resolution::NeedRemote(Pattern::ThreePart)));
}

#[test]
fn test_latest_auto_install_disabled_fails() {
    let r = resolve_requested("latest", "", &installed(&[]), false);
    assert!(matches!(
        r,
        Resolution::Failed(ResolveError::NoLocalMatch(_))
    ));
}

#[test]
fn test_latest_default_pattern_skips_prerelease() {
    // the default pattern never selects a prerelease-tagged version
    let r = latest_local_matching(&installed(&["1.2.3", "1.5.0-beta1"]), &Pattern::ThreePart);
    assert_eq!(r.unwrap().as_deref(), Some("1.2.3"));
}

#[test]
fn test_latest_custom_pattern_local() {
    let names = installed(&["1.2.0", "1.2.5", "1.3.0"]);
    let p = Pattern::Custom("^1\\.2\\.".to_string());
    let r = latest_local_matching(&names, &p);
    assert_eq!(r.unwrap().as_deref(), Some("1.2.5"));
}

#[test]
fn test_invalid_regex_is_an_error() {
    let p = Pattern::Custom("^(".to_string());
    assert!(matches!(
        latest_local_matching(&installed(&["1.0.0"]), &p),
        Err(ResolveError::InvalidRegex(_))
    ));
}

#[test]
fn test_min_required_failure_is_resolution_error() {
    // `!= 1.3.0` yields no minimum, so `min-required` fails to resolve
    let text = "required_version = \"!= 1.3.0\"\n";
    let r = resolve_requested("min-required", text, &installed(&[]), true);
    assert!(matches!(
        r,
        Resolution::Failed(ResolveError::MinRequiredNotFound)
    ));
}

#[test]
fn test_min_required_resolves() {
    let text = "required_version = \">= 1.2.0\"\n";
    let r = resolve_requested("min-required", text, &installed(&[]), true);
    match r {
        Resolution::Resolved(s) => assert_eq!(s, "1.2.0"),
        _ => panic!("expected a resolved version"),
    }
}

#[test]
fn test_latest_allowed_unmappable_fails() {
    let r = resolve_requested("latest-allowed", "nothing\n", &installed(&[]), true);
    assert!(matches!(
        r,
        Resolution::Failed(ResolveError::LatestAllowedNotFound)
    ));
}

fn catalog_html(versions: &[&str]) -> String {
    let mut h = String::from("<html><body><a href=\"/\">home</a>");
    for v in versions {
        h.push_str(&format!("<a href=\"/terraform/{}/\">terraform_{}</a>", v, v));
    }
    h.push_str("</body></html>");
    h
}

#[test]
fn test_latest_matching_against_catalog() {
    // `latest:^1\.2\.` against {1.2.0, 1.2.5, 1.3.0} resolves to 1.2.5
    let html = catalog_html(&["1.2.0", "1.2.5", "1.3.0"]);
    let p = Pattern::Custom("^1\\.2\\.".to_string());
    let r = latest_remote_matching(&html, "terraform", &p);
    assert_eq!(r.unwrap().as_deref(), Some("1.2.5"));
}

#[test]
fn test_latest_allowed_tilde_against_catalog() {
    // `~> 1.2` maps to latest filtered by the escaped prefix `1\.`
    let text = "required_version = \"~> 1.2\"\n";
    let r = resolve_requested("latest-allowed", text, &installed(&[]), true);
    let p = match r {
        Resolution::NeedRemote(p) => p,
        _ => panic!("expected a remote step"),
    };
    match &p {
        Pattern::Custom(s) => assert_eq!(s, "^1\\."),
        _ => panic!("expected the mapped filter"),
    }
    // the filter admits every 1.x entry and excludes 2.0.0; the newest
    // admitted entry wins
    let html = catalog_html(&["1.2.9", "2.0.0"]);
    let r2 = latest_remote_matching(&html, "terraform", &p);
    assert_eq!(r2.unwrap().as_deref(), Some("1.2.9"));
    let html_full = catalog_html(&["1.2.9", "1.3.0", "2.0.0"]);
    let r3 = latest_remote_matching(&html_full, "terraform", &p);
    assert_eq!(r3.unwrap().as_deref(), Some("1.3.0"));
}

#[test]
fn test_resolve_remote_no_match_is_an_error() {
    let html = catalog_html(&["2.0.0"]);
    let p = Pattern::Custom("^1\\.".to_string());
    assert!(matches!(
        resolve_remote(&html, "terraform", &p),
        Err(ResolveError::NoRemoteMatch(_))
    ));
}

#[test]
fn test_list_remote_versions_descending() {
    let html = catalog_html(&["1.2.0", "1.3.0", "0.13.6"]);
    let r = list_remote_versions(&html, "terraform");
    let names: Vec<&str> = r.iter().map(|p| p.0.as_str()).collect();
    assert_eq!(names, vec!["1.3.0", "1.2.0", "0.13.6"]);
    assert!(r.iter().all(|p| p.1 == "terraform"));
}

#[test]
fn test_list_remote_versions_skips_other_links() {
    let html = "<a href=\"/terraform/1.0.0/\">x</a><a href=\"/docs\">docs</a>\
                <a href=\"/terraform/not-a-version/\">y</a>";
    let r = list_remote_versions(html, "terraform");
    assert_eq!(r.len(), 1);
    assert_eq!(r[0].0, "1.0.0");
}

#[test]
fn test_list_remote_versions_opentofu_tags() {
    let html = "<a href=\"https://github.com/opentofu/opentofu/releases/tag/v1.6.2\">v1.6.2</a>\
                <a href=\"https://github.com/opentofu/opentofu/releases/tag/v1.7.0\">v1.7.0</a>";
    let r = list_remote_versions(html, "opentofu");
    let names: Vec<&str> = r.iter().map(|p| p.0.as_str()).collect();
    assert_eq!(names, vec!["1.7.0", "1.6.2"]);
}

#[test]
fn test_pick_requested_precedence() {
    let ov = Some("1.1.1".to_string());
    let loc = Some(" 2.2.2\n".to_string());
    let home = Some("3.3.3".to_string());
    assert_eq!(pick_requested(&ov, &loc, &home), "1.1.1");
    assert_eq!(pick_requested(&None, &loc, &home), "2.2.2");
    assert_eq!(pick_requested(&None, &None, &home), "3.3.3");
    assert_eq!(pick_requested(&None, &None, &None), "latest");
    // an empty override falls through
    assert_eq!(
        pick_requested(&Some(String::new()), &None, &home),
        "3.3.3"
    );
}

#[test]
fn test_resolve_version_name_chain() {
    let r = resolve_version_name(
        &Some("1.4.6".to_string()),
        &None,
        &None,
        "",
        &installed(&[]),
        true,
    );
    match r {
        Resolution::Resolved(s) => assert_eq!(s, "1.4.6"),
        _ => panic!("expected a resolved version"),
    }
}

#[test]
fn test_find_local_version_file_first_ancestor_wins() {
    let walk = vec![
        VfsDir { path: "/work/project/sub".to_string(), has_version_file: false },
        VfsDir { path: "/work/project".to_string(), has_version_file: true },
        VfsDir { path: "/work".to_string(), has_version_file: true },
    ];
    assert_eq!(
        find_local_version_file(&walk).as_deref(),
        Some("/work/project/.terraform-version")
    );
    let none = vec![VfsDir { path: "/".to_string(), has_version_file: false }];
    assert!(find_local_version_file(&none).is_none());
}
