use nix_snow::plan::plan;
use nix_snow::plan::DomainKind;
use nix_snow::plan::Operation;
use nix_snow::store::attr_path;
use nix_snow::store::attrs_of;
use nix_snow::store::contains_package;
use nix_snow::store::domain_packages;
use nix_snow::store::profile_packages;

fn b(s: &str) -> Vec<u8> {
    s.as_bytes().to_vec()
}

fn vv(xs: &[&str]) -> Vec<Vec<u8>> {
    xs.iter().map(|x| b(x)).collect()
}

fn pairs(xs: &[(&str, &str)]) -> Vec<(Vec<u8>, Vec<u8>)> {
    xs.iter().map(|(k, v)| (b(k), b(v))).collect()
}

// Idempotence: planning an Install for identifiers already fully
// present yields an empty addition set.
#[test]
fn install_of_present_packages_plans_nothing() {
    let p = plan(
        DomainKind::System,
        Operation::Install,
        &vv(&["vim", "pkgs.htop"]),
        &vv(&["pkgs.vim", "htop"]),
    );
    assert!(p.additions.is_empty());
    assert!(p.removals.is_empty());
}

#[test]
fn install_plans_only_missing_packages() {
    let p = plan(
        DomainKind::System,
        Operation::Install,
        &vv(&["vim", "git", "htop"]),
        &vv(&["pkgs.git"]),
    );
    assert_eq!(p.additions, vv(&["vim", "htop"]));
    assert!(p.removals.is_empty());
}

#[test]
fn install_plans_a_duplicate_request_once() {
    let p = plan(
        DomainKind::Home,
        Operation::Install,
        &vv(&["vim", "pkgs.vim"]),
        &vv(&[]),
    );
    assert_eq!(p.additions, vv(&["vim"]));
}

#[test]
fn remove_plans_only_present_packages() {
    let p = plan(
        DomainKind::System,
        Operation::Remove,
        &vv(&["vim", "git"]),
        &vv(&["pkgs.vim", "htop"]),
    );
    assert_eq!(p.removals, vv(&["vim"]));
    assert!(p.additions.is_empty());
}

#[test]
fn remove_plans_a_duplicate_request_once() {
    let p = plan(
        DomainKind::System,
        Operation::Remove,
        &vv(&["vim", "pkgs.vim"]),
        &vv(&["vim"]),
    );
    assert_eq!(p.removals, vv(&["vim"]));
}

#[test]
fn update_plans_no_document_change() {
    let p = plan(
        DomainKind::Profile,
        Operation::Update,
        &vv(&["vim"]),
        &vv(&[]),
    );
    assert!(p.additions.is_empty());
    assert!(p.removals.is_empty());
    assert_eq!(p.domain, DomainKind::Profile);
}

#[test]
fn attribute_paths_per_domain() {
    assert_eq!(attr_path(DomainKind::System), b("environment.systemPackages"));
    assert_eq!(attr_path(DomainKind::Home), b("home.packages"));
}

#[test]
fn domain_listing_resolves_versions_best_effort() {
    let entries = vv(&["pkgs.vim", "local.tool"]);
    let versions = pairs(&[("pkgs.vim", "9.1"), ("other", "2.0")]);
    let pkgs = domain_packages(DomainKind::System, &entries, &versions);
    assert_eq!(pkgs.len(), 2);
    assert_eq!(pkgs[0].attr, b("pkgs.vim"));
    assert_eq!(pkgs[0].version, Some(b("9.1")));
    assert_eq!(pkgs[0].domain, DomainKind::System);
    assert_eq!(pkgs[1].attr, b("local.tool"));
    assert_eq!(pkgs[1].version, None);
}

#[test]
fn profile_listing_falls_back_to_manifest_name() {
    let named = pairs(&[("vim", "vim-9.1.0"), ("htop", "htop-bin")]);
    let versions = pairs(&[("vim", "9.1.0")]);
    let pkgs = profile_packages(&named, &versions);
    assert_eq!(pkgs.len(), 2);
    assert_eq!(pkgs[0].attr, b("vim"));
    assert_eq!(pkgs[0].version, Some(b("9.1.0")));
    assert_eq!(pkgs[1].attr, b("htop"));
    assert_eq!(pkgs[1].version, Some(b("htop-bin")));
    assert_eq!(pkgs[1].domain, DomainKind::Profile);
}

#[test]
fn contains_matches_either_spelling() {
    let entries = vv(&["pkgs.vim"]);
    let pkgs = domain_packages(DomainKind::System, &entries, &pairs(&[]));
    assert!(contains_package(&pkgs, &b("vim")));
    assert!(contains_package(&pkgs, &b("pkgs.vim")));
    assert!(!contains_package(&pkgs, &b("git")));
}

#[test]
fn attrs_of_lists_identifiers_in_order() {
    let entries = vv(&["pkgs.vim", "git"]);
    let pkgs = domain_packages(DomainKind::Home, &entries, &pairs(&[]));
    assert_eq!(attrs_of(&pkgs), vv(&["pkgs.vim", "git"]));
}
