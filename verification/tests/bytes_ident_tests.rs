use nix_snow::bytes::bytes_eq;
use nix_snow::bytes::dec_bytes;
use nix_snow::bytes::find_sub;
use nix_snow::bytes::to_lower;
use nix_snow::error::SnowError;
use nix_snow::ident::detect_bare;
use nix_snow::ident::is_qualified_exec;
use nix_snow::ident::normalize;
use nix_snow::ident::same_pkg_exec;
use nix_snow::ident::spell_entry;

fn b(s: &str) -> Vec<u8> {
    s.as_bytes().to_vec()
}

fn vv(xs: &[&str]) -> Vec<Vec<u8>> {
    xs.iter().map(|x| b(x)).collect()
}

#[test]
fn decimal_rendering_is_exact() {
    assert_eq!(dec_bytes(0), b("0"));
    assert_eq!(dec_bytes(7), b("7"));
    assert_eq!(dec_bytes(42), b("42"));
    assert_eq!(dec_bytes(1234567), b("1234567"));
}

#[test]
fn find_sub_finds_the_first_occurrence() {
    let hay = b("abcabc");
    assert_eq!(find_sub(hay.as_slice(), b("bc").as_slice(), 0), Some(1));
    assert_eq!(find_sub(hay.as_slice(), b("bc").as_slice(), 2), Some(4));
    assert_eq!(find_sub(hay.as_slice(), b("zz").as_slice(), 0), None);
}

#[test]
fn lower_folds_ascii_only() {
    assert_eq!(to_lower(b("FireFox-2").as_slice()), b("firefox-2"));
}

#[test]
fn bytes_eq_compares_contents() {
    assert!(bytes_eq(b("abc").as_slice(), b("abc").as_slice()));
    assert!(!bytes_eq(b("abc").as_slice(), b("abd").as_slice()));
    assert!(!bytes_eq(b("abc").as_slice(), b("ab").as_slice()));
}

#[test]
fn normalize_strips_the_namespace_prefix() {
    assert_eq!(normalize(&b("pkgs.vim")), b("vim"));
    assert_eq!(normalize(&b("vim")), b("vim"));
    assert_eq!(normalize(&b("pkgs.pkgs.vim")), b("pkgs.vim"));
}

#[test]
fn same_pkg_compares_normalized_forms() {
    assert!(same_pkg_exec(&b("pkgs.vim"), &b("vim")));
    assert!(same_pkg_exec(&b("vim"), &b("vim")));
    assert!(!same_pkg_exec(&b("vim"), &b("git")));
    assert!(!same_pkg_exec(&b("pkgs.pkgs.vim"), &b("vim")));
}

#[test]
fn qualified_test_checks_the_prefix() {
    assert!(is_qualified_exec(&b("pkgs.vim")));
    assert!(!is_qualified_exec(&b("vim")));
    assert!(!is_qualified_exec(&b("pk")));
}

#[test]
fn convention_detection() {
    assert!(detect_bare(&vv(&["vim", "git"])));
    assert!(!detect_bare(&vv(&["pkgs.vim", "git"])));
    assert!(!detect_bare(&vv(&[])));
}

#[test]
fn spelling_follows_the_convention() {
    assert_eq!(spell_entry(true, &b("pkgs.vim")), b("vim"));
    assert_eq!(spell_entry(true, &b("vim")), b("vim"));
    assert_eq!(spell_entry(false, &b("vim")), b("pkgs.vim"));
    assert_eq!(spell_entry(false, &b("pkgs.vim")), b("pkgs.vim"));
}

#[test]
fn error_kinds_are_distinct() {
    assert_ne!(SnowError::DomainNotConfigured, SnowError::StructuralEdit);
    assert_ne!(SnowError::BuilderFailure, SnowError::PruneFailure);
    assert_ne!(SnowError::EscalationFailure, SnowError::PackageNotFound);
}
