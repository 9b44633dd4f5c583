use nix_snow::editor::add_packages;
use nix_snow::editor::add_to_array;
use nix_snow::editor::read_array_attribute;
use nix_snow::editor::remove_from_array;
use nix_snow::error::SnowError;

fn b(s: &str) -> Vec<u8> {
    s.as_bytes().to_vec()
}

fn vv(xs: &[&str]) -> Vec<Vec<u8>> {
    xs.iter().map(|x| b(x)).collect()
}

fn s(v: &[u8]) -> String {
    String::from_utf8(v.to_vec()).unwrap()
}

const PATH: &str = "environment.systemPackages";

#[test]
fn read_entries_in_order() {
    let doc = b("{ environment.systemPackages = [ pkgs.vim pkgs.htop ];\n}\n");
    let es = read_array_attribute(&doc, &b(PATH)).unwrap();
    assert_eq!(es, vv(&["pkgs.vim", "pkgs.htop"]));
}

#[test]
fn read_empty_array() {
    let doc = b("environment.systemPackages = [ ];\n");
    let es = read_array_attribute(&doc, &b(PATH)).unwrap();
    assert!(es.is_empty());
}

#[test]
fn read_multiline_array() {
    let doc = b("environment.systemPackages = [\n  pkgs.vim\n  pkgs.git\n];\n");
    let es = read_array_attribute(&doc, &b(PATH)).unwrap();
    assert_eq!(es, vv(&["pkgs.vim", "pkgs.git"]));
}

#[test]
fn missing_attribute_is_structural_error() {
    let doc = b("services.openssh.enable = true;\n");
    let r = read_array_attribute(&doc, &b(PATH));
    assert_eq!(r.unwrap_err(), SnowError::StructuralEdit);
}

#[test]
fn non_array_attribute_is_structural_error() {
    let doc = b("environment.systemPackages = lib.mkDefault x;\n");
    let r = add_to_array(&doc, &b(PATH), &vv(&["pkgs.vim"]));
    assert_eq!(r.unwrap_err(), SnowError::StructuralEdit);
}

#[test]
fn unclosed_array_is_structural_error() {
    let doc = b("environment.systemPackages = [ pkgs.vim \n");
    let r = read_array_attribute(&doc, &b(PATH));
    assert_eq!(r.unwrap_err(), SnowError::StructuralEdit);
}

// Scenario: install appends a qualified entry after the existing ones.
#[test]
fn install_appends_qualified_entry() {
    let doc = b("environment.systemPackages = [ pkgs.vim ];");
    let out = add_packages(&doc, &b(PATH), &vv(&["htop"])).unwrap();
    assert_eq!(s(&out), "environment.systemPackages = [ pkgs.vim pkgs.htop ];");
}

// Scenario: removing by bare name matches the qualified spelling.
#[test]
fn remove_matches_qualified_spelling() {
    let doc = b("environment.systemPackages = [ pkgs.vim ];");
    let out = remove_from_array(&doc, &b(PATH), &vv(&["vim"])).unwrap();
    assert_eq!(s(&out), "environment.systemPackages = [ ];");
}

#[test]
fn remove_matches_bare_spelling() {
    let doc = b("environment.systemPackages = [ vim git ];");
    let out = remove_from_array(&doc, &b(PATH), &vv(&["pkgs.vim"])).unwrap();
    assert_eq!(s(&out), "environment.systemPackages = [ git ];");
}

// Round trip: adding an absent entry and removing it restores the
// document byte for byte.
#[test]
fn add_then_remove_restores_document() {
    let doc = b("{\n  # system packages\n  environment.systemPackages = [ pkgs.vim ];\n}\n");
    let added = add_to_array(&doc, &b(PATH), &vv(&["pkgs.htop"])).unwrap();
    assert_ne!(added, doc);
    let back = remove_from_array(&added, &b(PATH), &vv(&["pkgs.htop"])).unwrap();
    assert_eq!(back, doc);
}

#[test]
fn add_then_remove_restores_multiline_document() {
    let doc = b("environment.systemPackages = [\n  pkgs.vim\n  pkgs.git\n];\n");
    let added = add_to_array(&doc, &b(PATH), &vv(&["pkgs.curl"])).unwrap();
    let back = remove_from_array(&added, &b(PATH), &vv(&["curl"])).unwrap();
    assert_eq!(back, doc);
}

// Convention preservation: a bare-name array takes a bare entry.
#[test]
fn bare_array_takes_bare_entry() {
    let doc = b("environment.systemPackages = with pkgs; [ vim ];");
    let out = add_packages(&doc, &b(PATH), &vv(&["htop"])).unwrap();
    assert_eq!(s(&out), "environment.systemPackages = with pkgs; [ vim htop ];");
}

// Convention preservation: a qualified array takes a qualified entry,
// even when the request is spelled bare.
#[test]
fn qualified_array_takes_qualified_entry() {
    let doc = b("environment.systemPackages = [ pkgs.git ];");
    let out = add_packages(&doc, &b(PATH), &vv(&["vim"])).unwrap();
    assert_eq!(s(&out), "environment.systemPackages = [ pkgs.git pkgs.vim ];");
}

#[test]
fn empty_array_takes_qualified_entry() {
    let doc = b("environment.systemPackages = [ ];");
    let out = add_packages(&doc, &b(PATH), &vv(&["vim"])).unwrap();
    assert_eq!(s(&out), "environment.systemPackages = [ pkgs.vim ];");
}

// An entry that is already present, in either spelling, is not re-added.
#[test]
fn present_entry_is_not_readded() {
    let doc = b("environment.systemPackages = [ pkgs.vim ];");
    let out = add_packages(&doc, &b(PATH), &vv(&["vim"])).unwrap();
    assert_eq!(s(&out), "environment.systemPackages = [ pkgs.vim ];");
}

#[test]
fn duplicate_request_is_added_once() {
    let doc = b("environment.systemPackages = [ ];");
    let out = add_to_array(&doc, &b(PATH), &vv(&["pkgs.vim", "pkgs.vim"])).unwrap();
    assert_eq!(s(&out), "environment.systemPackages = [ pkgs.vim ];");
}

// Everything outside the array literal is byte-identical after an edit.
#[test]
fn unrelated_text_is_untouched() {
    let doc = b("{ a.b = 1;  # note\n  environment.systemPackages = [ pkgs.vim ]; # tail\n  c = [ x ];\n}");
    let out = add_to_array(&doc, &b(PATH), &vv(&["pkgs.htop"])).unwrap();
    let o = s(&out);
    assert!(o.starts_with("{ a.b = 1;  # note\n  environment.systemPackages = [ pkgs.vim pkgs.htop ]; # tail\n"));
    assert!(o.ends_with("  c = [ x ];\n}"));
}

#[test]
fn with_clause_array_is_readable() {
    let doc = b("environment.systemPackages = with pkgs; [\n  vim\n  git\n];\n");
    let es = read_array_attribute(&doc, &b(PATH)).unwrap();
    assert_eq!(es, vv(&["vim", "git"]));
}

#[test]
fn with_clause_round_trip() {
    let doc = b("environment.systemPackages = with pkgs; [ vim ];");
    let added = add_to_array(&doc, &b(PATH), &vv(&["htop"])).unwrap();
    assert_eq!(s(&added), "environment.systemPackages = with pkgs; [ vim htop ];");
    let back = remove_from_array(&added, &b(PATH), &vv(&["htop"])).unwrap();
    assert_eq!(back, doc);
}

#[test]
fn reading_after_an_edit_sees_the_change() {
    let doc = b("environment.systemPackages = [ pkgs.vim ];");
    let added = add_to_array(&doc, &b(PATH), &vv(&["pkgs.htop"])).unwrap();
    assert_eq!(read_array_attribute(&added, &b(PATH)).unwrap(), vv(&["pkgs.vim", "pkgs.htop"]));
    let removed = remove_from_array(&added, &b(PATH), &vv(&["vim"])).unwrap();
    assert_eq!(read_array_attribute(&removed, &b(PATH)).unwrap(), vv(&["pkgs.htop"]));
}

#[test]
fn attribute_matches_whole_names_only() {
    let doc = b("my.environment.systemPackagesExtra = [ a ];\nenvironment.systemPackages = [ pkgs.vim ];");
    let es = read_array_attribute(&doc, &b(PATH)).unwrap();
    assert_eq!(es, vv(&["pkgs.vim"]));
}
