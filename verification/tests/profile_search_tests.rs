use nix_snow::profile::profile_fallback;
use nix_snow::profile::profile_install_decision;
use nix_snow::profile::profile_mutation_decision;
use nix_snow::profile::run_argv;
use nix_snow::profile::split_exec;
use nix_snow::profile::upgrade_all_argv;
use nix_snow::profile::InstallDecision;
use nix_snow::profile::ProfileAction;
use nix_snow::profile::ProfileVerb;
use nix_snow::search::match_spans;
use nix_snow::search::rank_results;
use nix_snow::search::score;
use nix_snow::search::SearchCandidate;

fn b(s: &str) -> Vec<u8> {
    s.as_bytes().to_vec()
}

fn vv(xs: &[&str]) -> Vec<Vec<u8>> {
    xs.iter().map(|x| b(x)).collect()
}

fn cand(attr: &str) -> SearchCandidate {
    SearchCandidate {
        attr: b(attr),
        version: None,
        description: None,
        broken: false,
        insecure: false,
        unsupported: false,
        unfree: false,
    }
}

#[test]
fn split_keeps_empty_fields() {
    let parts = split_exec(b("a  b").as_slice(), 32);
    assert_eq!(parts, vv(&["a", "", "b"]));
    let lines = split_exec(b("x\ny\n").as_slice(), 10);
    assert_eq!(lines, vv(&["x", "y", ""]));
}

#[test]
fn fallback_finds_entry_by_display_name() {
    let listing = b("/nix/store/aaa-vim vim 9.1\n/nix/store/bbb-htop htop 3.0\n");
    let t = profile_fallback(&listing, &b("htop")).unwrap();
    assert_eq!(t, b("/nix/store/bbb-htop"));
}

#[test]
fn fallback_misses_unknown_name() {
    let listing = b("/nix/store/aaa-vim vim 9.1\n");
    assert!(profile_fallback(&listing, &b("git")).is_none());
}

#[test]
fn resolvable_package_is_removed_by_attribute() {
    let r = profile_mutation_decision(
        ProfileVerb::Remove,
        &b("vim"),
        true,
        &b(""),
        &b("x86_64-linux"),
    );
    match r {
        ProfileAction::ByAttr { argv } => {
            assert_eq!(
                argv,
                vv(&["profile", "remove", "--impure", "legacyPackages.x86_64-linux.vim"])
            );
        },
        _ => panic!("expected removal by attribute"),
    }
}

#[test]
fn unresolvable_package_is_removed_by_store_path() {
    let listing = b("/nix/store/ccc-tool tool 1.0\n");
    let r = profile_mutation_decision(
        ProfileVerb::Remove,
        &b("tool"),
        false,
        &listing,
        &b("x86_64-linux"),
    );
    match r {
        ProfileAction::ByStorePath { argv } => {
            assert_eq!(argv, vv(&["profile", "remove", "--impure", "/nix/store/ccc-tool"]));
        },
        _ => panic!("expected removal by store path"),
    }
}

#[test]
fn unknown_package_is_not_installed() {
    let r = profile_mutation_decision(
        ProfileVerb::Upgrade,
        &b("ghost"),
        false,
        &b("/nix/store/aaa-vim vim 9.1\n"),
        &b("x86_64-linux"),
    );
    assert!(matches!(r, ProfileAction::NotInstalled));
}

#[test]
fn upgrade_uses_the_upgrade_verb() {
    let r = profile_mutation_decision(
        ProfileVerb::Upgrade,
        &b("vim"),
        true,
        &b(""),
        &b("aarch64-linux"),
    );
    match r {
        ProfileAction::ByAttr { argv } => {
            assert_eq!(argv[1], b("upgrade"));
            assert_eq!(argv[3], b("legacyPackages.aarch64-linux.vim"));
        },
        _ => panic!("expected upgrade by attribute"),
    }
}

#[test]
fn install_of_installed_package_is_a_noop_notice() {
    let r = profile_install_decision(&b("vim"), true, true);
    assert!(matches!(r, InstallDecision::AlreadyInstalled));
}

#[test]
fn install_of_unknown_package_is_not_found() {
    let r = profile_install_decision(&b("ghost"), false, false);
    assert!(matches!(r, InstallDecision::NotFound));
}

#[test]
fn install_invokes_the_default_collection() {
    let r = profile_install_decision(&b("htop"), false, true);
    match r {
        InstallDecision::Install { argv } => {
            assert_eq!(argv, vv(&["profile", "install", "--impure", "nixpkgs#htop"]));
        },
        _ => panic!("expected an install"),
    }
}

#[test]
fn run_argv_for_known_and_unknown_packages() {
    let argv = run_argv(&b("vim"), true, &vv(&["--version"]));
    assert_eq!(argv, vv(&["run", "--impure", "nixpkgs#vim", "--", "--version"]));
    let argv2 = run_argv(&b("github:owner/tool"), false, &vv(&[]));
    assert_eq!(argv2, vv(&["run", "--impure", "github:owner/tool", "--"]));
}

#[test]
fn upgrade_all_argv_is_exact() {
    assert_eq!(upgrade_all_argv(), vv(&["profile", "upgrade", "--impure", ".*"]));
}

#[test]
fn score_counts_uncovered_bytes() {
    assert_eq!(score(&b("firefox"), &vv(&["fire"])), 3);
    assert_eq!(score(&b("firefox"), &vv(&["FIREFOX"])), 0);
    assert_eq!(score(&b("firefox"), &vv(&["fire", "fox"])), 0);
    assert_eq!(score(&b("firefox"), &vv(&["zsh"])), 7);
}

#[test]
fn each_term_is_stripped_once() {
    // the first occurrence goes; the second survives the single term
    assert_eq!(score(&b("vimvim"), &vv(&["vim"])), 3);
    assert_eq!(score(&b("vimvim"), &vv(&["vim", "vim"])), 0);
}

#[test]
fn spans_report_every_occurrence() {
    let spans = match_spans(&b("Vim and vim"), &vv(&["vim"]));
    assert_eq!(spans, vec![(0usize, 3usize), (8, 11)]);
}

#[test]
fn spans_of_different_terms_may_overlap() {
    let spans = match_spans(&b("firefox"), &vv(&["fire", "ref"]));
    assert_eq!(spans, vec![(0usize, 4usize), (2, 5)]);
}

#[test]
fn ranking_puts_best_covered_first() {
    let cands = vec![cand("neovim-full"), cand("vim"), cand("vim-minimal")];
    let hits = rank_results(&cands, &vv(&["vim"]), None, None, None);
    assert_eq!(hits.len(), 3);
    assert_eq!(hits[0].attr, b("vim"));
    assert_eq!(hits[0].score, 0);
    assert_eq!(hits[1].attr, b("neovim-full"));
    assert_eq!(hits[1].score, 8);
    assert_eq!(hits[2].attr, b("vim-minimal"));
    assert_eq!(hits[2].score, 8);
}

#[test]
fn ties_keep_the_collaborator_order() {
    let cands = vec![cand("abcd"), cand("abce")];
    let hits = rank_results(&cands, &vv(&["abc"]), None, None, None);
    assert_eq!(hits[0].attr, b("abcd"));
    assert_eq!(hits[1].attr, b("abce"));
}

#[test]
fn hits_carry_domain_membership() {
    let cands = vec![cand("vim")];
    let profile = vv(&["vim"]);
    let system = vv(&["pkgs.vim"]);
    let hits = rank_results(&cands, &vv(&["vim"]), Some(&profile), Some(&system), None);
    assert!(hits[0].in_profile);
    assert!(hits[0].in_system);
    assert!(!hits[0].in_home);
}

#[test]
fn hits_carry_flags_and_description_spans() {
    let mut c = cand("vim");
    c.version = Some(b("9.1"));
    c.description = Some(b("Vi IMproved, a vim clone"));
    c.unfree = true;
    let hits = rank_results(&vec![c], &vv(&["vim"]), None, None, None);
    assert_eq!(hits[0].version, Some(b("9.1")));
    assert!(hits[0].unfree && !hits[0].broken && !hits[0].insecure);
    assert_eq!(hits[0].attr_spans, vec![(0usize, 3usize)]);
    assert_eq!(hits[0].desc_spans, vec![(15usize, 18usize)]);
}
