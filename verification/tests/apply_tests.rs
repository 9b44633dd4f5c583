use nix_snow::apply::helper_config_argv;
use nix_snow::apply::helper_update_argv;
use nix_snow::apply::plan_declarative_apply;
use nix_snow::apply::run_helper_on_disk;
use nix_snow::apply::DeclarativeAction;
use nix_snow::apply::HelperAction;
use nix_snow::apply::HelperEvent;
use nix_snow::apply::HelperProtocol;
use nix_snow::error::SnowError;
use nix_snow::plan::DomainKind;
use nix_snow::plan::Operation;

fn b(s: &str) -> Vec<u8> {
    s.as_bytes().to_vec()
}

fn vv(xs: &[&str]) -> Vec<Vec<u8>> {
    xs.iter().map(|x| b(x)).collect()
}

fn s(v: &[u8]) -> String {
    String::from_utf8(v.to_vec()).unwrap()
}

// Rollback invariant: after a simulated builder failure the document on
// disk is byte-identical to what it was before the apply began.
#[test]
fn builder_failure_restores_document() {
    let original = b("environment.systemPackages = [ pkgs.vim ];\n");
    let mut disk = original.clone();
    let new_doc = b("environment.systemPackages = [ pkgs.vim pkgs.htop ];\n");
    let (outcome, exit_ok) = run_helper_on_disk(&mut disk, &new_doc, 0, false, true);
    assert_eq!(disk, original);
    assert!(!outcome.success);
    assert!(outcome.restored);
    assert!(!exit_ok);
}

// Scenario: a builder failure injected after a successful write — the
// final content equals the original document and the apply reports
// failure.
#[test]
fn injected_failure_after_write_keeps_original() {
    let original = b("environment.systemPackages = [ pkgs.vim ];");
    let mut disk = original.clone();
    let new_doc = b("environment.systemPackages = [ ];");
    let (outcome, exit_ok) = run_helper_on_disk(&mut disk, &new_doc, 3, false, true);
    assert_eq!(s(&disk), "environment.systemPackages = [ pkgs.vim ];");
    assert!(!outcome.success && outcome.restored && !exit_ok);
}

#[test]
fn builder_success_commits_document() {
    let mut disk = b("old");
    let new_doc = b("new");
    let (outcome, exit_ok) = run_helper_on_disk(&mut disk, &new_doc, 0, true, true);
    assert_eq!(disk, b("new"));
    assert!(outcome.success && !outcome.restored && exit_ok);
}

// A pruning failure costs the exit status but never the new document.
#[test]
fn prune_failure_keeps_new_document_but_fails_exit() {
    let mut disk = b("old");
    let new_doc = b("new");
    let (outcome, exit_ok) = run_helper_on_disk(&mut disk, &new_doc, 2, true, false);
    assert_eq!(disk, b("new"));
    assert!(outcome.success && !outcome.restored);
    assert!(!exit_ok);
}

#[test]
fn zero_retention_never_prunes() {
    let mut disk = b("old");
    let (_, exit_ok) = run_helper_on_disk(&mut disk, &b("new"), 0, true, false);
    assert!(exit_ok);
}

#[test]
fn helper_walks_write_build_prune() {
    let mut m = HelperProtocol::start(2);
    assert!(matches!(m.next_action(), HelperAction::WriteNewDocument));
    assert!(m.outcome().is_none());
    m.step(HelperEvent::Wrote);
    assert!(matches!(m.next_action(), HelperAction::RunBuilder));
    m.step(HelperEvent::BuilderFinished(true));
    assert!(matches!(m.next_action(), HelperAction::PruneGenerations));
    m.step(HelperEvent::PruneFinished(true));
    assert!(matches!(m.next_action(), HelperAction::Exit));
    let (outcome, exit_ok) = m.outcome().unwrap();
    assert!(outcome.success && !outcome.restored && exit_ok);
}

#[test]
fn helper_walks_write_build_restore() {
    let mut m = HelperProtocol::start(0);
    m.step(HelperEvent::Wrote);
    m.step(HelperEvent::BuilderFinished(false));
    assert!(matches!(m.next_action(), HelperAction::RestoreBackup));
    m.step(HelperEvent::Restored);
    let (outcome, exit_ok) = m.outcome().unwrap();
    assert!(!outcome.success && outcome.restored && !exit_ok);
}

#[test]
fn config_argv_is_exact() {
    let argv = helper_config_argv(
        &b("/etc/nixos/configuration.nix"),
        5,
        &b("/etc/nixos"),
        Some(&b("host")),
    );
    assert_eq!(
        argv,
        vv(&[
            "config",
            "--output",
            "/etc/nixos/configuration.nix",
            "--generations",
            "5",
            "--",
            "switch",
            "--flake",
            "/etc/nixos#host",
            "--impure",
        ])
    );
}

#[test]
fn config_argv_without_flake_argument() {
    let argv = helper_config_argv(&b("/etc/nixos/configuration.nix"), 0, &b("/etc/nixos"), None);
    assert_eq!(argv[4], b("0"));
    assert_eq!(argv[8], b("/etc/nixos"));
}

#[test]
fn update_argv_is_exact() {
    let argv = helper_update_argv(12, &b("/etc/nixos"), None);
    assert_eq!(
        argv,
        vv(&[
            "update",
            "--flake",
            "/etc/nixos",
            "--generations",
            "12",
            "--",
            "switch",
            "--flake",
            "/etc/nixos",
            "--impure",
        ])
    );
}

// Applying an empty plan never invokes the privileged path, even when
// the document could not be edited.
#[test]
fn empty_plan_never_escalates() {
    let doc = b("environment.systemPackages = [ pkgs.vim ];");
    let r = plan_declarative_apply(
        DomainKind::System,
        Operation::Install,
        &doc,
        &vv(&["vim"]),
        &vv(&["pkgs.vim"]),
        &b("/etc/nixos/configuration.nix"),
        0,
        &b("/etc/nixos"),
        None,
    )
    .unwrap();
    assert!(matches!(r, DeclarativeAction::NoChange));
}

#[test]
fn install_escalates_with_new_document_and_argv() {
    let doc = b("environment.systemPackages = [ pkgs.vim ];");
    let r = plan_declarative_apply(
        DomainKind::System,
        Operation::Install,
        &doc,
        &vv(&["htop"]),
        &vv(&["pkgs.vim"]),
        &b("/etc/nixos/configuration.nix"),
        3,
        &b("/etc/nixos"),
        Some(&b("host")),
    )
    .unwrap();
    match r {
        DeclarativeAction::Escalate { new_doc, argv } => {
            assert_eq!(s(&new_doc), "environment.systemPackages = [ pkgs.vim pkgs.htop ];");
            assert_eq!(argv[0], b("config"));
            assert_eq!(argv[4], b("3"));
            assert_eq!(argv[8], b("/etc/nixos#host"));
        },
        _ => panic!("expected an escalation"),
    }
}

#[test]
fn remove_escalates_with_edited_document() {
    let doc = b("environment.systemPackages = [ pkgs.vim pkgs.htop ];");
    let r = plan_declarative_apply(
        DomainKind::System,
        Operation::Remove,
        &doc,
        &vv(&["vim"]),
        &vv(&["pkgs.vim", "pkgs.htop"]),
        &b("/etc/nixos/configuration.nix"),
        0,
        &b("/etc/nixos"),
        None,
    )
    .unwrap();
    match r {
        DeclarativeAction::Escalate { new_doc, .. } => {
            assert_eq!(s(&new_doc), "environment.systemPackages = [ pkgs.htop ];");
        },
        _ => panic!("expected an escalation"),
    }
}

#[test]
fn malformed_document_fails_before_any_write() {
    let doc = b("environment.systemPackages = null;");
    let r = plan_declarative_apply(
        DomainKind::System,
        Operation::Install,
        &doc,
        &vv(&["htop"]),
        &vv(&[]),
        &b("/etc/nixos/configuration.nix"),
        0,
        &b("/etc/nixos"),
        None,
    );
    assert_eq!(r.unwrap_err(), SnowError::StructuralEdit);
}
