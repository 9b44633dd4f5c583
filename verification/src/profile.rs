//! Decisions for the imperative profile domain. Mutating the profile is
//! an external builder invocation with no document edit, so what the
//! library settles is which invocation to make: an identifier known to
//! the live profile is addressed by attribute; one the exact lookup
//! cannot resolve falls back to the raw profile listing, matched
//! positionally by display name, and addressed by the listing's first
//! column. The builder's target architecture is an explicit parameter.

use vstd::prelude::*;

use crate::bytes::ascii;
use crate::bytes::lit;
use crate::editor::vecs_view;

verus! {

/// The first separator at or after `i`, or the end of the string.
pub open spec fn sep_end(s: Seq<u8>, i: int, sep: u8) -> int
    decreases s.len() - i,
{
    if i < 0 || i >= s.len() {
        s.len() as int
    } else if s[i] == sep {
        i
    } else {
        sep_end(s, i + 1, sep)
    }
}

/// The fields of `s` split on `sep`; consecutive separators yield empty
/// fields, as the usual string split does.
pub open spec fn split_from(s: Seq<u8>, i: int, sep: u8) -> Seq<Seq<u8>>
    decreases s.len() - i,
    via split_from_decreases
{
    let e = sep_end(s, i, sep);
    if e >= s.len() {
        seq![s.subrange(i, s.len() as int)]
    } else {
        seq![s.subrange(i, e)] + split_from(s, e + 1, sep)
    }
}

pub proof fn lemma_sep_end(s: Seq<u8>, i: int, sep: u8)
    requires
        0 <= i <= s.len(),
    ensures
        i <= sep_end(s, i, sep) <= s.len(),
        sep_end(s, i, sep) < s.len() ==> s[sep_end(s, i, sep)] == sep,
        forall|k: int| i <= k < sep_end(s, i, sep) ==> s[k] != sep,
    decreases s.len() - i,
{
    if i < s.len() && s[i] != sep {
        lemma_sep_end(s, i + 1, sep);
    }
}

#[via_fn]
proof fn split_from_decreases(s: Seq<u8>, i: int, sep: u8) {
    if 0 <= i <= s.len() {
        lemma_sep_end(s, i, sep);
    }
}

/// The fields of a whole byte string.
pub open spec fn split(s: Seq<u8>, sep: u8) -> Seq<Seq<u8>> {
    split_from(s, 0, sep)
}

/// Splits a byte string on a separator.
pub fn split_exec(s: &[u8], sep: u8) -> (r: Vec<Vec<u8>>)
    ensures
        vecs_view(r@) == split(s@, sep),
{
    let mut out: Vec<Vec<u8>> = Vec::new();
    let mut start: usize = 0;
    loop
        invariant
            0 <= start <= s@.len(),
            split(s@, sep) == vecs_view(out@) + split_from(s@, start as int, sep),
        decreases s@.len() - start + 1,
    {
        proof {
            lemma_sep_end(s@, start as int, sep);
        }
        let mut e = start;
        while e < s.len() && s[e] != sep
            invariant
                start <= e <= s@.len(),
                sep_end(s@, start as int, sep) == sep_end(s@, e as int, sep),
            decreases s@.len() - e,
        {
            e = e + 1;
        }
        let ghost outv = vecs_view(out@);
        let field = vstd::slice::slice_to_vec(vstd::slice::slice_subrange(s, start, e));
        out.push(field);
        if e == s.len() {
            proof {
                assert(split_from(s@, start as int, sep) =~= seq![
                    s@.subrange(start as int, s@.len() as int),
                ]);
                assert(vecs_view(out@) =~= outv + split_from(s@, start as int, sep));
                assert(vecs_view(out@) + Seq::<Seq<u8>>::empty() =~= vecs_view(out@));
                assert(split(s@, sep) =~= vecs_view(out@));
            }
            return out;
        }
        proof {
            assert(split_from(s@, start as int, sep) == seq![s@.subrange(start as int, e as int)]
                + split_from(s@, e + 1, sep));
            assert(vecs_view(out@) =~= outv + seq![s@.subrange(start as int, e as int)]);
            assert(vecs_view(out@) + split_from(s@, e + 1, sep) =~= outv + (seq![
                s@.subrange(start as int, e as int),
            ] + split_from(s@, e + 1, sep)));
        }
        start = e + 1;
    }
}

/// The store-path column of the first listing line whose second column
/// is exactly the requested identifier.
pub open spec fn fallback_in_lines(lines: Seq<Seq<u8>>, i: int, pkg: Seq<u8>) -> Option<Seq<u8>>
    decreases lines.len() - i,
{
    if i < 0 || i >= lines.len() {
        None
    } else {
        let parts = split(lines[i], 32);
        if parts.len() >= 2 && parts[1] == pkg {
            Some(parts[0])
        } else {
            fallback_in_lines(lines, i + 1, pkg)
        }
    }
}

/// Searches a raw profile listing for a package by display name.
pub open spec fn spec_profile_fallback(listing: Seq<u8>, pkg: Seq<u8>) -> Option<Seq<u8>> {
    fallback_in_lines(split(listing, 10), 0, pkg)
}

/// Scans the raw profile listing, line by line, for an entry whose
/// display name is the requested identifier; returns its first column.
pub fn profile_fallback(listing: &Vec<u8>, pkg: &Vec<u8>) -> (r: Option<Vec<u8>>)
    ensures
        (match r {
            Some(t) => spec_profile_fallback(listing@, pkg@) == Some(t@),
            None => spec_profile_fallback(listing@, pkg@) is None,
        }),
{
    let lines = split_exec(listing.as_slice(), 10);
    let ghost lns = vecs_view(lines@);
    let mut i: usize = 0;
    while i < lines.len()
        invariant
            i <= lines@.len(),
            lns == vecs_view(lines@),
            lns == split(listing@, 10),
            fallback_in_lines(lns, 0, pkg@) == fallback_in_lines(lns, i as int, pkg@),
        decreases lines@.len() - i,
    {
        let line = &lines[i];
        let parts = split_exec(line.as_slice(), 32);
        proof {
            assert(vecs_view(parts@) == split(lns[i as int], 32));
        }
        if parts.len() >= 2 && crate::bytes::bytes_eq(parts[1].as_slice(), pkg.as_slice()) {
            proof {
                assert(vecs_view(parts@)[1] == pkg@);
                assert(fallback_in_lines(lns, i as int, pkg@) == Some(vecs_view(parts@)[0]));
            }
            let t = vstd::slice::slice_to_vec(parts[0].as_slice());
            return Some(t);
        }
        proof {
            assert(!(split(lns[i as int], 32).len() >= 2 && split(lns[i as int], 32)[1] == pkg@));
        }
        i = i + 1;
    }
    None
}

/// The attribute that addresses a profile package for the builder:
/// the legacy package set of the target architecture, then the name.
pub open spec fn spec_legacy_ref(arch: Seq<u8>, pkg: Seq<u8>) -> Seq<u8> {
    lit("legacyPackages."@) + arch + lit("."@) + pkg
}

fn legacy_ref(arch: &Vec<u8>, pkg: &Vec<u8>) -> (r: Vec<u8>)
    ensures
        r@ == spec_legacy_ref(arch@, pkg@),
{
    proof {
        reveal_strlit("legacyPackages.");
        reveal_strlit(".");
    }
    let mut r = ascii("legacyPackages.");
    r.extend_from_slice(arch.as_slice());
    let dot = ascii(".");
    r.extend_from_slice(dot.as_slice());
    r.extend_from_slice(pkg.as_slice());
    proof {
        assert(r@ =~= spec_legacy_ref(arch@, pkg@));
    }
    r
}

/// The flake reference that installs or runs a package from the default
/// package collection.
pub open spec fn spec_nixpkgs_ref(pkg: Seq<u8>) -> Seq<u8> {
    lit("nixpkgs#"@) + pkg
}

fn nixpkgs_ref(pkg: &Vec<u8>) -> (r: Vec<u8>)
    ensures
        r@ == spec_nixpkgs_ref(pkg@),
{
    proof {
        reveal_strlit("nixpkgs#");
    }
    let mut r = ascii("nixpkgs#");
    r.extend_from_slice(pkg.as_slice());
    proof {
        assert(r@ =~= spec_nixpkgs_ref(pkg@));
    }
    r
}

/// A profile builder invocation: the profile subcommand, the verb, and
/// the target.
pub open spec fn spec_profile_argv(verb: Seq<u8>, target: Seq<u8>) -> Seq<Seq<u8>> {
    seq![lit("profile"@), verb, lit("--impure"@), target]
}

fn profile_argv(verb: Vec<u8>, target: Vec<u8>) -> (r: Vec<Vec<u8>>)
    ensures
        vecs_view(r@) == spec_profile_argv(verb@, target@),
{
    let mut r: Vec<Vec<u8>> = Vec::new();
    proof {
        reveal_strlit("profile");
        reveal_strlit("--impure");
    }
    r.push(ascii("profile"));
    r.push(verb);
    r.push(ascii("--impure"));
    r.push(target);
    proof {
        assert(vecs_view(r@) =~= spec_profile_argv(r@[1]@, r@[3]@));
    }
    r
}

/// A removal or upgrade of one profile package.
#[derive(Clone, Copy, Debug, PartialEq, Eq, Structural)]
pub enum ProfileVerb {
    Remove,
    Upgrade,
}

pub open spec fn spec_verb(v: ProfileVerb) -> Seq<u8> {
    match v {
        ProfileVerb::Remove => lit("remove"@),
        ProfileVerb::Upgrade => lit("upgrade"@),
    }
}

fn verb_bytes(v: ProfileVerb) -> (r: Vec<u8>)
    ensures
        r@ == spec_verb(v),
{
    match v {
        ProfileVerb::Remove => {
            proof {
                reveal_strlit("remove");
            }
            ascii("remove")
        },
        ProfileVerb::Upgrade => {
            proof {
                reveal_strlit("upgrade");
            }
            ascii("upgrade")
        },
    }
}

/// How one profile mutation proceeds: by attribute when the package is
/// resolvable, by the listing's store path when only the raw listing
/// knows it, or not at all.
pub enum ProfileAction {
    ByAttr { argv: Vec<Vec<u8>> },
    ByStorePath { argv: Vec<Vec<u8>> },
    NotInstalled,
}

/// Decides a profile removal or upgrade. `resolvable` says the exact
/// lookup knows the package (a live version, or a manifest entry from
/// the default collection); otherwise the raw listing decides.
pub fn profile_mutation_decision(
    verb: ProfileVerb,
    pkg: &Vec<u8>,
    resolvable: bool,
    listing: &Vec<u8>,
    arch: &Vec<u8>,
) -> (r: ProfileAction)
    ensures
        (match r {
            ProfileAction::ByAttr { argv } => resolvable && vecs_view(argv@) == spec_profile_argv(
                spec_verb(verb),
                spec_legacy_ref(arch@, pkg@),
            ),
            ProfileAction::ByStorePath { argv } => !resolvable && (exists|t: Seq<u8>|
                spec_profile_fallback(listing@, pkg@) == Some(t) && vecs_view(argv@)
                    == spec_profile_argv(spec_verb(verb), t)),
            ProfileAction::NotInstalled => !resolvable && spec_profile_fallback(listing@, pkg@)
                is None,
        }),
{
    if resolvable {
        let argv = profile_argv(verb_bytes(verb), legacy_ref(arch, pkg));
        ProfileAction::ByAttr { argv }
    } else {
        match profile_fallback(listing, pkg) {
            Some(t) => {
                let ghost tv = t@;
                let argv = profile_argv(verb_bytes(verb), t);
                proof {
                    assert(spec_profile_fallback(listing@, pkg@) == Some(tv) && vecs_view(argv@)
                        == spec_profile_argv(spec_verb(verb), tv));
                }
                ProfileAction::ByStorePath { argv }
            },
            None => ProfileAction::NotInstalled,
        }
    }
}

/// How a profile install proceeds: already installed (a no-op notice),
/// unknown to the metadata (an error), or an install from the default
/// collection.
pub enum InstallDecision {
    AlreadyInstalled,
    NotFound,
    Install { argv: Vec<Vec<u8>> },
}

/// Decides a profile install.
pub fn profile_install_decision(pkg: &Vec<u8>, installed: bool, in_metadata: bool) -> (r:
    InstallDecision)
    ensures
        (match r {
            InstallDecision::AlreadyInstalled => installed,
            InstallDecision::NotFound => !installed && !in_metadata,
            InstallDecision::Install { argv } => !installed && in_metadata && vecs_view(argv@)
                == spec_profile_argv(lit("install"@), spec_nixpkgs_ref(pkg@)),
        }),
{
    if installed {
        InstallDecision::AlreadyInstalled
    } else if !in_metadata {
        InstallDecision::NotFound
    } else {
        proof {
            reveal_strlit("install");
        }
        let argv = profile_argv(ascii("install"), nixpkgs_ref(pkg));
        InstallDecision::Install { argv }
    }
}

/// The invocation that upgrades every profile package.
pub open spec fn spec_upgrade_all_argv() -> Seq<Seq<u8>> {
    seq![lit("profile"@), lit("upgrade"@), lit("--impure"@), lit(".*"@)]
}

/// Builds the upgrade-all invocation.
pub fn upgrade_all_argv() -> (r: Vec<Vec<u8>>)
    ensures
        vecs_view(r@) == spec_upgrade_all_argv(),
{
    proof {
        reveal_strlit("profile");
        reveal_strlit("upgrade");
        reveal_strlit("--impure");
        reveal_strlit(".*");
    }
    let mut r: Vec<Vec<u8>> = Vec::new();
    r.push(ascii("profile"));
    r.push(ascii("upgrade"));
    r.push(ascii("--impure"));
    r.push(ascii(".*"));
    proof {
        assert(vecs_view(r@) =~= spec_upgrade_all_argv());
    }
    r
}

/// The run invocation: a known package runs from the default collection,
/// anything else is handed to the builder as written; the caller's
/// arguments follow a separator.
pub open spec fn spec_run_argv(pkg: Seq<u8>, in_metadata: bool, args: Seq<Seq<u8>>) -> Seq<Seq<u8>> {
    seq![
        lit("run"@),
        lit("--impure"@),
        if in_metadata {
            spec_nixpkgs_ref(pkg)
        } else {
            pkg
        },
        lit("--"@),
    ] + args
}

/// Builds the run invocation.
pub fn run_argv(pkg: &Vec<u8>, in_metadata: bool, args: &Vec<Vec<u8>>) -> (r: Vec<Vec<u8>>)
    ensures
        vecs_view(r@) == spec_run_argv(pkg@, in_metadata, vecs_view(args@)),
{
    proof {
        reveal_strlit("run");
        reveal_strlit("--impure");
        reveal_strlit("--");
    }
    let mut r: Vec<Vec<u8>> = Vec::new();
    r.push(ascii("run"));
    r.push(ascii("--impure"));
    if in_metadata {
        r.push(nixpkgs_ref(pkg));
    } else {
        r.push(vstd::slice::slice_to_vec(pkg.as_slice()));
    }
    r.push(ascii("--"));
    let ghost head = vecs_view(r@);
    proof {
        assert(vecs_view(args@).subrange(0, 0) =~= Seq::<Seq<u8>>::empty());
        assert(head + vecs_view(args@).subrange(0, 0) =~= head);
    }
    let mut i: usize = 0;
    while i < args.len()
        invariant
            i <= args@.len(),
            vecs_view(r@) == head + vecs_view(args@).subrange(0, i as int),
        decreases args@.len() - i,
    {
        let ghost prev = vecs_view(r@);
        let a = &args[i];
        r.push(vstd::slice::slice_to_vec(a.as_slice()));
        proof {
            assert(vecs_view(r@) =~= prev + seq![a@]);
            assert(vecs_view(args@).subrange(0, i + 1) =~= vecs_view(args@).subrange(0, i as int)
                + seq![a@]);
            assert(vecs_view(r@) =~= head + vecs_view(args@).subrange(0, i + 1));
        }
        i = i + 1;
    }
    proof {
        assert(vecs_view(args@).subrange(0, args@.len() as int) =~= vecs_view(args@));
        assert(vecs_view(r@) =~= spec_run_argv(pkg@, in_metadata, vecs_view(args@)));
    }
    r
}

} // verus!
