//! The domain package store: what each domain currently holds. The
//! declarative domains list the entries of their document's array
//! attribute; the profile lists what the profile manifest names. Versions
//! are best effort, resolved against a metadata snapshot handed in as
//! plain key/value pairs; a package the metadata does not know keeps no
//! version, which is not an error.

use vstd::prelude::*;

use crate::bytes::lit;
use crate::ident::same_pkg;
use crate::plan::DomainKind;

verus! {

/// One installed (or declared) package: its identifier, its resolved
/// version when the metadata knows one, and the domain it lives in.
pub struct InstalledPackage {
    pub attr: Vec<u8>,
    pub version: Option<Vec<u8>>,
    pub domain: DomainKind,
}

/// The mathematical image of an installed package.
pub struct PkgModel {
    pub attr: Seq<u8>,
    pub version: Option<Seq<u8>>,
    pub domain: DomainKind,
}

impl View for InstalledPackage {
    type V = PkgModel;

    open spec fn view(&self) -> PkgModel {
        PkgModel {
            attr: self.attr@,
            version: match self.version {
                Some(ref v) => Some(v@),
                None => None,
            },
            domain: self.domain,
        }
    }
}

pub open spec fn pkgs_view(v: Seq<InstalledPackage>) -> Seq<PkgModel> {
    Seq::new(v.len(), |i: int| v[i]@)
}

pub open spec fn pairs_view(v: Seq<(Vec<u8>, Vec<u8>)>) -> Seq<(Seq<u8>, Seq<u8>)> {
    Seq::new(v.len(), |i: int| (v[i].0@, v[i].1@))
}

/// The first value bound to `k`, as a map read over association pairs.
pub open spec fn lookup(m: Seq<(Seq<u8>, Seq<u8>)>, k: Seq<u8>) -> Option<Seq<u8>>
    decreases m.len(),
{
    if m.len() == 0 {
        None
    } else if m[0].0 == k {
        Some(m[0].1)
    } else {
        lookup(m.drop_first(), k)
    }
}

/// The document attribute that lists a declarative domain's packages.
pub open spec fn spec_attr_path(domain: DomainKind) -> Seq<u8> {
    match domain {
        DomainKind::Home => lit("home.packages"@),
        _ => lit("environment.systemPackages"@),
    }
}

/// The attribute path for a declarative domain, as runnable bytes.
pub fn attr_path(domain: DomainKind) -> (r: Vec<u8>)
    ensures
        r@ == spec_attr_path(domain),
{
    match domain {
        DomainKind::Home => {
            proof {
                reveal_strlit("home.packages");
            }
            crate::bytes::ascii("home.packages")
        },
        _ => {
            proof {
                reveal_strlit("environment.systemPackages");
            }
            crate::bytes::ascii("environment.systemPackages")
        },
    }
}

fn lookup_exec(m: &Vec<(Vec<u8>, Vec<u8>)>, k: &Vec<u8>) -> (r: Option<Vec<u8>>)
    ensures
        (match r {
            Some(v) => lookup(pairs_view(m@), k@) == Some(v@),
            None => lookup(pairs_view(m@), k@) is None,
        }),
{
    let ghost mv = pairs_view(m@);
    let mut i: usize = 0;
    proof {
        assert(mv.subrange(0, mv.len() as int) =~= mv);
    }
    while i < m.len()
        invariant
            i <= m@.len(),
            mv == pairs_view(m@),
            lookup(mv, k@) == lookup(mv.subrange(i as int, mv.len() as int), k@),
        decreases m@.len() - i,
    {
        let ghost suffix = mv.subrange(i as int, mv.len() as int);
        proof {
            assert(suffix[0] == mv[i as int]);
            assert(suffix.drop_first() =~= mv.subrange(i + 1, mv.len() as int));
        }
        let pair = &m[i];
        if crate::bytes::bytes_eq(pair.0.as_slice(), k.as_slice()) {
            return Some(vstd::slice::slice_to_vec(pair.1.as_slice()));
        }
        i = i + 1;
    }
    proof {
        assert(mv.subrange(mv.len() as int, mv.len() as int) =~= Seq::<(Seq<u8>, Seq<u8>)>::empty());
    }
    None
}

/// The packages a declarative domain declares: one per array entry, in
/// document order, with the version the metadata resolves for it.
pub open spec fn spec_domain_packages(
    domain: DomainKind,
    es: Seq<Seq<u8>>,
    vm: Seq<(Seq<u8>, Seq<u8>)>,
) -> Seq<PkgModel> {
    Seq::new(es.len(), |i: int| PkgModel { attr: es[i], version: lookup(vm, es[i]), domain })
}

/// Resolves each listed entry against the metadata snapshot. An entry
/// the metadata does not know is reported with no version.
pub fn domain_packages(
    domain: DomainKind,
    entries: &Vec<Vec<u8>>,
    versions: &Vec<(Vec<u8>, Vec<u8>)>,
) -> (r: Vec<InstalledPackage>)
    ensures
        pkgs_view(r@) == spec_domain_packages(
            domain,
            crate::editor::vecs_view(entries@),
            pairs_view(versions@),
        ),
{
    let mut out: Vec<InstalledPackage> = Vec::new();
    let mut i: usize = 0;
    while i < entries.len()
        invariant
            i <= entries@.len(),
            out@.len() == i,
            forall|k: int| 0 <= k < i ==> (#[trigger] out@[k])@ == spec_domain_packages(
                domain,
                crate::editor::vecs_view(entries@),
                pairs_view(versions@),
            )[k],
        decreases entries@.len() - i,
    {
        let e = &entries[i];
        let attr = vstd::slice::slice_to_vec(e.as_slice());
        let version = lookup_exec(versions, e);
        out.push(InstalledPackage { attr, version, domain });
        i = i + 1;
    }
    proof {
        assert(pkgs_view(out@) =~= spec_domain_packages(
            domain,
            crate::editor::vecs_view(entries@),
            pairs_view(versions@),
        ));
    }
    out
}

/// The profile's packages: one per manifest entry, with the resolved
/// version when the live lookup knows one, else the manifest's own
/// descriptive name.
pub open spec fn spec_profile_packages(
    named: Seq<(Seq<u8>, Seq<u8>)>,
    vm: Seq<(Seq<u8>, Seq<u8>)>,
) -> Seq<PkgModel> {
    Seq::new(
        named.len(),
        |i: int| PkgModel {
            attr: named[i].0,
            version: match lookup(vm, named[i].0) {
                Some(v) => Some(v),
                None => Some(named[i].1),
            },
            domain: DomainKind::Profile,
        },
    )
}

/// Builds the profile listing from the manifest's (identifier, name)
/// pairs and the versioned lookup.
pub fn profile_packages(
    named: &Vec<(Vec<u8>, Vec<u8>)>,
    versions: &Vec<(Vec<u8>, Vec<u8>)>,
) -> (r: Vec<InstalledPackage>)
    ensures
        pkgs_view(r@) == spec_profile_packages(pairs_view(named@), pairs_view(versions@)),
{
    let mut out: Vec<InstalledPackage> = Vec::new();
    let mut i: usize = 0;
    while i < named.len()
        invariant
            i <= named@.len(),
            out@.len() == i,
            forall|k: int| 0 <= k < i ==> (#[trigger] out@[k])@ == spec_profile_packages(
                pairs_view(named@),
                pairs_view(versions@),
            )[k],
        decreases named@.len() - i,
    {
        let pair = &named[i];
        let attr = vstd::slice::slice_to_vec(pair.0.as_slice());
        let version = match lookup_exec(versions, &pair.0) {
            Some(v) => Some(v),
            None => Some(vstd::slice::slice_to_vec(pair.1.as_slice())),
        };
        out.push(InstalledPackage { attr, version, domain: DomainKind::Profile });
        i = i + 1;
    }
    proof {
        assert(pkgs_view(out@) =~= spec_profile_packages(pairs_view(named@), pairs_view(versions@)));
    }
    out
}

/// Some listed package names this identifier, in either spelling.
pub open spec fn spec_contains(pkgs: Seq<PkgModel>, id: Seq<u8>) -> bool {
    exists|k: int| 0 <= k < pkgs.len() && same_pkg((#[trigger] pkgs[k]).attr, id)
}

/// Membership of an identifier in a domain listing.
pub fn contains_package(pkgs: &Vec<InstalledPackage>, id: &Vec<u8>) -> (r: bool)
    ensures
        r == spec_contains(pkgs_view(pkgs@), id@),
{
    let mut i: usize = 0;
    while i < pkgs.len()
        invariant
            i <= pkgs@.len(),
            forall|k: int| 0 <= k < i ==> !same_pkg(pkgs_view(pkgs@)[k].attr, id@),
        decreases pkgs@.len() - i,
    {
        let p = &pkgs[i];
        if crate::ident::same_pkg_exec(&p.attr, id) {
            proof {
                assert(same_pkg(pkgs_view(pkgs@)[i as int].attr, id@));
            }
            return true;
        }
        i = i + 1;
    }
    proof {
        if spec_contains(pkgs_view(pkgs@), id@) {
            let k = choose|k: int|
                0 <= k < pkgs_view(pkgs@).len() && same_pkg(
                    (#[trigger] pkgs_view(pkgs@)[k]).attr,
                    id@,
                );
            assert(!same_pkg(pkgs_view(pkgs@)[k].attr, id@));
        }
    }
    false
}

/// The identifiers of a listing, for feeding the planner.
pub fn attrs_of(pkgs: &Vec<InstalledPackage>) -> (r: Vec<Vec<u8>>)
    ensures
        r@.len() == pkgs@.len(),
        forall|k: int| 0 <= k < r@.len() ==> (#[trigger] r@[k])@ == pkgs_view(pkgs@)[k].attr,
{
    let mut out: Vec<Vec<u8>> = Vec::new();
    let mut i: usize = 0;
    while i < pkgs.len()
        invariant
            i <= pkgs@.len(),
            out@.len() == i,
            forall|k: int| 0 <= k < i ==> (#[trigger] out@[k])@ == pkgs_view(pkgs@)[k].attr,
        decreases pkgs@.len() - i,
    {
        let p = &pkgs[i];
        out.push(vstd::slice::slice_to_vec(p.attr.as_slice()));
        i = i + 1;
    }
    out
}

} // verus!
