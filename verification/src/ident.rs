//! Package identifiers. An identifier is an attribute-path style token,
//! written either bare (`vim`) or qualified with the ambient namespace
//! (`pkgs.vim`). Two identifiers name the same package when their
//! normalized forms, with the namespace prefix stripped, agree.

use vstd::prelude::*;

use crate::bytes::ascii;
use crate::bytes::is_ws;
use crate::bytes::lit;
use crate::bytes::match_at;
use crate::bytes::match_at_exec;

verus! {

/// The namespace prefix that qualifies a bare package name.
pub open spec fn ns_prefix() -> Seq<u8> {
    lit("pkgs."@)
}

/// A well-formed identifier or array entry: a nonempty token free of
/// whitespace and of the bracket that closes an array literal.
pub open spec fn valid_entry(s: Seq<u8>) -> bool {
    s.len() > 0 && forall|i: int| 0 <= i < s.len() ==> !is_ws(#[trigger] s[i]) && s[i] != 93
}

/// An identifier with the namespace prefix stripped, if it carries one.
pub open spec fn norm(s: Seq<u8>) -> Seq<u8> {
    if match_at(s, ns_prefix(), 0) {
        s.subrange(ns_prefix().len() as int, s.len() as int)
    } else {
        s
    }
}

/// Two spellings name the same package.
pub open spec fn same_pkg(a: Seq<u8>, b: Seq<u8>) -> bool {
    norm(a) == norm(b)
}

/// The namespace prefix, as runnable bytes.
pub fn ns_prefix_bytes() -> (r: Vec<u8>)
    ensures
        r@ == ns_prefix(),
{
    proof {
        reveal_strlit("pkgs.");
    }
    ascii("pkgs.")
}

/// Strips the namespace prefix from an identifier, if present.
pub fn normalize(s: &Vec<u8>) -> (r: Vec<u8>)
    ensures
        r@ == norm(s@),
{
    let p = ns_prefix_bytes();
    if s.len() >= p.len() && match_at_exec(s.as_slice(), p.as_slice(), 0) {
        let mut r: Vec<u8> = Vec::new();
        let mut i: usize = p.len();
        while i < s.len()
            invariant
                p@.len() <= i <= s.len(),
                r@ =~= s@.subrange(p@.len() as int, i as int),
            decreases s.len() - i,
        {
            r.push(s[i]);
            i = i + 1;
        }
        proof {
            assert(r@ =~= norm(s@));
        }
        r
    } else {
        proof {
            assert(!match_at(s@, ns_prefix(), 0));
        }
        let r = s.clone();
        proof {
            assert(r@ =~= s@);
        }
        r
    }
}

/// A usable package identifier: a well-formed entry whose name is not
/// the bare namespace prefix alone.
pub open spec fn valid_ident(s: Seq<u8>) -> bool {
    valid_entry(s) && norm(s).len() > 0
}

/// An entry spelled with the namespace prefix.
pub open spec fn is_qualified(e: Seq<u8>) -> bool {
    match_at(e, ns_prefix(), 0)
}

/// How an identifier is written into an array: bare when the array's
/// convention is bare names, qualified otherwise.
pub open spec fn spelled(bare: bool, id: Seq<u8>) -> Seq<u8> {
    if bare {
        norm(id)
    } else {
        ns_prefix() + norm(id)
    }
}

/// Identifiers spelled one by one.
pub open spec fn spelled_list(bare: bool, ids: Seq<Seq<u8>>) -> Seq<Seq<u8>> {
    Seq::new(ids.len(), |i: int| spelled(bare, ids[i]))
}

/// No entry is qualified.
pub open spec fn all_bare(es: Seq<Seq<u8>>) -> bool {
    forall|k: int| 0 <= k < es.len() ==> !is_qualified(#[trigger] es[k])
}

/// Every entry is qualified.
pub open spec fn all_qualified(es: Seq<Seq<u8>>) -> bool {
    forall|k: int| 0 <= k < es.len() ==> is_qualified(#[trigger] es[k])
}

/// An array asks for bare names only when it has entries and all of them
/// are bare; an empty or mixed array takes qualified names.
pub open spec fn bare_convention(es: Seq<Seq<u8>>) -> bool {
    es.len() > 0 && all_bare(es)
}

/// The namespace prefix is a well-formed entry of five bytes.
pub proof fn lemma_ns_prefix_valid()
    ensures
        ns_prefix().len() == 5,
        valid_entry(ns_prefix()),
{
    reveal_strlit("pkgs.");
    assert(ns_prefix().len() == 5);
    assert(ns_prefix()[0] == 'p' as u8);
    assert(ns_prefix()[1] == 'k' as u8);
    assert(ns_prefix()[2] == 'g' as u8);
    assert(ns_prefix()[3] == 's' as u8);
    assert(ns_prefix()[4] == '.' as u8);
    assert forall|i: int| 0 <= i < ns_prefix().len() implies !crate::bytes::is_ws(
        #[trigger] ns_prefix()[i],
    ) && ns_prefix()[i] != 93 by {
        if i == 0 {
        } else if i == 1 {
        } else if i == 2 {
        } else if i == 3 {
        } else {
            assert(i == 4);
        }
    }
}

/// A spelled identifier is itself a well-formed entry.
pub proof fn lemma_spelled_valid(bare: bool, id: Seq<u8>)
    requires
        valid_ident(id),
    ensures
        valid_entry(spelled(bare, id)),
{
    lemma_ns_prefix_valid();
    let n = norm(id);
    assert(valid_entry(n)) by {
        if match_at(id, ns_prefix(), 0) {
            assert(forall|i: int|
                0 <= i < n.len() ==> n[i] == id[i + ns_prefix().len()]);
        }
    }
    if !bare {
        let q = ns_prefix() + n;
        assert(valid_entry(q)) by {
            assert forall|i: int| 0 <= i < q.len() implies !crate::bytes::is_ws(#[trigger] q[i])
                && q[i] != 93 by {
                if i < ns_prefix().len() {
                    assert(q[i] == ns_prefix()[i]);
                } else {
                    assert(q[i] == n[i - ns_prefix().len()]);
                }
            }
        }
    }
}

/// Convention preservation: an all-bare array takes a bare entry; an
/// array with any qualified entry (and every all-qualified array) takes
/// a qualified entry, so mixed spellings are never introduced.
pub proof fn lemma_convention_preserved(es: Seq<Seq<u8>>, id: Seq<u8>)
    ensures
        bare_convention(es) ==> spelled(bare_convention(es), id) == norm(id),
        !bare_convention(es) ==> is_qualified(spelled(bare_convention(es), id)),
        es.len() > 0 && all_qualified(es) ==> all_qualified(
            es.push(spelled(bare_convention(es), id)),
        ),
        bare_convention(es) && !is_qualified(norm(id)) ==> all_bare(
            es.push(spelled(bare_convention(es), id)),
        ),
{
    lemma_ns_prefix_valid();
    let b = bare_convention(es);
    if !b {
        let q = ns_prefix() + norm(id);
        assert(is_qualified(q)) by {
            assert(q.subrange(0, ns_prefix().len() as int) =~= ns_prefix());
        }
    }
    if es.len() > 0 && all_qualified(es) {
        assert(is_qualified(es[0]));
        assert(!b);
        assert forall|k: int| 0 <= k < es.push(spelled(b, id)).len() implies is_qualified(
            #[trigger] es.push(spelled(b, id))[k],
        ) by {
            if k < es.len() {
                assert(es.push(spelled(b, id))[k] == es[k]);
            }
        }
    }
    if b && !is_qualified(norm(id)) {
        assert forall|k: int| 0 <= k < es.push(spelled(b, id)).len() implies !is_qualified(
            #[trigger] es.push(spelled(b, id))[k],
        ) by {
            if k < es.len() {
                assert(es.push(spelled(b, id))[k] == es[k]);
            }
        }
    }
}

/// Whether an entry is written with the namespace prefix.
pub fn is_qualified_exec(e: &Vec<u8>) -> (r: bool)
    ensures
        r == is_qualified(e@),
{
    let p = ns_prefix_bytes();
    if e.len() < p.len() {
        proof {
            assert(!match_at(e@, ns_prefix(), 0));
        }
        false
    } else {
        match_at_exec(e.as_slice(), p.as_slice(), 0)
    }
}

/// Detects the spelling convention of an array's entries.
pub fn detect_bare(entries: &Vec<Vec<u8>>) -> (r: bool)
    ensures
        r == bare_convention(crate::editor::vecs_view(entries@)),
{
    if entries.len() == 0 {
        return false;
    }
    let mut i: usize = 0;
    while i < entries.len()
        invariant
            i <= entries@.len(),
            forall|k: int|
                0 <= k < i ==> !is_qualified(#[trigger] crate::editor::vecs_view(entries@)[k]),
        decreases entries@.len() - i,
    {
        let e = &entries[i];
        if is_qualified_exec(e) {
            proof {
                assert(is_qualified(crate::editor::vecs_view(entries@)[i as int]));
            }
            return false;
        }
        i = i + 1;
    }
    true
}

/// Writes an identifier in the array's convention.
pub fn spell_entry(bare: bool, id: &Vec<u8>) -> (r: Vec<u8>)
    ensures
        r@ == spelled(bare, id@),
{
    let n = normalize(id);
    if bare {
        n
    } else {
        let mut r = ns_prefix_bytes();
        r.extend_from_slice(n.as_slice());
        proof {
            assert(r@ =~= ns_prefix() + norm(id@));
        }
        r
    }
}

/// Decides whether two spellings name the same package.
pub fn same_pkg_exec(a: &Vec<u8>, b: &Vec<u8>) -> (r: bool)
    ensures
        r == same_pkg(a@, b@),
{
    let na = normalize(a);
    let nb = normalize(b);
    crate::bytes::bytes_eq(na.as_slice(), nb.as_slice())
}

} // verus!
