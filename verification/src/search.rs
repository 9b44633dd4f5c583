//! Ranked package search. The metadata collaborator hands over the
//! candidates that contain some query term; this module scores each one
//! by greedily stripping every query term, case-insensitively and once
//! per term, from a working copy of its identifier — the fewer bytes
//! survive, the better the rank. Ties keep the collaborator's order.
//! Each hit also carries domain-membership flags and the byte ranges of
//! every term occurrence, for the rendering layer to highlight.

use vstd::prelude::*;

use crate::bytes::first_match;
use crate::bytes::lower;
use crate::bytes::match_at;
use crate::editor::matches_any;
use crate::editor::vecs_view;

verus! {

/// Query terms folded to lower case.
pub open spec fn lower_all(ts: Seq<Seq<u8>>) -> Seq<Seq<u8>> {
    Seq::new(ts.len(), |i: int| lower(ts[i]))
}

/// The remaining length after stripping each term, in order, from the
/// working copy: the first case-folded occurrence of a term is cut out;
/// a term that no longer occurs strips nothing.
pub open spec fn strip_score(work: Seq<u8>, terms: Seq<Seq<u8>>) -> nat
    decreases terms.len(),
{
    if terms.len() == 0 {
        work.len()
    } else {
        match first_match(work, terms[0], 0) {
            Some(i) => strip_score(
                work.subrange(0, i) + work.subrange(i + terms[0].len(), work.len() as int),
                terms.drop_first(),
            ),
            None => strip_score(work, terms.drop_first()),
        }
    }
}

/// The relevance score of an identifier under the query: the length of
/// what the query terms fail to cover. Lower ranks first.
pub open spec fn spec_score(attr: Seq<u8>, terms: Seq<Seq<u8>>) -> nat {
    strip_score(lower(attr), lower_all(terms))
}

/// Computes the relevance score of one identifier.
pub fn score(attr: &Vec<u8>, terms: &Vec<Vec<u8>>) -> (r: usize)
    ensures
        r == spec_score(attr@, vecs_view(terms@)),
{
    let mut work = crate::bytes::to_lower(attr.as_slice());
    let ghost twl = lower_all(vecs_view(terms@));
    let mut j: usize = 0;
    proof {
        assert(twl.subrange(0, twl.len() as int) =~= twl);
    }
    while j < terms.len()
        invariant
            j <= terms@.len(),
            twl == lower_all(vecs_view(terms@)),
            spec_score(attr@, vecs_view(terms@)) == strip_score(
                work@,
                twl.subrange(j as int, twl.len() as int),
            ),
        decreases terms@.len() - j,
    {
        let ghost suffix = twl.subrange(j as int, twl.len() as int);
        proof {
            assert(suffix[0] == twl[j as int]);
            assert(suffix.drop_first() =~= twl.subrange(j + 1, twl.len() as int));
        }
        let t = &terms[j];
        let tl = crate::bytes::to_lower(t.as_slice());
        proof {
            assert(tl@ == twl[j as int]);
        }
        match crate::bytes::find_sub(work.as_slice(), tl.as_slice(), 0) {
            Some(i) => {
                let wn = work.len();
                proof {
                    crate::bytes::lemma_first_match(work@, tl@, 0);
                    assert(i + tl@.len() <= wn);
                }
                let mut nw = vstd::slice::slice_to_vec(
                    vstd::slice::slice_subrange(work.as_slice(), 0, i),
                );
                nw.extend_from_slice(
                    vstd::slice::slice_subrange(work.as_slice(), i + tl.len(), wn),
                );
                proof {
                    assert(nw@ =~= work@.subrange(0, i as int) + work@.subrange(
                        i + tl@.len(),
                        work@.len() as int,
                    ));
                    assert(strip_score(work@, suffix) == strip_score(nw@, suffix.drop_first()));
                }
                work = nw;
            },
            None => {
                proof {
                    assert(strip_score(work@, suffix) == strip_score(work@, suffix.drop_first()));
                }
            },
        }
        j = j + 1;
    }
    proof {
        assert(twl.subrange(twl.len() as int, twl.len() as int) =~= Seq::<Seq<u8>>::empty());
    }
    work.len()
}

/// The non-overlapping case-folded occurrences of one term in a text,
/// scanning left to right from `i`; each is a byte range.
pub open spec fn occ_from(wl: Seq<u8>, tl: Seq<u8>, i: int) -> Seq<(int, int)>
    decreases wl.len() - i + 1,
    via occ_from_decreases
{
    if tl.len() == 0 || i < 0 {
        Seq::empty()
    } else {
        match first_match(wl, tl, i) {
            Some(j) => seq![(j, j + tl.len() as int)] + occ_from(wl, tl, j + tl.len()),
            None => Seq::empty(),
        }
    }
}

#[via_fn]
proof fn occ_from_decreases(wl: Seq<u8>, tl: Seq<u8>, i: int) {
    if tl.len() > 0 && i >= 0 {
        crate::bytes::lemma_first_match(wl, tl, i);
    }
}

/// Every case-insensitive occurrence of one term, as byte ranges of the
/// original text.
pub open spec fn spec_spans_for(text: Seq<u8>, term: Seq<u8>) -> Seq<(int, int)> {
    occ_from(lower(text), lower(term), 0)
}

/// The ranges of every term, term by term; ranges of different terms may
/// overlap, and each is reported.
pub open spec fn spec_all_spans(text: Seq<u8>, terms: Seq<Seq<u8>>) -> Seq<(int, int)>
    decreases terms.len(),
{
    if terms.len() == 0 {
        Seq::empty()
    } else {
        spec_spans_for(text, terms[0]) + spec_all_spans(text, terms.drop_first())
    }
}

/// Byte ranges as mathematical pairs.
pub open spec fn spans_view(v: Seq<(usize, usize)>) -> Seq<(int, int)> {
    Seq::new(v.len(), |i: int| (v[i].0 as int, v[i].1 as int))
}

/// Finds every term occurrence in a text for highlighting.
pub fn match_spans(text: &Vec<u8>, terms: &Vec<Vec<u8>>) -> (r: Vec<(usize, usize)>)
    ensures
        spans_view(r@) == spec_all_spans(text@, vecs_view(terms@)),
{
    let wl = crate::bytes::to_lower(text.as_slice());
    let ghost tv = vecs_view(terms@);
    let mut out: Vec<(usize, usize)> = Vec::new();
    let mut j: usize = 0;
    proof {
        assert(spans_view(out@) =~= Seq::<(int, int)>::empty());
        assert(tv.subrange(0, tv.len() as int) =~= tv);
        assert(spans_view(out@) + spec_all_spans(text@, tv) =~= spec_all_spans(text@, tv));
    }
    while j < terms.len()
        invariant
            j <= terms@.len(),
            tv == vecs_view(terms@),
            wl@ == lower(text@),
            spec_all_spans(text@, tv) == spans_view(out@) + spec_all_spans(
                text@,
                tv.subrange(j as int, tv.len() as int),
            ),
        decreases terms@.len() - j,
    {
        let ghost suffix = tv.subrange(j as int, tv.len() as int);
        proof {
            assert(suffix[0] == tv[j as int]);
            assert(suffix.drop_first() =~= tv.subrange(j + 1, tv.len() as int));
        }
        let t = &terms[j];
        let tl = crate::bytes::to_lower(t.as_slice());
        proof {
            assert(tl@ == lower(tv[j as int]));
        }
        let ghost spans0 = spans_view(out@);
        if tl.len() > 0 {
            let n = wl.len();
            let mut pos: usize = 0;
            loop
                invariant
                    tl@.len() > 0,
                    tl@ == lower(tv[j as int]),
                    wl@ == lower(text@),
                    n == wl@.len(),
                    pos <= wl@.len() + tl@.len(),
                    spans0 + spec_spans_for(text@, tv[j as int]) == spans_view(out@) + occ_from(
                        wl@,
                        tl@,
                        pos as int,
                    ),
                ensures
                    spans_view(out@) == spans0 + spec_spans_for(text@, tv[j as int]),
                decreases wl@.len() - pos + 1,
            {
                match crate::bytes::find_sub(wl.as_slice(), tl.as_slice(), pos) {
                    Some(i) => {
                        proof {
                            crate::bytes::lemma_first_match(wl@, tl@, pos as int);
                        }
                        proof {
                            assert(i + tl@.len() <= n);
                        }
                        let ghost prev = spans_view(out@);
                        out.push((i, i + tl.len()));
                        proof {
                            assert(spans_view(out@) =~= prev + seq![
                                (i as int, i + tl@.len() as int),
                            ]);
                            assert(occ_from(wl@, tl@, pos as int) == seq![
                                (i as int, i + tl@.len() as int),
                            ] + occ_from(wl@, tl@, i + tl@.len()));
                            assert(spans_view(out@) + occ_from(wl@, tl@, i + tl@.len()) =~= prev + (
                            seq![(i as int, i + tl@.len() as int)] + occ_from(
                                wl@,
                                tl@,
                                i + tl@.len(),
                            )));
                        }
                        pos = i + tl.len();
                    },
                    None => {
                        proof {
                            assert(occ_from(wl@, tl@, pos as int) =~= Seq::<(int, int)>::empty());
                            assert(spans_view(out@) + Seq::<(int, int)>::empty() =~= spans_view(
                                out@,
                            ));
                        }
                        break;
                    },
                }
            }
        } else {
            proof {
                assert(spec_spans_for(text@, tv[j as int]) =~= Seq::<(int, int)>::empty()) by {
                    assert(lower(tv[j as int]).len() == 0);
                }
                assert(spans0 + Seq::<(int, int)>::empty() =~= spans0);
            }
        }
        proof {
            assert(spec_all_spans(text@, suffix) == spec_spans_for(text@, suffix[0])
                + spec_all_spans(text@, suffix.drop_first()));
            assert(spans_view(out@) =~= spans0 + spec_spans_for(text@, tv[j as int]));
            assert(spans_view(out@) + spec_all_spans(text@, suffix.drop_first()) =~= spans0 + (
            spec_spans_for(text@, suffix[0]) + spec_all_spans(text@, suffix.drop_first())));
        }
        j = j + 1;
    }
    proof {
        assert(tv.subrange(tv.len() as int, tv.len() as int) =~= Seq::<Seq<u8>>::empty());
        assert(spec_all_spans(text@, Seq::<Seq<u8>>::empty()) =~= Seq::<(int, int)>::empty());
        assert(spans_view(out@) + Seq::<(int, int)>::empty() =~= spans_view(out@));
    }
    out
}

/// The sort key of a candidate: its score, then its original position.
/// Keys are unique, so the sorted order is fully determined and ties
/// keep the collaborator's order.
pub open spec fn key_le(a: (usize, usize), b: (usize, usize)) -> bool {
    a.0 < b.0 || (a.0 == b.0 && a.1 <= b.1)
}

/// Insertion into a sorted key list, after every key that is not larger.
pub open spec fn spec_insert(x: (usize, usize), s: Seq<(usize, usize)>) -> Seq<(usize, usize)>
    decreases s.len(),
{
    if s.len() == 0 {
        seq![x]
    } else if key_le(s[0], x) {
        seq![s[0]] + spec_insert(x, s.drop_first())
    } else {
        seq![x] + s
    }
}

/// Insertion sort over the keys, in input order.
pub open spec fn spec_sort(s: Seq<(usize, usize)>) -> Seq<(usize, usize)>
    decreases s.len(),
{
    if s.len() == 0 {
        Seq::empty()
    } else {
        spec_insert(s.last(), spec_sort(s.drop_last()))
    }
}

pub open spec fn sorted_keys(s: Seq<(usize, usize)>) -> bool {
    forall|a: int, b: int| 0 <= a < b < s.len() ==> key_le(#[trigger] s[a], #[trigger] s[b])
}

pub proof fn lemma_insert_props(x: (usize, usize), s: Seq<(usize, usize)>)
    requires
        sorted_keys(s),
    ensures
        sorted_keys(spec_insert(x, s)),
        spec_insert(x, s).len() == s.len() + 1,
        forall|k: int| 0 <= k < spec_insert(x, s).len() ==> #[trigger] spec_insert(x, s)[k] == x
            || s.contains(spec_insert(x, s)[k]),
    decreases s.len(),
{
    let r = spec_insert(x, s);
    if s.len() == 0 {
    } else if key_le(s[0], x) {
        let d = s.drop_first();
        assert(sorted_keys(d)) by {
            assert(forall|k: int| 0 <= k < d.len() ==> #[trigger] d[k] == s[k + 1]);
        }
        lemma_insert_props(x, d);
        assert(r == seq![s[0]] + spec_insert(x, d));
        assert(sorted_keys(r)) by {
            assert forall|a: int, b: int| 0 <= a < b < r.len() implies key_le(
                #[trigger] r[a],
                #[trigger] r[b],
            ) by {
                if a == 0 {
                    assert(r[b] == spec_insert(x, d)[b - 1]);
                    if spec_insert(x, d)[b - 1] == x {
                    } else {
                        assert(d.contains(spec_insert(x, d)[b - 1]));
                        let j = choose|j: int|
                            0 <= j < d.len() && d[j] == spec_insert(x, d)[b - 1];
                        assert(key_le(s[0], s[j + 1]));
                    }
                } else {
                    assert(r[a] == spec_insert(x, d)[a - 1]);
                    assert(r[b] == spec_insert(x, d)[b - 1]);
                }
            }
        }
        assert forall|k: int| 0 <= k < r.len() implies #[trigger] r[k] == x || s.contains(
            r[k],
        ) by {
            if k == 0 {
                assert(s[0] == r[0]);
                assert(s.contains(s[0]));
            } else {
                assert(r[k] == spec_insert(x, d)[k - 1]);
                if spec_insert(x, d)[k - 1] != x {
                    assert(d.contains(spec_insert(x, d)[k - 1]));
                    let j = choose|j: int| 0 <= j < d.len() && d[j] == spec_insert(x, d)[k - 1];
                    assert(s[j + 1] == r[k]);
                    assert(s.contains(s[j + 1]));
                }
            }
        }
    } else {
        assert(r == seq![x] + s);
        assert(sorted_keys(r)) by {
            assert forall|a: int, b: int| 0 <= a < b < r.len() implies key_le(
                #[trigger] r[a],
                #[trigger] r[b],
            ) by {
                if a == 0 {
                    assert(r[b] == s[b - 1]);
                    if b - 1 > 0 {
                        assert(key_le(s[0], s[b - 1]));
                    }
                    assert(!key_le(s[0], x));
                    assert(key_le(x, s[0]));
                } else {
                    assert(r[a] == s[a - 1] && r[b] == s[b - 1]);
                }
            }
        }
        assert forall|k: int| 0 <= k < r.len() implies #[trigger] r[k] == x || s.contains(
            r[k],
        ) by {
            if k > 0 {
                assert(r[k] == s[k - 1]);
                assert(s.contains(s[k - 1]));
            }
        }
    }
}

pub proof fn lemma_sort_props(s: Seq<(usize, usize)>)
    ensures
        sorted_keys(spec_sort(s)),
        spec_sort(s).len() == s.len(),
        forall|k: int| 0 <= k < spec_sort(s).len() ==> s.contains(#[trigger] spec_sort(s)[k]),
    decreases s.len(),
{
    if s.len() > 0 {
        let d = s.drop_last();
        lemma_sort_props(d);
        lemma_insert_props(s.last(), spec_sort(d));
        assert forall|k: int| 0 <= k < spec_sort(s).len() implies s.contains(
            #[trigger] spec_sort(s)[k],
        ) by {
            if spec_sort(s)[k] == s.last() {
                assert(s[s.len() - 1] == s.last());
            } else {
                assert(spec_sort(d).contains(spec_sort(s)[k]));
                let j = choose|j: int| 0 <= j < spec_sort(d).len() && spec_sort(d)[j] == spec_sort(
                    s,
                )[k];
                assert(d.contains(spec_sort(d)[j]));
                let j2 = choose|j2: int| 0 <= j2 < d.len() && d[j2] == spec_sort(d)[j];
                assert(s[j2] == spec_sort(s)[k]);
            }
        }
    }
}

/// Where the sorted insertion lands: after the keys not larger than `x`.
proof fn lemma_insert_at(x: (usize, usize), s: Seq<(usize, usize)>, pos: int)
    requires
        0 <= pos <= s.len(),
        forall|k: int| 0 <= k < pos ==> key_le(#[trigger] s[k], x),
        pos < s.len() ==> !key_le(s[pos], x),
    ensures
        spec_insert(x, s) == s.subrange(0, pos) + seq![x] + s.subrange(pos, s.len() as int),
    decreases pos,
{
    if pos == 0 {
        if s.len() == 0 {
            assert(spec_insert(x, s) =~= s.subrange(0, 0) + seq![x] + s.subrange(
                0,
                s.len() as int,
            ));
        } else {
            assert(spec_insert(x, s) == seq![x] + s);
            assert(seq![x] + s =~= s.subrange(0, 0) + seq![x] + s.subrange(0, s.len() as int));
        }
    } else {
        let d = s.drop_first();
        assert(key_le(s[0], x));
        assert(forall|k: int| 0 <= k < d.len() ==> #[trigger] d[k] == s[k + 1]);
        lemma_insert_at(x, d, pos - 1);
        assert(spec_insert(x, s) == seq![s[0]] + spec_insert(x, d));
        assert(seq![s[0]] + (d.subrange(0, pos - 1) + seq![x] + d.subrange(
            pos - 1,
            d.len() as int,
        )) =~= s.subrange(0, pos) + seq![x] + s.subrange(pos, s.len() as int));
    }
}

fn key_le_exec(a: (usize, usize), b: (usize, usize)) -> (r: bool)
    ensures
        r == key_le(a, b),
{
    a.0 < b.0 || (a.0 == b.0 && a.1 <= b.1)
}

/// Sorts the score keys, stably.
fn sort_keys(keys: &Vec<(usize, usize)>) -> (r: Vec<(usize, usize)>)
    ensures
        r@ == spec_sort(keys@),
{
    let mut out: Vec<(usize, usize)> = Vec::new();
    proof {
        assert(keys@.subrange(0, 0) =~= Seq::<(usize, usize)>::empty());
        assert(out@ =~= spec_sort(keys@.subrange(0, 0)));
    }
    let mut j: usize = 0;
    while j < keys.len()
        invariant
            j <= keys@.len(),
            out@ == spec_sort(keys@.subrange(0, j as int)),
            out@.len() == j,
        decreases keys@.len() - j,
    {
        proof {
            lemma_sort_props(keys@.subrange(0, j as int));
        }
        let x = keys[j];
        let mut pos: usize = 0;
        while pos < out.len() && key_le_exec(out[pos], x)
            invariant
                pos <= out@.len(),
                forall|k: int| 0 <= k < pos ==> key_le(#[trigger] out@[k], x),
            decreases out@.len() - pos,
        {
            pos = pos + 1;
        }
        let ghost out0 = out@;
        out.insert(pos, x);
        proof {
            lemma_insert_at(x, out0, pos as int);
            assert(out@ =~= out0.subrange(0, pos as int) + seq![x] + out0.subrange(
                pos as int,
                out0.len() as int,
            ));
            let pfx = keys@.subrange(0, j + 1);
            assert(pfx.drop_last() =~= keys@.subrange(0, j as int));
            assert(pfx.last() == keys@[j as int]);
            assert(out@ =~= spec_sort(pfx));
        }
        j = j + 1;
    }
    proof {
        assert(keys@.subrange(0, keys@.len() as int) =~= keys@);
    }
    out
}

/// What the metadata collaborator reports for one package whose
/// identifier or description contains some query term.
pub struct SearchCandidate {
    pub attr: Vec<u8>,
    pub version: Option<Vec<u8>>,
    pub description: Option<Vec<u8>>,
    pub broken: bool,
    pub insecure: bool,
    pub unsupported: bool,
    pub unfree: bool,
}

/// One ranked result: the candidate's data, its score, where it is
/// installed, and the term occurrences for highlighting.
pub struct SearchHit {
    pub attr: Vec<u8>,
    pub version: Option<Vec<u8>>,
    pub description: Option<Vec<u8>>,
    pub broken: bool,
    pub insecure: bool,
    pub unsupported: bool,
    pub unfree: bool,
    pub in_profile: bool,
    pub in_system: bool,
    pub in_home: bool,
    pub score: usize,
    pub attr_spans: Vec<(usize, usize)>,
    pub desc_spans: Vec<(usize, usize)>,
}

pub open spec fn opt_view(o: Option<Vec<u8>>) -> Option<Seq<u8>> {
    match o {
        Some(v) => Some(v@),
        None => None,
    }
}

/// Membership of an identifier in a domain's listing; a domain that is
/// not configured is skipped and reported as absent.
pub open spec fn spec_membership(attr: Seq<u8>, l: Option<&Vec<Vec<u8>>>) -> bool {
    match l {
        Some(v) => matches_any(attr, vecs_view(v@)),
        None => false,
    }
}

/// A hit realizes a candidate: same data, the candidate's score and
/// spans, and its membership in each configured domain.
pub open spec fn hit_matches(
    h: SearchHit,
    c: SearchCandidate,
    terms: Seq<Seq<u8>>,
    profile: Option<&Vec<Vec<u8>>>,
    system: Option<&Vec<Vec<u8>>>,
    home: Option<&Vec<Vec<u8>>>,
) -> bool {
    &&& h.attr@ == c.attr@
    &&& opt_view(h.version) == opt_view(c.version)
    &&& opt_view(h.description) == opt_view(c.description)
    &&& h.broken == c.broken
    &&& h.insecure == c.insecure
    &&& h.unsupported == c.unsupported
    &&& h.unfree == c.unfree
    &&& h.in_profile == spec_membership(c.attr@, profile)
    &&& h.in_system == spec_membership(c.attr@, system)
    &&& h.in_home == spec_membership(c.attr@, home)
    &&& h.score == spec_score(c.attr@, terms)
    &&& spans_view(h.attr_spans@) == spec_all_spans(c.attr@, terms)
    &&& (match c.description {
        Some(ref d) => spans_view(h.desc_spans@) == spec_all_spans(d@, terms),
        None => h.desc_spans@.len() == 0,
    })
}

/// The remainder can only shrink: a score never exceeds the identifier's
/// length.
pub proof fn lemma_score_bound(work: Seq<u8>, terms: Seq<Seq<u8>>)
    ensures
        strip_score(work, terms) <= work.len(),
    decreases terms.len(),
{
    if terms.len() > 0 {
        match first_match(work, terms[0], 0) {
            Some(i) => {
                crate::bytes::lemma_first_match(work, terms[0], 0);
                lemma_score_bound(
                    work.subrange(0, i) + work.subrange(i + terms[0].len(), work.len() as int),
                    terms.drop_first(),
                );
            },
            None => {
                lemma_score_bound(work, terms.drop_first());
            },
        }
    }
}

fn clone_bytes_opt(o: &Option<Vec<u8>>) -> (r: Option<Vec<u8>>)
    ensures
        opt_view(r) == (match o {
            Some(v) => Some(v@),
            None => None::<Seq<u8>>,
        }),
{
    match o {
        Some(v) => Some(vstd::slice::slice_to_vec(v.as_slice())),
        None => None,
    }
}

fn membership(attr: &Vec<u8>, l: Option<&Vec<Vec<u8>>>) -> (r: bool)
    ensures
        r == spec_membership(attr@, l),
{
    match l {
        Some(v) => crate::editor::matches_any_exec(attr, v),
        None => false,
    }
}

fn make_hit(
    c: &SearchCandidate,
    terms: &Vec<Vec<u8>>,
    profile: Option<&Vec<Vec<u8>>>,
    system: Option<&Vec<Vec<u8>>>,
    home: Option<&Vec<Vec<u8>>>,
) -> (h: SearchHit)
    ensures
        hit_matches(h, *c, vecs_view(terms@), profile, system, home),
{
    let attr = vstd::slice::slice_to_vec(c.attr.as_slice());
    let attr_spans = match_spans(&c.attr, terms);
    let desc_spans = match &c.description {
        Some(d) => match_spans(d, terms),
        None => Vec::new(),
    };
    SearchHit {
        attr,
        version: clone_bytes_opt(&c.version),
        description: clone_bytes_opt(&c.description),
        broken: c.broken,
        insecure: c.insecure,
        unsupported: c.unsupported,
        unfree: c.unfree,
        in_profile: membership(&c.attr, profile),
        in_system: membership(&c.attr, system),
        in_home: membership(&c.attr, home),
        score: score(&c.attr, terms),
        attr_spans,
        desc_spans,
    }
}

fn clone_hit(h: &SearchHit) -> (r: SearchHit)
    ensures
        r.attr@ == h.attr@,
        opt_view(r.version) == opt_view(h.version),
        opt_view(r.description) == opt_view(h.description),
        r.broken == h.broken,
        r.insecure == h.insecure,
        r.unsupported == h.unsupported,
        r.unfree == h.unfree,
        r.in_profile == h.in_profile,
        r.in_system == h.in_system,
        r.in_home == h.in_home,
        r.score == h.score,
        r.attr_spans@ == h.attr_spans@,
        r.desc_spans@ == h.desc_spans@,
{
    SearchHit {
        attr: vstd::slice::slice_to_vec(h.attr.as_slice()),
        version: clone_bytes_opt(&h.version),
        description: clone_bytes_opt(&h.description),
        broken: h.broken,
        insecure: h.insecure,
        unsupported: h.unsupported,
        unfree: h.unfree,
        in_profile: h.in_profile,
        in_system: h.in_system,
        in_home: h.in_home,
        score: h.score,
        attr_spans: vstd::slice::slice_to_vec(h.attr_spans.as_slice()),
        desc_spans: vstd::slice::slice_to_vec(h.desc_spans.as_slice()),
    }
}

/// The candidates' sort keys, in the collaborator's order.
pub open spec fn spec_keys(cands: Seq<SearchCandidate>, terms: Seq<Seq<u8>>) -> Seq<(usize, usize)> {
    Seq::new(cands.len(), |i: int| (spec_score(cands[i].attr@, terms) as usize, i as usize))
}

/// Ranks the candidates: each becomes a hit, and the hits come out
/// ordered by score, lowest remainder first, ties in the collaborator's
/// order.
pub fn rank_results(
    cands: &Vec<SearchCandidate>,
    terms: &Vec<Vec<u8>>,
    profile: Option<&Vec<Vec<u8>>>,
    system: Option<&Vec<Vec<u8>>>,
    home: Option<&Vec<Vec<u8>>>,
) -> (r: Vec<SearchHit>)
    ensures
        r@.len() == cands@.len(),
        ({
            let sorted = spec_sort(spec_keys(cands@, vecs_view(terms@)));
            forall|k: int| 0 <= k < r@.len() ==> {
                &&& 0 <= (#[trigger] sorted[k]).1 < cands@.len()
                &&& r@[k].score == sorted[k].0
                &&& hit_matches(
                    r@[k],
                    cands@[sorted[k].1 as int],
                    vecs_view(terms@),
                    profile,
                    system,
                    home,
                )
            }
        }),
        forall|a: int, b: int| 0 <= a < b < r@.len() ==> (#[trigger] r@[a]).score <= (
        #[trigger] r@[b]).score,
{
    let ghost tv = vecs_view(terms@);
    let mut hits: Vec<SearchHit> = Vec::new();
    let mut keys: Vec<(usize, usize)> = Vec::new();
    let mut i: usize = 0;
    while i < cands.len()
        invariant
            i <= cands@.len(),
            hits@.len() == i,
            keys@.len() == i,
            tv == vecs_view(terms@),
            forall|k: int| 0 <= k < i ==> hit_matches(
                #[trigger] hits@[k],
                cands@[k],
                tv,
                profile,
                system,
                home,
            ),
            forall|k: int| 0 <= k < i ==> #[trigger] keys@[k] == spec_keys(cands@, tv)[k],
        decreases cands@.len() - i,
    {
        let c = &cands[i];
        let h = make_hit(c, terms, profile, system, home);
        keys.push((h.score, i));
        hits.push(h);
        proof {
            assert(keys@[i as int] == spec_keys(cands@, tv)[i as int]);
        }
        i = i + 1;
    }
    proof {
        assert(keys@ =~= spec_keys(cands@, tv));
    }
    let sorted = sort_keys(&keys);
    proof {
        lemma_sort_props(keys@);
    }
    let mut out: Vec<SearchHit> = Vec::new();
    let mut k: usize = 0;
    while k < sorted.len()
        invariant
            k <= sorted@.len(),
            out@.len() == k,
            tv == vecs_view(terms@),
            hits@.len() == cands@.len(),
            keys@ == spec_keys(cands@, tv),
            sorted@ == spec_sort(keys@),
            sorted@.len() == cands@.len(),
            forall|j: int| 0 <= j < hits@.len() ==> hit_matches(
                #[trigger] hits@[j],
                cands@[j],
                tv,
                profile,
                system,
                home,
            ),
            forall|j: int| 0 <= j < sorted@.len() ==> keys@.contains(#[trigger] sorted@[j]),
            forall|j: int| 0 <= j < k ==> {
                &&& 0 <= (#[trigger] sorted@[j]).1 < cands@.len()
                &&& out@[j].score == sorted@[j].0
                &&& hit_matches(out@[j], cands@[sorted@[j].1 as int], tv, profile, system, home)
            },
        decreases sorted@.len() - k,
    {
        let key = sorted[k];
        proof {
            assert(keys@.contains(sorted@[k as int]));
            let j = choose|j: int| 0 <= j < keys@.len() && keys@[j] == sorted@[k as int];
            assert(keys@[j] == spec_keys(cands@, tv)[j]);
            assert(sorted@[k as int].1 == j);
            assert(hits@[j].score == spec_score(cands@[j].attr@, tv)) by {
                assert(hit_matches(hits@[j], cands@[j], tv, profile, system, home));
            }
            lemma_score_bound(
                crate::bytes::lower(cands@[j].attr@),
                lower_all(tv),
            );
            assert(hits@[j].score == sorted@[k as int].0);
        }
        let idx = key.1;
        let h = clone_hit(&hits[idx]);
        proof {
            assert(hit_matches(hits@[idx as int], cands@[idx as int], tv, profile, system, home));
            assert(hit_matches(h, cands@[idx as int], tv, profile, system, home));
        }
        out.push(h);
        k = k + 1;
    }
    proof {
        assert forall|a: int, b: int| 0 <= a < b < out@.len() implies (#[trigger] out@[a]).score
            <= (#[trigger] out@[b]).score by {
            assert(key_le(sorted@[a], sorted@[b]));
            assert(out@[a].score == sorted@[a].0);
            assert(out@[b].score == sorted@[b].0);
        }
    }
    out
}

/// Search ranking, first part: a query term that occurs in the
/// identifier consumes exactly its own length, so the score of a
/// single-term query is the identifier's length minus the term's —
/// the more of the identifier the term covers, the lower the score.
pub proof fn lemma_score_single_term(attr: Seq<u8>, term: Seq<u8>)
    requires
        exists|j: int| match_at(lower(attr), lower(term), j),
    ensures
        spec_score(attr, seq![term]) == attr.len() - term.len(),
{
    let wl = lower(attr);
    let tl = lower(term);
    assert(wl.len() == attr.len());
    assert(tl.len() == term.len());
    assert(lower_all(seq![term]) =~= seq![tl]);
    crate::bytes::lemma_first_match(wl, tl, 0);
    let j = choose|j: int| match_at(wl, tl, j);
    assert(first_match(wl, tl, 0) is Some) by {
        if first_match(wl, tl, 0) is None {
            assert(!match_at(wl, tl, j));
        }
    }
    let i = first_match(wl, tl, 0)->Some_0;
    let rest = wl.subrange(0, i) + wl.subrange(i + tl.len(), wl.len() as int);
    assert(seq![tl].drop_first() =~= Seq::<Seq<u8>>::empty());
    assert(strip_score(rest, Seq::<Seq<u8>>::empty()) == rest.len());
    assert(strip_score(wl, seq![tl]) == rest.len());
    assert(rest.len() == attr.len() - term.len());
}

/// An identifier is covered whole by itself: as the only query term it
/// scores zero, the best rank there is.
pub proof fn lemma_exact_match_scores_zero(attr: Seq<u8>)
    ensures
        spec_score(attr, seq![attr]) == 0,
{
    assert(match_at(lower(attr), lower(attr), 0)) by {
        assert(lower(attr).subrange(0, lower(attr).len() as int) =~= lower(attr));
    }
    lemma_score_single_term(attr, attr);
}

/// Search ranking, second part: of two single-term queries that both
/// occur in the identifier, the longer term — the one covering more of
/// the identifier — yields the strictly better (lower) score.
pub proof fn lemma_score_coverage(attr: Seq<u8>, t1: Seq<u8>, t2: Seq<u8>)
    requires
        exists|j: int| match_at(lower(attr), lower(t1), j),
        exists|j: int| match_at(lower(attr), lower(t2), j),
        t1.len() < t2.len(),
    ensures
        spec_score(attr, seq![t2]) < spec_score(attr, seq![t1]),
{
    lemma_score_single_term(attr, t1);
    lemma_score_single_term(attr, t2);
    let j = choose|j: int| match_at(lower(attr), lower(t2), j);
    assert(j + t2.len() <= attr.len());
}

/// Search ranking, third part: in a ranked result list — one whose
/// scores are ordered as `rank_results` ensures — a hit with a strictly
/// better score stands strictly earlier. In particular an identifier
/// that one query term covers whole (score zero) ranks at least as high
/// as any hit the terms only fragment.
pub proof fn lemma_rank_position(hits: Seq<SearchHit>, a: int, b: int)
    requires
        forall|x: int, y: int| 0 <= x < y < hits.len() ==> (#[trigger] hits[x]).score <= (
        #[trigger] hits[y]).score,
        0 <= a < hits.len(),
        0 <= b < hits.len(),
        hits[a].score < hits[b].score,
    ensures
        a < b,
{
    if a > b {
        assert(hits[b].score <= hits[a].score);
    }
}

} // verus!
