//! The array-attribute editor. A configuration document is an opaque byte
//! string in which one attribute, named by `path`, is bound to an array
//! literal: `path = [ entry entry ... ];`. The editor adds entries to and
//! removes entries from that array purely at the text level, leaving every
//! other byte of the document unchanged.
//!
//! The model of a document splits it into four parts: the bytes up to and
//! including the opening bracket, a sequence of tokens (each an entry with
//! the whitespace that precedes it), the trailing whitespace of the array,
//! and the bytes from the closing bracket on. Parsing and serializing are
//! proved inverse to each other, which is what makes an added entry
//! removable without trace.

use vstd::prelude::*;
use vstd::slice::slice_subrange;
use vstd::slice::slice_to_vec;

use crate::bytes::is_ws;
use crate::bytes::match_at;
use crate::bytes::match_at_exec;
use crate::error::SnowError;
use crate::ident::same_pkg;
use crate::ident::valid_entry;

verus! {

/// One array entry together with the whitespace written before it.
pub struct Tok {
    pub lead: Seq<u8>,
    pub entry: Seq<u8>,
}

/// Whitespace only.
pub open spec fn ws_only(s: Seq<u8>) -> bool {
    forall|i: int| 0 <= i < s.len() ==> is_ws(#[trigger] s[i])
}

/// The end of the whitespace run that starts at `i`.
pub open spec fn ws_end(s: Seq<u8>, i: int) -> int
    decreases s.len() - i,
    when 0 <= i <= s.len()
{
    if i < s.len() && is_ws(s[i]) {
        ws_end(s, i + 1)
    } else {
        i
    }
}

/// The end of the run of non-whitespace bytes that starts at `i`.
pub open spec fn nonws_end(s: Seq<u8>, i: int) -> int
    decreases s.len() - i,
    when 0 <= i <= s.len()
{
    if i < s.len() && !is_ws(s[i]) {
        nonws_end(s, i + 1)
    } else {
        i
    }
}

pub proof fn lemma_ws_end(s: Seq<u8>, i: int)
    requires
        0 <= i <= s.len(),
    ensures
        i <= ws_end(s, i) <= s.len(),
        forall|k: int| i <= k < ws_end(s, i) ==> is_ws(#[trigger] s[k]),
        ws_end(s, i) < s.len() ==> !is_ws(s[ws_end(s, i)]),
    decreases s.len() - i,
{
    if i < s.len() && is_ws(s[i]) {
        lemma_ws_end(s, i + 1);
    }
}

pub proof fn lemma_nonws_end(s: Seq<u8>, i: int)
    requires
        0 <= i <= s.len(),
    ensures
        i <= nonws_end(s, i) <= s.len(),
        forall|k: int| i <= k < nonws_end(s, i) ==> !is_ws(#[trigger] s[k]),
        nonws_end(s, i) < s.len() ==> is_ws(s[nonws_end(s, i)]),
        i < s.len() && !is_ws(s[i]) ==> nonws_end(s, i) > i,
    decreases s.len() - i,
{
    if i < s.len() && !is_ws(s[i]) {
        lemma_nonws_end(s, i + 1);
    }
}

/// The whitespace run from `i` ends exactly where whitespace stops.
pub proof fn lemma_ws_end_is(s: Seq<u8>, i: int, j: int)
    requires
        0 <= i <= j <= s.len(),
        forall|k: int| i <= k < j ==> is_ws(#[trigger] s[k]),
        j < s.len() ==> !is_ws(s[j]),
    ensures
        ws_end(s, i) == j,
    decreases j - i,
{
    if i < j {
        lemma_ws_end_is(s, i + 1, j);
    }
}

/// The non-whitespace run from `i` ends exactly where whitespace begins.
pub proof fn lemma_nonws_end_is(s: Seq<u8>, i: int, j: int)
    requires
        0 <= i <= j <= s.len(),
        forall|k: int| i <= k < j ==> !is_ws(#[trigger] s[k]),
        j < s.len() ==> is_ws(s[j]),
    ensures
        nonws_end(s, i) == j,
    decreases j - i,
{
    if i < j {
        lemma_nonws_end_is(s, i + 1, j);
    }
}

/// The tokens of an array region (the bytes between the brackets).
pub open spec fn toks_of(r: Seq<u8>) -> Seq<Tok>
    decreases r.len(),
    via toks_of_decreases
{
    let w = ws_end(r, 0);
    if w >= r.len() {
        Seq::empty()
    } else {
        let e = nonws_end(r, w);
        seq![Tok { lead: r.subrange(0, w), entry: r.subrange(w, e) }] + toks_of(
            r.subrange(e, r.len() as int),
        )
    }
}

#[via_fn]
proof fn toks_of_decreases(r: Seq<u8>) {
    lemma_ws_end(r, 0);
    if ws_end(r, 0) < r.len() {
        lemma_nonws_end(r, ws_end(r, 0));
    }
}

/// The trailing whitespace of an array region, after its last entry.
pub open spec fn trail_of(r: Seq<u8>) -> Seq<u8>
    decreases r.len(),
    via trail_of_decreases
{
    let w = ws_end(r, 0);
    if w >= r.len() {
        r
    } else {
        trail_of(r.subrange(nonws_end(r, w), r.len() as int))
    }
}

#[via_fn]
proof fn trail_of_decreases(r: Seq<u8>) {
    lemma_ws_end(r, 0);
    if ws_end(r, 0) < r.len() {
        lemma_nonws_end(r, ws_end(r, 0));
    }
}

/// A token list rendered back to text.
pub open spec fn ser_toks(ts: Seq<Tok>) -> Seq<u8>
    decreases ts.len(),
{
    if ts.len() == 0 {
        Seq::empty()
    } else {
        ts[0].lead + ts[0].entry + ser_toks(ts.drop_first())
    }
}

/// A token is well formed when its entry is a real token and its leading
/// whitespace is whitespace; every token but the first must carry some.
pub open spec fn wf_tok(t: Tok, first: bool) -> bool {
    ws_only(t.lead) && valid_entry(t.entry) && (!first ==> t.lead.len() > 0)
}

pub open spec fn wf_toks(ts: Seq<Tok>) -> bool {
    forall|k: int| 0 <= k < ts.len() ==> wf_tok(#[trigger] ts[k], k == 0)
}

pub proof fn lemma_ser_toks_concat(a: Seq<Tok>, b: Seq<Tok>)
    ensures
        ser_toks(a + b) == ser_toks(a) + ser_toks(b),
    decreases a.len(),
{
    if a.len() == 0 {
        assert(a + b =~= b);
        assert(ser_toks(a) + ser_toks(b) =~= ser_toks(b));
    } else {
        assert((a + b).drop_first() =~= a.drop_first() + b);
        lemma_ser_toks_concat(a.drop_first(), b);
        assert(ser_toks(a + b) =~= ser_toks(a) + ser_toks(b));
    }
}

pub proof fn lemma_ser_toks_singleton(t: Tok)
    ensures
        ser_toks(seq![t]) == t.lead + t.entry,
{
    assert(seq![t].drop_first() =~= Seq::<Tok>::empty());
    assert(ser_toks(Seq::<Tok>::empty()) =~= Seq::<u8>::empty());
    assert(ser_toks(seq![t]) =~= t.lead + t.entry);
}

/// Parsing decomposes a region: its tokens and trailing whitespace
/// reassemble to the region itself, and the tokens are well formed.
pub proof fn lemma_region_decomp(r: Seq<u8>)
    requires
        forall|i: int| 0 <= i < r.len() ==> r[i] != 93,
    ensures
        ser_toks(toks_of(r)) + trail_of(r) == r,
        ws_only(trail_of(r)),
        wf_toks(toks_of(r)),
    decreases r.len(),
{
    let w = ws_end(r, 0);
    lemma_ws_end(r, 0);
    if w >= r.len() {
        assert(ser_toks(toks_of(r)) + trail_of(r) =~= r);
    } else {
        let e = nonws_end(r, w);
        lemma_nonws_end(r, w);
        let rest = r.subrange(e, r.len() as int);
        lemma_region_decomp(rest);
        let t0 = Tok { lead: r.subrange(0, w), entry: r.subrange(w, e) };
        assert(toks_of(r) == seq![t0] + toks_of(rest));
        lemma_ser_toks_concat(seq![t0], toks_of(rest));
        lemma_ser_toks_singleton(t0);
        assert(ser_toks(toks_of(r)) + trail_of(r) =~= r) by {
            assert(ser_toks(toks_of(rest)) + trail_of(rest) == rest);
            assert(r =~= r.subrange(0, w) + r.subrange(w, e) + rest);
        }
        assert(wf_toks(toks_of(r))) by {
            assert(valid_entry(t0.entry));
            assert forall|k: int| 0 <= k < toks_of(r).len() implies wf_tok(
                #[trigger] toks_of(r)[k],
                k == 0,
            ) by {
                if k > 0 {
                    assert(toks_of(r)[k] == toks_of(rest)[k - 1]);
                    assert(wf_tok(toks_of(rest)[k - 1], k - 1 == 0));
                    if k - 1 == 0 {
                        // the first token of the rest begins with the
                        // whitespace byte that ended the entry before it
                        let w2 = ws_end(rest, 0);
                        lemma_ws_end(rest, 0);
                        assert(toks_of(rest).len() > 0);
                        assert(is_ws(rest[0]));
                        assert(w2 > 0);
                        assert(toks_of(rest)[0].lead == rest.subrange(0, w2));
                    }
                }
            }
        }
    }
}

/// Parsing inverts serialization: a well-formed token list followed by
/// trailing whitespace reads back as exactly those tokens and that trail.
pub proof fn lemma_parse_of_ser(ts: Seq<Tok>, tr: Seq<u8>)
    requires
        wf_toks(ts),
        ws_only(tr),
    ensures
        toks_of(ser_toks(ts) + tr) == ts,
        trail_of(ser_toks(ts) + tr) == tr,
    decreases ts.len(),
{
    let s = ser_toks(ts) + tr;
    if ts.len() == 0 {
        assert(s =~= tr);
        lemma_ws_end_is(s, 0, s.len() as int);
        assert(toks_of(s) =~= ts);
    } else {
        let t0 = ts[0];
        let l = t0.lead.len() as int;
        let e0 = l + t0.entry.len();
        let rest = ser_toks(ts.drop_first()) + tr;
        assert(s =~= t0.lead + t0.entry + rest);
        assert(wf_tok(ts[0], true));
        assert(ws_end(s, 0) == l) by {
            lemma_ws_end_is(s, 0, l);
        }
        assert(nonws_end(s, l) == e0) by {
            if ts.len() > 1 {
                assert(wf_tok(ts[1], false));
                assert(ser_toks(ts.drop_first()) =~= ts[1].lead + ts[1].entry + ser_toks(
                    ts.drop_first().drop_first(),
                ));
                assert(e0 < s.len() && is_ws(s[e0]));
            } else {
                assert(ser_toks(ts.drop_first()) =~= Seq::<u8>::empty());
                assert(rest =~= tr);
            }
            lemma_nonws_end_is(s, l, e0);
        }
        assert(wf_toks(ts.drop_first())) by {
            assert forall|k: int| 0 <= k < ts.drop_first().len() implies wf_tok(
                #[trigger] ts.drop_first()[k],
                k == 0,
            ) by {
                assert(ts.drop_first()[k] == ts[k + 1]);
                assert(wf_tok(ts[k + 1], false));
            }
        }
        lemma_parse_of_ser(ts.drop_first(), tr);
        assert(s.subrange(e0, s.len() as int) =~= rest);
        assert(s.subrange(0, l) =~= t0.lead);
        assert(s.subrange(l, e0) =~= t0.entry);
        assert(toks_of(s) == seq![Tok { lead: t0.lead, entry: t0.entry }] + ts.drop_first());
        assert(Tok { lead: t0.lead, entry: t0.entry } == t0);
        assert(toks_of(s) =~= ts);
        assert(trail_of(s) == tr);
    }
}

/// Bytes that may occur inside an attribute path; the byte before a
/// binding must not be one, so that `path` matches whole names only.
pub open spec fn is_ident_byte(b: u8) -> bool {
    (48 <= b <= 57) || (65 <= b <= 90) || (97 <= b <= 122) || b == 46 || b == 95 || b == 45
}

/// A well-formed attribute path, such as the one naming the system
/// package list.
pub open spec fn valid_path(p: Seq<u8>) -> bool {
    p.len() > 0 && forall|i: int| 0 <= i < p.len() ==> is_ident_byte(#[trigger] p[i])
}

/// A byte that can stand inside a word between the `=` and the bracket:
/// anything but whitespace and the brackets themselves.
pub open spec fn is_word_byte(b: u8) -> bool {
    !is_ws(b) && b != 91 && b != 93
}

/// The end of the word that starts at `i`.
pub open spec fn word_end(s: Seq<u8>, i: int) -> int
    decreases s.len() - i,
    when 0 <= i <= s.len()
{
    if i < s.len() && is_word_byte(s[i]) {
        word_end(s, i + 1)
    } else {
        i
    }
}

pub proof fn lemma_word_end(s: Seq<u8>, i: int)
    requires
        0 <= i <= s.len(),
    ensures
        i <= word_end(s, i) <= s.len(),
        forall|k: int| i <= k < word_end(s, i) ==> is_word_byte(#[trigger] s[k]),
        word_end(s, i) < s.len() ==> !is_word_byte(s[word_end(s, i)]),
    decreases s.len() - i,
{
    if i < s.len() && is_word_byte(s[i]) {
        lemma_word_end(s, i + 1);
    }
}

pub proof fn lemma_word_end_is(s: Seq<u8>, i: int, j: int)
    requires
        0 <= i <= j <= s.len(),
        forall|k: int| i <= k < j ==> is_word_byte(#[trigger] s[k]),
        j < s.len() ==> !is_word_byte(s[j]),
    ensures
        word_end(s, i) == j,
    decreases j - i,
{
    if i < j {
        lemma_word_end_is(s, i + 1, j);
    }
}

/// The keyword that may bring a namespace into scope before the array.
pub open spec fn with_kw() -> Seq<u8> {
    crate::bytes::lit("with"@)
}

/// The keyword is four bytes, none of them a bracket.
pub proof fn lemma_with_kw()
    ensures
        with_kw().len() == 4,
        forall|j: int| 0 <= j < with_kw().len() ==> #[trigger] with_kw()[j] != 91
            && with_kw()[j] != 93,
{
    reveal_strlit("with");
    assert(with_kw().len() == 4);
    assert forall|j: int| 0 <= j < with_kw().len() implies #[trigger] with_kw()[j] != 91
        && with_kw()[j] != 93 by {
        if j == 0 {
            assert(with_kw()[0] == 'w' as u8);
        } else if j == 1 {
            assert(with_kw()[1] == 'i' as u8);
        } else if j == 2 {
            assert(with_kw()[2] == 't' as u8);
        } else {
            assert(j == 3);
            assert(with_kw()[3] == 'h' as u8);
        }
    }
}

/// If `i` starts a binding `path = [`, or `path = with <namespace>; [`,
/// the position of its opening bracket.
pub open spec fn site_open(doc: Seq<u8>, path: Seq<u8>, i: int) -> Option<int> {
    if match_at(doc, path, i) && (i == 0 || !is_ident_byte(doc[i - 1])) {
        let a = ws_end(doc, i + path.len());
        if a < doc.len() && doc[a] == 61 {
            let b = ws_end(doc, a + 1);
            if b < doc.len() && doc[b] == 91 {
                Some(b)
            } else if match_at(doc, with_kw(), b) && b + 4 < doc.len() && is_ws(doc[b + 4]) {
                let c = ws_end(doc, b + 5);
                let d = word_end(doc, c);
                if d > c && doc[d - 1] == 59 {
                    let e = ws_end(doc, d);
                    if e < doc.len() && doc[e] == 91 {
                        Some(e)
                    } else {
                        None
                    }
                } else {
                    None
                }
            } else {
                None
            }
        } else {
            None
        }
    } else {
        None
    }
}

/// The first binding of `path` at or after `i`.
pub open spec fn first_site(doc: Seq<u8>, path: Seq<u8>, i: int) -> Option<int>
    decreases doc.len() - i,
{
    if path.len() == 0 || i + path.len() > doc.len() {
        None
    } else if site_open(doc, path, i) is Some {
        Some(i)
    } else if i + path.len() == doc.len() {
        None
    } else {
        first_site(doc, path, i + 1)
    }
}

/// The first closing bracket at or after `i`.
pub open spec fn first_close(s: Seq<u8>, i: int) -> Option<int>
    decreases s.len() - i,
{
    if i < 0 || i >= s.len() {
        None
    } else if s[i] == 93 {
        Some(i)
    } else {
        first_close(s, i + 1)
    }
}

pub proof fn lemma_first_site(doc: Seq<u8>, path: Seq<u8>, i: int)
    requires
        0 <= i,
        path.len() > 0,
    ensures
        (match first_site(doc, path, i) {
            Some(s) => i <= s && site_open(doc, path, s) is Some && (forall|k: int|
                i <= k < s ==> site_open(doc, path, k) is None),
            None => forall|k: int| i <= k ==> site_open(doc, path, k) is None,
        }),
    decreases doc.len() - i,
{
    if i + path.len() > doc.len() {
        assert forall|k: int| i <= k implies site_open(doc, path, k) is None by {
            if match_at(doc, path, k) {
                assert(k + path.len() <= doc.len());
            }
        }
    } else if site_open(doc, path, i) is Some {
    } else if i + path.len() == doc.len() {
        assert forall|k: int| i <= k implies site_open(doc, path, k) is None by {
            if k > i && match_at(doc, path, k) {
                assert(k + path.len() <= doc.len());
            }
        }
    } else {
        lemma_first_site(doc, path, i + 1);
    }
}

/// If `path` binds at `s` and nowhere earlier, the scan finds `s`.
pub proof fn lemma_first_site_is(doc: Seq<u8>, path: Seq<u8>, i: int, s: int)
    requires
        0 <= i <= s,
        path.len() > 0,
        s + path.len() <= doc.len(),
        site_open(doc, path, s) is Some,
        forall|k: int| i <= k < s ==> site_open(doc, path, k) is None,
    ensures
        first_site(doc, path, i) == Some(s),
    decreases s - i,
{
    if i < s {
        lemma_first_site_is(doc, path, i + 1, s);
    }
}

pub proof fn lemma_first_close(s: Seq<u8>, i: int)
    requires
        0 <= i,
    ensures
        (match first_close(s, i) {
            Some(c) => i <= c < s.len() && s[c] == 93 && (forall|k: int|
                i <= k < c ==> s[k] != 93),
            None => forall|k: int| i <= k < s.len() ==> s[k] != 93,
        }),
    decreases s.len() - i,
{
    if i < s.len() && s[i] != 93 {
        lemma_first_close(s, i + 1);
    }
}

pub proof fn lemma_first_close_is(s: Seq<u8>, i: int, j: int)
    requires
        0 <= i <= j < s.len(),
        s[j] == 93,
        forall|k: int| i <= k < j ==> s[k] != 93,
    ensures
        first_close(s, i) == Some(j),
    decreases j - i,
{
    if i < j {
        lemma_first_close_is(s, i + 1, j);
    }
}

/// The model of a document with respect to one attribute path: the
/// positions of the brackets of its array literal, the entries between
/// them, and the trailing whitespace.
pub struct ArrayModel {
    pub site: int,
    pub open_pos: int,
    pub close_pos: int,
    pub toks: Seq<Tok>,
    pub trail: Seq<u8>,
}

pub open spec fn doc_model(doc: Seq<u8>, path: Seq<u8>) -> Option<ArrayModel> {
    if !valid_path(path) {
        None
    } else {
        match first_site(doc, path, 0) {
            None => None,
            Some(site) => {
                let opn = site_open(doc, path, site)->Some_0;
                match first_close(doc, opn + 1) {
                    None => None,
                    Some(close) => {
                        let region = doc.subrange(opn + 1, close);
                        Some(
                            ArrayModel {
                                site: site,
                                open_pos: opn,
                                close_pos: close,
                                toks: toks_of(region),
                                trail: trail_of(region),
                            },
                        )
                    },
                }
            },
        }
    }
}

/// Everything a model tells about its document: bracket positions,
/// well-formed tokens, and the exact four-way decomposition.
pub proof fn lemma_doc_model(doc: Seq<u8>, path: Seq<u8>)
    requires
        doc_model(doc, path) is Some,
    ensures
        ({
            let m = doc_model(doc, path)->Some_0;
            &&& valid_path(path)
            &&& 0 <= m.site
            &&& m.site + path.len() < m.open_pos
            &&& m.open_pos < m.close_pos < doc.len()
            &&& doc[m.open_pos] == 91
            &&& doc[m.close_pos] == 93
            &&& first_site(doc, path, 0) == Some(m.site)
            &&& site_open(doc, path, m.site) == Some(m.open_pos)
            &&& first_close(doc, m.open_pos + 1) == Some(m.close_pos)
            &&& m.toks == toks_of(doc.subrange(m.open_pos + 1, m.close_pos))
            &&& m.trail == trail_of(doc.subrange(m.open_pos + 1, m.close_pos))
            &&& wf_toks(m.toks)
            &&& ws_only(m.trail)
            &&& doc =~= doc.subrange(0, m.open_pos + 1) + ser_toks(m.toks) + m.trail
                + doc.subrange(m.close_pos, doc.len() as int)
        }),
{
    let m = doc_model(doc, path)->Some_0;
    let site = first_site(doc, path, 0)->Some_0;
    lemma_first_site(doc, path, 0);
    let opn = site_open(doc, path, site)->Some_0;
    assert(match_at(doc, path, site));
    let a = ws_end(doc, site + path.len());
    lemma_ws_end(doc, site + path.len());
    assert(a < doc.len() && doc[a] == 61);
    let b = ws_end(doc, a + 1);
    lemma_ws_end(doc, a + 1);
    if b < doc.len() && doc[b] == 91 {
        assert(opn == b);
    } else {
        let c = ws_end(doc, b + 5);
        lemma_ws_end(doc, b + 5);
        let d = word_end(doc, c);
        lemma_word_end(doc, c);
        let e = ws_end(doc, d);
        lemma_ws_end(doc, d);
        assert(opn == e);
        assert(site + path.len() < opn);
    }
    assert(doc[opn] == 91 && site + path.len() < opn && opn < doc.len());
    let close = first_close(doc, opn + 1)->Some_0;
    lemma_first_close(doc, opn + 1);
    let region = doc.subrange(opn + 1, close);
    assert(forall|i: int| 0 <= i < region.len() ==> region[i] != 93);
    lemma_region_decomp(region);
    assert(doc =~= doc.subrange(0, opn + 1) + region + doc.subrange(close, doc.len() as int));
    assert(doc =~= doc.subrange(0, opn + 1) + ser_toks(m.toks) + m.trail + doc.subrange(
        close,
        doc.len() as int,
    ));
}

/// No closing bracket hides in serialized well-formed tokens.
pub proof fn lemma_ser_no_close(ts: Seq<Tok>)
    requires
        wf_toks(ts),
    ensures
        forall|i: int| 0 <= i < ser_toks(ts).len() ==> ser_toks(ts)[i] != 93,
    decreases ts.len(),
{
    if ts.len() > 0 {
        assert(wf_tok(ts[0], true));
        assert(wf_toks(ts.drop_first())) by {
            assert forall|k: int| 0 <= k < ts.drop_first().len() implies wf_tok(
                #[trigger] ts.drop_first()[k],
                k == 0,
            ) by {
                assert(ts.drop_first()[k] == ts[k + 1]);
                assert(wf_tok(ts[k + 1], false));
            }
        }
        lemma_ser_no_close(ts.drop_first());
        let l = ts[0].lead.len() as int;
        let e = l + ts[0].entry.len();
        assert forall|i: int| 0 <= i < ser_toks(ts).len() implies ser_toks(ts)[i] != 93 by {
            if i < l {
                assert(ser_toks(ts)[i] == ts[0].lead[i]);
                assert(is_ws(ts[0].lead[i]));
            } else if i < e {
                assert(ser_toks(ts)[i] == ts[0].entry[i - l]);
            } else {
                assert(ser_toks(ts)[i] == ser_toks(ts.drop_first())[i - e]);
            }
        }
    }
}

/// A whitespace scan that starts at or before the opening bracket stops
/// at or before it, and reads the same bytes in any document that shares
/// the prefix through the bracket.
proof fn lemma_ws_end_agree(doc: Seq<u8>, d2: Seq<u8>, opn: int, p: int)
    requires
        0 <= p <= opn < doc.len(),
        opn < d2.len(),
        doc[opn] == 91,
        forall|i: int| 0 <= i <= opn ==> d2[i] == doc[i],
    ensures
        ws_end(d2, p) == ws_end(doc, p),
        p <= ws_end(doc, p) <= opn,
{
    lemma_ws_end(doc, p);
    let w = ws_end(doc, p);
    assert(w <= opn) by {
        if w > opn {
            assert(is_ws(doc[opn]));
        }
    }
    lemma_ws_end_is(d2, p, w);
}

/// The same, for a word scan.
proof fn lemma_word_end_agree(doc: Seq<u8>, d2: Seq<u8>, opn: int, p: int)
    requires
        0 <= p <= opn < doc.len(),
        opn < d2.len(),
        doc[opn] == 91,
        forall|i: int| 0 <= i <= opn ==> d2[i] == doc[i],
    ensures
        word_end(d2, p) == word_end(doc, p),
        p <= word_end(doc, p) <= opn,
{
    lemma_word_end(doc, p);
    let w = word_end(doc, p);
    assert(w <= opn) by {
        if w > opn {
            assert(is_word_byte(doc[opn]));
        }
    }
    lemma_word_end_is(d2, p, w);
}

/// Whether a binding of `path` starts at `k` is decided by the bytes up
/// to the opening bracket alone, for any `k` whose pattern lies before
/// the bracket: every scan in the decision is blocked by the bracket.
proof fn lemma_site_open_agree(doc: Seq<u8>, d2: Seq<u8>, path: Seq<u8>, opn: int, k: int)
    requires
        valid_path(path),
        0 <= k,
        k + path.len() <= opn,
        opn < doc.len(),
        opn < d2.len(),
        doc[opn] == 91,
        forall|i: int| 0 <= i <= opn ==> d2[i] == doc[i],
    ensures
        site_open(d2, path, k) == site_open(doc, path, k),
{
    let plen = path.len() as int;
    lemma_with_kw();
    assert(match_at(d2, path, k) == match_at(doc, path, k)) by {
        if match_at(doc, path, k) {
            assert(d2.subrange(k, k + plen) =~= doc.subrange(k, k + plen));
        }
        if match_at(d2, path, k) {
            assert(d2.subrange(k, k + plen) =~= doc.subrange(k, k + plen));
        }
    }
    if match_at(doc, path, k) && (k == 0 || !is_ident_byte(doc[k - 1])) {
        lemma_ws_end_agree(doc, d2, opn, k + plen);
        let a = ws_end(doc, k + plen);
        assert(d2[a] == doc[a]);
        if a < doc.len() && doc[a] == 61 {
            assert(a < opn);
            lemma_ws_end_agree(doc, d2, opn, a + 1);
            let b = ws_end(doc, a + 1);
            assert(d2[b] == doc[b]);
            if b < doc.len() && doc[b] == 91 {
                assert(site_open(d2, path, k) == Some(b));
            } else {
                assert(match_at(d2, with_kw(), b) == match_at(doc, with_kw(), b)) by {
                    if b + 4 <= opn {
                        if match_at(doc, with_kw(), b) {
                            assert(d2.subrange(b, b + 4) =~= doc.subrange(b, b + 4));
                        }
                        if match_at(d2, with_kw(), b) {
                            assert(d2.subrange(b, b + 4) =~= doc.subrange(b, b + 4));
                        }
                    } else {
                        // the keyword cannot straddle the bracket
                        if match_at(doc, with_kw(), b) {
                            assert(doc.subrange(b, b + 4)[opn - b] == doc[opn]);
                        }
                        if match_at(d2, with_kw(), b) {
                            assert(d2.subrange(b, b + 4)[opn - b] == d2[opn]);
                            assert(d2[opn] == doc[opn]);
                        }
                    }
                }
                if match_at(doc, with_kw(), b) && b + 4 < doc.len() && is_ws(doc[b + 4]) {
                    assert(b + 4 <= opn) by {
                        if b + 4 > opn {
                            assert(doc.subrange(b, b + 4)[opn - b] == doc[opn]);
                        }
                    }
                    assert(b + 4 < opn) by {
                        if b + 4 == opn {
                            assert(is_ws(doc[opn]));
                        }
                    }
                    assert(d2[b + 4] == doc[b + 4]);
                    lemma_ws_end_agree(doc, d2, opn, b + 5);
                    let c = ws_end(doc, b + 5);
                    lemma_word_end_agree(doc, d2, opn, c);
                    let d = word_end(doc, c);
                    if d > c && doc[d - 1] == 59 {
                        assert(d2[d - 1] == doc[d - 1]);
                        lemma_ws_end_agree(doc, d2, opn, d);
                        let e = ws_end(doc, d);
                        assert(d2[e] == doc[e]);
                        assert(site_open(d2, path, k) == site_open(doc, path, k));
                    } else {
                        assert(d2[d - 1] == doc[d - 1] || d == c);
                        assert(site_open(d2, path, k) is None);
                    }
                } else {
                    if match_at(doc, with_kw(), b) {
                        assert(b + 4 <= opn) by {
                            if b + 4 > opn {
                                assert(doc.subrange(b, b + 4)[opn - b] == doc[opn]);
                            }
                        }
                        assert(d2[b + 4] == doc[b + 4]);
                    }
                    assert(site_open(d2, path, k) is None);
                }
            }
        } else {
            assert(a < doc.len());
            assert(site_open(d2, path, k) is None);
        }
    } else {
        if k > 0 {
            assert(d2[k - 1] == doc[k - 1]);
        }
        assert(site_open(d2, path, k) is None);
    }
}

/// Splicing a fresh token list and trail between the brackets yields a
/// document whose model is exactly that list: the attribute still binds
/// at the same place, nothing before the opening bracket or after the
/// closing one has moved, and the closing bracket is the first one after
/// the new region.
#[verifier::rlimit(60)]
pub proof fn lemma_splice_model(doc: Seq<u8>, path: Seq<u8>, ts2: Seq<Tok>, tr2: Seq<u8>)
    requires
        doc_model(doc, path) is Some,
        wf_toks(ts2),
        ws_only(tr2),
    ensures
        ({
            let m = doc_model(doc, path)->Some_0;
            let d2 = doc.subrange(0, m.open_pos + 1) + ser_toks(ts2) + tr2 + doc.subrange(
                m.close_pos,
                doc.len() as int,
            );
            doc_model(d2, path) == Some(
                ArrayModel {
                    site: m.site,
                    open_pos: m.open_pos,
                    close_pos: m.open_pos + 1 + ser_toks(ts2).len() + tr2.len(),
                    toks: ts2,
                    trail: tr2,
                },
            )
        }),
{
    lemma_doc_model(doc, path);
    let m = doc_model(doc, path)->Some_0;
    let pre = m.open_pos + 1;
    let reg2 = ser_toks(ts2) + tr2;
    let d2 = doc.subrange(0, pre) + ser_toks(ts2) + tr2 + doc.subrange(
        m.close_pos,
        doc.len() as int,
    );
    let close2 = pre + reg2.len();
    let site = m.site;
    let plen = path.len() as int;

    assert(forall|k: int| 0 <= k < pre ==> d2[k] == doc[k]);
    assert(d2.len() == close2 + doc.len() - m.close_pos);

    // the closing bracket of the new document
    lemma_ser_no_close(ts2);
    assert(forall|k: int| pre <= k < close2 ==> d2[k] == reg2[k - pre]);
    assert(forall|k: int| pre <= k < close2 ==> d2[k] != 93);
    assert(d2[close2] == doc[m.close_pos]);
    lemma_first_close_is(d2, pre, close2);

    // the binding site and everything before the bracket are unchanged:
    // every scan that decides a site at or before it is blocked by the
    // opening bracket and so reads only shared bytes
    assert(site_open(doc, path, site) == Some(m.open_pos));
    assert(site + plen < m.open_pos);
    assert(m.open_pos < d2.len());
    lemma_first_site(doc, path, 0);
    assert forall|k: int| 0 <= k <= site implies site_open(d2, path, k) == site_open(
        doc,
        path,
        k,
    ) by {
        lemma_site_open_agree(doc, d2, path, m.open_pos, k);
    }
    assert(site_open(d2, path, site) == Some(m.open_pos));
    assert(forall|k: int| 0 <= k < site ==> site_open(d2, path, k) is None);
    lemma_first_site_is(d2, path, 0, site);

    // the region between the brackets reads back as the spliced tokens
    assert(d2.subrange(pre, close2) =~= reg2);
    lemma_parse_of_ser(ts2, tr2);
    assert(toks_of(d2.subrange(pre, close2)) == ts2);
    assert(trail_of(d2.subrange(pre, close2)) == tr2);
}

/// The entries listed by a token sequence.
pub open spec fn entries_of(ts: Seq<Tok>) -> Seq<Seq<u8>> {
    Seq::new(ts.len(), |i: int| ts[i].entry)
}

/// Some token already names this package, in either spelling.
pub open spec fn entry_present(ts: Seq<Tok>, e: Seq<u8>) -> bool {
    exists|k: int| 0 <= k < ts.len() && same_pkg((#[trigger] ts[k]).entry, e)
}

/// The entry names a package that some requested identifier names.
pub open spec fn matches_any(e: Seq<u8>, ids: Seq<Seq<u8>>) -> bool {
    exists|k: int| 0 <= k < ids.len() && same_pkg(e, #[trigger] ids[k])
}

/// A new entry, set off from the one before it by a single space.
pub open spec fn space_tok(e: Seq<u8>) -> Tok {
    Tok { lead: seq![32u8], entry: e }
}

/// The tokens that an add appends: one per requested entry that is not
/// already present, each checked against the array as grown so far, so
/// that no duplicate is ever written.
pub open spec fn new_toks(ts: Seq<Tok>, es: Seq<Seq<u8>>) -> Seq<Tok>
    decreases es.len(),
{
    if es.len() == 0 {
        Seq::empty()
    } else if entry_present(ts, es[0]) {
        new_toks(ts, es.drop_first())
    } else {
        seq![space_tok(es[0])] + new_toks(ts.push(space_tok(es[0])), es.drop_first())
    }
}

/// The tokens that survive a removal: those naming no requested package.
pub open spec fn kept_toks(ts: Seq<Tok>, ids: Seq<Seq<u8>>) -> Seq<Tok>
    decreases ts.len(),
{
    if ts.len() == 0 {
        Seq::empty()
    } else if matches_any(ts[0].entry, ids) {
        kept_toks(ts.drop_first(), ids)
    } else {
        seq![ts[0]] + kept_toks(ts.drop_first(), ids)
    }
}

/// What reading the array attribute returns.
pub open spec fn spec_read(doc: Seq<u8>, path: Seq<u8>) -> Option<Seq<Seq<u8>>> {
    match doc_model(doc, path) {
        Some(m) => Some(entries_of(m.toks)),
        None => None,
    }
}

/// The document after adding entries, byte for byte: everything up to
/// the last entry is untouched, the net-new entries follow it, and the
/// trailing whitespace and the rest of the document are untouched.
pub open spec fn spec_add(doc: Seq<u8>, path: Seq<u8>, es: Seq<Seq<u8>>) -> Option<Seq<u8>> {
    match doc_model(doc, path) {
        Some(m) => Some(
            doc.subrange(0, m.open_pos + 1) + ser_toks(m.toks + new_toks(m.toks, es)) + m.trail
                + doc.subrange(m.close_pos, doc.len() as int),
        ),
        None => None,
    }
}

/// The document after removing every entry that names a requested
/// package, in either spelling.
pub open spec fn spec_remove(doc: Seq<u8>, path: Seq<u8>, ids: Seq<Seq<u8>>) -> Option<Seq<u8>> {
    match doc_model(doc, path) {
        Some(m) => Some(
            doc.subrange(0, m.open_pos + 1) + ser_toks(kept_toks(m.toks, ids)) + m.trail
                + doc.subrange(m.close_pos, doc.len() as int),
        ),
        None => None,
    }
}

/// Removing the one freshly added entry gives back exactly the old
/// tokens, provided none of them named that package already.
pub proof fn lemma_kept_of_append(ts: Seq<Tok>, x: Seq<u8>)
    requires
        !entry_present(ts, x),
    ensures
        kept_toks(ts + seq![space_tok(x)], seq![x]) == ts,
    decreases ts.len(),
{
    let xt = space_tok(x);
    let whole = ts + seq![xt];
    if ts.len() == 0 {
        assert(whole =~= seq![xt]);
        assert(whole[0] == xt);
        assert(matches_any(whole[0].entry, seq![x])) by {
            assert(same_pkg(xt.entry, seq![x][0]));
        }
        assert(whole.drop_first() =~= Seq::<Tok>::empty());
        assert(kept_toks(whole, seq![x]) == kept_toks(Seq::<Tok>::empty(), seq![x]));
        assert(kept_toks(Seq::<Tok>::empty(), seq![x]) =~= ts);
    } else {
        assert(!matches_any(ts[0].entry, seq![x])) by {
            if matches_any(ts[0].entry, seq![x]) {
                assert(same_pkg(ts[0].entry, x));
                assert(entry_present(ts, x));
            }
        }
        assert(!entry_present(ts.drop_first(), x)) by {
            if entry_present(ts.drop_first(), x) {
                let k = choose|k: int|
                    0 <= k < ts.drop_first().len() && same_pkg(
                        (#[trigger] ts.drop_first()[k]).entry,
                        x,
                    );
                assert(ts.drop_first()[k] == ts[k + 1]);
                assert(entry_present(ts, x));
            }
        }
        lemma_kept_of_append(ts.drop_first(), x);
        assert(whole.drop_first() =~= ts.drop_first() + seq![xt]);
        assert(kept_toks(whole, seq![x]) =~= ts);
    }
}

/// Every token an add appends is a well-formed spaced entry drawn from
/// the requested list.
pub proof fn lemma_new_toks_wf(ts: Seq<Tok>, es: Seq<Seq<u8>>)
    requires
        forall|k: int| 0 <= k < es.len() ==> valid_entry(#[trigger] es[k]),
    ensures
        forall|j: int| 0 <= j < new_toks(ts, es).len() ==> wf_tok(#[trigger] new_toks(ts, es)[j], false),
    decreases es.len(),
{
    if es.len() > 0 {
        let rest = es.drop_first();
        assert(forall|k: int| 0 <= k < rest.len() ==> #[trigger] rest[k] == es[k + 1]);
        if entry_present(ts, es[0]) {
            lemma_new_toks_wf(ts, rest);
            assert(new_toks(ts, es) == new_toks(ts, rest));
        } else {
            let xt = space_tok(es[0]);
            assert(wf_tok(xt, false)) by {
                assert(forall|i: int| 0 <= i < seq![32u8].len() ==> seq![32u8][i] == 32);
            }
            lemma_new_toks_wf(ts.push(xt), rest);
            assert forall|j: int| 0 <= j < new_toks(ts, es).len() implies wf_tok(
                #[trigger] new_toks(ts, es)[j],
                false,
            ) by {
                if j == 0 {
                    assert(new_toks(ts, es)[0] == xt);
                } else {
                    assert(new_toks(ts, es)[j] == new_toks(ts.push(xt), rest)[j - 1]);
                }
            }
        }
    }
}

/// Tokens kept by a removal stay well formed.
pub proof fn lemma_kept_toks_wf(ts: Seq<Tok>, ids: Seq<Seq<u8>>)
    requires
        wf_toks(ts),
    ensures
        wf_toks(kept_toks(ts, ids)),
    decreases ts.len(),
{
    if ts.len() > 0 {
        let rest = ts.drop_first();
        assert(wf_toks(rest)) by {
            assert forall|k: int| 0 <= k < rest.len() implies wf_tok(#[trigger] rest[k], k == 0) by {
                assert(rest[k] == ts[k + 1]);
                assert(wf_tok(ts[k + 1], false));
            }
        }
        lemma_kept_toks_wf(rest, ids);
        // whatever survives from the tail carried leading whitespace
        assert(forall|j: int|
            0 <= j < kept_toks(rest, ids).len() ==> wf_tok(#[trigger] kept_toks(rest, ids)[j], j == 0));
        assert forall|j: int| 0 <= j < kept_toks(rest, ids).len() implies wf_tok(
            #[trigger] kept_toks(rest, ids)[j],
            false,
        ) by {
            lemma_kept_from_tail(ts, ids, j);
        }
        if matches_any(ts[0].entry, ids) {
        } else {
            assert(wf_tok(ts[0], true));
            assert(forall|j: int|
                1 <= j < kept_toks(ts, ids).len() ==> #[trigger] kept_toks(ts, ids)[j] == kept_toks(
                    rest,
                    ids,
                )[j - 1]);
        }
    }
}

/// A token kept from the tail of a list was not the list's first token,
/// so it carries leading whitespace of its own.
proof fn lemma_kept_from_tail(ts: Seq<Tok>, ids: Seq<Seq<u8>>, j: int)
    requires
        wf_toks(ts),
        ts.len() > 0,
        0 <= j < kept_toks(ts.drop_first(), ids).len(),
    ensures
        wf_tok(kept_toks(ts.drop_first(), ids)[j], false),
{
    lemma_kept_elems(ts.drop_first(), ids, j);
    let i = choose|i: int|
        0 <= i < ts.drop_first().len() && ts.drop_first()[i] == kept_toks(ts.drop_first(), ids)[j];
    assert(ts.drop_first()[i] == ts[i + 1]);
    assert(wf_tok(ts[i + 1], false));
}

/// Every kept token is one of the original tokens.
proof fn lemma_kept_elems(ts: Seq<Tok>, ids: Seq<Seq<u8>>, j: int)
    requires
        0 <= j < kept_toks(ts, ids).len(),
    ensures
        exists|i: int| 0 <= i < ts.len() && ts[i] == kept_toks(ts, ids)[j],
    decreases ts.len(),
{
    if ts.len() > 0 {
        let rest = ts.drop_first();
        if matches_any(ts[0].entry, ids) {
            lemma_kept_elems(rest, ids, j);
            let i = choose|i: int| 0 <= i < rest.len() && rest[i] == kept_toks(rest, ids)[j];
            assert(ts[i + 1] == kept_toks(ts, ids)[j]);
        } else {
            if j == 0 {
                assert(ts[0] == kept_toks(ts, ids)[0]);
            } else {
                assert(kept_toks(ts, ids)[j] == kept_toks(rest, ids)[j - 1]);
                lemma_kept_elems(rest, ids, j - 1);
                let i = choose|i: int| 0 <= i < rest.len() && rest[i] == kept_toks(rest, ids)[j - 1];
                assert(ts[i + 1] == kept_toks(ts, ids)[j]);
            }
        }
    }
}

/// What an add leaves to read back: the old entries, then the net-new
/// ones, in order.
pub proof fn lemma_read_after_add(doc: Seq<u8>, path: Seq<u8>, es: Seq<Seq<u8>>)
    requires
        doc_model(doc, path) is Some,
        forall|k: int| 0 <= k < es.len() ==> valid_entry(#[trigger] es[k]),
    ensures
        ({
            let m = doc_model(doc, path)->Some_0;
            spec_read(spec_add(doc, path, es)->Some_0, path) == Some(
                entries_of(m.toks + new_toks(m.toks, es)),
            )
        }),
{
    lemma_doc_model(doc, path);
    let m = doc_model(doc, path)->Some_0;
    let ts2 = m.toks + new_toks(m.toks, es);
    assert(wf_toks(ts2)) by {
        lemma_new_toks_wf(m.toks, es);
        assert forall|k: int| 0 <= k < ts2.len() implies wf_tok(#[trigger] ts2[k], k == 0) by {
            if k < m.toks.len() {
                assert(ts2[k] == m.toks[k]);
                assert(wf_tok(m.toks[k], k == 0));
            } else {
                assert(ts2[k] == new_toks(m.toks, es)[k - m.toks.len()]);
            }
        }
    }
    lemma_splice_model(doc, path, ts2, m.trail);
}

/// What a removal leaves to read back: exactly the entries that name no
/// removed package.
pub proof fn lemma_read_after_remove(doc: Seq<u8>, path: Seq<u8>, ids: Seq<Seq<u8>>)
    requires
        doc_model(doc, path) is Some,
    ensures
        ({
            let m = doc_model(doc, path)->Some_0;
            spec_read(spec_remove(doc, path, ids)->Some_0, path) == Some(
                entries_of(kept_toks(m.toks, ids)),
            )
        }),
{
    lemma_doc_model(doc, path);
    let m = doc_model(doc, path)->Some_0;
    lemma_kept_toks_wf(m.toks, ids);
    lemma_splice_model(doc, path, kept_toks(m.toks, ids), m.trail);
}

/// Round trip: an entry that was absent can be added and then removed,
/// leaving the document byte-identical to what it was.
pub proof fn lemma_add_remove_round_trip(doc: Seq<u8>, path: Seq<u8>, x: Seq<u8>)
    requires
        valid_entry(x),
        doc_model(doc, path) is Some,
        !entry_present(doc_model(doc, path)->Some_0.toks, x),
    ensures
        spec_add(doc, path, seq![x]) is Some,
        spec_remove(spec_add(doc, path, seq![x])->Some_0, path, seq![x]) == Some(doc),
{
    lemma_doc_model(doc, path);
    let m = doc_model(doc, path)->Some_0;
    let xt = space_tok(x);

    // the add appends exactly one token
    assert(new_toks(m.toks, seq![x]) =~= seq![xt]) by {
        assert(seq![x].drop_first() =~= Seq::<Seq<u8>>::empty());
        assert(new_toks(m.toks.push(xt), Seq::<Seq<u8>>::empty()) =~= Seq::<Tok>::empty());
    }
    let ts2 = m.toks + seq![xt];
    assert(wf_toks(ts2)) by {
        assert(ws_only(seq![32u8])) by {
            assert(forall|i: int| 0 <= i < seq![32u8].len() ==> seq![32u8][i] == 32);
        }
        assert(wf_tok(xt, false));
        assert forall|k: int| 0 <= k < ts2.len() implies wf_tok(#[trigger] ts2[k], k == 0) by {
            if k < m.toks.len() {
                assert(ts2[k] == m.toks[k]);
                assert(wf_tok(m.toks[k], k == 0));
            } else {
                assert(ts2[k] == xt);
            }
        }
    }
    lemma_splice_model(doc, path, ts2, m.trail);
    let d1 = doc.subrange(0, m.open_pos + 1) + ser_toks(ts2) + m.trail + doc.subrange(
        m.close_pos,
        doc.len() as int,
    );
    assert(spec_add(doc, path, seq![x])->Some_0 == d1);
    let m1 = doc_model(d1, path)->Some_0;
    assert(m1.toks == ts2 && m1.trail == m.trail && m1.open_pos == m.open_pos);

    // the removal keeps exactly the old tokens
    lemma_kept_of_append(m.toks, x);
    assert(kept_toks(m1.toks, seq![x]) == m.toks);

    // and reassembles the old document
    let back = d1.subrange(0, m1.open_pos + 1) + ser_toks(m.toks) + m1.trail + d1.subrange(
        m1.close_pos,
        d1.len() as int,
    );
    assert(spec_remove(d1, path, seq![x])->Some_0 == back);
    assert(d1.subrange(0, m.open_pos + 1) =~= doc.subrange(0, m.open_pos + 1));
    assert(d1.subrange(m1.close_pos, d1.len() as int) =~= doc.subrange(
        m.close_pos,
        doc.len() as int,
    ));
    assert(back =~= doc);
}

/// Whitespace test, runnable.
pub fn is_ws_exec(b: u8) -> (r: bool)
    ensures
        r == is_ws(b),
{
    b == 32 || b == 9 || b == 10 || b == 13
}

fn is_ident_byte_exec(b: u8) -> (r: bool)
    ensures
        r == is_ident_byte(b),
{
    (48 <= b && b <= 57) || (65 <= b && b <= 90) || (97 <= b && b <= 122) || b == 46 || b == 95
        || b == 45
}

fn valid_path_exec(p: &[u8]) -> (r: bool)
    ensures
        r == valid_path(p@),
{
    if p.len() == 0 {
        return false;
    }
    let mut i: usize = 0;
    while i < p.len()
        invariant
            i <= p.len(),
            forall|j: int| 0 <= j < i ==> is_ident_byte(#[trigger] p@[j]),
        decreases p.len() - i,
    {
        if !is_ident_byte_exec(p[i]) {
            return false;
        }
        i = i + 1;
    }
    true
}

/// Walks past whitespace.
fn scan_ws(s: &[u8], from: usize) -> (r: usize)
    requires
        from <= s@.len(),
    ensures
        r == ws_end(s@, from as int),
        from <= r <= s@.len(),
{
    proof {
        lemma_ws_end(s@, from as int);
    }
    let mut i = from;
    while i < s.len() && is_ws_exec(s[i])
        invariant
            from <= i <= s@.len(),
            ws_end(s@, from as int) == ws_end(s@, i as int),
        decreases s@.len() - i,
    {
        i = i + 1;
    }
    i
}

/// Walks past an entry.
fn scan_nonws(s: &[u8], from: usize) -> (r: usize)
    requires
        from <= s@.len(),
    ensures
        r == nonws_end(s@, from as int),
        from <= r <= s@.len(),
{
    proof {
        lemma_nonws_end(s@, from as int);
    }
    let mut i = from;
    while i < s.len() && !is_ws_exec(s[i])
        invariant
            from <= i <= s@.len(),
            nonws_end(s@, from as int) == nonws_end(s@, i as int),
        decreases s@.len() - i,
    {
        i = i + 1;
    }
    i
}

/// One array entry with its leading whitespace, as owned bytes.
pub struct ArrTok {
    pub lead: Vec<u8>,
    pub entry: Vec<u8>,
}

impl View for ArrTok {
    type V = Tok;

    open spec fn view(&self) -> Tok {
        Tok { lead: self.lead@, entry: self.entry@ }
    }
}

/// The token views of an owned token list.
pub open spec fn toks_view(v: Seq<ArrTok>) -> Seq<Tok> {
    Seq::new(v.len(), |i: int| v[i]@)
}

/// Splits an array region into its tokens and trailing whitespace.
fn parse_region(region: &[u8]) -> (r: (Vec<ArrTok>, Vec<u8>))
    ensures
        toks_view(r.0@) == toks_of(region@),
        r.1@ == trail_of(region@),
{
    let mut toks: Vec<ArrTok> = Vec::new();
    let mut cur: &[u8] = region;
    loop
        invariant
            toks_of(region@) == toks_view(toks@) + toks_of(cur@),
            trail_of(region@) == trail_of(cur@),
        decreases cur@.len(),
    {
        let w = scan_ws(cur, 0);
        if w == cur.len() {
            let trail = slice_to_vec(cur);
            proof {
                assert(toks_of(cur@) =~= Seq::<Tok>::empty());
                assert(toks_view(toks@) + toks_of(cur@) =~= toks_view(toks@));
            }
            return (toks, trail);
        }
        let e = scan_nonws(cur, w);
        proof {
            lemma_ws_end(cur@, 0);
            lemma_nonws_end(cur@, w as int);
            assert(e > w);
        }
        let lead = slice_to_vec(slice_subrange(cur, 0, w));
        let entry = slice_to_vec(slice_subrange(cur, w, e));
        let ghost prev = toks@;
        toks.push(ArrTok { lead, entry });
        let next = slice_subrange(cur, e, cur.len());
        proof {
            let t0 = Tok { lead: cur@.subrange(0, w as int), entry: cur@.subrange(w as int, e as int) };
            assert(toks_of(cur@) == seq![t0] + toks_of(next@));
            assert(toks_view(toks@) =~= toks_view(prev).push(t0));
            assert(toks_view(prev).push(t0) + toks_of(next@) =~= toks_view(prev) + (seq![t0]
                + toks_of(next@)));
        }
        cur = next;
    }
}

fn is_word_byte_exec(b: u8) -> (r: bool)
    ensures
        r == is_word_byte(b),
{
    !is_ws_exec(b) && b != 91 && b != 93
}

/// Walks past a word.
fn scan_word(s: &[u8], from: usize) -> (r: usize)
    requires
        from <= s@.len(),
    ensures
        r == word_end(s@, from as int),
        from <= r <= s@.len(),
{
    proof {
        lemma_word_end(s@, from as int);
    }
    let mut i = from;
    while i < s.len() && is_word_byte_exec(s[i])
        invariant
            from <= i <= s@.len(),
            word_end(s@, from as int) == word_end(s@, i as int),
        decreases s@.len() - i,
    {
        i = i + 1;
    }
    i
}

fn with_bytes() -> (r: Vec<u8>)
    ensures
        r@ == with_kw(),
{
    proof {
        reveal_strlit("with");
    }
    crate::bytes::ascii("with")
}

/// Finds the first binding of `path` and its opening bracket.
fn find_site(doc: &[u8], path: &[u8]) -> (r: Option<(usize, usize)>)
    requires
        valid_path(path@),
    ensures
        (match r {
            Some(so) => first_site(doc@, path@, 0) == Some(so.0 as int) && site_open(
                doc@,
                path@,
                so.0 as int,
            ) == Some(so.1 as int) && so.1 < doc@.len(),
            None => first_site(doc@, path@, 0) is None,
        }),
{
    let mut i: usize = 0;
    loop
        invariant
            valid_path(path@),
            0 <= i,
            first_site(doc@, path@, 0) == first_site(doc@, path@, i as int),
        decreases doc@.len() + 1 - i,
    {
        if path.len() > doc.len() || i > doc.len() - path.len() {
            return None;
        }
        let boundary_ok = i == 0 || !is_ident_byte_exec(doc[i - 1]);
        if boundary_ok && match_at_exec(doc, path, i) {
            let a = scan_ws(doc, i + path.len());
            if a < doc.len() && doc[a] == 61 {
                let b = scan_ws(doc, a + 1);
                if b < doc.len() && doc[b] == 91 {
                    proof {
                        assert(site_open(doc@, path@, i as int) == Some(b as int));
                    }
                    return Some((i, b));
                }
                let w = with_bytes();
                proof {
                    lemma_with_kw();
                }
                if doc.len() - b > 4 && match_at_exec(doc, w.as_slice(), b) && is_ws_exec(
                    doc[b + 4],
                ) {
                    let c = scan_ws(doc, b + 5);
                    let d = scan_word(doc, c);
                    if d > c && doc[d - 1] == 59 {
                        let e = scan_ws(doc, d);
                        if e < doc.len() && doc[e] == 91 {
                            proof {
                                assert(site_open(doc@, path@, i as int) == Some(e as int));
                            }
                            return Some((i, e));
                        }
                    }
                }
            }
        }
        proof {
            assert(site_open(doc@, path@, i as int) is None);
        }
        if i + path.len() == doc.len() {
            return None;
        }
        i = i + 1;
    }
}

/// Finds the first closing bracket at or after `from`.
fn find_close(doc: &[u8], from: usize) -> (r: Option<usize>)
    requires
        from <= doc@.len(),
    ensures
        (match r {
            Some(c) => first_close(doc@, from as int) == Some(c as int),
            None => first_close(doc@, from as int) is None,
        }),
{
    let mut i = from;
    while i < doc.len() && doc[i] != 93
        invariant
            from <= i <= doc@.len(),
            first_close(doc@, from as int) == first_close(doc@, i as int),
        decreases doc@.len() - i,
    {
        i = i + 1;
    }
    if i < doc.len() {
        Some(i)
    } else {
        None
    }
}

/// A document taken apart around one array attribute: the bytes through
/// the opening bracket, the tokens, the trailing whitespace, and the
/// bytes from the closing bracket on.
pub struct ParsedArray {
    pub before: Vec<u8>,
    pub toks: Vec<ArrTok>,
    pub trail: Vec<u8>,
    pub after: Vec<u8>,
}

impl ParsedArray {
    /// The parts are exactly what the document's model says.
    pub open spec fn matches(&self, doc: Seq<u8>, path: Seq<u8>) -> bool {
        let m = doc_model(doc, path)->Some_0;
        &&& doc_model(doc, path) is Some
        &&& self.before@ == doc.subrange(0, m.open_pos + 1)
        &&& toks_view(self.toks@) == m.toks
        &&& self.trail@ == m.trail
        &&& self.after@ == doc.subrange(m.close_pos, doc.len() as int)
    }
}

/// Takes a document apart around the array bound to `path`.
pub fn parse_doc(doc: &Vec<u8>, path: &Vec<u8>) -> (r: Result<ParsedArray, SnowError>)
    ensures
        (match r {
            Ok(p) => doc_model(doc@, path@) is Some && p.matches(doc@, path@),
            Err(e) => doc_model(doc@, path@) is None && e == SnowError::StructuralEdit,
        }),
{
    if !valid_path_exec(path.as_slice()) {
        return Err(SnowError::StructuralEdit);
    }
    let so = find_site(doc.as_slice(), path.as_slice());
    match so {
        None => Err(SnowError::StructuralEdit),
        Some((site, opn)) => {
            let dl = doc.len();
            proof {
                assert(opn < dl);
            }
            match find_close(doc.as_slice(), opn + 1) {
                None => Err(SnowError::StructuralEdit),
                Some(close) => {
                    proof {
                        lemma_first_close(doc@, opn + 1);
                    }
                    let region = slice_subrange(doc.as_slice(), opn + 1, close);
                    let (toks, trail) = parse_region(region);
                    let before = slice_to_vec(slice_subrange(doc.as_slice(), 0, opn + 1));
                    let after = slice_to_vec(slice_subrange(doc.as_slice(), close, dl));
                    Ok(ParsedArray { before, toks, trail, after })
                },
            }
        },
    }
}

/// Puts a document back together from its parts.
pub fn unparse(p: &ParsedArray) -> (r: Vec<u8>)
    ensures
        r@ == p.before@ + ser_toks(toks_view(p.toks@)) + p.trail@ + p.after@,
{
    let mut out: Vec<u8> = Vec::new();
    out.extend_from_slice(p.before.as_slice());
    let mut i: usize = 0;
    while i < p.toks.len()
        invariant
            i <= p.toks@.len(),
            out@ == p.before@ + ser_toks(toks_view(p.toks@.subrange(0, i as int))),
        decreases p.toks@.len() - i,
    {
        let ghost sofar = toks_view(p.toks@.subrange(0, i as int));
        out.extend_from_slice(p.toks[i].lead.as_slice());
        out.extend_from_slice(p.toks[i].entry.as_slice());
        proof {
            let t = p.toks@[i as int]@;
            assert(toks_view(p.toks@.subrange(0, i + 1)) =~= sofar + seq![t]);
            lemma_ser_toks_concat(sofar, seq![t]);
            lemma_ser_toks_singleton(t);
            assert(out@ =~= p.before@ + ser_toks(toks_view(p.toks@.subrange(0, i + 1))));
        }
        i = i + 1;
    }
    proof {
        assert(p.toks@.subrange(0, p.toks@.len() as int) =~= p.toks@);
    }
    out.extend_from_slice(p.trail.as_slice());
    out.extend_from_slice(p.after.as_slice());
    proof {
        assert(out@ =~= p.before@ + ser_toks(toks_view(p.toks@)) + p.trail@ + p.after@);
    }
    out
}

/// The byte-string views of a list of owned byte strings.
pub open spec fn vecs_view(v: Seq<Vec<u8>>) -> Seq<Seq<u8>> {
    Seq::new(v.len(), |i: int| v[i]@)
}

fn entry_present_exec(toks: &Vec<ArrTok>, e: &Vec<u8>) -> (r: bool)
    ensures
        r == entry_present(toks_view(toks@), e@),
{
    let mut i: usize = 0;
    while i < toks.len()
        invariant
            i <= toks@.len(),
            forall|k: int| 0 <= k < i ==> !same_pkg(toks_view(toks@)[k].entry, e@),
        decreases toks@.len() - i,
    {
        let t = &toks[i];
        if crate::ident::same_pkg_exec(&t.entry, e) {
            proof {
                assert(same_pkg(toks_view(toks@)[i as int].entry, e@));
            }
            return true;
        }
        i = i + 1;
    }
    proof {
        if entry_present(toks_view(toks@), e@) {
            let k = choose|k: int|
                0 <= k < toks_view(toks@).len() && same_pkg(
                    (#[trigger] toks_view(toks@)[k]).entry,
                    e@,
                );
            assert(!same_pkg(toks_view(toks@)[k].entry, e@));
        }
    }
    false
}

pub fn matches_any_exec(e: &Vec<u8>, ids: &Vec<Vec<u8>>) -> (r: bool)
    ensures
        r == matches_any(e@, vecs_view(ids@)),
{
    let mut i: usize = 0;
    while i < ids.len()
        invariant
            i <= ids@.len(),
            forall|k: int| 0 <= k < i ==> !same_pkg(e@, vecs_view(ids@)[k]),
        decreases ids@.len() - i,
    {
        let id = &ids[i];
        if crate::ident::same_pkg_exec(e, id) {
            proof {
                assert(same_pkg(e@, vecs_view(ids@)[i as int]));
            }
            return true;
        }
        i = i + 1;
    }
    proof {
        if matches_any(e@, vecs_view(ids@)) {
            let k = choose|k: int|
                0 <= k < vecs_view(ids@).len() && same_pkg(e@, #[trigger] vecs_view(ids@)[k]);
            assert(!same_pkg(e@, vecs_view(ids@)[k]));
        }
    }
    false
}

/// Reads the entries of the array attribute at `path`, in document order.
pub fn read_array_attribute(doc: &Vec<u8>, path: &Vec<u8>) -> (r: Result<Vec<Vec<u8>>, SnowError>)
    ensures
        (match r {
            Ok(es) => spec_read(doc@, path@) == Some(vecs_view(es@)),
            Err(e) => spec_read(doc@, path@) is None && e == SnowError::StructuralEdit,
        }),
{
    let p = match parse_doc(doc, path) {
        Ok(p) => p,
        Err(e) => {
            return Err(e);
        },
    };
    let mut out: Vec<Vec<u8>> = Vec::new();
    let mut i: usize = 0;
    while i < p.toks.len()
        invariant
            i <= p.toks@.len(),
            out@.len() == i,
            forall|k: int| 0 <= k < i ==> (#[trigger] out@[k])@ == toks_view(p.toks@)[k].entry,
        decreases p.toks@.len() - i,
    {
        let t = &p.toks[i];
        out.push(slice_to_vec(t.entry.as_slice()));
        i = i + 1;
    }
    proof {
        assert(vecs_view(out@) =~= entries_of(toks_view(p.toks@)));
    }
    Ok(out)
}

/// Adds the given entries to the array at `path`, skipping any whose
/// package some entry already names, in either spelling. Every byte
/// outside the array literal is untouched.
pub fn add_to_array(doc: &Vec<u8>, path: &Vec<u8>, entries: &Vec<Vec<u8>>) -> (r: Result<
    Vec<u8>,
    SnowError,
>)
    requires
        forall|k: int| 0 <= k < entries@.len() ==> valid_entry((#[trigger] entries@[k])@),
    ensures
        (match r {
            Ok(d2) => spec_add(doc@, path@, vecs_view(entries@)) == Some(d2@),
            Err(e) => spec_add(doc@, path@, vecs_view(entries@)) is None && e
                == SnowError::StructuralEdit,
        }),
{
    let mut p = match parse_doc(doc, path) {
        Ok(p) => p,
        Err(e) => {
            return Err(e);
        },
    };
    let ghost orig = toks_view(p.toks@);
    let ghost es = vecs_view(entries@);
    let ghost m0 = doc_model(doc@, path@)->Some_0;
    let ghost mut added: Seq<Tok> = Seq::empty();
    proof {
        assert(toks_view(p.toks@) =~= orig + added);
        assert(es.subrange(0, es.len() as int) =~= es);
        assert(added + new_toks(toks_view(p.toks@), es) =~= new_toks(orig, es));
    }
    let mut j: usize = 0;
    while j < entries.len()
        invariant
            j <= entries@.len(),
            es == vecs_view(entries@),
            p.before@ == doc@.subrange(0, m0.open_pos + 1),
            p.trail@ == m0.trail,
            p.after@ == doc@.subrange(m0.close_pos, doc@.len() as int),
            toks_view(p.toks@) == orig + added,
            new_toks(orig, es) == added + new_toks(toks_view(p.toks@), es.subrange(
                j as int,
                es.len() as int,
            )),
        decreases entries@.len() - j,
    {
        let ghost before_toks = toks_view(p.toks@);
        let ghost suffix = es.subrange(j as int, es.len() as int);
        let e = &entries[j];
        proof {
            assert(suffix[0] == es[j as int]);
            assert(es[j as int] == e@);
            assert(suffix.drop_first() =~= es.subrange(j + 1, es.len() as int));
        }
        if !entry_present_exec(&p.toks, e) {
            let ghost xt = space_tok(e@);
            let mut lead_sp: Vec<u8> = Vec::new();
            lead_sp.push(32u8);
            let entry_new = slice_to_vec(e.as_slice());
            p.toks.push(ArrTok { lead: lead_sp, entry: entry_new });
            proof {
                assert(lead_sp@ =~= seq![32u8]);
                assert(toks_view(p.toks@) =~= before_toks + seq![xt]);
                assert(new_toks(before_toks, suffix) == seq![xt] + new_toks(
                    before_toks.push(xt),
                    suffix.drop_first(),
                ));
                assert(before_toks.push(xt) =~= toks_view(p.toks@));
                let added2 = added + seq![xt];
                assert(added2 + new_toks(toks_view(p.toks@), suffix.drop_first()) =~= added + (
                seq![xt] + new_toks(toks_view(p.toks@), suffix.drop_first())));
                assert(toks_view(p.toks@) =~= orig + added2);
                added = added2;
            }
        } else {
            proof {
                assert(new_toks(before_toks, suffix) == new_toks(
                    before_toks,
                    suffix.drop_first(),
                ));
            }
        }
        j = j + 1;
    }
    proof {
        assert(es.subrange(es.len() as int, es.len() as int) =~= Seq::<Seq<u8>>::empty());
        assert(new_toks(toks_view(p.toks@), Seq::<Seq<u8>>::empty()) =~= Seq::<Tok>::empty());
        assert(added + Seq::<Tok>::empty() =~= added);
        assert(new_toks(orig, es) == added);
        assert(toks_view(p.toks@) == orig + new_toks(orig, es));
    }
    let out = unparse(&p);
    proof {
        lemma_doc_model(doc@, path@);
        let m = doc_model(doc@, path@)->Some_0;
        assert(orig == m.toks);
        assert(out@ =~= doc@.subrange(0, m.open_pos + 1) + ser_toks(m.toks + new_toks(m.toks, es))
            + m.trail + doc@.subrange(m.close_pos, doc@.len() as int));
    }
    Ok(out)
}

/// Removes from the array at `path` every entry naming one of the given
/// packages, in either spelling. Every byte outside the array literal is
/// untouched.
pub fn remove_from_array(doc: &Vec<u8>, path: &Vec<u8>, ids: &Vec<Vec<u8>>) -> (r: Result<
    Vec<u8>,
    SnowError,
>)
    ensures
        (match r {
            Ok(d2) => spec_remove(doc@, path@, vecs_view(ids@)) == Some(d2@),
            Err(e) => spec_remove(doc@, path@, vecs_view(ids@)) is None && e
                == SnowError::StructuralEdit,
        }),
{
    let p = match parse_doc(doc, path) {
        Ok(p) => p,
        Err(e) => {
            return Err(e);
        },
    };
    let ghost orig = toks_view(p.toks@);
    let mut kept: Vec<ArrTok> = Vec::new();
    proof {
        assert(orig.subrange(0, orig.len() as int) =~= orig);
        assert(toks_view(kept@) =~= Seq::<Tok>::empty());
        assert(toks_view(kept@) + kept_toks(orig, vecs_view(ids@)) =~= kept_toks(
            orig,
            vecs_view(ids@),
        ));
    }
    let mut j: usize = 0;
    while j < p.toks.len()
        invariant
            j <= p.toks@.len(),
            orig == toks_view(p.toks@),
            kept_toks(orig, vecs_view(ids@)) == toks_view(kept@) + kept_toks(
                orig.subrange(j as int, orig.len() as int),
                vecs_view(ids@),
            ),
        decreases p.toks@.len() - j,
    {
        let ghost suffix = orig.subrange(j as int, orig.len() as int);
        proof {
            assert(suffix[0] == orig[j as int]);
            assert(suffix.drop_first() =~= orig.subrange(j + 1, orig.len() as int));
        }
        let t = &p.toks[j];
        if !matches_any_exec(&t.entry, ids) {
            let ghost prev = toks_view(kept@);
            kept.push(ArrTok {
                lead: slice_to_vec(t.lead.as_slice()),
                entry: slice_to_vec(t.entry.as_slice()),
            });
            proof {
                assert(toks_view(kept@) =~= prev + seq![orig[j as int]]);
                assert(kept_toks(suffix, vecs_view(ids@)) == seq![orig[j as int]] + kept_toks(
                    suffix.drop_first(),
                    vecs_view(ids@),
                ));
            }
        } else {
            proof {
                assert(kept_toks(suffix, vecs_view(ids@)) == kept_toks(
                    suffix.drop_first(),
                    vecs_view(ids@),
                ));
            }
        }
        j = j + 1;
    }
    proof {
        assert(orig.subrange(orig.len() as int, orig.len() as int) =~= Seq::<Tok>::empty());
        assert(kept_toks(Seq::<Tok>::empty(), vecs_view(ids@)) =~= Seq::<Tok>::empty());
        assert(toks_view(kept@) == kept_toks(orig, vecs_view(ids@)));
    }
    let p2 = ParsedArray { before: p.before, toks: kept, trail: p.trail, after: p.after };
    let out = unparse(&p2);
    Ok(out)
}

/// Adds packages to the array at `path`, each written in the array's own
/// spelling convention, so that mixed spellings are never introduced.
pub fn add_packages(doc: &Vec<u8>, path: &Vec<u8>, idents: &Vec<Vec<u8>>) -> (r: Result<
    Vec<u8>,
    SnowError,
>)
    requires
        forall|k: int| 0 <= k < idents@.len() ==> crate::ident::valid_ident((#[trigger] idents@[k])@),
    ensures
        (match r {
            Ok(d2) => doc_model(doc@, path@) is Some && spec_add(
                doc@,
                path@,
                crate::ident::spelled_list(
                    crate::ident::bare_convention(entries_of(doc_model(doc@, path@)->Some_0.toks)),
                    vecs_view(idents@),
                ),
            ) == Some(d2@),
            Err(e) => doc_model(doc@, path@) is None && e == SnowError::StructuralEdit,
        }),
{
    let entries = match read_array_attribute(doc, path) {
        Ok(es) => es,
        Err(e) => {
            return Err(e);
        },
    };
    let bare = crate::ident::detect_bare(&entries);
    let mut spelledv: Vec<Vec<u8>> = Vec::new();
    let mut i: usize = 0;
    while i < idents.len()
        invariant
            i <= idents@.len(),
            forall|k: int| 0 <= k < idents@.len() ==> crate::ident::valid_ident(
                (#[trigger] idents@[k])@,
            ),
            spelledv@.len() == i,
            forall|k: int| 0 <= k < i ==> (#[trigger] spelledv@[k])@ == crate::ident::spelled(
                bare,
                idents@[k]@,
            ),
        decreases idents@.len() - i,
    {
        let id = &idents[i];
        spelledv.push(crate::ident::spell_entry(bare, id));
        i = i + 1;
    }
    proof {
        assert(vecs_view(spelledv@) =~= crate::ident::spelled_list(bare, vecs_view(idents@)));
        assert forall|k: int| 0 <= k < spelledv@.len() implies valid_entry(
            (#[trigger] spelledv@[k])@,
        ) by {
            crate::ident::lemma_spelled_valid(bare, idents@[k]@);
        }
    }
    add_to_array(doc, path, &spelledv)
}

} // verus!
