//! Rewriting `cid:` image references in an HTML body to stable attachment
//! URLs. A reference is an occurrence of `src = {quote?}cid:{value}` (ASCII
//! case-insensitive, whitespace allowed around `=`); a resolved reference is
//! replaced by `src={quote}{url}{quote}`, an unresolved one is left
//! untouched, and a `<base target="_blank">` is then ensured in the head.

use crate::html::{find_tag, spec_insert_into_head, insert_into_head_chars, find_tag_exec};
use crate::mail::{spec_strip_angle, strip_angle, AttachmentView, EmailAttachment};
use crate::strings::{char_eq_ci, char_is_space, chars_eq, chars_string, eq_ci, is_space_of, push_all, push_range, str_chars};
use vstd::prelude::*;

verus! {

// ---------------------------------------------------------------------------
// The reference pattern
// ---------------------------------------------------------------------------

/// Characters a CID value may hold: anything but quotes, whitespace and `>`.
pub open spec fn is_value_char(c: char) -> bool {
    c != '"' && c != '\'' && c != '>' && !is_space_of(c)
}

fn is_value_char_exec(c: char) -> (r: bool)
    ensures
        r == is_value_char(c),
{
    c != '"' && c != '\'' && c != '>' && !char_is_space(c)
}

/// First index at or after `k` that is not whitespace.
pub open spec fn ws_end(s: Seq<char>, k: int) -> int
    decreases s.len() - k,
{
    if k < 0 || k >= s.len() {
        k
    } else if is_space_of(s[k]) {
        ws_end(s, k + 1)
    } else {
        k
    }
}

/// First index at or after `k` that is not a value character.
pub open spec fn value_end(s: Seq<char>, k: int) -> int
    decreases s.len() - k,
{
    if k < 0 || k >= s.len() {
        k
    } else if is_value_char(s[k]) {
        value_end(s, k + 1)
    } else {
        k
    }
}

pub proof fn lemma_ws_end(s: Seq<char>, k: int)
    requires
        0 <= k <= s.len(),
    ensures
        k <= ws_end(s, k) <= s.len(),
    decreases s.len() - k,
{
    if k < s.len() && is_space_of(s[k]) {
        lemma_ws_end(s, k + 1);
    }
}

pub proof fn lemma_value_end(s: Seq<char>, k: int)
    requires
        0 <= k <= s.len(),
    ensures
        k <= value_end(s, k) <= s.len(),
    decreases s.len() - k,
{
    if k < s.len() && is_value_char(s[k]) {
        lemma_value_end(s, k + 1);
    }
}

/// `cid:` at position `k`, the letters ASCII-case-insensitively.
pub open spec fn cid_lit_at(s: Seq<char>, k: int) -> bool {
    &&& 0 <= k
    &&& k + 4 <= s.len()
    &&& eq_ci(s[k], 'c')
    &&& eq_ci(s[k + 1], 'i')
    &&& eq_ci(s[k + 2], 'd')
    &&& s[k + 3] == ':'
}

/// One matched reference: its optional quote, the value's bounds, and the
/// match's end (the end of the value).
#[verifier::ext_equal]
pub struct CidMatch {
    pub quote: Option<char>,
    pub vstart: int,
    pub vend: int,
}

/// The reference pattern anchored at `i`: `src`, optional whitespace, `=`,
/// optional whitespace, an optional quote, `cid:`, then one or more value
/// characters.
pub open spec fn cid_match_at(s: Seq<char>, i: int) -> Option<CidMatch> {
    if !(0 <= i && i + 3 <= s.len() && eq_ci(s[i], 's') && eq_ci(s[i + 1], 'r') && eq_ci(
        s[i + 2],
        'c',
    )) {
        None
    } else {
        let k1 = ws_end(s, i + 3);
        if k1 >= s.len() || s[k1] != '=' {
            None
        } else {
            let k2 = ws_end(s, k1 + 1);
            if k2 < s.len() && (s[k2] == '"' || s[k2] == '\'') && cid_lit_at(s, k2 + 1) {
                let ve = value_end(s, k2 + 5);
                if ve > k2 + 5 {
                    Some(CidMatch { quote: Some(s[k2]), vstart: k2 + 5, vend: ve })
                } else {
                    None
                }
            } else if cid_lit_at(s, k2) {
                let ve = value_end(s, k2 + 4);
                if ve > k2 + 4 {
                    Some(CidMatch { quote: None, vstart: k2 + 4, vend: ve })
                } else {
                    None
                }
            } else {
                None
            }
        }
    }
}

pub proof fn lemma_cid_match_at(s: Seq<char>, i: int)
    ensures
        match cid_match_at(s, i) {
            Some(m) => 0 <= i && i + 3 <= m.vstart && m.vstart < m.vend <= s.len(),
            None => true,
        },
{
    if cid_match_at(s, i) is Some {
        lemma_ws_end(s, i + 3);
        let k1 = ws_end(s, i + 3);
        lemma_ws_end(s, k1 + 1);
        let k2 = ws_end(s, k1 + 1);
        if k2 < s.len() && (s[k2] == '"' || s[k2] == '\'') && cid_lit_at(s, k2 + 1) {
            lemma_value_end(s, k2 + 5);
        } else {
            lemma_value_end(s, k2 + 4);
        }
    }
}

/// The leftmost reference at or after `from`.
pub open spec fn find_cid(s: Seq<char>, from: int) -> Option<(int, CidMatch)>
    decreases s.len() - from,
{
    if from < 0 || from >= s.len() {
        None
    } else {
        match cid_match_at(s, from) {
            Some(m) => Some((from, m)),
            None => find_cid(s, from + 1),
        }
    }
}

pub proof fn lemma_find_cid(s: Seq<char>, from: int)
    requires
        0 <= from,
    ensures
        match find_cid(s, from) {
            Some((i, m)) => from <= i && cid_match_at(s, i) == Some(m) && i + 3 <= m.vstart
                && m.vstart < m.vend <= s.len(),
            None => true,
        },
    decreases s.len() - from,
{
    if from < s.len() {
        match cid_match_at(s, from) {
            Some(m) => {
                lemma_cid_match_at(s, from);
            },
            None => {
                lemma_find_cid(s, from + 1);
            },
        }
    }
}

// ---------------------------------------------------------------------------
// The lookup from content id to attachment URL
// ---------------------------------------------------------------------------

pub open spec fn url_of(id: Seq<char>) -> Seq<char> {
    "/api/attachments/"@ + id
}

/// The pairs one attachment contributes: its bracket-stripped Content-ID,
/// and the raw form too when it was bracketed.
pub open spec fn pairs_of_att(a: AttachmentView, id: Seq<char>) -> Seq<(Seq<char>, Seq<char>)> {
    match a.content_id {
        Some(cid) => {
            let clean = spec_strip_angle(cid);
            if cid.len() >= 1 && cid[0] == '<' && cid[cid.len() - 1] == '>' {
                seq![(clean, url_of(id)), (cid, url_of(id))]
            } else {
                seq![(clean, url_of(id))]
            }
        },
        None => Seq::empty(),
    }
}

/// The lookup pairs of all attachments, in order; a later entry for the same
/// key wins, as a map rebuilt by insertion would have it.
pub open spec fn cid_pairs(atts: Seq<AttachmentView>, ids: Seq<Seq<char>>) -> Seq<
    (Seq<char>, Seq<char>),
>
    decreases atts.len(),
{
    if atts.len() == 0 || ids.len() == 0 {
        Seq::empty()
    } else {
        pairs_of_att(atts.first(), ids.first()) + cid_pairs(atts.drop_first(), ids.drop_first())
    }
}

/// The URL a key resolves to: the last pair with that key.
pub open spec fn lookup_url(pairs: Seq<(Seq<char>, Seq<char>)>, key: Seq<char>) -> Option<
    Seq<char>,
>
    decreases pairs.len(),
{
    if pairs.len() == 0 {
        None
    } else if pairs.last().0 == key {
        Some(pairs.last().1)
    } else {
        lookup_url(pairs.drop_last(), key)
    }
}

/// A reference's value resolves through its bracket-stripped form first,
/// then through its raw form.
pub open spec fn resolve_cid(pairs: Seq<(Seq<char>, Seq<char>)>, raw: Seq<char>) -> Option<
    Seq<char>,
> {
    match lookup_url(pairs, spec_strip_angle(raw)) {
        Some(u) => Some(u),
        None => lookup_url(pairs, raw),
    }
}

pub open spec fn quote_seq(q: Option<char>) -> Seq<char> {
    match q {
        Some(c) => seq![c],
        None => Seq::empty(),
    }
}

/// What a resolved reference is replaced by.
pub open spec fn cid_replacement(q: Option<char>, url: Seq<char>) -> Seq<char> {
    "src="@ + quote_seq(q) + url + quote_seq(q)
}

// ---------------------------------------------------------------------------
// The rewrite
// ---------------------------------------------------------------------------

/// The rewritten remainder of `s` from position `from` on: references are
/// found left to right, each resolved one replaced, each unresolved one kept
/// verbatim, and the search resumes after the match.
pub open spec fn rewrite_from(
    s: Seq<char>,
    pairs: Seq<(Seq<char>, Seq<char>)>,
    from: int,
) -> Seq<char>
    decreases s.len() - from,
    via rewrite_from_decreases
{
    if from < 0 {
        Seq::empty()
    } else {
        match find_cid(s, from) {
            None => s.skip(from),
            Some((i, m)) => {
                let raw = s.subrange(m.vstart, m.vend);
                let piece = match resolve_cid(pairs, raw) {
                    Some(url) => cid_replacement(m.quote, url),
                    None => s.subrange(i, m.vend),
                };
                s.subrange(from, i) + piece + rewrite_from(s, pairs, m.vend)
            },
        }
    }
}

#[via_fn]
proof fn rewrite_from_decreases(s: Seq<char>, pairs: Seq<(Seq<char>, Seq<char>)>, from: int) {
    if from >= 0 {
        lemma_find_cid(s, from);
    }
}

/// The whole body with every resolvable `cid:` reference rewritten.
pub open spec fn spec_rewrite_cids(s: Seq<char>, pairs: Seq<(Seq<char>, Seq<char>)>) -> Seq<char> {
    rewrite_from(s, pairs, 0)
}

// ---------------------------------------------------------------------------
// Base-tag injection and the whole HTML pipeline
// ---------------------------------------------------------------------------

pub open spec fn base_tag() -> Seq<char> {
    "<base target=\"_blank\">"@
}

/// The first `<base ...>` tag is replaced outright; otherwise the base tag
/// goes into the head.
pub open spec fn spec_add_base(html: Seq<char>) -> Seq<char> {
    match find_tag(html, "base"@, 0) {
        Some((i, j)) => html.take(i) + base_tag() + html.skip(j),
        None => spec_insert_into_head(html, base_tag()),
    }
}

/// The rendered HTML body: nothing for an empty inbound body, otherwise the
/// CID rewrite (skipped when no attachment carries a Content-ID) followed by
/// base-tag injection.
pub open spec fn spec_process_html(
    body: Seq<char>,
    atts: Seq<AttachmentView>,
    ids: Seq<Seq<char>>,
) -> Option<Seq<char>> {
    if body.len() == 0 {
        None
    } else {
        let pairs = cid_pairs(atts, ids);
        if pairs.len() == 0 {
            Some(spec_add_base(body))
        } else {
            Some(spec_add_base(spec_rewrite_cids(body, pairs)))
        }
    }
}

// ---------------------------------------------------------------------------
// Executable scanning
// ---------------------------------------------------------------------------

fn ws_end_exec(s: &Vec<char>, k: usize) -> (r: usize)
    requires
        k <= s@.len(),
    ensures
        r == ws_end(s@, k as int),
        k <= r <= s@.len(),
{
    let n = s.len();
    let mut j: usize = k;
    loop
        invariant
            k <= j <= n,
            n == s@.len(),
            ws_end(s@, k as int) == ws_end(s@, j as int),
        ensures
            k <= j <= n,
            n == s@.len(),
            ws_end(s@, k as int) == ws_end(s@, j as int),
            j == n || !is_space_of(s@[j as int]),
        decreases n - j,
    {
        if j >= n {
            break;
        }
        if !char_is_space(s[j]) {
            break;
        }
        j += 1;
    }
    j
}

fn value_end_exec(s: &Vec<char>, k: usize) -> (r: usize)
    requires
        k <= s@.len(),
    ensures
        r == value_end(s@, k as int),
        k <= r <= s@.len(),
{
    let n = s.len();
    let mut j: usize = k;
    loop
        invariant
            k <= j <= n,
            n == s@.len(),
            value_end(s@, k as int) == value_end(s@, j as int),
        ensures
            k <= j <= n,
            n == s@.len(),
            value_end(s@, k as int) == value_end(s@, j as int),
            j == n || !is_value_char(s@[j as int]),
        decreases n - j,
    {
        if j >= n {
            break;
        }
        if !is_value_char_exec(s[j]) {
            break;
        }
        j += 1;
    }
    j
}

fn cid_lit_exec(s: &Vec<char>, k: usize) -> (r: bool)
    ensures
        r == cid_lit_at(s@, k as int),
{
    let n = s.len();
    n >= 4 && k <= n - 4 && char_eq_ci(s[k], 'c') && char_eq_ci(s[k + 1], 'i') && char_eq_ci(
        s[k + 2],
        'd',
    ) && s[k + 3] == ':'
}

fn cid_match_exec(s: &Vec<char>, i: usize) -> (r: Option<(Option<char>, usize, usize)>)
    requires
        i < s@.len(),
    ensures
        match r {
            Some((q, vs, ve)) => cid_match_at(s@, i as int) == Some(
                CidMatch { quote: q, vstart: vs as int, vend: ve as int },
            ) && i < vs < ve <= s@.len(),
            None => cid_match_at(s@, i as int) is None,
        },
{
    let n = s.len();
    if !(n >= 3 && i <= n - 3 && char_eq_ci(s[i], 's') && char_eq_ci(s[i + 1], 'r') && char_eq_ci(
        s[i + 2],
        'c',
    )) {
        return None;
    }
    let k1 = ws_end_exec(s, i + 3);
    if k1 >= n {
        return None;
    }
    if s[k1] != '=' {
        return None;
    }
    let k2 = ws_end_exec(s, k1 + 1);
    if k2 < n && (s[k2] == '"' || s[k2] == '\'') && cid_lit_exec(s, k2 + 1) {
        let ve = value_end_exec(s, k2 + 5);
        if ve > k2 + 5 {
            Some((Some(s[k2]), k2 + 5, ve))
        } else {
            None
        }
    } else if cid_lit_exec(s, k2) {
        let ve = value_end_exec(s, k2 + 4);
        if ve > k2 + 4 {
            Some((None, k2 + 4, ve))
        } else {
            None
        }
    } else {
        None
    }
}

fn find_cid_exec(s: &Vec<char>, from: usize) -> (r: Option<(usize, (Option<char>, usize, usize))>)
    ensures
        match r {
            Some((i, (q, vs, ve))) => find_cid(s@, from as int) == Some(
                (i as int, CidMatch { quote: q, vstart: vs as int, vend: ve as int }),
            ) && from <= i < vs < ve <= s@.len(),
            None => find_cid(s@, from as int) is None,
        },
{
    let n = s.len();
    let mut i: usize = from;
    while i < n
        invariant
            from <= i,
            n == s@.len(),
            i <= n || from >= n,
            find_cid(s@, from as int) == find_cid(s@, i as int),
        decreases n - i,
    {
        match cid_match_exec(s, i) {
            Some((q, vs, ve)) => {
                return Some((i, (q, vs, ve)));
            },
            None => {},
        }
        i += 1;
    }
    None
}

// ---------------------------------------------------------------------------
// Executable lookup and map building
// ---------------------------------------------------------------------------

fn lookup_exec(pairs: &Vec<(String, String)>, key: &Vec<char>) -> (r: Option<String>)
    ensures
        match r {
            Some(u) => lookup_url(pairs.deep_view(), key@) == Some(u@),
            None => lookup_url(pairs.deep_view(), key@) is None,
        },
{
    let ghost pv = pairs.deep_view();
    let mut i: usize = pairs.len();
    proof {
        assert(pv.take(pairs@.len() as int) =~= pv);
    }
    while i > 0
        invariant
            i <= pairs@.len(),
            pv == pairs.deep_view(),
            pv.len() == pairs@.len(),
            lookup_url(pv, key@) == lookup_url(pv.take(i as int), key@),
        decreases i,
    {
        let name_chars = str_chars(pairs[i - 1].0.as_str());
        proof {
            assert(pv[i - 1] == (pairs@[i - 1].0@, pairs@[i - 1].1@));
            assert(pv.take(i as int).last() == pv[i - 1]);
            assert(pv.take(i as int).drop_last() =~= pv.take(i - 1));
        }
        if chars_eq(&name_chars, key) {
            let url = pairs[i - 1].1.clone();
            return Some(url);
        }
        i -= 1;
    }
    proof {
        assert(pv.take(0) =~= Seq::<(Seq<char>, Seq<char>)>::empty());
    }
    None
}

/// Builds the Content-ID lookup for a message's attachments, the URL of
/// each being its pre-generated attachment id under the attachment route.
pub fn build_cid_map(attachments: &Vec<EmailAttachment>, attachment_ids: &Vec<String>) -> (r: Vec<
    (String, String),
>)
    ensures
        r.deep_view() == cid_pairs(attachments.deep_view(), attachment_ids.deep_view()),
{
    let ghost av = attachments.deep_view();
    let ghost iv = attachment_ids.deep_view();
    let mut out: Vec<(String, String)> = Vec::new();
    let na = attachments.len();
    let ni = attachment_ids.len();
    let n: usize = if na < ni {
        na
    } else {
        ni
    };
    let mut i: usize = 0;
    proof {
        assert(av.skip(0) =~= av);
        assert(iv.skip(0) =~= iv);
    }
    while i < n
        invariant
            n <= av.len(),
            n <= iv.len(),
            av.len() == na >= n,
            iv.len() == ni >= n,
            na == attachments@.len(),
            ni == attachment_ids@.len(),
            av == attachments.deep_view(),
            iv == attachment_ids.deep_view(),
            na == n || ni == n,
            i <= n,
            out.deep_view() + cid_pairs(av.skip(i as int), iv.skip(i as int)) == cid_pairs(av, iv),
        decreases n - i,
    {
        let ghost pre_suffix = cid_pairs(av.skip(i as int), iv.skip(i as int));
        proof {
            assert(av.skip(i as int).len() > 0 && iv.skip(i as int).len() > 0);
            assert(av.skip(i as int).first() == av[i as int]);
            assert(iv.skip(i as int).first() == iv[i as int]);
            assert(av.skip(i as int).drop_first() =~= av.skip(i + 1));
            assert(iv.skip(i as int).drop_first() =~= iv.skip(i + 1));
            assert(pre_suffix == pairs_of_att(av[i as int], iv[i as int]) + cid_pairs(
                av.skip(i + 1),
                iv.skip(i + 1),
            ));
            assert(attachments.deep_view()[i as int] == attachments@[i as int]@);
            assert(attachment_ids.deep_view()[i as int] == attachment_ids@[i as int]@);
        }
        match &attachments[i].content_id {
            Some(cid) => {
                let cchars = str_chars(cid.as_str());
                let clean = strip_angle(&cchars);
                let mut url = String::from_str("/api/attachments/");
                url.append(attachment_ids[i].as_str());
                let clen = cchars.len();
                let bracketed = clen >= 1 && cchars[0] == '<' && cchars[clen - 1] == '>';
                let ghost prev = out@;
                let ghost prev_deep = out.deep_view();
                if bracketed {
                    let url2 = url.clone();
                    out.push((chars_string(&clean), url));
                    out.push((cid.clone(), url2));
                    proof {
                        assert forall|k: int| 0 <= k < out.deep_view().len() implies
                            #[trigger] out.deep_view()[k] == (prev_deep + pairs_of_att(
                            av[i as int],
                            iv[i as int],
                        ))[k] by {
                            if k < prev.len() {
                                assert(out@[k] == prev[k]);
                                assert(prev_deep[k] == prev[k].deep_view());
                            } else if k == prev.len() {
                                assert(out@[k] == (out@[k].0, out@[k].1));
                            }
                        }
                        assert(out.deep_view() =~= prev_deep + pairs_of_att(
                            av[i as int],
                            iv[i as int],
                        ));
                    }
                } else {
                    out.push((chars_string(&clean), url));
                    proof {
                        assert forall|k: int| 0 <= k < out.deep_view().len() implies
                            #[trigger] out.deep_view()[k] == (prev_deep + pairs_of_att(
                            av[i as int],
                            iv[i as int],
                        ))[k] by {
                            if k < prev.len() {
                                assert(out@[k] == prev[k]);
                                assert(prev_deep[k] == prev[k].deep_view());
                            }
                        }
                        assert(out.deep_view() =~= prev_deep + pairs_of_att(
                            av[i as int],
                            iv[i as int],
                        ));
                    }
                }
            },
            None => {
                proof {
                    assert(pairs_of_att(av[i as int], iv[i as int]) =~= Seq::<(
                        Seq<char>,
                        Seq<char>,
                    )>::empty());
                    assert(out.deep_view() + pairs_of_att(av[i as int], iv[i as int])
                        =~= out.deep_view());
                }
            },
        }
        proof {
            assert(out.deep_view() + cid_pairs(av.skip(i + 1), iv.skip(i + 1)) =~= cid_pairs(
                av,
                iv,
            ));
        }
        i += 1;
    }
    proof {
        assert(cid_pairs(av.skip(n as int), iv.skip(n as int)) =~= Seq::<(
            Seq<char>,
            Seq<char>,
        )>::empty());
        assert(out.deep_view() =~= cid_pairs(av, iv));
    }
    out
}

// ---------------------------------------------------------------------------
// The executable rewrite and pipeline
// ---------------------------------------------------------------------------

/// Rewrites every resolvable `cid:` reference of `s` to its attachment URL.
pub fn rewrite_cids(s: &Vec<char>, pairs: &Vec<(String, String)>) -> (r: Vec<char>)
    ensures
        r@ == spec_rewrite_cids(s@, pairs.deep_view()),
{
    let ghost pv = pairs.deep_view();
    let n = s.len();
    let mut out: Vec<char> = Vec::new();
    let mut cur: usize = 0;
    loop
        invariant_except_break
            out@ + rewrite_from(s@, pv, cur as int) == rewrite_from(s@, pv, 0),
        invariant
            cur <= n,
            n == s@.len(),
            pv == pairs.deep_view(),
        ensures
            out@ == rewrite_from(s@, pv, 0),
        decreases n - cur,
    {
        match find_cid_exec(s, cur) {
            None => {
                push_range(&mut out, s, cur, n);
                proof {
                    assert(rewrite_from(s@, pv, cur as int) == s@.skip(cur as int));
                    assert(out@ =~= rewrite_from(s@, pv, 0));
                }
                break;
            },
            Some((i, (q, vs, ve))) => {
                let ghost m = CidMatch { quote: q, vstart: vs as int, vend: ve as int };
                let ghost before = out@;
                push_range(&mut out, s, cur, i);
                let mut raw: Vec<char> = Vec::new();
                push_range(&mut raw, s, vs, ve);
                proof {
                    assert(raw@ =~= s@.subrange(m.vstart, m.vend));
                }
                let clean = strip_angle(&raw);
                let resolved: Option<String> = match lookup_exec(pairs, &clean) {
                    Some(u) => Some(u),
                    None => lookup_exec(pairs, &raw),
                };
                match resolved {
                    Some(url) => {
                        let src_lit = str_chars("src=");
                        push_all(&mut out, &src_lit);
                        match q {
                            Some(qc) => {
                                out.push(qc);
                                let url_chars = str_chars(url.as_str());
                                push_all(&mut out, &url_chars);
                                out.push(qc);
                                proof {
                                    assert(out@ =~= before + s@.subrange(cur as int, i as int)
                                        + cid_replacement(m.quote, url@));
                                }
                            },
                            None => {
                                let url_chars = str_chars(url.as_str());
                                push_all(&mut out, &url_chars);
                                proof {
                                    assert(out@ =~= before + s@.subrange(cur as int, i as int)
                                        + cid_replacement(m.quote, url@));
                                }
                            },
                        }
                        proof {
                            assert(resolve_cid(pv, s@.subrange(m.vstart, m.vend)) == Some(url@));
                        }
                    },
                    None => {
                        push_range(&mut out, s, i, ve);
                        proof {
                            assert(resolve_cid(pv, s@.subrange(m.vstart, m.vend)) is None);
                            assert(out@ =~= before + s@.subrange(cur as int, i as int)
                                + s@.subrange(i as int, m.vend));
                        }
                    },
                }
                proof {
                    assert(rewrite_from(s@, pv, cur as int) == s@.subrange(cur as int, i as int) + (
                    match resolve_cid(pv, s@.subrange(m.vstart, m.vend)) {
                        Some(url) => cid_replacement(m.quote, url),
                        None => s@.subrange(i as int, m.vend),
                    }) + rewrite_from(s@, pv, m.vend));
                    assert(out@ + rewrite_from(s@, pv, ve as int) =~= rewrite_from(s@, pv, 0));
                }
                cur = ve;
            },
        }
    }
    out
}

/// Replaces the first `<base ...>` tag, or injects one into the head.
pub fn add_base_tag(html: &Vec<char>) -> (r: Vec<char>)
    ensures
        r@ == spec_add_base(html@),
{
    let base_name = str_chars("base");
    let n = html.len();
    match find_tag_exec(html, &base_name) {
        Some((i, j)) => {
            let tag = str_chars("<base target=\"_blank\">");
            let mut out: Vec<char> = Vec::new();
            push_range(&mut out, html, 0, i);
            push_all(&mut out, &tag);
            push_range(&mut out, html, j, n);
            proof {
                assert(out@ =~= html@.take(i as int) + base_tag() + html@.skip(j as int));
            }
            out
        },
        None => {
            let tag = str_chars("<base target=\"_blank\">");
            insert_into_head_chars(html, &tag)
        },
    }
}

/// The rendered HTML body for one message: `None` when the inbound HTML is
/// empty, otherwise the CID rewrite followed by base-tag injection.
pub fn process_html_body(
    body_html: &str,
    attachments: &Vec<EmailAttachment>,
    attachment_ids: &Vec<String>,
) -> (r: Option<String>)
    ensures
        match r {
            Some(h) => spec_process_html(
                body_html@,
                attachments.deep_view(),
                attachment_ids.deep_view(),
            ) == Some(h@),
            None => spec_process_html(
                body_html@,
                attachments.deep_view(),
                attachment_ids.deep_view(),
            ) is None,
        },
{
    let body = str_chars(body_html);
    if body.len() == 0 {
        return None;
    }
    let pairs = build_cid_map(attachments, attachment_ids);
    let rewritten = if pairs.len() > 0 {
        rewrite_cids(&body, &pairs)
    } else {
        body
    };
    let based = add_base_tag(&rewritten);
    Some(chars_string(&based))
}

} // verus!
