//! The search grammar: `query := term (whitespace term)*`, a term being
//! `field:value` for a known field name or a bareword. A field token is a
//! word-character run followed by `:` and a non-whitespace value; tokens
//! whose field name is unknown fall through as default terms, as do the
//! stretches of text between field tokens, split on whitespace.

use crate::strings::{char_is_space, chars_blank, chars_eq_folded, chars_string, folded, is_blank, is_space_of, push_range, str_chars};
use vstd::prelude::*;

verus! {

// ---------------------------------------------------------------------------
// Word characters (trusted table: Unicode alphanumerics)
// ---------------------------------------------------------------------------

/// What `char::is_alphanumeric` returns; a fixed character table.
pub uninterp spec fn is_alnum_of(c: char) -> bool;

/// Relies on `char::is_alphanumeric`: Unicode letters and numbers, which on
/// ASCII is exactly the letters and digits.
#[verifier::external_body]
pub fn char_is_alnum(c: char) -> (r: bool)
    ensures
        r == is_alnum_of(c),
        (c as u32) < 128 ==> (r <==> (48 <= c as u32 <= 57 || 65 <= c as u32 <= 90 || 97 <= c as u32
            <= 122)),
{
    c.is_alphanumeric()
}

/// A word character of a field name: alphanumeric or underscore.
pub open spec fn is_word_char(c: char) -> bool {
    is_alnum_of(c) || c == '_'
}

fn char_is_word(c: char) -> (r: bool)
    ensures
        r == is_word_char(c),
{
    char_is_alnum(c) || c == '_'
}

// ---------------------------------------------------------------------------
// Search fields and terms
// ---------------------------------------------------------------------------

#[derive(Debug, Clone, Copy, PartialEq, Eq, Structural)]
pub enum SearchField {
    Subject,
    From,
    Recipient,
    To,
    Text,
    Html,
    Attachment,
}

impl SearchField {
    /// The field a name denotes, compared without regard to ASCII case;
    /// `None` for an unknown name.
    pub fn from_str(s: &str) -> (r: Option<SearchField>)
        ensures
            r == spec_field_of(s@),
    {
        let cs = str_chars(s);
        if chars_eq_folded(&cs, &str_chars("subject")) {
            Some(SearchField::Subject)
        } else if chars_eq_folded(&cs, &str_chars("from")) {
            Some(SearchField::From)
        } else if chars_eq_folded(&cs, &str_chars("recipient")) {
            Some(SearchField::Recipient)
        } else if chars_eq_folded(&cs, &str_chars("to")) {
            Some(SearchField::To)
        } else if chars_eq_folded(&cs, &str_chars("text")) {
            Some(SearchField::Text)
        } else if chars_eq_folded(&cs, &str_chars("html")) {
            Some(SearchField::Html)
        } else if chars_eq_folded(&cs, &str_chars("attachment")) {
            Some(SearchField::Attachment)
        } else {
            None
        }
    }
}

pub open spec fn spec_field_of(s: Seq<char>) -> Option<SearchField> {
    if folded(s) == folded("subject"@) {
        Some(SearchField::Subject)
    } else if folded(s) == folded("from"@) {
        Some(SearchField::From)
    } else if folded(s) == folded("recipient"@) {
        Some(SearchField::Recipient)
    } else if folded(s) == folded("to"@) {
        Some(SearchField::To)
    } else if folded(s) == folded("text"@) {
        Some(SearchField::Text)
    } else if folded(s) == folded("html"@) {
        Some(SearchField::Html)
    } else if folded(s) == folded("attachment"@) {
        Some(SearchField::Attachment)
    } else {
        None
    }
}

/// `to` is an alias for `recipient`.
pub open spec fn normalize_field(f: SearchField) -> SearchField {
    match f {
        SearchField::To => SearchField::Recipient,
        _ => f,
    }
}

#[verifier::ext_equal]
pub struct SearchTermV {
    pub field: SearchField,
    pub value: Seq<char>,
}

/// One field-restricted term of a query.
pub struct SearchTerm {
    pub field: SearchField,
    pub value: String,
}

impl View for SearchTerm {
    type V = SearchTermV;

    open spec fn view(&self) -> SearchTermV {
        SearchTermV { field: self.field, value: self.value@ }
    }
}

impl DeepView for SearchTerm {
    type V = SearchTermV;

    open spec fn deep_view(&self) -> SearchTermV {
        self.view()
    }
}

#[verifier::ext_equal]
pub struct ParsedQueryV {
    pub field_terms: Seq<SearchTermV>,
    pub default_terms: Seq<Seq<char>>,
}

/// A parsed query: field-restricted terms and default (bareword) terms, all
/// AND-combined by the matcher.
pub struct ParsedSearchQuery {
    pub field_terms: Vec<SearchTerm>,
    pub default_terms: Vec<String>,
}

impl View for ParsedSearchQuery {
    type V = ParsedQueryV;

    open spec fn view(&self) -> ParsedQueryV {
        ParsedQueryV {
            field_terms: self.field_terms.deep_view(),
            default_terms: self.default_terms.deep_view(),
        }
    }
}

// ---------------------------------------------------------------------------
// Scanning for field tokens
// ---------------------------------------------------------------------------

/// First index at or after `k` that is not a word character.
pub open spec fn word_end(s: Seq<char>, k: int) -> int
    decreases s.len() - k,
{
    if k < 0 || k >= s.len() {
        k
    } else if is_word_char(s[k]) {
        word_end(s, k + 1)
    } else {
        k
    }
}

/// First index at or after `k` that is whitespace.
pub open spec fn nonspace_end(s: Seq<char>, k: int) -> int
    decreases s.len() - k,
{
    if k < 0 || k >= s.len() {
        k
    } else if !is_space_of(s[k]) {
        nonspace_end(s, k + 1)
    } else {
        k
    }
}

pub proof fn lemma_word_end(s: Seq<char>, k: int)
    requires
        0 <= k <= s.len(),
    ensures
        k <= word_end(s, k) <= s.len(),
    decreases s.len() - k,
{
    if k < s.len() && is_word_char(s[k]) {
        lemma_word_end(s, k + 1);
    }
}

pub proof fn lemma_nonspace_end(s: Seq<char>, k: int)
    requires
        0 <= k <= s.len(),
    ensures
        k <= nonspace_end(s, k) <= s.len(),
    decreases s.len() - k,
{
    if k < s.len() && !is_space_of(s[k]) {
        lemma_nonspace_end(s, k + 1);
    }
}

/// A field token anchored at `i`: a word run, a colon, and a non-empty
/// non-whitespace value, yielding (name end, value end).
pub open spec fn fmatch_at(s: Seq<char>, i: int) -> Option<(int, int)> {
    if 0 <= i && i < s.len() && is_word_char(s[i]) {
        let w = word_end(s, i + 1);
        if w < s.len() && s[w] == ':' {
            let v = nonspace_end(s, w + 1);
            if v > w + 1 {
                Some((w, v))
            } else {
                None
            }
        } else {
            None
        }
    } else {
        None
    }
}

pub proof fn lemma_fmatch_at(s: Seq<char>, i: int)
    ensures
        match fmatch_at(s, i) {
            Some((w, v)) => 0 <= i < w && w + 1 < v <= s.len(),
            None => true,
        },
{
    if fmatch_at(s, i) is Some {
        lemma_word_end(s, i + 1);
        let w = word_end(s, i + 1);
        lemma_nonspace_end(s, w + 1);
    }
}

/// The leftmost field token at or after `from`.
pub open spec fn find_fmatch(s: Seq<char>, from: int) -> Option<(int, int, int)>
    decreases s.len() - from,
{
    if from < 0 || from >= s.len() {
        None
    } else {
        match fmatch_at(s, from) {
            Some((w, v)) => Some((from, w, v)),
            None => find_fmatch(s, from + 1),
        }
    }
}

pub proof fn lemma_find_fmatch(s: Seq<char>, from: int)
    requires
        0 <= from,
    ensures
        match find_fmatch(s, from) {
            Some((i, w, v)) => from <= i < w && w + 1 < v <= s.len() && fmatch_at(s, i) == Some(
                (w, v),
            ),
            None => true,
        },
    decreases s.len() - from,
{
    if from < s.len() {
        match fmatch_at(s, from) {
            Some(_) => {
                lemma_fmatch_at(s, from);
            },
            None => {
                lemma_find_fmatch(s, from + 1);
            },
        }
    }
}

/// All field tokens from `from` on: the known-field terms (with `to`
/// normalized to `recipient`) and the consumed ranges of the known ones.
pub open spec fn scan_query(s: Seq<char>, from: int) -> (Seq<SearchTermV>, Seq<(int, int)>)
    decreases s.len() - from,
    via scan_query_decreases
{
    if from < 0 {
        (Seq::empty(), Seq::empty())
    } else {
        match find_fmatch(s, from) {
            None => (Seq::empty(), Seq::empty()),
            Some((i, w, v)) => {
                let rest = scan_query(s, v);
                match spec_field_of(s.subrange(i, w)) {
                    Some(f) => (
                        seq![
                            SearchTermV { field: normalize_field(f), value: s.subrange(w + 1, v) },
                        ] + rest.0,
                        seq![(i, v)] + rest.1,
                    ),
                    None => rest,
                }
            },
        }
    }
}

#[via_fn]
proof fn scan_query_decreases(s: Seq<char>, from: int) {
    if from >= 0 {
        lemma_find_fmatch(s, from);
    }
}

// ---------------------------------------------------------------------------
// Whitespace splitting of the unconsumed stretches
// ---------------------------------------------------------------------------

/// The maximal non-whitespace runs of `s`, in order; this is what
/// `str::split_whitespace` yields.
pub open spec fn whitespace_split(s: Seq<char>) -> Seq<Seq<char>>
    decreases s.len(),
    via whitespace_split_decreases
{
    if s.len() == 0 {
        Seq::empty()
    } else if is_space_of(s[0]) {
        whitespace_split(s.drop_first())
    } else {
        let e = nonspace_end(s, 0);
        seq![s.take(e)] + whitespace_split(s.skip(e))
    }
}

#[via_fn]
proof fn whitespace_split_decreases(s: Seq<char>) {
    if s.len() > 0 && !is_space_of(s[0]) {
        lemma_nonspace_end(s, 1);
        assert(nonspace_end(s, 0) == nonspace_end(s, 1));
        assert(nonspace_end(s, 0) >= 1);
    }
}

/// The default terms: the whitespace-split words of everything outside the
/// consumed ranges.
pub open spec fn gaps(s: Seq<char>, ranges: Seq<(int, int)>, last: int) -> Seq<Seq<char>>
    decreases ranges.len(),
{
    if ranges.len() == 0 {
        whitespace_split(s.subrange(last, s.len() as int))
    } else {
        whitespace_split(s.subrange(last, ranges.first().0)) + gaps(
            s,
            ranges.drop_first(),
            ranges.first().1,
        )
    }
}

/// The whole grammar: a blank query is empty; otherwise the known-field
/// terms and the leftover barewords.
pub open spec fn spec_parse_query(s: Seq<char>) -> ParsedQueryV {
    if is_blank(s) {
        ParsedQueryV { field_terms: Seq::empty(), default_terms: Seq::empty() }
    } else {
        let (terms, ranges) = scan_query(s, 0);
        ParsedQueryV { field_terms: terms, default_terms: gaps(s, ranges, 0) }
    }
}

// ---------------------------------------------------------------------------
// Executable scanning
// ---------------------------------------------------------------------------

fn word_end_exec(s: &Vec<char>, k: usize) -> (r: usize)
    requires
        k <= s@.len(),
    ensures
        r == word_end(s@, k as int),
        k <= r <= s@.len(),
{
    let n = s.len();
    let mut j: usize = k;
    loop
        invariant
            k <= j <= n,
            n == s@.len(),
            word_end(s@, k as int) == word_end(s@, j as int),
        ensures
            k <= j <= n,
            word_end(s@, k as int) == word_end(s@, j as int),
            j == n || !is_word_char(s@[j as int]),
        decreases n - j,
    {
        if j >= n {
            break;
        }
        if !char_is_word(s[j]) {
            break;
        }
        j += 1;
    }
    j
}

fn nonspace_end_exec(s: &Vec<char>, k: usize) -> (r: usize)
    requires
        k <= s@.len(),
    ensures
        r == nonspace_end(s@, k as int),
        k <= r <= s@.len(),
{
    let n = s.len();
    let mut j: usize = k;
    loop
        invariant
            k <= j <= n,
            n == s@.len(),
            nonspace_end(s@, k as int) == nonspace_end(s@, j as int),
        ensures
            k <= j <= n,
            nonspace_end(s@, k as int) == nonspace_end(s@, j as int),
            j == n || is_space_of(s@[j as int]),
        decreases n - j,
    {
        if j >= n {
            break;
        }
        if char_is_space(s[j]) {
            break;
        }
        j += 1;
    }
    j
}

fn fmatch_exec(s: &Vec<char>, i: usize) -> (r: Option<(usize, usize)>)
    requires
        i < s@.len(),
    ensures
        match r {
            Some((w, v)) => fmatch_at(s@, i as int) == Some((w as int, v as int)) && i < w && w + 1
                < v <= s@.len(),
            None => fmatch_at(s@, i as int) is None,
        },
{
    let n = s.len();
    if !char_is_word(s[i]) {
        return None;
    }
    let w = word_end_exec(s, i + 1);
    if w >= n {
        return None;
    }
    if s[w] != ':' {
        return None;
    }
    let v = nonspace_end_exec(s, w + 1);
    if v > w + 1 {
        Some((w, v))
    } else {
        None
    }
}

fn find_fmatch_exec(s: &Vec<char>, from: usize) -> (r: Option<(usize, usize, usize)>)
    ensures
        match r {
            Some((i, w, v)) => find_fmatch(s@, from as int) == Some(
                (i as int, w as int, v as int),
            ) && from <= i < w && w + 1 < v <= s@.len(),
            None => find_fmatch(s@, from as int) is None,
        },
{
    let n = s.len();
    let mut i: usize = from;
    while i < n
        invariant
            from <= i,
            n == s@.len(),
            i <= n || from >= n,
            find_fmatch(s@, from as int) == find_fmatch(s@, i as int),
        decreases n - i,
    {
        match fmatch_exec(s, i) {
            Some((w, v)) => {
                return Some((i, w, v));
            },
            None => {},
        }
        i += 1;
    }
    None
}

/// The whitespace-split words of `s[from..to]`.
fn whitespace_split_range(s: &Vec<char>, from: usize, to: usize) -> (r: Vec<String>)
    requires
        from <= to <= s@.len(),
    ensures
        r.deep_view() == whitespace_split(s@.subrange(from as int, to as int)),
{
    let ghost whole = s@.subrange(from as int, to as int);
    let mut out: Vec<String> = Vec::new();
    let mut cur: usize = from;
    proof {
        assert(s@.subrange(from as int, to as int) =~= whole);
    }
    while cur < to
        invariant
            from <= cur <= to <= s@.len(),
            whole == s@.subrange(from as int, to as int),
            out.deep_view() + whitespace_split(s@.subrange(cur as int, to as int))
                == whitespace_split(whole),
            cur == to ==> out.deep_view() == whitespace_split(whole),
        decreases to - cur,
    {
        let ghost seg = s@.subrange(cur as int, to as int);
        if char_is_space(s[cur]) {
            proof {
                assert(seg[0] == s@[cur as int]);
                assert(seg.drop_first() =~= s@.subrange(cur + 1, to as int));
            }
            cur += 1;
        } else {
            // the run end within [cur, to)
            let mut j: usize = cur;
            loop
                invariant
                    cur <= j <= to <= s@.len(),
                    seg == s@.subrange(cur as int, to as int),
                    nonspace_end(seg, 0) == nonspace_end(seg, j - cur),
                ensures
                    cur <= j <= to,
                    nonspace_end(seg, 0) == nonspace_end(seg, j - cur),
                    j == to || is_space_of(s@[j as int]),
                decreases to - j,
            {
                proof {
                    assert(seg.len() == to - cur);
                }
                if j >= to {
                    break;
                }
                proof {
                    assert(seg[j - cur] == s@[j as int]);
                }
                if char_is_space(s[j]) {
                    break;
                }
                j += 1;
            }
            proof {
                assert(seg.len() == to - cur);
                if j < to {
                    assert(seg[j - cur] == s@[j as int]);
                }
                assert(nonspace_end(seg, j - cur) == j - cur);
            }
            let mut piece: Vec<char> = Vec::new();
            push_range(&mut piece, s, cur, j);
            proof {
                assert(piece@ =~= seg.take(j - cur));
            }
            let word = chars_string(&piece);
            let ghost prev = out@;
            let ghost prev_deep = out.deep_view();
            out.push(word);
            proof {
                assert forall|k: int| 0 <= k < out@.len() implies #[trigger] out.deep_view()[k] == (
                prev_deep.push(seg.take(j - cur)))[k] by {
                    if k < prev.len() {
                        assert(out@[k] == prev[k]);
                        assert(prev_deep[k] == prev[k].deep_view());
                    }
                }
                assert(out.deep_view() =~= prev_deep.push(seg.take(j - cur)));
                assert(seg.skip(j - cur) =~= s@.subrange(j as int, to as int));
                assert(whitespace_split(seg) == seq![seg.take(j - cur)] + whitespace_split(
                    seg.skip(j - cur),
                ));
                assert(out.deep_view() + whitespace_split(s@.subrange(j as int, to as int))
                    =~= whitespace_split(whole));
            }
            cur = j;
            proof {
                if cur == to {
                    assert(s@.subrange(to as int, to as int).len() == 0);
                    assert(whitespace_split(s@.subrange(cur as int, to as int))
                        == Seq::<Seq<char>>::empty());
                    assert(out.deep_view() + Seq::<Seq<char>>::empty() =~= out.deep_view());
                }
            }
        }
    }
    proof {
        assert(s@.subrange(to as int, to as int).len() == 0);
    }
    out
}

fn extend_strings(dst: &mut Vec<String>, src: Vec<String>)
    ensures
        final(dst).deep_view() == old(dst).deep_view() + src.deep_view(),
{
    let ghost base = dst.deep_view();
    let ghost sv = src.deep_view();
    let n = src.len();
    let mut i: usize = 0;
    let mut source = src;
    proof {
        assert(base + sv.take(0) =~= base);
    }
    while i < n
        invariant
            n == source@.len(),
            sv == source.deep_view(),
            sv.len() == n,
            i <= n,
            dst.deep_view() == base + sv.take(i as int),
        decreases n - i,
    {
        let item = source[i].clone();
        let ghost prev = dst@;
        let ghost prev_deep = dst.deep_view();
        proof {
            assert(prev_deep.len() == prev.len());
        }
        dst.push(item);
        proof {
            assert(dst@.len() == prev.len() + 1);
            assert forall|k: int| 0 <= k < dst@.len() implies #[trigger] dst.deep_view()[k] == (base
                + sv.take(i + 1))[k] by {
                if k < prev.len() {
                    assert(dst@[k] == prev[k]);
                    assert(prev_deep[k] == prev[k].deep_view());
                } else {
                    assert(dst@[k] == item);
                    assert(item@ == source@[i as int]@);
                    assert(sv[i as int] == source@[i as int]@);
                }
            }
            assert(dst.deep_view() =~= base + sv.take(i + 1));
        }
        i += 1;
    }
    proof {
        assert(sv.take(n as int) =~= sv);
        assert(dst.deep_view() =~= base + sv);
    }
}

/// Parses a search query into field-restricted terms and default terms.
pub fn parse_search_query(query: &str) -> (r: ParsedSearchQuery)
    ensures
        r@ == spec_parse_query(query@),
{
    let chars = str_chars(query);
    if chars_blank(&chars) {
        let r = ParsedSearchQuery { field_terms: Vec::new(), default_terms: Vec::new() };
        proof {
            assert(r@ =~~= spec_parse_query(query@));
        }
        return r;
    }
    let n = chars.len();
    let mut field_terms: Vec<SearchTerm> = Vec::new();
    let mut ranges: Vec<(usize, usize)> = Vec::new();
    let ghost mut granges: Seq<(int, int)> = Seq::empty();
    let mut cur: usize = 0;
    loop
        invariant
            cur <= n,
            n == chars@.len(),
            chars@ == query@,
            granges.len() == ranges@.len(),
            forall|k: int| 0 <= k < granges.len() ==> #[trigger] granges[k] == (
                ranges@[k].0 as int,
                ranges@[k].1 as int,
            ),
            forall|k: int| 0 <= k < granges.len() ==> 0 <= #[trigger] granges[k].0
                && granges[k].0 <= granges[k].1 <= n,
            forall|k: int| 0 <= k < granges.len() - 1 ==> #[trigger] granges[k].1 <= granges[
                k + 1].0,
            granges.len() > 0 ==> granges.last().1 <= cur,
            (field_terms.deep_view(), granges) == {
                let whole = scan_query(chars@, 0);
                let rest = scan_query(chars@, cur as int);
                (
                    whole.0.take(whole.0.len() - rest.0.len() as int),
                    whole.1.take(whole.1.len() - rest.1.len() as int),
                )
            },
            scan_query(chars@, 0).0 == field_terms.deep_view() + scan_query(chars@, cur as int).0,
            scan_query(chars@, 0).1 == granges + scan_query(chars@, cur as int).1,
        ensures
            scan_query(chars@, 0).0 == field_terms.deep_view(),
            scan_query(chars@, 0).1 == granges,
            granges.len() == ranges@.len(),
            forall|k: int| 0 <= k < granges.len() ==> #[trigger] granges[k] == (
                ranges@[k].0 as int,
                ranges@[k].1 as int,
            ),
            forall|k: int| 0 <= k < granges.len() ==> 0 <= #[trigger] granges[k].0
                && granges[k].0 <= granges[k].1 <= n,
            forall|k: int| 0 <= k < granges.len() - 1 ==> #[trigger] granges[k].1 <= granges[
                k + 1].0,
            n == chars@.len(),
        decreases n - cur,
    {
        match find_fmatch_exec(&chars, cur) {
            None => {
                proof {
                    assert(scan_query(chars@, cur as int).0 =~= Seq::<SearchTermV>::empty());
                    assert(scan_query(chars@, cur as int).1 =~= Seq::<(int, int)>::empty());
                    assert(field_terms.deep_view() + scan_query(chars@, cur as int).0
                        =~= field_terms.deep_view());
                    assert(granges + scan_query(chars@, cur as int).1 =~= granges);
                }
                break;
            },
            Some((i, w, v)) => {
                let ghost pre_terms = field_terms.deep_view();
                let ghost pre_granges = granges;
                let mut name_chars: Vec<char> = Vec::new();
                push_range(&mut name_chars, &chars, i, w);
                proof {
                    assert(name_chars@ =~= chars@.subrange(i as int, w as int));
                }
                let name = chars_string(&name_chars);
                match SearchField::from_str(name.as_str()) {
                    Some(f) => {
                        let normalized = match f {
                            SearchField::To => SearchField::Recipient,
                            other => other,
                        };
                        let mut value_chars: Vec<char> = Vec::new();
                        push_range(&mut value_chars, &chars, w + 1, v);
                        proof {
                            assert(value_chars@ =~= chars@.subrange(w + 1, v as int));
                        }
                        let value = chars_string(&value_chars);
                        let term = SearchTerm { field: normalized, value };
                        let ghost prev = field_terms@;
                        let ghost prev_deep = field_terms.deep_view();
                        field_terms.push(term);
                        ranges.push((i, v));
                        proof {
                            granges = granges.push((i as int, v as int));
                            assert forall|k: int| 0 <= k < field_terms@.len() implies
                                #[trigger] field_terms.deep_view()[k] == prev_deep.push(term@)[
                            k] by {
                                if k < prev.len() {
                                    assert(field_terms@[k] == prev[k]);
                                    assert(prev_deep[k] == prev[k].deep_view());
                                }
                            }
                            assert(field_terms.deep_view() =~= prev_deep.push(term@));
                            assert(scan_query(chars@, cur as int).0 =~= seq![term@] + scan_query(
                                chars@,
                                v as int,
                            ).0);
                            assert(scan_query(chars@, cur as int).1 =~= seq![
                                (i as int, v as int),
                            ] + scan_query(chars@, v as int).1);
                            assert(scan_query(chars@, 0).0 =~= field_terms.deep_view()
                                + scan_query(chars@, v as int).0);
                            assert(scan_query(chars@, 0).1 =~= granges + scan_query(
                                chars@,
                                v as int,
                            ).1);
                        }
                        cur = v;
                    },
                    None => {
                        proof {
                            assert(scan_query(chars@, cur as int) == scan_query(chars@, v as int));
                        }
                        cur = v;
                    },
                }
            },
        }
    }
    // the text outside the consumed ranges, split on whitespace
    let mut default_terms: Vec<String> = Vec::new();
    let rn = ranges.len();
    let mut k: usize = 0;
    let mut last: usize = 0;
    proof {
        assert(granges.skip(0) =~= granges);
    }
    while k < rn
        invariant
            k <= rn,
            rn == ranges@.len(),
            granges.len() == rn,
            n == chars@.len(),
            forall|j: int| 0 <= j < granges.len() ==> #[trigger] granges[j] == (
                ranges@[j].0 as int,
                ranges@[j].1 as int,
            ),
            forall|j: int| 0 <= j < granges.len() ==> 0 <= #[trigger] granges[j].0
                && granges[j].0 <= granges[j].1 <= n,
            forall|j: int| 0 <= j < granges.len() - 1 ==> #[trigger] granges[j].1 <= granges[
                j + 1].0,
            last <= n,
            k < rn ==> last <= granges[k as int].0,
            k > 0 ==> last == granges[k - 1].1,
            k == 0 ==> last == 0,
            default_terms.deep_view() + gaps(chars@, granges.skip(k as int), last as int) == gaps(
                chars@,
                granges,
                0,
            ),
        decreases rn - k,
    {
        let (start, endr) = ranges[k];
        proof {
            assert(granges[k as int] == (start as int, endr as int));
            assert(granges.skip(k as int).first() == granges[k as int]);
            assert(granges.skip(k as int).drop_first() =~= granges.skip(k + 1));
        }
        let seg = whitespace_split_range(&chars, last, start);
        let ghost before = default_terms.deep_view();
        extend_strings(&mut default_terms, seg);
        proof {
            assert(gaps(chars@, granges.skip(k as int), last as int) == whitespace_split(
                chars@.subrange(last as int, start as int),
            ) + gaps(chars@, granges.skip(k + 1), endr as int));
            assert(default_terms.deep_view() + gaps(chars@, granges.skip(k + 1), endr as int)
                =~= gaps(chars@, granges, 0));
        }
        last = endr;
        k += 1;
    }
    proof {
        assert(granges.skip(rn as int).len() == 0);
    }
    let tail = whitespace_split_range(&chars, last, n);
    extend_strings(&mut default_terms, tail);
    proof {
        assert(gaps(chars@, granges.skip(rn as int), last as int) == whitespace_split(
            chars@.subrange(last as int, n as int),
        ));
        assert(chars@.subrange(last as int, n as int) =~= chars@.subrange(
            last as int,
            chars@.len() as int,
        ));
        assert(default_terms.deep_view() =~= gaps(chars@, granges, 0));
    }
    let r = ParsedSearchQuery { field_terms, default_terms };
    proof {
        assert(r@ =~~= spec_parse_query(query@));
    }
    r
}

// ---------------------------------------------------------------------------
// The SQL filter the parsed query stands for
// ---------------------------------------------------------------------------

/// Single quotes doubled, so that no other SQL fragment can be interpolated
/// from user input.
pub open spec fn sql_escape(s: Seq<char>) -> Seq<char>
    decreases s.len(),
{
    if s.len() == 0 {
        Seq::empty()
    } else if s[0] == '\'' {
        seq!['\'', '\''] + sql_escape(s.drop_first())
    } else {
        seq![s[0]] + sql_escape(s.drop_first())
    }
}

/// The escaped `%value%` pattern a term turns into.
pub open spec fn spec_pattern(v: Seq<char>) -> Seq<char> {
    sql_escape("%"@ + v + "%"@)
}

pub open spec fn like1(col: Seq<char>, p: Seq<char>) -> Seq<char> {
    col + " LIKE '"@ + p + "'"@
}

/// The envelope-recipient leg: a direct column when the query is already
/// joined against envelope recipients, a subquery otherwise.
pub open spec fn spec_env_part(has_env: bool, p: Seq<char>) -> Seq<char> {
    if has_env {
        like1("envelope_recipients.email"@, p)
    } else {
        "EXISTS (SELECT 1 FROM email_envelope_recipients INNER JOIN envelope_recipients ON email_envelope_recipients.envelope_recipient_id = envelope_recipients.id WHERE email_envelope_recipients.email_id = emails.id AND envelope_recipients.email LIKE '"@
            + p + "')"@
    }
}

/// What one field-restricted term filters on.
pub open spec fn spec_field_condition(f: SearchField, p: Seq<char>, has_env: bool) -> Seq<char> {
    match f {
        SearchField::Subject => like1("emails.subject"@, p),
        SearchField::From => "("@ + like1("emails.envelope_from"@, p)
            + " OR EXISTS (SELECT 1 FROM headers WHERE headers.email_id = emails.id AND LOWER(headers.name) = 'from' AND headers.value LIKE '"@
            + p + "'))"@,
        SearchField::Recipient => "("@ + spec_env_part(has_env, p)
            + " OR EXISTS (SELECT 1 FROM headers WHERE headers.email_id = emails.id AND LOWER(headers.name) IN ('to', 'cc', 'bcc') AND headers.value LIKE '"@
            + p + "'))"@,
        SearchField::To => "("@ + spec_env_part(has_env, p)
            + " OR EXISTS (SELECT 1 FROM headers WHERE headers.email_id = emails.id AND LOWER(headers.name) IN ('to', 'cc', 'bcc') AND headers.value LIKE '"@
            + p + "'))"@,
        SearchField::Text => like1("emails.body_text"@, p),
        SearchField::Html => like1("emails.body_html"@, p),
        SearchField::Attachment => "EXISTS (SELECT 1 FROM attachments WHERE attachments.email_id = emails.id AND attachments.filename LIKE '"@
            + p + "')"@,
    }
}

/// What one bareword filters on: subject, envelope-from, body text, any
/// envelope recipient, or any addressing header value.
pub open spec fn spec_default_condition(p: Seq<char>, has_env: bool) -> Seq<char> {
    "("@ + like1("emails.subject"@, p) + " OR "@ + like1("emails.envelope_from"@, p) + " OR "@
        + like1("emails.body_text"@, p) + " OR "@ + spec_env_part(has_env, p)
        + " OR EXISTS (SELECT 1 FROM headers WHERE headers.email_id = emails.id AND LOWER(headers.name) IN ('from', 'to', 'cc', 'bcc') AND headers.value LIKE '"@
        + p + "'))"@
}

pub open spec fn field_parts(terms: Seq<SearchTermV>, has_env: bool) -> Seq<Seq<char>>
    decreases terms.len(),
{
    if terms.len() == 0 {
        Seq::empty()
    } else {
        seq![
            "("@ + spec_field_condition(
                terms.first().field,
                spec_pattern(terms.first().value),
                has_env,
            ) + ")"@,
        ] + field_parts(terms.drop_first(), has_env)
    }
}

pub open spec fn default_parts(ts: Seq<Seq<char>>, has_env: bool) -> Seq<Seq<char>>
    decreases ts.len(),
{
    if ts.len() == 0 {
        Seq::empty()
    } else {
        seq![
            "("@ + spec_default_condition(spec_pattern(ts.first()), has_env) + ")"@,
        ] + default_parts(ts.drop_first(), has_env)
    }
}

/// The whole WHERE condition for a parsed query, `None` when the query is
/// empty: each term's condition parenthesized, the barewords AND-combined in
/// a group of their own, everything AND-combined.
pub open spec fn spec_build_condition(q: ParsedQueryV, has_env: bool) -> Option<Seq<char>> {
    if q.field_terms.len() == 0 && q.default_terms.len() == 0 {
        None
    } else {
        let fp = field_parts(q.field_terms, has_env);
        let parts = if q.default_terms.len() == 0 {
            fp
        } else {
            fp.push("("@ + crate::strings::spec_join_sep(default_parts(q.default_terms, has_env), " AND "@) + ")"@)
        };
        Some(crate::strings::spec_join_sep(parts, " AND "@))
    }
}

/// `%term%`, the LIKE pattern for a search term.
pub fn build_search_pattern(search_term: &str) -> (r: String)
    ensures
        r@ == "%"@ + search_term@ + "%"@,
{
    let mut out = String::from_str("%");
    out.append(search_term);
    out.append("%");
    out
}

fn sql_escape_exec(s: &str) -> (r: String)
    ensures
        r@ == sql_escape(s@),
{
    let chars = str_chars(s);
    let n = chars.len();
    let mut out: Vec<char> = Vec::new();
    let mut i: usize = 0;
    proof {
        assert(chars@.skip(0) =~= chars@);
    }
    while i < n
        invariant
            n == chars@.len(),
            chars@ == s@,
            i <= n,
            out@ + sql_escape(chars@.skip(i as int)) == sql_escape(chars@),
        decreases n - i,
    {
        proof {
            let rest = chars@.skip(i as int);
            assert(rest.len() > 0);
            assert(rest[0] == chars@[i as int]);
            assert(rest.drop_first() =~= chars@.skip(i + 1));
        }
        let c = chars[i];
        if c == '\'' {
            out.push('\'');
            out.push('\'');
        } else {
            out.push(c);
        }
        i += 1;
    }
    proof {
        assert(chars@.skip(n as int).len() == 0);
        assert(out@ + sql_escape(chars@.skip(n as int)) =~= out@);
    }
    chars_string(&out)
}

fn env_part_exec(has_env: bool, p: &str) -> (r: String)
    ensures
        r@ == spec_env_part(has_env, p@),
{
    if has_env {
        let mut out = String::from_str("envelope_recipients.email");
        out.append(" LIKE '");
        out.append(p);
        out.append("'");
        proof {
            assert(out@ =~= like1("envelope_recipients.email"@, p@));
        }
        out
    } else {
        let mut out = String::from_str(
            "EXISTS (SELECT 1 FROM email_envelope_recipients INNER JOIN envelope_recipients ON email_envelope_recipients.envelope_recipient_id = envelope_recipients.id WHERE email_envelope_recipients.email_id = emails.id AND envelope_recipients.email LIKE '",
        );
        out.append(p);
        out.append("')");
        out
    }
}

fn field_condition_exec(f: SearchField, p: &str, has_env: bool) -> (r: String)
    ensures
        r@ == spec_field_condition(f, p@, has_env),
{
    match f {
        SearchField::Subject => {
            let mut out = String::from_str("emails.subject");
            out.append(" LIKE '");
            out.append(p);
            out.append("'");
            proof {
                assert(out@ =~= like1("emails.subject"@, p@));
            }
            out
        },
        SearchField::From => {
            let mut out = String::from_str("(");
            out.append("emails.envelope_from");
            out.append(" LIKE '");
            out.append(p);
            out.append("'");
            out.append(
                " OR EXISTS (SELECT 1 FROM headers WHERE headers.email_id = emails.id AND LOWER(headers.name) = 'from' AND headers.value LIKE '",
            );
            out.append(p);
            out.append("'))");
            proof {
                assert(out@ =~= spec_field_condition(f, p@, has_env));
            }
            out
        },
        SearchField::Recipient => recipient_condition_exec(f, p, has_env),
        SearchField::To => recipient_condition_exec(f, p, has_env),
        SearchField::Text => {
            let mut out = String::from_str("emails.body_text");
            out.append(" LIKE '");
            out.append(p);
            out.append("'");
            proof {
                assert(out@ =~= like1("emails.body_text"@, p@));
            }
            out
        },
        SearchField::Html => {
            let mut out = String::from_str("emails.body_html");
            out.append(" LIKE '");
            out.append(p);
            out.append("'");
            proof {
                assert(out@ =~= like1("emails.body_html"@, p@));
            }
            out
        },
        SearchField::Attachment => {
            let mut out = String::from_str(
                "EXISTS (SELECT 1 FROM attachments WHERE attachments.email_id = emails.id AND attachments.filename LIKE '",
            );
            out.append(p);
            out.append("')");
            out
        },
    }
}

fn recipient_condition_exec(f: SearchField, p: &str, has_env: bool) -> (r: String)
    requires
        f == SearchField::Recipient || f == SearchField::To,
    ensures
        r@ == spec_field_condition(f, p@, has_env),
{
    let env = env_part_exec(has_env, p);
    let mut out = String::from_str("(");
    out.append(env.as_str());
    out.append(
        " OR EXISTS (SELECT 1 FROM headers WHERE headers.email_id = emails.id AND LOWER(headers.name) IN ('to', 'cc', 'bcc') AND headers.value LIKE '",
    );
    out.append(p);
    out.append("'))");
    proof {
        assert(out@ =~= spec_field_condition(f, p@, has_env));
    }
    out
}

fn default_condition_exec(p: &str, has_env: bool) -> (r: String)
    ensures
        r@ == spec_default_condition(p@, has_env),
{
    let env = env_part_exec(has_env, p);
    let mut out = String::from_str("(");
    out.append("emails.subject");
    out.append(" LIKE '");
    out.append(p);
    out.append("'");
    out.append(" OR ");
    out.append("emails.envelope_from");
    out.append(" LIKE '");
    out.append(p);
    out.append("'");
    out.append(" OR ");
    out.append("emails.body_text");
    out.append(" LIKE '");
    out.append(p);
    out.append("'");
    out.append(" OR ");
    out.append(env.as_str());
    out.append(
        " OR EXISTS (SELECT 1 FROM headers WHERE headers.email_id = emails.id AND LOWER(headers.name) IN ('from', 'to', 'cc', 'bcc') AND headers.value LIKE '",
    );
    out.append(p);
    out.append("'))");
    proof {
        assert(out@ =~= spec_default_condition(p@, has_env));
    }
    out
}

/// Builds the SQL WHERE condition a parsed query stands for; `None` for an
/// empty query. Every user-supplied value goes through quote escaping.
pub fn build_search_sql_condition(
    search_query: &ParsedSearchQuery,
    has_envelope_recipients: bool,
) -> (r: Option<String>)
    ensures
        match r {
            Some(sql) => spec_build_condition(search_query@, has_envelope_recipients) == Some(
                sql@,
            ),
            None => spec_build_condition(search_query@, has_envelope_recipients) is None,
        },
{
    let ghost qv = search_query@;
    if search_query.field_terms.len() == 0 && search_query.default_terms.len() == 0 {
        return None;
    }
    let terms = &search_query.field_terms;
    let tn = terms.len();
    let mut sql_parts: Vec<String> = Vec::new();
    let mut i: usize = 0;
    proof {
        assert(qv.field_terms.skip(0) =~= qv.field_terms);
        assert(field_parts(qv.field_terms.skip(0), has_envelope_recipients) == field_parts(
            qv.field_terms,
            has_envelope_recipients,
        ));
    }
    while i < tn
        invariant
            tn == terms@.len(),
            qv.field_terms == terms.deep_view(),
            qv.field_terms.len() == tn,
            i <= tn,
            sql_parts.deep_view() + field_parts(
                qv.field_terms.skip(i as int),
                has_envelope_recipients,
            ) == field_parts(qv.field_terms, has_envelope_recipients),
        decreases tn - i,
    {
        proof {
            assert(qv.field_terms.skip(i as int).len() > 0);
            assert(qv.field_terms.skip(i as int).first() == qv.field_terms[i as int]);
            assert(qv.field_terms.skip(i as int).drop_first() =~= qv.field_terms.skip(i + 1));
            assert(terms.deep_view()[i as int] == terms@[i as int]@);
        }
        let raw = build_search_pattern(terms[i].value.as_str());
        let escaped = sql_escape_exec(raw.as_str());
        let cond = field_condition_exec(terms[i].field, escaped.as_str(), has_envelope_recipients);
        let mut wrapped = String::from_str("(");
        wrapped.append(cond.as_str());
        wrapped.append(")");
        let ghost prev = sql_parts@;
        let ghost prev_deep = sql_parts.deep_view();
        sql_parts.push(wrapped);
        proof {
            assert forall|k: int| 0 <= k < sql_parts@.len() implies
                #[trigger] sql_parts.deep_view()[k] == prev_deep.push(
                "("@ + spec_field_condition(
                    qv.field_terms[i as int].field,
                    spec_pattern(qv.field_terms[i as int].value),
                    has_envelope_recipients,
                ) + ")"@,
            )[k] by {
                if k < prev.len() {
                    assert(sql_parts@[k] == prev[k]);
                    assert(prev_deep[k] == prev[k].deep_view());
                }
            }
            assert(sql_parts.deep_view() + field_parts(
                qv.field_terms.skip(i + 1),
                has_envelope_recipients,
            ) =~= field_parts(qv.field_terms, has_envelope_recipients));
        }
        i += 1;
    }
    proof {
        assert(qv.field_terms.skip(tn as int).len() == 0);
        assert(field_parts(qv.field_terms.skip(tn as int), has_envelope_recipients) =~= Seq::<
            Seq<char>,
        >::empty());
        assert(sql_parts.deep_view() =~= field_parts(qv.field_terms, has_envelope_recipients));
    }
    if search_query.default_terms.len() > 0 {
        let dts = &search_query.default_terms;
        let dn = dts.len();
        let mut dparts: Vec<String> = Vec::new();
        let mut j: usize = 0;
        proof {
            assert(qv.default_terms.skip(0) =~= qv.default_terms);
        }
        while j < dn
            invariant
                dn == dts@.len(),
                qv.default_terms == dts.deep_view(),
                qv.default_terms.len() == dn,
                j <= dn,
                dparts.deep_view() + default_parts(
                    qv.default_terms.skip(j as int),
                    has_envelope_recipients,
                ) == default_parts(qv.default_terms, has_envelope_recipients),
            decreases dn - j,
        {
            proof {
                assert(qv.default_terms.skip(j as int).len() > 0);
                assert(qv.default_terms.skip(j as int).first() == qv.default_terms[j as int]);
                assert(qv.default_terms.skip(j as int).drop_first() =~= qv.default_terms.skip(
                    j + 1,
                ));
                assert(dts.deep_view()[j as int] == dts@[j as int]@);
            }
            let raw = build_search_pattern(dts[j].as_str());
            let escaped = sql_escape_exec(raw.as_str());
            let cond = default_condition_exec(escaped.as_str(), has_envelope_recipients);
            let mut wrapped = String::from_str("(");
            wrapped.append(cond.as_str());
            wrapped.append(")");
            let ghost prev = dparts@;
            let ghost prev_deep = dparts.deep_view();
            dparts.push(wrapped);
            proof {
                assert forall|k: int| 0 <= k < dparts@.len() implies
                    #[trigger] dparts.deep_view()[k] == prev_deep.push(
                    "("@ + spec_default_condition(
                        spec_pattern(qv.default_terms[j as int]),
                        has_envelope_recipients,
                    ) + ")"@,
                )[k] by {
                    if k < prev.len() {
                        assert(dparts@[k] == prev[k]);
                        assert(prev_deep[k] == prev[k].deep_view());
                    }
                }
                assert(dparts.deep_view() + default_parts(
                    qv.default_terms.skip(j + 1),
                    has_envelope_recipients,
                ) =~= default_parts(qv.default_terms, has_envelope_recipients));
            }
            j += 1;
        }
        proof {
            assert(qv.default_terms.skip(dn as int).len() == 0);
            assert(default_parts(qv.default_terms.skip(dn as int), has_envelope_recipients)
                =~= Seq::<Seq<char>>::empty());
            assert(dparts.deep_view() =~= default_parts(
                qv.default_terms,
                has_envelope_recipients,
            ));
        }
        let joined = crate::strings::join_with_strings(&dparts, " AND ");
        let mut grouped = String::from_str("(");
        grouped.append(joined.as_str());
        grouped.append(")");
        let ghost prev = sql_parts@;
        let ghost prev_deep = sql_parts.deep_view();
        let ghost gview = grouped@;
        sql_parts.push(grouped);
        proof {
            assert forall|k: int| 0 <= k < sql_parts@.len() implies
                #[trigger] sql_parts.deep_view()[k] == prev_deep.push(gview)[k] by {
                if k < prev.len() {
                    assert(sql_parts@[k] == prev[k]);
                    assert(prev_deep[k] == prev[k].deep_view());
                }
            }
            assert(sql_parts.deep_view() =~= prev_deep.push(gview));
        }
    }
    let result = crate::strings::join_with_strings(&sql_parts, " AND ");
    proof {
        assert(spec_build_condition(qv, has_envelope_recipients) == Some(result@));
    }
    Some(result)
}

} // verus!
