//! Character-sequence utilities shared by the protocol, search and HTML
//! modules: ASCII case folding, pattern matching, splitting and joining.
//! Exec code works on `Vec<char>`, whose view is the same `Seq<char>` as the
//! view of the `String` it came from.

use vstd::prelude::*;

verus! {

// ---------------------------------------------------------------------------
// ASCII case folding
// ---------------------------------------------------------------------------

pub open spec fn is_ascii_upper(c: char) -> bool {
    65 <= c as u32 <= 90
}

/// Codepoint of `c` with an ASCII upper-case letter folded to lower case.
pub open spec fn fold_ci(c: char) -> int {
    if is_ascii_upper(c) {
        c as u32 + 32
    } else {
        c as u32 as int
    }
}

/// ASCII-case-insensitive character equality.
pub open spec fn eq_ci(a: char, b: char) -> bool {
    fold_ci(a) == fold_ci(b)
}

/// ASCII lower-case image of a whole sequence, as codepoints.
pub open spec fn folded(s: Seq<char>) -> Seq<int> {
    s.map_values(|c: char| fold_ci(c))
}

pub fn char_eq_ci(a: char, b: char) -> (r: bool)
    ensures
        r == eq_ci(a, b),
{
    let au: u32 = a as u32;
    let bu: u32 = b as u32;
    let af: u32 = if 65 <= au && au <= 90 {
        au + 32
    } else {
        au
    };
    let bf: u32 = if 65 <= bu && bu <= 90 {
        bu + 32
    } else {
        bu
    };
    af == bf
}

/// ASCII lower-case image of one character.
pub fn char_fold(c: char) -> (r: char)
    ensures
        r as u32 == fold_ci(c),
{
    let cu: u32 = c as u32;
    if 65 <= cu && cu <= 90 {
        ((cu + 32) as u8) as char
    } else {
        c
    }
}

// ---------------------------------------------------------------------------
// Substring matching, case-sensitive and case-insensitive
// ---------------------------------------------------------------------------

/// `pat` occurs in `s` at index `i` up to ASCII case.
pub open spec fn matches_ci_at(s: Seq<char>, pat: Seq<char>, i: int) -> bool {
    &&& 0 <= i
    &&& i + pat.len() <= s.len()
    &&& forall|j: int| 0 <= j < pat.len() ==> eq_ci(s[i + j], #[trigger] pat[j])
}

pub fn matches_ci_at_exec(s: &Vec<char>, pat: &Vec<char>, i: usize) -> (r: bool)
    requires
        i + pat@.len() <= s@.len(),
    ensures
        r == matches_ci_at(s@, pat@, i as int),
{
    let n = s.len();
    let mut j: usize = 0;
    while j < pat.len()
        invariant
            n == s@.len(),
            i + pat@.len() <= s@.len(),
            j <= pat@.len(),
            forall|k: int| 0 <= k < j ==> eq_ci(s@[i + k], #[trigger] pat@[k]),
        decreases pat@.len() - j,
    {
        if !char_eq_ci(s[i + j], pat[j]) {
            return false;
        }
        j += 1;
    }
    true
}


/// Exact equality of two character vectors.
pub fn chars_eq(a: &Vec<char>, b: &Vec<char>) -> (r: bool)
    ensures
        r == (a@ == b@),
{
    let n = a.len();
    if n != b.len() {
        return false;
    }
    let mut i: usize = 0;
    while i < n
        invariant
            n == a@.len(),
            n == b@.len(),
            i <= n,
            forall|k: int| 0 <= k < i ==> a@[k] == b@[k],
        decreases n - i,
    {
        if a[i] != b[i] {
            return false;
        }
        i += 1;
    }
    proof {
        assert(a@ =~= b@);
    }
    true
}

/// Equality of two character vectors up to ASCII case.
pub fn chars_eq_folded(a: &Vec<char>, b: &Vec<char>) -> (r: bool)
    ensures
        r == (folded(a@) == folded(b@)),
{
    let n = a.len();
    if n != b.len() {
        proof {
            assert(folded(a@).len() != folded(b@).len());
        }
        return false;
    }
    let mut i: usize = 0;
    while i < n
        invariant
            n == a@.len(),
            n == b@.len(),
            i <= n,
            forall|k: int| 0 <= k < i ==> eq_ci(a@[k], b@[k]),
        decreases n - i,
    {
        if !char_eq_ci(a[i], b[i]) {
            proof {
                assert(folded(a@)[i as int] != folded(b@)[i as int]);
            }
            return false;
        }
        i += 1;
    }
    proof {
        assert(folded(a@) =~= folded(b@));
    }
    true
}

// ---------------------------------------------------------------------------
// Finding a character; splitting; joining
// ---------------------------------------------------------------------------

/// Index of the first occurrence of `c` in `s` at or after `from`.
pub open spec fn find_ch_from(s: Seq<char>, c: char, from: int) -> Option<int>
    decreases s.len() - from,
{
    if from < 0 || from >= s.len() {
        None
    } else if s[from] == c {
        Some(from)
    } else {
        find_ch_from(s, c, from + 1)
    }
}

pub proof fn lemma_find_ch_from(s: Seq<char>, c: char, from: int)
    requires
        0 <= from,
    ensures
        match find_ch_from(s, c, from) {
            Some(i) => from <= i < s.len() && s[i] == c && forall|k: int|
                from <= k < i ==> s[k] != c,
            None => forall|k: int| from <= k < s.len() ==> s[k] != c,
        },
    decreases s.len() - from,
{
    if from < s.len() && s[from] != c {
        lemma_find_ch_from(s, c, from + 1);
    }
}

pub fn find_char_from(s: &Vec<char>, c: char, from: usize) -> (r: Option<usize>)
    ensures
        match r {
            Some(i) => from <= i < s@.len() && find_ch_from(s@, c, from as int) == Some(i as int),
            None => find_ch_from(s@, c, from as int) is None,
        },
{
    let mut i: usize = from;
    while i < s.len()
        invariant
            from <= i,
            i <= s@.len() || from >= s@.len(),
            find_ch_from(s@, c, from as int) == find_ch_from(s@, c, i as int),
        decreases s@.len() - i,
    {
        if s[i] == c {
            return Some(i);
        }
        i += 1;
    }
    None
}

/// The pieces of `s` split on every occurrence of `c`, exactly as
/// `str::split(c)` yields them: `n` separators give `n + 1` pieces, and an
/// empty input gives one empty piece.
pub open spec fn spec_split(s: Seq<char>, c: char) -> Seq<Seq<char>>
    decreases s.len(),
    via spec_split_decreases
{
    match find_ch_from(s, c, 0) {
        Some(i) => seq![s.take(i)] + spec_split(s.skip(i + 1), c),
        None => seq![s],
    }
}

#[via_fn]
proof fn spec_split_decreases(s: Seq<char>, c: char) {
    lemma_find_ch_from(s, c, 0);
}

pub fn split_on(s: &Vec<char>, c: char) -> (r: Vec<Vec<char>>)
    ensures
        r@.len() == spec_split(s@, c).len(),
        forall|k: int| 0 <= k < r@.len() ==> #[trigger] r@[k]@ == spec_split(s@, c)[k],
    decreases s@.len(),
{
    let n = s.len();
    proof {
        lemma_find_ch_from(s@, c, 0);
    }
    match find_char_from(s, c, 0) {
        Some(i) => {
            let mut head: Vec<char> = Vec::new();
            push_range(&mut head, s, 0, i);
            assert(head@ =~= s@.take(i as int));
            let mut tail: Vec<char> = Vec::new();
            push_range(&mut tail, s, i + 1, n);
            assert(tail@ =~= s@.skip(i + 1));
            let rest = split_on(&tail, c);
            let ghost whole = spec_split(s@, c);
            proof {
                assert(whole == seq![s@.take(i as int)] + spec_split(s@.skip(i + 1), c));
                assert(whole.len() == 1 + rest@.len());
            }
            let mut out: Vec<Vec<char>> = Vec::new();
            out.push(head);
            let mut m: usize = 0;
            let rn = rest.len();
            while m < rn
                invariant
                    rn == rest@.len(),
                    tail@ == s@.skip(i + 1),
                    rest@.len() == spec_split(tail@, c).len(),
                    forall|k: int| 0 <= k < rest@.len() ==> #[trigger] rest@[k]@ == spec_split(
                        tail@,
                        c,
                    )[k],
                    whole == spec_split(s@, c),
                    whole == seq![s@.take(i as int)] + spec_split(tail@, c),
                    m <= rn,
                    out@.len() == m + 1,
                    forall|k: int| 0 <= k < out@.len() ==> #[trigger] out@[k]@ == whole[k],
                decreases rn - m,
            {
                let piece = clone_chars(&rest[m]);
                out.push(piece);
                m += 1;
            }
            out
        },
        None => {
            let mut out: Vec<Vec<char>> = Vec::new();
            out.push(clone_chars(s));
            out
        },
    }
}

pub fn clone_chars(s: &Vec<char>) -> (r: Vec<char>)
    ensures
        r@ == s@,
{
    let mut out: Vec<char> = Vec::new();
    let mut i: usize = 0;
    while i < s.len()
        invariant
            i <= s@.len(),
            out@ == s@.take(i as int),
        decreases s@.len() - i,
    {
        out.push(s[i]);
        proof {
            assert(s@.take((i + 1) as int) =~= s@.take(i as int).push(s@[i as int]));
        }
        i += 1;
    }
    assert(out@ =~= s@);
    out
}

/// Appends `src[from..to]` to `dst`.
pub fn push_range(dst: &mut Vec<char>, src: &Vec<char>, from: usize, to: usize)
    requires
        from <= to <= old(dst)@.len() + src@.len(),
        from <= to <= src@.len(),
    ensures
        final(dst)@ == old(dst)@ + src@.subrange(from as int, to as int),
{
    let mut i: usize = from;
    while i < to
        invariant
            from <= i <= to <= src@.len(),
            dst@ == old(dst)@ + src@.subrange(from as int, i as int),
        decreases to - i,
    {
        dst.push(src[i]);
        proof {
            assert(src@.subrange(from as int, (i + 1) as int) =~= src@.subrange(
                from as int,
                i as int,
            ).push(src@[i as int]));
        }
        i += 1;
    }
}

/// Appends the whole of `src` to `dst`.
pub fn push_all(dst: &mut Vec<char>, src: &Vec<char>)
    ensures
        final(dst)@ == old(dst)@ + src@,
{
    let n = src.len();
    push_range(dst, src, 0, n);
    assert(src@.subrange(0, src@.len() as int) =~= src@);
}

/// The pieces joined with CRLF between them, exactly as
/// `Vec::join("\r\n")` builds the data-phase body.
pub open spec fn spec_join_crlf(parts: Seq<Seq<char>>) -> Seq<char>
    decreases parts.len(),
{
    if parts.len() == 0 {
        Seq::empty()
    } else if parts.len() == 1 {
        parts[0]
    } else {
        parts[0] + seq!['\r', '\n'] + spec_join_crlf(parts.drop_first())
    }
}

pub fn join_crlf(parts: &Vec<Vec<char>>) -> (r: Vec<char>)
    ensures
        r@ == spec_join_crlf(parts.deep_view()),
{
    let ghost pv = parts.deep_view();
    let mut out: Vec<char> = Vec::new();
    let mut i: usize = 0;
    let n = parts.len();
    assert(pv.skip(0) =~= pv);
    while i < n
        invariant
            n == parts@.len(),
            pv == parts.deep_view(),
            i <= n,
            out@ + spec_join_crlf(pv.skip(i as int)) == spec_join_crlf(pv),
            i == n ==> out@ == spec_join_crlf(pv),
        decreases n - i,
    {
        proof {
            lemma_join_crlf_step(pv, i as int);
        }
        push_all(&mut out, &parts[i]);
        assert(parts@[i as int]@ == pv[i as int]);
        if i + 1 < n {
            out.push('\r');
            out.push('\n');
            assert(spec_join_crlf(pv.skip(i as int)) == pv[i as int] + seq!['\r', '\n']
                + spec_join_crlf(pv.skip(i + 1)));
        } else {
            assert(pv.skip(i as int).len() == 1);
            assert(spec_join_crlf(pv.skip(i as int)) == pv[i as int]);
            assert(pv.skip(i + 1).len() == 0);
            assert(out@ + spec_join_crlf(pv.skip(i + 1)) =~= out@);
        }
        i += 1;
    }
    out
}

proof fn lemma_join_crlf_step(parts: Seq<Seq<char>>, i: int)
    requires
        0 <= i < parts.len(),
    ensures
        parts.skip(i).len() >= 1,
        parts.skip(i)[0] == parts[i],
        parts.skip(i).drop_first() =~= parts.skip(i + 1),
{
}

/// Clones a vector of strings, keeping every character.
pub fn clone_string_vec(v: &Vec<String>) -> (r: Vec<String>)
    ensures
        r.deep_view() == v.deep_view(),
{
    let mut out: Vec<String> = Vec::new();
    let n = v.len();
    let mut i: usize = 0;
    while i < n
        invariant
            n == v@.len(),
            i <= n,
            out@.len() == i,
            forall|k: int| 0 <= k < i ==> #[trigger] out.deep_view()[k] == v.deep_view()[k],
        decreases n - i,
    {
        let cloned = v[i].clone();
        let ghost prev = out@;
        let ghost prev_deep = out.deep_view();
        out.push(cloned);
        proof {
            assert forall|k: int| 0 <= k < i + 1 implies #[trigger] out.deep_view()[k]
                == v.deep_view()[k] by {
                if k < i {
                    assert(out@[k] == prev[k]);
                    assert(prev_deep[k] == prev[k].deep_view());
                } else {
                    assert(out@[k] == cloned);
                }
            }
        }
        i += 1;
    }
    assert(out.deep_view() =~= v.deep_view());
    out
}

/// Joins the buffered data-phase lines with CRLF, as `Vec::join` would.
pub fn join_crlf_strings(parts: &Vec<String>) -> (r: String)
    ensures
        r@ == spec_join_crlf(parts.deep_view()),
{
    let mut cv: Vec<Vec<char>> = Vec::new();
    let n = parts.len();
    let mut i: usize = 0;
    while i < n
        invariant
            n == parts@.len(),
            i <= n,
            cv@.len() == i,
            forall|k: int| 0 <= k < i ==> #[trigger] cv.deep_view()[k] == parts.deep_view()[k],
        decreases n - i,
    {
        let cs = str_chars(parts[i].as_str());
        let ghost prev = cv@;
        let ghost prev_deep = cv.deep_view();
        cv.push(cs);
        proof {
            assert forall|k: int| 0 <= k < i + 1 implies #[trigger] cv.deep_view()[k]
                == parts.deep_view()[k] by {
                if k < i {
                    assert(cv@[k] == prev[k]);
                    assert(prev_deep[k] == prev[k].deep_view());
                } else {
                    assert(cv@[k]@ == parts@[k]@);
                }
            }
        }
        i += 1;
    }
    assert(cv.deep_view() =~= parts.deep_view());
    let joined = join_crlf(&cv);
    chars_string(&joined)
}

/// The pieces joined with an arbitrary separator between them.
pub open spec fn spec_join_sep(parts: Seq<Seq<char>>, sep: Seq<char>) -> Seq<char>
    decreases parts.len(),
{
    if parts.len() == 0 {
        Seq::empty()
    } else if parts.len() == 1 {
        parts[0]
    } else {
        parts[0] + sep + spec_join_sep(parts.drop_first(), sep)
    }
}

pub fn join_sep(parts: &Vec<Vec<char>>, sep: &Vec<char>) -> (r: Vec<char>)
    ensures
        r@ == spec_join_sep(parts.deep_view(), sep@),
{
    let ghost pv = parts.deep_view();
    let mut out: Vec<char> = Vec::new();
    let mut i: usize = 0;
    let n = parts.len();
    assert(pv.skip(0) =~= pv);
    while i < n
        invariant
            n == parts@.len(),
            pv == parts.deep_view(),
            i <= n,
            out@ + spec_join_sep(pv.skip(i as int), sep@) == spec_join_sep(pv, sep@),
            i == n ==> out@ == spec_join_sep(pv, sep@),
        decreases n - i,
    {
        proof {
            assert(pv.skip(i as int).len() >= 1);
            assert(pv.skip(i as int)[0] == pv[i as int]);
            assert(pv.skip(i as int).drop_first() =~= pv.skip(i + 1));
        }
        push_all(&mut out, &parts[i]);
        assert(parts@[i as int]@ == pv[i as int]);
        if i + 1 < n {
            push_all(&mut out, sep);
            assert(spec_join_sep(pv.skip(i as int), sep@) == pv[i as int] + sep@ + spec_join_sep(
                pv.skip(i + 1),
                sep@,
            ));
        } else {
            assert(pv.skip(i as int).len() == 1);
            assert(spec_join_sep(pv.skip(i as int), sep@) == pv[i as int]);
            assert(pv.skip(i + 1).len() == 0);
            assert(out@ + spec_join_sep(pv.skip(i + 1), sep@) =~= out@);
        }
        i += 1;
    }
    out
}

/// Joins string pieces with a separator, as `Vec::join` would.
pub fn join_with_strings(parts: &Vec<String>, sep: &str) -> (r: String)
    ensures
        r@ == spec_join_sep(parts.deep_view(), sep@),
{
    let mut cv: Vec<Vec<char>> = Vec::new();
    let n = parts.len();
    let mut i: usize = 0;
    while i < n
        invariant
            n == parts@.len(),
            i <= n,
            cv@.len() == i,
            forall|k: int| 0 <= k < i ==> #[trigger] cv.deep_view()[k] == parts.deep_view()[k],
        decreases n - i,
    {
        let cs = str_chars(parts[i].as_str());
        let ghost prev = cv@;
        let ghost prev_deep = cv.deep_view();
        cv.push(cs);
        proof {
            assert forall|k: int| 0 <= k < i + 1 implies #[trigger] cv.deep_view()[k]
                == parts.deep_view()[k] by {
                if k < i {
                    assert(cv@[k] == prev[k]);
                    assert(prev_deep[k] == prev[k].deep_view());
                } else {
                    assert(cv@[k]@ == parts@[k]@);
                }
            }
        }
        i += 1;
    }
    assert(cv.deep_view() =~= parts.deep_view());
    let sep_chars = str_chars(sep);
    let joined = join_sep(&cv, &sep_chars);
    chars_string(&joined)
}

// ---------------------------------------------------------------------------
// Lexicographic order on character sequences (codepoint order, which is the
// same order SQLite's memcmp collation gives UTF-8 text)
// ---------------------------------------------------------------------------

pub open spec fn lex_lt(a: Seq<char>, b: Seq<char>) -> bool
    decreases a.len(),
{
    if b.len() == 0 {
        false
    } else if a.len() == 0 {
        true
    } else if (a[0] as u32) < (b[0] as u32) {
        true
    } else if a[0] == b[0] {
        lex_lt(a.drop_first(), b.drop_first())
    } else {
        false
    }
}

pub fn lex_lt_exec(a: &Vec<char>, b: &Vec<char>) -> (r: bool)
    ensures
        r == lex_lt(a@, b@),
{
    let mut i: usize = 0;
    let na = a.len();
    let nb = b.len();
    assert(a@.skip(0) =~= a@);
    assert(b@.skip(0) =~= b@);
    loop
        invariant
            na == a@.len(),
            nb == b@.len(),
            i <= a@.len(),
            i <= b@.len(),
            forall|k: int| 0 <= k < i ==> a@[k] == b@[k],
            lex_lt(a@, b@) == lex_lt(a@.skip(i as int), b@.skip(i as int)),
        ensures
            lex_lt(a@, b@) == lex_lt(a@.skip(i as int), b@.skip(i as int)),
            (i >= a@.len() || i >= b@.len() || a@[i as int] != b@[i as int]),
            i <= a@.len() && i <= b@.len(),
        decreases a@.len() - i,
    {
        if i >= a.len() || i >= b.len() {
            break;
        }
        if a[i] != b[i] {
            break;
        }
        proof {
            let sa = a@.skip(i as int);
            let sb = b@.skip(i as int);
            assert(sa.len() > 0 && sb.len() > 0);
            assert(sa[0] == a@[i as int] && sb[0] == b@[i as int]);
            assert(sa.drop_first() =~= a@.skip(i + 1));
            assert(sb.drop_first() =~= b@.skip(i + 1));
        }
        i += 1;
    }
    let sa_len = a.len() - i;
    let sb_len = b.len() - i;
    if sb_len == 0 {
        false
    } else if sa_len == 0 {
        true
    } else {
        let au: u32 = a[i] as u32;
        let bu: u32 = b[i] as u32;
        proof {
            let sa = a@.skip(i as int);
            let sb = b@.skip(i as int);
            assert(sa[0] == a@[i as int] && sb[0] == b@[i as int]);
        }
        au < bu
    }
}

/// No sequence is lexicographically below itself.
pub proof fn lemma_lex_lt_irreflexive(a: Seq<char>)
    ensures
        !lex_lt(a, a),
    decreases a.len(),
{
    if a.len() > 0 && a[0] == a[0] {
        lemma_lex_lt_irreflexive(a.drop_first());
    }
}

/// Two distinct sequences are ordered one way or the other.
pub proof fn lemma_lex_lt_total(a: Seq<char>, b: Seq<char>)
    ensures
        a == b || lex_lt(a, b) || lex_lt(b, a),
    decreases a.len(),
{
    if a.len() == 0 && b.len() == 0 {
        assert(a =~= b);
    } else if a.len() > 0 && b.len() > 0 && a[0] as u32 == b[0] as u32 {
        vstd::utf8::char_u32_cast(a[0], a[0] as u32);
        vstd::utf8::char_u32_cast(b[0], b[0] as u32);
        assert(a[0] == b[0]);
        lemma_lex_lt_total(a.drop_first(), b.drop_first());
        if a.drop_first() == b.drop_first() {
            assert(a.drop_first().len() == b.drop_first().len());
            assert(a.drop_first().len() == a.len() - 1);
            assert(b.drop_first().len() == b.len() - 1);
            assert(a.len() == b.len());
            assert forall|k: int| 0 <= k < a.len() implies a[k] == b[k] by {
                if k > 0 {
                    assert(a.drop_first()[k - 1] == a[k]);
                    assert(b.drop_first()[k - 1] == b[k]);
                }
            }
            assert(a =~= b);
        }
    }
}

/// Lexicographic order is transitive.
pub proof fn lemma_lex_lt_trans(a: Seq<char>, b: Seq<char>, c: Seq<char>)
    requires
        lex_lt(a, b),
        lex_lt(b, c),
    ensures
        lex_lt(a, c),
    decreases a.len() + b.len() + c.len(),
{
    if c.len() == 0 {
    } else if a.len() == 0 {
    } else if b.len() == 0 {
    } else {
        if (a[0] as u32) < (b[0] as u32) {
            if (b[0] as u32) < (c[0] as u32) {
            } else {
                assert(b[0] == c[0]);
            }
        } else {
            assert(a[0] == b[0]);
            if (b[0] as u32) < (c[0] as u32) {
            } else {
                assert(b[0] == c[0]);
                lemma_lex_lt_trans(a.drop_first(), b.drop_first(), c.drop_first());
            }
        }
    }
}

// ---------------------------------------------------------------------------
// Whitespace (trusted: Unicode White_Space is `char::is_whitespace`'s table)
// ---------------------------------------------------------------------------

/// What `char::is_whitespace` returns; a fixed character table.
pub uninterp spec fn is_space_of(c: char) -> bool;

/// Relies on `char::is_whitespace`: Unicode `White_Space`, which on ASCII
/// is exactly tab, line feed, vertical tab, form feed, carriage return and
/// space.
#[verifier::external_body]
pub fn char_is_space(c: char) -> (r: bool)
    ensures
        r == is_space_of(c),
        (c as u32) < 128 ==> (r <==> (c as u32 == 9 || c as u32 == 10 || c as u32 == 11 || c as u32
            == 12 || c as u32 == 13 || c as u32 == 32)),
{
    c.is_whitespace()
}

/// Every character of `s` is whitespace; `s.trim().is_empty()` in Rust terms.
pub open spec fn is_blank(s: Seq<char>) -> bool {
    forall|i: int| 0 <= i < s.len() ==> is_space_of(#[trigger] s[i])
}

pub fn chars_blank(s: &Vec<char>) -> (r: bool)
    ensures
        r == is_blank(s@),
{
    let mut i: usize = 0;
    while i < s.len()
        invariant
            i <= s@.len(),
            forall|k: int| 0 <= k < i ==> is_space_of(#[trigger] s@[k]),
        decreases s@.len() - i,
    {
        if !char_is_space(s[i]) {
            return false;
        }
        i += 1;
    }
    true
}

// ---------------------------------------------------------------------------
// String <-> character vector boundary
// ---------------------------------------------------------------------------

/// Relies on `str::chars` / `Iterator::collect`: the characters of the
/// string, in order.
#[verifier::external_body]
pub fn str_chars(s: &str) -> (v: Vec<char>)
    ensures
        v@ == s@,
{
    s.chars().collect()
}

/// Relies on `String::from_iter` over `char`: the string holding exactly the
/// given characters, in order.
#[verifier::external_body]
pub fn chars_string(v: &Vec<char>) -> (s: String)
    ensures
        s@ == v@,
{
    v.iter().collect()
}

/// Relies on `str::eq`: string slices compare equal iff their characters do.
#[verifier::external_body]
pub fn str_eq(a: &str, b: &str) -> (r: bool)
    ensures
        r == (a@ == b@),
{
    a == b
}

} // verus!
