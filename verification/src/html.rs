//! Scanning for HTML tags the way the sink's fixed patterns do: a tag
//! `<name ...>` is an ASCII-case-insensitive `<name` followed by anything up
//! to the next `>`. `insert_into_head` places content right after the first
//! `<head ...>`, synthesizes a head after `<html ...>`, or wraps the whole
//! body.

use crate::strings::{chars_string, find_ch_from, find_char_from, matches_ci_at, matches_ci_at_exec, push_all, push_range, str_chars};
use vstd::prelude::*;

verus! {

/// `<name` at position `i`, ASCII-case-insensitively.
pub open spec fn tag_prefix_at(s: Seq<char>, name: Seq<char>, i: int) -> bool {
    &&& 0 <= i
    &&& i + 1 + name.len() <= s.len()
    &&& s[i] == '<'
    &&& matches_ci_at(s, name, i + 1)
}

/// A whole tag `<name ...>` starts at `i`: the prefix matches and a closing
/// `>` follows.
pub open spec fn tag_at(s: Seq<char>, name: Seq<char>, i: int) -> bool {
    tag_prefix_at(s, name, i) && find_ch_from(s, '>', i + 1 + name.len()) is Some
}

/// One past the tag's closing `>`.
pub open spec fn tag_end(s: Seq<char>, name: Seq<char>, i: int) -> int {
    find_ch_from(s, '>', i + 1 + name.len())->0 + 1
}

/// The first tag `<name ...>` at or after `from`, as (start, end).
pub open spec fn find_tag(s: Seq<char>, name: Seq<char>, from: int) -> Option<(int, int)>
    decreases s.len() - from,
{
    if from < 0 || from >= s.len() {
        None
    } else if tag_at(s, name, from) {
        Some((from, tag_end(s, name, from)))
    } else {
        find_tag(s, name, from + 1)
    }
}

/// Finds the first `<name ...>` tag in `s`.
pub fn find_tag_exec(s: &Vec<char>, name: &Vec<char>) -> (r: Option<(usize, usize)>)
    ensures
        match r {
            Some((i, j)) => find_tag(s@, name@, 0) == Some((i as int, j as int)) && i < j <= s@.len(),
            None => find_tag(s@, name@, 0) is None,
        },
{
    let n = s.len();
    let mut i: usize = 0;
    while i < n
        invariant
            n == s@.len(),
            i <= n,
            find_tag(s@, name@, 0) == find_tag(s@, name@, i as int),
        decreases n - i,
    {
        let nl = name.len();
        let prefix_ok = if s[i] == '<' && nl <= n && i + 1 <= n - nl {
            matches_ci_at_exec(s, name, i + 1)
        } else {
            false
        };
        if prefix_ok {
            match find_char_from(s, '>', i + 1 + nl) {
                Some(g) => {
                    proof {
                        crate::strings::lemma_find_ch_from(s@, '>', i + 1 + nl);
                    }
                    return Some((i, g + 1));
                },
                None => {},
            }
        }
        proof {
            assert(!tag_at(s@, name@, i as int));
        }
        i += 1;
    }
    None
}

/// The result of inserting `content` into the head section: right after the
/// first `<head ...>` when one exists, inside a synthesized head after the
/// first `<html ...>` otherwise, and wrapping the whole input when neither
/// tag occurs.
pub open spec fn spec_insert_into_head(html: Seq<char>, content: Seq<char>) -> Seq<char> {
    match find_tag(html, "head"@, 0) {
        Some((i, j)) => html.take(j) + content + html.skip(j),
        None => match find_tag(html, "html"@, 0) {
            Some((i, j)) => html.take(j) + "<head>"@ + content + "</head>"@ + html.skip(j),
            None => "<html><head>"@ + content + "</head><body>"@ + html + "</body></html>"@,
        },
    }
}

/// Inserts markup into the document's head section, creating one if needed.
pub fn insert_into_head(html: &str, content: &str) -> (r: String)
    ensures
        r@ == spec_insert_into_head(html@, content@),
{
    let hchars = str_chars(html);
    let cchars = str_chars(content);
    let out = insert_into_head_chars(&hchars, &cchars);
    chars_string(&out)
}

/// The same insertion, on character vectors.
pub fn insert_into_head_chars(html: &Vec<char>, content: &Vec<char>) -> (r: Vec<char>)
    ensures
        r@ == spec_insert_into_head(html@, content@),
{
    let head_name = str_chars("head");
    let html_name = str_chars("html");
    let n = html.len();
    match find_tag_exec(html, &head_name) {
        Some((_i, j)) => {
            let mut out: Vec<char> = Vec::new();
            push_range(&mut out, html, 0, j);
            push_all(&mut out, content);
            push_range(&mut out, html, j, n);
            proof {
                assert(out@ =~= html@.take(j as int) + content@ + html@.skip(j as int));
            }
            out
        },
        None => {
            match find_tag_exec(html, &html_name) {
                Some((_i, j)) => {
                    let open_head = str_chars("<head>");
                    let close_head = str_chars("</head>");
                    let mut out: Vec<char> = Vec::new();
                    push_range(&mut out, html, 0, j);
                    push_all(&mut out, &open_head);
                    push_all(&mut out, content);
                    push_all(&mut out, &close_head);
                    push_range(&mut out, html, j, n);
                    proof {
                        assert(out@ =~= html@.take(j as int) + "<head>"@ + content@ + "</head>"@
                            + html@.skip(j as int));
                    }
                    out
                },
                None => {
                    let prefix = str_chars("<html><head>");
                    let middle = str_chars("</head><body>");
                    let suffix = str_chars("</body></html>");
                    let mut out: Vec<char> = Vec::new();
                    push_all(&mut out, &prefix);
                    push_all(&mut out, content);
                    push_all(&mut out, &middle);
                    push_all(&mut out, html);
                    push_all(&mut out, &suffix);
                    proof {
                        assert(out@ =~= "<html><head>"@ + content@ + "</head><body>"@ + html@
                            + "</body></html>"@);
                    }
                    out
                },
            }
        },
    }
}

} // verus!
