//! Small text helpers: blank documents, trimmed titles, and the trailing-slash form of a URL.

use vstd::prelude::*;
use vstd::string::*;

verus! {

/// The characters that count as blank in a stored document.
pub open spec fn is_blank_char(c: char) -> bool {
    c == '\n' || c == ' ' || c == '\t' || c == '\r'
}

/// Every character of `s` is blank (an empty text is blank too).
pub open spec fn is_blank(s: Seq<char>) -> bool {
    forall|i: int| 0 <= i < s.len() ==> is_blank_char(#[trigger] s[i])
}

/// A document with no content stands for an empty list: blank text becomes `[]`.
pub fn fallback_string_if_needed<'a>(string: &'a str) -> (r: &'a str)
    ensures
        is_blank(string@) ==> r@ == seq!['[', ']'],
        !is_blank(string@) ==> r@ == string@,
{
    let n = string.unicode_len();
    let mut i: usize = 0;
    while i < n
        invariant
            n == string@.len(),
            i <= n,
            forall|k: int| 0 <= k < i ==> is_blank_char(#[trigger] string@[k]),
        decreases n - i,
    {
        let ch = string.get_char(i);
        if !(ch == '\n' || ch == ' ' || ch == '\t' || ch == '\r') {
            return string;
        }
        i = i + 1;
    }
    let empty: &'a str = "[]";
    proof {
        reveal_strlit("[]");
        assert(empty@ =~= seq!['[', ']']);
    }
    empty
}

/// The URL that differs from `u` only by a trailing slash: dropped if present, added if not.
pub open spec fn slash_toggled(u: Seq<char>) -> Seq<char> {
    if u.len() > 0 && u.last() == '/' {
        u.drop_last()
    } else {
        u.push('/')
    }
}

/// The URL that differs from `url` only by a trailing slash.
pub fn toggle_trailing_slash(url: &str) -> (r: String)
    ensures
        r@ == slash_toggled(url@),
{
    let n = url.unicode_len();
    if n > 0 && url.get_char(n - 1) == '/' {
        let head = url.substring_char(0, n - 1);
        let r = head.to_owned();
        proof {
            assert(r@ =~= url@.drop_last());
        }
        r
    } else {
        let mut r = url.to_owned();
        r.append("/");
        proof {
            reveal_strlit("/");
            assert(r@ =~= url@.push('/'));
        }
        r
    }
}

/// A character with the Unicode property White_Space.
pub open spec fn is_white_space(c: char) -> bool {
    let u = c as u32;
    ||| 0x9 <= u <= 0xd
    ||| u == 0x20
    ||| u == 0x85
    ||| u == 0xa0
    ||| u == 0x1680
    ||| 0x2000 <= u <= 0x200a
    ||| u == 0x2028
    ||| u == 0x2029
    ||| u == 0x202f
    ||| u == 0x205f
    ||| u == 0x3000
}

/// `s` without its leading whitespace.
pub open spec fn trimmed_start(s: Seq<char>) -> Seq<char>
    decreases s.len(),
{
    if s.len() > 0 && is_white_space(s[0]) {
        trimmed_start(s.drop_first())
    } else {
        s
    }
}

/// `s` without its trailing whitespace.
pub open spec fn trimmed_end(s: Seq<char>) -> Seq<char>
    decreases s.len(),
{
    if s.len() > 0 && is_white_space(s.last()) {
        trimmed_end(s.drop_last())
    } else {
        s
    }
}

/// `s` without leading and trailing whitespace.
pub open spec fn trimmed(s: Seq<char>) -> Seq<char> {
    trimmed_end(trimmed_start(s))
}

/// Relies on `str::trim`: the text without leading and trailing characters of the Unicode
/// property White_Space.
#[verifier::external_body]
pub(crate) fn trim_text(s: &str) -> (r: String)
    ensures
        r@ == trimmed(s@),
{
    s.trim().to_string()
}


/// The lines of `s` split at each newline, as completed lines and the line still open.
pub open spec fn split_at_newlines(s: Seq<char>) -> (Seq<Seq<char>>, Seq<char>)
    decreases s.len(),
{
    if s.len() == 0 {
        (Seq::empty(), Seq::empty())
    } else {
        let (done, open) = split_at_newlines(s.drop_last());
        if s.last() == '\n' {
            (done.push(open), Seq::empty())
        } else {
            (done, open.push(s.last()))
        }
    }
}

/// The lines of `s`: the pieces between newlines, the last one included even when empty.
pub open spec fn lines(s: Seq<char>) -> Seq<Seq<char>> {
    split_at_newlines(s).0.push(split_at_newlines(s).1)
}

/// The trimmed, non-empty lines of `lines`, in order.
pub open spec fn kept_lines(lines: Seq<Seq<char>>) -> Seq<Seq<char>>
    decreases lines.len(),
{
    if lines.len() == 0 {
        Seq::empty()
    } else {
        let rest = kept_lines(lines.drop_last());
        let t = trimmed(lines.last());
        if t.len() == 0 {
            rest
        } else {
            rest.push(t)
        }
    }
}

/// The entries of a listing with one entry per line: each line trimmed, blank lines left out.
pub fn urls_in_listing(contents: &str) -> (r: Vec<String>)
    ensures
        r@.map_values(|x: String| x@) == kept_lines(lines(contents@)),
{
    let n = contents.unicode_len();
    let mut r: Vec<String> = Vec::new();
    let mut start: usize = 0;
    let mut i: usize = 0;
    while i < n
        invariant
            n == contents@.len(),
            start <= i <= n,
            split_at_newlines(contents@.take(i as int)) == (
                split_at_newlines(contents@.take(i as int)).0,
                contents@.subrange(start as int, i as int),
            ),
            r@.map_values(|x: String| x@) == kept_lines(split_at_newlines(contents@.take(i as int)).0),
        decreases n - i,
    {
        let ghost before = split_at_newlines(contents@.take(i as int));
        proof {
            assert(contents@.take(i + 1).drop_last() =~= contents@.take(i as int));
            assert(contents@.take(i + 1).last() == contents@[i as int]);
        }
        if contents.get_char(i) == '\n' {
            let line = contents.substring_char(start, i);
            let t = trim_text(line);
            let ghost done = before.0.push(line@);
            proof {
                assert(done.drop_last() =~= before.0);
            }
            if t.unicode_len() > 0 {
                r.push(t);
                proof {
                    assert(r@.map_values(|x: String| x@) =~= kept_lines(before.0).push(t@));
                }
            }
            start = i + 1;
        } else {
            proof {
                assert(contents@.subrange(start as int, i + 1) =~= contents@.subrange(
                    start as int,
                    i as int,
                ).push(contents@[i as int]));
            }
        }
        i = i + 1;
    }
    let last = contents.substring_char(start, n);
    let t = trim_text(last);
    let ghost done = split_at_newlines(contents@.take(n as int)).0;
    proof {
        assert(contents@.take(n as int) =~= contents@);
        assert(lines(contents@).drop_last() =~= done);
    }
    if t.unicode_len() > 0 {
        r.push(t);
        proof {
            assert(r@.map_values(|x: String| x@) =~= kept_lines(done).push(t@));
        }
    }
    r
}


/// `pat` stands in `s` at index `i`.
pub open spec fn occurs_at(s: Seq<char>, i: int, pat: Seq<char>) -> bool {
    0 <= i && i + pat.len() <= s.len() && s.subrange(i, i + pat.len()) == pat
}

/// `i` is the first index at or after `from` where `pat` stands in `s`.
pub open spec fn first_from(s: Seq<char>, pat: Seq<char>, from: int, i: int) -> bool {
    from <= i && occurs_at(s, i, pat) && forall|j: int| from <= j < i ==> !occurs_at(s, j, pat)
}

/// The first index at or after `from` where `pat` stands in `s`.
fn find_from(s: &str, pat: &str, from: usize) -> (r: Option<usize>)
    requires
        pat@.len() > 0,
    ensures
        s@.len() <= usize::MAX,
        match r {
            Some(i) => first_from(s@, pat@, from as int, i as int),
            None => forall|j: int| from <= j ==> !occurs_at(s@, j, pat@),
        },
{
    let n = s.unicode_len();
    let m = pat.unicode_len();
    let wanted = pat.to_owned();
    if m > n || from > n - m {
        return None;
    }
    let mut i: usize = from;
    while i <= n - m
        invariant
            n == s@.len(),
            m == pat@.len(),
            0 < m <= n,
            wanted@ == pat@,
            from <= i <= n - m + 1,
            forall|j: int| from <= j < i ==> !occurs_at(s@, j, pat@),
        decreases n - m + 1 - i,
    {
        let piece = s.substring_char(i, i + m).to_owned();
        if piece == wanted {
            return Some(i);
        }
        i = i + 1;
    }
    None
}

/// `i` is where the first `<title>` of `page` starts and `j` where the first `</title>` after
/// it starts.
pub open spec fn title_bounds(page: Seq<char>, i: int, j: int) -> bool {
    let open = seq!['<', 't', 'i', 't', 'l', 'e', '>'];
    let close = seq!['<', '/', 't', 'i', 't', 'l', 'e', '>'];
    first_from(page, open, 0, i) && first_from(page, close, i + 7, j)
}

/// The text between the first `<title>` of `page` and the first `</title>` after it.
pub open spec fn is_title_of(page: Seq<char>, t: Seq<char>) -> bool {
    exists|i: int, j: int| #[trigger] title_bounds(page, i, j) && t == page.subrange(i + 7, j)
}

/// The title of an HTML page: the text between its first `<title>` and the first `</title>`
/// after it; none when either is missing.
pub fn page_title(page: &str) -> (r: Option<String>)
    ensures
        match r {
            Some(t) => is_title_of(page@, t@),
            None => forall|t: Seq<char>| !is_title_of(page@, t),
        },
{
    let open: &str = "<title>";
    let close: &str = "</title>";
    proof {
        reveal_strlit("<title>");
        reveal_strlit("</title>");
        assert(open@ =~= seq!['<', 't', 'i', 't', 'l', 'e', '>']);
        assert(close@ =~= seq!['<', '/', 't', 'i', 't', 'l', 'e', '>']);
    }
    let i = match find_from(page, open, 0) {
        Some(i) => i,
        None => return None,
    };
    let j = match find_from(page, close, i + 7) {
        Some(j) => j,
        None => {
            proof {
                assert forall|t: Seq<char>| !is_title_of(page@, t) by {
                    if is_title_of(page@, t) {
                        let (a, b) = choose|a: int, b: int|
                            #[trigger] title_bounds(page@, a, b) && t == page@.subrange(a + 7, b);
                        if a < i {
                            assert(!occurs_at(page@, a, open@));
                        } else if i < a {
                            assert(!occurs_at(page@, i as int, open@));
                        }
                    }
                }
            }
            return None;
        },
    };
    let t = page.substring_char(i + 7, j).to_owned();
    proof {
        assert(title_bounds(page@, i as int, j as int));
        assert(is_title_of(page@, t@));
    }
    Some(t)
}

} // verus!
