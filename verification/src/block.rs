//! Locating the marker block inside a document and listing its entries.
//!
//! A document is an ordered sequence of lines. The block starts at the first
//! line containing the marker `with pkgs; [` and ends at the first line at or
//! after it containing `]`.

use vstd::prelude::*;

use crate::EditError;
use crate::text::contains_seq;
use crate::text::contains_sub;
use crate::text::find_char_at;
use crate::text::find_char_from;
use crate::text::first_token;
use crate::text::has_char;
use crate::text::lemma_find_char_from;
use crate::text::lemma_rfind_char_before;
use crate::text::line_has_char;
use crate::text::rfind_char;
use crate::text::rfind_char_in;
use crate::text::str_views;
use crate::text::tokenize;
use crate::text::tokens;

verus! {

/// The marker substring that opens a block.
pub open spec fn marker() -> Seq<char> {
    "with pkgs; ["@
}

/// The first line at or after `i` that contains the marker, or `-1`.
pub open spec fn first_marker_line(lines: Seq<Seq<char>>, i: int) -> int
    decreases lines.len() - i,
{
    if i < 0 || i >= lines.len() {
        -1
    } else if contains_seq(lines[i], marker()) {
        i
    } else {
        first_marker_line(lines, i + 1)
    }
}

/// The first line at or after `i` that contains `]`, or `-1`.
pub open spec fn first_close_line(lines: Seq<Seq<char>>, i: int) -> int
    decreases lines.len() - i,
{
    if i < 0 || i >= lines.len() {
        -1
    } else if has_char(lines[i], ']') {
        i
    } else {
        first_close_line(lines, i + 1)
    }
}

/// The block of a document: the first marker line and the first closing line
/// at or after it, or nothing when either is absent.
pub open spec fn locate_spec(lines: Seq<Seq<char>>) -> Option<(int, int)> {
    let s = first_marker_line(lines, 0);
    if s == -1 {
        None
    } else {
        let e = first_close_line(lines, s);
        if e == -1 {
            None
        } else {
            Some((s, e))
        }
    }
}

/// What `first_marker_line` returns: `-1` exactly when no line at or after
/// `i` contains the marker, and otherwise the first such line.
pub proof fn lemma_first_marker_line(lines: Seq<Seq<char>>, i: int)
    requires
        0 <= i <= lines.len(),
    ensures
        first_marker_line(lines, i) == -1 <==> (forall|j: int|
            i <= j < lines.len() ==> !contains_seq(#[trigger] lines[j], marker())),
        first_marker_line(lines, i) != -1 ==> i <= first_marker_line(lines, i) < lines.len()
            && contains_seq(lines[first_marker_line(lines, i)], marker()) && (forall|j: int|
            i <= j < first_marker_line(lines, i) ==> !contains_seq(#[trigger] lines[j], marker())),
    decreases lines.len() - i,
{
    if i < lines.len() && !contains_seq(lines[i], marker()) {
        lemma_first_marker_line(lines, i + 1);
    }
}

/// What `first_close_line` returns, in the same shape.
pub proof fn lemma_first_close_line(lines: Seq<Seq<char>>, i: int)
    requires
        0 <= i <= lines.len(),
    ensures
        first_close_line(lines, i) == -1 <==> (forall|j: int|
            i <= j < lines.len() ==> !has_char(#[trigger] lines[j], ']')),
        first_close_line(lines, i) != -1 ==> i <= first_close_line(lines, i) < lines.len()
            && has_char(lines[first_close_line(lines, i)], ']') && (forall|j: int|
            i <= j < first_close_line(lines, i) ==> !has_char(#[trigger] lines[j], ']')),
    decreases lines.len() - i,
{
    if i < lines.len() && !has_char(lines[i], ']') {
        lemma_first_close_line(lines, i + 1);
    }
}

/// A marker occurrence at line `k`, with none before, determines
/// `first_marker_line` from any earlier start.
pub proof fn lemma_first_marker_line_is(lines: Seq<Seq<char>>, i: int, k: int)
    requires
        0 <= i <= k < lines.len(),
        contains_seq(lines[k], marker()),
        forall|j: int| i <= j < k ==> !contains_seq(#[trigger] lines[j], marker()),
    ensures
        first_marker_line(lines, i) == k,
    decreases k - i,
{
    if i < k {
        lemma_first_marker_line_is(lines, i + 1, k);
    }
}

/// A closing bracket at line `k`, with none since `i`, determines
/// `first_close_line`.
pub proof fn lemma_first_close_line_is(lines: Seq<Seq<char>>, i: int, k: int)
    requires
        0 <= i <= k < lines.len(),
        has_char(lines[k], ']'),
        forall|j: int| i <= j < k ==> !has_char(#[trigger] lines[j], ']'),
    ensures
        first_close_line(lines, i) == k,
    decreases k - i,
{
    if i < k {
        lemma_first_close_line_is(lines, i + 1, k);
    }
}

/// Whether a token opens a comment: `#` or `//`.
pub open spec fn comment_token(t: Seq<char>) -> bool {
    (t.len() >= 1 && t[0] == '#') || (t.len() >= 2 && t[0] == '/' && t[1] == '/')
}

/// The entry a line contributes to a multi-line block: its first token,
/// unless the line is blank or the token opens a comment.
pub open spec fn line_entry(l: Seq<char>) -> Option<Seq<char>> {
    let ts = tokens(l);
    if ts.len() == 0 {
        None
    } else if comment_token(ts[0]) {
        None
    } else {
        Some(ts[0])
    }
}

/// The entries contributed by the lines of `[i, e)`, in line order.
pub open spec fn multi_entries(lines: Seq<Seq<char>>, i: int, e: int) -> Seq<Seq<char>>
    decreases e - i,
{
    if i >= e {
        seq![]
    } else {
        match line_entry(lines[i]) {
            None => multi_entries(lines, i + 1, e),
            Some(t) => seq![t] + multi_entries(lines, i + 1, e),
        }
    }
}

/// The entries of a single-line block: the tokens strictly between the first
/// `[` and the last `]`, or none when the brackets are missing or inverted.
pub open spec fn single_line_entries(l: Seq<char>) -> Seq<Seq<char>> {
    let lbr = find_char_from(l, '[', 0);
    let rbr = rfind_char(l, ']');
    if lbr == -1 || rbr == -1 || rbr <= lbr {
        seq![]
    } else {
        tokens(l.subrange(lbr + 1, rbr))
    }
}

/// The entries of the block `[s, e]` of a document.
pub open spec fn entries_spec(lines: Seq<Seq<char>>, s: int, e: int) -> Seq<Seq<char>> {
    if s == e {
        single_line_entries(lines[s])
    } else {
        multi_entries(lines, s + 1, e)
    }
}

/// Extending the scanned range by one line appends that line's contribution.
pub proof fn lemma_multi_entries_snoc(lines: Seq<Seq<char>>, i: int, e: int)
    requires
        i <= e,
    ensures
        multi_entries(lines, i, e + 1) == multi_entries(lines, i, e) + (match line_entry(
            lines[e],
        ) {
            None => seq![],
            Some(t) => seq![t],
        }),
    decreases e - i,
{
    if i >= e {
        assert(multi_entries(lines, i, e) =~= Seq::<Seq<char>>::empty());
        assert(multi_entries(lines, e + 1, e + 1) =~= Seq::<Seq<char>>::empty());
        match line_entry(lines[e]) {
            None => {
                assert(multi_entries(lines, e, e + 1) =~= Seq::<Seq<char>>::empty());
            },
            Some(t) => {
                assert(multi_entries(lines, e, e + 1) =~= seq![t]);
            },
        }
    } else {
        lemma_multi_entries_snoc(lines, i + 1, e);
        match line_entry(lines[i]) {
            None => {},
            Some(t) => {
                match line_entry(lines[e]) {
                    None => {},
                    Some(u) => {
                        assert(seq![t] + (multi_entries(lines, i + 1, e) + seq![u]) =~= (seq![t]
                            + multi_entries(lines, i + 1, e)) + seq![u]);
                    },
                }
                assert(seq![t] + (multi_entries(lines, i + 1, e) + seq![]) =~= (seq![t]
                    + multi_entries(lines, i + 1, e)) + seq![]);
            },
        }
    }
}

/// Entries only depend on the scanned lines: equal lines, equal entries.
pub proof fn lemma_multi_entries_congruent(
    l1: Seq<Seq<char>>,
    l2: Seq<Seq<char>>,
    i: int,
    e: int,
)
    requires
        forall|j: int| i <= j < e ==> #[trigger] l1[j] == l2[j],
    ensures
        multi_entries(l1, i, e) == multi_entries(l2, i, e),
    decreases e - i,
{
    if i < e {
        lemma_multi_entries_congruent(l1, l2, i + 1, e);
    }
}

/// Splitting the scanned range splits the entries.
pub proof fn lemma_multi_entries_split(lines: Seq<Seq<char>>, i: int, m: int, e: int)
    requires
        i <= m <= e,
    ensures
        multi_entries(lines, i, e) == multi_entries(lines, i, m) + multi_entries(lines, m, e),
    decreases m - i,
{
    if i >= m {
        assert(multi_entries(lines, i, m) =~= Seq::<Seq<char>>::empty());
        assert(multi_entries(lines, i, m) + multi_entries(lines, m, e) =~= multi_entries(
            lines,
            m,
            e,
        ));
    } else {
        lemma_multi_entries_split(lines, i + 1, m, e);
        match line_entry(lines[i]) {
            None => {},
            Some(t) => {
                assert(seq![t] + (multi_entries(lines, i + 1, m) + multi_entries(lines, m, e))
                    =~= (seq![t] + multi_entries(lines, i + 1, m)) + multi_entries(lines, m, e));
            },
        }
    }
}

/// Entries follow the lines under a uniform index shift.
pub proof fn lemma_multi_entries_shift(a: Seq<Seq<char>>, b: Seq<Seq<char>>, d: int, i: int, e: int)
    requires
        forall|j: int| i <= j < e ==> #[trigger] a[j] == b[j + d],
    ensures
        multi_entries(a, i, e) == multi_entries(b, i + d, e + d),
    decreases e - i,
{
    if i < e {
        lemma_multi_entries_shift(a, b, d, i + 1, e);
        assert(a[i] == b[i + d]);
    } else {
        assert(multi_entries(a, i, e) =~= Seq::<Seq<char>>::empty());
        assert(multi_entries(b, i + d, e + d) =~= Seq::<Seq<char>>::empty());
    }
}

/// When no scanned line has `tok` as first token, `tok` is not an entry.
pub proof fn lemma_multi_entries_absent(lines: Seq<Seq<char>>, i: int, e: int, tok: Seq<char>)
    requires
        forall|j: int|
            i <= j < e ==> !(tokens(#[trigger] lines[j]).len() >= 1 && tokens(lines[j])[0] == tok),
    ensures
        forall|q: int| 0 <= q < multi_entries(lines, i, e).len() ==> multi_entries(lines, i, e)[q]
            != tok,
    decreases e - i,
{
    if i < e {
        lemma_multi_entries_absent(lines, i + 1, e, tok);
        match line_entry(lines[i]) {
            None => {},
            Some(t) => {
                assert(tokens(lines[i]).len() >= 1);
                assert forall|q: int| 0 <= q < multi_entries(lines, i, e).len() implies
                    multi_entries(lines, i, e)[q] != tok by {
                    if q > 0 {
                        assert(multi_entries(lines, i, e)[q] == multi_entries(lines, i + 1, e)[q
                            - 1]);
                    }
                }
            },
        }
    }
}

/// Find the block of a document: the first line containing the marker
/// `with pkgs; [` and the first line at or after it containing `]`.
pub fn locate_block(lines: &Vec<String>) -> (r: Result<(usize, usize), EditError>)
    ensures
        match r {
            Ok(p) => locate_spec(str_views(lines@)) == Some((p.0 as int, p.1 as int)) && p.0 <= p.1
                < lines@.len(),
            Err(er) => er == EditError::BlockNotFound && locate_spec(str_views(lines@)) is None,
        },
{
    let s = match find_marker_line(lines) {
        None => {
            return Err(EditError::BlockNotFound);
        },
        Some(k) => k,
    };
    match find_close_line(lines, s) {
        None => Err(EditError::BlockNotFound),
        Some(e) => Ok((s, e)),
    }
}

/// The first line of the document that contains the marker.
fn find_marker_line(lines: &Vec<String>) -> (r: Option<usize>)
    ensures
        match r {
            Some(k) => first_marker_line(str_views(lines@), 0) == k as int && k < lines@.len(),
            None => first_marker_line(str_views(lines@), 0) == -1,
        },
{
    let ghost lv = str_views(lines@);
    let n = lines.len();
    let mut s: usize = 0;
    while s < n
        invariant
            s <= n,
            n == lines@.len(),
            lv == str_views(lines@),
            first_marker_line(lv, 0) == first_marker_line(lv, s as int),
        decreases n - s,
    {
        proof {
            assert(lv[s as int] == lines@[s as int]@);
        }
        if contains_sub(lines[s].as_str(), "with pkgs; [") {
            return Some(s);
        }
        s += 1;
    }
    None
}

/// The first line at or after `from` that contains `]`.
fn find_close_line(lines: &Vec<String>, from: usize) -> (r: Option<usize>)
    requires
        from <= lines@.len(),
    ensures
        match r {
            Some(k) => first_close_line(str_views(lines@), from as int) == k as int && from <= k
                < lines@.len(),
            None => first_close_line(str_views(lines@), from as int) == -1,
        },
{
    let ghost lv = str_views(lines@);
    let n = lines.len();
    let mut e: usize = from;
    while e < n
        invariant
            from <= e <= n,
            n == lines@.len(),
            lv == str_views(lines@),
            first_close_line(lv, from as int) == first_close_line(lv, e as int),
        decreases n - e,
    {
        proof {
            assert(lv[e as int] == lines@[e as int]@);
        }
        if line_has_char(lines[e].as_str(), ']') {
            return Some(e);
        }
        e += 1;
    }
    None
}

/// Whether this token opens a comment (`#` or `//`), executable.
fn is_comment_token(t: &str) -> (b: bool)
    ensures
        b == comment_token(t@),
{
    let n = t.unicode_len();
    if n == 0 {
        return false;
    }
    let c0 = t.get_char(0);
    if c0 == '#' {
        return true;
    }
    if n >= 2 && c0 == '/' && t.get_char(1) == '/' {
        return true;
    }
    false
}

/// List the entries of the block `[start, end]` of a document, in order.
///
/// A single-line block contributes the tokens between its first `[` and its
/// last `]`; a multi-line block contributes the first token of each interior
/// line that is neither blank nor a comment.
pub fn list_entries(lines: &Vec<String>, start: usize, end: usize) -> (r: Vec<String>)
    requires
        start <= end < lines@.len(),
    ensures
        str_views(r@) == entries_spec(str_views(lines@), start as int, end as int),
{
    let ghost lv = str_views(lines@);
    let mut out: Vec<String> = Vec::new();
    if start == end {
        let line = lines[start].as_str();
        proof {
            assert(lv[start as int] == lines@[start as int]@);
        }
        let lbr = match find_char_at(line, '[', 0) {
            Some(k) => k,
            None => {
                proof {
                    assert(str_views(out@) =~= Seq::<Seq<char>>::empty());
                }
                return out;
            },
        };
        let rbr = match rfind_char_in(line, ']') {
            Some(k) => k,
            None => {
                proof {
                    assert(str_views(out@) =~= Seq::<Seq<char>>::empty());
                }
                return out;
            },
        };
        if rbr <= lbr {
            proof {
                assert(str_views(out@) =~= Seq::<Seq<char>>::empty());
            }
            return out;
        }
        proof {
            lemma_find_char_from(line@, '[', 0);
            lemma_rfind_char_before(line@, ']', line@.len() as int);
        }
        let inside = line.substring_char(lbr + 1, rbr);
        let r = tokenize(inside);
        proof {
            assert(inside@ =~= line@.subrange(lbr as int + 1, rbr as int));
        }
        r
    } else {
        let mut i: usize = start + 1;
        while i < end
            invariant
                start as int + 1 <= i as int <= end,
                end < lines@.len(),
                lv == str_views(lines@),
                str_views(out@) == multi_entries(lv, start as int + 1, i as int),
            decreases end - i,
        {
            let ghost prev = out@;
            proof {
                assert(lv[i as int] == lines@[i as int]@);
                lemma_multi_entries_snoc(lv, start as int + 1, i as int);
            }
            match first_token(lines[i].as_str()) {
                None => {
                    proof {
                        assert(line_entry(lv[i as int]) is None);
                    }
                },
                Some(t) => {
                    if is_comment_token(t.as_str()) {
                        proof {
                            assert(line_entry(lv[i as int]) is None);
                        }
                    } else {
                        out.push(t);
                        proof {
                            assert(line_entry(lv[i as int]) == Some(t@));
                            assert(str_views(out@) =~= str_views(prev).push(t@));
                            assert(multi_entries(lv, start as int + 1, i as int) + seq![t@]
                                =~= str_views(prev).push(t@));
                        }
                    }
                },
            }
            i += 1;
        }
        out
    }
}

} // verus!
