//! Character-level text model: whitespace, substring search, whitespace
//! tokenization, and joining. Everything the block editor states about lines
//! is expressed over these spec functions.

use vstd::prelude::*;

verus! {

/// A character the tokenizer treats as whitespace: the Unicode `White_Space`
/// set, the same set `char::is_whitespace` accepts.
pub open spec fn is_space(c: char) -> bool {
    c == ' ' || c == '\t' || c == '\n' || c == '\r' || c == '\u{b}' || c == '\u{c}'
        || c == '\u{85}' || c == '\u{a0}' || c == '\u{1680}' || c == '\u{2000}'
        || c == '\u{2001}' || c == '\u{2002}' || c == '\u{2003}' || c == '\u{2004}'
        || c == '\u{2005}' || c == '\u{2006}' || c == '\u{2007}' || c == '\u{2008}'
        || c == '\u{2009}' || c == '\u{200a}' || c == '\u{2028}' || c == '\u{2029}'
        || c == '\u{202f}' || c == '\u{205f}' || c == '\u{3000}'
}

/// Executable whitespace test, equal to the spec-level `is_space`.
pub fn is_space_char(c: char) -> (b: bool)
    ensures
        b == is_space(c),
{
    c == ' ' || c == '\t' || c == '\n' || c == '\r' || c == '\u{b}' || c == '\u{c}'
        || c == '\u{85}' || c == '\u{a0}' || c == '\u{1680}' || c == '\u{2000}'
        || c == '\u{2001}' || c == '\u{2002}' || c == '\u{2003}' || c == '\u{2004}'
        || c == '\u{2005}' || c == '\u{2006}' || c == '\u{2007}' || c == '\u{2008}'
        || c == '\u{2009}' || c == '\u{200a}' || c == '\u{2028}' || c == '\u{2029}'
        || c == '\u{202f}' || c == '\u{205f}' || c == '\u{3000}'
}

/// The views of a sequence of owned strings, as character sequences.
pub open spec fn str_views(ls: Seq<String>) -> Seq<Seq<char>> {
    ls.map_values(|l: String| l@)
}

/// The whitespace-separated tokens of a character sequence, in order.
pub open spec fn tokens(s: Seq<char>) -> Seq<Seq<char>>
    decreases s.len(),
{
    if s.len() == 0 {
        seq![]
    } else if is_space(s[0]) {
        tokens(s.drop_first())
    } else {
        let rest = tokens(s.drop_first());
        if s.len() > 1 && !is_space(s[1]) {
            seq![seq![s[0]] + rest[0]] + rest.drop_first()
        } else {
            seq![seq![s[0]]] + rest
        }
    }
}

/// A token as the tokenizer produces it: non-empty and free of whitespace.
pub open spec fn clean_token(t: Seq<char>) -> bool {
    t.len() >= 1 && forall|j: int| 0 <= j < t.len() ==> !is_space(#[trigger] t[j])
}

/// Whether some character of `s` is `c`.
pub open spec fn has_char(s: Seq<char>, c: char) -> bool {
    exists|i: int| 0 <= i < s.len() && s[i] == c
}

/// Whether `n` occurs as a contiguous subsequence of `h`.
pub open spec fn contains_seq(h: Seq<char>, n: Seq<char>) -> bool {
    exists|i: int|
        0 <= i && i + n.len() <= h.len() && #[trigger] h.subrange(i, i + n.len() as int) == n
}

/// The first index at or after `i` whose character is `c`, or `-1`.
pub open spec fn find_char_from(s: Seq<char>, c: char, i: int) -> int
    decreases s.len() - i,
{
    if i < 0 || i >= s.len() {
        -1
    } else if s[i] == c {
        i
    } else {
        find_char_from(s, c, i + 1)
    }
}

/// The last index before `i` whose character is `c`, or `-1`.
pub open spec fn rfind_char_before(s: Seq<char>, c: char, i: int) -> int
    decreases i,
{
    if i <= 0 || i > s.len() {
        -1
    } else if s[i - 1] == c {
        i - 1
    } else {
        rfind_char_before(s, c, i - 1)
    }
}

/// The last index of `c` in `s`, or `-1`.
pub open spec fn rfind_char(s: Seq<char>, c: char) -> int {
    rfind_char_before(s, c, s.len() as int)
}

/// The first index at or after `i` where `n` occurs in `h`, or `-1`.
pub open spec fn find_sub_from(h: Seq<char>, n: Seq<char>, i: int) -> int
    decreases h.len() - i + 1,
{
    if i < 0 || i + n.len() > h.len() {
        -1
    } else if h.subrange(i, i + n.len() as int) == n {
        i
    } else {
        find_sub_from(h, n, i + 1)
    }
}

/// `l` with its first occurrence of `pat` replaced by `rep`; `l` itself when
/// `pat` does not occur.
pub open spec fn replace_first_spec(l: Seq<char>, pat: Seq<char>, rep: Seq<char>) -> Seq<char> {
    let i = find_sub_from(l, pat, 0);
    if i == -1 {
        l
    } else {
        l.subrange(0, i) + rep + l.subrange(i + pat.len() as int, l.len() as int)
    }
}

/// The end of the run of whitespace that starts at `i`.
pub open spec fn ws_end_from(l: Seq<char>, i: int) -> int
    decreases l.len() - i,
{
    if i < 0 || i >= l.len() {
        l.len() as int
    } else if !is_space(l[i]) {
        i
    } else {
        ws_end_from(l, i + 1)
    }
}

/// The elements of `ps` joined with `sep` between neighbours.
pub open spec fn join_with(ps: Seq<Seq<char>>, sep: Seq<char>) -> Seq<char>
    decreases ps.len(),
{
    if ps.len() == 0 {
        Seq::empty()
    } else if ps.len() == 1 {
        ps[0]
    } else {
        ps[0] + sep + join_with(ps.drop_first(), sep)
    }
}

/// `ps` with every element equal to `tok` dropped.
pub open spec fn remove_all(ps: Seq<Seq<char>>, tok: Seq<char>) -> Seq<Seq<char>>
    decreases ps.len(),
{
    if ps.len() == 0 {
        seq![]
    } else if ps[0] == tok {
        remove_all(ps.drop_first(), tok)
    } else {
        seq![ps[0]] + remove_all(ps.drop_first(), tok)
    }
}

/// A sequence that starts with a non-space character has a first token.
pub proof fn lemma_tokens_nonempty(s: Seq<char>)
    requires
        s.len() > 0,
        !is_space(s[0]),
    ensures
        tokens(s).len() >= 1,
{
}

/// Dropping a leading whitespace character leaves the tokens unchanged.
pub proof fn lemma_tokens_space_prefix(p: Seq<char>, t: Seq<char>)
    requires
        forall|j: int| 0 <= j < p.len() ==> is_space(#[trigger] p[j]),
    ensures
        tokens(p + t) == tokens(t),
    decreases p.len(),
{
    if p.len() == 0 {
        assert(p + t =~= t);
    } else {
        assert((p + t)[0] == p[0]);
        assert((p + t).drop_first() =~= p.drop_first() + t);
        lemma_tokens_space_prefix(p.drop_first(), t);
    }
}

/// A maximal non-space run at the front of `s` is its first token.
pub proof fn lemma_tokens_run(s: Seq<char>, m: int)
    requires
        1 <= m <= s.len(),
        forall|j: int| 0 <= j < m ==> !is_space(#[trigger] s[j]),
        m == s.len() || is_space(s[m]),
    ensures
        tokens(s) == seq![s.take(m)] + tokens(s.skip(m)),
    decreases m,
{
    assert(s.drop_first() =~= s.skip(1));
    if m == 1 {
        assert(seq![s[0]] =~= s.take(1));
        if s.len() == 1 {
            assert(tokens(s) == seq![seq![s[0]]] + tokens(s.drop_first()));
        } else {
            assert(is_space(s[1]));
            assert(tokens(s) == seq![seq![s[0]]] + tokens(s.drop_first()));
        }
    } else {
        let sd = s.drop_first();
        assert(forall|j: int| 0 <= j < m - 1 ==> !is_space(#[trigger] sd[j]));
        lemma_tokens_run(sd, m - 1);
        lemma_tokens_nonempty(sd);
        let rest = tokens(sd);
        assert(rest == seq![sd.take(m - 1)] + tokens(sd.skip(m - 1)));
        assert(rest[0] == sd.take(m - 1));
        assert(rest.drop_first() =~= tokens(sd.skip(m - 1)));
        assert(seq![s[0]] + sd.take(m - 1) =~= s.take(m));
        assert(sd.skip(m - 1) =~= s.skip(m));
        assert(tokens(s) == seq![seq![s[0]] + rest[0]] + rest.drop_first());
        assert(tokens(s) =~= seq![s.take(m)] + tokens(s.skip(m)));
    }
}

/// A clean token is, on its own, its only token.
pub proof fn lemma_tokens_single(t: Seq<char>)
    requires
        clean_token(t),
    ensures
        tokens(t) == seq![t],
{
    lemma_tokens_run(t, t.len() as int);
    assert(t.take(t.len() as int) =~= t);
    assert(t.skip(t.len() as int) =~= Seq::<char>::empty());
    assert(tokens(t) =~= seq![t]);
}

/// A space splits the tokens: the tokens of `a + " " + b` are those of `a`
/// followed by those of `b`.
pub proof fn lemma_tokens_sep(a: Seq<char>, b: Seq<char>)
    ensures
        tokens(a + seq![' '] + b) == tokens(a) + tokens(b),
    decreases a.len(),
{
    let s = a + seq![' '] + b;
    if a.len() == 0 {
        assert(s[0] == ' ');
        assert(s.drop_first() =~= b);
        assert(tokens(a) + tokens(b) =~= tokens(b));
    } else {
        assert(s[0] == a[0]);
        assert(s.drop_first() =~= a.drop_first() + seq![' '] + b);
        if is_space(a[0]) {
            lemma_tokens_sep(a.drop_first(), b);
        } else if a.len() == 1 {
            assert(s[1] == ' ');
            assert(tokens(s) == seq![seq![s[0]]] + tokens(s.drop_first()));
            assert(a.drop_first() + seq![' '] + b =~= seq![' '] + b);
            assert((seq![' '] + b)[0] == ' ');
            assert((seq![' '] + b).drop_first() =~= b);
            assert(tokens(a) == seq![seq![a[0]]] + tokens(a.drop_first()));
            assert(a.drop_first().len() == 0);
            assert(tokens(a) + tokens(b) =~= seq![seq![a[0]]] + tokens(b));
        } else if is_space(a[1]) {
            assert(s[1] == a[1]);
            lemma_tokens_sep(a.drop_first(), b);
            assert(tokens(s) == seq![seq![s[0]]] + tokens(s.drop_first()));
            assert(tokens(a) == seq![seq![a[0]]] + tokens(a.drop_first()));
            assert(seq![seq![a[0]]] + (tokens(a.drop_first()) + tokens(b)) =~= (seq![
                seq![a[0]],
            ] + tokens(a.drop_first())) + tokens(b));
        } else {
            let adf = a.drop_first();
            assert(s[1] == a[1]);
            lemma_tokens_sep(adf, b);
            lemma_tokens_nonempty(adf);
            let rest = tokens(s.drop_first());
            assert(rest == tokens(adf) + tokens(b));
            assert(rest[0] == tokens(adf)[0]);
            assert(rest.drop_first() =~= tokens(adf).drop_first() + tokens(b));
            assert(tokens(s) == seq![seq![s[0]] + rest[0]] + rest.drop_first());
            assert(tokens(a) == seq![seq![a[0]] + tokens(adf)[0]] + tokens(adf).drop_first());
            assert(seq![seq![a[0]] + tokens(adf)[0]] + (tokens(adf).drop_first() + tokens(b)) =~= (
            seq![seq![a[0]] + tokens(adf)[0]] + tokens(adf).drop_first()) + tokens(b));
        }
    }
}

/// Every token the tokenizer yields is non-empty and free of whitespace.
pub proof fn lemma_tokens_clean(s: Seq<char>)
    ensures
        forall|k: int| 0 <= k < tokens(s).len() ==> clean_token(#[trigger] tokens(s)[k]),
    decreases s.len(),
{
    if s.len() == 0 {
    } else if is_space(s[0]) {
        lemma_tokens_clean(s.drop_first());
        assert forall|k: int| 0 <= k < tokens(s).len() implies clean_token(
            #[trigger] tokens(s)[k],
        ) by {
            assert(tokens(s)[k] == tokens(s.drop_first())[k]);
        }
    } else {
        lemma_tokens_clean(s.drop_first());
        let rest = tokens(s.drop_first());
        if s.len() > 1 && !is_space(s[1]) {
            lemma_tokens_nonempty(s.drop_first());
            let head = seq![s[0]] + rest[0];
            assert forall|j: int| 0 <= j < head.len() implies !is_space(#[trigger] head[j]) by {
                if j == 0 {
                } else {
                    assert(head[j] == rest[0][j - 1]);
                }
            }
            assert(clean_token(head));
            assert forall|k: int| 0 <= k < tokens(s).len() implies clean_token(
                #[trigger] tokens(s)[k],
            ) by {
                if k > 0 {
                    assert(tokens(s)[k] == rest[k]);
                }
            }
        } else {
            assert(clean_token(seq![s[0]]));
            assert forall|k: int| 0 <= k < tokens(s).len() implies clean_token(
                #[trigger] tokens(s)[k],
            ) by {
                if k > 0 {
                    assert(tokens(s)[k] == rest[k - 1]);
                }
            }
        }
    }
}

/// Joining clean tokens with single spaces and re-tokenizing gives them back.
pub proof fn lemma_tokens_join(ps: Seq<Seq<char>>)
    requires
        forall|k: int| 0 <= k < ps.len() ==> clean_token(#[trigger] ps[k]),
    ensures
        tokens(join_with(ps, seq![' '])) == ps,
    decreases ps.len(),
{
    if ps.len() == 0 {
        assert(tokens(join_with(ps, seq![' '])) =~= ps);
    } else if ps.len() == 1 {
        lemma_tokens_single(ps[0]);
        assert(tokens(join_with(ps, seq![' '])) =~= ps);
    } else {
        lemma_tokens_join(ps.drop_first());
        lemma_tokens_sep(ps[0], join_with(ps.drop_first(), seq![' ']));
        lemma_tokens_single(ps[0]);
        assert(tokens(join_with(ps, seq![' '])) =~= ps);
    }
}

/// Appending one element to a join appends a separator and the element.
pub proof fn lemma_join_push(ps: Seq<Seq<char>>, p: Seq<char>, sep: Seq<char>)
    ensures
        join_with(ps.push(p), sep) == if ps.len() == 0 {
            p
        } else {
            join_with(ps, sep) + sep + p
        },
    decreases ps.len(),
{
    let q = ps.push(p);
    if ps.len() == 0 {
        assert(q.len() == 1);
        assert(q[0] == p);
    } else if ps.len() == 1 {
        assert(q.len() == 2);
        assert(q[0] == ps[0]);
        assert(q.drop_first() =~= seq![p]);
        assert(join_with(seq![p], sep) == p);
    } else {
        assert(q[0] == ps[0]);
        assert(q.drop_first() =~= ps.drop_first().push(p));
        lemma_join_push(ps.drop_first(), p, sep);
        assert(ps[0] + sep + (join_with(ps.drop_first(), sep) + sep + p) =~= (ps[0] + sep
            + join_with(ps.drop_first(), sep)) + sep + p);
    }
}

/// `remove_all` on a sequence extended by one element.
pub proof fn lemma_remove_all_push(ps: Seq<Seq<char>>, p: Seq<char>, tok: Seq<char>)
    ensures
        remove_all(ps.push(p), tok) == if p == tok {
            remove_all(ps, tok)
        } else {
            remove_all(ps, tok).push(p)
        },
    decreases ps.len(),
{
    let q = ps.push(p);
    if ps.len() == 0 {
        assert(q[0] == p);
        assert(q.drop_first() =~= Seq::<Seq<char>>::empty());
        assert(remove_all(Seq::<Seq<char>>::empty(), tok) =~= Seq::<Seq<char>>::empty());
        if p == tok {
            assert(remove_all(q, tok) =~= remove_all(ps, tok));
        } else {
            assert(remove_all(q, tok) =~= remove_all(ps, tok).push(p));
        }
    } else {
        assert(q[0] == ps[0]);
        assert(q.drop_first() =~= ps.drop_first().push(p));
        lemma_remove_all_push(ps.drop_first(), p, tok);
        if p == tok {
            if ps[0] == tok {
            } else {
                assert(remove_all(q, tok) =~= remove_all(ps, tok));
            }
        } else {
            if ps[0] == tok {
            } else {
                assert(seq![ps[0]] + remove_all(ps.drop_first(), tok).push(p) =~= (seq![ps[0]]
                    + remove_all(ps.drop_first(), tok)).push(p));
            }
        }
    }
}

/// When `tok` occurs exactly once, `remove_all` removes just that occurrence.
pub proof fn lemma_remove_all_unique(ps: Seq<Seq<char>>, tok: Seq<char>, p: int)
    requires
        0 <= p < ps.len(),
        ps[p] == tok,
        forall|q: int| 0 <= q < ps.len() && q != p ==> ps[q] != tok,
    ensures
        remove_all(ps, tok) == ps.subrange(0, p) + ps.subrange(p + 1, ps.len() as int),
    decreases ps.len(),
{
    if p == 0 {
        assert(remove_all(ps, tok) == remove_all(ps.drop_first(), tok));
        lemma_remove_all_none(ps.drop_first(), tok);
        assert(ps.drop_first() =~= ps.subrange(0, 0) + ps.subrange(1, ps.len() as int));
    } else {
        lemma_remove_all_unique(ps.drop_first(), tok, p - 1);
        assert(seq![ps[0]] + (ps.drop_first().subrange(0, p - 1) + ps.drop_first().subrange(
            p,
            ps.len() - 1,
        )) =~= ps.subrange(0, p) + ps.subrange(p + 1, ps.len() as int));
    }
}

/// Every element `remove_all` keeps is an element of the original sequence.
pub proof fn lemma_remove_all_elements(ps: Seq<Seq<char>>, tok: Seq<char>)
    ensures
        forall|k: int| 0 <= k < remove_all(ps, tok).len() ==> ps.contains(
            #[trigger] remove_all(ps, tok)[k],
        ),
    decreases ps.len(),
{
    if ps.len() > 0 {
        lemma_remove_all_elements(ps.drop_first(), tok);
        let rest = remove_all(ps.drop_first(), tok);
        assert forall|k: int| 0 <= k < remove_all(ps, tok).len() implies ps.contains(
            #[trigger] remove_all(ps, tok)[k],
        ) by {
            if ps[0] == tok {
                assert(remove_all(ps, tok)[k] == rest[k]);
                let j = choose|j: int| 0 <= j < ps.drop_first().len() && ps.drop_first()[j]
                    == rest[k];
                assert(ps[j + 1] == rest[k]);
            } else {
                if k == 0 {
                    assert(remove_all(ps, tok)[0] == ps[0]);
                } else {
                    assert(remove_all(ps, tok)[k] == rest[k - 1]);
                    let j = choose|j: int| 0 <= j < ps.drop_first().len() && ps.drop_first()[j]
                        == rest[k - 1];
                    assert(ps[j + 1] == rest[k - 1]);
                }
            }
        }
    }
}

/// `remove_all` keeps a sequence in which `tok` does not occur.
pub proof fn lemma_remove_all_none(ps: Seq<Seq<char>>, tok: Seq<char>)
    requires
        forall|q: int| 0 <= q < ps.len() ==> ps[q] != tok,
    ensures
        remove_all(ps, tok) == ps,
    decreases ps.len(),
{
    if ps.len() == 0 {
        assert(remove_all(ps, tok) =~= ps);
    } else {
        lemma_remove_all_none(ps.drop_first(), tok);
        assert(seq![ps[0]] + ps.drop_first() =~= ps);
    }
}

/// What `find_char_from` returns: `-1` exactly when `c` is absent from
/// `[i, len)`, and otherwise the first index of `c` at or after `i`.
pub proof fn lemma_find_char_from(s: Seq<char>, c: char, i: int)
    requires
        0 <= i <= s.len(),
    ensures
        find_char_from(s, c, i) == -1 <==> (forall|j: int| i <= j < s.len() ==> s[j] != c),
        find_char_from(s, c, i) != -1 ==> i <= find_char_from(s, c, i) < s.len() && s[find_char_from(
            s,
            c,
            i,
        )] == c && (forall|j: int| i <= j < find_char_from(s, c, i) ==> s[j] != c),
    decreases s.len() - i,
{
    if i < s.len() && s[i] != c {
        lemma_find_char_from(s, c, i + 1);
    }
}

/// What `rfind_char_before` returns: `-1` exactly when `c` is absent from
/// `[0, i)`, and otherwise the last index of `c` before `i`.
pub proof fn lemma_rfind_char_before(s: Seq<char>, c: char, i: int)
    requires
        0 <= i <= s.len(),
    ensures
        rfind_char_before(s, c, i) == -1 <==> (forall|j: int| 0 <= j < i ==> s[j] != c),
        rfind_char_before(s, c, i) != -1 ==> 0 <= rfind_char_before(s, c, i) < i && s[rfind_char_before(
            s,
            c,
            i,
        )] == c && (forall|j: int| rfind_char_before(s, c, i) < j < i ==> s[j] != c),
    decreases i,
{
    if i > 0 && s[i - 1] != c {
        lemma_rfind_char_before(s, c, i - 1);
    }
}

/// What `find_sub_from` returns: `-1` exactly when `n` occurs nowhere at or
/// after `i`, and otherwise the first occurrence at or after `i`.
pub proof fn lemma_find_sub_from(h: Seq<char>, n: Seq<char>, i: int)
    requires
        0 <= i,
    ensures
        find_sub_from(h, n, i) == -1 <==> (forall|j: int|
            i <= j && j + n.len() <= h.len() ==> #[trigger] h.subrange(j, j + n.len() as int)
                != n),
        find_sub_from(h, n, i) != -1 ==> i <= find_sub_from(h, n, i) && find_sub_from(h, n, i)
            + n.len() <= h.len() && h.subrange(
            find_sub_from(h, n, i),
            find_sub_from(h, n, i) + n.len() as int,
        ) == n && (forall|j: int|
            i <= j < find_sub_from(h, n, i) ==> #[trigger] h.subrange(j, j + n.len() as int)
                != n),
    decreases h.len() - i + 1,
{
    if i + n.len() <= h.len() && h.subrange(i, i + n.len() as int) != n {
        lemma_find_sub_from(h, n, i + 1);
    }
}

/// An occurrence of `n` at `i` shows that `h` contains `n`.
pub proof fn lemma_contains_seq_at(h: Seq<char>, n: Seq<char>, i: int)
    requires
        0 <= i,
        i + n.len() <= h.len(),
        h.subrange(i, i + n.len() as int) == n,
    ensures
        contains_seq(h, n),
{
}

/// Searching a suffix finds the same character, at a shifted index.
pub proof fn lemma_find_char_from_skip(s: Seq<char>, c: char, d: int, j: int)
    requires
        0 <= d <= s.len(),
        0 <= j,
    ensures
        find_char_from(s.skip(d), c, j) == (if find_char_from(s, c, d + j) == -1 {
            -1
        } else {
            find_char_from(s, c, d + j) - d
        }),
    decreases s.len() - d - j,
{
    if d + j < s.len() {
        assert(s.skip(d)[j] == s[d + j]);
        if s[d + j] != c {
            lemma_find_char_from_skip(s, c, d, j + 1);
        }
    }
}

/// A `c` at `k` with none in `[i, k)` determines `find_char_from`.
pub proof fn lemma_find_char_from_is(s: Seq<char>, c: char, i: int, k: int)
    requires
        0 <= i <= k < s.len(),
        s[k] == c,
        forall|j: int| i <= j < k ==> s[j] != c,
    ensures
        find_char_from(s, c, i) == k,
    decreases k - i,
{
    if i < k {
        lemma_find_char_from_is(s, c, i + 1, k);
    }
}

/// A `c` at `k` with none in `(k, i)` determines `rfind_char_before`.
pub proof fn lemma_rfind_char_before_is(s: Seq<char>, c: char, i: int, k: int)
    requires
        0 <= k < i <= s.len(),
        s[k] == c,
        forall|j: int| k < j < i ==> s[j] != c,
    ensures
        rfind_char_before(s, c, i) == k,
    decreases i,
{
    if k < i - 1 {
        lemma_rfind_char_before_is(s, c, i - 1, k);
    }
}

/// An occurrence of `n` at `k` with none in `[i, k)` determines
/// `find_sub_from`.
pub proof fn lemma_find_sub_from_is(h: Seq<char>, n: Seq<char>, i: int, k: int)
    requires
        0 <= i <= k,
        k + n.len() <= h.len(),
        h.subrange(k, k + n.len() as int) == n,
        forall|j: int| i <= j < k ==> #[trigger] h.subrange(j, j + n.len() as int) != n,
    ensures
        find_sub_from(h, n, i) == k,
    decreases k - i,
{
    if i < k {
        lemma_find_sub_from_is(h, n, i + 1, k);
    }
}

/// The run of whitespace starting at 0 ends within the sequence, and all of
/// it is whitespace.
pub proof fn lemma_ws_end(l: Seq<char>, i: int)
    requires
        0 <= i <= l.len(),
    ensures
        i <= ws_end_from(l, i) <= l.len(),
        forall|j: int| i <= j < ws_end_from(l, i) ==> is_space(#[trigger] l[j]),
        ws_end_from(l, i) < l.len() ==> !is_space(l[ws_end_from(l, i)]),
    decreases l.len() - i,
{
    if i < l.len() && is_space(l[i]) {
        lemma_ws_end(l, i + 1);
    }
}

/// First index of `c` at or after `from`, executable.
pub fn find_char_at(s: &str, c: char, from: usize) -> (r: Option<usize>)
    requires
        from <= s@.len(),
    ensures
        match r {
            Some(k) => find_char_from(s@, c, from as int) == k as int,
            None => find_char_from(s@, c, from as int) == -1,
        },
{
    let n = s.unicode_len();
    let mut i: usize = from;
    while i < n
        invariant
            from <= i <= n,
            n == s@.len(),
            find_char_from(s@, c, from as int) == find_char_from(s@, c, i as int),
        decreases n - i,
    {
        if s.get_char(i) == c {
            return Some(i);
        }
        i += 1;
    }
    None
}

/// Last index of `c` in `s`, executable.
pub fn rfind_char_in(s: &str, c: char) -> (r: Option<usize>)
    ensures
        match r {
            Some(k) => rfind_char(s@, c) == k as int,
            None => rfind_char(s@, c) == -1,
        },
{
    let n = s.unicode_len();
    let mut i: usize = n;
    while i > 0
        invariant
            i <= n,
            n == s@.len(),
            rfind_char_before(s@, c, n as int) == rfind_char_before(s@, c, i as int),
        decreases i,
    {
        if s.get_char(i - 1) == c {
            return Some(i - 1);
        }
        i -= 1;
    }
    None
}

/// Whether `n@` occurs in `h@` starting exactly at `i`.
fn match_at(h: &str, n: &str, i: usize) -> (b: bool)
    requires
        i + n@.len() <= h@.len(),
    ensures
        b == (h@.subrange(i as int, i as int + n@.len() as int) == n@),
{
    let hl = h.unicode_len();
    let nl = n.unicode_len();
    let mut j: usize = 0;
    while j < nl
        invariant
            j <= nl,
            hl == h@.len(),
            nl == n@.len(),
            i + nl <= hl,
            forall|k: int| 0 <= k < j ==> h@[i + k] == n@[k],
        decreases nl - j,
    {
        if s_get(h, i + j) != s_get(n, j) {
            proof {
                let sub = h@.subrange(i as int, i as int + n@.len() as int);
                assert(sub[j as int] != n@[j as int]);
            }
            return false;
        }
        j += 1;
    }
    proof {
        assert(h@.subrange(i as int, i as int + n@.len() as int) =~= n@);
    }
    true
}

/// One character of `s`, by character index.
fn s_get(s: &str, i: usize) -> (c: char)
    requires
        i < s@.len(),
    ensures
        c == s@[i as int],
{
    s.get_char(i)
}

/// First occurrence of `n` in `h` at or after `from`, executable.
pub fn find_sub_at(h: &str, n: &str, from: usize) -> (r: Option<usize>)
    requires
        from <= h@.len(),
    ensures
        match r {
            Some(k) => find_sub_from(h@, n@, from as int) == k as int,
            None => find_sub_from(h@, n@, from as int) == -1,
        },
{
    let hl = h.unicode_len();
    let nl = n.unicode_len();
    if nl == 0 {
        proof {
            assert(h@.subrange(from as int, from as int) =~= n@);
        }
        return Some(from);
    }
    if nl > hl || from > hl - nl {
        return None;
    }
    let mut i: usize = from;
    while i <= hl - nl
        invariant
            from <= i,
            i <= hl - nl + 1,
            1 <= nl <= hl,
            hl == h@.len(),
            nl == n@.len(),
            find_sub_from(h@, n@, from as int) == find_sub_from(h@, n@, i as int),
        decreases hl - nl - i + 1,
    {
        if match_at(h, n, i) {
            return Some(i);
        }
        i += 1;
    }
    None
}

/// Whether `n` occurs anywhere in `h`.
pub fn contains_sub(h: &str, n: &str) -> (b: bool)
    ensures
        b == contains_seq(h@, n@),
{
    let r = find_sub_at(h, n, 0);
    proof {
        lemma_find_sub_from(h@, n@, 0);
        if find_sub_from(h@, n@, 0) == -1 {
            assert(!contains_seq(h@, n@));
        } else {
            let k = find_sub_from(h@, n@, 0);
            assert(0 <= k && k + n@.len() <= h@.len() && h@.subrange(k, k + n@.len() as int)
                == n@);
        }
    }
    r.is_some()
}

/// Whether some character of `s` is `c`.
pub fn line_has_char(s: &str, c: char) -> (b: bool)
    ensures
        b == has_char(s@, c),
{
    let r = find_char_at(s, c, 0);
    proof {
        lemma_find_char_from(s@, c, 0);
        if find_char_from(s@, c, 0) != -1 {
            let k = find_char_from(s@, c, 0);
            assert(0 <= k < s@.len() && s@[k] == c);
        }
    }
    r.is_some()
}

/// The length of the run of whitespace that starts the string.
pub fn ws_prefix_len(s: &str) -> (k: usize)
    ensures
        k as int == ws_end_from(s@, 0),
        k <= s@.len(),
{
    let n = s.unicode_len();
    let mut i: usize = 0;
    while i < n
        invariant
            i <= n,
            n == s@.len(),
            ws_end_from(s@, 0) == ws_end_from(s@, i as int),
        decreases n - i,
    {
        if !is_space_char(s.get_char(i)) {
            return i;
        }
        i += 1;
    }
    i
}

/// The whitespace-separated tokens of `s`, in order, as owned strings.
pub fn tokenize(s: &str) -> (r: Vec<String>)
    ensures
        str_views(r@) == tokens(s@),
{
    let n = s.unicode_len();
    let mut out: Vec<String> = Vec::new();
    let mut i: usize = 0;
    proof {
        assert(s@.skip(0) =~= s@);
        assert(str_views(out@) + tokens(s@) =~= tokens(s@));
    }
    while i < n
        invariant
            i <= n,
            n == s@.len(),
            tokens(s@) == str_views(out@) + tokens(s@.skip(i as int)),
        decreases n - i,
    {
        if is_space_char(s.get_char(i)) {
            proof {
                assert(s@.skip(i as int)[0] == s@[i as int]);
                assert(s@.skip(i as int).drop_first() =~= s@.skip(i as int + 1));
            }
            i += 1;
        } else {
            let mut j: usize = i + 1;
            while j < n && !is_space_char(s.get_char(j))
                invariant
                    i < j <= n,
                    n == s@.len(),
                    !is_space(s@[i as int]),
                    forall|k: int| i <= k < j ==> !is_space(#[trigger] s@[k]),
                decreases n - j,
            {
                j += 1;
            }
            let t = s.substring_char(i, j).to_owned();
            let ghost prev = out@;
            out.push(t);
            proof {
                let sub = s@.skip(i as int);
                let m = j as int - i as int;
                assert forall|k: int| 0 <= k < m implies !is_space(#[trigger] sub[k]) by {
                    assert(sub[k] == s@[i + k]);
                }
                if m < sub.len() {
                    assert(sub[m] == s@[j as int]);
                }
                lemma_tokens_run(sub, m);
                assert(sub.take(m) =~= s@.subrange(i as int, j as int));
                assert(sub.skip(m) =~= s@.skip(j as int));
                assert(str_views(out@) =~= str_views(prev).push(t@));
                assert(str_views(prev).push(t@) + tokens(s@.skip(j as int)) =~= str_views(prev) + (
                seq![t@] + tokens(s@.skip(j as int))));
            }
            i = j;
        }
    }
    proof {
        assert(s@.skip(i as int) =~= Seq::<char>::empty());
        assert(str_views(out@) + tokens(s@.skip(i as int)) =~= str_views(out@));
    }
    out
}

/// The first whitespace-separated token of `s`, when there is one.
pub fn first_token(s: &str) -> (r: Option<String>)
    ensures
        match r {
            Some(t) => tokens(s@).len() >= 1 && t@ == tokens(s@)[0],
            None => tokens(s@).len() == 0,
        },
{
    let n = s.unicode_len();
    let mut i: usize = 0;
    proof {
        assert(s@.skip(0) =~= s@);
    }
    while i < n
        invariant
            i <= n,
            n == s@.len(),
            tokens(s@) == tokens(s@.skip(i as int)),
        decreases n - i,
    {
        if is_space_char(s.get_char(i)) {
            proof {
                assert(s@.skip(i as int)[0] == s@[i as int]);
                assert(s@.skip(i as int).drop_first() =~= s@.skip(i as int + 1));
            }
            i += 1;
        } else {
            let mut j: usize = i + 1;
            while j < n && !is_space_char(s.get_char(j))
                invariant
                    i < j <= n,
                    n == s@.len(),
                    !is_space(s@[i as int]),
                    forall|k: int| i <= k < j ==> !is_space(#[trigger] s@[k]),
                decreases n - j,
            {
                j += 1;
            }
            let t = s.substring_char(i, j).to_owned();
            proof {
                let sub = s@.skip(i as int);
                let m = j as int - i as int;
                assert forall|k: int| 0 <= k < m implies !is_space(#[trigger] sub[k]) by {
                    assert(sub[k] == s@[i + k]);
                }
                if m < sub.len() {
                    assert(sub[m] == s@[j as int]);
                }
                lemma_tokens_run(sub, m);
                assert(sub.take(m) =~= s@.subrange(i as int, j as int));
            }
            return Some(t);
        }
    }
    proof {
        assert(s@.skip(i as int) =~= Seq::<char>::empty());
    }
    None
}

/// The elements of `parts` joined with `sep`, executable.
pub fn join_with_str(parts: &Vec<String>, sep: &str) -> (r: String)
    ensures
        r@ == join_with(str_views(parts@), sep@),
{
    let mut out = String::new();
    let mut k: usize = 0;
    while k < parts.len()
        invariant
            k <= parts@.len(),
            out@ == join_with(str_views(parts@).take(k as int), sep@),
        decreases parts@.len() - k,
    {
        let ghost pre = str_views(parts@).take(k as int);
        if k > 0 {
            out.append(sep);
        }
        out.append(parts[k].as_str());
        proof {
            lemma_join_push(pre, parts@[k as int]@, sep@);
            assert(pre.push(parts@[k as int]@) =~= str_views(parts@).take(k as int + 1));
        }
        k += 1;
    }
    proof {
        assert(str_views(parts@).take(parts@.len() as int) =~= str_views(parts@));
    }
    out
}

/// `l` with its first occurrence of `pat` replaced by `rep`, executable.
pub fn replace_first(l: &str, pat: &str, rep: &str) -> (r: String)
    ensures
        r@ == replace_first_spec(l@, pat@, rep@),
{
    match find_sub_at(l, pat, 0) {
        None => l.to_owned(),
        Some(i) => {
            proof {
                lemma_find_sub_from(l@, pat@, 0);
            }
            let ll = l.unicode_len();
            let pl = pat.unicode_len();
            let head = l.substring_char(0, i);
            let tail = l.substring_char(i + pl, ll);
            let r = head.to_owned().concat(rep).concat(tail);
            proof {
                assert(r@ =~= l@.subrange(0, i as int) + rep@ + l@.subrange(
                    i as int + pat@.len() as int,
                    l@.len() as int,
                ));
            }
            r
        },
    }
}

/// Whether `s` starts with `p`.
pub fn str_starts_with(s: &str, p: &str) -> (b: bool)
    ensures
        b == (p@.len() <= s@.len() && s@.take(p@.len() as int) == p@),
{
    let sl = s.unicode_len();
    let pl = p.unicode_len();
    if pl > sl {
        return false;
    }
    let b = match_at(s, p, 0);
    proof {
        assert(s@.subrange(0, p@.len() as int) =~= s@.take(p@.len() as int));
    }
    b
}

} // verus!
