//! The laws the editor obeys, stated and proved over the spec functions the
//! operations' contracts use.

use vstd::prelude::*;

use crate::EditError;
use crate::block::comment_token;
use crate::block::entries_spec;
use crate::block::first_close_line;
use crate::block::lemma_first_close_line;
use crate::block::lemma_first_close_line_is;
use crate::block::lemma_first_marker_line;
use crate::block::lemma_first_marker_line_is;
use crate::block::lemma_multi_entries_absent;
use crate::block::lemma_multi_entries_congruent;
use crate::block::lemma_multi_entries_shift;
use crate::block::lemma_multi_entries_snoc;
use crate::block::lemma_multi_entries_split;
use crate::block::line_entry;
use crate::block::single_line_entries;
use crate::block::locate_spec;
use crate::block::marker;
use crate::block::multi_entries;
use crate::edit::dup_in_range;
use crate::edit::first_match_line;
use crate::edit::indent_of;
use crate::edit::insert_spec;
use crate::edit::inserted_line;
use crate::edit::lemma_first_match_line;
use crate::edit::remove_spec;
use crate::edit::single_insert_line;
use crate::edit::single_remove_line;
use crate::text::clean_token;
use crate::text::contains_seq;
use crate::text::has_char;
use crate::text::is_space;
use crate::text::find_char_from;
use crate::text::join_with;
use crate::text::lemma_contains_seq_at;
use crate::text::lemma_find_char_from;
use crate::text::lemma_remove_all_elements;
use crate::text::lemma_remove_all_unique;
use crate::text::lemma_rfind_char_before;
use crate::text::lemma_tokens_clean;
use crate::text::lemma_tokens_join;
use crate::text::remove_all;
use crate::text::rfind_char;
use crate::text::lemma_find_char_from_is;
use crate::text::lemma_find_sub_from_is;
use crate::text::lemma_rfind_char_before_is;
use crate::text::lemma_tokens_sep;
use crate::text::lemma_tokens_single;
use crate::text::lemma_tokens_space_prefix;
use crate::text::lemma_ws_end;
use crate::text::tokens;

verus! {

/// A token to be inserted into a multi-line block, as the round-trip laws
/// need it: one clean word that neither closes the block nor opens a
/// comment.
pub open spec fn insertable_token(tok: Seq<char>) -> bool {
    clean_token(tok) && !has_char(tok, ']') && !comment_token(tok)
}

/// The line inserted into a multi-line block carries exactly the new token,
/// and no closing bracket.
pub proof fn lemma_inserted_line(close: Seq<char>, tok: Seq<char>)
    requires
        clean_token(tok),
        !has_char(tok, ']'),
    ensures
        tokens(inserted_line(close, tok)) == seq![tok],
        !has_char(inserted_line(close, tok), ']'),
{
    lemma_ws_end(close, 0);
    let ind = indent_of(close);
    let pre = ind + ind;
    let nl = inserted_line(close, tok);
    assert forall|j: int| 0 <= j < pre.len() implies is_space(#[trigger] pre[j]) by {
        if j < ind.len() {
            assert(pre[j] == ind[j]);
            assert(ind[j] == close[j]);
        } else {
            assert(pre[j] == ind[j - ind.len()]);
            assert(ind[j - ind.len()] == close[j - ind.len()]);
        }
    }
    assert(nl =~= pre + tok);
    lemma_tokens_space_prefix(pre, tok);
    lemma_tokens_single(tok);
    assert forall|j: int| 0 <= j < nl.len() implies nl[j] != ']' by {
        if j < pre.len() {
            assert(is_space(nl[j]));
        } else {
            assert(nl[j] == tok[j - pre.len()]);
        }
    }
    assert(!has_char(nl, ']'));
}

/// A document with no marker anywhere has no block: locating fails, and both
/// mutations fail with `BlockNotFound`, whatever the token.
pub proof fn lemma_no_marker_no_block(lines: Seq<Seq<char>>, tok: Seq<char>)
    requires
        forall|i: int| 0 <= i < lines.len() ==> !contains_seq(#[trigger] lines[i], marker()),
    ensures
        locate_spec(lines) is None,
        insert_spec(lines, tok) == Err::<Seq<Seq<char>>, EditError>(EditError::BlockNotFound),
        remove_spec(lines, tok) == Err::<Seq<Seq<char>>, EditError>(EditError::BlockNotFound),
{
    lemma_first_marker_line(lines, 0);
}

/// Inserting an absent token into a multi-line block succeeds, keeps the
/// block in place with its end one line further down, and appends the token
/// to the listed entries.
pub proof fn lemma_insert_then_list_multi(lines: Seq<Seq<char>>, s: int, e: int, tok: Seq<char>)
    requires
        locate_spec(lines) == Some((s, e)),
        s < e,
        !dup_in_range(lines, s, e, tok),
        insertable_token(tok),
    ensures
        insert_spec(lines, tok) == Ok::<Seq<Seq<char>>, EditError>(
            lines.insert(e, inserted_line(lines[e], tok)),
        ),
        locate_spec(lines.insert(e, inserted_line(lines[e], tok))) == Some((s, e + 1)),
        entries_spec(lines.insert(e, inserted_line(lines[e], tok)), s, e + 1) == entries_spec(
            lines,
            s,
            e,
        ).push(tok),
{
    lemma_first_marker_line(lines, 0);
    lemma_first_close_line(lines, s);
    let nl = inserted_line(lines[e], tok);
    let l2 = lines.insert(e, nl);
    lines.insert_ensures(e, nl);
    lemma_inserted_line(lines[e], tok);

    assert(l2[s] == lines[s]);
    assert forall|j: int| 0 <= j < s implies !contains_seq(#[trigger] l2[j], marker()) by {
        assert(l2[j] == lines[j]);
    }
    lemma_first_marker_line_is(l2, 0, s);

    assert(l2[e + 1] == lines[e]);
    assert forall|j: int| s <= j < e + 1 implies !has_char(#[trigger] l2[j], ']') by {
        if j < e {
            assert(l2[j] == lines[j]);
        } else {
            assert(l2[j] == nl);
        }
    }
    lemma_first_close_line_is(l2, s, e + 1);
    assert(locate_spec(l2) == Some((s, e + 1)));

    assert forall|j: int| s + 1 <= j < e implies #[trigger] l2[j] == lines[j] by {}
    lemma_multi_entries_congruent(l2, lines, s + 1, e);
    lemma_multi_entries_snoc(l2, s + 1, e);
    assert(l2[e] == nl);
    assert(line_entry(nl) == Some(tok));
    assert(entries_spec(l2, s, e + 1) =~= entries_spec(lines, s, e).push(tok));
}

/// Inserting the same clean token twice into a multi-line block fails the
/// second time with `EntryAlreadyPresent`.
pub proof fn lemma_insert_twice_multi(lines: Seq<Seq<char>>, s: int, e: int, tok: Seq<char>)
    requires
        locate_spec(lines) == Some((s, e)),
        s < e,
        !dup_in_range(lines, s, e, tok),
        insertable_token(tok),
    ensures
        insert_spec(lines, tok) == Ok::<Seq<Seq<char>>, EditError>(
            lines.insert(e, inserted_line(lines[e], tok)),
        ),
        insert_spec(lines.insert(e, inserted_line(lines[e], tok)), tok) == Err::<
            Seq<Seq<char>>,
            EditError,
        >(EditError::EntryAlreadyPresent),
{
    lemma_first_marker_line(lines, 0);
    lemma_first_close_line(lines, s);
    lemma_insert_then_list_multi(lines, s, e, tok);
    let nl = inserted_line(lines[e], tok);
    let l2 = lines.insert(e, nl);
    lines.insert_ensures(e, nl);
    lemma_ws_end(lines[e], 0);
    let gi = nl.len() - tok.len();
    assert(nl.subrange(gi, gi + tok.len() as int) =~= tok);
    assert(contains_seq(nl, tok));
    assert(l2[e] == nl);
    assert(s <= e < e + 1 && contains_seq(l2[e], tok));
    assert(dup_in_range(l2, s, e + 1, tok));
}

/// Removing a present token from a multi-line block deletes exactly the
/// first line carrying it: the entries lose that one occurrence of the
/// token, earlier entries never equal it, and the block closes one line
/// higher.
pub proof fn lemma_remove_then_list_multi(
    lines: Seq<Seq<char>>,
    s: int,
    e: int,
    tok: Seq<char>,
    idx: int,
)
    requires
        locate_spec(lines) == Some((s, e)),
        s < e,
        first_match_line(lines, s + 1, e, tok) == idx,
        idx != -1,
        !comment_token(tok),
    ensures
        remove_spec(lines, tok) == Ok::<Seq<Seq<char>>, EditError>(lines.remove(idx)),
        locate_spec(lines.remove(idx)) == Some((s, e - 1)),
        entries_spec(lines, s, e) == multi_entries(lines, s + 1, idx) + seq![tok] + multi_entries(
            lines,
            idx + 1,
            e,
        ),
        entries_spec(lines.remove(idx), s, e - 1) == multi_entries(lines, s + 1, idx)
            + multi_entries(lines, idx + 1, e),
        forall|q: int| 0 <= q < multi_entries(lines, s + 1, idx).len() ==> #[trigger] multi_entries(
            lines,
            s + 1,
            idx,
        )[q] != tok,
{
    lemma_first_marker_line(lines, 0);
    lemma_first_close_line(lines, s);
    lemma_first_match_line(lines, s + 1, e, tok);
    let l2 = lines.remove(idx);
    lines.remove_ensures(idx);

    assert(l2[s] == lines[s]);
    assert forall|j: int| 0 <= j < s implies !contains_seq(#[trigger] l2[j], marker()) by {
        assert(l2[j] == lines[j]);
    }
    lemma_first_marker_line_is(l2, 0, s);

    assert(l2[e - 1] == lines[e]);
    assert forall|j: int| s <= j < e - 1 implies !has_char(#[trigger] l2[j], ']') by {
        if j < idx {
            assert(l2[j] == lines[j]);
        } else {
            assert(l2[j] == lines[j + 1]);
        }
    }
    lemma_first_close_line_is(l2, s, e - 1);
    assert(locate_spec(l2) == Some((s, e - 1)));

    lemma_multi_entries_split(lines, s + 1, idx, e);
    assert(line_entry(lines[idx]) == Some(tok));
    assert(multi_entries(lines, idx, e) == seq![tok] + multi_entries(lines, idx + 1, e));
    assert(entries_spec(lines, s, e) =~= multi_entries(lines, s + 1, idx) + seq![tok]
        + multi_entries(lines, idx + 1, e));

    lemma_multi_entries_absent(lines, s + 1, idx, tok);

    lemma_multi_entries_split(l2, s + 1, idx, e - 1);
    assert forall|j: int| s + 1 <= j < idx implies #[trigger] l2[j] == lines[j] by {}
    lemma_multi_entries_congruent(l2, lines, s + 1, idx);
    assert forall|j: int| idx <= j < e - 1 implies #[trigger] l2[j] == lines[j + 1] by {}
    lemma_multi_entries_shift(l2, lines, 1, idx, e - 1);
}

/// Removing a token no interior line of a multi-line block starts with
/// fails with `EntryNotFound`; such a token is no listed entry either.
pub proof fn lemma_remove_missing_multi(lines: Seq<Seq<char>>, s: int, e: int, tok: Seq<char>)
    requires
        locate_spec(lines) == Some((s, e)),
        s < e,
        first_match_line(lines, s + 1, e, tok) == -1,
    ensures
        remove_spec(lines, tok) == Err::<Seq<Seq<char>>, EditError>(EditError::EntryNotFound),
        forall|q: int| 0 <= q < entries_spec(lines, s, e).len() ==> entries_spec(lines, s, e)[q]
            != tok,
{
    lemma_first_match_line(lines, s + 1, e, tok);
    lemma_multi_entries_absent(lines, s + 1, e, tok);
}

/// A single-line block line in which each bracket occurs exactly once, in
/// order: the shape the single-line round-trip laws speak about.
pub open spec fn well_formed_single(l: Seq<char>, lbr: int, rbr: int) -> bool {
    &&& find_char_from(l, '[', 0) == lbr
    &&& rfind_char(l, ']') == rbr
    &&& 0 <= lbr < rbr
    &&& forall|j: int| 0 <= j < l.len() && j != lbr ==> l[j] != '['
    &&& forall|j: int| 0 <= j < l.len() && j != rbr ==> l[j] != ']'
}

/// Removing a token that occurs exactly once among the entries of a
/// well-formed single-line block keeps the block in place and removes
/// exactly that occurrence from the listed entries.
pub proof fn lemma_remove_then_list_single(
    lines: Seq<Seq<char>>,
    s: int,
    tok: Seq<char>,
    lbr: int,
    rbr: int,
    p: int,
)
    requires
        locate_spec(lines) == Some((s, s)),
        well_formed_single(lines[s], lbr, rbr),
        0 <= p < tokens(lines[s].subrange(lbr + 1, rbr)).len(),
        tokens(lines[s].subrange(lbr + 1, rbr))[p] == tok,
        forall|q: int|
            0 <= q < tokens(lines[s].subrange(lbr + 1, rbr)).len() && q != p ==> #[trigger] tokens(
                lines[s].subrange(lbr + 1, rbr),
            )[q] != tok,
    ensures
        entries_spec(lines, s, s) == tokens(lines[s].subrange(lbr + 1, rbr)),
        remove_spec(lines, tok) is Ok,
        locate_spec(remove_spec(lines, tok)->Ok_0) == Some((s, s)),
        entries_spec(remove_spec(lines, tok)->Ok_0, s, s) == tokens(
            lines[s].subrange(lbr + 1, rbr),
        ).remove(p),
{
    lemma_first_marker_line(lines, 0);
    lemma_first_close_line(lines, s);
    let l = lines[s];
    lemma_find_char_from(l, '[', 0);
    lemma_rfind_char_before(l, ']', l.len() as int);
    let inside = l.subrange(lbr + 1, rbr);
    let parts = tokens(inside);
    assert(parts.contains(tok));
    let kept = remove_all(parts, tok);
    lemma_remove_all_unique(parts, tok, p);
    assert(kept =~= parts.remove(p));

    let joined = join_with(kept, " "@);
    let nl = l.subrange(0, lbr) + "[ "@ + joined + " ]"@;
    assert(single_remove_line(l, tok) == Ok::<Seq<char>, EditError>(nl));
    assert(remove_spec(lines, tok) == Ok::<Seq<Seq<char>>, EditError>(lines.update(s, nl)));
    let l2 = lines.update(s, nl);

    reveal_strlit("[ ");
    reveal_strlit(" ]");
    reveal_strlit(" ");

    lemma_tokens_clean(inside);
    lemma_remove_all_elements(parts, tok);
    assert forall|k: int| 0 <= k < kept.len() implies clean_token(#[trigger] kept[k]) by {
        assert(parts.contains(kept[k]));
        let j = choose|j: int| 0 <= j < parts.len() && parts[j] == kept[k];
        assert(clean_token(parts[j]));
    }

    assert(nl.len() == lbr + joined.len() + 4);
    assert(nl[lbr] == '[');
    assert forall|j: int| 0 <= j < lbr implies nl[j] != '[' by {
        assert(nl[j] == l[j]);
    }
    lemma_find_char_from_is(nl, '[', 0, lbr);
    let r2 = nl.len() - 1;
    assert(nl[r2] == ']');
    lemma_rfind_char_before_is(nl, ']', nl.len() as int, r2);

    let inner = nl.subrange(lbr + 1, r2);
    assert(inner =~= seq![' '] + (joined + seq![' ']));
    assert(forall|j: int| 0 <= j < 1 ==> is_space((seq![' '])[j]));
    lemma_tokens_space_prefix(seq![' '], joined + seq![' ']);
    assert(joined + seq![' '] =~= joined + seq![' '] + Seq::<char>::empty());
    lemma_tokens_sep(joined, Seq::<char>::empty());
    assert(tokens(Seq::<char>::empty()).len() == 0);
    assert(" "@ =~= seq![' ']);
    lemma_tokens_join(kept);
    assert(tokens(inner) =~= kept);
    assert(single_line_entries(nl) == kept);

    reveal_strlit("with pkgs; [");
    assert(contains_seq(l, marker()));
    let m = choose|i: int|
        0 <= i && i + marker().len() <= l.len() && #[trigger] l.subrange(
            i,
            i + marker().len() as int,
        ) == marker();
    assert(l.subrange(m, m + marker().len() as int) == marker());
    assert(l[m + 11] == marker()[11]);
    assert(marker()[11] == '[');
    assert(m + 11 == lbr);
    assert(nl.subrange(m, m + marker().len() as int) =~= marker()) by {
        assert forall|x: int| m <= x < m + 12 implies nl[x] == l[x] by {
            if x < lbr {
                assert(nl[x] == l[x]);
            } else {
                assert(x == lbr);
                assert(nl[lbr] == '[');
                assert(l[lbr] == '[');
            }
        }
    }
    lemma_contains_seq_at(nl, marker(), m);
    assert forall|j: int| 0 <= j < s implies !contains_seq(#[trigger] l2[j], marker()) by {
        assert(l2[j] == lines[j]);
    }
    lemma_first_marker_line_is(l2, 0, s);
    assert(has_char(nl, ']'));
    assert(first_close_line(l2, s) == s);
    assert(locate_spec(l2) == Some((s, s)));
    assert(entries_spec(l2, s, s) == parts.remove(p));
}

/// The marker survives a rewrite that keeps the line up to its only `[`.
proof fn lemma_marker_in_prefix(l: Seq<char>, nl: Seq<char>, lbr: int)
    requires
        contains_seq(l, marker()),
        0 <= lbr < l.len(),
        l[lbr] == '[',
        forall|j: int| 0 <= j < l.len() && j != lbr ==> l[j] != '[',
        lbr < nl.len(),
        forall|x: int| 0 <= x < lbr ==> nl[x] == l[x],
        nl[lbr] == '[',
    ensures
        contains_seq(nl, marker()),
{
    reveal_strlit("with pkgs; [");
    let m = choose|i: int|
        0 <= i && i + marker().len() <= l.len() && #[trigger] l.subrange(
            i,
            i + marker().len() as int,
        ) == marker();
    assert(l.subrange(m, m + marker().len() as int) == marker());
    assert(l[m + 11] == marker()[11]);
    assert(marker()[11] == '[');
    assert(m + 11 == lbr);
    assert(nl.subrange(m, m + marker().len() as int) =~= marker()) by {
        assert forall|x: int| m <= x < m + 12 implies nl[x] == l[x] by {
            if x < lbr {
            } else {
                assert(x == lbr);
            }
        }
    }
    lemma_contains_seq_at(nl, marker(), m);
}

/// Replacing the block line of a single-line block with one that still
/// carries the marker and a closing bracket keeps the block at that line.
proof fn lemma_single_update_locate(lines: Seq<Seq<char>>, s: int, nl: Seq<char>)
    requires
        locate_spec(lines) == Some((s, s)),
        contains_seq(nl, marker()),
        has_char(nl, ']'),
    ensures
        locate_spec(lines.update(s, nl)) == Some((s, s)),
{
    lemma_first_marker_line(lines, 0);
    let l2 = lines.update(s, nl);
    assert forall|j: int| 0 <= j < s implies !contains_seq(#[trigger] l2[j], marker()) by {
        assert(l2[j] == lines[j]);
    }
    lemma_first_marker_line_is(l2, 0, s);
    assert(first_close_line(l2, s) == s);
}

/// Inserting a clean token into a well-formed single-line block keeps the
/// block in place and appends the token to the listed entries.
pub proof fn lemma_insert_then_list_single(
    lines: Seq<Seq<char>>,
    s: int,
    tok: Seq<char>,
    lbr: int,
    rbr: int,
)
    requires
        locate_spec(lines) == Some((s, s)),
        well_formed_single(lines[s], lbr, rbr),
        clean_token(tok),
        !has_char(tok, ']'),
    ensures
        insert_spec(lines, tok) == Ok::<Seq<Seq<char>>, EditError>(
            lines.update(s, single_insert_line(lines[s], tok)),
        ),
        locate_spec(lines.update(s, single_insert_line(lines[s], tok))) == Some((s, s)),
        entries_spec(lines.update(s, single_insert_line(lines[s], tok)), s, s) == entries_spec(
            lines,
            s,
            s,
        ).push(tok),
{
    lemma_first_marker_line(lines, 0);
    lemma_first_close_line(lines, s);
    let l = lines[s];
    lemma_find_char_from(l, '[', 0);
    lemma_rfind_char_before(l, ']', l.len() as int);
    assert(!dup_in_range(lines, s, s, tok));
    reveal_strlit("[]");
    reveal_strlit("[ ");
    reveal_strlit(" ]");
    reveal_strlit("]");
    reveal_strlit(" ");
    let inside = l.subrange(lbr + 1, rbr);
    let entries = tokens(inside);
    let nl = single_insert_line(l, tok);

    if contains_seq(l, "[]"@) {
        let o = choose|i: int|
            0 <= i && i + "[]"@.len() <= l.len() && #[trigger] l.subrange(
                i,
                i + "[]"@.len() as int,
            ) == "[]"@;
        assert(l.subrange(o, o + "[]"@.len() as int) == "[]"@);
        assert(l.subrange(o, o + "[]"@.len() as int)[0] == '[');
        assert(l.subrange(o, o + "[]"@.len() as int)[1] == ']');
        assert(l[o] == '[');
        assert(l[o + 1] == ']');
        assert(o == lbr);
        assert(rbr == lbr + 1);
        assert forall|j: int|
            0 <= j < lbr implies #[trigger] l.subrange(j, j + "[]"@.len() as int) != "[]"@ by {
            if l.subrange(j, j + "[]"@.len() as int) == "[]"@ {
                assert(l.subrange(j, j + "[]"@.len() as int)[0] == '[');
                assert(l[j] == '[');
            }
        }
        lemma_find_sub_from_is(l, "[]"@, 0, lbr);
        let rep = "[ "@ + tok + " ]"@;
        assert(nl =~= l.subrange(0, lbr) + rep + l.subrange(lbr + 2, l.len() as int));
        assert(nl[lbr] == '[');
        assert forall|j: int| 0 <= j < lbr implies nl[j] != '[' by {
            assert(nl[j] == l[j]);
        }
        lemma_find_char_from_is(nl, '[', 0, lbr);
        let r2 = lbr + tok.len() + 3;
        assert(nl[r2] == ']');
        assert forall|j: int| r2 < j < nl.len() implies nl[j] != ']' by {
            assert(nl[j] == l[j - tok.len() - 2]);
            assert(j - tok.len() - 2 > rbr);
        }
        lemma_rfind_char_before_is(nl, ']', nl.len() as int, r2);
        let inner = nl.subrange(lbr + 1, r2);
        assert(inner =~= seq![' '] + (tok + seq![' ']));
        assert(forall|j: int| 0 <= j < 1 ==> is_space((seq![' '])[j]));
        lemma_tokens_space_prefix(seq![' '], tok + seq![' ']);
        assert(tok + seq![' '] =~= tok + seq![' '] + Seq::<char>::empty());
        lemma_tokens_sep(tok, Seq::<char>::empty());
        lemma_tokens_single(tok);
        assert(tokens(Seq::<char>::empty()).len() == 0);
        assert(tokens(inner) =~= seq![tok]);
        assert(single_line_entries(nl) == seq![tok]);
        assert(inside =~= Seq::<char>::empty());
        assert(entries.len() == 0);
        assert(entries.push(tok) =~= seq![tok]);
        lemma_marker_in_prefix(l, nl, lbr);
        assert(has_char(nl, ']'));
        lemma_single_update_locate(lines, s, nl);
    } else if contains_seq(l, " ]"@) {
        let o = choose|i: int|
            0 <= i && i + " ]"@.len() <= l.len() && #[trigger] l.subrange(
                i,
                i + " ]"@.len() as int,
            ) == " ]"@;
        assert(l.subrange(o, o + " ]"@.len() as int) == " ]"@);
        assert(l.subrange(o, o + " ]"@.len() as int)[0] == ' ');
        assert(l.subrange(o, o + " ]"@.len() as int)[1] == ']');
        assert(l[o] == ' ');
        assert(l[o + 1] == ']');
        assert(o + 1 == rbr);
        assert(l[rbr - 1] == ' ');
        assert(rbr - 1 != lbr);
        assert forall|j: int|
            0 <= j < rbr implies #[trigger] l.subrange(j, j + "]"@.len() as int) != "]"@ by {
            if l.subrange(j, j + "]"@.len() as int) == "]"@ {
                assert(l.subrange(j, j + "]"@.len() as int)[0] == ']');
                assert(l[j] == ']');
            }
        }
        assert(l.subrange(rbr, rbr + "]"@.len() as int) =~= "]"@);
        lemma_find_sub_from_is(l, "]"@, 0, rbr);
        let rep = tok + " ]"@;
        assert(nl =~= l.subrange(0, rbr) + rep + l.subrange(rbr + 1, l.len() as int));
        assert(nl[lbr] == '[');
        assert forall|j: int| 0 <= j < lbr implies nl[j] != '[' by {
            assert(nl[j] == l[j]);
        }
        lemma_find_char_from_is(nl, '[', 0, lbr);
        let r2 = rbr + tok.len() + 1;
        assert(nl[r2] == ']');
        assert forall|j: int| r2 < j < nl.len() implies nl[j] != ']' by {
            assert(nl[j] == l[j - tok.len() - 1]);
            assert(j - tok.len() - 1 > rbr);
        }
        lemma_rfind_char_before_is(nl, ']', nl.len() as int, r2);
        let inner = nl.subrange(lbr + 1, r2);
        let w = l.subrange(lbr + 1, rbr - 1);
        assert(inner =~= w + seq![' '] + (tok + seq![' ']));
        lemma_tokens_sep(w, tok + seq![' ']);
        assert(tok + seq![' '] =~= tok + seq![' '] + Seq::<char>::empty());
        lemma_tokens_sep(tok, Seq::<char>::empty());
        lemma_tokens_single(tok);
        assert(tokens(Seq::<char>::empty()).len() == 0);
        assert(tokens(tok + seq![' ']) =~= seq![tok]);
        assert(tokens(inner) =~= tokens(w).push(tok));
        assert(single_line_entries(nl) == tokens(w).push(tok));
        assert(inside =~= w + seq![' '] + Seq::<char>::empty());
        lemma_tokens_sep(w, Seq::<char>::empty());
        assert(entries =~= tokens(w));
        lemma_marker_in_prefix(l, nl, lbr);
        assert(has_char(nl, ']'));
        lemma_single_update_locate(lines, s, nl);
    } else {
        assert forall|j: int|
            0 <= j < rbr implies #[trigger] l.subrange(j, j + "]"@.len() as int) != "]"@ by {
            if l.subrange(j, j + "]"@.len() as int) == "]"@ {
                assert(l.subrange(j, j + "]"@.len() as int)[0] == ']');
                assert(l[j] == ']');
            }
        }
        assert(l.subrange(rbr, rbr + "]"@.len() as int) =~= "]"@);
        lemma_find_sub_from_is(l, "]"@, 0, rbr);
        let rep = " "@ + tok + " ]"@;
        assert(nl =~= l.subrange(0, rbr) + rep + l.subrange(rbr + 1, l.len() as int));
        assert(nl[lbr] == '[');
        assert forall|j: int| 0 <= j < lbr implies nl[j] != '[' by {
            assert(nl[j] == l[j]);
        }
        lemma_find_char_from_is(nl, '[', 0, lbr);
        let r2 = rbr + tok.len() + 2;
        assert(nl[r2] == ']');
        assert forall|j: int| r2 < j < nl.len() implies nl[j] != ']' by {
            assert(nl[j] == l[j - tok.len() - 2]);
            assert(j - tok.len() - 2 > rbr);
        }
        lemma_rfind_char_before_is(nl, ']', nl.len() as int, r2);
        let inner = nl.subrange(lbr + 1, r2);
        assert(inner =~= inside + seq![' '] + (tok + seq![' ']));
        lemma_tokens_sep(inside, tok + seq![' ']);
        assert(tok + seq![' '] =~= tok + seq![' '] + Seq::<char>::empty());
        lemma_tokens_sep(tok, Seq::<char>::empty());
        lemma_tokens_single(tok);
        assert(tokens(Seq::<char>::empty()).len() == 0);
        assert(tokens(tok + seq![' ']) =~= seq![tok]);
        assert(tokens(inner) =~= entries.push(tok));
        assert(single_line_entries(nl) == entries.push(tok));
        lemma_marker_in_prefix(l, nl, lbr);
        assert(has_char(nl, ']'));
        lemma_single_update_locate(lines, s, nl);
    }
}

/// A document whose first marker line is the single-line block
/// `with pkgs; [ a b ]` lists exactly the entries `a` and `b`, in order.
pub proof fn lemma_list_single_line_block(lines: Seq<Seq<char>>, k: int)
    requires
        0 <= k < lines.len(),
        lines[k] == "with pkgs; [ a b ]"@,
        forall|j: int| 0 <= j < k ==> !contains_seq(#[trigger] lines[j], marker()),
    ensures
        locate_spec(lines) == Some((k, k)),
        entries_spec(lines, k, k) == seq!["a"@, "b"@],
{
    reveal_strlit("with pkgs; [ a b ]");
    reveal_strlit("with pkgs; [");
    reveal_strlit("a");
    reveal_strlit("b");
    let l = "with pkgs; [ a b ]"@;
    assert(l.len() == 18);
    assert(marker().len() == 12);
    assert(l.subrange(0, 0 + marker().len() as int) =~= marker());
    lemma_contains_seq_at(l, marker(), 0);
    lemma_first_marker_line_is(lines, 0, k);
    assert(l[17] == ']');
    assert(has_char(l, ']'));
    assert(first_close_line(lines, k) == k);
    assert(locate_spec(lines) == Some((k, k)));

    assert(l[11] == '[');
    assert(forall|j: int| 0 <= j < 11 ==> l[j] != '[');
    lemma_find_char_from_is(l, '[', 0, 11);
    lemma_rfind_char_before_is(l, ']', 18, 17);
    let inside = l.subrange(12, 17);
    assert(inside =~= seq![' '] + (seq!['a'] + seq![' '] + seq!['b', ' ']));
    lemma_tokens_space_prefix(seq![' '], seq!['a'] + seq![' '] + seq!['b', ' ']);
    lemma_tokens_sep(seq!['a'], seq!['b', ' ']);
    lemma_tokens_single(seq!['a']);
    assert(seq!['b', ' '] =~= seq!['b'] + seq![' '] + Seq::<char>::empty());
    lemma_tokens_sep(seq!['b'], Seq::<char>::empty());
    lemma_tokens_single(seq!['b']);
    assert(tokens(Seq::<char>::empty()).len() == 0);
    assert(tokens(inside) =~= seq![seq!['a'], seq!['b']]);
    assert(seq!['a'] =~= "a"@);
    assert(seq!['b'] =~= "b"@);
    assert(entries_spec(lines, k, k) =~= seq!["a"@, "b"@]);
}

/// A document whose first marker line opens a multi-line block with interior
/// lines `  a`, a blank line, a comment line and `  b` lists exactly the
/// entries `a` and `b`: blank and comment lines are excluded.
pub proof fn lemma_list_multi_line_block(lines: Seq<Seq<char>>, k: int)
    requires
        0 <= k,
        k + 5 < lines.len(),
        lines[k] == "  with pkgs; ["@,
        lines[k + 1] == "  a"@,
        lines[k + 2] == ""@,
        lines[k + 3] == "  # c"@,
        lines[k + 4] == "  b"@,
        lines[k + 5] == "  ];"@,
        forall|j: int| 0 <= j < k ==> !contains_seq(#[trigger] lines[j], marker()),
    ensures
        locate_spec(lines) == Some((k, k + 5)),
        entries_spec(lines, k, k + 5) == seq!["a"@, "b"@],
{
    reveal_strlit("  with pkgs; [");
    reveal_strlit("with pkgs; [");
    reveal_strlit("  a");
    reveal_strlit("");
    reveal_strlit("  # c");
    reveal_strlit("  b");
    reveal_strlit("  ];");
    reveal_strlit("a");
    reveal_strlit("b");
    let l0 = "  with pkgs; ["@;
    let la = "  a"@;
    let lb = "  b"@;
    let lc = "  # c"@;
    let le = "  ];"@;
    assert(l0.len() == 14);
    assert(marker().len() == 12);
    assert(l0.subrange(2, 2 + marker().len() as int) =~= marker());
    lemma_contains_seq_at(l0, marker(), 2);
    lemma_first_marker_line_is(lines, 0, k);

    assert(!has_char(l0, ']')) by {
        assert(forall|j: int| 0 <= j < 14 ==> l0[j] != ']');
    }
    assert(!has_char(la, ']')) by {
        assert(forall|j: int| 0 <= j < 3 ==> la[j] != ']');
    }
    assert(!has_char(""@, ']'));
    assert(!has_char(lc, ']')) by {
        assert(forall|j: int| 0 <= j < 5 ==> lc[j] != ']');
    }
    assert(!has_char(lb, ']')) by {
        assert(forall|j: int| 0 <= j < 3 ==> lb[j] != ']');
    }
    assert(le[2] == ']');
    assert(has_char(le, ']'));
    assert forall|j: int| k <= j < k + 5 implies !has_char(#[trigger] lines[j], ']') by {
        if j == k {
        } else if j == k + 1 {
        } else if j == k + 2 {
        } else if j == k + 3 {
        } else {
            assert(j == k + 4);
        }
    }
    lemma_first_close_line_is(lines, k, k + 5);
    assert(locate_spec(lines) == Some((k, k + 5)));

    assert(la =~= seq![' ', ' '] + seq!['a']);
    assert(forall|j: int| 0 <= j < 2 ==> is_space((seq![' ', ' '])[j]));
    lemma_tokens_space_prefix(seq![' ', ' '], seq!['a']);
    lemma_tokens_single(seq!['a']);
    assert(tokens(la) == seq![seq!['a']]);
    assert(line_entry(la) == Some("a"@)) by {
        assert(seq!['a'] =~= "a"@);
    }

    assert(tokens(""@).len() == 0);
    assert(line_entry(""@) is None);

    assert(lc =~= seq![' ', ' '] + (seq!['#'] + seq![' '] + seq!['c']));
    lemma_tokens_space_prefix(seq![' ', ' '], seq!['#'] + seq![' '] + seq!['c']);
    lemma_tokens_sep(seq!['#'], seq!['c']);
    lemma_tokens_single(seq!['#']);
    lemma_tokens_single(seq!['c']);
    assert(tokens(lc) =~= seq![seq!['#'], seq!['c']]);
    assert(comment_token(seq!['#']));
    assert(line_entry(lc) is None);

    assert(lb =~= seq![' ', ' '] + seq!['b']);
    lemma_tokens_space_prefix(seq![' ', ' '], seq!['b']);
    lemma_tokens_single(seq!['b']);
    assert(tokens(lb) == seq![seq!['b']]);
    assert(line_entry(lb) == Some("b"@)) by {
        assert(seq!['b'] =~= "b"@);
    }

    assert(multi_entries(lines, k + 5, k + 5) =~= Seq::<Seq<char>>::empty());
    assert(multi_entries(lines, k + 4, k + 5) =~= seq!["b"@]);
    assert(multi_entries(lines, k + 3, k + 5) == multi_entries(lines, k + 4, k + 5));
    assert(multi_entries(lines, k + 2, k + 5) == multi_entries(lines, k + 3, k + 5));
    assert(multi_entries(lines, k + 1, k + 5) =~= seq!["a"@, "b"@]);
    assert(entries_spec(lines, k, k + 5) == seq!["a"@, "b"@]);
}

} // verus!
