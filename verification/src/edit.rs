//! Inserting an entry into the block and removing one from it.
//!
//! Both operations are pure: they take the document's lines and give back the
//! edited lines, or the error that the operation raises. Writing the result
//! back to a file, and the backup that precedes it, are the caller's side.

use vstd::prelude::*;
use vstd::pervasive::VecAdditionalExecFns;

use crate::EditError;
use crate::block::locate_block;
use crate::block::locate_spec;
use crate::text::contains_seq;
use crate::text::contains_sub;
use crate::text::find_char_at;
use crate::text::find_char_from;
use crate::text::join_with;
use crate::text::join_with_str;
use crate::text::lemma_find_char_from;
use crate::text::lemma_remove_all_push;
use crate::text::lemma_rfind_char_before;
use crate::text::remove_all;
use crate::text::replace_first;
use crate::text::replace_first_spec;
use crate::text::rfind_char;
use crate::text::rfind_char_in;
use crate::text::str_views;
use crate::text::tokenize;
use crate::text::tokens;
use crate::text::ws_end_from;
use crate::text::ws_prefix_len;

verus! {

/// Whether some line of `[s, e)` contains `tok` as a substring. This is the
/// conservative duplicate test insertion applies.
pub open spec fn dup_in_range(lines: Seq<Seq<char>>, s: int, e: int, tok: Seq<char>) -> bool {
    exists|i: int| s <= i < e && contains_seq(#[trigger] lines[i], tok)
}

/// The rewritten line of a single-line block after inserting `tok`: an empty
/// pair of brackets gains `[ tok ]`; a list already spaced before its `]`
/// gains `tok ]` there; otherwise a separating space is added.
pub open spec fn single_insert_line(l: Seq<char>, tok: Seq<char>) -> Seq<char> {
    if contains_seq(l, "[]"@) {
        replace_first_spec(l, "[]"@, "[ "@ + tok + " ]"@)
    } else if contains_seq(l, " ]"@) {
        replace_first_spec(l, "]"@, tok + " ]"@)
    } else {
        replace_first_spec(l, "]"@, " "@ + tok + " ]"@)
    }
}

/// The leading whitespace of a line.
pub open spec fn indent_of(l: Seq<char>) -> Seq<char> {
    l.take(ws_end_from(l, 0))
}

/// The line inserted before the closing line of a multi-line block: the
/// closing line's indentation doubled, then the token.
pub open spec fn inserted_line(close: Seq<char>, tok: Seq<char>) -> Seq<char> {
    indent_of(close) + indent_of(close) + tok
}

/// What inserting `tok` does to a document.
pub open spec fn insert_spec(lines: Seq<Seq<char>>, tok: Seq<char>) -> Result<
    Seq<Seq<char>>,
    EditError,
> {
    match locate_spec(lines) {
        None => Err(EditError::BlockNotFound),
        Some(se) => {
            let s = se.0;
            let e = se.1;
            if dup_in_range(lines, s, e, tok) {
                Err(EditError::EntryAlreadyPresent)
            } else if s == e {
                Ok(lines.update(s, single_insert_line(lines[s], tok)))
            } else {
                Ok(lines.insert(e, inserted_line(lines[e], tok)))
            }
        },
    }
}

/// The first line of `[i, e)` whose first token is `tok`, or `-1`.
pub open spec fn first_match_line(lines: Seq<Seq<char>>, i: int, e: int, tok: Seq<char>) -> int
    decreases e - i,
{
    if i >= e {
        -1
    } else if tokens(lines[i]).len() >= 1 && tokens(lines[i])[0] == tok {
        i
    } else {
        first_match_line(lines, i + 1, e, tok)
    }
}

/// What `first_match_line` returns, in the shape of the other scans.
pub proof fn lemma_first_match_line(lines: Seq<Seq<char>>, i: int, e: int, tok: Seq<char>)
    requires
        0 <= i,
    ensures
        first_match_line(lines, i, e, tok) == -1 <==> (forall|j: int|
            i <= j < e ==> !(tokens(#[trigger] lines[j]).len() >= 1 && tokens(lines[j])[0]
                == tok)),
        first_match_line(lines, i, e, tok) != -1 ==> i <= first_match_line(lines, i, e, tok) < e
            && tokens(lines[first_match_line(lines, i, e, tok)]).len() >= 1 && tokens(
            lines[first_match_line(lines, i, e, tok)],
        )[0] == tok && (forall|j: int|
            i <= j < first_match_line(lines, i, e, tok) ==> !(tokens(
                #[trigger] lines[j],
            ).len() >= 1 && tokens(lines[j])[0] == tok)),
    decreases e - i,
{
    if i < e && !(tokens(lines[i]).len() >= 1 && tokens(lines[i])[0] == tok) {
        lemma_first_match_line(lines, i + 1, e, tok);
        let r = first_match_line(lines, i, e, tok);
        if r == -1 {
            assert forall|j: int| i <= j < e implies !(tokens(#[trigger] lines[j]).len() >= 1
                && tokens(lines[j])[0] == tok) by {
                if j > i {
                    assert(!(tokens(lines[j]).len() >= 1 && tokens(lines[j])[0] == tok));
                }
            }
        }
    }
}

/// The rewritten line of a single-line block after removing `tok`: the prefix
/// up to the first `[`, then the remaining tokens spaced inside brackets.
pub open spec fn single_remove_line(l: Seq<char>, tok: Seq<char>) -> Result<Seq<char>, EditError> {
    let lbr = find_char_from(l, '[', 0);
    let rbr = rfind_char(l, ']');
    if lbr == -1 || rbr == -1 || rbr <= lbr {
        Err(EditError::MalformedBlock)
    } else {
        let parts = tokens(l.subrange(lbr + 1, rbr));
        if !parts.contains(tok) {
            Err(EditError::EntryNotFound)
        } else {
            Ok(l.subrange(0, lbr) + "[ "@ + join_with(remove_all(parts, tok), " "@) + " ]"@)
        }
    }
}

/// What removing `tok` does to a document.
pub open spec fn remove_spec(lines: Seq<Seq<char>>, tok: Seq<char>) -> Result<
    Seq<Seq<char>>,
    EditError,
> {
    match locate_spec(lines) {
        None => Err(EditError::BlockNotFound),
        Some(se) => {
            let s = se.0;
            let e = se.1;
            if s == e {
                match single_remove_line(lines[s], tok) {
                    Err(er) => Err(er),
                    Ok(nl) => Ok(lines.update(s, nl)),
                }
            } else {
                let idx = first_match_line(lines, s + 1, e, tok);
                if idx == -1 {
                    Err(EditError::EntryNotFound)
                } else {
                    Ok(lines.remove(idx))
                }
            }
        },
    }
}

/// A piece of text as reading turns it into a line: a trailing carriage
/// return is stripped.
pub open spec fn strip_cr(l: Seq<char>) -> Seq<char> {
    if l.len() > 0 && l.last() == '\r' {
        l.drop_last()
    } else {
        l
    }
}

/// The lines of a text, as reading a file splits it: the pieces between
/// newlines, each with a trailing carriage return stripped; a final newline
/// closes the last line instead of opening an empty one.
pub open spec fn split_lines_spec(s: Seq<char>) -> Seq<Seq<char>>
    decreases s.len(),
    via split_lines_spec_dec
{
    if s.len() == 0 {
        seq![]
    } else {
        let i = find_char_from(s, '\n', 0);
        if i == -1 {
            seq![strip_cr(s)]
        } else {
            seq![strip_cr(s.take(i))] + split_lines_spec(s.skip(i + 1))
        }
    }
}

#[via_fn]
proof fn split_lines_spec_dec(s: Seq<char>) {
    if s.len() > 0 {
        crate::text::lemma_find_char_from(s, '\n', 0);
    }
}

/// Split a text into the document's lines, as reading a file does.
pub fn split_lines(s: &str) -> (r: Vec<String>)
    ensures
        str_views(r@) == split_lines_spec(s@),
{
    let n = s.unicode_len();
    let mut out: Vec<String> = Vec::new();
    let mut pos: usize = 0;
    proof {
        assert(s@.skip(0) =~= s@);
        assert(str_views(out@) + split_lines_spec(s@) =~= split_lines_spec(s@));
    }
    while pos < n
        invariant
            pos <= n,
            n == s@.len(),
            split_lines_spec(s@) == str_views(out@) + split_lines_spec(s@.skip(pos as int)),
        decreases n - pos,
    {
        let ghost suffix = s@.skip(pos as int);
        proof {
            crate::text::lemma_find_char_from_skip(s@, '\n', pos as int, 0);
        }
        match crate::text::find_char_at(s, '\n', pos) {
            None => {
                let hi: usize = if s.get_char(n - 1) == '\r' {
                    n - 1
                } else {
                    n
                };
                let piece = s.substring_char(pos, hi).to_owned();
                let ghost prev = out@;
                out.push(piece);
                proof {
                    assert(suffix.last() == s@[n as int - 1]);
                    if s@[n as int - 1] == '\r' {
                        assert(strip_cr(suffix) =~= s@.subrange(pos as int, hi as int));
                    } else {
                        assert(strip_cr(suffix) =~= s@.subrange(pos as int, hi as int));
                    }
                    assert(split_lines_spec(suffix) == seq![strip_cr(suffix)]);
                    assert(s@.skip(n as int) =~= Seq::<char>::empty());
                    assert(split_lines_spec(s@.skip(n as int)) =~= Seq::<Seq<char>>::empty());
                    assert(str_views(out@) =~= str_views(prev).push(strip_cr(suffix)));
                    assert(str_views(prev).push(strip_cr(suffix)) + split_lines_spec(
                        s@.skip(n as int),
                    ) =~= str_views(prev) + split_lines_spec(suffix));
                }
                pos = n;
            },
            Some(k) => {
                proof {
                    crate::text::lemma_find_char_from(s@, '\n', pos as int);
                }
                let hi: usize = if k > pos && s.get_char(k - 1) == '\r' {
                    k - 1
                } else {
                    k
                };
                let piece = s.substring_char(pos, hi).to_owned();
                let ghost prev = out@;
                out.push(piece);
                proof {
                    let m = k as int - pos as int;
                    assert(suffix.take(m) =~= s@.subrange(pos as int, k as int));
                    if m > 0 && s@[k as int - 1] == '\r' {
                        assert(suffix.take(m).last() == s@[k as int - 1]);
                        assert(strip_cr(suffix.take(m)) =~= s@.subrange(pos as int, hi as int));
                    } else {
                        assert(strip_cr(suffix.take(m)) =~= s@.subrange(pos as int, hi as int));
                    }
                    assert(suffix.skip(m + 1) =~= s@.skip(k as int + 1));
                    assert(split_lines_spec(suffix) == seq![strip_cr(suffix.take(m))]
                        + split_lines_spec(suffix.skip(m + 1)));
                    assert(str_views(out@) =~= str_views(prev).push(strip_cr(suffix.take(m))));
                    assert(str_views(prev).push(strip_cr(suffix.take(m))) + split_lines_spec(
                        s@.skip(k as int + 1),
                    ) =~= str_views(prev) + split_lines_spec(suffix));
                }
                pos = k + 1;
            },
        }
    }
    proof {
        assert(s@.skip(pos as int) =~= Seq::<char>::empty());
        assert(split_lines_spec(Seq::<char>::empty()) =~= Seq::<Seq<char>>::empty());
        assert(str_views(out@) + split_lines_spec(s@.skip(pos as int)) =~= str_views(out@));
    }
    out
}

/// The document rejoined to one text, a newline between neighbouring lines
/// and none at the end: the form in which an edited document is written
/// back.
pub fn join_lines(lines: &Vec<String>) -> (r: String)
    ensures
        r@ == join_with(str_views(lines@), "\n"@),
{
    join_with_str(lines, "\n")
}

/// An owned copy of the document's lines.
fn copy_lines(lines: &Vec<String>) -> (r: Vec<String>)
    ensures
        r@ == lines@,
{
    let mut out: Vec<String> = Vec::new();
    let mut j: usize = 0;
    while j < lines.len()
        invariant
            j <= lines@.len(),
            out@ == lines@.take(j as int),
        decreases lines@.len() - j,
    {
        out.push(lines[j].clone());
        proof {
            assert(out@ =~= lines@.take(j as int + 1));
        }
        j += 1;
    }
    proof {
        assert(lines@.take(lines@.len() as int) =~= lines@);
    }
    out
}

/// The document with line `i` replaced by `v`.
fn set_line(lines: &Vec<String>, i: usize, v: String) -> (r: Vec<String>)
    requires
        i < lines@.len(),
    ensures
        r@ == lines@.update(i as int, v),
{
    let mut out = copy_lines(lines);
    out.set(i, v);
    out
}

/// The document with `v` inserted before line `i`.
fn insert_line_at(lines: &Vec<String>, i: usize, v: String) -> (r: Vec<String>)
    requires
        i <= lines@.len(),
    ensures
        r@ == lines@.insert(i as int, v),
{
    let mut out = copy_lines(lines);
    out.insert(i, v);
    out
}

/// The document with line `i` removed.
fn remove_line_at(lines: &Vec<String>, i: usize) -> (r: Vec<String>)
    requires
        i < lines@.len(),
    ensures
        r@ == lines@.remove(i as int),
{
    let mut out = copy_lines(lines);
    out.remove(i);
    out
}

/// Insert the entry `token` into the block of a document.
///
/// The operation fails with `BlockNotFound` when there is no block, and with
/// `EntryAlreadyPresent` when a line of `[start, end)` contains the token as
/// a substring. A single-line block is rewritten in place; a multi-line block
/// gains a new line before its closing line, indented with the closing
/// line's indentation doubled.
pub fn insert_entry(lines: &Vec<String>, token: &str) -> (r: Result<Vec<String>, EditError>)
    ensures
        match r {
            Ok(nl) => insert_spec(str_views(lines@), token@) == Ok::<Seq<Seq<char>>, EditError>(
                str_views(nl@),
            ),
            Err(er) => insert_spec(str_views(lines@), token@) == Err::<Seq<Seq<char>>, EditError>(
                er,
            ),
        },
{
    let ghost lv = str_views(lines@);
    let (s, e) = match locate_block(lines) {
        Err(er) => {
            return Err(er);
        },
        Ok(p) => p,
    };
    let mut i: usize = s;
    while i < e
        invariant
            s <= i <= e,
            e < lines@.len(),
            lv == str_views(lines@),
            locate_spec(lv) == Some((s as int, e as int)),
            forall|j: int| s <= j < i ==> !contains_seq(#[trigger] lv[j], token@),
        decreases e - i,
    {
        proof {
            assert(lv[i as int] == lines@[i as int]@);
        }
        if contains_sub(lines[i].as_str(), token) {
            proof {
                assert(dup_in_range(lv, s as int, e as int, token@));
            }
            return Err(EditError::EntryAlreadyPresent);
        }
        i += 1;
    }
    proof {
        assert(!dup_in_range(lv, s as int, e as int, token@));
    }
    if s == e {
        let line = lines[s].as_str();
        proof {
            assert(lv[s as int] == lines@[s as int]@);
        }
        let nl: String;
        if contains_sub(line, "[]") {
            let rep = String::from_str("[ ").concat(token).concat(" ]");
            proof {
                assert(rep@ =~= "[ "@ + token@ + " ]"@);
            }
            nl = replace_first(line, "[]", rep.as_str());
        } else if contains_sub(line, " ]") {
            let rep = String::from_str(token).concat(" ]");
            proof {
                assert(rep@ =~= token@ + " ]"@);
            }
            nl = replace_first(line, "]", rep.as_str());
        } else {
            let rep = String::from_str(" ").concat(token).concat(" ]");
            proof {
                assert(rep@ =~= " "@ + token@ + " ]"@);
            }
            nl = replace_first(line, "]", rep.as_str());
        }
        proof {
            assert(nl@ == single_insert_line(lv[s as int], token@));
        }
        let out = set_line(lines, s, nl);
        proof {
            assert(str_views(out@) =~= lv.update(s as int, single_insert_line(lv[s as int],
            token@)));
        }
        Ok(out)
    } else {
        let close = lines[e].as_str();
        proof {
            assert(lv[e as int] == lines@[e as int]@);
        }
        let k = ws_prefix_len(close);
        let ind = close.substring_char(0, k);
        let nl = ind.to_owned().concat(ind).concat(token);
        proof {
            assert(ind@ =~= indent_of(lv[e as int]));
            assert(nl@ == inserted_line(lv[e as int], token@));
        }
        let out = insert_line_at(lines, e, nl);
        proof {
            assert(str_views(out@) =~= lv.insert(e as int, inserted_line(lv[e as int], token@)));
        }
        Ok(out)
    }
}

/// Remove the entry `token` from the block of a document.
///
/// The operation fails with `BlockNotFound` when there is no block, with
/// `MalformedBlock` when a single-line block has no bracket pair in order,
/// and with `EntryNotFound` when no entry equals the token exactly. In a
/// single-line block every token equal to `token` is dropped; in a
/// multi-line block the first line whose first token equals `token` is
/// deleted outright.
pub fn remove_entry(lines: &Vec<String>, token: &str) -> (r: Result<Vec<String>, EditError>)
    ensures
        match r {
            Ok(nl) => remove_spec(str_views(lines@), token@) == Ok::<Seq<Seq<char>>, EditError>(
                str_views(nl@),
            ),
            Err(er) => remove_spec(str_views(lines@), token@) == Err::<Seq<Seq<char>>, EditError>(
                er,
            ),
        },
{
    let ghost lv = str_views(lines@);
    let (s, e) = match locate_block(lines) {
        Err(er) => {
            return Err(er);
        },
        Ok(p) => p,
    };
    if s == e {
        let line = lines[s].as_str();
        proof {
            assert(lv[s as int] == lines@[s as int]@);
        }
        let lbr = match find_char_at(line, '[', 0) {
            None => {
                return Err(EditError::MalformedBlock);
            },
            Some(k) => k,
        };
        let rbr = match rfind_char_in(line, ']') {
            None => {
                return Err(EditError::MalformedBlock);
            },
            Some(k) => k,
        };
        if rbr <= lbr {
            return Err(EditError::MalformedBlock);
        }
        proof {
            lemma_find_char_from(line@, '[', 0);
            lemma_rfind_char_before(line@, ']', line@.len() as int);
        }
        let inside = line.substring_char(lbr + 1, rbr);
        proof {
            assert(inside@ =~= line@.subrange(lbr as int + 1, rbr as int));
        }
        let parts = tokenize(inside);
        let ghost pv = tokens(line@.subrange(lbr as int + 1, rbr as int));
        let tok_s = token.to_owned();
        let mut found = false;
        let mut k: usize = 0;
        while k < parts.len()
            invariant
                k <= parts@.len(),
                str_views(parts@) == pv,
                tok_s@ == token@,
                found <==> exists|q: int| 0 <= q < k && pv[q] == token@,
            decreases parts@.len() - k,
        {
            proof {
                assert(pv[k as int] == parts@[k as int]@);
            }
            if parts[k] == tok_s {
                found = true;
            }
            k += 1;
        }
        if !found {
            proof {
                assert(!pv.contains(token@));
            }
            return Err(EditError::EntryNotFound);
        }
        proof {
            assert(pv.contains(token@));
        }
        let mut kept: Vec<String> = Vec::new();
        let mut k2: usize = 0;
        while k2 < parts.len()
            invariant
                k2 <= parts@.len(),
                str_views(parts@) == pv,
                tok_s@ == token@,
                str_views(kept@) == remove_all(pv.take(k2 as int), token@),
            decreases parts@.len() - k2,
        {
            let ghost prev = str_views(kept@);
            proof {
                assert(pv[k2 as int] == parts@[k2 as int]@);
                lemma_remove_all_push(pv.take(k2 as int), pv[k2 as int], token@);
                assert(pv.take(k2 as int).push(pv[k2 as int]) =~= pv.take(k2 as int + 1));
            }
            if !(parts[k2] == tok_s) {
                let p = parts[k2].clone();
                kept.push(p);
                proof {
                    assert(str_views(kept@) =~= prev.push(pv[k2 as int]));
                }
            }
            k2 += 1;
        }
        proof {
            assert(pv.take(pv.len() as int) =~= pv);
        }
        let joined = join_with_str(&kept, " ");
        let nl = line.substring_char(0, lbr).to_owned().concat("[ ").concat(
            joined.as_str(),
        ).concat(" ]");
        proof {
            assert(nl@ =~= line@.subrange(0, lbr as int) + "[ "@ + join_with(
                remove_all(pv, token@),
                " "@,
            ) + " ]"@);
        }
        let out = set_line(lines, s, nl);
        proof {
            assert(single_remove_line(lv[s as int], token@) == Ok::<Seq<char>, EditError>(nl@));
            assert(str_views(out@) =~= lv.update(s as int, nl@));
        }
        Ok(out)
    } else {
        let tok_s = token.to_owned();
        let mut i: usize = s + 1;
        while i < e
            invariant
                s as int + 1 <= i as int <= e,
                e < lines@.len(),
                lv == str_views(lines@),
                locate_spec(lv) == Some((s as int, e as int)),
                tok_s@ == token@,
                first_match_line(lv, s as int + 1, e as int, token@) == first_match_line(
                    lv,
                    i as int,
                    e as int,
                    token@,
                ),
            decreases e - i,
        {
            proof {
                assert(lv[i as int] == lines@[i as int]@);
            }
            let ft = crate::text::first_token(lines[i].as_str());
            match ft {
                Some(t) => {
                    if t == tok_s {
                        proof {
                            assert(first_match_line(lv, i as int, e as int, token@) == i as int);
                        }
                        let out = remove_line_at(lines, i);
                        proof {
                            assert(str_views(out@) =~= lv.remove(i as int));
                        }
                        return Ok(out);
                    }
                },
                None => {},
            }
            i += 1;
        }
        proof {
            assert(first_match_line(lv, e as int, e as int, token@) == -1);
        }
        Err(EditError::EntryNotFound)
    }
}

} // verus!
