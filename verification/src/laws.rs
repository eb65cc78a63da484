//! Laws of the document tree, proved once over the model.
//!
//! The central one ties the cached size formulas to the pretty-printed
//! text itself: for a document whose texts are plain, the byte and line
//! counts the tree maintains are exactly the length and the line count of
//! [`render`]'s output, at every depth.
use vstd::prelude::*;
use vstd::utf8::{encode_scalar, encode_utf8, is_ascii_chars, is_ascii_chars_encode_utf8};

use crate::model::{
    apply_mut, arr_bytes_sum, arr_lines_sum, bytes_of, has_key, has_key_except, key_index,
    keys_unique, lines_of, model_wf, obj_bytes_sum, obj_lines_sum, parse_index, render,
    render_arr_items, render_obj_items, resolve, sp_indent, text_bytes, JsonV, MutationV,
    Resolved, INDENT,
};
use crate::node::{lemma_key_index_props, meta_of, spec_rename};
use crate::util::{dec_str, lemma_parse_index_dec_str};
use crate::worktree::{
    children_from_index, lemma_wt_rows_len, lemma_wt_rows_sum_len, lemma_wt_sel_in_len_pos,
    row_prefix, sp_close, sp_close_in, sp_reindex, sp_reindex_in, wt_len, wt_len_sum, wt_row,
    wt_row_in, wt_rows, wt_rows_sum, wt_sel_in, wt_selector, IndexKindV, IndexV, WtV,
};
use crate::preview::newline_count;

verus! {

/// A text the line formulas measure exactly: without a line break it
/// stays on one line.  A string holding a quote or a backslash still
/// satisfies this: the formulas and the printer treat it verbatim; only
/// a reader that insists on escaped JSON would disagree.
pub open spec fn text_single_line(s: Seq<char>) -> bool {
    forall|i: int| 0 <= i < s.len() ==> s[i] != '\n'
}

/// Every terminal text and every key in the document stays on one line.
pub open spec fn single_line_texts(v: JsonV) -> bool
    decreases v,
{
    match v {
        JsonV::Null => true,
        JsonV::Bool(_) => true,
        JsonV::Num(t) => text_single_line(t),
        JsonV::Str(s) => text_single_line(s),
        JsonV::Arr(cs) => forall|i: int|
            0 <= i < cs.len() ==> single_line_texts(#[trigger] cs[i]),
        JsonV::Obj(es) => forall|i: int|
            0 <= i < es.len() ==> text_single_line(#[trigger] es[i].0) && single_line_texts(
                es[i].1,
            ),
    }
}

/// Counting newlines distributes over concatenation.
pub proof fn lemma_newline_concat(a: Seq<char>, b: Seq<char>)
    ensures
        newline_count(a + b) == newline_count(a) + newline_count(b),
    decreases b,
{
    if b.len() == 0 {
        assert(a + b =~= a);
    } else {
        assert((a + b).drop_last() =~= a + b.drop_last());
        assert((a + b).last() == b.last());
        lemma_newline_concat(a, b.drop_last());
    }
}

/// A text without a line break has no newline to count.
pub proof fn lemma_newline_free(s: Seq<char>)
    requires
        forall|i: int| 0 <= i < s.len() ==> s[i] != '\n',
    ensures
        newline_count(s) == 0,
    decreases s,
{
    if s.len() > 0 {
        lemma_newline_free(s.drop_last());
    }
}

/// The UTF-8 byte length distributes over concatenation.
pub proof fn lemma_text_bytes_concat(a: Seq<char>, b: Seq<char>)
    ensures
        text_bytes(a + b) == text_bytes(a) + text_bytes(b),
    decreases a.len(),
{
    if a.len() == 0 {
        assert(a + b =~= b);
        assert(encode_utf8(a) =~= Seq::<u8>::empty());
    } else {
        assert((a + b)[0] == a[0]);
        assert((a + b).drop_first() =~= a.drop_first() + b);
        lemma_text_bytes_concat(a.drop_first(), b);
        assert(encode_utf8(a + b) == encode_scalar((a + b)[0] as u32) + encode_utf8(
            (a + b).drop_first(),
        ));
        assert(encode_utf8(a) == encode_scalar(a[0] as u32) + encode_utf8(a.drop_first()));
    }
}

/// An ASCII text takes one byte per character; the printer's punctuation
/// and indent are measured through this.
pub proof fn lemma_ascii_text_bytes(s: Seq<char>)
    requires
        is_ascii_chars(s),
    ensures
        text_bytes(s) == s.len(),
{
    is_ascii_chars_encode_utf8(s);
}

/// The size invariant: the cached byte count of a document is the UTF-8
/// byte length of its pretty-printed text, and the cached line count is
/// one more than the newlines in it.  At a nested depth every line but
/// the first picks up one indent width, which is what the indented-size
/// formula charges.  Texts may hold any characters as long as none is a
/// line break.
#[verifier::rlimit(100)]
pub proof fn lemma_sizes_are_render_sizes(v: JsonV, depth: nat)
    requires
        single_line_texts(v),
    ensures
        text_bytes(render(v, depth)) == bytes_of(v) + (INDENT * depth) * (lines_of(v) - 1),
        newline_count(render(v, depth)) == lines_of(v) - 1,
    decreases v, 0int,
{
    match v {
        JsonV::Null => {
            lemma_newline_free(render(v, depth));
            lemma_ascii_text_bytes(render(v, depth));
            assert(lines_of(v) == 1);
            lemma_zero_product(INDENT * depth, lines_of(v) - 1);
        },
        JsonV::Bool(_) => {
            lemma_newline_free(render(v, depth));
            lemma_ascii_text_bytes(render(v, depth));
            assert(lines_of(v) == 1);
            lemma_zero_product(INDENT * depth, lines_of(v) - 1);
        },
        JsonV::Num(t) => {
            lemma_newline_free(t);
            assert(lines_of(v) == 1);
            lemma_zero_product(INDENT * depth, lines_of(v) - 1);
        },
        JsonV::Str(s) => {
            let q = seq!['"'];
            assert(render(v, depth) =~= q + s + q);
            lemma_text_bytes_concat(q + s, q);
            lemma_text_bytes_concat(q, s);
            lemma_ascii_text_bytes(q);
            lemma_newline_concat(q + s, q);
            lemma_newline_concat(q, s);
            lemma_newline_free(q);
            lemma_newline_free(s);
            assert(lines_of(v) == 1);
            lemma_zero_product(INDENT * depth, lines_of(v) - 1);
        },
        JsonV::Arr(cs) => {
            if cs.len() == 0 {
                lemma_newline_free(render(v, depth));
                lemma_ascii_text_bytes(render(v, depth));
                assert(lines_of(v) == 1);
                lemma_zero_product(INDENT * depth, lines_of(v) - 1);
            } else {
                lemma_arr_items_sizes(cs, depth + 1);
                let head = seq!['[', '\n'];
                let items = render_arr_items(cs, depth + 1);
                let foot = sp_indent(depth);
                let close = seq![']'];
                assert(render(v, depth) =~= head + items + foot + close);
                lemma_newline_concat(head + items + foot, close);
                lemma_newline_concat(head + items, foot);
                lemma_newline_concat(head, items);
                lemma_text_bytes_concat(head + items + foot, close);
                lemma_text_bytes_concat(head + items, foot);
                lemma_text_bytes_concat(head, items);
                lemma_ascii_text_bytes(head);
                lemma_ascii_text_bytes(foot);
                lemma_ascii_text_bytes(close);
                assert(newline_count(head) == 1) by {
                    reveal_with_fuel(newline_count, 4);
                    assert(head.drop_last() =~= seq!['[']);
                    assert(seq!['['].drop_last() =~= Seq::<char>::empty());
                }
                lemma_newline_free(foot);
                lemma_newline_free(close);
                assert(lines_of(v) == 2 + arr_lines_sum(cs));
                let d = depth as int;
                let sl = arr_lines_sum(cs) as int;
                assert(INDENT * (depth + 1) - INDENT == INDENT * depth) by (nonlinear_arith);
                assert(2 * d * (sl + 1) == 2 * d * sl + 2 * d) by (nonlinear_arith);
                assert((INDENT * depth) * (lines_of(v) - 1) == 2 * d * sl + 2 * d);
                assert((INDENT * (depth + 1) - INDENT) * sl == (INDENT * depth) * sl);
                assert(text_bytes(items) == arr_bytes_sum(cs) + (INDENT * depth) * sl + 2
                    * cs.len() - 1);
                assert(foot.len() == 2 * d);
                assert(text_bytes(render(v, depth)) == 2 + text_bytes(items) + foot.len() + 1);
            }
        },
        JsonV::Obj(es) => {
            if es.len() == 0 {
                lemma_newline_free(render(v, depth));
                lemma_ascii_text_bytes(render(v, depth));
                assert(lines_of(v) == 1);
                lemma_zero_product(INDENT * depth, lines_of(v) - 1);
            } else {
                lemma_obj_items_sizes(es, depth + 1);
                let head = seq!['{', '\n'];
                let items = render_obj_items(es, depth + 1);
                let foot = sp_indent(depth);
                let close = seq!['}'];
                assert(render(v, depth) =~= head + items + foot + close);
                lemma_newline_concat(head + items + foot, close);
                lemma_newline_concat(head + items, foot);
                lemma_newline_concat(head, items);
                lemma_text_bytes_concat(head + items + foot, close);
                lemma_text_bytes_concat(head + items, foot);
                lemma_text_bytes_concat(head, items);
                lemma_ascii_text_bytes(head);
                lemma_ascii_text_bytes(foot);
                lemma_ascii_text_bytes(close);
                assert(newline_count(head) == 1) by {
                    reveal_with_fuel(newline_count, 4);
                    assert(head.drop_last() =~= seq!['{']);
                    assert(seq!['{'].drop_last() =~= Seq::<char>::empty());
                }
                lemma_newline_free(foot);
                lemma_newline_free(close);
                assert(lines_of(v) == 2 + obj_lines_sum(es));
                let d = depth as int;
                let sl = obj_lines_sum(es) as int;
                assert(INDENT * (depth + 1) - INDENT == INDENT * depth) by (nonlinear_arith);
                assert(2 * d * (sl + 1) == 2 * d * sl + 2 * d) by (nonlinear_arith);
                assert((INDENT * depth) * (lines_of(v) - 1) == 2 * d * sl + 2 * d);
                assert((INDENT * (depth + 1) - INDENT) * sl == (INDENT * depth) * sl);
                assert(text_bytes(items) == obj_bytes_sum(es) + (INDENT * depth) * sl + 2
                    * es.len() - 1);
                assert(foot.len() == 2 * d);
                assert(text_bytes(render(v, depth)) == 2 + text_bytes(items) + foot.len() + 1);
            }
        },
    }
}

#[verifier::rlimit(100)]
proof fn lemma_arr_items_sizes(cs: Seq<JsonV>, depth: nat)
    requires
        depth >= 1,
        forall|i: int| 0 <= i < cs.len() ==> single_line_texts(#[trigger] cs[i]),
    ensures
        text_bytes(render_arr_items(cs, depth)) == arr_bytes_sum(cs) + (INDENT * depth - INDENT)
            * arr_lines_sum(cs) + (if cs.len() == 0 {
            0int
        } else {
            2 * cs.len() - 1
        }),
        newline_count(render_arr_items(cs, depth)) == arr_lines_sum(cs),
    decreases cs, 1int,
{
    if cs.len() > 0 {
        lemma_sizes_are_render_sizes(cs[0], depth);
        lemma_arr_items_sizes(cs.drop_first(), depth);
        let ind = sp_indent(depth);
        let body = render(cs[0], depth);
        let sep: Seq<char> = if cs.len() > 1 {
            seq![',']
        } else {
            Seq::<char>::empty()
        };
        let nl = seq!['\n'];
        let rest = render_arr_items(cs.drop_first(), depth);
        assert(render_arr_items(cs, depth) =~= ind + body + sep + nl + rest);
        lemma_newline_concat(ind + body + sep + nl, rest);
        lemma_newline_concat(ind + body + sep, nl);
        lemma_newline_concat(ind + body, sep);
        lemma_newline_concat(ind, body);
        lemma_text_bytes_concat(ind + body + sep + nl, rest);
        lemma_text_bytes_concat(ind + body + sep, nl);
        lemma_text_bytes_concat(ind + body, sep);
        lemma_text_bytes_concat(ind, body);
        lemma_ascii_text_bytes(ind);
        lemma_ascii_text_bytes(sep);
        lemma_ascii_text_bytes(nl);
        lemma_newline_free(ind);
        lemma_newline_free(sep);
        assert(newline_count(nl) == 1) by {
            reveal_with_fuel(newline_count, 2);
            assert(nl.drop_last() =~= Seq::<char>::empty());
        }
        assert(arr_lines_sum(cs) == lines_of(cs[0]) + arr_lines_sum(cs.drop_first()));
        assert(arr_bytes_sum(cs) == bytes_of(cs[0]) + INDENT * lines_of(cs[0]) + arr_bytes_sum(
            cs.drop_first(),
        ));
        assert(lines_of(cs[0]) >= 1);
        let d = depth as int;
        let l0 = lines_of(cs[0]) as int;
        let slr = arr_lines_sum(cs.drop_first()) as int;
        assert(2 * d * (l0 - 1) == 2 * d * l0 - 2 * d) by (nonlinear_arith);
        assert((2 * d - 2) * (l0 + slr) == (2 * d - 2) * l0 + (2 * d - 2) * slr)
            by (nonlinear_arith);
        assert((INDENT * depth) * (lines_of(cs[0]) - 1) == 2 * d * l0 - 2 * d);
        assert((INDENT * depth - INDENT) * (arr_lines_sum(cs)) == (2 * d - 2) * l0 + (2 * d - 2)
            * slr);
        assert((2 * d - 2) * l0 == 2 * d * l0 - 2 * l0) by (nonlinear_arith);
        assert(ind.len() == 2 * d);
        assert(text_bytes(body) == bytes_of(cs[0]) + 2 * d * l0 - 2 * d);
        assert(text_bytes(render_arr_items(cs, depth)) == ind.len() + text_bytes(body)
            + sep.len() + 1 + text_bytes(rest));
        if cs.len() > 1 {
            assert(text_bytes(rest) == arr_bytes_sum(cs.drop_first()) + (2 * d - 2) * slr + 2 * (
            cs.len() - 1) - 1);
            assert(sep.len() == 1);
        } else {
            assert(cs.drop_first().len() == 0);
            assert(rest =~= Seq::<char>::empty());
            assert(text_bytes(rest) == 0);
            assert(slr == 0);
            assert(sep.len() == 0);
        }
    } else {
        assert(render_arr_items(cs, depth) =~= Seq::<char>::empty());
        assert(text_bytes(render_arr_items(cs, depth)) == 0);
        lemma_zero_product(INDENT * depth - INDENT, arr_lines_sum(cs) as int);
        assert(arr_lines_sum(cs) == 0);
    }
}

/// A product with a zero factor vanishes.
proof fn lemma_zero_product(a: int, b: int)
    ensures
        b == 0 ==> a * b == 0,
{
    if b == 0 {
        assert(a * b == 0) by (nonlinear_arith)
            requires
                b == 0,
        ;
    }
}

#[verifier::rlimit(100)]
proof fn lemma_obj_items_sizes(es: Seq<(Seq<char>, JsonV)>, depth: nat)
    requires
        depth >= 1,
        forall|i: int|
            0 <= i < es.len() ==> text_single_line(#[trigger] es[i].0) && single_line_texts(
                es[i].1,
            ),
    ensures
        text_bytes(render_obj_items(es, depth)) == obj_bytes_sum(es) + (INDENT * depth - INDENT)
            * obj_lines_sum(es) + (if es.len() == 0 {
            0int
        } else {
            2 * es.len() - 1
        }),
        newline_count(render_obj_items(es, depth)) == obj_lines_sum(es),
    decreases es, 1int,
{
    if es.len() > 0 {
        assert(text_single_line(es[0].0) && single_line_texts(es[0].1));
        lemma_sizes_are_render_sizes(es[0].1, depth);
        lemma_obj_items_sizes(es.drop_first(), depth);
        let ind = sp_indent(depth);
        let keyq = seq!['"'];
        let colon = seq!['"', ':', ' '];
        let keypart = keyq + es[0].0 + colon;
        let body = render(es[0].1, depth);
        let sep: Seq<char> = if es.len() > 1 {
            seq![',']
        } else {
            Seq::<char>::empty()
        };
        let nl = seq!['\n'];
        let rest = render_obj_items(es.drop_first(), depth);
        assert(render_obj_items(es, depth) =~= ind + keypart + body + sep + nl + rest);
        lemma_newline_concat(ind + keypart + body + sep + nl, rest);
        lemma_newline_concat(ind + keypart + body + sep, nl);
        lemma_newline_concat(ind + keypart + body, sep);
        lemma_newline_concat(ind + keypart, body);
        lemma_newline_concat(ind, keypart);
        lemma_text_bytes_concat(ind + keypart + body + sep + nl, rest);
        lemma_text_bytes_concat(ind + keypart + body + sep, nl);
        lemma_text_bytes_concat(ind + keypart + body, sep);
        lemma_text_bytes_concat(ind + keypart, body);
        lemma_text_bytes_concat(ind, keypart);
        lemma_text_bytes_concat(keyq + es[0].0, colon);
        lemma_text_bytes_concat(keyq, es[0].0);
        assert(keypart =~= (keyq + es[0].0) + colon);
        lemma_ascii_text_bytes(ind);
        lemma_ascii_text_bytes(keyq);
        lemma_ascii_text_bytes(colon);
        lemma_ascii_text_bytes(sep);
        lemma_ascii_text_bytes(nl);
        lemma_newline_free(ind);
        lemma_newline_free(sep);
        assert forall|i: int| 0 <= i < keypart.len() implies keypart[i] != '\n' by {
            if 1 <= i < 1 + es[0].0.len() {
                assert(keypart[i] == es[0].0[i - 1]);
            }
        }
        lemma_newline_free(keypart);
        assert(newline_count(nl) == 1) by {
            reveal_with_fuel(newline_count, 2);
            assert(nl.drop_last() =~= Seq::<char>::empty());
        }
        assert(text_bytes(keypart) == text_bytes(es[0].0) + 4);
        assert(obj_lines_sum(es) == lines_of(es[0].1) + obj_lines_sum(es.drop_first()));
        assert(obj_bytes_sum(es) == 4 + text_bytes(es[0].0) + bytes_of(es[0].1) + INDENT
            * lines_of(es[0].1) + obj_bytes_sum(es.drop_first()));
        assert(lines_of(es[0].1) >= 1);
        let d = depth as int;
        let l0 = lines_of(es[0].1) as int;
        let slr = obj_lines_sum(es.drop_first()) as int;
        assert(2 * d * (l0 - 1) == 2 * d * l0 - 2 * d) by (nonlinear_arith);
        assert((2 * d - 2) * (l0 + slr) == (2 * d - 2) * l0 + (2 * d - 2) * slr)
            by (nonlinear_arith);
        assert((INDENT * depth) * (lines_of(es[0].1) - 1) == 2 * d * l0 - 2 * d);
        assert((INDENT * depth - INDENT) * (obj_lines_sum(es)) == (2 * d - 2) * l0 + (2 * d - 2)
            * slr);
        assert((2 * d - 2) * l0 == 2 * d * l0 - 2 * l0) by (nonlinear_arith);
        assert(ind.len() == 2 * d);
        assert(text_bytes(body) == bytes_of(es[0].1) + 2 * d * l0 - 2 * d);
        assert(text_bytes(render_obj_items(es, depth)) == ind.len() + text_bytes(keypart)
            + text_bytes(body) + sep.len() + 1 + text_bytes(rest));
        if es.len() > 1 {
            assert(text_bytes(rest) == obj_bytes_sum(es.drop_first()) + (2 * d - 2) * slr + 2 * (
            es.len() - 1) - 1);
            assert(sep.len() == 1);
        } else {
            assert(es.drop_first().len() == 0);
            assert(rest =~= Seq::<char>::empty());
            assert(text_bytes(rest) == 0);
            assert(slr == 0);
            assert(sep.len() == 0);
        }
    } else {
        assert(render_obj_items(es, depth) =~= Seq::<char>::empty());
        assert(text_bytes(render_obj_items(es, depth)) == 0);
        lemma_zero_product(INDENT * depth - INDENT, obj_lines_sum(es) as int);
        assert(obj_lines_sum(es) == 0);
    }
}


/// The size invariant at the surface: for a well-formed document whose
/// texts are plain, the metadata the tree reports is exactly the length
/// and the line count of its pretty-printed text.
pub proof fn lemma_meta_matches_text(v: JsonV)
    requires
        single_line_texts(v),
        bytes_of(v) <= usize::MAX,
        lines_of(v) <= usize::MAX,
    ensures
        meta_of(v).n_bytes == text_bytes(render(v, 0)),
        meta_of(v).n_lines == newline_count(render(v, 0)) + 1,
{
    lemma_sizes_are_render_sizes(v, 0);
    lemma_zero_product_left(lines_of(v) - 1);
}

proof fn lemma_zero_product_left(b: int)
    ensures
        0 * b == 0,
{
    assert(0 * b == 0) by (nonlinear_arith);
}

/// Renaming an entry to the key it already has never collides and leaves
/// the document as it was.
pub proof fn lemma_rename_idempotent(v: JsonV, psel: Seq<Seq<char>>, key: Seq<char>)
    requires
        model_wf(v),
        resolve(v, psel) matches Resolved::Found(p) && p matches JsonV::Obj(es) && has_key(
            es,
            key,
        ),
    ensures
        spec_rename(v, psel.push(key), key) matches Ok(pr) && pr.0 == v && pr.1 is None,
    decreases psel.len(),
{
    assert(psel.push(key).drop_last() =~= psel);
    assert(psel.push(key).last() == key);
    lemma_rename_self_no_change(v, psel, key);
}

/// The body of the idempotence law, by induction along the path.
proof fn lemma_rename_self_no_change(v: JsonV, psel: Seq<Seq<char>>, key: Seq<char>)
    requires
        model_wf(v),
        resolve(v, psel) matches Resolved::Found(p) && p matches JsonV::Obj(es) && has_key(
            es,
            key,
        ),
    ensures
        apply_mut(v, psel, MutationV::Rename { before: key, after: key }) matches Ok(pr) && pr.0
            == v && pr.1 is None,
    decreases psel.len(),
{
    let m = MutationV::Rename { before: key, after: key };
    if psel.len() == 0 {
        let es = v->Obj_0;
        lemma_key_index_props(es, key);
        let i = key_index(es, key);
        assert(keys_unique(es));
        assert(!has_key_except(es, key, i)) by {
            if has_key_except(es, key, i) {
                let j = choose|j: int| 0 <= j < es.len() && j != i && es[j].0 == key;
                assert(es[j].0 == es[i].0);
            }
        }
        assert(es.update(i, (key, es[i].1)) =~= es);
        assert(apply_mut(v, psel, m) matches Ok(pr) && pr.0 == JsonV::Obj(es.update(
            i,
            (key, es[i].1),
        )));
        assert(JsonV::Obj(es.update(i, (key, es[i].1))) =~= v);
    } else {
        match v {
            JsonV::Arr(cs) => {
                crate::model::lemma_parse_index_bounds(psel[0]);
                match parse_index(psel[0]) {
                    Some(i) => {
                        if i < cs.len() {
                            assert(model_wf(cs[i]));
                            lemma_rename_self_no_change(cs[i], psel.drop_first(), key);
                            assert(cs.update(i, cs[i]) =~= cs);
                            assert(JsonV::Arr(cs.update(i, cs[i])) =~= v);
                        }
                    },
                    None => {},
                }
            },
            JsonV::Obj(es) => {
                if has_key(es, psel[0]) {
                    lemma_key_index_props(es, psel[0]);
                    let i = key_index(es, psel[0]);
                    assert(model_wf(es[i].1));
                    lemma_rename_self_no_change(es[i].1, psel.drop_first(), key);
                    assert(es.update(i, (es[i].0, es[i].1)) =~= es);
                    assert(JsonV::Obj(es.update(i, (es[i].0, es[i].1))) =~= v);
                }
            },
            _ => {},
        }
    }
}

/// A view-tree node standing for a document node: once materialized, its
/// children mirror the document's entries one to one, object keys by
/// name and in order, array positions by their decimal index.
pub open spec fn consistent(w: WtV, d: JsonV) -> bool
    decreases w,
{
    match w.children {
        None => true,
        Some(cs) => level_consistent(cs, d),
    }
}

/// The one-level half of [`consistent`]: the materialized child rows
/// match the entries of the document container.
pub open spec fn level_consistent(cs: Seq<WtV>, d: JsonV) -> bool
    decreases cs,
{
    match d {
        JsonV::Obj(es) => {
            &&& cs.len() == es.len()
            &&& forall|i: int| 0 <= i < cs.len() ==> (#[trigger] cs[i]).name == es[i].0
            &&& forall|i: int| 0 <= i < cs.len() ==> consistent(#[trigger] cs[i], es[i].1)
        },
        JsonV::Arr(xs) => {
            &&& cs.len() == xs.len()
            &&& xs.len() <= usize::MAX
            &&& forall|i: int| 0 <= i < cs.len() ==> (#[trigger] cs[i]).name == dec_str(i)
            &&& forall|i: int| 0 <= i < cs.len() ==> consistent(#[trigger] cs[i], xs[i])
        },
        _ => cs.len() == 0,
    }
}

/// View and document stay in step: the selector of any materialized row
/// resolves in the document without an error.
pub proof fn lemma_view_selector_resolves(w: WtV, d: JsonV, i: nat)
    requires
        consistent(w, d),
        model_wf(d),
        i < wt_len(w),
    ensures
        resolve(d, wt_selector(w, i)) is Found,
    decreases w, 0int,
{
    if i > 0 {
        match w.children {
            Some(cs) => {
                assert(cs.skip(0) =~= cs);
                lemma_sel_in_resolves(cs, d, 0, (i - 1) as nat);
            },
            None => {},
        }
    }
}

proof fn lemma_sel_in_resolves(cs: Seq<WtV>, d: JsonV, k: int, j: nat)
    requires
        level_consistent(cs, d),
        model_wf(d),
        0 <= k <= cs.len(),
        j < wt_len_sum(cs.skip(k)),
    ensures
        resolve(d, wt_sel_in(cs.skip(k), j)) is Found,
    decreases cs, cs.len() - k,
{
    let s = cs.skip(k);
    assert(s.len() == cs.len() - k);
    if s.len() > 0 {
        assert(s[0] == cs[k]);
        assert(s.drop_first() =~= cs.skip(k + 1));
        if j < wt_len(s[0]) {
            let name = cs[k].name;
            let path = seq![name] + wt_selector(cs[k], j);
            assert(wt_sel_in(s, j) == path);
            assert(path[0] == name);
            assert(path.drop_first() =~= wt_selector(cs[k], j));
            match d {
                JsonV::Obj(es) => {
                    assert(name == es[k].0);
                    lemma_key_index_props(es, name);
                    let ki = key_index(es, name);
                    assert(ki != -1) by {
                        if ki == -1 {
                            assert(es[k].0 != name);
                        }
                    }
                    assert(keys_unique(es));
                    assert(ki == k) by {
                        if ki != k {
                            assert(es[ki].0 == es[k].0);
                        }
                    }
                    assert(consistent(cs[k], es[k].1));
                    assert(model_wf(es[k].1));
                    lemma_view_selector_resolves(cs[k], es[k].1, j);
                    assert(resolve(d, path) == resolve(es[k].1, path.drop_first()));
                },
                JsonV::Arr(xs) => {
                    assert(name == dec_str(k));
                    lemma_parse_index_dec_str(k);
                    assert(parse_index(name) == Some(k));
                    assert(model_wf(xs[k]));
                    lemma_view_selector_resolves(cs[k], xs[k], j);
                    assert(resolve(d, path) == resolve(xs[k], path.drop_first()));
                },
                _ => {
                    assert(false);
                },
            }
        } else {
            lemma_sel_in_resolves(cs, d, k + 1, (j - wt_len(s[0])) as nat);
        }
    }
}

/// The one-level shape a document node shows on expansion, in the model.
pub open spec fn index_view_of(d: JsonV) -> IndexV {
    IndexV {
        meta: meta_of(d),
        kind: match d {
            JsonV::Obj(es) => IndexKindV::Object(Seq::new(es.len(), |i: int| es[i].0)),
            JsonV::Arr(xs) => IndexKindV::Array(xs.len()),
            _ => IndexKindV::Terminal,
        },
    }
}

/// Expanding a row with the shape of the document node its selector
/// addresses keeps view and document consistent: the incremental patch
/// cannot drift from the tree it mirrors.
pub proof fn lemma_reindex_keeps_consistent(w: WtV, d: JsonV, i: nat, force: bool, t: JsonV)
    requires
        consistent(w, d),
        model_wf(d),
        i < wt_len(w),
        resolve(d, wt_selector(w, i)) == Resolved::Found(t),
        bytes_of(t) <= usize::MAX,
    ensures
        consistent(sp_reindex(w, i, index_view_of(t), force), d),
    decreases w, 0int,
{
    let ix = index_view_of(t);
    if i == 0 {
        assert(t == d);
        if w.children is Some || force {
            lemma_fresh_level_consistent(d);
        }
    } else {
        match w.children {
            Some(cs) => {
                assert(cs.skip(0) =~= cs);
                lemma_reindex_in_keeps_consistent(cs, d, 0, (i - 1) as nat, force, t);
                assert(cs.take(0) =~= Seq::<WtV>::empty());
                assert(Seq::<WtV>::empty() + sp_reindex_in(cs, (i - 1) as nat, ix, force)
                    =~= sp_reindex_in(cs, (i - 1) as nat, ix, force));
            },
            None => {},
        }
    }
}

/// Fresh, collapsed children mirror the container they came from.
proof fn lemma_fresh_level_consistent(d: JsonV)
    requires
        bytes_of(d) <= usize::MAX,
    ensures
        level_consistent(children_from_index(index_view_of(d).kind), d),
{
    match d {
        JsonV::Arr(xs) => {
            if xs.len() > 0 {
                assert(bytes_of(d) >= xs.len());
            }
        },
        _ => {},
    }
}

proof fn lemma_reindex_in_keeps_consistent(
    cs: Seq<WtV>,
    d: JsonV,
    k: int,
    j: nat,
    force: bool,
    t: JsonV,
)
    requires
        level_consistent(cs, d),
        model_wf(d),
        0 <= k <= cs.len(),
        j < wt_len_sum(cs.skip(k)),
        resolve(d, wt_sel_in(cs.skip(k), j)) == Resolved::Found(t),
        bytes_of(t) <= usize::MAX,
    ensures
        level_consistent(
            cs.take(k) + sp_reindex_in(cs.skip(k), j, index_view_of(t), force),
            d,
        ),
    decreases cs, cs.len() - k,
{
    let ix = index_view_of(t);
    let s = cs.skip(k);
    assert(s.len() == cs.len() - k);
    assert(s[0] == cs[k]);
    assert(s.drop_first() =~= cs.skip(k + 1));
    if j < wt_len(s[0]) {
        let name = cs[k].name;
        let path = seq![name] + wt_selector(cs[k], j);
        assert(wt_sel_in(s, j) == path);
        assert(path[0] == name);
        assert(path.drop_first() =~= wt_selector(cs[k], j));
        let newk = sp_reindex(cs[k], j, ix, force);
        assert(sp_reindex_in(s, j, ix, force) == seq![newk] + s.drop_first());
        let full = cs.take(k) + (seq![newk] + s.drop_first());
        assert(full =~= cs.update(k, newk));
        match d {
            JsonV::Obj(es) => {
                assert(name == es[k].0);
                lemma_key_index_props(es, name);
                let ki = key_index(es, name);
                assert(ki != -1) by {
                    if ki == -1 {
                        assert(es[k].0 != name);
                    }
                }
                assert(keys_unique(es));
                assert(ki == k) by {
                    if ki != k {
                        assert(es[ki].0 == es[k].0);
                    }
                }
                assert(resolve(d, path) == resolve(es[k].1, path.drop_first()));
                assert(consistent(cs[k], es[k].1));
                assert(model_wf(es[k].1));
                lemma_reindex_keeps_consistent(cs[k], es[k].1, j, force, t);
                lemma_sp_reindex_keeps_name(cs[k], j, ix, force);
                assert forall|p: int|
                    0 <= p < full.len() implies (#[trigger] full[p]).name == es[p].0 by {
                    if p != k {
                        assert(full[p] == cs[p]);
                    }
                }
                assert forall|p: int|
                    0 <= p < full.len() implies consistent(#[trigger] full[p], es[p].1) by {
                    if p != k {
                        assert(full[p] == cs[p]);
                    }
                }
            },
            JsonV::Arr(xs) => {
                assert(name == dec_str(k));
                lemma_parse_index_dec_str(k);
                assert(parse_index(name) == Some(k));
                assert(resolve(d, path) == resolve(xs[k], path.drop_first()));
                assert(consistent(cs[k], xs[k]));
                assert(model_wf(xs[k]));
                lemma_reindex_keeps_consistent(cs[k], xs[k], j, force, t);
                lemma_sp_reindex_keeps_name(cs[k], j, ix, force);
                assert forall|p: int|
                    0 <= p < full.len() implies (#[trigger] full[p]).name == dec_str(p) by {
                    if p != k {
                        assert(full[p] == cs[p]);
                    }
                }
                assert forall|p: int|
                    0 <= p < full.len() implies consistent(#[trigger] full[p], xs[p]) by {
                    if p != k {
                        assert(full[p] == cs[p]);
                    }
                }
            },
            _ => {
                assert(false);
            },
        }
    } else {
        lemma_reindex_in_keeps_consistent(cs, d, k + 1, (j - wt_len(s[0])) as nat, force, t);
        assert(sp_reindex_in(s, j, ix, force) == seq![s[0]] + sp_reindex_in(
            s.drop_first(),
            (j - wt_len(s[0])) as nat,
            ix,
            force,
        ));
        assert(cs.take(k) + (seq![s[0]] + sp_reindex_in(
            s.drop_first(),
            (j - wt_len(s[0])) as nat,
            ix,
            force,
        )) =~= cs.take(k + 1) + sp_reindex_in(
            cs.skip(k + 1),
            (j - wt_len(s[0])) as nat,
            ix,
            force,
        ));
    }
}

/// An expansion changes what a row shows, never what it is called.
proof fn lemma_sp_reindex_keeps_name(w: WtV, i: nat, ix: IndexV, force: bool)
    ensures
        sp_reindex(w, i, ix, force).name == w.name,
{
}

/// Collapsing a row keeps view and document consistent: it only forgets
/// materialized children, and a collapsed node constrains nothing.
pub proof fn lemma_close_keeps_consistent(w: WtV, d: JsonV, i: nat)
    requires
        consistent(w, d),
        i < wt_len(w),
    ensures
        consistent(sp_close(w, i), d),
    decreases w, 0int,
{
    if i > 0 {
        match w.children {
            Some(cs) => {
                assert(cs.skip(0) =~= cs);
                lemma_close_in_keeps_consistent(cs, d, 0, (i - 1) as nat);
                assert(cs.take(0) =~= Seq::<WtV>::empty());
                assert(Seq::<WtV>::empty() + sp_close_in(cs, (i - 1) as nat) =~= sp_close_in(
                    cs,
                    (i - 1) as nat,
                ));
            },
            None => {},
        }
    }
}

proof fn lemma_close_in_keeps_consistent(cs: Seq<WtV>, d: JsonV, k: int, j: nat)
    requires
        level_consistent(cs, d),
        0 <= k <= cs.len(),
        j < wt_len_sum(cs.skip(k)),
    ensures
        level_consistent(cs.take(k) + sp_close_in(cs.skip(k), j), d),
    decreases cs, cs.len() - k,
{
    let s = cs.skip(k);
    assert(s.len() == cs.len() - k);
    assert(s[0] == cs[k]);
    assert(s.drop_first() =~= cs.skip(k + 1));
    if j < wt_len(s[0]) {
        let newk = sp_close(cs[k], j);
        assert(sp_close_in(s, j) == seq![newk] + s.drop_first());
        let full = cs.take(k) + (seq![newk] + s.drop_first());
        assert(full =~= cs.update(k, newk));
        assert(newk.name == cs[k].name);
        match d {
            JsonV::Obj(es) => {
                assert(consistent(cs[k], es[k].1));
                lemma_close_keeps_consistent(cs[k], es[k].1, j);
                assert forall|p: int|
                    0 <= p < full.len() implies (#[trigger] full[p]).name == es[p].0 by {
                    if p != k {
                        assert(full[p] == cs[p]);
                    }
                }
                assert forall|p: int|
                    0 <= p < full.len() implies consistent(#[trigger] full[p], es[p].1) by {
                    if p != k {
                        assert(full[p] == cs[p]);
                    }
                }
            },
            JsonV::Arr(xs) => {
                assert(consistent(cs[k], xs[k]));
                lemma_close_keeps_consistent(cs[k], xs[k], j);
                assert forall|p: int|
                    0 <= p < full.len() implies (#[trigger] full[p]).name == dec_str(p) by {
                    if p != k {
                        assert(full[p] == cs[p]);
                    }
                }
                assert forall|p: int|
                    0 <= p < full.len() implies consistent(#[trigger] full[p], xs[p]) by {
                    if p != k {
                        assert(full[p] == cs[p]);
                    }
                }
            },
            _ => {
                assert(false);
            },
        }
    } else {
        lemma_close_in_keeps_consistent(cs, d, k + 1, (j - wt_len(s[0])) as nat);
        assert(sp_close_in(s, j) == seq![s[0]] + sp_close_in(
            s.drop_first(),
            (j - wt_len(s[0])) as nat,
        ));
        assert(cs.take(k) + (seq![s[0]] + sp_close_in(
            s.drop_first(),
            (j - wt_len(s[0])) as nat,
        )) =~= cs.take(k + 1) + sp_close_in(cs.skip(k + 1), (j - wt_len(s[0])) as nat));
    }
}

/// What a row shows: the text of row `i` is the indent of its depth —
/// one level per selector segment — followed by the name of the node
/// [`wt_selector`] addresses there.
pub proof fn lemma_row_text(w: WtV, i: nat, depth: nat)
    requires
        i < wt_len(w),
    ensures
        wt_rows(w, depth)[i as int] == row_prefix((depth + wt_selector(w, i).len()) as nat)
            + wt_row(w, i).name,
    decreases w, 0int,
{
    lemma_wt_rows_len(w, depth);
    if i == 0 {
        assert(wt_selector(w, 0) =~= Seq::<Seq<char>>::empty());
        assert(wt_rows(w, depth)[0] == row_prefix(depth) + w.name);
    } else {
        match w.children {
            Some(cs) => {
                let body = wt_rows_sum(cs, depth + 1);
                assert(wt_rows(w, depth) == seq![row_prefix(depth) + w.name] + body);
                lemma_wt_rows_sum_len(cs, depth + 1);
                assert(wt_rows(w, depth)[i as int] == body[i - 1]);
                lemma_row_text_in(cs, (i - 1) as nat, (depth + 1) as nat);
                assert(wt_selector(w, i) == wt_sel_in(cs, (i - 1) as nat));
                assert(wt_row(w, i) == wt_row_in(cs, (i - 1) as nat));
            },
            None => {},
        }
    }
}

proof fn lemma_row_text_in(cs: Seq<WtV>, j: nat, depth: nat)
    requires
        depth >= 1,
        j < wt_len_sum(cs),
    ensures
        wt_rows_sum(cs, depth)[j as int] == row_prefix(
            (depth + wt_sel_in(cs, j).len() - 1) as nat,
        ) + wt_row_in(cs, j).name,
    decreases cs, 1int,
{
    lemma_wt_sel_in_len_pos(cs, j);
    let head = wt_rows(cs[0], depth);
    let rest = wt_rows_sum(cs.drop_first(), depth);
    assert(wt_rows_sum(cs, depth) == head + rest);
    lemma_wt_rows_len(cs[0], depth);
    if j < wt_len(cs[0]) {
        assert(wt_rows_sum(cs, depth)[j as int] == head[j as int]);
        lemma_row_text(cs[0], j, depth);
        assert(wt_sel_in(cs, j) == seq![cs[0].name] + wt_selector(cs[0], j));
        assert(wt_sel_in(cs, j).len() == 1 + wt_selector(cs[0], j).len());
        assert(wt_row_in(cs, j) == wt_row(cs[0], j));
    } else {
        lemma_wt_rows_sum_len(cs.drop_first(), depth);
        assert(wt_len_sum(cs) == wt_len(cs[0]) + wt_len_sum(cs.drop_first()));
        assert(wt_rows_sum(cs, depth)[j as int] == rest[j - wt_len(cs[0])]);
        lemma_row_text_in(cs.drop_first(), (j - wt_len(cs[0])) as nat, depth);
        assert(wt_sel_in(cs, j) == wt_sel_in(cs.drop_first(), (j - wt_len(cs[0])) as nat));
        assert(wt_row_in(cs, j) == wt_row_in(cs.drop_first(), (j - wt_len(cs[0])) as nat));
    }
}

/// The selector of a row below the root ends in that row's own name: the
/// name a row shows is the name of the entry its selector addresses.
pub proof fn lemma_selector_names_row(w: WtV, i: nat)
    requires
        1 <= i < wt_len(w),
    ensures
        wt_selector(w, i).len() >= 1,
        wt_selector(w, i).last() == wt_row(w, i).name,
    decreases w, 0int,
{
    match w.children {
        Some(cs) => {
            lemma_selector_names_row_in(cs, (i - 1) as nat);
        },
        None => {},
    }
}

proof fn lemma_selector_names_row_in(cs: Seq<WtV>, j: nat)
    requires
        j < wt_len_sum(cs),
    ensures
        wt_sel_in(cs, j).len() >= 1,
        wt_sel_in(cs, j).last() == wt_row_in(cs, j).name,
    decreases cs, 1int,
{
    lemma_wt_sel_in_len_pos(cs, j);
    if j < wt_len(cs[0]) {
        let path = seq![cs[0].name] + wt_selector(cs[0], j);
        assert(wt_sel_in(cs, j) == path);
        if j == 0 {
            assert(wt_selector(cs[0], 0) =~= Seq::<Seq<char>>::empty());
            assert(path.last() == cs[0].name);
            assert(wt_row_in(cs, 0) == cs[0]);
        } else {
            lemma_selector_names_row(cs[0], j);
            assert(path.last() == wt_selector(cs[0], j).last());
            assert(wt_row_in(cs, j) == wt_row(cs[0], j));
        }
    } else {
        lemma_selector_names_row_in(cs.drop_first(), (j - wt_len(cs[0])) as nat);
        assert(wt_sel_in(cs, j) == wt_sel_in(cs.drop_first(), (j - wt_len(cs[0])) as nat));
        assert(wt_row_in(cs, j) == wt_row_in(cs.drop_first(), (j - wt_len(cs[0])) as nat));
    }
}

} // verus!
