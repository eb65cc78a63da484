//! The mathematical model of a JSON document.
//!
//! A document is abstracted as a [`JsonV`] value: terminals carry their
//! canonical text, containers carry the ordered sequence of their children.
//! The pretty-printed shape of a document (how many lines it spans and how
//! many bytes it takes) is defined here as a pair of recursive functions,
//! [`lines_of`] and [`bytes_of`]; the executable tree caches exactly these
//! quantities.  Path resolution and the four mutations are likewise given
//! their meaning here, so that the executable code can be held to it.
use vstd::prelude::*;
use vstd::utf8::encode_utf8;

verus! {

/// Width of one indentation level of the pretty printer, in spaces.
pub const INDENT: usize = 2;

/// Abstract value of a document node.
///
/// Numbers are represented by their canonical decimal text: that is all the
/// size bookkeeping and the printer ever read of a number.  Object entries
/// keep their insertion order, and a well-formed object holds no duplicate
/// keys (see [`model_wf`]).
#[verifier::ext_equal]
pub enum JsonV {
    Null,
    Bool(bool),
    Num(Seq<char>),
    Str(Seq<char>),
    Arr(Seq<JsonV>),
    Obj(Seq<(Seq<char>, JsonV)>),
}

/// Number of lines the pretty printer produces for a node at depth 0.
pub open spec fn lines_of(v: JsonV) -> nat
    decreases v,
{
    match v {
        JsonV::Null => 1,
        JsonV::Bool(_) => 1,
        JsonV::Num(_) => 1,
        JsonV::Str(_) => 1,
        JsonV::Arr(cs) => {
            if cs.len() == 0 {
                1
            } else {
                2 + arr_lines_sum(cs)
            }
        },
        JsonV::Obj(es) => {
            if es.len() == 0 {
                1
            } else {
                2 + obj_lines_sum(es)
            }
        },
    }
}

pub open spec fn arr_lines_sum(cs: Seq<JsonV>) -> nat
    decreases cs,
{
    if cs.len() == 0 {
        0
    } else {
        lines_of(cs[0]) + arr_lines_sum(cs.drop_first())
    }
}

pub open spec fn obj_lines_sum(es: Seq<(Seq<char>, JsonV)>) -> nat
    decreases es,
{
    if es.len() == 0 {
        0
    } else {
        lines_of(es[0].1) + obj_lines_sum(es.drop_first())
    }
}

/// Byte length of a piece of text as UTF-8.
pub open spec fn text_bytes(s: Seq<char>) -> nat {
    encode_utf8(s).len()
}

/// Byte count of a child as its parent sees it: every line of the child
/// is shifted one indentation level to the right.
pub open spec fn indented_bytes_of(v: JsonV) -> nat {
    (bytes_of(v) + INDENT * lines_of(v)) as nat
}

/// Number of bytes the pretty printer produces for a node at depth 0.
pub open spec fn bytes_of(v: JsonV) -> nat
    decreases v,
{
    match v {
        JsonV::Null => 4,
        JsonV::Bool(b) => if b {
            4
        } else {
            5
        },
        JsonV::Num(t) => text_bytes(t),
        JsonV::Str(s) => text_bytes(s) + 2,
        JsonV::Arr(cs) => {
            if cs.len() == 0 {
                2
            } else {
                (arr_bytes_sum(cs) + cs.len() + (cs.len() - 1) + 3) as nat
            }
        },
        JsonV::Obj(es) => {
            if es.len() == 0 {
                2
            } else {
                (obj_bytes_sum(es) + es.len() + (es.len() - 1) + 3) as nat
            }
        },
    }
}

pub open spec fn arr_bytes_sum(cs: Seq<JsonV>) -> nat
    decreases cs,
{
    if cs.len() == 0 {
        0
    } else {
        (bytes_of(cs[0]) + INDENT * lines_of(cs[0]) + arr_bytes_sum(cs.drop_first())) as nat
    }
}

pub open spec fn obj_bytes_sum(es: Seq<(Seq<char>, JsonV)>) -> nat
    decreases es,
{
    if es.len() == 0 {
        0
    } else {
        (4 + text_bytes(es[0].0) + bytes_of(es[0].1) + INDENT * lines_of(es[0].1)
            + obj_bytes_sum(es.drop_first())) as nat
    }
}

/// Structural well-formedness of a model: no object anywhere holds two
/// entries with the same key.
pub open spec fn model_wf(v: JsonV) -> bool
    decreases v,
{
    match v {
        JsonV::Null => true,
        JsonV::Bool(_) => true,
        JsonV::Num(_) => true,
        JsonV::Str(_) => true,
        JsonV::Arr(cs) => forall|i: int| 0 <= i < cs.len() ==> model_wf(#[trigger] cs[i]),
        JsonV::Obj(es) => {
            &&& keys_unique(es)
            &&& forall|i: int| 0 <= i < es.len() ==> model_wf(#[trigger] es[i].1)
        },
    }
}

pub open spec fn keys_unique(es: Seq<(Seq<char>, JsonV)>) -> bool {
    forall|i: int, j: int| 0 <= i < j < es.len() ==> es[i].0 != es[j].0
}

/// First position of `key` among the entries, or `-1` when absent.
pub open spec fn key_index(es: Seq<(Seq<char>, JsonV)>, key: Seq<char>) -> int
    decreases es,
{
    if es.len() == 0 {
        -1
    } else if es[0].0 == key {
        0
    } else if key_index(es.drop_first(), key) == -1 {
        -1
    } else {
        1 + key_index(es.drop_first(), key)
    }
}

pub open spec fn has_key(es: Seq<(Seq<char>, JsonV)>, key: Seq<char>) -> bool {
    key_index(es, key) != -1
}

/// Value of a decimal digit string, most significant first.
pub open spec fn digits_val(s: Seq<char>) -> int
    decreases s,
{
    if s.len() == 0 {
        0
    } else {
        digits_val(s.drop_last()) * 10 + (s.last() as int - '0' as int)
    }
}

pub open spec fn all_digits(s: Seq<char>) -> bool {
    forall|i: int| 0 <= i < s.len() ==> '0' <= #[trigger] s[i] <= '9'
}

/// A digit string never denotes a negative value.
pub proof fn lemma_digits_val_nonneg(s: Seq<char>)
    requires
        all_digits(s),
    ensures
        digits_val(s) >= 0,
    decreases s.len(),
{
    if s.len() > 0 {
        assert(all_digits(s.drop_last()));
        lemma_digits_val_nonneg(s.drop_last());
    }
}

/// A segment that parses as an index parses to a machine-word value.
pub proof fn lemma_parse_index_bounds(s: Seq<char>)
    ensures
        parse_index(s) matches Some(v) ==> 0 <= v <= usize::MAX,
{
    let t = if s.len() > 0 && s[0] == '+' {
        s.drop_first()
    } else {
        s
    };
    if t.len() > 0 && all_digits(t) && digits_val(t) <= usize::MAX {
        lemma_digits_val_nonneg(t);
    }
}

/// Meaning of parsing a selector segment as an array index, mirroring how
/// `usize` is read from text: an optional leading `+`, then at least one
/// decimal digit, and a value that fits the machine word.
pub open spec fn parse_index(s: Seq<char>) -> Option<int> {
    let t = if s.len() > 0 && s[0] == '+' {
        s.drop_first()
    } else {
        s
    };
    if t.len() > 0 && all_digits(t) && digits_val(t) <= usize::MAX {
        Some(digits_val(t))
    } else {
        None
    }
}

/// Outcome of resolving a path against a document.
pub enum Resolved {
    Found(JsonV),
    Missing(Seq<char>),
    NotIndexable,
}

/// Left-to-right resolution of a selector: stop at the first segment that
/// fails, and distinguish descending into a terminal from a key or index
/// that is not present.
pub open spec fn resolve(v: JsonV, path: Seq<Seq<char>>) -> Resolved
    decreases path.len(),
{
    if path.len() == 0 {
        Resolved::Found(v)
    } else {
        match v {
            JsonV::Arr(cs) => {
                match parse_index(path[0]) {
                    Some(i) => {
                        if i < cs.len() {
                            resolve(cs[i], path.drop_first())
                        } else {
                            Resolved::Missing(path[0])
                        }
                    },
                    None => Resolved::Missing(path[0]),
                }
            },
            JsonV::Obj(es) => {
                if has_key(es, path[0]) {
                    resolve(es[key_index(es, path[0])].1, path.drop_first())
                } else {
                    Resolved::Missing(path[0])
                }
            },
            _ => Resolved::NotIndexable,
        }
    }
}

/// Ghost mirror of the key under which a sibling is inserted.
pub enum KeyV {
    Array,
    Object(Seq<char>),
}

/// Ghost mirror of a mutation request, applied at the end of a path.
pub enum MutationV {
    Replace(JsonV),
    Delete(Seq<char>),
    Append { after: Seq<char>, key: KeyV, node: JsonV },
    Rename { before: Seq<char>, after: Seq<char> },
}

/// Error of a mutation, in the model.
pub enum MutErrV {
    NotIndexable,
    Missing(Seq<char>),
    DuplicateKey,
    NotRenameable,
}

/// Whether `k` occurs as a key of an entry other than the one at `excl`.
pub open spec fn has_key_except(es: Seq<(Seq<char>, JsonV)>, k: Seq<char>, excl: int) -> bool {
    exists|j: int| 0 <= j < es.len() && j != excl && es[j].0 == k
}

/// The meaning of one mutation applied to the node it addresses: the new
/// value of that node, and the subtree the mutation extracted (the old
/// node for a replace, the removed entry for a delete).
pub open spec fn apply_local(v: JsonV, m: MutationV) -> Result<(JsonV, Option<JsonV>), MutErrV> {
    match m {
        MutationV::Replace(w) => Ok((w, Some(v))),
        MutationV::Append { after, key: KeyV::Array, node } => {
            match v {
                JsonV::Arr(cs) => {
                    match parse_index(after) {
                        Some(i) => {
                            if i < cs.len() {
                                Ok((JsonV::Arr(cs.insert(i + 1, node)), None))
                            } else {
                                Err(MutErrV::Missing(after))
                            }
                        },
                        None => Err(MutErrV::Missing(after)),
                    }
                },
                _ => Err(MutErrV::NotIndexable),
            }
        },
        MutationV::Append { after, key: KeyV::Object(k), node } => {
            match v {
                JsonV::Obj(es) => {
                    if has_key(es, k) {
                        Err(MutErrV::DuplicateKey)
                    } else if has_key(es, after) {
                        Ok((JsonV::Obj(es.insert(key_index(es, after) + 1, (k, node))), None))
                    } else {
                        Err(MutErrV::Missing(after))
                    }
                },
                _ => Err(MutErrV::NotIndexable),
            }
        },
        MutationV::Delete(seg) => {
            match v {
                JsonV::Arr(cs) => {
                    match parse_index(seg) {
                        Some(i) => {
                            if i < cs.len() {
                                Ok((JsonV::Arr(cs.remove(i)), Some(cs[i])))
                            } else {
                                Err(MutErrV::Missing(seg))
                            }
                        },
                        None => Err(MutErrV::Missing(seg)),
                    }
                },
                JsonV::Obj(es) => {
                    if has_key(es, seg) {
                        Ok(
                            (
                                JsonV::Obj(es.remove(key_index(es, seg))),
                                Some(es[key_index(es, seg)].1),
                            ),
                        )
                    } else {
                        Err(MutErrV::Missing(seg))
                    }
                },
                _ => Err(MutErrV::NotIndexable),
            }
        },
        MutationV::Rename { before, after } => {
            match v {
                JsonV::Arr(_) => Err(MutErrV::NotRenameable),
                JsonV::Obj(es) => {
                    let i = key_index(es, before);
                    if has_key_except(es, after, i) {
                        Err(MutErrV::DuplicateKey)
                    } else if i == -1 {
                        Err(MutErrV::Missing(before))
                    } else {
                        Ok((JsonV::Obj(es.update(i, (after, es[i].1))), None))
                    }
                },
                _ => Err(MutErrV::NotIndexable),
            }
        },
    }
}

/// The meaning of a mutation addressed by a path: descend to the target,
/// apply [`apply_local`], and rebuild the spine.  An error leaves the
/// document unchanged.
pub open spec fn apply_mut(v: JsonV, path: Seq<Seq<char>>, m: MutationV) -> Result<
    (JsonV, Option<JsonV>),
    MutErrV,
>
    decreases path.len(),
{
    if path.len() == 0 {
        apply_local(v, m)
    } else {
        match v {
            JsonV::Arr(cs) => {
                match parse_index(path[0]) {
                    Some(i) => {
                        if i < cs.len() {
                            match apply_mut(cs[i], path.drop_first(), m) {
                                Ok((nv, ex)) => Ok((JsonV::Arr(cs.update(i, nv)), ex)),
                                Err(e) => Err(e),
                            }
                        } else {
                            Err(MutErrV::Missing(path[0]))
                        }
                    },
                    None => Err(MutErrV::Missing(path[0])),
                }
            },
            JsonV::Obj(es) => {
                if has_key(es, path[0]) {
                    let i = key_index(es, path[0]);
                    match apply_mut(es[i].1, path.drop_first(), m) {
                        Ok((nv, ex)) => Ok((JsonV::Obj(es.update(i, (es[i].0, nv))), ex)),
                        Err(e) => Err(e),
                    }
                } else {
                    Err(MutErrV::Missing(path[0]))
                }
            },
            _ => Err(MutErrV::NotIndexable),
        }
    }
}

/// Every element's contribution is bounded by the whole sum.
pub proof fn lemma_arr_sum_index(cs: Seq<JsonV>, i: int)
    requires
        0 <= i < cs.len(),
    ensures
        arr_lines_sum(cs) >= lines_of(cs[i]),
        arr_bytes_sum(cs) >= bytes_of(cs[i]) + INDENT * lines_of(cs[i]),
    decreases cs,
{
    if i > 0 {
        lemma_arr_sum_index(cs.drop_first(), i - 1);
        assert(cs.drop_first()[i - 1] == cs[i]);
    }
}

/// Every entry's contribution is bounded by the whole sum.
pub proof fn lemma_obj_sum_index(es: Seq<(Seq<char>, JsonV)>, i: int)
    requires
        0 <= i < es.len(),
    ensures
        obj_lines_sum(es) >= lines_of(es[i].1),
        obj_bytes_sum(es) >= 4 + text_bytes(es[i].0) + bytes_of(es[i].1) + INDENT * lines_of(
            es[i].1,
        ),
    decreases es,
{
    if i > 0 {
        lemma_obj_sum_index(es.drop_first(), i - 1);
        assert(es.drop_first()[i - 1] == es[i]);
    }
}

/// Replacing one element changes the sums by that element's delta.
pub proof fn lemma_arr_sum_update(cs: Seq<JsonV>, i: int, w: JsonV)
    requires
        0 <= i < cs.len(),
    ensures
        arr_lines_sum(cs.update(i, w)) == arr_lines_sum(cs) - lines_of(cs[i]) + lines_of(w),
        arr_bytes_sum(cs.update(i, w)) == arr_bytes_sum(cs) - (bytes_of(cs[i]) + INDENT
            * lines_of(cs[i])) + (bytes_of(w) + INDENT * lines_of(w)),
    decreases cs,
{
    let u = cs.update(i, w);
    assert(u.len() == cs.len());
    if i == 0 {
        assert(u[0] == w);
        assert(u.drop_first() =~= cs.drop_first());
    } else {
        assert(u[0] == cs[0]);
        assert(u.drop_first() =~= cs.drop_first().update(i - 1, w));
        lemma_arr_sum_update(cs.drop_first(), i - 1, w);
        assert(cs.drop_first()[i - 1] == cs[i]);
    }
}

/// Replacing one entry's value changes the sums by that value's delta.
pub proof fn lemma_obj_sum_update_val(es: Seq<(Seq<char>, JsonV)>, i: int, w: JsonV)
    requires
        0 <= i < es.len(),
    ensures
        obj_lines_sum(es.update(i, (es[i].0, w))) == obj_lines_sum(es) - lines_of(es[i].1)
            + lines_of(w),
        obj_bytes_sum(es.update(i, (es[i].0, w))) == obj_bytes_sum(es) - (bytes_of(es[i].1)
            + INDENT * lines_of(es[i].1)) + (bytes_of(w) + INDENT * lines_of(w)),
    decreases es,
{
    let u = es.update(i, (es[i].0, w));
    assert(u.len() == es.len());
    if i == 0 {
        assert(u[0] == (es[0].0, w));
        assert(u.drop_first() =~= es.drop_first());
    } else {
        assert(u[0] == es[0]);
        assert(u.drop_first() =~= es.drop_first().update(i - 1, (es[i].0, w)));
        assert(es.drop_first()[i - 1] == es[i]);
        lemma_obj_sum_update_val(es.drop_first(), i - 1, w);
    }
}

/// Renaming one entry keeps the line sum and moves the byte sum by the
/// difference of the key lengths.
pub proof fn lemma_obj_sum_update_key(es: Seq<(Seq<char>, JsonV)>, i: int, k: Seq<char>)
    requires
        0 <= i < es.len(),
    ensures
        obj_lines_sum(es.update(i, (k, es[i].1))) == obj_lines_sum(es),
        obj_bytes_sum(es.update(i, (k, es[i].1))) == obj_bytes_sum(es) - text_bytes(es[i].0)
            + text_bytes(k),
    decreases es,
{
    let u = es.update(i, (k, es[i].1));
    assert(u.len() == es.len());
    if i == 0 {
        assert(u[0] == (k, es[0].1));
        assert(u.drop_first() =~= es.drop_first());
    } else {
        assert(u[0] == es[0]);
        assert(u.drop_first() =~= es.drop_first().update(i - 1, (k, es[i].1)));
        assert(es.drop_first()[i - 1] == es[i]);
        lemma_obj_sum_update_key(es.drop_first(), i - 1, k);
    }
}

/// Inserting an element adds exactly its contribution to the sums.
pub proof fn lemma_arr_sum_insert(cs: Seq<JsonV>, i: int, w: JsonV)
    requires
        0 <= i <= cs.len(),
    ensures
        arr_lines_sum(cs.insert(i, w)) == arr_lines_sum(cs) + lines_of(w),
        arr_bytes_sum(cs.insert(i, w)) == arr_bytes_sum(cs) + bytes_of(w) + INDENT * lines_of(w),
    decreases cs,
{
    let u = cs.insert(i, w);
    assert(u.len() == cs.len() + 1);
    if i == 0 {
        assert(u[0] == w);
        assert(u.drop_first() =~= cs);
    } else {
        assert(u[0] == cs[0]);
        assert(u.drop_first() =~= cs.drop_first().insert(i - 1, w));
        lemma_arr_sum_insert(cs.drop_first(), i - 1, w);
    }
}

/// Inserting an entry adds exactly its contribution to the sums.
pub proof fn lemma_obj_sum_insert(es: Seq<(Seq<char>, JsonV)>, i: int, k: Seq<char>, w: JsonV)
    requires
        0 <= i <= es.len(),
    ensures
        obj_lines_sum(es.insert(i, (k, w))) == obj_lines_sum(es) + lines_of(w),
        obj_bytes_sum(es.insert(i, (k, w))) == obj_bytes_sum(es) + 4 + text_bytes(k) + bytes_of(w)
            + INDENT * lines_of(w),
    decreases es,
{
    let u = es.insert(i, (k, w));
    assert(u.len() == es.len() + 1);
    if i == 0 {
        assert(u[0] == (k, w));
        assert(u.drop_first() =~= es);
    } else {
        assert(u[0] == es[0]);
        assert(u.drop_first() =~= es.drop_first().insert(i - 1, (k, w)));
        lemma_obj_sum_insert(es.drop_first(), i - 1, k, w);
    }
}

/// Removing an element takes exactly its contribution out of the sums.
pub proof fn lemma_arr_sum_remove(cs: Seq<JsonV>, i: int)
    requires
        0 <= i < cs.len(),
    ensures
        arr_lines_sum(cs.remove(i)) == arr_lines_sum(cs) - lines_of(cs[i]),
        arr_bytes_sum(cs.remove(i)) == arr_bytes_sum(cs) - (bytes_of(cs[i]) + INDENT * lines_of(
            cs[i],
        )),
    decreases cs,
{
    let u = cs.remove(i);
    assert(u.len() == cs.len() - 1);
    if i == 0 {
        assert(u =~= cs.drop_first());
    } else {
        assert(u[0] == cs[0]);
        assert(u.drop_first() =~= cs.drop_first().remove(i - 1));
        lemma_arr_sum_remove(cs.drop_first(), i - 1);
        assert(cs.drop_first()[i - 1] == cs[i]);
    }
}

/// Removing an entry takes exactly its contribution out of the sums.
pub proof fn lemma_obj_sum_remove(es: Seq<(Seq<char>, JsonV)>, i: int)
    requires
        0 <= i < es.len(),
    ensures
        obj_lines_sum(es.remove(i)) == obj_lines_sum(es) - lines_of(es[i].1),
        obj_bytes_sum(es.remove(i)) == obj_bytes_sum(es) - (4 + text_bytes(es[i].0) + bytes_of(
            es[i].1,
        ) + INDENT * lines_of(es[i].1)),
    decreases es,
{
    let u = es.remove(i);
    assert(u.len() == es.len() - 1);
    if i == 0 {
        assert(u =~= es.drop_first());
    } else {
        assert(u[0] == es[0]);
        assert(u.drop_first() =~= es.drop_first().remove(i - 1));
        lemma_obj_sum_remove(es.drop_first(), i - 1);
        assert(es.drop_first()[i - 1] == es[i]);
    }
}

/// Appending an element adds exactly its contribution to the sums.
pub proof fn lemma_arr_sum_push(cs: Seq<JsonV>, w: JsonV)
    ensures
        arr_lines_sum(cs.push(w)) == arr_lines_sum(cs) + lines_of(w),
        arr_bytes_sum(cs.push(w)) == arr_bytes_sum(cs) + bytes_of(w) + INDENT * lines_of(w),
    decreases cs,
{
    let u = cs.push(w);
    assert(u.len() == cs.len() + 1);
    if cs.len() == 0 {
        assert(u[0] == w);
        assert(u.drop_first() =~= Seq::<JsonV>::empty());
        assert(arr_lines_sum(u) == lines_of(w) + arr_lines_sum(u.drop_first()));
        assert(arr_bytes_sum(u) == bytes_of(w) + INDENT * lines_of(w) + arr_bytes_sum(
            u.drop_first(),
        ));
    } else {
        assert(u[0] == cs[0]);
        assert(u.drop_first() =~= cs.drop_first().push(w));
        lemma_arr_sum_push(cs.drop_first(), w);
        assert(arr_lines_sum(u) == lines_of(cs[0]) + arr_lines_sum(u.drop_first()));
        assert(arr_bytes_sum(u) == bytes_of(cs[0]) + INDENT * lines_of(cs[0]) + arr_bytes_sum(
            u.drop_first(),
        ));
    }
}

/// Appending an entry adds exactly its contribution to the sums.
pub proof fn lemma_obj_sum_push(es: Seq<(Seq<char>, JsonV)>, k: Seq<char>, w: JsonV)
    ensures
        obj_lines_sum(es.push((k, w))) == obj_lines_sum(es) + lines_of(w),
        obj_bytes_sum(es.push((k, w))) == obj_bytes_sum(es) + 4 + text_bytes(k) + bytes_of(w)
            + INDENT * lines_of(w),
    decreases es,
{
    let u = es.push((k, w));
    assert(u.len() == es.len() + 1);
    if es.len() == 0 {
        assert(u[0] == (k, w));
        assert(u.drop_first() =~= Seq::<(Seq<char>, JsonV)>::empty());
        assert(obj_lines_sum(u) == lines_of(w) + obj_lines_sum(u.drop_first()));
        assert(obj_bytes_sum(u) == 4 + text_bytes(k) + bytes_of(w) + INDENT * lines_of(w)
            + obj_bytes_sum(u.drop_first()));
    } else {
        assert(u[0] == es[0]);
        assert(u.drop_first() =~= es.drop_first().push((k, w)));
        lemma_obj_sum_push(es.drop_first(), k, w);
        assert(obj_lines_sum(u) == lines_of(es[0].1) + obj_lines_sum(u.drop_first()));
        assert(obj_bytes_sum(u) == 4 + text_bytes(es[0].0) + bytes_of(es[0].1) + INDENT
            * lines_of(es[0].1) + obj_bytes_sum(u.drop_first()));
    }
}

/// A prefix never contributes more than the whole sequence.
pub proof fn lemma_arr_sum_prefix(cs: Seq<JsonV>, j: int)
    requires
        0 <= j <= cs.len(),
    ensures
        arr_lines_sum(cs.take(j)) <= arr_lines_sum(cs),
        arr_bytes_sum(cs.take(j)) <= arr_bytes_sum(cs),
    decreases cs.len() - j,
{
    if j == cs.len() {
        assert(cs.take(j) =~= cs);
    } else {
        assert(cs.take(j + 1) =~= cs.take(j).push(cs[j]));
        lemma_arr_sum_push(cs.take(j), cs[j]);
        lemma_arr_sum_prefix(cs, j + 1);
    }
}

/// A prefix never contributes more than the whole sequence.
pub proof fn lemma_obj_sum_prefix(es: Seq<(Seq<char>, JsonV)>, j: int)
    requires
        0 <= j <= es.len(),
    ensures
        obj_lines_sum(es.take(j)) <= obj_lines_sum(es),
        obj_bytes_sum(es.take(j)) <= obj_bytes_sum(es),
    decreases es.len() - j,
{
    if j == es.len() {
        assert(es.take(j) =~= es);
    } else {
        assert(es.take(j + 1) =~= es.take(j).push(es[j]));
        lemma_obj_sum_push(es.take(j), es[j].0, es[j].1);
        lemma_obj_sum_prefix(es, j + 1);
    }
}

/// The spaces put before a line nested at the given depth.
pub open spec fn sp_indent(depth: nat) -> Seq<char> {
    Seq::new((INDENT * depth) as nat, |i: int| ' ')
}

/// The pretty-printed text of a node whose first line starts at the
/// given depth: the layout the size formulas above count.
pub open spec fn render(v: JsonV, depth: nat) -> Seq<char>
    decreases v,
{
    match v {
        JsonV::Null => seq!['n', 'u', 'l', 'l'],
        JsonV::Bool(b) => {
            if b {
                seq!['t', 'r', 'u', 'e']
            } else {
                seq!['f', 'a', 'l', 's', 'e']
            }
        },
        JsonV::Num(t) => t,
        JsonV::Str(s) => seq!['"'] + s + seq!['"'],
        JsonV::Arr(cs) => {
            if cs.len() == 0 {
                seq!['[', ']']
            } else {
                seq!['[', '\n'] + render_arr_items(cs, depth + 1) + sp_indent(depth) + seq![']']
            }
        },
        JsonV::Obj(es) => {
            if es.len() == 0 {
                seq!['{', '}']
            } else {
                seq!['{', '\n'] + render_obj_items(es, depth + 1) + sp_indent(depth) + seq!['}']
            }
        },
    }
}

/// One line group per array element: indent, the element, a comma when
/// another element follows, then the line break.
pub open spec fn render_arr_items(cs: Seq<JsonV>, depth: nat) -> Seq<char>
    decreases cs,
{
    if cs.len() == 0 {
        Seq::empty()
    } else {
        sp_indent(depth) + render(cs[0], depth) + (if cs.len() > 1 {
            seq![',']
        } else {
            Seq::<char>::empty()
        }) + seq!['\n'] + render_arr_items(cs.drop_first(), depth)
    }
}

/// One line group per object entry: indent, the quoted key, a colon, the
/// value, a comma when another entry follows, then the line break.
pub open spec fn render_obj_items(es: Seq<(Seq<char>, JsonV)>, depth: nat) -> Seq<char>
    decreases es,
{
    if es.len() == 0 {
        Seq::empty()
    } else {
        sp_indent(depth) + seq!['"'] + es[0].0 + seq!['"', ':', ' '] + render(es[0].1, depth) + (
        if es.len() > 1 {
            seq![',']
        } else {
            Seq::<char>::empty()
        }) + seq!['\n'] + render_obj_items(es.drop_first(), depth)
    }
}

} // verus!
