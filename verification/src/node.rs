//! The document tree.
//!
//! A [`Node`] owns one parsed JSON value together with the line and byte
//! counts of its own pretty-printed text.  Reads and mutations are
//! addressed by a selector, a slice of path segments resolved from the
//! root; every mutation repairs the cached counts of the nodes along the
//! resolved path only, so its cost is bounded by the depth of the path.
use vstd::pervasive::unreached;
use vstd::prelude::*;
use vstd::string::StringSliceAdditionalSpecFns;
use vstd::utf8::encode_utf8;

use crate::error::{IndexingError, LoadError, MutationError};
use crate::model::{
    apply_local, apply_mut, arr_bytes_sum, arr_lines_sum, bytes_of, has_key, has_key_except,
    key_index, keys_unique, lemma_arr_sum_index, lemma_arr_sum_insert, lemma_arr_sum_remove,
    lemma_arr_sum_prefix, lemma_arr_sum_push, lemma_obj_sum_prefix, lemma_obj_sum_push,
    lemma_parse_index_bounds, render, render_arr_items, render_obj_items, sp_indent,
    lemma_arr_sum_update, lemma_obj_sum_index, lemma_obj_sum_insert, lemma_obj_sum_remove,
    lemma_obj_sum_update_key, lemma_obj_sum_update_val, lines_of, model_wf, obj_bytes_sum,
    obj_lines_sum, parse_index, resolve, text_bytes, JsonV, KeyV, MutErrV, MutationV, Resolved,
    INDENT,
};
use crate::util::{parse_usize, str_byte_len, str_eq};

verus! {

broadcast use vstd::std_specs::vec::group_vec_axioms;

/// Shallow description of one node: its pretty-printed size and whether it
/// is a terminal, an array or an object.
#[derive(Debug, Clone, Copy, PartialEq, Eq, Structural)]
pub struct NodeMeta {
    pub n_lines: usize,
    pub n_bytes: usize,
    pub kind: NodeKind,
}

#[derive(Debug, Clone, Copy, PartialEq, Eq, Structural)]
pub enum NodeKind {
    Terminal,
    Object,
    Array,
}

impl NodeMeta {
    /// The metadata of the `null` document.
    pub fn null() -> (r: NodeMeta)
        ensures
            r == meta_of(JsonV::Null),
    {
        NodeMeta { n_lines: 1, n_bytes: 4, kind: NodeKind::Terminal }
    }
}

/// One-level shape of a node: the metadata plus what expansion would show.
#[derive(Debug)]
pub struct Index {
    pub meta: NodeMeta,
    pub kind: IndexKind,
}

#[derive(Debug)]
pub enum IndexKind {
    Terminal,
    Object(Vec<String>),
    Array(usize),
}

/// Where an inserted sibling gets its name from: the next array position,
/// or an explicit object key.
#[derive(Debug)]
pub enum AddNodeKey {
    Array,
    Object(String),
}

#[derive(Debug)]
pub(crate) enum Kind {
    Null,
    Bool(bool),
    Number(String),
    String(String),
    Array(Vec<Node>),
    Object(Vec<(String, Node)>),
}

/// A document subtree with its cached pretty-printed size.
#[derive(Debug)]
pub struct Node {
    pub(crate) n_lines: usize,
    pub(crate) n_bytes: usize,
    pub(crate) data: Kind,
}

impl View for Node {
    type V = JsonV;

    closed spec fn view(&self) -> JsonV
        decreases self,
    {
        match self.data {
            Kind::Null => JsonV::Null,
            Kind::Bool(b) => JsonV::Bool(b),
            Kind::Number(t) => JsonV::Num(t@),
            Kind::String(t) => JsonV::Str(t@),
            Kind::Array(cs) => JsonV::Arr(models_of(cs@)),
            Kind::Object(es) => JsonV::Obj(entry_models_of(es@)),
        }
    }
}

/// Models of a sequence of child nodes, in order.
pub closed spec fn models_of(cs: Seq<Node>) -> Seq<JsonV>
    decreases cs,
{
    if cs.len() == 0 {
        Seq::empty()
    } else {
        seq![cs[0]@] + models_of(cs.drop_first())
    }
}

/// Models of a sequence of object entries, in order.
pub closed spec fn entry_models_of(es: Seq<(String, Node)>) -> Seq<(Seq<char>, JsonV)>
    decreases es,
{
    if es.len() == 0 {
        Seq::empty()
    } else {
        seq![(es[0].0@, es[0].1@)] + entry_models_of(es.drop_first())
    }
}

pub broadcast proof fn lemma_models_of_len(cs: Seq<Node>)
    ensures
        (#[trigger] models_of(cs)).len() == cs.len(),
    decreases cs,
{
    if cs.len() > 0 {
        lemma_models_of_len(cs.drop_first());
        assert(models_of(cs) == seq![cs[0]@] + models_of(cs.drop_first()));
    } else {
        assert(models_of(cs) == Seq::<JsonV>::empty());
    }
}

pub broadcast proof fn lemma_models_of_index(cs: Seq<Node>, i: int)
    requires
        0 <= i < cs.len(),
    ensures
        #[trigger] models_of(cs)[i] == cs[i]@,
    decreases cs,
{
    lemma_models_of_len(cs);
    assert(models_of(cs) == seq![cs[0]@] + models_of(cs.drop_first()));
    if i > 0 {
        lemma_models_of_index(cs.drop_first(), i - 1);
        assert(models_of(cs)[i] == models_of(cs.drop_first())[i - 1]);
        assert(cs.drop_first()[i - 1] == cs[i]);
    }
}

pub broadcast proof fn lemma_entry_models_of_len(es: Seq<(String, Node)>)
    ensures
        (#[trigger] entry_models_of(es)).len() == es.len(),
    decreases es,
{
    if es.len() > 0 {
        lemma_entry_models_of_len(es.drop_first());
        assert(entry_models_of(es) == seq![(es[0].0@, es[0].1@)] + entry_models_of(
            es.drop_first(),
        ));
    } else {
        assert(entry_models_of(es) == Seq::<(Seq<char>, JsonV)>::empty());
    }
}

pub broadcast proof fn lemma_entry_models_of_index(es: Seq<(String, Node)>, i: int)
    requires
        0 <= i < es.len(),
    ensures
        #[trigger] entry_models_of(es)[i] == (es[i].0@, es[i].1@),
    decreases es,
{
    lemma_entry_models_of_len(es);
    assert(entry_models_of(es) == seq![(es[0].0@, es[0].1@)] + entry_models_of(es.drop_first()));
    if i > 0 {
        lemma_entry_models_of_index(es.drop_first(), i - 1);
        assert(entry_models_of(es)[i] == entry_models_of(es.drop_first())[i - 1]);
        assert(es.drop_first()[i - 1] == es[i]);
    }
}

pub broadcast group group_node_model_lemmas {
    lemma_models_of_len,
    lemma_models_of_index,
    lemma_entry_models_of_len,
    lemma_entry_models_of_index,
}

/// The views of a slice of selector segments.
pub open spec fn segs(ss: Seq<&str>) -> Seq<Seq<char>> {
    Seq::new(ss.len(), |i: int| ss[i]@)
}

/// The shallow metadata of a model.
pub open spec fn meta_of(v: JsonV) -> NodeMeta {
    NodeMeta {
        n_lines: lines_of(v) as usize,
        n_bytes: bytes_of(v) as usize,
        kind: kind_of(v),
    }
}

pub open spec fn kind_of(v: JsonV) -> NodeKind {
    match v {
        JsonV::Arr(_) => NodeKind::Array,
        JsonV::Obj(_) => NodeKind::Object,
        _ => NodeKind::Terminal,
    }
}

/// One resolution step: the child of `v` that `seg` names, if any.
pub open spec fn child_of(v: JsonV, seg: Seq<char>) -> Option<JsonV> {
    match v {
        JsonV::Arr(cs) => {
            match parse_index(seg) {
                Some(i) => {
                    if i < cs.len() {
                        Some(cs[i])
                    } else {
                        None
                    }
                },
                None => None,
            }
        },
        JsonV::Obj(es) => {
            if has_key(es, seg) {
                Some(es[key_index(es, seg)].1)
            } else {
                None
            }
        },
        _ => None,
    }
}

/// The metadata of every node from `v` along `path`, root first, cut short
/// at the first segment that does not resolve.
pub open spec fn metas_list(v: JsonV, path: Seq<Seq<char>>) -> Seq<NodeMeta>
    decreases path.len(),
{
    if path.len() == 0 {
        seq![meta_of(v)]
    } else {
        match child_of(v, path[0]) {
            Some(w) => seq![meta_of(v)] + metas_list(w, path.drop_first()),
            None => seq![meta_of(v)],
        }
    }
}

/// Whether an error value is the one a failed resolution calls for.
pub open spec fn indexing_err_for(res: Resolved, e: IndexingError) -> bool {
    match res {
        Resolved::Found(_) => false,
        Resolved::Missing(s) => e matches IndexingError::MissingKey(k) && k@ == s,
        Resolved::NotIndexable => e is NotIndexable,
    }
}

impl Node {
    /// Size caches along the whole tree agree with the model.
    pub closed spec fn sizes_ok(self) -> bool
        decreases self,
    {
        &&& self.n_lines == lines_of(self@)
        &&& self.n_bytes == bytes_of(self@)
        &&& match self.data {
            Kind::Array(cs) => forall|i: int|
                0 <= i < cs@.len() ==> (#[trigger] cs@[i]).sizes_ok(),
            Kind::Object(es) => forall|i: int|
                0 <= i < es@.len() ==> (#[trigger] es@[i]).1.sizes_ok(),
            _ => true,
        }
    }

    /// Well-formedness: correct size caches and no duplicate object keys.
    pub open spec fn wf(self) -> bool {
        self.sizes_ok() && model_wf(self@)
    }

    /// The `null` document.
    pub fn null() -> (r: Node)
        ensures
            r@ == JsonV::Null,
            r.wf(),
    {
        Node { n_lines: 1, n_bytes: 4, data: Kind::Null }
    }

    fn as_meta(&self) -> (r: NodeMeta)
        requires
            self.wf(),
        ensures
            r == meta_of(self@),
    {
        NodeMeta {
            n_lines: self.n_lines,
            n_bytes: self.n_bytes,
            kind: match &self.data {
                Kind::Array(_) => NodeKind::Array,
                Kind::Object(_) => NodeKind::Object,
                _ => NodeKind::Terminal,
            },
        }
    }

    /// The one-level shape of this node.
    pub fn as_index(&self) -> (r: Index)
        requires
            self.wf(),
        ensures
            r.meta == meta_of(self@),
            index_kind_matches(r.kind, self@),
    {
        broadcast use group_node_model_lemmas;

        let meta = self.as_meta();
        let kind = match &self.data {
            Kind::Array(nodes) => {
                proof {
                    lemma_models_of_len(nodes@);
                }
                IndexKind::Array(nodes.len())
            },
            Kind::Object(entries) => {
                let mut keys: Vec<String> = Vec::new();
                let n = entries.len();
                let mut i: usize = 0;
                while i < n
                    invariant
                        0 <= i <= n,
                        n == entries@.len(),
                        keys@.len() == i,
                        forall|j: int| 0 <= j < i ==> #[trigger] keys@[j]@ == entries@[j].0@,
                    decreases n - i,
                {
                    keys.push(entries[i].0.clone());
                    i = i + 1;
                }
                proof {
                    let es = entry_models_of(entries@);
                    lemma_entry_models_of_len(entries@);
                    assert forall|j: int| 0 <= j < es.len() implies #[trigger] keys@[j]@
                        == es[j].0 by {
                        lemma_entry_models_of_index(entries@, j);
                    }
                }
                IndexKind::Object(keys)
            },
            _ => IndexKind::Terminal,
        };
        Index { meta, kind }
    }
}

/// Whether an [`IndexKind`] describes the one-level shape of a model.
pub open spec fn index_kind_matches(k: IndexKind, v: JsonV) -> bool {
    match v {
        JsonV::Arr(cs) => k matches IndexKind::Array(n) && n == cs.len(),
        JsonV::Obj(es) => k matches IndexKind::Object(keys) && keys@.len() == es.len()
            && (forall|i: int| 0 <= i < es.len() ==> #[trigger] keys@[i]@ == es[i].0),
        _ => k is Terminal,
    }
}

impl Node {
    /// Finds the position of `seg` among the entry keys.
    #[verifier::loop_isolation(false)]
    fn find_key(entries: &Vec<(String, Node)>, seg: &str) -> (r: Option<usize>)
        ensures
            match r {
                Some(i) => 0 <= i < entries@.len() && key_index(
                    entry_models_of(entries@),
                    seg@,
                ) == i,
                None => key_index(entry_models_of(entries@), seg@) == -1,
            },
    {
        broadcast use group_node_model_lemmas;

        let n = entries.len();
        let mut i: usize = 0;
        while i < n
            invariant
                0 <= i <= n,
                n == entries@.len(),
                forall|j: int| 0 <= j < i ==> #[trigger] entries@[j].0@ != seg@,
            decreases n - i,
        {
            if str_eq(entries[i].0.as_str(), seg) {
                proof {
                    let es = entry_models_of(entries@);
                    lemma_entry_models_of_len(entries@);
                    lemma_entry_models_of_index(entries@, i as int);
                    assert forall|j: int| 0 <= j < i implies es[j].0 != seg@ by {
                        lemma_entry_models_of_index(entries@, j);
                    }
                    lemma_key_index_first(es, seg@, i as int);
                }
                return Some(i);
            }
            i = i + 1;
        }
        proof {
            let es = entry_models_of(entries@);
            lemma_entry_models_of_len(entries@);
            assert forall|j: int| 0 <= j < es.len() implies es[j].0 != seg@ by {
                lemma_entry_models_of_index(entries@, j);
            }
            lemma_key_index_none(es, seg@);
        }
        None
    }

    /// Read-only resolution of a selector.
    pub fn subtree<'a>(&'a self, selector: &[&str]) -> (r: Result<&'a Node, IndexingError>)
        requires
            self.wf(),
        ensures
            match resolve(self@, segs(selector@)) {
                Resolved::Found(w) => r matches Ok(nd) && nd@ == w && nd.wf(),
                res => r matches Err(e) && indexing_err_for(res, e),
            },
    {
        proof {
            assert(segs(selector@).skip(0) =~= segs(selector@));
        }
        self.subtree_at(selector, 0)
    }

    fn subtree_at<'a>(&'a self, selector: &[&str], pos: usize) -> (r: Result<
        &'a Node,
        IndexingError,
    >)
        requires
            self.wf(),
            pos <= selector@.len(),
        ensures
            match resolve(self@, segs(selector@).skip(pos as int)) {
                Resolved::Found(w) => r matches Ok(nd) && nd@ == w && nd.wf(),
                res => r matches Err(e) && indexing_err_for(res, e),
            },
        decreases selector@.len() - pos,
    {
        broadcast use group_node_model_lemmas;

        let ghost path = segs(selector@).skip(pos as int);
        if pos == selector.len() {
            return Ok(self);
        }
        proof {
            assert(path[0] == selector@[pos as int]@);
            assert(path.drop_first() =~= segs(selector@).skip(pos + 1));
        }
        let seg: &str = selector[pos];
        match &self.data {
            Kind::Array(nodes) => {
                proof {
                    lemma_models_of_len(nodes@);
                }
                match parse_usize(seg) {
                    Some(i) => {
                        if i < nodes.len() {
                            proof {
                                lemma_models_of_index(nodes@, i as int);
                                assert(nodes@[i as int].sizes_ok());
                                assert(model_wf(models_of(nodes@)[i as int]));
                            }
                            nodes[i].subtree_at(selector, pos + 1)
                        } else {
                            Err(IndexingError::MissingKey(seg.to_owned()))
                        }
                    },
                    None => Err(IndexingError::MissingKey(seg.to_owned())),
                }
            },
            Kind::Object(entries) => {
                proof {
                    lemma_entry_models_of_len(entries@);
                }
                match Self::find_key(entries, seg) {
                    Some(i) => {
                        proof {
                            let es = entry_models_of(entries@);
                            lemma_key_index_props(es, seg@);
                            lemma_entry_models_of_index(entries@, i as int);
                            assert(entries@[i as int].1.sizes_ok());
                            assert(model_wf(es[i as int].1));
                        }
                        entries[i].1.subtree_at(selector, pos + 1)
                    },
                    None => Err(IndexingError::MissingKey(seg.to_owned())),
                }
            },
            _ => Err(IndexingError::NotIndexable),
        }
    }

    /// The metadata of every node from the root to the target, root first.
    pub fn metas(&self, selector: &[&str]) -> (r: Result<Vec<NodeMeta>, IndexingError>)
        requires
            self.wf(),
        ensures
            match resolve(self@, segs(selector@)) {
                Resolved::Found(_) => r matches Ok(ms) && ms@ == metas_list(
                    self@,
                    segs(selector@),
                ),
                res => r matches Err(e) && indexing_err_for(res, e),
            },
    {
        proof {
            assert(segs(selector@).skip(0) =~= segs(selector@));
        }
        let mut out: Vec<NodeMeta> = Vec::new();
        match self.metas_at(selector, 0, &mut out) {
            Ok(()) => {
                proof {
                    assert(out@ =~= metas_list(self@, segs(selector@)));
                }
                Ok(out)
            },
            Err(e) => Err(e),
        }
    }

    fn metas_at(&self, selector: &[&str], pos: usize, out: &mut Vec<NodeMeta>) -> (r: Result<
        (),
        IndexingError,
    >)
        requires
            self.wf(),
            pos <= selector@.len(),
        ensures
            match resolve(self@, segs(selector@).skip(pos as int)) {
                Resolved::Found(_) => r matches Ok(()) && final(out)@ == old(out)@ + metas_list(
                    self@,
                    segs(selector@).skip(pos as int),
                ),
                res => r matches Err(e) && indexing_err_for(res, e),
            },
        decreases selector@.len() - pos,
    {
        broadcast use group_node_model_lemmas;

        let ghost path = segs(selector@).skip(pos as int);
        out.push(self.as_meta());
        if pos == selector.len() {
            proof {
                assert(out@ =~= old(out)@ + metas_list(self@, path));
            }
            return Ok(());
        }
        proof {
            assert(path[0] == selector@[pos as int]@);
            assert(path.drop_first() =~= segs(selector@).skip(pos + 1));
        }
        let seg: &str = selector[pos];
        match &self.data {
            Kind::Array(nodes) => {
                proof {
                    lemma_models_of_len(nodes@);
                }
                match parse_usize(seg) {
                    Some(i) => {
                        if i < nodes.len() {
                            proof {
                                lemma_models_of_index(nodes@, i as int);
                                assert(nodes@[i as int].sizes_ok());
                                assert(model_wf(models_of(nodes@)[i as int]));
                            }
                            let r = nodes[i].metas_at(selector, pos + 1, out);
                            proof {
                                if r is Ok {
                                    assert(out@ =~= old(out)@ + metas_list(self@, path));
                                }
                            }
                            r
                        } else {
                            Err(IndexingError::MissingKey(seg.to_owned()))
                        }
                    },
                    None => Err(IndexingError::MissingKey(seg.to_owned())),
                }
            },
            Kind::Object(entries) => {
                proof {
                    lemma_entry_models_of_len(entries@);
                }
                match Self::find_key(entries, seg) {
                    Some(i) => {
                        proof {
                            let es = entry_models_of(entries@);
                            lemma_key_index_props(es, seg@);
                            lemma_entry_models_of_index(entries@, i as int);
                            assert(entries@[i as int].1.sizes_ok());
                            assert(model_wf(es[i as int].1));
                        }
                        let r = entries[i].1.metas_at(selector, pos + 1, out);
                        proof {
                            if r is Ok {
                                assert(out@ =~= old(out)@ + metas_list(self@, path));
                            }
                        }
                        r
                    },
                    None => Err(IndexingError::MissingKey(seg.to_owned())),
                }
            },
            _ => Err(IndexingError::NotIndexable),
        }
    }
}

proof fn lemma_key_index_first(es: Seq<(Seq<char>, JsonV)>, k: Seq<char>, i: int)
    requires
        0 <= i < es.len(),
        es[i].0 == k,
        forall|j: int| 0 <= j < i ==> es[j].0 != k,
    ensures
        key_index(es, k) == i,
    decreases es,
{
    if i > 0 {
        lemma_key_index_first(es.drop_first(), k, i - 1);
    }
}

proof fn lemma_key_index_none(es: Seq<(Seq<char>, JsonV)>, k: Seq<char>)
    requires
        forall|j: int| 0 <= j < es.len() ==> es[j].0 != k,
    ensures
        key_index(es, k) == -1,
    decreases es,
{
    if es.len() > 0 {
        lemma_key_index_none(es.drop_first(), k);
    }
}

/// A well-formed tree's model sizes fit the machine word: they are the
/// very values its `usize` caches hold.
pub proof fn lemma_wf_size_bounds(n: Node)
    requires
        n.wf(),
    ensures
        bytes_of(n@) <= usize::MAX,
        lines_of(n@) <= usize::MAX,
{
    assert(n.n_bytes == bytes_of(n@));
    assert(n.n_lines == lines_of(n@));
}

/// Properties of a successful key lookup.
pub proof fn lemma_key_index_props(es: Seq<(Seq<char>, JsonV)>, k: Seq<char>)
    ensures
        key_index(es, k) == -1 ==> forall|j: int| 0 <= j < es.len() ==> es[j].0 != k,
        key_index(es, k) != -1 ==> {
            let i = key_index(es, k);
            &&& 0 <= i < es.len()
            &&& es[i].0 == k
            &&& forall|j: int| 0 <= j < i ==> es[j].0 != k
        },
    decreases es,
{
    if es.len() > 0 {
        let rest = es.drop_first();
        lemma_key_index_props(rest, k);
        assert(forall|j: int| 0 <= j < rest.len() ==> rest[j] == es[j + 1]);
        if es[0].0 != k {
            let ir = key_index(rest, k);
            if ir == -1 {
                assert forall|j: int| 0 <= j < es.len() implies es[j].0 != k by {
                    if j > 0 {
                        assert(es[j] == rest[j - 1]);
                    }
                }
            } else {
                assert(key_index(es, k) == 1 + ir);
                assert(es[1 + ir] == rest[ir]);
                assert forall|j: int| 0 <= j < 1 + ir implies es[j].0 != k by {
                    if j > 0 {
                        assert(es[j] == rest[j - 1]);
                    }
                }
            }
        }
    }
}

/// A mutation request, addressed to the node at the end of a selector.
pub enum NodeMutation<'a> {
    Replace(Node),
    Delete(&'a str),
    Append { after: &'a str, key: AddNodeKey, node: Node },
    Rename { before: &'a str, after: String },
}

impl View for AddNodeKey {
    type V = KeyV;

    open spec fn view(&self) -> KeyV {
        match self {
            AddNodeKey::Array => KeyV::Array,
            AddNodeKey::Object(k) => KeyV::Object(k@),
        }
    }
}

impl<'a> View for NodeMutation<'a> {
    type V = MutationV;

    open spec fn view(&self) -> MutationV {
        match self {
            NodeMutation::Replace(n) => MutationV::Replace(n@),
            NodeMutation::Delete(s) => MutationV::Delete(s@),
            NodeMutation::Append { after, key, node } => MutationV::Append {
                after: after@,
                key: key@,
                node: node@,
            },
            NodeMutation::Rename { before, after } => MutationV::Rename {
                before: before@,
                after: after@,
            },
        }
    }
}

impl<'a> NodeMutation<'a> {
    /// Any node carried by the mutation is itself well-formed.
    pub open spec fn wf(self) -> bool {
        match self {
            NodeMutation::Replace(n) => n.wf(),
            NodeMutation::Append { node, .. } => node.wf(),
            _ => true,
        }
    }
}

/// Whether an error value is the one the model calls for.
pub open spec fn mut_err_matches(me: MutationError, e: MutErrV) -> bool {
    match e {
        MutErrV::NotIndexable => me matches MutationError::Indexing(IndexingError::NotIndexable),
        MutErrV::Missing(s) => me matches MutationError::Indexing(IndexingError::MissingKey(k))
            && k@ == s,
        MutErrV::DuplicateKey => me is DuplicateKey,
        MutErrV::NotRenameable => me is NotRenameable,
    }
}

impl Node {
    fn mutate_here(&mut self, m: NodeMutation) -> (r: Result<Option<Node>, MutationError>)
        requires
            old(self).wf(),
            m.wf(),
            apply_local(old(self)@, m@) matches Ok(p) ==> bytes_of(p.0) <= usize::MAX
                && lines_of(p.0) <= usize::MAX,
        ensures
            match apply_local(old(self)@, m@) {
                Ok((nv, ex)) => {
                    &&& final(self)@ == nv
                    &&& final(self).wf()
                    &&& match ex {
                        Some(e) => r matches Ok(Some(xn)) && xn@ == e && xn.wf(),
                        None => r matches Ok(None),
                    }
                },
                Err(e) => {
                    &&& r matches Err(me) && mut_err_matches(me, e)
                    &&& final(self)@ == old(self)@
                    &&& final(self).wf()
                },
            },
    {
        match m {
            NodeMutation::Replace(mut new_node) => {
                core::mem::swap(self, &mut new_node);
                Ok(Some(new_node))
            },
            NodeMutation::Append { after, key: AddNodeKey::Array, node } => self.append_arr_here(
                after,
                node,
            ),
            NodeMutation::Append { after, key: AddNodeKey::Object(new_key), node } => self
                .append_obj_here(after, new_key, node),
            NodeMutation::Delete(seg) => self.delete_here(seg),
            NodeMutation::Rename { before, after } => self.rename_here(before, after),
        }
    }

    fn append_arr_here(&mut self, after: &str, node: Node) -> (r: Result<
        Option<Node>,
        MutationError,
    >)
        requires
            old(self).wf(),
            node.wf(),
            apply_local(
                old(self)@,
                MutationV::Append { after: after@, key: KeyV::Array, node: node@ },
            ) matches Ok(p) ==> bytes_of(p.0) <= usize::MAX && lines_of(p.0) <= usize::MAX,
        ensures
            match apply_local(
                old(self)@,
                MutationV::Append { after: after@, key: KeyV::Array, node: node@ },
            ) {
                Ok((nv, ex)) => {
                    &&& final(self)@ == nv
                    &&& final(self).wf()
                    &&& ex is None
                    &&& r matches Ok(None)
                },
                Err(e) => {
                    &&& r matches Err(me) && mut_err_matches(me, e)
                    &&& final(self)@ == old(self)@
                    &&& final(self).wf()
                },
            },
    {
        let mut data = Kind::Null;
        core::mem::swap(&mut data, &mut self.data);
        match data {

            Kind::Array(mut nodes) => {
                let ghost os = nodes@;
                proof {
                    lemma_models_of_len(os);
                }
                match parse_usize(after) {
                    Some(i) => {
                        if i < nodes.len() {
                            let ghost nseq = models_of(os).insert(i + 1, node@);
                            let ghost nv = JsonV::Arr(nseq);
                            proof {
                                lemma_arr_sum_insert(models_of(os), i + 1, node@);
                                lemma_arr_sum_index(nseq, i + 1);
                                assert(nseq[i + 1] == node@) by {
                                    models_of(os).insert_ensures(i + 1, node@);
                                }
                                assert(bytes_of(nv) <= usize::MAX);
                                assert(node.n_bytes + INDENT * node.n_lines + 2
                                    <= bytes_of(nv));
                            }
                            let ind = node.n_bytes + INDENT * node.n_lines;
                            self.n_lines = self.n_lines + node.n_lines;
                            self.n_bytes = self.n_bytes + ind + 2;
                            proof {
                                lemma_models_insert(os, i + 1, node);
                            }
                            nodes.insert(i + 1, node);
                            self.data = Kind::Array(nodes);
                            proof {
                                assert(self@ =~= nv);
                                os.insert_ensures(i + 1, node);
                                assert forall|j: int|
                                    0 <= j < nodes@.len() implies nodes@[j].sizes_ok() by {
                                    if j < i + 1 {
                                        assert(nodes@[j] == os[j]);
                                    } else if j > i + 1 {
                                        assert(nodes@[j] == os[j - 1]);
                                    }
                                }
                                assert(self.sizes_ok());
                                models_of(os).insert_ensures(i + 1, node@);
                                assert forall|j: int|
                                    0 <= j < nseq.len() implies model_wf(
                                    #[trigger] nseq[j],
                                ) by {
                                    if j < i + 1 {
                                        assert(nseq[j] == models_of(os)[j]);
                                    } else if j > i + 1 {
                                        assert(nseq[j] == models_of(os)[j - 1]);
                                    }
                                }
                                assert(model_wf(self@));
                            }
                            Ok(None)
                        } else {
                            self.data = Kind::Array(nodes);
                            Err(MutationError::Indexing(IndexingError::MissingKey(
                                after.to_owned(),
                            )))
                        }
                    },
                    None => {
                        self.data = Kind::Array(nodes);
                        Err(MutationError::Indexing(IndexingError::MissingKey(
                            after.to_owned(),
                        )))
                    },
                }
            },
            other => {
                self.data = other;
                Err(MutationError::Indexing(IndexingError::NotIndexable))
            },
        }
    }

    fn append_obj_here(&mut self, after: &str, new_key: String, node: Node) -> (r: Result<
        Option<Node>,
        MutationError,
    >)
        requires
            old(self).wf(),
            node.wf(),
            apply_local(
                old(self)@,
                MutationV::Append { after: after@, key: KeyV::Object(new_key@), node: node@ },
            ) matches Ok(p) ==> bytes_of(p.0) <= usize::MAX && lines_of(p.0) <= usize::MAX,
        ensures
            match apply_local(
                old(self)@,
                MutationV::Append { after: after@, key: KeyV::Object(new_key@), node: node@ },
            ) {
                Ok((nv, ex)) => {
                    &&& final(self)@ == nv
                    &&& final(self).wf()
                    &&& ex is None
                    &&& r matches Ok(None)
                },
                Err(e) => {
                    &&& r matches Err(me) && mut_err_matches(me, e)
                    &&& final(self)@ == old(self)@
                    &&& final(self).wf()
                },
            },
    {
        let ghost kview = new_key@;
        let mut data = Kind::Null;
        core::mem::swap(&mut data, &mut self.data);
        match data {

            Kind::Object(mut entries) => {
                let ghost os = entries@;
                let ghost es = entry_models_of(os);
                proof {
                    lemma_entry_models_of_len(os);
                }
                if let Some(_) = Self::find_key(&entries, new_key.as_str()) {
                    self.data = Kind::Object(entries);
                    return Err(MutationError::DuplicateKey);
                }
                match Self::find_key(&entries, after) {
                    Some(i) => {
                        let ghost nseq = es.insert(i + 1, (kview, node@));
                        let ghost nv = JsonV::Obj(nseq);
                        proof {
                            lemma_key_index_props(es, after@);
                            lemma_obj_sum_insert(es, i + 1, kview, node@);
                            lemma_obj_sum_index(nseq, i + 1);
                            assert(nseq[i + 1] == (kview, node@)) by {
                                es.insert_ensures(i + 1, (kview, node@));
                            }
                            assert(bytes_of(nv) <= usize::MAX);
                            assert(4 + text_bytes(kview) + node.n_bytes + INDENT
                                * node.n_lines <= obj_bytes_sum(nseq));
                        }
                        let ind = node.n_bytes + INDENT * node.n_lines;
                        let klen = new_key.as_str().len();
                        self.n_lines = self.n_lines + node.n_lines;
                        self.n_bytes = self.n_bytes + ind + klen + 6;
                        proof {
                            lemma_entries_insert(os, i + 1, (new_key, node));
                        }
                        entries.insert(i + 1, (new_key, node));
                        self.data = Kind::Object(entries);
                        proof {
                            assert(self@ =~= nv);
                            os.insert_ensures(i + 1, (new_key, node));
                            assert forall|j: int|
                                0 <= j < entries@.len() implies entries@[j].1.sizes_ok() by {
                                if j < i + 1 {
                                    assert(entries@[j] == os[j]);
                                } else if j > i + 1 {
                                    assert(entries@[j] == os[j - 1]);
                                }
                            }
                            assert(self.sizes_ok());
                            es.insert_ensures(i + 1, (kview, node@));
                            assert forall|j: int|
                                0 <= j < nseq.len() implies model_wf(
                                #[trigger] nseq[j].1,
                            ) by {
                                if j < i + 1 {
                                    assert(nseq[j] == es[j]);
                                } else if j > i + 1 {
                                    assert(nseq[j] == es[j - 1]);
                                }
                            }
                            assert forall|a: int, b: int|
                                0 <= a < b < nseq.len() implies nseq[a].0 != nseq[b].0 by {
                                lemma_key_index_props(es, kview);
                                if a < i + 1 {
                                    assert(nseq[a] == es[a]);
                                } else if a > i + 1 {
                                    assert(nseq[a] == es[a - 1]);
                                }
                                if b < i + 1 {
                                    assert(nseq[b] == es[b]);
                                } else if b > i + 1 {
                                    assert(nseq[b] == es[b - 1]);
                                }
                            }
                            assert(keys_unique(nseq));
                            assert(model_wf(self@));
                        }
                        Ok(None)
                    },
                    None => {
                        self.data = Kind::Object(entries);
                        Err(MutationError::Indexing(IndexingError::MissingKey(
                            after.to_owned(),
                        )))
                    },
                }
            },
            other => {
                self.data = other;
                Err(MutationError::Indexing(IndexingError::NotIndexable))
            },
        }
    }
}

/// Updating one child updates the model sequence pointwise.
proof fn lemma_models_update(os: Seq<Node>, i: int, c: Node)
    requires
        0 <= i < os.len(),
    ensures
        models_of(os.update(i, c)) =~= models_of(os).update(i, c@),
    decreases os,
{
    let u = os.update(i, c);
    lemma_models_of_len(os);
    lemma_models_of_len(u);
    if i == 0 {
        assert(u[0] == c);
        assert(u.drop_first() =~= os.drop_first());
        lemma_models_of_len(os.drop_first());
        assert(models_of(os) == seq![os[0]@] + models_of(os.drop_first()));
        assert(models_of(os).update(0, c@) =~= seq![c@] + models_of(os.drop_first()));
    } else {
        assert(u[0] == os[0]);
        assert(u.drop_first() =~= os.drop_first().update(i - 1, c));
        lemma_models_update(os.drop_first(), i - 1, c);
        lemma_models_of_len(os.drop_first());
        assert(models_of(os).update(i, c@) =~= seq![os[0]@] + models_of(os.drop_first()).update(
            i - 1,
            c@,
        ));
    }
}

/// Inserting a child inserts its model.
proof fn lemma_models_insert(os: Seq<Node>, i: int, c: Node)
    requires
        0 <= i <= os.len(),
    ensures
        models_of(os.insert(i, c)) =~= models_of(os).insert(i, c@),
    decreases os,
{
    let u = os.insert(i, c);
    lemma_models_of_len(os);
    lemma_models_of_len(u);
    os.insert_ensures(i, c);
    if i == 0 {
        assert(u[0] == c);
        assert(u.drop_first() =~= os);
        assert(models_of(os).insert(0, c@) =~= seq![c@] + models_of(os));
    } else {
        assert(u[0] == os[0]);
        assert(u.drop_first() =~= os.drop_first().insert(i - 1, c));
        lemma_models_insert(os.drop_first(), i - 1, c);
        lemma_models_of_len(os.drop_first());
        assert(models_of(os).insert(i, c@) =~= seq![os[0]@] + models_of(os.drop_first()).insert(
            i - 1,
            c@,
        ));
    }
}

/// Removing a child removes its model.
proof fn lemma_models_remove(os: Seq<Node>, i: int)
    requires
        0 <= i < os.len(),
    ensures
        models_of(os.remove(i)) =~= models_of(os).remove(i),
    decreases os,
{
    let u = os.remove(i);
    lemma_models_of_len(os);
    lemma_models_of_len(u);
    os.remove_ensures(i);
    if i == 0 {
        assert(u =~= os.drop_first());
        assert(models_of(os).remove(0) =~= models_of(os.drop_first()));
    } else {
        assert(u[0] == os[0]);
        assert(u.drop_first() =~= os.drop_first().remove(i - 1));
        lemma_models_remove(os.drop_first(), i - 1);
        lemma_models_of_len(os.drop_first());
        assert(models_of(os).remove(i) =~= seq![os[0]@] + models_of(os.drop_first()).remove(
            i - 1,
        ));
    }
}

/// Updating one entry updates the model sequence pointwise.
proof fn lemma_entries_update(es: Seq<(String, Node)>, i: int, e: (String, Node))
    requires
        0 <= i < es.len(),
    ensures
        entry_models_of(es.update(i, e)) =~= entry_models_of(es).update(i, (e.0@, e.1@)),
    decreases es,
{
    let u = es.update(i, e);
    lemma_entry_models_of_len(es);
    lemma_entry_models_of_len(u);
    if i == 0 {
        assert(u[0] == e);
        assert(u.drop_first() =~= es.drop_first());
        lemma_entry_models_of_len(es.drop_first());
        assert(entry_models_of(es) == seq![(es[0].0@, es[0].1@)] + entry_models_of(
            es.drop_first(),
        ));
        assert(entry_models_of(es).update(0, (e.0@, e.1@)) =~= seq![(e.0@, e.1@)]
            + entry_models_of(es.drop_first()));
    } else {
        assert(u[0] == es[0]);
        assert(u.drop_first() =~= es.drop_first().update(i - 1, e));
        lemma_entries_update(es.drop_first(), i - 1, e);
        lemma_entry_models_of_len(es.drop_first());
        assert(entry_models_of(es).update(i, (e.0@, e.1@)) =~= seq![(es[0].0@, es[0].1@)]
            + entry_models_of(es.drop_first()).update(i - 1, (e.0@, e.1@)));
    }
}

/// Inserting an entry inserts its model.
proof fn lemma_entries_insert(es: Seq<(String, Node)>, i: int, e: (String, Node))
    requires
        0 <= i <= es.len(),
    ensures
        entry_models_of(es.insert(i, e)) =~= entry_models_of(es).insert(i, (e.0@, e.1@)),
    decreases es,
{
    let u = es.insert(i, e);
    lemma_entry_models_of_len(es);
    lemma_entry_models_of_len(u);
    es.insert_ensures(i, e);
    if i == 0 {
        assert(u[0] == e);
        assert(u.drop_first() =~= es);
        assert(entry_models_of(es).insert(0, (e.0@, e.1@)) =~= seq![(e.0@, e.1@)]
            + entry_models_of(es));
    } else {
        assert(u[0] == es[0]);
        assert(u.drop_first() =~= es.drop_first().insert(i - 1, e));
        lemma_entries_insert(es.drop_first(), i - 1, e);
        lemma_entry_models_of_len(es.drop_first());
        assert(entry_models_of(es).insert(i, (e.0@, e.1@)) =~= seq![(es[0].0@, es[0].1@)]
            + entry_models_of(es.drop_first()).insert(i - 1, (e.0@, e.1@)));
    }
}

/// Removing an entry removes its model.
proof fn lemma_entries_remove(es: Seq<(String, Node)>, i: int)
    requires
        0 <= i < es.len(),
    ensures
        entry_models_of(es.remove(i)) =~= entry_models_of(es).remove(i),
    decreases es,
{
    let u = es.remove(i);
    lemma_entry_models_of_len(es);
    lemma_entry_models_of_len(u);
    es.remove_ensures(i);
    if i == 0 {
        assert(u =~= es.drop_first());
        assert(entry_models_of(es).remove(0) =~= entry_models_of(es.drop_first()));
    } else {
        assert(u[0] == es[0]);
        assert(u.drop_first() =~= es.drop_first().remove(i - 1));
        lemma_entries_remove(es.drop_first(), i - 1);
        lemma_entry_models_of_len(es.drop_first());
        assert(entry_models_of(es).remove(i) =~= seq![(es[0].0@, es[0].1@)] + entry_models_of(
            es.drop_first(),
        ).remove(i - 1));
    }
}

impl Node {
    fn delete_here(&mut self, seg: &str) -> (r: Result<Option<Node>, MutationError>)
        requires
            old(self).wf(),
        ensures
            match apply_local(old(self)@, MutationV::Delete(seg@)) {
                Ok((nv, ex)) => {
                    &&& final(self)@ == nv
                    &&& final(self).wf()
                    &&& match ex {
                        Some(e) => r matches Ok(Some(xn)) && xn@ == e && xn.wf(),
                        None => r matches Ok(None),
                    }
                },
                Err(e) => {
                    &&& r matches Err(me) && mut_err_matches(me, e)
                    &&& final(self)@ == old(self)@
                    &&& final(self).wf()
                },
            },
    {
        let mut data = Kind::Null;
        core::mem::swap(&mut data, &mut self.data);
        match data {
            Kind::Array(mut nodes) => {
                let ghost os = nodes@;
                proof {
                    lemma_models_of_len(os);
                }
                match parse_usize(seg) {
                    Some(i) => {
                        if i < nodes.len() {
                            let ghost nseq = models_of(os).remove(i as int);
                            let ghost nv = JsonV::Arr(nseq);
                            proof {
                                lemma_models_of_index(os, i as int);
                                lemma_arr_sum_remove(models_of(os), i as int);
                                lemma_arr_sum_index(models_of(os), i as int);
                            }
                            let removed = nodes.remove(i);
                            proof {
                                assert(removed == os[i as int]);
                                assert(os[i as int].sizes_ok());
                                assert(self.n_bytes == bytes_of(old(self)@));
                            }
                            if nodes.len() == 0 {
                                self.n_lines = 1;
                                self.n_bytes = 2;
                            } else {
                                let ind = removed.n_bytes + INDENT * removed.n_lines;
                                proof {
                                    assert(ind + 2 <= self.n_bytes);
                                }
                                self.n_lines = self.n_lines - removed.n_lines;
                                self.n_bytes = self.n_bytes - (ind + 2);
                            }
                            proof {
                                lemma_models_remove(os, i as int);
                            }
                            self.data = Kind::Array(nodes);
                            proof {
                                assert(self@ =~= nv);
                                os.remove_ensures(i as int);
                                assert forall|j: int|
                                    0 <= j < nodes@.len() implies nodes@[j].sizes_ok() by {
                                    if j < i {
                                        assert(nodes@[j] == os[j]);
                                    } else {
                                        assert(nodes@[j] == os[j + 1]);
                                    }
                                }
                                assert(self.sizes_ok());
                                models_of(os).remove_ensures(i as int);
                                assert forall|j: int|
                                    0 <= j < nseq.len() implies model_wf(#[trigger] nseq[j]) by {
                                    if j < i {
                                        assert(nseq[j] == models_of(os)[j]);
                                    } else {
                                        assert(nseq[j] == models_of(os)[j + 1]);
                                    }
                                }
                                assert(model_wf(self@));
                                assert(removed.sizes_ok());
                                assert(model_wf(removed@));
                            }
                            Ok(Some(removed))
                        } else {
                            self.data = Kind::Array(nodes);
                            Err(MutationError::Indexing(IndexingError::MissingKey(
                                seg.to_owned(),
                            )))
                        }
                    },
                    None => {
                        self.data = Kind::Array(nodes);
                        Err(MutationError::Indexing(IndexingError::MissingKey(seg.to_owned())))
                    },
                }
            },
            Kind::Object(mut entries) => {
                let ghost os = entries@;
                let ghost es = entry_models_of(os);
                proof {
                    lemma_entry_models_of_len(os);
                }
                match Self::find_key(&entries, seg) {
                    Some(i) => {
                        let ghost nseq = es.remove(i as int);
                        let ghost nv = JsonV::Obj(nseq);
                        proof {
                            lemma_key_index_props(es, seg@);
                            lemma_entry_models_of_index(os, i as int);
                            lemma_obj_sum_remove(es, i as int);
                            lemma_obj_sum_index(es, i as int);
                        }
                        let e = entries.remove(i);
                        proof {
                            assert(e == os[i as int]);
                            assert(os[i as int].1.sizes_ok());
                            assert(es[i as int] == (os[i as int].0@, os[i as int].1@));
                            assert(self.n_bytes == bytes_of(old(self)@));
                        }
                        if entries.len() == 0 {
                            self.n_lines = 1;
                            self.n_bytes = 2;
                        } else {
                            let ind = e.1.n_bytes + INDENT * e.1.n_lines;
                            let klen = str_byte_len(e.0.as_str());
                            proof {
                                assert(klen == text_bytes(es[i as int].0));
                                assert(ind + klen + 6 <= self.n_bytes);
                            }
                            self.n_lines = self.n_lines - e.1.n_lines;
                            self.n_bytes = self.n_bytes - (ind + klen + 6);
                        }
                        proof {
                            lemma_entries_remove(os, i as int);
                        }
                        self.data = Kind::Object(entries);
                        let removed = e.1;
                        proof {
                            assert(self@ =~= nv);
                            os.remove_ensures(i as int);
                            assert forall|j: int|
                                0 <= j < entries@.len() implies entries@[j].1.sizes_ok() by {
                                if j < i {
                                    assert(entries@[j] == os[j]);
                                } else {
                                    assert(entries@[j] == os[j + 1]);
                                }
                            }
                            assert(self.sizes_ok());
                            es.remove_ensures(i as int);
                            assert forall|j: int|
                                0 <= j < nseq.len() implies model_wf(#[trigger] nseq[j].1) by {
                                if j < i {
                                    assert(nseq[j] == es[j]);
                                } else {
                                    assert(nseq[j] == es[j + 1]);
                                }
                            }
                            assert forall|a: int, b: int|
                                0 <= a < b < nseq.len() implies nseq[a].0 != nseq[b].0 by {
                                if a < i {
                                    assert(nseq[a] == es[a]);
                                } else {
                                    assert(nseq[a] == es[a + 1]);
                                }
                                if b < i {
                                    assert(nseq[b] == es[b]);
                                } else {
                                    assert(nseq[b] == es[b + 1]);
                                }
                            }
                            assert(model_wf(self@));
                            assert(removed.sizes_ok());
                            assert(model_wf(removed@));
                        }
                        Ok(Some(removed))
                    },
                    None => {
                        self.data = Kind::Object(entries);
                        Err(MutationError::Indexing(IndexingError::MissingKey(seg.to_owned())))
                    },
                }
            },
            other => {
                self.data = other;
                Err(MutationError::Indexing(IndexingError::NotIndexable))
            },
        }
    }

    fn rename_here(&mut self, before: &str, after: String) -> (r: Result<
        Option<Node>,
        MutationError,
    >)
        requires
            old(self).wf(),
            apply_local(old(self)@, MutationV::Rename { before: before@, after: after@ })
                matches Ok(p) ==> bytes_of(p.0) <= usize::MAX,
        ensures
            match apply_local(old(self)@, MutationV::Rename { before: before@, after: after@ }) {
                Ok((nv, ex)) => {
                    &&& final(self)@ == nv
                    &&& final(self).wf()
                    &&& ex is None
                    &&& r matches Ok(None)
                },
                Err(e) => {
                    &&& r matches Err(me) && mut_err_matches(me, e)
                    &&& final(self)@ == old(self)@
                    &&& final(self).wf()
                },
            },
    {
        let ghost aview = after@;
        let mut data = Kind::Null;
        core::mem::swap(&mut data, &mut self.data);
        match data {
            Kind::Object(mut entries) => {
                let ghost os = entries@;
                let ghost es = entry_models_of(os);
                proof {
                    lemma_entry_models_of_len(os);
                    lemma_key_index_props(es, before@);
                    lemma_key_index_props(es, aview);
                }
                let iopt = Self::find_key(&entries, before);
                let jopt = Self::find_key(&entries, after.as_str());
                let ghost gi = key_index(es, before@);
                let dup: bool = match (&iopt, &jopt) {
                    (_, Option::None) => false,
                    (Option::Some(i), Option::Some(j)) => *i != *j,
                    (Option::None, Option::Some(_)) => true,
                };
                proof {
                    if dup {
                        assert(has_key_except(es, aview, gi));
                    } else {
                        if jopt is Some {
                            assert forall|j: int|
                                0 <= j < es.len() && j != gi implies es[j].0 != aview by {
                                if es[j].0 == aview {
                                    assert(keys_unique(es));
                                }
                            }
                        }
                        assert(!has_key_except(es, aview, gi));
                    }
                }
                if dup {
                    self.data = Kind::Object(entries);
                    return Err(MutationError::DuplicateKey);
                }
                match iopt {
                    Some(i) => {
                        let ghost nseq = es.update(i as int, (aview, es[i as int].1));
                        let ghost nv = JsonV::Obj(nseq);
                        proof {
                            lemma_entry_models_of_index(os, i as int);
                            lemma_obj_sum_update_key(es, i as int, aview);
                            lemma_obj_sum_index(es, i as int);
                        }
                        let mut e = entries.remove(i);
                        proof {
                            assert(e == os[i as int]);
                            assert(es[i as int] == (os[i as int].0@, os[i as int].1@));
                            assert(self.n_bytes == bytes_of(old(self)@));
                        }
                        let blen = str_byte_len(e.0.as_str());
                        let alen = str_byte_len(after.as_str());
                        proof {
                            assert(blen == text_bytes(es[i as int].0));
                            assert(alen == text_bytes(aview));
                            assert(self.n_bytes >= blen);
                            assert(bytes_of(nv) == bytes_of(old(self)@) - text_bytes(
                                es[i as int].0,
                            ) + text_bytes(aview));
                            assert(bytes_of(nv) <= usize::MAX);
                        }
                        e.0 = after;
                        let ghost enew = e;
                        entries.insert(i, e);
                        self.n_bytes = self.n_bytes - blen + alen;
                        self.data = Kind::Object(entries);
                        proof {
                            assert(entries@ =~= os.update(i as int, enew));
                            lemma_entries_update(os, i as int, enew);
                            assert(self@ =~= nv);
                            assert forall|j: int|
                                0 <= j < entries@.len() implies entries@[j].1.sizes_ok() by {
                                if j != i {
                                    assert(entries@[j] == os[j]);
                                }
                            }
                            assert(self.sizes_ok());
                            assert forall|j: int|
                                0 <= j < nseq.len() implies model_wf(#[trigger] nseq[j].1) by {
                                if j != i {
                                    assert(nseq[j] == es[j]);
                                }
                            }
                            assert forall|a: int, b: int|
                                0 <= a < b < nseq.len() implies nseq[a].0 != nseq[b].0 by {
                                if a != i {
                                    assert(nseq[a] == es[a]);
                                }
                                if b != i {
                                    assert(nseq[b] == es[b]);
                                }
                            }
                            assert(model_wf(self@));
                        }
                        Ok(None)
                    },
                    None => {
                        self.data = Kind::Object(entries);
                        Err(MutationError::Indexing(IndexingError::MissingKey(
                            before.to_owned(),
                        )))
                    },
                }
            },
            Kind::Array(nodes) => {
                self.data = Kind::Array(nodes);
                Err(MutationError::NotRenameable)
            },
            other => {
                self.data = other;
                Err(MutationError::Indexing(IndexingError::NotIndexable))
            },
        }
    }
}

impl Node {
    #[verifier::rlimit(100)]
    #[verifier::spinoff_prover]
    fn mutate(&mut self, selector: &[&str], pos: usize, m: NodeMutation) -> (r: Result<
        Option<Node>,
        MutationError,
    >)
        requires
            old(self).wf(),
            pos <= selector@.len(),
            m.wf(),
            apply_mut(old(self)@, segs(selector@).skip(pos as int), m@) matches Ok(p)
                ==> bytes_of(p.0) <= usize::MAX && lines_of(p.0) <= usize::MAX,
        ensures
            match apply_mut(old(self)@, segs(selector@).skip(pos as int), m@) {
                Ok((nv, ex)) => {
                    &&& final(self)@ == nv
                    &&& final(self).wf()
                    &&& match ex {
                        Some(e) => r matches Ok(Some(xn)) && xn@ == e && xn.wf(),
                        None => r matches Ok(None),
                    }
                },
                Err(e) => {
                    &&& r matches Err(me) && mut_err_matches(me, e)
                    &&& final(self)@ == old(self)@
                    &&& final(self).wf()
                },
            },
        decreases selector@.len() - pos,
    {
        let ghost path = segs(selector@).skip(pos as int);
        let ghost gm = m@;
        if pos == selector.len() {
            return self.mutate_here(m);
        }
        proof {
            assert(path[0] == selector@[pos as int]@);
            assert(path.drop_first() =~= segs(selector@).skip(pos + 1));
        }
        let seg: &str = selector[pos];
        let mut data = Kind::Null;
        core::mem::swap(&mut data, &mut self.data);
        match data {
            Kind::Array(mut nodes) => {
                let ghost os = nodes@;
                proof {
                    lemma_models_of_len(os);
                    assert(old(self)@ == JsonV::Arr(models_of(os)));
                }
                match parse_usize(seg) {
                    Some(i) => {
                        if i < nodes.len() {
                            proof {
                                lemma_models_of_index(os, i as int);
                                lemma_arr_sum_index(models_of(os), i as int);
                                assert(os[i as int].sizes_ok());
                                assert(model_wf(models_of(os)[i as int]));
                                match apply_mut(os[i as int]@, path.drop_first(), gm) {
                                    Ok(p) => {
                                        lemma_arr_sum_update(models_of(os), i as int, p.0);
                                        lemma_arr_sum_index(
                                            models_of(os).update(i as int, p.0),
                                            i as int,
                                        );
                                        assert(bytes_of(p.0) <= usize::MAX);
                                        assert(lines_of(p.0) <= usize::MAX);
                                    },
                                    Err(_) => {},
                                }
                            }
                            let mut child = nodes.remove(i);
                            proof {
                                assert(child == os[i as int]);
                                assert(self.n_bytes == bytes_of(old(self)@));
                                assert(self.n_lines == lines_of(old(self)@));
                            }
                            let old_lines = child.n_lines;
                            let old_ind = child.n_bytes + INDENT * child.n_lines;
                            let res = child.mutate(selector, pos + 1, m);
                            match res {
                                Ok(ex) => {
                                    let ghost nc = child@;
                                    let ghost nseq = models_of(os).update(i as int, nc);
                                    let ghost nv = JsonV::Arr(nseq);
                                    proof {
                                        lemma_arr_sum_update(models_of(os), i as int, nc);
                                        lemma_arr_sum_index(nseq, i as int);
                                        assert(nseq[i as int] == nc);
                                        assert(bytes_of(nv) <= usize::MAX);
                                        assert(lines_of(nv) <= usize::MAX);
                                    }
                                    let new_lines = child.n_lines;
                                    let new_ind = child.n_bytes + INDENT * child.n_lines;
                                    self.n_lines = self.n_lines - old_lines + new_lines;
                                    self.n_bytes = self.n_bytes - old_ind + new_ind;
                                    let ghost childg = child;
                                    nodes.insert(i, child);
                                    self.data = Kind::Array(nodes);
                                    proof {
                                        assert(nodes@ =~= os.update(i as int, childg));
                                        lemma_models_update(os, i as int, childg);
                                        assert(self@ =~= nv);
                                        os.insert_ensures(i as int, childg);
                                        assert forall|j: int|
                                            0 <= j < nodes@.len() implies nodes@[j].sizes_ok() by {
                                            if j != i {
                                                assert(nodes@[j] == os[j]);
                                            }
                                        }
                                        assert(self.sizes_ok());
                                        assert forall|j: int|
                                            0 <= j < nseq.len() implies model_wf(
                                            #[trigger] nseq[j],
                                        ) by {
                                            if j != i {
                                                assert(nseq[j] == models_of(os)[j]);
                                            }
                                        }
                                        assert(model_wf(self@));
                                    }
                                    Ok(ex)
                                },
                                Err(e) => {
                                    let ghost childg = child;
                                    nodes.insert(i, child);
                                    self.data = Kind::Array(nodes);
                                    proof {
                                        assert(nodes@ =~= os.update(i as int, childg));
                                        lemma_models_update(os, i as int, childg);
                                        assert(models_of(os).update(i as int, childg@)
                                            =~= models_of(os));
                                        assert(self@ =~= old(self)@);
                                        assert forall|j: int|
                                            0 <= j < nodes@.len() implies nodes@[j].sizes_ok() by {
                                            if j != i {
                                                assert(nodes@[j] == os[j]);
                                            }
                                        }
                                        assert(self.sizes_ok());
                                        assert(model_wf(self@));
                                    }
                                    Err(e)
                                },
                            }
                        } else {
                            self.data = Kind::Array(nodes);
                            Err(MutationError::Indexing(IndexingError::MissingKey(
                                seg.to_owned(),
                            )))
                        }
                    },
                    None => {
                        self.data = Kind::Array(nodes);
                        Err(MutationError::Indexing(IndexingError::MissingKey(seg.to_owned())))
                    },
                }
            },
            Kind::Object(mut entries) => {
                let ghost os = entries@;
                let ghost es = entry_models_of(os);
                proof {
                    lemma_entry_models_of_len(os);
                    assert(old(self)@ == JsonV::Obj(es));
                }
                match Self::find_key(&entries, seg) {
                    Some(i) => {
                        proof {
                            lemma_key_index_props(es, seg@);
                            lemma_entry_models_of_index(os, i as int);
                            lemma_obj_sum_index(es, i as int);
                            assert(os[i as int].1.sizes_ok());
                            assert(model_wf(es[i as int].1));
                            match apply_mut(es[i as int].1, path.drop_first(), gm) {
                                Ok(p) => {
                                    lemma_obj_sum_update_val(es, i as int, p.0);
                                    lemma_obj_sum_index(
                                        es.update(i as int, (es[i as int].0, p.0)),
                                        i as int,
                                    );
                                    assert(bytes_of(p.0) <= usize::MAX);
                                    assert(lines_of(p.0) <= usize::MAX);
                                },
                                Err(_) => {},
                            }
                        }
                        let e = entries.remove(i);
                        let ekey = e.0;
                        let mut child = e.1;
                        proof {
                            assert((ekey, child) == os[i as int]);
                            assert(self.n_bytes == bytes_of(old(self)@));
                            assert(self.n_lines == lines_of(old(self)@));
                        }
                        let old_lines = child.n_lines;
                        let old_ind = child.n_bytes + INDENT * child.n_lines;
                        let res = child.mutate(selector, pos + 1, m);
                        match res {
                            Ok(ex) => {
                                let ghost nc = child@;
                                let ghost nseq = es.update(i as int, (es[i as int].0, nc));
                                let ghost nv = JsonV::Obj(nseq);
                                proof {
                                    lemma_obj_sum_update_val(es, i as int, nc);
                                    lemma_obj_sum_index(nseq, i as int);
                                    assert(nseq[i as int] == (es[i as int].0, nc));
                                    assert(bytes_of(nv) <= usize::MAX);
                                    assert(lines_of(nv) <= usize::MAX);
                                }
                                let new_lines = child.n_lines;
                                let new_ind = child.n_bytes + INDENT * child.n_lines;
                                self.n_lines = self.n_lines - old_lines + new_lines;
                                self.n_bytes = self.n_bytes - old_ind + new_ind;
                                let ghost childg = child;
                                entries.insert(i, (ekey, child));
                                self.data = Kind::Object(entries);
                                proof {
                                    assert(entries@ =~= os.update(
                                        i as int,
                                        (os[i as int].0, childg),
                                    ));
                                    lemma_entries_update(os, i as int, (os[i as int].0, childg));
                                    assert(self@ =~= nv);
                                    assert forall|j: int|
                                        0 <= j < entries@.len() implies entries@[j].1.sizes_ok() by {
                                        if j != i {
                                            assert(entries@[j] == os[j]);
                                        }
                                    }
                                    assert(self.sizes_ok());
                                    assert forall|j: int|
                                        0 <= j < nseq.len() implies model_wf(
                                        #[trigger] nseq[j].1,
                                    ) by {
                                        if j != i {
                                            assert(nseq[j] == es[j]);
                                        }
                                    }
                                    assert forall|a: int, b: int|
                                        0 <= a < b < nseq.len() implies nseq[a].0 != nseq[b].0 by {
                                        if a != i {
                                            assert(nseq[a] == es[a]);
                                        }
                                        if b != i {
                                            assert(nseq[b] == es[b]);
                                        }
                                    }
                                    assert(model_wf(self@));
                                }
                                Ok(ex)
                            },
                            Err(e2) => {
                                let ghost childg = child;
                                entries.insert(i, (ekey, child));
                                self.data = Kind::Object(entries);
                                proof {
                                    assert(entries@ =~= os.update(
                                        i as int,
                                        (os[i as int].0, childg),
                                    ));
                                    lemma_entries_update(os, i as int, (os[i as int].0, childg));
                                    assert(entry_models_of(os).update(
                                        i as int,
                                        (os[i as int].0@, childg@),
                                    ) =~= es);
                                    assert(self@ =~= old(self)@);
                                    assert forall|j: int|
                                        0 <= j < entries@.len() implies entries@[j].1.sizes_ok() by {
                                        if j != i {
                                            assert(entries@[j] == os[j]);
                                        }
                                    }
                                    assert(self.sizes_ok());
                                    assert(model_wf(self@));
                                }
                                Err(e2)
                            },
                        }
                    },
                    None => {
                        self.data = Kind::Object(entries);
                        Err(MutationError::Indexing(IndexingError::MissingKey(seg.to_owned())))
                    },
                }
            },
            other => {
                self.data = other;
                Err(MutationError::Indexing(IndexingError::NotIndexable))
            },
        }
    }
}

/// The meaning of [`Node::replace`]: swap the addressed subtree.
pub open spec fn spec_replace(v: JsonV, sel: Seq<Seq<char>>, w: JsonV) -> Result<
    (JsonV, Option<JsonV>),
    MutErrV,
> {
    apply_mut(v, sel, MutationV::Replace(w))
}

/// The meaning of [`Node::delete`]: remove the addressed entry from its
/// parent.  The root itself cannot be deleted.
pub open spec fn spec_delete(v: JsonV, sel: Seq<Seq<char>>) -> Result<
    (JsonV, Option<JsonV>),
    MutErrV,
> {
    if sel.len() == 0 {
        Err(MutErrV::NotIndexable)
    } else {
        apply_mut(v, sel.drop_last(), MutationV::Delete(sel.last()))
    }
}

/// The meaning of [`Node::append_after`]: insert a sibling right after the
/// addressed entry.
pub open spec fn spec_append(v: JsonV, sel: Seq<Seq<char>>, key: KeyV, w: JsonV) -> Result<
    (JsonV, Option<JsonV>),
    MutErrV,
> {
    if sel.len() == 0 {
        Err(MutErrV::NotIndexable)
    } else {
        apply_mut(v, sel.drop_last(), MutationV::Append { after: sel.last(), key, node: w })
    }
}

/// The meaning of [`Node::rename`]: give the addressed object entry a new
/// key, in place.
pub open spec fn spec_rename(v: JsonV, sel: Seq<Seq<char>>, name: Seq<char>) -> Result<
    (JsonV, Option<JsonV>),
    MutErrV,
> {
    if sel.len() == 0 {
        Err(MutErrV::NotIndexable)
    } else {
        apply_mut(v, sel.drop_last(), MutationV::Rename { before: sel.last(), after: name })
    }
}

/// A replace or a delete that succeeds always extracts a subtree.
proof fn lemma_apply_mut_extracts(v: JsonV, p: Seq<Seq<char>>, m: MutationV)
    requires
        m is Replace || m is Delete,
    ensures
        apply_mut(v, p, m) matches Ok(pr) ==> pr.1 is Some,
    decreases p.len(),
{
    if p.len() > 0 {
        match v {
            JsonV::Arr(cs) => {
                match parse_index(p[0]) {
                    Some(i) => {
                        if i < cs.len() {
                            lemma_apply_mut_extracts(cs[i], p.drop_first(), m);
                        }
                    },
                    None => {},
                }
            },
            JsonV::Obj(es) => {
                if has_key(es, p[0]) {
                    lemma_apply_mut_extracts(es[key_index(es, p[0])].1, p.drop_first(), m);
                }
            },
            _ => {},
        }
    }
}

/// A delete never grows the document.
proof fn lemma_delete_shrinks(v: JsonV, p: Seq<Seq<char>>, m: MutationV)
    requires
        m is Delete,
    ensures
        apply_mut(v, p, m) matches Ok(pr) ==> bytes_of(pr.0) <= bytes_of(v) && lines_of(pr.0)
            <= lines_of(v),
    decreases p.len(),
{
    if p.len() == 0 {
        let seg = m->Delete_0;
        match v {
            JsonV::Arr(cs) => {
                lemma_parse_index_bounds(seg);
                match parse_index(seg) {
                    Some(i) => {
                        if i < cs.len() {
                            lemma_arr_sum_remove(cs, i);
                            lemma_arr_sum_index(cs, i);
                        }
                    },
                    None => {},
                }
            },
            JsonV::Obj(es) => {
                if has_key(es, seg) {
                    lemma_key_index_props(es, seg);
                    lemma_obj_sum_remove(es, key_index(es, seg));
                    lemma_obj_sum_index(es, key_index(es, seg));
                }
            },
            _ => {},
        }
    } else {
        match v {
            JsonV::Arr(cs) => {
                lemma_parse_index_bounds(p[0]);
                match parse_index(p[0]) {
                    Some(i) => {
                        if i < cs.len() {
                            lemma_delete_shrinks(cs[i], p.drop_first(), m);
                            match apply_mut(cs[i], p.drop_first(), m) {
                                Ok(pr) => {
                                    lemma_arr_sum_update(cs, i, pr.0);
                                    lemma_arr_sum_index(cs, i);
                                },
                                Err(_) => {},
                            }
                        }
                    },
                    None => {},
                }
            },
            JsonV::Obj(es) => {
                if has_key(es, p[0]) {
                    lemma_key_index_props(es, p[0]);
                    let i = key_index(es, p[0]);
                    lemma_delete_shrinks(es[i].1, p.drop_first(), m);
                    match apply_mut(es[i].1, p.drop_first(), m) {
                        Ok(pr) => {
                            lemma_obj_sum_update_val(es, i, pr.0);
                            lemma_obj_sum_index(es, i);
                        },
                        Err(_) => {},
                    }
                }
            },
            _ => {},
        }
    }
}

/// A rename never changes how many lines the document spans.
proof fn lemma_rename_keeps_lines(v: JsonV, p: Seq<Seq<char>>, m: MutationV)
    requires
        m is Rename,
    ensures
        apply_mut(v, p, m) matches Ok(pr) ==> lines_of(pr.0) == lines_of(v),
    decreases p.len(),
{
    if p.len() == 0 {
        match v {
            JsonV::Obj(es) => {
                lemma_key_index_props(es, m->Rename_before);
                let i = key_index(es, m->Rename_before);
                if !has_key_except(es, m->Rename_after, i) && i != -1 {
                    lemma_obj_sum_update_key(es, i, m->Rename_after);
                }
            },
            _ => {},
        }
    } else {
        match v {
            JsonV::Arr(cs) => {
                lemma_parse_index_bounds(p[0]);
                match parse_index(p[0]) {
                    Some(i) => {
                        if i < cs.len() {
                            lemma_rename_keeps_lines(cs[i], p.drop_first(), m);
                            match apply_mut(cs[i], p.drop_first(), m) {
                                Ok(pr) => {
                                    lemma_arr_sum_update(cs, i, pr.0);
                                },
                                Err(_) => {},
                            }
                        }
                    },
                    None => {},
                }
            },
            JsonV::Obj(es) => {
                if has_key(es, p[0]) {
                    lemma_key_index_props(es, p[0]);
                    let i = key_index(es, p[0]);
                    lemma_rename_keeps_lines(es[i].1, p.drop_first(), m);
                    match apply_mut(es[i].1, p.drop_first(), m) {
                        Ok(pr) => {
                            lemma_obj_sum_update_val(es, i, pr.0);
                        },
                        Err(_) => {},
                    }
                }
            },
            _ => {},
        }
    }
}

impl Node {
    /// Swaps the subtree at the selector for `node` and hands back the old
    /// subtree.  Every node on the path gets its cached sizes repaired.
    pub fn replace(&mut self, selector: &[&str], node: Node) -> (r: Result<Node, MutationError>)
        requires
            old(self).wf(),
            node.wf(),
            spec_replace(old(self)@, segs(selector@), node@) matches Ok(p) ==> bytes_of(p.0)
                <= usize::MAX && lines_of(p.0) <= usize::MAX,
        ensures
            match spec_replace(old(self)@, segs(selector@), node@) {
                Ok((nv, ex)) => {
                    &&& r matches Ok(n) && ex == Some(n@) && n.wf()
                    &&& final(self)@ == nv
                    &&& final(self).wf()
                },
                Err(e) => {
                    &&& r matches Err(me) && mut_err_matches(me, e)
                    &&& final(self)@ == old(self)@
                    &&& final(self).wf()
                },
            },
    {
        proof {
            assert(segs(selector@).skip(0) =~= segs(selector@));
            lemma_apply_mut_extracts(self@, segs(selector@), MutationV::Replace(node@));
        }
        match self.mutate(selector, 0, NodeMutation::Replace(node)) {
            Ok(Some(n)) => Ok(n),
            Ok(None) => unreached(),
            Err(e) => Err(e),
        }
    }

    /// Removes the entry the selector addresses from its parent and hands
    /// it back.  The selector must not be empty: the root has no parent.
    pub fn delete(&mut self, selector: &[&str]) -> (r: Result<Node, MutationError>)
        requires
            old(self).wf(),
        ensures
            match spec_delete(old(self)@, segs(selector@)) {
                Ok((nv, ex)) => {
                    &&& r matches Ok(n) && ex == Some(n@) && n.wf()
                    &&& final(self)@ == nv
                    &&& final(self).wf()
                },
                Err(e) => {
                    &&& r matches Err(me) && mut_err_matches(me, e)
                    &&& final(self)@ == old(self)@
                    &&& final(self).wf()
                },
            },
    {
        let len = selector.len();
        if len == 0 {
            return Err(MutationError::Indexing(IndexingError::NotIndexable));
        }
        let sub: &[&str] = &selector[0..len - 1];
        let seg: &str = selector[len - 1];
        let ghost gm = MutationV::Delete(seg@);
        proof {
            assert(segs(sub@) =~= segs(selector@).drop_last());
            assert(seg@ == segs(selector@).last());
            assert(segs(sub@).skip(0) =~= segs(sub@));
            lemma_delete_shrinks(self@, segs(sub@), gm);
            lemma_apply_mut_extracts(self@, segs(sub@), gm);
        }
        match self.mutate(sub, 0, NodeMutation::Delete(seg)) {
            Ok(Some(n)) => Ok(n),
            Ok(None) => unreached(),
            Err(e) => Err(e),
        }
    }

    /// Inserts `node` as the sibling right after the entry the selector
    /// addresses, named by the next array position or by the given key.
    pub fn append_after(&mut self, selector: &[&str], key: AddNodeKey, node: Node) -> (r: Result<
        (),
        MutationError,
    >)
        requires
            old(self).wf(),
            node.wf(),
            spec_append(old(self)@, segs(selector@), key@, node@) matches Ok(p) ==> bytes_of(p.0)
                <= usize::MAX && lines_of(p.0) <= usize::MAX,
        ensures
            match spec_append(old(self)@, segs(selector@), key@, node@) {
                Ok((nv, _)) => {
                    &&& r matches Ok(())
                    &&& final(self)@ == nv
                    &&& final(self).wf()
                },
                Err(e) => {
                    &&& r matches Err(me) && mut_err_matches(me, e)
                    &&& final(self)@ == old(self)@
                    &&& final(self).wf()
                },
            },
    {
        let len = selector.len();
        if len == 0 {
            return Err(MutationError::Indexing(IndexingError::NotIndexable));
        }
        let sub: &[&str] = &selector[0..len - 1];
        let seg: &str = selector[len - 1];
        proof {
            assert(segs(sub@) =~= segs(selector@).drop_last());
            assert(seg@ == segs(selector@).last());
            assert(segs(sub@).skip(0) =~= segs(sub@));
        }
        match self.mutate(sub, 0, NodeMutation::Append { after: seg, key, node }) {
            Ok(_) => Ok(()),
            Err(e) => Err(e),
        }
    }

    /// Gives the object entry the selector addresses a new key, keeping its
    /// position.  Renaming an entry to the key it already has succeeds and
    /// changes nothing.
    pub fn rename(&mut self, selector: &[&str], new_name: String) -> (r: Result<
        (),
        MutationError,
    >)
        requires
            old(self).wf(),
            spec_rename(old(self)@, segs(selector@), new_name@) matches Ok(p) ==> bytes_of(p.0)
                <= usize::MAX,
        ensures
            match spec_rename(old(self)@, segs(selector@), new_name@) {
                Ok((nv, _)) => {
                    &&& r matches Ok(())
                    &&& final(self)@ == nv
                    &&& final(self).wf()
                },
                Err(e) => {
                    &&& r matches Err(me) && mut_err_matches(me, e)
                    &&& final(self)@ == old(self)@
                    &&& final(self).wf()
                },
            },
    {
        let len = selector.len();
        if len == 0 {
            return Err(MutationError::Indexing(IndexingError::NotIndexable));
        }
        let sub: &[&str] = &selector[0..len - 1];
        let seg: &str = selector[len - 1];
        let ghost gm = MutationV::Rename { before: seg@, after: new_name@ };
        proof {
            assert(segs(sub@) =~= segs(selector@).drop_last());
            assert(seg@ == segs(selector@).last());
            assert(segs(sub@).skip(0) =~= segs(sub@));
            lemma_rename_keeps_lines(self@, segs(sub@), gm);
        }
        match self.mutate(sub, 0, NodeMutation::Rename { before: seg, after: new_name }) {
            Ok(_) => Ok(()),
            Err(e) => Err(e),
        }
    }
}

/// The parse tree a JSON document decodes to: the same shape as the
/// document model, carried by plain executable values.
pub enum RawJson {
    Null,
    Bool(bool),
    Num(String),
    Str(String),
    Arr(Vec<RawJson>),
    Obj(Vec<(String, RawJson)>),
}

impl View for RawJson {
    type V = JsonV;

    closed spec fn view(&self) -> JsonV
        decreases self,
    {
        match self {
            RawJson::Null => JsonV::Null,
            RawJson::Bool(b) => JsonV::Bool(*b),
            RawJson::Num(t) => JsonV::Num(t@),
            RawJson::Str(t) => JsonV::Str(t@),
            RawJson::Arr(cs) => JsonV::Arr(raw_models_of(cs@)),
            RawJson::Obj(es) => JsonV::Obj(raw_entry_models_of(es@)),
        }
    }
}

/// Models of a sequence of raw children, in order.
pub closed spec fn raw_models_of(cs: Seq<RawJson>) -> Seq<JsonV>
    decreases cs,
{
    if cs.len() == 0 {
        Seq::empty()
    } else {
        seq![cs[0]@] + raw_models_of(cs.drop_first())
    }
}

/// Models of a sequence of raw object entries, in order.
pub closed spec fn raw_entry_models_of(es: Seq<(String, RawJson)>) -> Seq<(Seq<char>, JsonV)>
    decreases es,
{
    if es.len() == 0 {
        Seq::empty()
    } else {
        seq![(es[0].0@, es[0].1@)] + raw_entry_models_of(es.drop_first())
    }
}

proof fn lemma_raw_models_of_len(cs: Seq<RawJson>)
    ensures
        raw_models_of(cs).len() == cs.len(),
    decreases cs,
{
    if cs.len() > 0 {
        lemma_raw_models_of_len(cs.drop_first());
        assert(raw_models_of(cs) == seq![cs[0]@] + raw_models_of(cs.drop_first()));
    } else {
        assert(raw_models_of(cs) == Seq::<JsonV>::empty());
    }
}

proof fn lemma_raw_models_of_index(cs: Seq<RawJson>, i: int)
    requires
        0 <= i < cs.len(),
    ensures
        raw_models_of(cs)[i] == cs[i]@,
    decreases cs,
{
    lemma_raw_models_of_len(cs);
    assert(raw_models_of(cs) == seq![cs[0]@] + raw_models_of(cs.drop_first()));
    if i > 0 {
        lemma_raw_models_of_index(cs.drop_first(), i - 1);
        assert(raw_models_of(cs)[i] == raw_models_of(cs.drop_first())[i - 1]);
        assert(cs.drop_first()[i - 1] == cs[i]);
    }
}

proof fn lemma_raw_entry_models_of_len(es: Seq<(String, RawJson)>)
    ensures
        raw_entry_models_of(es).len() == es.len(),
    decreases es,
{
    if es.len() > 0 {
        lemma_raw_entry_models_of_len(es.drop_first());
        assert(raw_entry_models_of(es) == seq![(es[0].0@, es[0].1@)] + raw_entry_models_of(
            es.drop_first(),
        ));
    } else {
        assert(raw_entry_models_of(es) == Seq::<(Seq<char>, JsonV)>::empty());
    }
}

proof fn lemma_raw_entry_models_of_index(es: Seq<(String, RawJson)>, i: int)
    requires
        0 <= i < es.len(),
    ensures
        raw_entry_models_of(es)[i] == (es[i].0@, es[i].1@),
    decreases es,
{
    lemma_raw_entry_models_of_len(es);
    assert(raw_entry_models_of(es) == seq![(es[0].0@, es[0].1@)] + raw_entry_models_of(
        es.drop_first(),
    ));
    if i > 0 {
        lemma_raw_entry_models_of_index(es.drop_first(), i - 1);
        assert(raw_entry_models_of(es)[i] == raw_entry_models_of(es.drop_first())[i - 1]);
        assert(es.drop_first()[i - 1] == es[i]);
    }
}

fn indent_guard(a: usize) -> (r: Option<usize>)
    ensures
        match r {
            Some(s) => s == INDENT * a,
            None => INDENT * a > usize::MAX,
        },
{
    if a > usize::MAX / INDENT {
        proof {
            let m = usize::MAX as int;
            let d = INDENT as int;
            assert(m - m % d == d * (m / d));
        }
        None
    } else {
        Some(INDENT * a)
    }
}

fn add_guard(a: usize, b: usize) -> (r: Option<usize>)
    ensures
        match r {
            Some(s) => s == a + b,
            None => a + b > usize::MAX,
        },
{
    if a > usize::MAX - b {
        None
    } else {
        Some(a + b)
    }
}

/// Builds the document tree for a parse tree, computing every size cache
/// bottom-up.  Fails exactly when the pretty-printed size of some subtree
/// does not fit the machine word.
#[verifier::loop_isolation(false)]
#[verifier::rlimit(100)]
#[verifier::spinoff_prover]
pub fn node_from_raw(raw: &RawJson) -> (r: Result<Node, LoadError>)
    ensures
        r matches Ok(n) ==> n@ == raw@ && n.sizes_ok(),
        bytes_of(raw@) <= usize::MAX && lines_of(raw@) <= usize::MAX ==> r is Ok,
        r matches Err(e) ==> e is TooLarge,
    decreases raw,
{
    match raw {
        RawJson::Null => Ok(Node { n_lines: 1, n_bytes: 4, data: Kind::Null }),
        RawJson::Bool(b) => {
            let v: bool = *b;
            Ok(
                Node {
                    n_lines: 1,
                    n_bytes: if v {
                        4
                    } else {
                        5
                    },
                    data: Kind::Bool(v),
                },
            )
        },
        RawJson::Num(t) => Ok(
            Node { n_lines: 1, n_bytes: str_byte_len(t.as_str()), data: Kind::Number(t.clone()) },
        ),
        RawJson::Str(t) => {
            match add_guard(str_byte_len(t.as_str()), 2) {
                Some(nb) => Ok(Node { n_lines: 1, n_bytes: nb, data: Kind::String(t.clone()) }),
                None => Err(LoadError::TooLarge),
            }
        },
        RawJson::Arr(children) => {
            let ghost ms = raw_models_of(children@);
            proof {
                lemma_raw_models_of_len(children@);
                assert(raw@ == JsonV::Arr(ms));
            }
            let n = children.len();
            if n == 0 {
                let empty_children: Vec<Node> = Vec::new();
                proof {
                    assert(ms =~= Seq::<JsonV>::empty());
                    lemma_models_of_len(empty_children@);
                    assert(models_of(empty_children@) =~= ms);
                }
                return Ok(Node { n_lines: 1, n_bytes: 2, data: Kind::Array(empty_children) });
            }
            let mut out: Vec<Node> = Vec::new();
            let mut lsum: usize = 0;
            let mut bsum: usize = 0;
            let mut idx: usize = 0;
            proof {
                assert(ms.take(0) =~= Seq::<JsonV>::empty());
            }
            while idx < n
                invariant
                    0 <= idx <= n,
                    out@.len() == idx,
                    forall|j: int|
                        0 <= j < idx ==> (#[trigger] out@[j])@ == ms[j] && out@[j].sizes_ok(),
                    lsum == arr_lines_sum(ms.take(idx as int)),
                    bsum == arr_bytes_sum(ms.take(idx as int)),
                decreases n - idx,
            {
                proof {
                    lemma_raw_models_of_index(children@, idx as int);
                }
                let child = match node_from_raw(&children[idx]) {
                    Ok(c) => c,
                    Err(e) => {
                        proof {
                            if bytes_of(raw@) <= usize::MAX && lines_of(raw@) <= usize::MAX {
                                lemma_arr_sum_index(ms, idx as int);
                                assert(false);
                            }
                        }
                        return Err(LoadError::TooLarge);
                    },
                };
                proof {
                    lemma_arr_sum_index(ms, idx as int);
                    assert(ms.take(idx + 1) =~= ms.take(idx as int).push(ms[idx as int]));
                    lemma_arr_sum_push(ms.take(idx as int), ms[idx as int]);
                    lemma_arr_sum_prefix(ms, idx + 1);
                }
                let ind0 = match indent_guard(child.n_lines) {
                    Some(v) => v,
                    None => {
                        return Err(LoadError::TooLarge);
                    },
                };
                let ind = match add_guard(child.n_bytes, ind0) {
                    Some(v) => v,
                    None => {
                        return Err(LoadError::TooLarge);
                    },
                };
                lsum = match add_guard(lsum, child.n_lines) {
                    Some(v) => v,
                    None => {
                        return Err(LoadError::TooLarge);
                    },
                };
                bsum = match add_guard(bsum, ind) {
                    Some(v) => v,
                    None => {
                        return Err(LoadError::TooLarge);
                    },
                };
                out.push(child);
                idx = idx + 1;
            }
            proof {
                assert(ms.take(n as int) =~= ms);
            }
            let total_lines = match add_guard(lsum, 2) {
                Some(v) => v,
                None => {
                    return Err(LoadError::TooLarge);
                },
            };
            let t1 = match add_guard(bsum, n) {
                Some(v) => v,
                None => {
                    return Err(LoadError::TooLarge);
                },
            };
            let t2 = match add_guard(t1, n - 1) {
                Some(v) => v,
                None => {
                    return Err(LoadError::TooLarge);
                },
            };
            let total_bytes = match add_guard(t2, 3) {
                Some(v) => v,
                None => {
                    return Err(LoadError::TooLarge);
                },
            };
            let node = Node { n_lines: total_lines, n_bytes: total_bytes, data: Kind::Array(out) };
            proof {
                assert(models_of(node.data->Array_0@) =~= ms) by {
                    lemma_models_of_len(node.data->Array_0@);
                    assert forall|j: int|
                        0 <= j < ms.len() implies models_of(node.data->Array_0@)[j]
                        == ms[j] by {
                        lemma_models_of_index(node.data->Array_0@, j);
                    }
                }
                assert(node@ == raw@);
            }
            Ok(node)
        },
        RawJson::Obj(entries) => {
            let ghost ms = raw_entry_models_of(entries@);
            proof {
                lemma_raw_entry_models_of_len(entries@);
                assert(raw@ == JsonV::Obj(ms));
            }
            let n = entries.len();
            if n == 0 {
                let empty_entries: Vec<(String, Node)> = Vec::new();
                proof {
                    assert(ms =~= Seq::<(Seq<char>, JsonV)>::empty());
                    lemma_entry_models_of_len(empty_entries@);
                    assert(entry_models_of(empty_entries@) =~= ms);
                }
                return Ok(Node { n_lines: 1, n_bytes: 2, data: Kind::Object(empty_entries) });
            }
            let mut out: Vec<(String, Node)> = Vec::new();
            let mut lsum: usize = 0;
            let mut bsum: usize = 0;
            let mut idx: usize = 0;
            proof {
                assert(ms.take(0) =~= Seq::<(Seq<char>, JsonV)>::empty());
            }
            while idx < n
                invariant
                    0 <= idx <= n,
                    out@.len() == idx,
                    forall|j: int|
                        0 <= j < idx ==> (#[trigger] out@[j]).0@ == ms[j].0 && out@[j].1@
                            == ms[j].1 && out@[j].1.sizes_ok(),
                    lsum == obj_lines_sum(ms.take(idx as int)),
                    bsum == obj_bytes_sum(ms.take(idx as int)),
                decreases n - idx,
            {
                proof {
                    lemma_raw_entry_models_of_index(entries@, idx as int);
                }
                let child = match node_from_raw(&entries[idx].1) {
                    Ok(c) => c,
                    Err(e) => {
                        proof {
                            if bytes_of(raw@) <= usize::MAX && lines_of(raw@) <= usize::MAX {
                                lemma_obj_sum_index(ms, idx as int);
                                assert(false);
                            }
                        }
                        return Err(LoadError::TooLarge);
                    },
                };
                proof {
                    lemma_obj_sum_index(ms, idx as int);
                    assert(ms.take(idx + 1) =~= ms.take(idx as int).push(ms[idx as int]));
                    lemma_obj_sum_push(ms.take(idx as int), ms[idx as int].0, ms[idx as int].1);
                    lemma_obj_sum_prefix(ms, idx + 1);
                }
                let key = entries[idx].0.clone();
                proof {
                    assert(key@ == entries@[idx as int].0@);
                    assert(ms[idx as int].0 == entries@[idx as int].0@);
                    assert(child@ == ms[idx as int].1);
                    assert(child.n_bytes == bytes_of(ms[idx as int].1));
                    assert(child.n_lines == lines_of(ms[idx as int].1));
                }
                let ind0 = match indent_guard(child.n_lines) {
                    Some(v) => v,
                    None => {
                        return Err(LoadError::TooLarge);
                    },
                };
                let ind = match add_guard(child.n_bytes, ind0) {
                    Some(v) => v,
                    None => {
                        return Err(LoadError::TooLarge);
                    },
                };
                let klen = str_byte_len(key.as_str());
                proof {
                    assert(klen == text_bytes(ms[idx as int].0));
                }
                let kk = match add_guard(ind, klen) {
                    Some(v) => v,
                    None => {
                        return Err(LoadError::TooLarge);
                    },
                };
                let entry_cost = match add_guard(kk, 4) {
                    Some(v) => v,
                    None => {
                        return Err(LoadError::TooLarge);
                    },
                };
                lsum = match add_guard(lsum, child.n_lines) {
                    Some(v) => v,
                    None => {
                        return Err(LoadError::TooLarge);
                    },
                };
                bsum = match add_guard(bsum, entry_cost) {
                    Some(v) => v,
                    None => {
                        return Err(LoadError::TooLarge);
                    },
                };
                out.push((key, child));
                idx = idx + 1;
            }
            proof {
                assert(ms.take(n as int) =~= ms);
            }
            let total_lines = match add_guard(lsum, 2) {
                Some(v) => v,
                None => {
                    return Err(LoadError::TooLarge);
                },
            };
            let t1 = match add_guard(bsum, n) {
                Some(v) => v,
                None => {
                    return Err(LoadError::TooLarge);
                },
            };
            let t2 = match add_guard(t1, n - 1) {
                Some(v) => v,
                None => {
                    return Err(LoadError::TooLarge);
                },
            };
            let total_bytes = match add_guard(t2, 3) {
                Some(v) => v,
                None => {
                    return Err(LoadError::TooLarge);
                },
            };
            let node = Node { n_lines: total_lines, n_bytes: total_bytes, data: Kind::Object(out) };
            proof {
                assert(entry_models_of(node.data->Object_0@) =~= ms) by {
                    lemma_entry_models_of_len(node.data->Object_0@);
                    assert forall|j: int|
                        0 <= j < ms.len() implies entry_models_of(
                        node.data->Object_0@,
                    )[j] == ms[j] by {
                        lemma_entry_models_of_index(node.data->Object_0@, j);
                    }
                }
                assert(node@ == raw@);
            }
            Ok(node)
        },
    }
}

impl Node {
    /// Writes the document as pretty-printed JSON text, the layout whose
    /// line and byte counts every node caches.  The verified printer
    /// cannot fail; the `Result` stays for callers that treat printing as
    /// fallible.
    pub fn to_string_pretty(&self) -> (r: Result<String, crate::error::DumpError>)
        requires
            self.wf(),
        ensures
            r matches Ok(s) && s@ == render(self@, 0),
    {
        let mut out = String::new();
        self.write_pretty(0, &mut out);
        proof {
            assert(out@ =~= Seq::<char>::empty() + render(self@, 0));
        }
        Ok(out)
    }

    fn write_pretty(&self, depth: usize, out: &mut String)
        requires
            self.wf(),
            depth + lines_of(self@) <= usize::MAX,
        ensures
            final(out)@ == old(out)@ + render(self@, depth as nat),
        decreases self, 0int,
    {
        match &self.data {
            Kind::Null => {
                out.append("null");
                proof {
                    reveal_strlit("null");
                    assert(out@ =~= old(out)@ + render(self@, depth as nat));
                }
            },
            Kind::Bool(b) => {
                if *b {
                    out.append("true");
                    proof {
                        reveal_strlit("true");
                        assert(out@ =~= old(out)@ + render(self@, depth as nat));
                    }
                } else {
                    out.append("false");
                    proof {
                        reveal_strlit("false");
                        assert(out@ =~= old(out)@ + render(self@, depth as nat));
                    }
                }
            },
            Kind::Number(t) => {
                out.append(t.as_str());
                proof {
                    assert(out@ =~= old(out)@ + render(self@, depth as nat));
                }
            },
            Kind::String(t) => {
                out.append("\"");
                out.append(t.as_str());
                out.append("\"");
                proof {
                    reveal_strlit("\"");
                    assert(out@ =~= old(out)@ + render(self@, depth as nat));
                }
            },
            Kind::Array(nodes) => {
                proof {
                    lemma_models_of_len(nodes@);
                    reveal_strlit("[]");
                    reveal_strlit("[\n");
                    reveal_strlit("]");
                }
                if nodes.len() == 0 {
                    out.append("[]");
                    proof {
                        assert(out@ =~= old(out)@ + render(self@, depth as nat));
                    }
                } else {
                    out.append("[\n");
                    let ghost mid0 = out@;
                    proof {
                        assert(nodes@.skip(0) =~= nodes@);
                        assert(models_of(nodes@).skip(0) =~= models_of(nodes@));
                        assert(arr_lines_sum(models_of(nodes@)) < lines_of(self@));
                        assert forall|i: int|
                            0 <= i < nodes@.len() implies (#[trigger] nodes@[i]).wf() by {
                            lemma_models_of_index(nodes@, i);
                            assert(model_wf(models_of(nodes@)[i]));
                        }
                    }
                    Self::write_arr_items(nodes, 0, depth + 1, out);
                    let ghost mid1 = out@;
                    write_indent(depth, out);
                    out.append("]");
                    proof {
                        assert(mid0 =~= old(out)@ + seq!['[', '\n']);
                        assert(mid1 =~= mid0 + render_arr_items(models_of(nodes@), (depth + 1) as nat));
                        assert(out@ =~= mid1 + sp_indent(depth as nat) + seq![']']);
                        assert(out@ =~= old(out)@ + render(self@, depth as nat));
                    }
                }
            },
            Kind::Object(entries) => {
                proof {
                    lemma_entry_models_of_len(entries@);
                    reveal_strlit("{}");
                    reveal_strlit("{\n");
                    reveal_strlit("}");
                }
                if entries.len() == 0 {
                    out.append("{}");
                    proof {
                        assert(out@ =~= old(out)@ + render(self@, depth as nat));
                    }
                } else {
                    out.append("{\n");
                    let ghost mid0 = out@;
                    proof {
                        assert(entries@.skip(0) =~= entries@);
                        assert(entry_models_of(entries@).skip(0) =~= entry_models_of(entries@));
                        assert(obj_lines_sum(entry_models_of(entries@)) < lines_of(self@));
                        assert forall|i: int|
                            0 <= i < entries@.len() implies (#[trigger] entries@[i]).1.wf() by {
                            lemma_entry_models_of_index(entries@, i);
                            assert(model_wf(entry_models_of(entries@)[i].1));
                        }
                    }
                    Self::write_obj_items(entries, 0, depth + 1, out);
                    let ghost mid1 = out@;
                    write_indent(depth, out);
                    out.append("}");
                    proof {
                        assert(mid0 =~= old(out)@ + seq!['{', '\n']);
                        assert(mid1 =~= mid0 + render_obj_items(
                            entry_models_of(entries@),
                            (depth + 1) as nat,
                        ));
                        assert(out@ =~= mid1 + sp_indent(depth as nat) + seq!['}']);
                        assert(out@ =~= old(out)@ + render(self@, depth as nat));
                    }
                }
            },
        }
    }

    fn write_arr_items(nodes: &Vec<Node>, pos: usize, depth: usize, out: &mut String)
        requires
            forall|i: int| 0 <= i < nodes@.len() ==> (#[trigger] nodes@[i]).wf(),
            pos <= nodes@.len(),
            depth + arr_lines_sum(models_of(nodes@).skip(pos as int)) <= usize::MAX,
        ensures
            final(out)@ == old(out)@ + render_arr_items(
                models_of(nodes@).skip(pos as int),
                depth as nat,
            ),
        decreases nodes, nodes@.len() - pos,
    {
        proof {
            lemma_models_of_len(nodes@);
        }
        let ghost tail = models_of(nodes@).skip(pos as int);
        if pos == nodes.len() {
            proof {
                assert(tail =~= Seq::<JsonV>::empty());
                assert(out@ =~= old(out)@ + render_arr_items(tail, depth as nat));
            }
            return ;
        }
        proof {
            lemma_models_of_index(nodes@, pos as int);
            assert(tail[0] == nodes@[pos as int]@);
            assert(tail.drop_first() =~= models_of(nodes@).skip(pos + 1));
            lemma_arr_skip_sum(models_of(nodes@), pos as int);
        }
        write_indent(depth, out);
        let ghost mid0 = out@;
        nodes[pos].write_pretty(depth, out);
        let ghost mid1 = out@;
        if pos + 1 < nodes.len() {
            out.append(",");
            proof {
                reveal_strlit(",");
            }
        }
        out.append("\n");
        let ghost mid2 = out@;
        Self::write_arr_items(nodes, pos + 1, depth, out);
        proof {
            reveal_strlit("\n");
            assert(mid0 =~= old(out)@ + sp_indent(depth as nat));
            assert(mid1 =~= mid0 + render(tail[0], depth as nat));
            if pos + 1 < nodes@.len() {
                assert(mid2 =~= mid1 + seq![','] + seq!['\n']);
            } else {
                assert(mid2 =~= mid1 + seq!['\n']);
            }
            assert(out@ =~= mid2 + render_arr_items(tail.drop_first(), depth as nat));
            assert(tail.len() > 1 <==> pos + 1 < nodes@.len());
            assert(out@ =~= old(out)@ + render_arr_items(tail, depth as nat));
        }
    }

    fn write_obj_items(entries: &Vec<(String, Node)>, pos: usize, depth: usize, out: &mut String)
        requires
            forall|i: int| 0 <= i < entries@.len() ==> (#[trigger] entries@[i]).1.wf(),
            pos <= entries@.len(),
            depth + obj_lines_sum(entry_models_of(entries@).skip(pos as int)) <= usize::MAX,
        ensures
            final(out)@ == old(out)@ + render_obj_items(
                entry_models_of(entries@).skip(pos as int),
                depth as nat,
            ),
        decreases entries, entries@.len() - pos,
    {
        proof {
            lemma_entry_models_of_len(entries@);
        }
        let ghost tail = entry_models_of(entries@).skip(pos as int);
        if pos == entries.len() {
            proof {
                assert(tail =~= Seq::<(Seq<char>, JsonV)>::empty());
                assert(out@ =~= old(out)@ + render_obj_items(tail, depth as nat));
            }
            return ;
        }
        proof {
            lemma_entry_models_of_index(entries@, pos as int);
            assert(tail[0] == (entries@[pos as int].0@, entries@[pos as int].1@));
            assert(tail.drop_first() =~= entry_models_of(entries@).skip(pos + 1));
            lemma_obj_skip_sum(entry_models_of(entries@), pos as int);
        }
        write_indent(depth, out);
        out.append("\"");
        out.append(entries[pos].0.as_str());
        out.append("\": ");
        let ghost mid0 = out@;
        entries[pos].1.write_pretty(depth, out);
        let ghost mid1 = out@;
        if pos + 1 < entries.len() {
            out.append(",");
            proof {
                reveal_strlit(",");
            }
        }
        out.append("\n");
        let ghost mid2 = out@;
        Self::write_obj_items(entries, pos + 1, depth, out);
        proof {
            reveal_strlit("\"");
            reveal_strlit("\": ");
            reveal_strlit("\n");
            assert(mid0 =~= old(out)@ + sp_indent(depth as nat) + seq!['"'] + tail[0].0 + seq![
                '"',
                ':',
                ' ',
            ]);
            assert(mid1 =~= mid0 + render(tail[0].1, depth as nat));
            if pos + 1 < entries@.len() {
                assert(mid2 =~= mid1 + seq![','] + seq!['\n']);
            } else {
                assert(mid2 =~= mid1 + seq!['\n']);
            }
            assert(out@ =~= mid2 + render_obj_items(tail.drop_first(), depth as nat));
            assert(tail.len() > 1 <==> pos + 1 < entries@.len());
            assert(out@ =~= old(out)@ + render_obj_items(tail, depth as nat));
        }
    }
}

/// The skipped part of a line sum is never more than the whole.
proof fn lemma_arr_skip_sum(cs: Seq<JsonV>, pos: int)
    requires
        0 <= pos < cs.len(),
    ensures
        lines_of(cs.skip(pos)[0]) + arr_lines_sum(cs.skip(pos + 1)) == arr_lines_sum(
            cs.skip(pos),
        ),
        arr_lines_sum(cs.skip(pos)) <= arr_lines_sum(cs),
    decreases pos,
{
    assert(cs.skip(pos)[0] == cs[pos]);
    assert(cs.skip(pos).drop_first() =~= cs.skip(pos + 1));
    if pos > 0 {
        assert(cs.skip(pos - 1).drop_first() =~= cs.skip(pos));
        lemma_arr_skip_sum(cs, pos - 1);
        assert(cs.skip(0) =~= cs);
    } else {
        assert(cs.skip(0) =~= cs);
    }
}

/// The skipped part of a line sum is never more than the whole.
proof fn lemma_obj_skip_sum(es: Seq<(Seq<char>, JsonV)>, pos: int)
    requires
        0 <= pos < es.len(),
    ensures
        lines_of(es.skip(pos)[0].1) + obj_lines_sum(es.skip(pos + 1)) == obj_lines_sum(
            es.skip(pos),
        ),
        obj_lines_sum(es.skip(pos)) <= obj_lines_sum(es),
    decreases pos,
{
    assert(es.skip(pos)[0] == es[pos]);
    assert(es.skip(pos).drop_first() =~= es.skip(pos + 1));
    if pos > 0 {
        assert(es.skip(pos - 1).drop_first() =~= es.skip(pos));
        lemma_obj_skip_sum(es, pos - 1);
        assert(es.skip(0) =~= es);
    } else {
        assert(es.skip(0) =~= es);
    }
}

/// Writes the spaces of one indentation depth.
fn write_indent(depth: usize, out: &mut String)
    ensures
        final(out)@ == old(out)@ + sp_indent(depth as nat),
{
    let mut i: usize = 0;
    proof {
        assert(out@ =~= old(out)@ + Seq::new(0, |k: int| ' '));
    }
    while i < depth
        invariant
            0 <= i <= depth,
            out@ =~= old(out)@ + Seq::new((INDENT * i) as nat, |k: int| ' '),
        decreases depth - i,
    {
        out.append("  ");
        proof {
            reveal_strlit("  ");
            assert(out@ =~= old(out)@ + Seq::new((INDENT * (i + 1)) as nat, |k: int| ' '));
        }
        i = i + 1;
    }
    proof {
        assert(out@ =~= old(out)@ + sp_indent(depth as nat));
    }
}

} // verus!
