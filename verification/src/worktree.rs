//! The view tree.
//!
//! A [`WorkTreeNode`] mirrors the part of the document that is currently
//! expanded and projects it onto a flat list of rows for a virtualized
//! list widget.  Each node caches `len`, the number of rows it and its
//! materialized descendants occupy, so that translating between a row
//! index and a document selector costs one walk along the path, never a
//! scan of the whole tree.
use vstd::pervasive::unreached;
use vstd::prelude::*;

use crate::model::text_bytes;
use crate::node::{segs, Index, IndexKind, NodeKind, NodeMeta};
use crate::util::{dec_str, str_byte_len, usize_to_string};

verus! {

broadcast use vstd::std_specs::vec::group_vec_axioms;

/// Abstract value of a view-tree node.  `children` is `None` while the
/// node is collapsed; row counts are not part of the abstraction, they
/// are recomputed by [`wt_len`].
pub struct WtV {
    pub name: Seq<char>,
    pub meta: Option<NodeMeta>,
    pub children: Option<Seq<WtV>>,
}

/// Rows occupied by a node: itself plus its materialized descendants.
pub open spec fn wt_len(w: WtV) -> nat
    decreases w,
{
    1 + match w.children {
        Some(cs) => wt_len_sum(cs),
        None => 0,
    }
}

pub open spec fn wt_len_sum(cs: Seq<WtV>) -> nat
    decreases cs,
{
    if cs.len() == 0 {
        0
    } else {
        wt_len(cs[0]) + wt_len_sum(cs.drop_first())
    }
}

/// The indent marker put before a name shown at the given depth.
pub open spec fn row_prefix(depth: nat) -> Seq<char> {
    Seq::new(2 * depth, |i: int| '-')
}

/// The flat list of formatted rows of a node shown at the given depth:
/// pre-order, materialized nodes only.
pub open spec fn wt_rows(w: WtV, depth: nat) -> Seq<Seq<char>>
    decreases w,
{
    seq![row_prefix(depth) + w.name] + match w.children {
        Some(cs) => wt_rows_sum(cs, depth + 1),
        None => Seq::empty(),
    }
}

pub open spec fn wt_rows_sum(cs: Seq<WtV>, depth: nat) -> Seq<Seq<char>>
    decreases cs,
{
    if cs.len() == 0 {
        Seq::empty()
    } else {
        wt_rows(cs[0], depth) + wt_rows_sum(cs.drop_first(), depth)
    }
}

/// The node standing at flat row `i`.
pub open spec fn wt_row(w: WtV, i: nat) -> WtV
    decreases w,
{
    if i == 0 {
        w
    } else {
        match w.children {
            Some(cs) => wt_row_in(cs, (i - 1) as nat),
            None => w,
        }
    }
}

pub open spec fn wt_row_in(cs: Seq<WtV>, j: nat) -> WtV
    decreases cs,
{
    if cs.len() == 0 {
        WtV { name: Seq::empty(), meta: None, children: None }
    } else if j < wt_len(cs[0]) {
        wt_row(cs[0], j)
    } else {
        wt_row_in(cs.drop_first(), (j - wt_len(cs[0])) as nat)
    }
}

/// The document selector of the node at flat row `i`: the names of every
/// node passed through on the way down, the root excluded.
pub open spec fn wt_selector(w: WtV, i: nat) -> Seq<Seq<char>>
    decreases w,
{
    if i == 0 {
        Seq::empty()
    } else {
        match w.children {
            Some(cs) => wt_sel_in(cs, (i - 1) as nat),
            None => Seq::empty(),
        }
    }
}

pub open spec fn wt_sel_in(cs: Seq<WtV>, j: nat) -> Seq<Seq<char>>
    decreases cs,
{
    if cs.len() == 0 {
        Seq::empty()
    } else if j < wt_len(cs[0]) {
        seq![cs[0].name] + wt_selector(cs[0], j)
    } else {
        wt_sel_in(cs.drop_first(), (j - wt_len(cs[0])) as nat)
    }
}

/// A lazily materialized projection of the document: the name a row shows,
/// the cached flat row count, the cached metadata of the document node it
/// stands for, and the child rows once the node has been expanded.
pub struct WorkTreeNode {
    name: String,
    len: usize,
    meta: Option<NodeMeta>,
    child: Option<Vec<WorkTreeNode>>,
}

impl View for WorkTreeNode {
    type V = WtV;

    closed spec fn view(&self) -> WtV
        decreases self,
    {
        WtV {
            name: self.name@,
            meta: self.meta,
            children: match self.child {
                Some(cs) => Some(wt_models_of(cs@)),
                None => None,
            },
        }
    }
}

pub closed spec fn wt_models_of(cs: Seq<WorkTreeNode>) -> Seq<WtV>
    decreases cs,
{
    if cs.len() == 0 {
        Seq::empty()
    } else {
        seq![cs[0]@] + wt_models_of(cs.drop_first())
    }
}

pub proof fn lemma_wt_models_of_len(cs: Seq<WorkTreeNode>)
    ensures
        wt_models_of(cs).len() == cs.len(),
    decreases cs,
{
    if cs.len() > 0 {
        lemma_wt_models_of_len(cs.drop_first());
        assert(wt_models_of(cs) == seq![cs[0]@] + wt_models_of(cs.drop_first()));
    } else {
        assert(wt_models_of(cs) == Seq::<WtV>::empty());
    }
}

pub proof fn lemma_wt_models_of_index(cs: Seq<WorkTreeNode>, i: int)
    requires
        0 <= i < cs.len(),
    ensures
        wt_models_of(cs)[i] == cs[i]@,
    decreases cs,
{
    lemma_wt_models_of_len(cs);
    assert(wt_models_of(cs) == seq![cs[0]@] + wt_models_of(cs.drop_first()));
    if i > 0 {
        lemma_wt_models_of_index(cs.drop_first(), i - 1);
        assert(wt_models_of(cs)[i] == wt_models_of(cs.drop_first())[i - 1]);
        assert(cs.drop_first()[i - 1] == cs[i]);
    }
}

impl WorkTreeNode {
    /// The cached row counts agree with the abstraction, all the way down.
    pub closed spec fn wf(self) -> bool
        decreases self,
    {
        &&& self.len == wt_len(self@)
        &&& match self.child {
            Some(cs) => forall|i: int| 0 <= i < cs@.len() ==> (#[trigger] cs@[i]).wf(),
            None => true,
        }
    }

    /// A collapsed node carrying known metadata.
    pub fn new(name: String, meta: Option<NodeMeta>) -> (r: WorkTreeNode)
        ensures
            r@ == (WtV { name: name@, meta, children: None }),
            r.wf(),
    {
        WorkTreeNode { name, len: 1, meta, child: None }
    }

    /// A collapsed node that has never been visited.
    pub fn new_empty(name: String) -> (r: WorkTreeNode)
        ensures
            r@ == (WtV { name: name@, meta: None, children: None }),
            r.wf(),
    {
        WorkTreeNode { name, len: 1, meta: None, child: None }
    }

    /// The number of flat rows this node currently occupies.
    pub fn len(&self) -> (r: usize)
        requires
            self.wf(),
        ensures
            r == wt_len(self@),
    {
        self.len
    }

    /// The cached metadata of the node at row `index`, if it has any.
    pub fn meta(&self, index: usize) -> (r: Option<NodeMeta>)
        requires
            self.wf(),
            index < wt_len(self@),
        ensures
            r == wt_row(self@, index as nat).meta,
        decreases self, 0int,
    {
        if index == 0 {
            return self.meta;
        }
        match &self.child {
            Some(children) => {
                proof {
                    assert(children@.skip(0) =~= children@);
                }
                Self::meta_in(children, 0, index - 1)
            },
            None => unreached(),
        }
    }

    fn meta_in(children: &Vec<WorkTreeNode>, pos: usize, j: usize) -> (r: Option<NodeMeta>)
        requires
            forall|i: int| 0 <= i < children@.len() ==> (#[trigger] children@[i]).wf(),
            pos <= children@.len(),
            j < wt_len_sum(wt_models_of(children@.skip(pos as int))),
        ensures
            r == wt_row_in(wt_models_of(children@.skip(pos as int)), j as nat).meta,
        decreases children, children@.len() - pos,
    {
        let ghost tail = wt_models_of(children@.skip(pos as int));
        if pos == children.len() {
            proof {
                assert(children@.skip(pos as int) =~= Seq::<WorkTreeNode>::empty());
                assert(tail =~= Seq::<WtV>::empty());
            }
            return unreached();
        }
        proof {
            lemma_wt_skip(children@, pos as int);
        }
        let head_len = children[pos].len();
        if j < head_len {
            children[pos].meta(j)
        } else {
            Self::meta_in(children, pos + 1, j - head_len)
        }
    }

    /// The document selector of the node at row `index`: the names of the
    /// nodes on the way down, the root excluded.
    pub fn selector<'a>(&'a self, index: usize) -> (r: Vec<&'a str>)
        requires
            self.wf(),
            index < wt_len(self@),
        ensures
            segs(r@) == wt_selector(self@, index as nat),
    {
        let mut out: Vec<&'a str> = Vec::new();
        proof {
            assert(segs(out@) =~= Seq::<Seq<char>>::empty());
        }
        if index == 0 {
            proof {
                assert(segs(out@) =~= wt_selector(self@, index as nat));
            }
            return out;
        }
        match &self.child {
            Some(children) => {
                proof {
                    assert(children@.skip(0) =~= children@);
                }
                Self::selector_in(children, 0, index - 1, &mut out);
                proof {
                    assert(segs(out@) =~= Seq::<Seq<char>>::empty() + wt_sel_in(
                        wt_models_of(children@.skip(0)),
                        (index - 1) as nat,
                    ));
                    assert(wt_models_of(children@.skip(0)) =~= wt_models_of(children@)) by {
                        assert(children@.skip(0) =~= children@);
                    }
                }
                out
            },
            None => unreached(),
        }
    }

    fn selector_in<'a>(
        children: &'a Vec<WorkTreeNode>,
        pos: usize,
        j: usize,
        out: &mut Vec<&'a str>,
    )
        requires
            forall|i: int| 0 <= i < children@.len() ==> (#[trigger] children@[i]).wf(),
            pos <= children@.len(),
            j < wt_len_sum(wt_models_of(children@.skip(pos as int))),
        ensures
            segs(final(out)@) =~= segs(old(out)@) + wt_sel_in(
                wt_models_of(children@.skip(pos as int)),
                j as nat,
            ),
        decreases children, children@.len() - pos,
    {
        let ghost tail = wt_models_of(children@.skip(pos as int));
        if pos == children.len() {
            proof {
                assert(children@.skip(pos as int) =~= Seq::<WorkTreeNode>::empty());
                assert(tail =~= Seq::<WtV>::empty());
            }
            unreached::<()>();
            return ;
        }
        proof {
            lemma_wt_skip(children@, pos as int);
        }
        let head_len = children[pos].len();
        if j < head_len {
            out.push(children[pos].name.as_str());
            let ghost mid = out@;
            proof {
                assert(segs(mid) =~= segs(old(out)@) + seq![children@[pos as int]@.name]);
            }
            if j > 0 {
                match &children[pos].child {
                    Some(grand) => {
                        proof {
                            assert(grand@.skip(0) =~= grand@);
                        }
                        Self::selector_in(grand, 0, j - 1, out);
                        proof {
                            assert(segs(out@) =~= segs(mid) + wt_sel_in(
                                wt_models_of(grand@),
                                (j - 1) as nat,
                            ));
                            assert(children@[pos as int].wf());
                            assert(tail[0] == children@[pos as int]@);
                            assert(j < wt_len(tail[0]));
                            assert(tail[0].children == Some(wt_models_of(grand@)));
                            assert(wt_sel_in(tail, j as nat) == seq![tail[0].name] + wt_selector(
                                tail[0],
                                j as nat,
                            ));
                            assert(wt_selector(tail[0], j as nat) == wt_sel_in(
                                wt_models_of(grand@),
                                (j - 1) as nat,
                            ));
                            assert(segs(out@) =~= segs(old(out)@) + wt_sel_in(tail, j as nat));
                        }
                    },
                    None => {
                        unreached::<()>();
                    },
                }
            } else {
                proof {
                    assert(wt_selector(children@[pos as int]@, 0) =~= Seq::<Seq<char>>::empty());
                    assert(wt_sel_in(tail, j as nat) =~= seq![tail[0].name]);
                    assert(segs(out@) =~= segs(old(out)@) + wt_sel_in(tail, j as nat));
                }
            }
        } else {
            Self::selector_in(children, pos + 1, j - head_len, out);
        }
    }
}

/// Connects the models of a child slice to those one position further on.
proof fn lemma_wt_skip(children: Seq<WorkTreeNode>, pos: int)
    requires
        0 <= pos < children.len(),
    ensures
        wt_models_of(children.skip(pos)).len() == children.len() - pos,
        wt_models_of(children.skip(pos))[0] == children[pos]@,
        wt_models_of(children.skip(pos)).drop_first() =~= wt_models_of(children.skip(pos + 1)),
{
    let t = children.skip(pos);
    lemma_wt_models_of_len(t);
    assert(t[0] == children[pos]);
    assert(wt_models_of(t) == seq![t[0]@] + wt_models_of(t.drop_first()));
    assert(t.drop_first() =~= children.skip(pos + 1));
}

/// The views of a list of formatted rows.
pub open spec fn rows_view(ss: Seq<String>) -> Seq<Seq<char>> {
    Seq::new(ss.len(), |i: int| ss[i]@)
}

/// Abstract value of an [`IndexKind`].
pub enum IndexKindV {
    Terminal,
    Object(Seq<Seq<char>>),
    Array(nat),
}

/// Abstract value of an [`Index`].
pub struct IndexV {
    pub meta: NodeMeta,
    pub kind: IndexKindV,
}

impl View for IndexKind {
    type V = IndexKindV;

    open spec fn view(&self) -> IndexKindV {
        match self {
            IndexKind::Terminal => IndexKindV::Terminal,
            IndexKind::Object(keys) => IndexKindV::Object(
                Seq::new(keys@.len(), |i: int| keys@[i]@),
            ),
            IndexKind::Array(n) => IndexKindV::Array(*n as nat),
        }
    }
}

impl View for Index {
    type V = IndexV;

    open spec fn view(&self) -> IndexV {
        IndexV { meta: self.meta, kind: self.kind@ }
    }
}

/// The fresh, collapsed child rows that expanding a node of the given
/// shape materializes: one per object key, in order, or one per array
/// position, named by its decimal index.
pub open spec fn children_from_index(k: IndexKindV) -> Seq<WtV> {
    match k {
        IndexKindV::Terminal => Seq::empty(),
        IndexKindV::Object(keys) => Seq::new(
            keys.len(),
            |i: int| WtV { name: keys[i], meta: None, children: None },
        ),
        IndexKindV::Array(n) => Seq::new(
            n,
            |i: int| WtV { name: dec_str(i), meta: None, children: None },
        ),
    }
}

/// The meaning of [`WorkTreeNode::reindex`]: refresh the cached metadata
/// of the node at row `i`, and (re)materialize its children if the node
/// was already expanded or the expansion is forced.
pub open spec fn sp_reindex(w: WtV, i: nat, ix: IndexV, force: bool) -> WtV
    decreases w,
{
    if i == 0 {
        WtV {
            name: w.name,
            meta: Some(ix.meta),
            children: if w.children is Some || force {
                Some(children_from_index(ix.kind))
            } else {
                w.children
            },
        }
    } else {
        match w.children {
            Some(cs) => WtV {
                name: w.name,
                meta: w.meta,
                children: Some(sp_reindex_in(cs, (i - 1) as nat, ix, force)),
            },
            None => w,
        }
    }
}

pub open spec fn sp_reindex_in(cs: Seq<WtV>, j: nat, ix: IndexV, force: bool) -> Seq<WtV>
    decreases cs,
{
    if cs.len() == 0 {
        cs
    } else if j < wt_len(cs[0]) {
        seq![sp_reindex(cs[0], j, ix, force)] + cs.drop_first()
    } else {
        seq![cs[0]] + sp_reindex_in(cs.drop_first(), (j - wt_len(cs[0])) as nat, ix, force)
    }
}

/// The meaning of [`WorkTreeNode::close`]: discard the materialized
/// children of the node at row `i`, keeping its cached metadata.
pub open spec fn sp_close(w: WtV, i: nat) -> WtV
    decreases w,
{
    if i == 0 {
        WtV { name: w.name, meta: w.meta, children: None }
    } else {
        match w.children {
            Some(cs) => WtV {
                name: w.name,
                meta: w.meta,
                children: Some(sp_close_in(cs, (i - 1) as nat)),
            },
            None => w,
        }
    }
}

pub open spec fn sp_close_in(cs: Seq<WtV>, j: nat) -> Seq<WtV>
    decreases cs,
{
    if cs.len() == 0 {
        cs
    } else if j < wt_len(cs[0]) {
        seq![sp_close(cs[0], j)] + cs.drop_first()
    } else {
        seq![cs[0]] + sp_close_in(cs.drop_first(), (j - wt_len(cs[0])) as nat)
    }
}

impl WorkTreeNode {
    /// The formatted rows of the tree, in the order the list widget shows
    /// them: depth first, each name prefixed by an indent marker of its
    /// depth.  One row per visible node, so the list is exactly `len()`
    /// rows long.
    pub fn as_tree_string(&self) -> (r: Vec<String>)
        requires
            self.wf(),
        ensures
            rows_view(r@) == wt_rows(self@, 0),
            r@.len() == wt_len(self@),
    {
        let mut out: Vec<String> = Vec::new();
        self.push_rows(0, &mut out);
        proof {
            lemma_wt_rows_len(self@, 0);
            assert(rows_view(out@) =~= Seq::<Seq<char>>::empty() + wt_rows(self@, 0));
        }
        out
    }

    fn push_rows(&self, depth: usize, out: &mut Vec<String>)
        requires
            self.wf(),
            depth + wt_len(self@) <= usize::MAX,
        ensures
            rows_view(final(out)@) =~= rows_view(old(out)@) + wt_rows(self@, depth as nat),
        decreases self, 0int,
    {
        let mut row = dash_prefix(depth);
        row.append(self.name.as_str());
        out.push(row);
        let ghost mid = out@;
        proof {
            assert(rows_view(mid) =~= rows_view(old(out)@) + seq![row_prefix(depth as nat)
                + self@.name]);
        }
        match &self.child {
            Some(children) => {
                proof {
                    assert(children@.skip(0) =~= children@);
                    assert(wt_len_sum(wt_models_of(children@)) < wt_len(self@));
                }
                Self::push_rows_in(children, 0, depth + 1, out);
                proof {
                    assert(rows_view(out@) =~= rows_view(old(out)@) + wt_rows(
                        self@,
                        depth as nat,
                    ));
                }
            },
            None => {
                proof {
                    assert(wt_rows(self@, depth as nat) =~= seq![row_prefix(depth as nat)
                        + self@.name]);
                }
            },
        }
    }

    fn push_rows_in(children: &Vec<WorkTreeNode>, pos: usize, depth: usize, out: &mut Vec<String>)
        requires
            forall|i: int| 0 <= i < children@.len() ==> (#[trigger] children@[i]).wf(),
            pos <= children@.len(),
            depth + wt_len_sum(wt_models_of(children@.skip(pos as int))) <= usize::MAX,
        ensures
            rows_view(final(out)@) =~= rows_view(old(out)@) + wt_rows_sum(
                wt_models_of(children@.skip(pos as int)),
                depth as nat,
            ),
        decreases children, children@.len() - pos,
    {
        let ghost tail = wt_models_of(children@.skip(pos as int));
        if pos == children.len() {
            proof {
                assert(children@.skip(pos as int) =~= Seq::<WorkTreeNode>::empty());
                assert(tail =~= Seq::<WtV>::empty());
                assert(rows_view(out@) =~= rows_view(old(out)@) + wt_rows_sum(
                    tail,
                    depth as nat,
                ));
            }
            return ;
        }
        proof {
            lemma_wt_skip(children@, pos as int);
            assert(children@[pos as int].wf());
        }
        children[pos].push_rows(depth, out);
        let ghost mid = out@;
        Self::push_rows_in(children, pos + 1, depth, out);
        proof {
            assert(rows_view(out@) =~= rows_view(mid) + wt_rows_sum(
                wt_models_of(children@.skip(pos + 1)),
                depth as nat,
            ));
            assert(wt_rows_sum(tail, depth as nat) =~= wt_rows(tail[0], depth as nat)
                + wt_rows_sum(tail.drop_first(), depth as nat));
            assert(rows_view(out@) =~= rows_view(old(out)@) + wt_rows_sum(tail, depth as nat));
        }
    }
}

/// Builds the indent marker shown before a name at the given depth.
fn dash_prefix(depth: usize) -> (r: String)
    ensures
        r@ == row_prefix(depth as nat),
{
    let mut s = String::new();
    let mut i: usize = 0;
    proof {
        reveal_strlit("--");
        assert(s@ =~= row_prefix(0));
    }
    while i < depth
        invariant
            0 <= i <= depth,
            s@ =~= row_prefix(i as nat),
        decreases depth - i,
    {
        s.append("--");
        proof {
            reveal_strlit("--");
            assert(s@ =~= row_prefix((i + 1) as nat));
        }
        i = i + 1;
    }
    s
}

/// A node occupies exactly as many rows as its formatted row list holds.
pub proof fn lemma_wt_rows_len(w: WtV, depth: nat)
    ensures
        wt_rows(w, depth).len() == wt_len(w),
    decreases w,
{
    match w.children {
        Some(cs) => {
            lemma_wt_rows_sum_len(cs, depth + 1);
        },
        None => {},
    }
}

pub proof fn lemma_wt_rows_sum_len(cs: Seq<WtV>, depth: nat)
    ensures
        wt_rows_sum(cs, depth).len() == wt_len_sum(cs),
    decreases cs,
{
    if cs.len() > 0 {
        lemma_wt_rows_len(cs[0], depth);
        lemma_wt_rows_sum_len(cs.drop_first(), depth);
    }
}

/// Closing a node never adds rows.
pub proof fn lemma_sp_close_shrinks(w: WtV, i: nat)
    ensures
        wt_len(sp_close(w, i)) <= wt_len(w),
    decreases w,
{
    if i != 0 {
        match w.children {
            Some(cs) => {
                lemma_sp_close_in_shrinks(cs, (i - 1) as nat);
            },
            None => {},
        }
    }
}

pub proof fn lemma_sp_close_in_shrinks(cs: Seq<WtV>, j: nat)
    ensures
        wt_len_sum(sp_close_in(cs, j)) <= wt_len_sum(cs),
    decreases cs,
{
    if cs.len() > 0 {
        if j < wt_len(cs[0]) {
            lemma_sp_close_shrinks(cs[0], j);
            let u = seq![sp_close(cs[0], j)] + cs.drop_first();
            assert(u[0] == sp_close(cs[0], j));
            assert(u.drop_first() =~= cs.drop_first());
        } else {
            lemma_sp_close_in_shrinks(cs.drop_first(), (j - wt_len(cs[0])) as nat);
            let u = seq![cs[0]] + sp_close_in(cs.drop_first(), (j - wt_len(cs[0])) as nat);
            assert(u[0] == cs[0]);
            assert(u.drop_first() =~= sp_close_in(cs.drop_first(), (j - wt_len(cs[0])) as nat));
        }
    }
}

/// Every fresh child of an expansion occupies one row.
pub proof fn lemma_fresh_children_len(cs: Seq<WtV>)
    requires
        forall|i: int| 0 <= i < cs.len() ==> (#[trigger] cs[i]).children is None,
    ensures
        wt_len_sum(cs) == cs.len(),
    decreases cs,
{
    if cs.len() > 0 {
        assert(cs[0].children is None);
        assert(wt_len(cs[0]) == 1);
        lemma_fresh_children_len(cs.drop_first());
    }
}

impl WorkTreeNode {
    /// Gives the node at row `index` the freshly computed one-level shape
    /// of its document node: its metadata is cached, and its children are
    /// (re)materialized when the node was already expanded or `force` asks
    /// for an explicit expansion.  Row counts of every node on the path
    /// are repaired in place.
    pub fn reindex(&mut self, index: usize, node_index: Index, force: bool)
        requires
            old(self).wf(),
            index < wt_len(old(self)@),
            wt_len(sp_reindex(old(self)@, index as nat, node_index@, force)) <= usize::MAX,
        ensures
            final(self)@ == sp_reindex(old(self)@, index as nat, node_index@, force),
            final(self).wf(),
        decreases wt_len(old(self)@), 0int,
    {
        let ghost target = sp_reindex(old(self)@, index as nat, node_index@, force);
        if index == 0 {
            self.meta = Some(node_index.meta);
            let expand = self.child.is_some() || force;
            if expand {
                let kids = Self::fresh_children(node_index.kind);
                proof {
                    lemma_wt_models_of_len(kids@);
                    assert forall|i: int|
                        0 <= i < wt_models_of(kids@).len() implies (#[trigger] wt_models_of(
                        kids@,
                    )[i]).children is None by {
                        lemma_wt_models_of_index(kids@, i);
                    }
                    lemma_fresh_children_len(wt_models_of(kids@));
                    assert(wt_len(target) == 1 + kids@.len());
                }
                self.len = 1 + kids.len();
                self.child = Some(kids);
                proof {
                    assert(self@ =~= target);
                }
            } else {
                proof {
                    assert(self@ =~= target);
                }
            }
        } else {
            let mut taken: Option<Vec<WorkTreeNode>> = None;
            core::mem::swap(&mut taken, &mut self.child);
            match taken {
                Some(mut v) => {
                    let ghost oldcs = wt_models_of(v@);
                    proof {
                        assert(v@.skip(0) =~= v@);
                        assert(old(self)@.children == Some(oldcs));
                        assert(wt_len(old(self)@) == 1 + wt_len_sum(oldcs));
                        assert(target.children == Some(
                            sp_reindex_in(oldcs, (index - 1) as nat, node_index@, force),
                        ));
                        assert(wt_len(target) == 1 + wt_len_sum(
                            sp_reindex_in(oldcs, (index - 1) as nat, node_index@, force),
                        ));
                    }
                    let deltas = Self::reindex_in(&mut v, 0, index - 1, node_index, force);
                    proof {
                        assert(v@.skip(0) =~= v@);
                    }
                    self.len = self.len - deltas.0 + deltas.1;
                    self.child = Some(v);
                    proof {
                        assert(self@ =~= target);
                        assert(self.wf());
                    }
                },
                None => {
                    unreached::<()>();
                },
            }
        }
    }

    /// Materializes the child rows an [`IndexKind`] describes.
    fn fresh_children(kind: IndexKind) -> (r: Vec<WorkTreeNode>)
        ensures
            wt_models_of(r@) =~= children_from_index(kind@),
            forall|i: int| 0 <= i < r@.len() ==> (#[trigger] r@[i]).wf(),
    {
        let mut out: Vec<WorkTreeNode> = Vec::new();
        let ghost goal = children_from_index(kind@);
        match kind {
            IndexKind::Terminal => {
                proof {
                    lemma_wt_models_of_len(out@);
                    assert(wt_models_of(out@) =~= goal);
                }
                out
            },
            IndexKind::Object(keys) => {
                let n = keys.len();
                let mut i: usize = 0;
                while i < n
                    invariant
                        0 <= i <= n,
                        n == keys@.len(),
                        out@.len() == i,
                        forall|m: int|
                            0 <= m < i ==> (#[trigger] out@[m])@ == (WtV {
                                name: keys@[m]@,
                                meta: None,
                                children: None,
                            }) && out@[m].wf(),
                    decreases n - i,
                {
                    out.push(WorkTreeNode::new_empty(keys[i].clone()));
                    i = i + 1;
                }
                proof {
                    lemma_wt_models_of_len(out@);
                    assert forall|m: int|
                        0 <= m < goal.len() implies wt_models_of(out@)[m] == goal[m] by {
                        lemma_wt_models_of_index(out@, m);
                    }
                    assert(wt_models_of(out@) =~= goal);
                }
                out
            },
            IndexKind::Array(count) => {
                let mut i: usize = 0;
                while i < count
                    invariant
                        0 <= i <= count,
                        out@.len() == i,
                        forall|m: int|
                            0 <= m < i ==> (#[trigger] out@[m])@ == (WtV {
                                name: dec_str(m),
                                meta: None,
                                children: None,
                            }) && out@[m].wf(),
                    decreases count - i,
                {
                    out.push(WorkTreeNode::new_empty(usize_to_string(i)));
                    i = i + 1;
                }
                proof {
                    lemma_wt_models_of_len(out@);
                    assert forall|m: int|
                        0 <= m < goal.len() implies wt_models_of(out@)[m] == goal[m] by {
                        lemma_wt_models_of_index(out@, m);
                    }
                    assert(wt_models_of(out@) =~= goal);
                }
                out
            },
        }
    }

    fn reindex_in(v: &mut Vec<WorkTreeNode>, pos: usize, j: usize, ix: Index, force: bool) -> (r:
        (usize, usize))
        requires
            forall|i: int| 0 <= i < old(v)@.len() ==> (#[trigger] old(v)@[i]).wf(),
            pos <= old(v)@.len(),
            j < wt_len_sum(wt_models_of(old(v)@.skip(pos as int))),
            wt_len_sum(
                sp_reindex_in(wt_models_of(old(v)@.skip(pos as int)), j as nat, ix@, force),
            ) <= usize::MAX,
        ensures
            final(v)@.len() == old(v)@.len(),
            forall|m: int| 0 <= m < pos ==> final(v)@[m] == old(v)@[m],
            forall|m: int| 0 <= m < final(v)@.len() ==> (#[trigger] final(v)@[m]).wf(),
            wt_models_of(final(v)@.skip(pos as int)) =~= sp_reindex_in(
                wt_models_of(old(v)@.skip(pos as int)),
                j as nat,
                ix@,
                force,
            ),
            wt_len_sum(wt_models_of(final(v)@.skip(pos as int))) == wt_len_sum(
                wt_models_of(old(v)@.skip(pos as int)),
            ) - r.0 + r.1,
            r.0 <= wt_len_sum(wt_models_of(old(v)@.skip(pos as int))),
        decreases wt_len_sum(wt_models_of(old(v)@.skip(pos as int))), 1int,
    {
        let ghost tail = wt_models_of(old(v)@.skip(pos as int));
        if pos == v.len() {
            proof {
                assert(old(v)@.skip(pos as int) =~= Seq::<WorkTreeNode>::empty());
                assert(tail =~= Seq::<WtV>::empty());
            }
            return unreached();
        }
        proof {
            lemma_wt_skip(old(v)@, pos as int);
            assert(old(v)@[pos as int].wf());
        }
        let head_len = v[pos].len;
        if j < head_len {
            let ghost newc = sp_reindex(old(v)@[pos as int]@, j as nat, ix@, force);
            let ghost newtail = seq![newc] + tail.drop_first();
            proof {
                assert(sp_reindex_in(tail, j as nat, ix@, force) =~= newtail);
                assert(newtail[0] == newc);
                assert(newtail.drop_first() =~= tail.drop_first());
                assert(wt_len_sum(newtail) == wt_len(newc) + wt_len_sum(tail.drop_first()));
                assert(wt_len(newc) <= wt_len_sum(newtail));
            }
            let mut c = v.remove(pos);
            let old_len = c.len;
            c.reindex(j, ix, force);
            let new_len = c.len;
            let ghost cg = c;
            v.insert(pos, c);
            proof {
                assert(v@ =~= old(v)@.update(pos as int, cg));
                assert(v@.skip(pos as int)[0] == cg);
                assert(v@.skip(pos as int).drop_first() =~= old(v)@.skip(pos + 1));
                lemma_wt_models_of_len(v@.skip(pos as int));
                assert(wt_models_of(v@.skip(pos as int)) == seq![cg@] + wt_models_of(
                    v@.skip(pos as int).drop_first(),
                ));
                assert(wt_models_of(v@.skip(pos as int)) =~= newtail);
            }
            (old_len, new_len)
        } else {
            proof {
                assert(wt_len(tail[0]) <= wt_len_sum(tail));
                let rest = sp_reindex_in(
                    tail.drop_first(),
                    (j - wt_len(tail[0])) as nat,
                    ix@,
                    force,
                );
                let u = seq![tail[0]] + rest;
                assert(sp_reindex_in(tail, j as nat, ix@, force) =~= u);
                assert(u[0] == tail[0]);
                assert(u.drop_first() =~= rest);
                assert(wt_len_sum(u) == wt_len(tail[0]) + wt_len_sum(rest));
            }
            let r = Self::reindex_in(v, pos + 1, j - head_len, ix, force);
            proof {
                assert(v@[pos as int] == old(v)@[pos as int]);
                lemma_wt_skip(v@, pos as int);
                assert(v@.skip(pos as int)[0] == old(v)@[pos as int]);
                assert(v@.skip(pos as int).drop_first() =~= v@.skip(pos + 1));
                lemma_wt_models_of_len(v@.skip(pos as int));
                assert(wt_models_of(v@.skip(pos as int)) == seq![old(v)@[pos as int]@]
                    + wt_models_of(v@.skip(pos + 1)));
                assert(wt_models_of(v@.skip(pos as int)) =~= sp_reindex_in(
                    tail,
                    j as nat,
                    ix@,
                    force,
                ));
            }
            r
        }
    }

    /// Collapses the node at row `index`: its materialized children are
    /// discarded and every node on the path shrinks accordingly.  The
    /// cached metadata of the closed node stays.
    pub fn close(&mut self, index: usize)
        requires
            old(self).wf(),
            index < wt_len(old(self)@),
        ensures
            final(self)@ == sp_close(old(self)@, index as nat),
            final(self).wf(),
        decreases wt_len(old(self)@), 0int,
    {
        let ghost target = sp_close(old(self)@, index as nat);
        if index == 0 {
            self.child = None;
            self.len = 1;
            proof {
                assert(self@ =~= target);
            }
        } else {
            let mut taken: Option<Vec<WorkTreeNode>> = None;
            core::mem::swap(&mut taken, &mut self.child);
            match taken {
                Some(mut v) => {
                    let ghost oldcs = wt_models_of(v@);
                    proof {
                        assert(v@.skip(0) =~= v@);
                        assert(old(self)@.children == Some(oldcs));
                        assert(wt_len(old(self)@) == 1 + wt_len_sum(oldcs));
                        assert(target.children == Some(sp_close_in(oldcs, (index - 1) as nat)));
                        assert(wt_len(target) == 1 + wt_len_sum(
                            sp_close_in(oldcs, (index - 1) as nat),
                        ));
                    }
                    let deltas = Self::close_in(&mut v, 0, index - 1);
                    proof {
                        assert(v@.skip(0) =~= v@);
                    }
                    self.len = self.len - deltas.0 + deltas.1;
                    self.child = Some(v);
                    proof {
                        assert(self@ =~= target);
                        assert(self.wf());
                    }
                },
                None => {
                    unreached::<()>();
                },
            }
        }
    }

    fn close_in(v: &mut Vec<WorkTreeNode>, pos: usize, j: usize) -> (r: (usize, usize))
        requires
            forall|i: int| 0 <= i < old(v)@.len() ==> (#[trigger] old(v)@[i]).wf(),
            pos <= old(v)@.len(),
            j < wt_len_sum(wt_models_of(old(v)@.skip(pos as int))),
        ensures
            final(v)@.len() == old(v)@.len(),
            forall|m: int| 0 <= m < pos ==> final(v)@[m] == old(v)@[m],
            forall|m: int| 0 <= m < final(v)@.len() ==> (#[trigger] final(v)@[m]).wf(),
            wt_models_of(final(v)@.skip(pos as int)) =~= sp_close_in(
                wt_models_of(old(v)@.skip(pos as int)),
                j as nat,
            ),
            wt_len_sum(wt_models_of(final(v)@.skip(pos as int))) == wt_len_sum(
                wt_models_of(old(v)@.skip(pos as int)),
            ) - r.0 + r.1,
            r.1 <= r.0,
            r.0 <= wt_len_sum(wt_models_of(old(v)@.skip(pos as int))),
        decreases wt_len_sum(wt_models_of(old(v)@.skip(pos as int))), 1int,
    {
        let ghost tail = wt_models_of(old(v)@.skip(pos as int));
        if pos == v.len() {
            proof {
                assert(old(v)@.skip(pos as int) =~= Seq::<WorkTreeNode>::empty());
                assert(tail =~= Seq::<WtV>::empty());
            }
            return unreached();
        }
        proof {
            lemma_wt_skip(old(v)@, pos as int);
            assert(old(v)@[pos as int].wf());
        }
        let head_len = v[pos].len;
        if j < head_len {
            let ghost newc = sp_close(old(v)@[pos as int]@, j as nat);
            let ghost newtail = seq![newc] + tail.drop_first();
            proof {
                lemma_sp_close_shrinks(old(v)@[pos as int]@, j as nat);
                assert(sp_close_in(tail, j as nat) =~= newtail);
                assert(newtail[0] == newc);
                assert(newtail.drop_first() =~= tail.drop_first());
                assert(wt_len_sum(newtail) == wt_len(newc) + wt_len_sum(tail.drop_first()));
            }
            let mut c = v.remove(pos);
            let old_len = c.len;
            c.close(j);
            let new_len = c.len;
            let ghost cg = c;
            v.insert(pos, c);
            proof {
                assert(v@ =~= old(v)@.update(pos as int, cg));
                assert(v@.skip(pos as int)[0] == cg);
                assert(v@.skip(pos as int).drop_first() =~= old(v)@.skip(pos + 1));
                lemma_wt_models_of_len(v@.skip(pos as int));
                assert(wt_models_of(v@.skip(pos as int)) == seq![cg@] + wt_models_of(
                    v@.skip(pos as int).drop_first(),
                ));
                assert(wt_models_of(v@.skip(pos as int)) =~= newtail);
            }
            (old_len, new_len)
        } else {
            proof {
                assert(wt_len(tail[0]) <= wt_len_sum(tail));
                assert(sp_close_in(tail, j as nat) =~= seq![tail[0]] + sp_close_in(
                    tail.drop_first(),
                    (j - wt_len(tail[0])) as nat,
                ));
            }
            let r = Self::close_in(v, pos + 1, j - head_len);
            proof {
                assert(v@[pos as int] == old(v)@[pos as int]);
                lemma_wt_skip(v@, pos as int);
                assert(v@.skip(pos as int)[0] == old(v)@[pos as int]);
                assert(v@.skip(pos as int).drop_first() =~= v@.skip(pos + 1));
                lemma_wt_models_of_len(v@.skip(pos as int));
                assert(wt_models_of(v@.skip(pos as int)) == seq![old(v)@[pos as int]@]
                    + wt_models_of(v@.skip(pos + 1)));
                assert(wt_models_of(v@.skip(pos as int)) =~= sp_close_in(tail, j as nat));
            }
            r
        }
    }
}

/// A selector of a row below the root names at least one step.
pub proof fn lemma_wt_sel_in_len_pos(cs: Seq<WtV>, j: nat)
    requires
        j < wt_len_sum(cs),
    ensures
        wt_sel_in(cs, j).len() >= 1,
    decreases cs,
{
    if cs.len() > 0 {
        if j >= wt_len(cs[0]) {
            lemma_wt_sel_in_len_pos(cs.drop_first(), (j - wt_len(cs[0])) as nat);
        }
    }
}

/// A cached byte count patched for a renamed key: the old key length out,
/// the new one in.
pub open spec fn patched_meta(m: Option<NodeMeta>, ol: nat, nl: nat) -> Option<NodeMeta> {
    match m {
        Some(mm) => Some(
            NodeMeta { n_lines: mm.n_lines, n_bytes: (mm.n_bytes - ol + nl) as usize, kind: mm.kind },
        ),
        None => None,
    }
}

/// Whether the byte-count patch stays inside the machine word.
pub open spec fn meta_patch_ok(m: Option<NodeMeta>, ol: nat, nl: nat) -> bool {
    match m {
        Some(mm) => ol <= mm.n_bytes + nl && mm.n_bytes + nl <= usize::MAX,
        None => true,
    }
}

/// The meaning of [`WorkTreeNode::rename`]: the node at row `i` takes the
/// new name, and the cached byte count of every node above it moves by
/// the difference between the new and the old key length.  The renamed
/// row's own cache stays: its document size does not include its key.
pub open spec fn sp_rename(w: WtV, i: nat, nk: Seq<char>, ol: nat, nl: nat) -> WtV
    decreases w,
{
    if i == 0 {
        WtV { name: nk, meta: w.meta, children: w.children }
    } else {
        match w.children {
            Some(cs) => WtV {
                name: w.name,
                meta: patched_meta(w.meta, ol, nl),
                children: Some(sp_rename_in(cs, (i - 1) as nat, nk, ol, nl)),
            },
            None => w,
        }
    }
}

pub open spec fn sp_rename_in(cs: Seq<WtV>, j: nat, nk: Seq<char>, ol: nat, nl: nat) -> Seq<WtV>
    decreases cs,
{
    if cs.len() == 0 {
        cs
    } else if j < wt_len(cs[0]) {
        seq![sp_rename(cs[0], j, nk, ol, nl)] + cs.drop_first()
    } else {
        seq![cs[0]] + sp_rename_in(cs.drop_first(), (j - wt_len(cs[0])) as nat, nk, ol, nl)
    }
}

/// Every byte-count patch above row `i` stays in range; the renamed row
/// itself is not patched.
pub open spec fn rn_fits(w: WtV, i: nat, ol: nat, nl: nat) -> bool
    decreases w,
{
    i > 0 ==> meta_patch_ok(w.meta, ol, nl) && match w.children {
        Some(cs) => rn_fits_in(cs, (i - 1) as nat, ol, nl),
        None => true,
    }
}

pub open spec fn rn_fits_in(cs: Seq<WtV>, j: nat, ol: nat, nl: nat) -> bool
    decreases cs,
{
    if cs.len() == 0 {
        true
    } else if j < wt_len(cs[0]) {
        rn_fits(cs[0], j, ol, nl)
    } else {
        rn_fits_in(cs.drop_first(), (j - wt_len(cs[0])) as nat, ol, nl)
    }
}

/// Renaming never changes how many rows anything occupies.
pub proof fn lemma_sp_rename_len(w: WtV, i: nat, nk: Seq<char>, ol: nat, nl: nat)
    ensures
        wt_len(sp_rename(w, i, nk, ol, nl)) == wt_len(w),
    decreases w,
{
    if i > 0 {
        match w.children {
            Some(cs) => {
                lemma_sp_rename_in_len(cs, (i - 1) as nat, nk, ol, nl);
            },
            None => {},
        }
    }
}

pub proof fn lemma_sp_rename_in_len(cs: Seq<WtV>, j: nat, nk: Seq<char>, ol: nat, nl: nat)
    ensures
        wt_len_sum(sp_rename_in(cs, j, nk, ol, nl)) == wt_len_sum(cs),
    decreases cs,
{
    if cs.len() > 0 {
        if j < wt_len(cs[0]) {
            lemma_sp_rename_len(cs[0], j, nk, ol, nl);
            let u = seq![sp_rename(cs[0], j, nk, ol, nl)] + cs.drop_first();
            assert(u[0] == sp_rename(cs[0], j, nk, ol, nl));
            assert(u.drop_first() =~= cs.drop_first());
        } else {
            lemma_sp_rename_in_len(cs.drop_first(), (j - wt_len(cs[0])) as nat, nk, ol, nl);
            let u = seq![cs[0]] + sp_rename_in(
                cs.drop_first(),
                (j - wt_len(cs[0])) as nat,
                nk,
                ol,
                nl,
            );
            assert(u[0] == cs[0]);
            assert(u.drop_first() =~= sp_rename_in(
                cs.drop_first(),
                (j - wt_len(cs[0])) as nat,
                nk,
                ol,
                nl,
            ));
        }
    }
}

impl WorkTreeNode {
    /// Renames the node at row `index` and patches the cached byte count
    /// of every node above it by the length difference of the key; the
    /// renamed row's own cache is untouched, since the size of the
    /// document node it mirrors does not include its key.
    pub fn rename(&mut self, index: usize, new_key: String)
        requires
            old(self).wf(),
            index < wt_len(old(self)@),
            rn_fits(
                old(self)@,
                index as nat,
                text_bytes(wt_row(old(self)@, index as nat).name),
                text_bytes(new_key@),
            ),
        ensures
            final(self)@ == sp_rename(
                old(self)@,
                index as nat,
                new_key@,
                text_bytes(wt_row(old(self)@, index as nat).name),
                text_bytes(new_key@),
            ),
            final(self).wf(),
    {
        let _ = self.rename_at(index, new_key);
    }

    fn rename_at(&mut self, index: usize, new_key: String) -> (r: (usize, usize))
        requires
            old(self).wf(),
            index < wt_len(old(self)@),
            rn_fits(
                old(self)@,
                index as nat,
                text_bytes(wt_row(old(self)@, index as nat).name),
                text_bytes(new_key@),
            ),
        ensures
            r.0 == text_bytes(wt_row(old(self)@, index as nat).name),
            r.1 == text_bytes(new_key@),
            final(self)@ == sp_rename(old(self)@, index as nat, new_key@, r.0 as nat, r.1 as nat),
            final(self).wf(),
        decreases wt_len(old(self)@), 0int,
    {
        let ghost ol = text_bytes(wt_row(old(self)@, index as nat).name);
        let ghost nl = text_bytes(new_key@);
        if index == 0 {
            let old_len = str_byte_len(self.name.as_str());
            let new_len = str_byte_len(new_key.as_str());
            proof {
                assert(old_len == ol);
                assert(new_len == nl);
            }
            self.name = new_key;
            proof {
                assert(self@ =~= sp_rename(old(self)@, index as nat, new_key@, ol, nl));
            }
            (old_len, new_len)
        } else {
            let ghost target = sp_rename(old(self)@, index as nat, new_key@, ol, nl);
            let mut taken: Option<Vec<WorkTreeNode>> = None;
            core::mem::swap(&mut taken, &mut self.child);
            match taken {
                Some(mut v) => {
                    let ghost oldcs = wt_models_of(v@);
                    proof {
                        assert(v@.skip(0) =~= v@);
                        assert(old(self)@.children == Some(oldcs));
                        assert(wt_row(old(self)@, index as nat) == wt_row_in(
                            oldcs,
                            (index - 1) as nat,
                        ));
                    }
                    let lens = Self::rename_in(&mut v, 0, index - 1, new_key);
                    proof {
                        assert(v@.skip(0) =~= v@);
                        lemma_sp_rename_in_len(oldcs, (index - 1) as nat, new_key@, ol, nl);
                        assert(lens.0 == ol);
                        assert(lens.1 == nl);
                        assert(meta_patch_ok(old(self)@.meta, ol, nl));
                    }
                    self.meta = match self.meta {
                        Some(mm) => Some(
                            NodeMeta {
                                n_lines: mm.n_lines,
                                n_bytes: mm.n_bytes + lens.1 - lens.0,
                                kind: mm.kind,
                            },
                        ),
                        None => None,
                    };
                    self.child = Some(v);
                    proof {
                        assert(self@ =~= target);
                        assert(self.wf());
                    }
                    lens
                },
                None => unreached(),
            }
        }
    }

    fn rename_in(v: &mut Vec<WorkTreeNode>, pos: usize, j: usize, new_key: String) -> (r: (
        usize,
        usize,
    ))
        requires
            forall|i: int| 0 <= i < old(v)@.len() ==> (#[trigger] old(v)@[i]).wf(),
            pos <= old(v)@.len(),
            j < wt_len_sum(wt_models_of(old(v)@.skip(pos as int))),
            rn_fits_in(
                wt_models_of(old(v)@.skip(pos as int)),
                j as nat,
                text_bytes(wt_row_in(wt_models_of(old(v)@.skip(pos as int)), j as nat).name),
                text_bytes(new_key@),
            ),
        ensures
            r.0 == text_bytes(wt_row_in(wt_models_of(old(v)@.skip(pos as int)), j as nat).name),
            r.1 == text_bytes(new_key@),
            final(v)@.len() == old(v)@.len(),
            forall|m: int| 0 <= m < pos ==> final(v)@[m] == old(v)@[m],
            forall|m: int| 0 <= m < final(v)@.len() ==> (#[trigger] final(v)@[m]).wf(),
            wt_models_of(final(v)@.skip(pos as int)) =~= sp_rename_in(
                wt_models_of(old(v)@.skip(pos as int)),
                j as nat,
                new_key@,
                r.0 as nat,
                r.1 as nat,
            ),
        decreases wt_len_sum(wt_models_of(old(v)@.skip(pos as int))), 1int,
    {
        let ghost tail = wt_models_of(old(v)@.skip(pos as int));
        if pos == v.len() {
            proof {
                assert(old(v)@.skip(pos as int) =~= Seq::<WorkTreeNode>::empty());
                assert(tail =~= Seq::<WtV>::empty());
            }
            return unreached();
        }
        proof {
            lemma_wt_skip(old(v)@, pos as int);
            assert(old(v)@[pos as int].wf());
        }
        let head_len = v[pos].len;
        if j < head_len {
            let ghost ol = text_bytes(wt_row(old(v)@[pos as int]@, j as nat).name);
            let ghost nl = text_bytes(new_key@);
            let ghost newc = sp_rename(old(v)@[pos as int]@, j as nat, new_key@, ol, nl);
            let ghost newtail = seq![newc] + tail.drop_first();
            proof {
                assert(sp_rename_in(tail, j as nat, new_key@, ol, nl) =~= newtail);
            }
            let mut c = v.remove(pos);
            let lens = c.rename_at(j, new_key);
            let ghost cg = c;
            v.insert(pos, c);
            proof {
                assert(v@ =~= old(v)@.update(pos as int, cg));
                assert(v@.skip(pos as int)[0] == cg);
                assert(v@.skip(pos as int).drop_first() =~= old(v)@.skip(pos + 1));
                lemma_wt_models_of_len(v@.skip(pos as int));
                assert(wt_models_of(v@.skip(pos as int)) == seq![cg@] + wt_models_of(
                    v@.skip(pos as int).drop_first(),
                ));
                assert(wt_models_of(v@.skip(pos as int)) =~= newtail);
            }
            lens
        } else {
            proof {
                assert(wt_len(tail[0]) <= wt_len_sum(tail));
            }
            let r = Self::rename_in(v, pos + 1, j - head_len, new_key);
            proof {
                assert(v@[pos as int] == old(v)@[pos as int]);
                lemma_wt_skip(v@, pos as int);
                assert(v@.skip(pos as int)[0] == old(v)@[pos as int]);
                assert(v@.skip(pos as int).drop_first() =~= v@.skip(pos + 1));
                lemma_wt_models_of_len(v@.skip(pos as int));
                assert(wt_models_of(v@.skip(pos as int)) == seq![old(v)@[pos as int]@]
                    + wt_models_of(v@.skip(pos + 1)));
                assert(wt_models_of(v@.skip(pos as int)) =~= sp_rename_in(
                    tail,
                    j as nat,
                    new_key@,
                    r.0 as nat,
                    r.1 as nat,
                ));
            }
            r
        }
    }
}

/// Whether the node at child-list row `j` is a direct child (its own
/// first row) rather than a deeper descendant.
pub open spec fn wt_direct(cs: Seq<WtV>, j: nat) -> bool
    decreases cs,
{
    if cs.len() == 0 {
        false
    } else if j < wt_len(cs[0]) {
        j == 0
    } else {
        wt_direct(cs.drop_first(), (j - wt_len(cs[0])) as nat)
    }
}

/// Children renamed to their decimal positions, as after an array delete.
pub open spec fn renumbered(cs: Seq<WtV>) -> Seq<WtV> {
    Seq::new(cs.len(), |p: int| WtV { name: dec_str(p), meta: cs[p].meta, children: cs[p].children })
}

/// The children of a node after the row at child-list index `j` is
/// deleted: the direct child is removed, a deeper row is handled by the
/// child that holds it.
pub open spec fn sp_delete_in(cs: Seq<WtV>, j: nat, metas: Seq<NodeMeta>) -> Seq<WtV>
    decreases cs,
{
    if cs.len() == 0 {
        cs
    } else if j < wt_len(cs[0]) {
        if j == 0 {
            cs.drop_first()
        } else {
            seq![sp_delete(cs[0], j, metas)] + cs.drop_first()
        }
    } else {
        seq![cs[0]] + sp_delete_in(cs.drop_first(), (j - wt_len(cs[0])) as nat, metas)
    }
}

/// The meaning of [`WorkTreeNode::delete`]: remove the node at row `i`
/// from its parent's materialized child list, rename the remaining
/// children to their positions when that parent mirrors an array, and
/// refresh the cached metadata of every node on the path from the
/// supplied list, root first.  Row `0` (the root) cannot be deleted and
/// the tree stays as it is.
pub open spec fn sp_delete(w: WtV, i: nat, metas: Seq<NodeMeta>) -> WtV
    decreases w,
{
    if i == 0 {
        w
    } else {
        match w.children {
            Some(cs) => {
                let cs1 = sp_delete_in(cs, (i - 1) as nat, metas.drop_first());
                let cs2 = if wt_direct(cs, (i - 1) as nat) && (w.meta matches Some(mm)
                    && mm.kind is Array) {
                    renumbered(cs1)
                } else {
                    cs1
                };
                WtV {
                    name: w.name,
                    meta: if metas.len() > 0 {
                        Some(metas[0])
                    } else {
                        w.meta
                    },
                    children: Some(cs2),
                }
            },
            None => w,
        }
    }
}

/// Renaming children to their positions does not change any row count.
pub proof fn lemma_renumbered_len(cs: Seq<WtV>)
    ensures
        wt_len_sum(renumbered(cs)) == wt_len_sum(cs),
{
    assert(renumbered(cs) =~= Seq::new(
        cs.len(),
        |p: int| WtV { name: dec_str(p + 0), meta: cs[p].meta, children: cs[p].children },
    ));
    lemma_renumber_like_len(cs, 0);
}

/// Row counts ignore names entirely: a pointwise rename keeps every sum.
proof fn lemma_renumber_like_len(cs: Seq<WtV>, base: int)
    ensures
        wt_len_sum(
            Seq::new(
                cs.len(),
                |p: int| WtV { name: dec_str(p + base), meta: cs[p].meta, children: cs[p].children },
            ),
        ) == wt_len_sum(cs),
    decreases cs,
{
    let u = Seq::new(
        cs.len(),
        |p: int| WtV { name: dec_str(p + base), meta: cs[p].meta, children: cs[p].children },
    );
    if cs.len() > 0 {
        assert(u[0].children == cs[0].children);
        assert(wt_len(u[0]) == wt_len(cs[0]));
        let rest = Seq::new(
            cs.drop_first().len(),
            |p: int| WtV {
                name: dec_str(p + (base + 1)),
                meta: cs.drop_first()[p].meta,
                children: cs.drop_first()[p].children,
            },
        );
        assert(u.drop_first() =~= rest);
        lemma_renumber_like_len(cs.drop_first(), base + 1);
        assert(wt_len_sum(u) == wt_len(u[0]) + wt_len_sum(u.drop_first()));
        assert(wt_len_sum(cs) == wt_len(cs[0]) + wt_len_sum(cs.drop_first()));
    } else {
        assert(u =~= Seq::<WtV>::empty());
        assert(wt_len_sum(u) == 0);
    }
}

impl WorkTreeNode {
    /// Removes the node at row `index` from its parent's materialized
    /// child list; when the parent mirrors an array the remaining
    /// children are renamed to their decimal positions.  The cached
    /// metadata of every node on the path is refreshed from
    /// `parent_metas` (root first, one per path node), and the row counts
    /// shrink by the removed node's rows.  Row `0` is the root and is
    /// left untouched.
    pub fn delete(&mut self, index: usize, parent_metas: Vec<NodeMeta>)
        requires
            old(self).wf(),
            index < wt_len(old(self)@),
            index >= 1 ==> parent_metas@.len() == wt_selector(old(self)@, index as nat).len(),
        ensures
            final(self)@ == sp_delete(old(self)@, index as nat, parent_metas@),
            final(self).wf(),
    {
        if index == 0 {
            return ;
        }
        proof {
            assert(parent_metas@.skip(0) =~= parent_metas@);
            match old(self)@.children {
                Some(cs) => {
                    assert(wt_selector(old(self)@, index as nat) == wt_sel_in(
                        cs,
                        (index - 1) as nat,
                    ));
                    lemma_wt_sel_in_len_pos(cs, (index - 1) as nat);
                },
                None => {},
            }
        }
        let _ = self.delete_at(index, &parent_metas, 0);
    }

    fn delete_at(&mut self, index: usize, metas: &Vec<NodeMeta>, d: usize) -> (removed: usize)
        requires
            old(self).wf(),
            1 <= index < wt_len(old(self)@),
            d < metas@.len(),
            metas@.len() - d == wt_selector(old(self)@, index as nat).len(),
        ensures
            final(self)@ == sp_delete(old(self)@, index as nat, metas@.skip(d as int)),
            final(self).wf(),
            wt_len(final(self)@) == wt_len(old(self)@) - removed,
            removed < wt_len(old(self)@),
        decreases wt_len(old(self)@), 0int,
    {
        let ghost ms = metas@.skip(d as int);
        let ghost target = sp_delete(old(self)@, index as nat, ms);
        let mut taken: Option<Vec<WorkTreeNode>> = None;
        core::mem::swap(&mut taken, &mut self.child);
        match taken {
            Some(mut v) => {
                let ghost oldcs = wt_models_of(v@);
                proof {
                    assert(v@.skip(0) =~= v@);
                    assert(old(self)@.children == Some(oldcs));
                    assert(wt_len(old(self)@) == 1 + wt_len_sum(oldcs));
                    assert(wt_selector(old(self)@, index as nat) == wt_sel_in(
                        oldcs,
                        (index - 1) as nat,
                    ));
                    assert(ms.drop_first() =~= metas@.skip(d + 1));
                }
                let ml = metas.len();
                proof {
                    assert(d < ml);
                }
                let r = Self::delete_in(&mut v, 0, index - 1, metas, d + 1);
                proof {
                    assert(v@.skip(0) =~= v@);
                }
                let old_meta = self.meta;
                let is_array = match &old_meta {
                    Some(mm) => match mm.kind {
                        NodeKind::Array => true,
                        _ => false,
                    },
                    None => false,
                };
                if r.1 && is_array {
                    Self::renumber(&mut v);
                }
                self.len = self.len - r.0;
                self.meta = Some(metas[d]);
                self.child = Some(v);
                proof {
                    if r.1 && (old(self)@.meta matches Some(mm) && mm.kind is Array) {
                        lemma_renumbered_len(sp_delete_in(oldcs, (index - 1) as nat, ms.drop_first()));
                    }
                    assert(ms[0] == metas@[d as int]);
                    assert(self@ =~= target);
                    assert(self.wf());
                }
                r.0
            },
            None => unreached(),
        }
    }

    /// Renames every child to its decimal position.
    #[verifier::loop_isolation(false)]
    fn renumber(v: &mut Vec<WorkTreeNode>)
        requires
            forall|i: int| 0 <= i < old(v)@.len() ==> (#[trigger] old(v)@[i]).wf(),
        ensures
            final(v)@.len() == old(v)@.len(),
            forall|m: int| 0 <= m < final(v)@.len() ==> (#[trigger] final(v)@[m]).wf(),
            wt_models_of(final(v)@) =~= renumbered(wt_models_of(old(v)@)),
        decreases old(v)@.len(),
    {
        let ghost goal = renumbered(wt_models_of(old(v)@));
        proof {
            lemma_wt_models_of_len(old(v)@);
        }
        let n = v.len();
        let mut k: usize = 0;
        while k < n
            invariant
                0 <= k <= n,
                n == v@.len(),
                v@.len() == old(v)@.len(),
                forall|m: int| 0 <= m < v@.len() ==> (#[trigger] v@[m]).wf(),
                forall|m: int| k <= m < v@.len() ==> #[trigger] v@[m] == old(v)@[m],
                forall|m: int| 0 <= m < k ==> (#[trigger] v@[m])@ == goal[m],
            decreases n - k,
        {
            proof {
                lemma_wt_models_of_index(old(v)@, k as int);
            }
            let ghost prev = v@;
            let mut c = v.remove(k);
            let ghost cold = c;
            c.name = usize_to_string(k);
            proof {
                assert(wt_len(c@) == wt_len(cold@));
                assert(c.wf());
                assert(c@ == (WtV {
                    name: dec_str(k as int),
                    meta: cold@.meta,
                    children: cold@.children,
                }));
            }
            let ghost cg = c;
            v.insert(k, c);
            proof {
                assert(v@ =~= prev.update(k as int, cg));
                assert(cold == old(v)@[k as int]);
                assert(goal[k as int] == (WtV {
                    name: dec_str(k as int),
                    meta: wt_models_of(old(v)@)[k as int].meta,
                    children: wt_models_of(old(v)@)[k as int].children,
                }));
            }
            k = k + 1;
        }
        proof {
            lemma_wt_models_of_len(v@);
            assert forall|m: int| 0 <= m < goal.len() implies wt_models_of(v@)[m] == goal[m] by {
                lemma_wt_models_of_index(v@, m);
            }
        }
    }

    fn delete_in(v: &mut Vec<WorkTreeNode>, pos: usize, j: usize, metas: &Vec<NodeMeta>, d: usize)
        -> (r: (usize, bool))
        requires
            forall|i: int| 0 <= i < old(v)@.len() ==> (#[trigger] old(v)@[i]).wf(),
            pos <= old(v)@.len(),
            j < wt_len_sum(wt_models_of(old(v)@.skip(pos as int))),
            d <= metas@.len(),
            metas@.len() - d == wt_sel_in(wt_models_of(old(v)@.skip(pos as int)), j as nat).len()
                - 1,
        ensures
            forall|m: int| 0 <= m < pos ==> final(v)@[m] == old(v)@[m],
            final(v)@.len() >= pos,
            forall|m: int| 0 <= m < final(v)@.len() ==> (#[trigger] final(v)@[m]).wf(),
            wt_models_of(final(v)@.skip(pos as int)) =~= sp_delete_in(
                wt_models_of(old(v)@.skip(pos as int)),
                j as nat,
                metas@.skip(d as int),
            ),
            wt_len_sum(wt_models_of(final(v)@.skip(pos as int))) == wt_len_sum(
                wt_models_of(old(v)@.skip(pos as int)),
            ) - r.0,
            r.0 <= wt_len_sum(wt_models_of(old(v)@.skip(pos as int))),
            r.1 == wt_direct(wt_models_of(old(v)@.skip(pos as int)), j as nat),
        decreases wt_len_sum(wt_models_of(old(v)@.skip(pos as int))), 1int,
    {
        let ghost tail = wt_models_of(old(v)@.skip(pos as int));
        let ghost ms = metas@.skip(d as int);
        if pos == v.len() {
            proof {
                assert(old(v)@.skip(pos as int) =~= Seq::<WorkTreeNode>::empty());
                assert(tail =~= Seq::<WtV>::empty());
            }
            return unreached();
        }
        proof {
            lemma_wt_skip(old(v)@, pos as int);
            assert(old(v)@[pos as int].wf());
        }
        let head_len = v[pos].len;
        if j < head_len {
            if j == 0 {
                let c = v.remove(pos);
                proof {
                    assert(sp_delete_in(tail, 0, ms) =~= tail.drop_first());
                    assert(v@.skip(pos as int) =~= old(v)@.skip(pos + 1));
                    assert(wt_models_of(v@.skip(pos as int)) =~= tail.drop_first());
                    assert(wt_len_sum(tail) == wt_len(tail[0]) + wt_len_sum(tail.drop_first()));
                }
                (c.len, true)
            } else {
                let ghost newc = sp_delete(old(v)@[pos as int]@, j as nat, ms);
                let ghost newtail = seq![newc] + tail.drop_first();
                proof {
                    assert(sp_delete_in(tail, j as nat, ms) =~= newtail);
                    assert(newtail[0] == newc);
                    assert(newtail.drop_first() =~= tail.drop_first());
                    assert(wt_sel_in(tail, j as nat) == seq![tail[0].name] + wt_selector(
                        tail[0],
                        j as nat,
                    ));
                }
                proof {
                    match tail[0].children {
                        Some(gcs) => {
                            assert(wt_selector(tail[0], j as nat) == wt_sel_in(
                                gcs,
                                (j - 1) as nat,
                            ));
                            lemma_wt_sel_in_len_pos(gcs, (j - 1) as nat);
                        },
                        None => {},
                    }
                }
                let mut c = v.remove(pos);
                let old_len = c.len;
                let rem = c.delete_at(j, metas, d);
                let new_len = c.len;
                let ghost cg = c;
                v.insert(pos, c);
                proof {
                    assert(v@ =~= old(v)@.update(pos as int, cg));
                    assert(v@.skip(pos as int)[0] == cg);
                    assert(v@.skip(pos as int).drop_first() =~= old(v)@.skip(pos + 1));
                    lemma_wt_models_of_len(v@.skip(pos as int));
                    assert(wt_models_of(v@.skip(pos as int)) == seq![cg@] + wt_models_of(
                        v@.skip(pos as int).drop_first(),
                    ));
                    assert(wt_models_of(v@.skip(pos as int)) =~= newtail);
                    assert(wt_len_sum(newtail) == wt_len(newc) + wt_len_sum(tail.drop_first()));
                    assert(wt_len_sum(tail) == wt_len(tail[0]) + wt_len_sum(tail.drop_first()));
                }
                (rem, false)
            }
        } else {
            proof {
                assert(wt_len(tail[0]) <= wt_len_sum(tail));
                assert(wt_sel_in(tail, j as nat) == wt_sel_in(
                    tail.drop_first(),
                    (j - wt_len(tail[0])) as nat,
                ));
            }
            let r = Self::delete_in(v, pos + 1, j - head_len, metas, d);
            proof {
                assert(v@[pos as int] == old(v)@[pos as int]);
                lemma_wt_skip(v@, pos as int);
                assert(v@.skip(pos as int)[0] == old(v)@[pos as int]);
                assert(v@.skip(pos as int).drop_first() =~= v@.skip(pos + 1));
                lemma_wt_models_of_len(v@.skip(pos as int));
                assert(wt_models_of(v@.skip(pos as int)) == seq![old(v)@[pos as int]@]
                    + wt_models_of(v@.skip(pos + 1)));
                assert(wt_models_of(v@.skip(pos as int)) =~= sp_delete_in(tail, j as nat, ms));
                assert(wt_len_sum(wt_models_of(v@.skip(pos as int))) == wt_len(tail[0])
                    + wt_len_sum(wt_models_of(v@.skip(pos + 1))));
                assert(wt_len_sum(tail) == wt_len(tail[0]) + wt_len_sum(tail.drop_first()));
            }
            r
        }
    }
}

/// A restartable cursor over the formatted rows of a view tree, computed
/// fresh when the cursor is made.
pub struct WorkTreeStringIter {
    rows: Vec<String>,
    pos: usize,
}

impl WorkTreeStringIter {
    pub closed spec fn spec_rows(self) -> Seq<Seq<char>> {
        rows_view(self.rows@)
    }

    pub closed spec fn spec_pos(self) -> int {
        self.pos as int
    }

    /// Starts a fresh walk over the rows of `root`.
    pub fn new(root: &WorkTreeNode) -> (r: WorkTreeStringIter)
        requires
            root.wf(),
        ensures
            r.spec_rows() == wt_rows(root@, 0),
            r.spec_pos() == 0,
    {
        WorkTreeStringIter { rows: root.as_tree_string(), pos: 0 }
    }

    /// Hands out the next row, top to bottom, until none is left.
    pub fn next(&mut self) -> (r: Option<String>)
        ensures
            final(self).spec_rows() == old(self).spec_rows(),
            old(self).spec_pos() < old(self).spec_rows().len() ==> r is Some,
            old(self).spec_pos() < old(self).spec_rows().len() ==> final(self).spec_pos() == old(self).spec_pos() + 1,
            r matches Some(s) ==> old(self).spec_pos() < old(self).spec_rows().len() && s@ == old(self).spec_rows()[old(self).spec_pos()],
            old(self).spec_pos() >= old(self).spec_rows().len() ==> r is None,
            old(self).spec_pos() >= old(self).spec_rows().len() ==> final(self).spec_pos() == old(self).spec_pos(),
    {
        if self.pos < self.rows.len() {
            let row = self.rows[self.pos].clone();
            self.pos = self.pos + 1;
            Some(row)
        } else {
            None
        }
    }
}

} // verus!
