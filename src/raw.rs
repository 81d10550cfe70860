use vstd::prelude::*;

verus! {

broadcast use vstd::std_specs::vec::group_vec_axioms;

/// A parsed, read-only document tree.
#[derive(Debug)]
pub enum RawTree {
    Null,
    Bool(bool),
    Int(i64),
    /// A 64-bit float, held as its IEEE 754 bit pattern.
    Float(u64),
    Str(String),
    Sequence(Vec<RawTree>),
    Mapping(Vec<(RawTree, RawTree)>),
}

/// The mathematical model of a [`RawTree`].
pub ghost enum RawNode {
    Null,
    Bool(bool),
    Int(int),
    Float(u64),
    Str(Seq<char>),
    Sequence(Seq<RawNode>),
    Mapping(Seq<(RawNode, RawNode)>),
}

impl View for RawTree {
    type V = RawNode;

    open spec fn view(&self) -> RawNode {
        node_of(*self)
    }
}

/// The model of a tree.
pub open spec fn node_of(t: RawTree) -> RawNode
    decreases t,
{
    match t {
        RawTree::Null => RawNode::Null,
        RawTree::Bool(b) => RawNode::Bool(b),
        RawTree::Int(i) => RawNode::Int(i as int),
        RawTree::Float(f) => RawNode::Float(f),
        RawTree::Str(s) => RawNode::Str(s@),
        RawTree::Sequence(items) => RawNode::Sequence(nodes_of(items@)),
        RawTree::Mapping(entries) => RawNode::Mapping(pairs_of(entries@)),
    }
}

/// The models of a sequence of trees.
pub open spec fn nodes_of(items: Seq<RawTree>) -> Seq<RawNode>
    decreases items,
{
    if items.len() == 0 {
        Seq::empty()
    } else {
        nodes_of(items.drop_last()).push(node_of(items.last()))
    }
}

/// The models of a sequence of tree pairs.
pub open spec fn pairs_of(entries: Seq<(RawTree, RawTree)>) -> Seq<(RawNode, RawNode)>
    decreases entries,
{
    if entries.len() == 0 {
        Seq::empty()
    } else {
        pairs_of(entries.drop_last()).push((node_of(entries.last().0), node_of(entries.last().1)))
    }
}

/// A tree and its model are strings together.
pub broadcast proof fn lemma_node_of_str(t: RawTree)
    ensures
        (#[trigger] node_of(t) is Str) == (t is Str),
        t is Str ==> node_of(t) == RawNode::Str(t->Str_0@),
{
}

/// `nodes_of` keeps the length and maps each tree to its model.
pub broadcast proof fn lemma_nodes_of(items: Seq<RawTree>)
    ensures
        #[trigger] nodes_of(items).len() == items.len(),
        forall|i: int| 0 <= i < items.len() ==> nodes_of(items)[i] == items[i]@,
    decreases items.len(),
{
    if items.len() > 0 {
        lemma_nodes_of(items.drop_last());
    }
}

/// `pairs_of` keeps the length and maps each pair to its models.
pub broadcast proof fn lemma_pairs_of(entries: Seq<(RawTree, RawTree)>)
    ensures
        #[trigger] pairs_of(entries).len() == entries.len(),
        forall|i: int| 0 <= i < entries.len() ==> pairs_of(entries)[i] == (entries[i].0@, entries[i].1@),
    decreases entries.len(),
{
    if entries.len() > 0 {
        lemma_pairs_of(entries.drop_last());
    }
}

impl RawTree {
    /// An independent copy of the tree, equal to it.
    #[verifier::loop_isolation(false)]
    pub fn deep_copy(&self) -> (r: RawTree)
        ensures
            r@ == self@,
        decreases self,
    {
        match self {
            RawTree::Null => RawTree::Null,
            RawTree::Bool(b) => RawTree::Bool(*b),
            RawTree::Int(i) => RawTree::Int(*i),
            RawTree::Float(f) => RawTree::Float(*f),
            RawTree::Str(s) => RawTree::Str(s.clone()),
            RawTree::Sequence(items) => {
                let mut out: Vec<RawTree> = Vec::new();
                let mut i: usize = 0;
                while i < items.len()
                    invariant
                        i <= items.len(),
                        out.len() == i,
                        forall|j: int| 0 <= j < i ==> out[j]@ == items[j]@,
                    decreases items.len() - i,
                {
                    proof {
                        assert(decreases_to!(items => items[i as int]));
                    }
                    out.push(items[i].deep_copy());
                    i += 1;
                }
                let r = RawTree::Sequence(out);
                proof {
                    lemma_nodes_of(out@);
                    lemma_nodes_of(items@);
                }
                assert(r@->Sequence_0 =~= self@->Sequence_0);
                r
            },
            RawTree::Mapping(entries) => {
                let mut out: Vec<(RawTree, RawTree)> = Vec::new();
                let mut i: usize = 0;
                while i < entries.len()
                    invariant
                        i <= entries.len(),
                        out.len() == i,
                        forall|j: int| 0 <= j < i ==> out[j].0@ == entries[j].0@ && out[j].1@ == entries[j].1@,
                    decreases entries.len() - i,
                {
                    proof {
                        assert(decreases_to!(entries => entries[i as int]));
                    }
                    let k = entries[i].0.deep_copy();
                    let v = entries[i].1.deep_copy();
                    out.push((k, v));
                    i += 1;
                }
                let r = RawTree::Mapping(out);
                proof {
                    lemma_pairs_of(out@);
                    lemma_pairs_of(entries@);
                }
                assert(r@->Mapping_0 =~= self@->Mapping_0);
                r
            },
        }
    }
}

} // verus!
