//! Rich-text documents as trees of nodes, and their plain-text projection.
use vstd::prelude::*;
use crate::order::text_views;
use crate::text::{join_spec, join_trimmed, trim_spec};

verus! {

broadcast use vstd::std_specs::vec::axiom_vec_index_decreases;

/// A node of a rich-text document: an optional text and child nodes.
pub struct DocNode {
    pub text: Option<String>,
    pub children: Vec<DocNode>,
}

/// The text of a node itself, as a list of zero or one texts.
pub open spec fn own_text(n: DocNode) -> Seq<Seq<char>> {
    match n.text {
        Some(t) => seq![t@],
        None => Seq::empty(),
    }
}

/// The texts of node `n` and its descendants, in document order.
pub open spec fn node_texts(n: DocNode) -> Seq<Seq<char>>
    decreases n, 1int, 0int,
{
    own_text(n) + children_texts(n, n.children@.len() as int)
}

/// The texts of the first `k` children of `n` and their descendants.
pub open spec fn children_texts(n: DocNode, k: int) -> Seq<Seq<char>>
    decreases n, 0int, k,
{
    if k <= 0 || k > n.children@.len() {
        Seq::empty()
    } else {
        children_texts(n, k - 1) + node_texts(n.children@[k - 1])
    }
}

/// The texts of the nodes `ns` and their descendants, in document order.
pub open spec fn forest_texts(ns: Seq<DocNode>) -> Seq<Seq<char>>
    decreases ns.len(),
{
    if ns.len() == 0 {
        Seq::empty()
    } else {
        forest_texts(ns.drop_last()) + node_texts(ns.last())
    }
}

fn collect_node(n: &DocNode, out: &mut Vec<String>)
    ensures
        text_views(final(out)@) == text_views(old(out)@) + node_texts(*n),
    decreases n, 1int, 0int,
{
    let ghost start = text_views(out@);
    match &n.text {
        Some(t) => {
            out.push(t.clone());
        },
        None => {},
    }
    assert(text_views(out@) =~= start + own_text(*n));
    let mut k: usize = 0;
    while k < n.children.len()
        invariant
            k <= n.children@.len(),
            text_views(out@) == start + own_text(*n) + children_texts(*n, k as int),
        decreases n.children@.len() - k,
    {
        collect_node(&n.children[k], out);
        assert(text_views(out@) =~= start + own_text(*n) + children_texts(*n, k + 1));
        k = k + 1;
    }
}

/// The plain text of a rich-text document: the texts of its nodes in
/// document order, joined by single spaces, then trimmed.
pub fn extract_plain_text_from_json(doc: &Vec<DocNode>) -> (r: String)
    ensures
        r@ == trim_spec(join_spec(forest_texts(doc@))),
{
    let mut parts: Vec<String> = Vec::new();
    let mut i: usize = 0;
    while i < doc.len()
        invariant
            i <= doc@.len(),
            text_views(parts@) == forest_texts(doc@.subrange(0, i as int)),
        decreases doc@.len() - i,
    {
        proof {
            let s = doc@.subrange(0, i + 1);
            assert(s.drop_last() =~= doc@.subrange(0, i as int));
        }
        collect_node(&doc[i], &mut parts);
        i = i + 1;
    }
    assert(doc@.subrange(0, doc@.len() as int) =~= doc@);
    join_trimmed(&parts)
}

} // verus!
