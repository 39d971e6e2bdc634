//! Rendering of a decoded tree as indented XML text.
use vstd::prelude::*;

use crate::xml::{
    lemma_cdata_view, lemma_element_view, lemma_node_view, lemma_nodes_view, nodes_view, Cdata,
    Element, ElementModel, Node, NodeModel,
};

verus! {

/// `s` with every line feed replaced by `sep`.
pub open spec fn replace_newlines(s: Seq<char>, sep: Seq<char>) -> Seq<char>
    decreases s.len(),
{
    if s.len() == 0 {
        Seq::empty()
    } else {
        replace_newlines(s.drop_last(), sep) + if s.last() == '\n' {
            sep
        } else {
            seq![s.last()]
        }
    }
}

/// Relies on `str::replace` with a `char` pattern: every line feed of `s`
/// replaced by `sep`, the other characters kept in order.
#[verifier::external_body]
fn replace_newlines_in(s: &str, sep: &str) -> (r: String)
    ensures
        r@ == replace_newlines(s@, sep@),
{
    s.replace('\n', sep)
}

/// The indentation of nesting level `level`: two spaces a level.
pub open spec fn indent(level: nat) -> Seq<char> {
    Seq::new(2 * level, |_i: int| ' ')
}

/// The ` key="value"` text of the attribute pairs `s`, in order.
pub open spec fn attributes_text(s: Seq<(Seq<char>, Seq<char>)>) -> Seq<char>
    decreases s.len(),
{
    if s.len() == 0 {
        Seq::empty()
    } else {
        attributes_text(s.drop_last()) + " "@ + s.last().0 + "=\""@ + s.last().1 + "\""@
    }
}

/// The start tag of `e`, self-closing when `e` has no children.
pub open spec fn start_tag_text(e: ElementModel) -> Seq<char> {
    let open = "<"@ + e.tag + attributes_text(e.attributes);
    if e.children.len() == 0 {
        open + "/"@ + ">"@
    } else {
        open + ">"@
    }
}

/// The end tag of `e`.
pub open spec fn end_tag_text(e: ElementModel) -> Seq<char> {
    "</"@ + e.tag + ">"@
}

/// A text node at nesting level `level`: a CDATA section whose continuation
/// lines are indented to the level.
pub open spec fn cdata_text(data: Seq<char>, level: nat) -> Seq<char> {
    "<![CDATA["@ + replace_newlines(data, "\n"@ + indent(level)) + "]]>"@
}

/// The lines of node `n` at nesting level `level`.
pub open spec fn node_text(n: NodeModel, level: nat) -> Seq<char>
    decreases n,
{
    match n {
        NodeModel::Element(e) => {
            let head = indent(level) + start_tag_text(e) + "\n"@ + nodes_text(e.children, level + 1);
            if e.children.len() == 0 {
                head
            } else {
                head + indent(level) + end_tag_text(e) + "\n"@
            }
        },
        NodeModel::Text(d) => indent(level) + cdata_text(d, level) + "\n"@,
    }
}

/// The lines of the nodes `s`, in order, at nesting level `level`.
pub open spec fn nodes_text(s: Seq<NodeModel>, level: nat) -> Seq<char>
    decreases s,
{
    if s.len() == 0 {
        Seq::empty()
    } else {
        nodes_text(s.drop_last(), level) + node_text(s.last(), level)
    }
}

/// How deep the tree of `n` goes: a leaf counts one.
pub open spec fn node_depth(n: NodeModel) -> nat
    decreases n,
{
    match n {
        NodeModel::Element(e) => 1 + nodes_depth(e.children),
        NodeModel::Text(_) => 1,
    }
}

/// The greatest depth among the nodes `s`, zero when there are none.
pub open spec fn nodes_depth(s: Seq<NodeModel>) -> nat
    decreases s,
{
    if s.len() == 0 {
        0
    } else {
        let a = nodes_depth(s.drop_last());
        let b = node_depth(s.last());
        if a >= b {
            a
        } else {
            b
        }
    }
}

proof fn lemma_nodes_depth_bounds(s: Seq<NodeModel>, i: int)
    requires
        0 <= i < s.len(),
    ensures
        node_depth(s[i]) <= nodes_depth(s),
    decreases s.len(),
{
    if i < s.len() - 1 {
        assert(s.drop_last()[i] == s[i]);
        lemma_nodes_depth_bounds(s.drop_last(), i);
    }
}

/// Appends the indentation of level `level`.
fn push_indent(out: &mut String, level: usize)
    ensures
        final(out)@ == old(out)@ + indent(level as nat),
{
    let mut i: usize = 0;
    assert(out@ =~= old(out)@ + indent(0));
    while i < level
        invariant
            i <= level,
            out@ == old(out)@ + indent(i as nat),
        decreases level - i,
    {
        proof {
            reveal_strlit("  ");
        }
        out.append("  ");
        i = i + 1;
        assert(out@ =~= old(out)@ + indent(i as nat));
    }
}

/// The CDATA section of a text node at nesting level `level`.
pub fn format_cdata(e: &Cdata, level: usize) -> (r: String)
    ensures
        r@ == cdata_text(e@, level as nat),
{
    let mut sep = String::from_str("\n");
    push_indent(&mut sep, level);
    let mut s = String::from_str("<![CDATA[");
    proof {
        lemma_cdata_view(e);
    }
    s.append(replace_newlines_in(e.data.as_str(), sep.as_str()).as_str());
    s.append("]]>");
    s
}

/// The start tag of an element, self-closing when it has no children.
pub fn format_start_element(e: &Element) -> (r: String)
    ensures
        r@ == start_tag_text(e@),
{
    proof {
        lemma_element_view(e);
    }
    let mut s = String::from_str("<");
    s.append(e.tag.as_str());
    let mut i: usize = 0;
    assert(e@.attributes.take(0) =~= Seq::<(Seq<char>, Seq<char>)>::empty());
    assert(s@ =~= "<"@ + e@.tag + attributes_text(e@.attributes.take(0)));
    while i < e.attributes.len()
        invariant
            i <= e.attributes.len(),
            e@.attributes == crate::xml::pairs_view(e.attributes@),
            s@ == "<"@ + e@.tag + attributes_text(e@.attributes.take(i as int)),
        decreases e.attributes.len() - i,
    {
        let ghost before = s@;
        s.append(" ");
        s.append(e.attributes[i].0.as_str());
        s.append("=\"");
        s.append(e.attributes[i].1.as_str());
        s.append("\"");
        i = i + 1;
        assert(e@.attributes.take(i as int).drop_last() =~= e@.attributes.take(i - 1));
    }
    assert(e@.attributes.take(i as int) =~= e@.attributes);
    proof {
        lemma_nodes_view(e.children@);
    }
    if e.children.len() == 0 {
        s.append("/");
    }
    s.append(">");
    s
}

/// The end tag of an element.
pub fn format_end_element(e: &Element) -> (r: String)
    ensures
        r@ == end_tag_text(e@),
{
    proof {
        lemma_element_view(e);
    }
    let mut s = String::from_str("</");
    s.append(e.tag.as_str());
    s.append(">");
    s
}

/// Appends the lines of node `e` at nesting level `level` to `output`.
pub fn format_xml(e: &Node, level: usize, output: &mut String)
    requires
        level + node_depth(e@) <= usize::MAX,
    ensures
        final(output)@ == old(output)@ + node_text(e@, level as nat),
    decreases node_depth(e@),
{
    proof {
        lemma_node_view(e);
    }
    match e {
        Node::Element(el) => {
            proof {
                lemma_element_view(el);
            }
            push_indent(output, level);
            output.append(format_start_element(el).as_str());
            output.append("\n");
            let ghost head = output@;
            let ghost kids = nodes_view(el.children@);
            proof {
                lemma_nodes_view(el.children@);
                assert(kids.take(0) =~= Seq::<NodeModel>::empty());
                assert(output@ =~= head + nodes_text(kids.take(0), (level + 1) as nat));
            }
            let mut i: usize = 0;
            while i < el.children.len()
                invariant
                    i <= el.children.len(),
                    kids == nodes_view(el.children@),
                    kids.len() == el.children.len(),
                    forall|j: int| 0 <= j < kids.len() ==> #[trigger] kids[j] == el.children@[j]@,
                    level + 1 + nodes_depth(kids) <= usize::MAX,
                    node_depth(e@) == 1 + nodes_depth(kids),
                    output@ == head + nodes_text(kids.take(i as int), (level + 1) as nat),
                decreases el.children.len() - i,
            {
                proof {
                    lemma_nodes_depth_bounds(kids, i as int);
                }
                format_xml(&el.children[i], level + 1, output);
                i = i + 1;
                assert(kids.take(i as int).drop_last() =~= kids.take(i - 1));
            }
            assert(kids.take(i as int) =~= kids);
            if el.children.len() != 0 {
                push_indent(output, level);
                output.append(format_end_element(el).as_str());
                output.append("\n");
            }
        },
        Node::Cdata(c) => {
            push_indent(output, level);
            output.append(format_cdata(c, level).as_str());
            output.append("\n");
        },
    }
}


/// The depth of the tree of `n`, or `None` where it does not fit in a
/// `usize`.
pub fn tree_depth(n: &Node) -> (r: Option<usize>)
    ensures
        match r {
            Some(d) => d == node_depth(n@),
            None => node_depth(n@) > usize::MAX,
        },
    decreases node_depth(n@),
{
    proof {
        lemma_node_view(n);
    }
    match n {
        Node::Cdata(_) => Some(1),
        Node::Element(el) => {
            proof {
                lemma_element_view(el);
                lemma_nodes_view(el.children@);
            }
            let ghost kids = nodes_view(el.children@);
            let mut best: usize = 0;
            let mut i: usize = 0;
            assert(kids.take(0) =~= Seq::<NodeModel>::empty());
            while i < el.children.len()
                invariant
                    i <= el.children.len(),
                    kids == nodes_view(el.children@),
                    kids.len() == el.children.len(),
                    forall|j: int| 0 <= j < kids.len() ==> #[trigger] kids[j] == el.children@[j]@,
                    node_depth(n@) == 1 + nodes_depth(kids),
                    best == nodes_depth(kids.take(i as int)),
                decreases el.children.len() - i,
            {
                proof {
                    lemma_nodes_depth_bounds(kids, i as int);
                }
                let d = match tree_depth(&el.children[i]) {
                    None => {
                        return None;
                    },
                    Some(d) => d,
                };
                if d > best {
                    best = d;
                }
                i = i + 1;
                assert(kids.take(i as int).drop_last() =~= kids.take(i - 1));
            }
            assert(kids.take(i as int) =~= kids);
            if best == usize::MAX {
                None
            } else {
                Some(best + 1)
            }
        },
    }
}

} // verus!
