//! The consumer dependency graph, written out.

use crate::text;
use vstd::prelude::*;
use vstd::string::*;

verus! {

/// A consumer and the names that it depends on.
#[derive(Debug, Clone, PartialEq, Eq)]
pub struct TopologyNode {
    pub name: String,
    pub deps: Vec<String>,
}

/// A consumer and the names that it depends on, as text.
pub struct NodeText {
    pub name: Seq<char>,
    pub deps: Seq<Seq<char>>,
}

impl View for TopologyNode {
    type V = NodeText;

    open spec fn view(&self) -> NodeText {
        NodeText { name: self.name@, deps: text::texts(self.deps@) }
    }
}

/// The texts of a list of consumers.
pub open spec fn node_texts(nodes: Seq<TopologyNode>) -> Seq<NodeText> {
    Seq::new(nodes.len(), |p: int| nodes[p]@)
}

/// The number of characters of the longest name.
pub open spec fn name_width(nodes: Seq<NodeText>) -> nat
    decreases nodes.len(),
{
    if nodes.len() == 0 {
        0
    } else {
        let rest = name_width(nodes.drop_last());
        if nodes.last().name.len() > rest {
            nodes.last().name.len()
        } else {
            rest
        }
    }
}

/// The line of one consumer: its name, filled up to `width`, and what it depends on.
pub open spec fn line(node: NodeText, width: int) -> Seq<char> {
    "  "@ + text::padded(node.name, width) + " <- "@ + (if node.deps.len() == 0 {
        "producer"@
    } else {
        text::joined(node.deps, ", "@)
    }) + "\n"@
}

/// The lines of the consumers, one after the other.
pub open spec fn lines(nodes: Seq<NodeText>, width: int) -> Seq<char>
    decreases nodes.len(),
{
    if nodes.len() == 0 {
        Seq::empty()
    } else {
        lines(nodes.drop_last(), width) + line(nodes.last(), width)
    }
}

/// The whole listing.
pub open spec fn listing(nodes: Seq<NodeText>) -> Seq<char> {
    "Disruptor topology:\n"@ + lines(nodes, name_width(nodes) as int)
}

/// The number of characters of the longest name. Characters, not bytes: padding is
/// measured in characters.
fn width_of(nodes: &[TopologyNode]) -> (r: usize)
    ensures
        r == name_width(node_texts(nodes@)),
{
    let ghost all = node_texts(nodes@);
    let mut width: usize = 0;
    let mut p: usize = 0;
    while p < nodes.len()
        invariant
            p <= nodes@.len(),
            all == node_texts(nodes@),
            width == name_width(all.take(p as int)),
        decreases nodes@.len() - p,
    {
        let ghost longer = all.take(p + 1);
        assert(longer.drop_last() =~= all.take(p as int));
        assert(longer.last().name == nodes@[p as int].name@);
        let len: usize = nodes[p].name.as_str().unicode_len();
        if len > width {
            width = len;
        }
        p = p + 1;
    }
    assert(all.take(p as int) =~= all);
    width
}

/// Writes out the consumers, which stand in topological order.
pub fn format_topology(nodes: &[TopologyNode]) -> (r: String)
    ensures
        r@ == listing(node_texts(nodes@)),
{
    let ghost all = node_texts(nodes@);
    let width: usize = width_of(nodes);
    let mut out: String = "Disruptor topology:\n".to_owned();
    let mut p: usize = 0;
    assert(out@ =~= "Disruptor topology:\n"@ + lines(all.take(0), width as int));
    while p < nodes.len()
        invariant
            p <= nodes@.len(),
            all == node_texts(nodes@),
            out@ == "Disruptor topology:\n"@ + lines(all.take(p as int), width as int),
        decreases nodes@.len() - p,
    {
        let ghost longer = all.take(p + 1);
        let ghost before = out@;
        assert(longer.drop_last() =~= all.take(p as int));
        assert(longer.last() == nodes@[p as int]@);
        out.append("  ");
        out.append(text::pad(nodes[p].name.as_str(), width).as_str());
        out.append(" <- ");
        if nodes[p].deps.len() == 0 {
            out.append("producer");
        } else {
            out.append(text::join(nodes[p].deps.as_slice(), ", ").as_str());
        }
        out.append("\n");
        assert(out@ =~= before + line(longer.last(), width as int));
        assert(out@ =~= "Disruptor topology:\n"@ + lines(longer, width as int));
        p = p + 1;
    }
    assert(all.take(p as int) =~= all);
    out
}

/// The consumers to be listed keep their names and their dependencies, one for one.
pub proof fn law_nodes_keep_their_texts(nodes: Seq<TopologyNode>, p: int)
    requires
        0 <= p < nodes.len(),
    ensures
        node_texts(nodes).len() == nodes.len(),
        node_texts(nodes)[p].name == nodes[p].name@,
        node_texts(nodes)[p].deps.len() == nodes[p].deps@.len(),
        forall|k: int|
            0 <= k < nodes[p].deps@.len() ==> #[trigger] node_texts(nodes)[p].deps[k]
                == nodes[p].deps@[k]@,
{
}

/// The width is that of the longest name: every name fits, and one fills it.
pub proof fn law_width_fits_the_longest_name(nodes: Seq<NodeText>)
    ensures
        forall|p: int|
            0 <= p < nodes.len() ==> (#[trigger] nodes[p]).name.len() <= name_width(nodes),
        nodes.len() == 0 ==> name_width(nodes) == 0,
        nodes.len() > 0 ==> exists|p: int|
            0 <= p < nodes.len() && (#[trigger] nodes[p]).name.len() == name_width(nodes),
    decreases nodes.len(),
{
    if nodes.len() > 0 {
        let head = nodes.drop_last();
        law_width_fits_the_longest_name(head);
        assert forall|p: int| 0 <= p < nodes.len() implies (#[trigger] nodes[p]).name.len()
            <= name_width(nodes) by {
            if p < head.len() {
                assert(head[p] == nodes[p]);
            }
        }
        if nodes.last().name.len() == name_width(nodes) {
            assert(nodes[nodes.len() - 1].name.len() == name_width(nodes));
        } else {
            let p = choose|p: int|
                0 <= p < head.len() && (#[trigger] head[p]).name.len() == name_width(head);
            assert(nodes[p] == head[p]);
        }
    }
}

/// A listing has a heading and then one line for each consumer, in the given order: the
/// name, filled up to the longest name, and either the producer or all that the consumer
/// depends on.
pub proof fn law_listings_have_a_line_for_each(nodes: Seq<NodeText>, node: NodeText, width: int)
    ensures
        listing(nodes) == "Disruptor topology:\n"@ + lines(nodes, name_width(nodes) as int),
        lines(Seq::empty(), width) == Seq::<char>::empty(),
        lines(nodes.push(node), width) == lines(nodes, width) + line(node, width),
        node.deps.len() == 0 ==> line(node, width) == "  "@ + text::padded(node.name, width)
            + " <- "@ + "producer"@ + "\n"@,
        node.deps.len() > 0 ==> line(node, width) == "  "@ + text::padded(node.name, width)
            + " <- "@ + text::joined(node.deps, ", "@) + "\n"@,
{
    assert(nodes.push(node).drop_last() =~= nodes);
}

} // verus!
