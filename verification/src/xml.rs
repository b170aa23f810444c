//! XML documents as flat lists of nodes in document order.

use crate::text;
use vstd::prelude::*;

verus! {

/// A node of an XML document.
#[derive(Debug)]
pub struct XmlNode {
    /// The namespace of an element's name.
    pub namespace: Option<String>,
    /// The local part of an element's name; empty for other nodes.
    pub name: String,
    /// The text of a text node, or of the text that an element begins with.
    pub text: Option<String>,
    /// How many nodes the node and its descendants are. They stand next to
    /// each other, the node first.
    pub size: usize,
}

/// An [`XmlNode`] with its strings as sequences of characters.
#[verifier::ext_equal]
pub struct NodeView {
    /// See [`XmlNode::namespace`].
    pub namespace: Option<Seq<char>>,
    /// See [`XmlNode::name`].
    pub name: Seq<char>,
    /// See [`XmlNode::text`].
    pub text: Option<Seq<char>>,
    /// See [`XmlNode::size`].
    pub size: nat,
}

impl View for XmlNode {
    type V = NodeView;

    open spec fn view(&self) -> NodeView {
        NodeView {
            namespace: text::opt_text(self.namespace),
            name: self.name@,
            text: text::opt_text(self.text),
            size: self.size as nat,
        }
    }
}

/// The views of the nodes.
pub open spec fn node_views(nodes: Seq<XmlNode>) -> Seq<NodeView> {
    nodes.map_values(|node: XmlNode| node@)
}

/// Whether every node's descendants lie within the list.
pub open spec fn well_nested(nodes: Seq<NodeView>) -> bool {
    forall|i: int| 0 <= i < nodes.len() ==> 1 <= (#[trigger] nodes[i]).size <= nodes.len() - i
}

/// What parsing a text as XML gives: the nodes of the document in document
/// order, the root first, or the message that says why it is none.
pub uninterp spec fn xml_document(xml: Seq<char>) -> Result<Seq<NodeView>, Seq<char>>;

/// The parser's answer by its views.
pub open spec fn document_view(r: Result<Vec<XmlNode>, String>) -> Result<
    Seq<NodeView>,
    Seq<char>,
> {
    match r {
        Ok(nodes) => Ok(node_views(nodes@)),
        Err(message) => Err(message@),
    }
}

/// `roxmltree::Document::parse`, with the nodes that `Document::descendants`
/// goes through. The result depends on the text alone and is named
/// [`xml_document`]. The nodes stand in one list in which the descendants of a
/// node follow it without a gap, so the number of them, from
/// `Node::descendants`, never reaches past the list's end.
#[verifier::external_body]
pub(crate) fn parse_xml(xml: &str) -> (r: Result<Vec<XmlNode>, String>)
    ensures
        document_view(r) == xml_document(xml@),
        r matches Ok(nodes) ==> well_nested(node_views(nodes@)),
{
    let doc = roxmltree::Document::parse(xml).map_err(|e| e.to_string())?;
    let nodes = doc.descendants().map(|n| XmlNode {
        namespace: n.tag_name().namespace().map(str::to_string),
        name: n.tag_name().name().to_string(),
        text: n.text().map(str::to_string),
        size: n.descendants().len(),
    });
    Ok(nodes.collect())
}

/// Whether the node is an element of that name.
pub open spec fn has_tag(node: NodeView, namespace: Seq<char>, name: Seq<char>) -> bool {
    node.namespace == Some(namespace) && node.name == name
}

impl XmlNode {
    /// Whether the node is an element of that name.
    pub fn has_tag_name(&self, namespace: &str, name: &str) -> (r: bool)
        ensures
            r == has_tag(self@, namespace@, name@),
    {
        match &self.namespace {
            Some(own) => text::same_str(own.as_str(), namespace) && text::same_str(
                self.name.as_str(),
                name,
            ),
            None => false,
        }
    }
}

/// The text of the first element of that name, if there is one and it has any.
pub open spec fn first_text(nodes: Seq<NodeView>, namespace: Seq<char>, name: Seq<char>) -> Option<
    Seq<char>,
>
    decreases nodes.len(),
{
    if nodes.len() == 0 {
        None
    } else if has_tag(nodes[0], namespace, name) {
        nodes[0].text
    } else {
        first_text(nodes.drop_first(), namespace, name)
    }
}

/// Whether there is an element of that name.
pub open spec fn any_tag(nodes: Seq<NodeView>, namespace: Seq<char>, name: Seq<char>) -> bool {
    exists|i: int| 0 <= i < nodes.len() && has_tag(#[trigger] nodes[i], namespace, name)
}

/// The text of the first element of that name among the nodes from `from` up
/// to `to`.
pub fn find_text<'a>(
    nodes: &'a Vec<XmlNode>,
    from: usize,
    to: usize,
    namespace: &str,
    name: &str,
) -> (r: Option<&'a str>)
    requires
        from <= to <= nodes@.len(),
    ensures
        text::opt_str(r) == first_text(
            node_views(nodes@).subrange(from as int, to as int),
            namespace@,
            name@,
        ),
{
    let ghost views = node_views(nodes@);
    let mut i: usize = from;
    while i < to
        invariant
            from <= i <= to <= nodes@.len(),
            views == node_views(nodes@),
            first_text(views.subrange(from as int, to as int), namespace@, name@) == first_text(
                views.subrange(i as int, to as int),
                namespace@,
                name@,
            ),
        decreases to - i,
    {
        let ghost here = views.subrange(i as int, to as int);
        assert(here[0] == nodes@[i as int]@);
        if nodes[i].has_tag_name(namespace, name) {
            return match &nodes[i].text {
                Some(t) => Some(t.as_str()),
                None => None,
            };
        }
        assert(here.drop_first() =~= views.subrange(i + 1, to as int));
        i = i + 1;
    }
    None
}

/// Whether there is an element of that name among the nodes from `from` up to
/// `to`.
pub fn find_tag(
    nodes: &Vec<XmlNode>,
    from: usize,
    to: usize,
    namespace: &str,
    name: &str,
) -> (r: bool)
    requires
        from <= to <= nodes@.len(),
    ensures
        r == any_tag(
            node_views(nodes@).subrange(from as int, to as int),
            namespace@,
            name@,
        ),
{
    let ghost sub = node_views(nodes@).subrange(from as int, to as int);
    let mut i: usize = from;
    while i < to
        invariant
            from <= i <= to <= nodes@.len(),
            sub == node_views(nodes@).subrange(from as int, to as int),
            forall|j: int| 0 <= j < i - from ==> !has_tag(#[trigger] sub[j], namespace@, name@),
        decreases to - i,
    {
        assert(sub[i - from] == nodes@[i as int]@);
        if nodes[i].has_tag_name(namespace, name) {
            return true;
        }
        i = i + 1;
    }
    false
}

/// Law: an element goes by its namespace and its name, both.
pub proof fn law_tags(node: NodeView, namespace: Seq<char>, name: Seq<char>)
    ensures
        has_tag(node, namespace, name) <==> node.namespace == Some(namespace) && node.name == name,
{
}

/// Law: the text that is found is that of the first element of that name. Where there is
/// none there is no text, and only there.
pub proof fn law_first_text(nodes: Seq<NodeView>, namespace: Seq<char>, name: Seq<char>, k: int)
    requires
        0 <= k <= nodes.len(),
        forall|i: int| 0 <= i < k ==> !has_tag(#[trigger] nodes[i], namespace, name),
        k < nodes.len() ==> has_tag(nodes[k], namespace, name),
    ensures
        k < nodes.len() ==> first_text(nodes, namespace, name) == nodes[k].text,
        k == nodes.len() ==> first_text(nodes, namespace, name) is None,
        any_tag(nodes, namespace, name) <==> k < nodes.len(),
    decreases k,
{
    if k > 0 {
        let rest = nodes.drop_first();
        assert(!has_tag(nodes[0], namespace, name));
        assert forall|i: int| 0 <= i < k - 1 implies !has_tag(
            #[trigger] rest[i],
            namespace,
            name,
        ) by {
            assert(rest[i] == nodes[i + 1]);
        }
        if k < nodes.len() {
            assert(rest[k - 1] == nodes[k]);
        }
        law_first_text(rest, namespace, name, k - 1);
    }
}

/// Law: nodes are held by the characters of their parts, each in its place.
pub proof fn law_node_views(nodes: Seq<XmlNode>)
    ensures
        node_views(nodes).len() == nodes.len(),
        forall|i: int|
            0 <= i < nodes.len() ==> {
                let view = #[trigger] node_views(nodes)[i];
                &&& view.namespace == text::opt_text(nodes[i].namespace)
                &&& view.name == nodes[i].name@
                &&& view.text == text::opt_text(nodes[i].text)
                &&& view.size == nodes[i].size
            },
{
}

} // verus!
