//! The document tree the style resolver consumes: text and element nodes,
//! with tag names and attribute maps.

use crate::strmap::StrMap;
use vstd::prelude::*;

verus! {

broadcast use vstd::std_specs::vec::group_vec_axioms;

/// Attribute name to attribute value.
pub type AttrMap = StrMap<String>;

/// Mathematical model of an element: its tag name and attributes.
pub struct ElementDataV {
    pub tag_name: Seq<char>,
    pub attributes: Map<Seq<char>, Seq<char>>,
}

/// Mathematical model of what a node is.
pub enum NodeTypeV {
    Text(Seq<char>),
    Element(ElementDataV),
}

/// Mathematical model of a document node.
pub struct NodeV {
    pub childlen: Seq<NodeV>,
    pub node_type: NodeTypeV,
}

/// An element: a tag name and an attribute map.
#[derive(Debug, PartialEq)]
pub struct ElementData {
    pub tag_name: String,
    pub attributes: AttrMap,
}

/// What a node is: a run of text, or an element.
#[derive(Debug, PartialEq)]
pub enum NodeType {
    Text(String),
    Element(ElementData),
}

/// A document node: its children and its kind.
#[derive(Debug, PartialEq)]
pub struct Node {
    pub childlen: Vec<Node>,
    pub node_type: NodeType,
}

impl View for ElementData {
    type V = ElementDataV;

    open spec fn view(&self) -> ElementDataV {
        ElementDataV { tag_name: self.tag_name@, attributes: self.attributes@ }
    }
}

impl View for NodeType {
    type V = NodeTypeV;

    open spec fn view(&self) -> NodeTypeV {
        match self {
            NodeType::Text(s) => NodeTypeV::Text(s@),
            NodeType::Element(e) => NodeTypeV::Element(e@),
        }
    }
}

/// The views of a sequence of nodes, in order.
pub open spec fn children_view(cs: Seq<Node>) -> Seq<NodeV>
    decreases cs,
{
    if cs.len() == 0 {
        Seq::empty()
    } else {
        children_view(cs.drop_last()).push(cs.last().view())
    }
}

impl View for Node {
    type V = NodeV;

    open spec fn view(&self) -> NodeV
        decreases self,
    {
        NodeV { childlen: children_view(self.childlen@), node_type: self.node_type@ }
    }
}

/// `children_view` keeps the sequence's length.
pub proof fn lemma_children_view_len(cs: Seq<Node>)
    ensures
        children_view(cs).len() == cs.len(),
    decreases cs.len(),
{
    if cs.len() > 0 {
        lemma_children_view_len(cs.drop_last());
        assert(children_view(cs) == children_view(cs.drop_last()).push(cs.last().view()));
        assert(children_view(cs.drop_last()).len() == cs.drop_last().len());
        assert(cs.drop_last().len() == cs.len() - 1);
    }
}

/// The view of the sequence of children holds each child's view.
pub proof fn lemma_children_view_index(cs: Seq<Node>, i: int)
    requires
        0 <= i < cs.len(),
    ensures
        children_view(cs)[i] == cs[i]@,
    decreases cs.len(),
{
    lemma_children_view_len(cs);
    assert(children_view(cs) == children_view(cs.drop_last()).push(cs.last().view()));
    lemma_children_view_len(cs.drop_last());
    if i < cs.len() - 1 {
        lemma_children_view_index(cs.drop_last(), i);
        assert(children_view(cs)[i] == children_view(cs.drop_last())[i]);
        assert(cs.drop_last()[i] == cs[i]);
    } else {
        assert(children_view(cs)[i] == cs.last().view());
        assert(cs.last() == cs[i]);
    }
}

/// A node holding a run of text, with no children.
pub fn text(data: String) -> (r: Node)
    ensures
        r@.node_type == NodeTypeV::Text(data@),
        r@.childlen.len() == 0,
{
    Node { childlen: Vec::new(), node_type: NodeType::Text(data) }
}

/// An element node with the given tag name, attributes and children.
pub fn elem(name: String, attrs: AttrMap, children: Vec<Node>) -> (r: Node)
    ensures
        r@.node_type == NodeTypeV::Element(ElementDataV { tag_name: name@, attributes: attrs@ }),
        r@.childlen.len() == children@.len(),
        forall|i: int| 0 <= i < children@.len() ==> r@.childlen[i] == children@[i]@,
{
    proof {
        lemma_children_view_len(children@);
        assert forall|i: int| 0 <= i < children@.len() implies children_view(children@)[i]
            == children@[i]@ by {
            lemma_children_view_index(children@, i);
        }
    }
    Node { childlen: children, node_type: NodeType::Element(ElementData { tag_name: name, attributes: attrs }) }
}

/// The `class` attribute of an element split on single spaces, as the set of
/// class names the element carries; an absent attribute yields no names.
pub open spec fn spec_classes(e: ElementDataV) -> Seq<Seq<char>> {
    if e.attributes.contains_key("class"@) {
        split_on_space(e.attributes["class"@])
    } else {
        Seq::empty()
    }
}

/// Splits a string on single spaces; consecutive spaces yield empty pieces.
pub open spec fn split_on_space(s: Seq<char>) -> Seq<Seq<char>> {
    split_acc(s, Seq::empty())
}

/// Splitting helper: `cur` is the piece read so far.
pub open spec fn split_acc(s: Seq<char>, cur: Seq<char>) -> Seq<Seq<char>>
    decreases s.len(),
{
    if s.len() == 0 {
        seq![cur]
    } else if s[0] == ' ' {
        seq![cur] + split_acc(s.drop_first(), Seq::empty())
    } else {
        split_acc(s.drop_first(), cur.push(s[0]))
    }
}

impl ElementData {
    /// The element's `id` attribute, if present.
    pub fn id(&self) -> (r: Option<&String>)
        ensures
            match r {
                Some(v) => self@.attributes.contains_key("id"@) && v@ == self@.attributes["id"@],
                None => !self@.attributes.contains_key("id"@),
            },
    {
        proof {
            reveal_strlit("id");
        }
        self.attributes.get("id")
    }

    /// The element's class names: its `class` attribute split on spaces.
    pub fn classes(&self) -> (r: Vec<String>)
        ensures
            r@.map_values(|c: String| c@) == spec_classes(self@),
    {
        proof {
            reveal_strlit("class");
        }
        match self.attributes.get("class") {
            None => {
                let r: Vec<String> = Vec::new();
                proof {
                    assert(r@.map_values(|c: String| c@) =~= spec_classes(self@));
                }
                r
            },
            Some(classlist) => split_string_on_space(classlist.as_str()),
        }
    }
}

/// Splits a string on single spaces into owned pieces.
pub fn split_string_on_space(s: &str) -> (r: Vec<String>)
    ensures
        r@.map_values(|c: String| c@) == split_on_space(s@),
{
    let n = s.unicode_len();
    let mut r: Vec<String> = Vec::new();
    let mut start: usize = 0;
    let mut pos: usize = 0;
    proof {
        assert(s@.subrange(0, n as int) =~= s@);
        assert(s@.subrange(0, 0) =~= Seq::<char>::empty());
        assert(r@.map_values(|c: String| c@) =~= Seq::<Seq<char>>::empty());
        assert(Seq::<Seq<char>>::empty() + split_acc(s@, Seq::empty()) =~= split_acc(
            s@,
            Seq::empty(),
        ));
    }
    while pos < n
        invariant
            start <= pos <= n,
            n == s@.len(),
            forall|j: int| start <= j < pos ==> s@[j] != ' ',
            split_on_space(s@) =~= r@.map_values(|c: String| c@) + split_acc(
                s@.subrange(pos as int, n as int),
                s@.subrange(start as int, pos as int),
            ),
        decreases n - pos,
    {
        let ghost rest = s@.subrange(pos as int, n as int);
        let ghost cur = s@.subrange(start as int, pos as int);
        let ghost rmap0 = r@.map_values(|c: String| c@);
        if s.get_char(pos) == ' ' {
            let piece = s.substring_char(start, pos).to_owned();
            r.push(piece);
            start = pos + 1;
            pos = pos + 1;
            proof {
                assert(rest[0] == ' ');
                assert(rest.drop_first() =~= s@.subrange(pos as int, n as int));
                assert(split_acc(rest, cur) == seq![cur] + split_acc(
                    s@.subrange(pos as int, n as int),
                    Seq::empty(),
                ));
                assert(r@.map_values(|c: String| c@) =~= rmap0.push(cur));
                assert(s@.subrange(start as int, pos as int) =~= Seq::<char>::empty());
                assert(rmap0 + split_acc(rest, cur) =~= rmap0.push(cur) + split_acc(
                    s@.subrange(pos as int, n as int),
                    s@.subrange(start as int, pos as int),
                ));
            }
        } else {
            pos = pos + 1;
            proof {
                assert(rest[0] != ' ');
                assert(rest.drop_first() =~= s@.subrange(pos as int, n as int));
                assert(cur.push(rest[0]) =~= s@.subrange(start as int, pos as int));
                assert(split_acc(rest, cur) == split_acc(
                    s@.subrange(pos as int, n as int),
                    s@.subrange(start as int, pos as int),
                ));
            }
        }
    }
    let last = s.substring_char(start, n).to_owned();
    let ghost cur = s@.subrange(start as int, n as int);
    let ghost rmap0 = r@.map_values(|c: String| c@);
    proof {
        assert(s@.subrange(pos as int, n as int).len() == 0);
        assert(split_acc(s@.subrange(pos as int, n as int), cur) == seq![cur]);
    }
    r.push(last);
    proof {
        assert(r@.map_values(|c: String| c@) =~= rmap0.push(cur));
        assert(rmap0 + seq![cur] =~= rmap0.push(cur));
    }
    r
}

} // verus!
