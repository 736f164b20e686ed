//! The node tree: elements, text and comments.

use super::strings::{chars_of, string_of};
use vstd::hash_map::StringHashMap;
use vstd::hash_set::StringHashSet;
use vstd::prelude::*;

verus! {

/// The attributes of an element: a map from names to values.
pub struct AttrMap {
    map: StringHashMap<String>,
}

impl View for AttrMap {
    type V = Map<Seq<char>, Seq<char>>;

    closed spec fn view(&self) -> Map<Seq<char>, Seq<char>> {
        self.map@.map_values(|v: String| v@)
    }
}

impl AttrMap {
    /// The map without attributes.
    pub fn new() -> (attrs: AttrMap)
        ensures
            attrs@ == Map::<Seq<char>, Seq<char>>::empty(),
    {
        let attrs = AttrMap { map: StringHashMap::new() };
        attrs
    }

    /// Gives the attribute `name` the value `value`, in place of the value it
    /// had, if it had one.
    pub fn insert(&mut self, name: String, value: String)
        ensures
            final(self)@ == old(self)@.insert(name@, value@),
    {
        self.map.insert(name, value);
    }

    /// The value of the attribute `name`, if there is one.
    pub fn get(&self, name: &str) -> (value: Option<&String>)
        ensures
            match value {
                Some(v) => self@.contains_key(name@) && v@ == self@[name@],
                None => !self@.contains_key(name@),
            },
    {
        self.map.get(name)
    }

    /// Whether there is an attribute `name`.
    pub fn contains_key(&self, name: &str) -> (found: bool)
        ensures
            found == self@.contains_key(name@),
    {
        self.map.contains_key(name)
    }

    /// The number of attributes.
    pub fn len(&self) -> (n: usize)
        ensures
            n == self@.len(),
    {
        assert(self@.dom() =~= self.map@.dom());
        self.map.len()
    }
}

/// What an element has beyond its children: a name and attributes.
pub struct ElementData {
    pub tag_name: String,
    pub attributes: AttrMap,
}

/// What a node is: text, an element or a comment.
pub enum NodeType {
    Text(String),
    Element(ElementData),
    Comment(String),
}

/// A node of the tree. Only elements are meant to have children.
pub struct Node {
    pub children: Vec<Node>,
    pub node_type: NodeType,
}

/// What an element is, apart from its children: its name and its attributes.
pub struct ElementView {
    pub tag_name: Seq<char>,
    pub attributes: Map<Seq<char>, Seq<char>>,
}

/// What a node is, apart from its children.
pub enum NodeTypeView {
    Text(Seq<char>),
    Element(ElementView),
    Comment(Seq<char>),
}

/// A node as a mathematical tree.
pub struct NodeView {
    pub children: Seq<NodeView>,
    pub node_type: NodeTypeView,
}

/// The text node that holds `content`.
pub open spec fn text_node(content: Seq<char>) -> NodeView {
    NodeView { children: Seq::empty(), node_type: NodeTypeView::Text(content) }
}

/// The element with the given name, attributes and children.
pub open spec fn element_node(
    tag_name: Seq<char>,
    attributes: Map<Seq<char>, Seq<char>>,
    children: Seq<NodeView>,
) -> NodeView {
    NodeView { children, node_type: NodeTypeView::Element(ElementView { tag_name, attributes }) }
}

impl View for ElementData {
    type V = ElementView;

    open spec fn view(&self) -> ElementView {
        ElementView { tag_name: self.tag_name@, attributes: self.attributes@ }
    }
}

impl View for NodeType {
    type V = NodeTypeView;

    open spec fn view(&self) -> NodeTypeView {
        match self {
            NodeType::Text(t) => NodeTypeView::Text(t@),
            NodeType::Element(e) => NodeTypeView::Element(e@),
            NodeType::Comment(t) => NodeTypeView::Comment(t@),
        }
    }
}

/// The tree of a node: its own kind, and the trees of its children in order.
pub open spec fn tree_of(node: Node) -> NodeView
    decreases node,
{
    NodeView {
        children: Seq::new(
            node.children@.len(),
            |i: int|
                if 0 <= i < node.children@.len() {
                    tree_of(node.children@[i])
                } else {
                    arbitrary()
                },
        ),
        node_type: node.node_type@,
    }
}

impl View for Node {
    type V = NodeView;

    open spec fn view(&self) -> NodeView {
        tree_of(*self)
    }
}

/// The trees of a sequence of nodes, in order.
pub open spec fn node_views(nodes: Seq<Node>) -> Seq<NodeView> {
    nodes.map_values(|n: Node| n@)
}

/// The children of a node's tree are the trees of the node's children.
pub proof fn lemma_children_views(node: Node)
    ensures
        node@.children == node_views(node.children@),
{
}

/// Creates a text node with the given content and no children.
pub fn text(data: String) -> (node: Node)
    ensures
        node@ == text_node(data@),
{
    let node = Node { children: Vec::new(), node_type: NodeType::Text(data) };
    assert(node@.children =~= Seq::empty());
    node
}

/// Creates an element with the given name, attributes and children.
pub fn element(name: String, attrs: AttrMap, children: Vec<Node>) -> (node: Node)
    ensures
        node@ == element_node(name@, attrs@, node_views(children@)),
{
    let node = Node {
        children,
        node_type: NodeType::Element(ElementData { tag_name: name, attributes: attrs }),
    };
    proof {
        lemma_children_views(node);
    }
    node
}

/// Whether `value[from..to]` is one of the pieces into which the single
/// spaces of `value` cut it: it holds no space, and on either side of it is a
/// space or an end of `value`. Between two spaces that touch, and before a
/// space at the start or behind one at the end, lies an empty piece.
pub open spec fn is_class_token(value: Seq<char>, from: int, to: int) -> bool {
    &&& 0 <= from <= to <= value.len()
    &&& from == 0 || value[from - 1] == ' '
    &&& to == value.len() || value[to] == ' '
    &&& forall|i: int| from <= i < to ==> value[i] != ' '
}

/// The classes that the value of a `class` attribute names: its pieces
/// between single spaces, as a set.
pub open spec fn class_tokens(value: Seq<char>) -> Set<Seq<char>> {
    Set::new(
        |token: Seq<char>|
            exists|from: int, to: int|
                #[trigger] is_class_token(value, from, to) && value.subrange(from, to) == token,
    )
}

/// The pieces of `value` that end before `bound`, as a set.
pub open spec fn class_tokens_before(value: Seq<char>, bound: int) -> Set<Seq<char>> {
    Set::new(
        |token: Seq<char>|
            exists|from: int, to: int|
                #[trigger] is_class_token(value, from, to) && to < bound && value.subrange(
                    from,
                    to,
                ) == token,
    )
}

/// The classes of an element with the given attributes: none without a
/// `class` attribute.
pub open spec fn classes_of(attributes: Map<Seq<char>, Seq<char>>) -> Set<Seq<char>> {
    if attributes.contains_key("class"@) {
        class_tokens(attributes["class"@])
    } else {
        Set::empty()
    }
}

/// Where `value[start..end]` is a piece, it is the only piece that ends
/// between `start` and `end`: the pieces that end before `end + 1` are this
/// one and those that end before `start`.
proof fn lemma_next_class_token(value: Seq<char>, start: int, end: int)
    requires
        is_class_token(value, start, end),
    ensures
        class_tokens_before(value, end + 1) == class_tokens_before(value, start).insert(
            value.subrange(start, end),
        ),
{
    let earlier = class_tokens_before(value, start);
    let now = class_tokens_before(value, end + 1);
    let piece = value.subrange(start, end);
    assert forall|token: Seq<char>| now.contains(token) <==> earlier.insert(piece).contains(
        token,
    ) by {
        if now.contains(token) {
            // a piece that ends at `start` or behind it is `piece` itself
            let (from, to) = choose|from: int, to: int|
                #[trigger] is_class_token(value, from, to) && to < end + 1 && value.subrange(
                    from,
                    to,
                ) == token;
            assert(to >= start ==> to == end && from == start);
        }
    }
}

/// No piece ends before the start, and every piece ends at the end of the
/// value or before it.
proof fn lemma_class_tokens_bounds(value: Seq<char>)
    ensures
        class_tokens_before(value, 0) == Set::<Seq<char>>::empty(),
        class_tokens_before(value, value.len() as int + 1) == class_tokens(value),
{
}

impl ElementData {
    /// The value of the `id` attribute, if the element has one.
    pub fn id(&self) -> (value: Option<&String>)
        ensures
            match value {
                Some(v) => self@.attributes.contains_key("id"@) && v@ == self@.attributes["id"@],
                None => !self@.attributes.contains_key("id"@),
            },
    {
        self.attributes.get("id")
    }

    /// The classes of the element: the pieces of its `class` attribute
    /// between single spaces, and none where it has no such attribute. Two
    /// spaces that touch have an empty piece between them, and so has a space
    /// at the start or at the end on its outer side.
    pub fn classes(&self) -> (set: StringHashSet)
        ensures
            set@ == classes_of(self@.attributes),
    {
        let mut set = StringHashSet::new();
        match self.attributes.get("class") {
            None => {},
            Some(value) => {
                let chars = chars_of(value.as_str());
                let mut start: usize = 0;
                let mut i: usize = 0;
                proof {
                    lemma_class_tokens_bounds(chars@);
                }
                while i < chars.len()
                    invariant
                        chars@ == value@,
                        0 <= start <= i <= chars.len(),
                        start == 0 || chars[start - 1] == ' ',
                        forall|k: int| start <= k < i ==> chars[k] != ' ',
                        set@ == class_tokens_before(chars@, start as int),
                    decreases chars.len() - i,
                {
                    if chars[i] == ' ' {
                        proof {
                            lemma_next_class_token(chars@, start as int, i as int);
                        }
                        set.insert(string_of(&chars, start, i));
                        start = i + 1;
                    }
                    i += 1;
                }
                proof {
                    lemma_next_class_token(chars@, start as int, i as int);
                }
                set.insert(string_of(&chars, start, i));
            },
        }
        set
    }
}

/// The indentation of a line at the given depth: two spaces for each level.
pub open spec fn indentation(depth: nat) -> Seq<char> {
    Seq::new(2 * depth, |i: int| ' ')
}

/// A tree as indented text, one line for a text or a comment, and for an
/// element a line for each of its two tags with its children between them,
/// one level deeper. Attributes are not shown.
pub open spec fn rendered(tree: NodeView, depth: nat) -> Seq<char>
    decreases tree, 0nat,
{
    match tree.node_type {
        NodeTypeView::Text(content) => indentation(depth) + content + "\n"@,
        NodeTypeView::Comment(content) => indentation(depth) + "<!-- "@ + content + " -->\n"@,
        NodeTypeView::Element(e) => indentation(depth) + "<"@ + e.tag_name + ">\n"@
            + rendered_all(tree.children, depth + 1) + indentation(depth) + "</"@ + e.tag_name
            + ">\n"@,
    }
}

/// The trees of a sequence as indented text, one behind the other.
pub open spec fn rendered_all(trees: Seq<NodeView>, depth: nat) -> Seq<char>
    decreases trees, trees.len(),
{
    if trees.len() == 0 {
        Seq::empty()
    } else {
        rendered_all(trees.drop_last(), depth) + rendered(trees.last(), depth)
    }
}

impl Node {
    /// The node and everything below it as indented text, with the node
    /// itself at depth `indent`.
    pub fn pretty_print(&self, indent: usize) -> (out: String)
        ensures
            out@ == rendered(self@, indent as nat),
    {
        let mut pad = String::new();
        let mut i: usize = 0;
        while i < indent
            invariant
                i <= indent,
                pad@ == indentation(i as nat),
            decreases indent - i,
        {
            pad.append("  ");
            i += 1;
            proof {
                reveal_strlit("  ");
            }
        }
        let mut out = String::new();
        self.render_into(&mut out, pad.as_str(), Ghost(indent as nat));
        out
    }

    /// Appends the text of `self` at depth `depth` to `out`. `pad` is the
    /// indentation of that depth.
    fn render_into(&self, out: &mut String, pad: &str, Ghost(depth): Ghost<nat>)
        requires
            pad@ == indentation(depth),
        ensures
            final(out)@ == old(out)@ + rendered(self@, depth),
        decreases self,
    {
        out.append(pad);
        match &self.node_type {
            NodeType::Text(content) => {
                out.append(content.as_str());
                out.append("\n");
            },
            NodeType::Comment(content) => {
                out.append("<!-- ");
                out.append(content.as_str());
                out.append(" -->\n");
            },
            NodeType::Element(e) => {
                out.append("<");
                out.append(e.tag_name.as_str());
                out.append(">\n");
                let mut deeper = pad.to_owned();
                deeper.append("  ");
                proof {
                    reveal_strlit("  ");
                    lemma_children_views(*self);
                }
                let ghost opened = out@;
                let mut i: usize = 0;
                while i < self.children.len()
                    invariant
                        i <= self.children.len(),
                        deeper@ == indentation(depth + 1),
                        out@ == opened + rendered_all(self@.children.take(i as int), depth + 1),
                        self@.children == node_views(self.children@),
                    decreases self.children.len() - i,
                {
                    self.children[i].render_into(out, deeper.as_str(), Ghost(depth + 1));
                    assert(self@.children.take(i + 1).drop_last() =~= self@.children.take(
                        i as int,
                    ));
                    i += 1;
                }
                assert(self@.children.take(i as int) =~= self@.children);
                out.append(pad);
                out.append("</");
                out.append(e.tag_name.as_str());
                out.append(">\n");
            },
        }
    }
}

} // verus!
