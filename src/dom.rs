//! The document tree: nodes held by index, built in document order.

use vstd::prelude::*;

verus! {

/// An attribute of an element; an empty namespace is the null namespace.
pub struct Attribute {
    pub namespace: String,
    pub name: String,
    pub value: String,
}

pub struct AttrView {
    pub namespace: Seq<char>,
    pub name: Seq<char>,
    pub value: Seq<char>,
}

impl View for Attribute {
    type V = AttrView;

    open spec fn view(&self) -> AttrView {
        AttrView { namespace: self.namespace@, name: self.name@, value: self.value@ }
    }
}

/// What a node of a document is.
pub enum NodeData {
    Document,
    Doctype { name: String, public_id: String, system_id: String },
    Comment(String),
    ProcessingInstruction { target: String, data: String },
    Text(String),
    Element { namespace: String, name: String },
}

/// A node: what it is, its attributes (elements only), and its children by index.
pub struct Node {
    pub data: NodeData,
    pub attributes: Vec<Attribute>,
    pub children: Vec<usize>,
}

pub struct NodeView {
    pub data: NodeData,
    pub attributes: Seq<AttrView>,
    pub children: Seq<usize>,
}

impl View for Node {
    type V = NodeView;

    open spec fn view(&self) -> NodeView {
        NodeView {
            data: self.data,
            attributes: self.attributes@.map_values(|a: Attribute| a@),
            children: self.children@,
        }
    }
}

/// A document tree held as nodes addressed by index; node 0 is the document
/// node. Nodes are added in document order, and a child always comes after
/// its parent, so that walking down a tree ends.
pub struct Document {
    nodes: Vec<Node>,
}

pub open spec fn children_after_parent(nodes: Seq<NodeView>) -> bool {
    forall|n: int, j: int| 0 <= n < nodes.len() && 0 <= j < nodes[n].children.len()
        ==> n < #[trigger] nodes[n].children[j] < nodes.len()
}

pub open spec fn nodes_wf(nodes: Seq<NodeView>) -> bool {
    nodes.len() > 0 && children_after_parent(nodes)
}

pub open spec fn is_text(nv: NodeView, t: Seq<char>) -> bool {
    match nv.data {
        NodeData::Text(s) => s@ == t,
        _ => false,
    }
}

pub open spec fn is_element(nv: NodeView) -> bool {
    nv.data is Element
}

pub open spec fn element_name(nv: NodeView) -> Seq<char> {
    match nv.data {
        NodeData::Element { name, .. } => name@,
        _ => Seq::empty(),
    }
}

/// A new text node with no attributes and no children.
pub open spec fn text_node(t: Seq<char>, nv: NodeView) -> bool {
    is_text(nv, t) && nv.attributes.len() == 0 && nv.children.len() == 0
}

/// The text of node `n` and all its descendants, in document order.
pub open spec fn text_content(nodes: Seq<NodeView>, n: int) -> Seq<char>
    decreases nodes.len() - n, 1nat, 0nat,
{
    if 0 <= n < nodes.len() {
        match nodes[n].data {
            NodeData::Text(s) => s@,
            _ => children_text(nodes, n, 0),
        }
    } else {
        Seq::empty()
    }
}

/// The text of the children of `n` from the `i`-th on.
pub open spec fn children_text(nodes: Seq<NodeView>, n: int, i: int) -> Seq<char>
    decreases nodes.len() - n, 0nat, (if 0 <= n < nodes.len() { nodes[n].children.len() - i } else { 0 }),
{
    if 0 <= n < nodes.len() && 0 <= i < nodes[n].children.len() {
        let c = nodes[n].children[i] as int;
        (if n < c < nodes.len() { text_content(nodes, c) } else { Seq::empty() }) + children_text(nodes, n, i + 1)
    } else {
        Seq::empty()
    }
}

/// Changing only nodes before `n`, and adding nodes, keeps the text of `n`.
pub proof fn lemma_text_frame(a: Seq<NodeView>, b: Seq<NodeView>, n: int)
    requires
        children_after_parent(a),
        0 <= n < a.len() <= b.len(),
        forall|m: int| n <= m < a.len() ==> #[trigger] b[m] == a[m],
    ensures
        text_content(b, n) == text_content(a, n),
    decreases a.len() - n, 1nat, 0nat,
{
    assert(b[n] == a[n]);
    match a[n].data {
        NodeData::Text(_) => {},
        _ => {
            lemma_children_frame(a, b, n, 0);
        },
    }
}

pub proof fn lemma_children_frame(a: Seq<NodeView>, b: Seq<NodeView>, n: int, i: int)
    requires
        children_after_parent(a),
        0 <= n < a.len() <= b.len(),
        0 <= i,
        forall|m: int| n <= m < a.len() ==> #[trigger] b[m] == a[m],
    ensures
        children_text(b, n, i) == children_text(a, n, i),
    decreases a.len() - n, 0nat, a[n].children.len() - i,
{
    assert(b[n] == a[n]);
    if i < a[n].children.len() {
        let c = a[n].children[i] as int;
        assert(n < c < a.len());
        lemma_text_frame(a, b, c);
        lemma_children_frame(a, b, n, i + 1);
    }
}

/// The position in `attrs` of the null-namespace attribute named `name`, if any.
pub open spec fn attr_index(attrs: Seq<AttrView>, name: Seq<char>) -> int
    decreases attrs.len(),
{
    if attrs.len() == 0 {
        -1
    } else if attr_index(attrs.drop_last(), name) >= 0 {
        attr_index(attrs.drop_last(), name)
    } else if attrs.last().namespace.len() == 0 && attrs.last().name == name {
        attrs.len() - 1
    } else {
        -1
    }
}

pub proof fn lemma_attr_index(attrs: Seq<AttrView>, name: Seq<char>)
    ensures
        -1 <= attr_index(attrs, name) < attrs.len(),
        attr_index(attrs, name) >= 0 ==> attrs[attr_index(attrs, name)].namespace.len() == 0
            && attrs[attr_index(attrs, name)].name == name,
        attr_index(attrs, name) == -1 ==> forall|k: int| 0 <= k < attrs.len()
            ==> !((#[trigger] attrs[k]).namespace.len() == 0 && attrs[k].name == name),
        forall|k: int| 0 <= k < attr_index(attrs, name)
            ==> !((#[trigger] attrs[k]).namespace.len() == 0 && attrs[k].name == name),
    decreases attrs.len(),
{
    if attrs.len() > 0 {
        lemma_attr_index(attrs.drop_last(), name);
        assert forall|k: int| 0 <= k < attrs.len() - 1 implies attrs.drop_last()[k] == attrs[k] by {}
    }
}

/// Removing an attribute of another name keeps the value of `name`.
pub proof fn lemma_attr_index_remove(attrs: Seq<AttrView>, i: int, name: Seq<char>)
    requires
        0 <= i < attrs.len(),
        !(attrs[i].namespace.len() == 0 && attrs[i].name == name),
    ensures
        (attr_index(attrs.remove(i), name) >= 0) == (attr_index(attrs, name) >= 0),
        attr_index(attrs, name) >= 0 ==> attrs.remove(i)[attr_index(attrs.remove(i), name)] == attrs[attr_index(attrs, name)],
{
    let s = attrs.remove(i);
    lemma_attr_index(attrs, name);
    lemma_attr_index(s, name);
    let a = attr_index(attrs, name);
    let b = attr_index(s, name);
    assert forall|j: int| 0 <= j < s.len() implies #[trigger] s[j] == (if j < i { attrs[j] } else { attrs[j + 1] }) by {}
    if a == -1 {
        if b >= 0 {
            if b < i {
                assert(s[b] == attrs[b]);
            } else {
                assert(s[b] == attrs[b + 1]);
            }
        }
    } else if a < i {
        assert(s[a] == attrs[a]);
        if b >= 0 && b < a {
            assert(s[b] == attrs[b]);
        }
        assert(b == a);
    } else {
        assert(a != i);
        assert(s[a - 1] == attrs[a]);
        if b >= 0 && b < a - 1 {
            if b < i {
                assert(s[b] == attrs[b]);
            } else {
                assert(s[b] == attrs[b + 1]);
            }
        }
        assert(b == a - 1);
    }
}

/// Changing an attribute's value keeps where every name is found.
pub proof fn lemma_attr_index_update(attrs: Seq<AttrView>, i: int, v: Seq<char>, name: Seq<char>)
    requires
        0 <= i < attrs.len(),
    ensures
        attr_index(attrs.update(i, AttrView { value: v, ..attrs[i] }), name) == attr_index(attrs, name),
    decreases attrs.len(),
{
    let s = attrs.update(i, AttrView { value: v, ..attrs[i] });
    if i < attrs.len() - 1 {
        assert(s.drop_last() =~= attrs.drop_last().update(i, AttrView { value: v, ..attrs[i] }));
        lemma_attr_index_update(attrs.drop_last(), i, v, name);
    } else {
        assert(s.drop_last() =~= attrs.drop_last());
    }
}

/// The value of the null-namespace attribute `name` of a node, if it has one.
pub open spec fn attr_value(nv: NodeView, name: Seq<char>) -> Option<Seq<char>> {
    let i = attr_index(nv.attributes, name);
    if i >= 0 { Some(nv.attributes[i].value) } else { None }
}

impl Document {
    pub closed spec fn view_nodes(&self) -> Seq<NodeView> {
        self.nodes@.map_values(|n: Node| n@)
    }

    pub open spec fn wf(&self) -> bool {
        nodes_wf(self@)
    }

    /// A document that holds only its document node.
    pub fn new() -> (r: Document)
        ensures
            r.wf(),
            r@.len() == 1,
            r@[0].data is Document,
            r@[0].attributes.len() == 0,
            r@[0].children.len() == 0,
    {
        let mut nodes: Vec<Node> = Vec::new();
        nodes.push(Node { data: NodeData::Document, attributes: Vec::new(), children: Vec::new() });
        let r = Document { nodes };
        assert(r@[0] == nodes@[0]@);
        r
    }

    pub fn len(&self) -> (r: usize)
        ensures
            r == self@.len(),
    {
        self.nodes.len()
    }

    /// Adds a node as the last child of `parent`, and returns its index.
    pub fn add_node(&mut self, parent: usize, data: NodeData, attributes: Vec<Attribute>) -> (r: usize)
        requires
            old(self).wf(),
            parent < old(self)@.len(),
            old(self)@.len() < usize::MAX,
        ensures
            final(self).wf(),
            r == old(self)@.len(),
            final(self)@ == old(self)@.update(parent as int, NodeView {
                children: old(self)@[parent as int].children.push(r),
                ..old(self)@[parent as int]
            }).push(NodeView {
                data,
                attributes: attributes@.map_values(|a: Attribute| a@),
                children: Seq::empty(),
            }),
    {
        let r = self.nodes.len();
        let ghost before = self@;
        self.nodes[parent].children.push(r);
        self.nodes.push(Node { data, attributes, children: Vec::new() });
        let ghost after = self@;
        let ghost expect = before.update(parent as int, NodeView {
                children: before[parent as int].children.push(r),
                ..before[parent as int]
            }).push(NodeView {
                data,
                attributes: attributes@.map_values(|a: Attribute| a@),
                children: Seq::empty(),
            });
        assert(after =~= expect);
        assert(children_after_parent(after)) by {
            assert forall|n: int, j: int| 0 <= n < after.len() && 0 <= j < after[n].children.len()
                implies n < #[trigger] after[n].children[j] < after.len() by {
                if n != parent && n < before.len() {
                    assert(after[n] == before[n]);
                }
                if n == parent && j < before[n].children.len() {
                    assert(after[n].children[j] == before[n].children[j]);
                }
            }
        }
        r
    }

    pub fn data(&self, n: usize) -> (r: &NodeData)
        requires
            n < self@.len(),
        ensures
            *r == self@[n as int].data,
    {
        &self.nodes[n].data
    }

    pub fn attributes(&self, n: usize) -> (r: &Vec<Attribute>)
        requires
            n < self@.len(),
        ensures
            r@.map_values(|a: Attribute| a@) == self@[n as int].attributes,
    {
        &self.nodes[n].attributes
    }

    pub fn children(&self, n: usize) -> (r: &Vec<usize>)
        requires
            n < self@.len(),
        ensures
            r@ == self@[n as int].children,
    {
        &self.nodes[n].children
    }
}

impl Document {
    /// Sets the children of node `n` to `v`, and returns those it had.
    pub(crate) fn replace_children(&mut self, n: usize, v: Vec<usize>) -> (r: Vec<usize>)
        requires
            old(self).wf(),
            n < old(self)@.len(),
            forall|j: int| 0 <= j < v@.len() ==> n < #[trigger] v@[j] < old(self)@.len(),
        ensures
            final(self).wf(),
            r@ == old(self)@[n as int].children,
            final(self)@ == old(self)@.update(n as int, NodeView { children: v@, ..old(self)@[n as int] }),
    {
        let ghost before = self@;
        let mut v = v;
        std::mem::swap(&mut self.nodes[n].children, &mut v);
        assert(self@ =~= before.update(n as int, NodeView { children: self.nodes@[n as int].children@, ..before[n as int] }));
        let ghost after = self@;
        assert(children_after_parent(after)) by {
            assert forall|m: int, j: int| 0 <= m < after.len() && 0 <= j < after[m].children.len()
                implies m < #[trigger] after[m].children[j] < after.len() by {
                if m != n {
                    assert(after[m] == before[m]);
                }
            }
        }
        v
    }

    /// Sets the value of attribute `i` of node `n` to `value`, and returns the one it had.
    pub(crate) fn replace_attribute_value(&mut self, n: usize, i: usize, value: String) -> (r: String)
        requires
            old(self).wf(),
            n < old(self)@.len(),
            i < old(self)@[n as int].attributes.len(),
        ensures
            final(self).wf(),
            r@ == old(self)@[n as int].attributes[i as int].value,
            final(self)@ == old(self)@.update(n as int, NodeView {
                attributes: old(self)@[n as int].attributes.update(i as int, AttrView {
                    value: value@,
                    ..old(self)@[n as int].attributes[i as int]
                }),
                ..old(self)@[n as int]
            }),
    {
        let ghost before = self@;
        let mut value = value;
        std::mem::swap(&mut self.nodes[n].attributes[i].value, &mut value);
        let ghost after = self@;
        let ghost expect = before.update(n as int, NodeView {
                attributes: before[n as int].attributes.update(i as int, AttrView {
                    value: self.nodes@[n as int].attributes@[i as int].value@,
                    ..before[n as int].attributes[i as int]
                }),
                ..before[n as int]
            });
        assert(after[n as int].attributes =~= expect[n as int].attributes);
        assert(after =~= expect);
        assert(children_after_parent(after)) by {
            assert forall|m: int, j: int| 0 <= m < after.len() && 0 <= j < after[m].children.len()
                implies m < #[trigger] after[m].children[j] < after.len() by {
                if m != n {
                    assert(after[m] == before[m]);
                }
            }
        }
        value
    }

    /// Adds a text node that no node holds yet, and returns its index.
    pub(crate) fn push_text(&mut self, t: String) -> (r: usize)
        requires
            old(self).wf(),
            old(self)@.len() < usize::MAX,
        ensures
            final(self).wf(),
            r == old(self)@.len(),
            final(self)@ == old(self)@.push(NodeView {
                data: NodeData::Text(t),
                attributes: Seq::empty(),
                children: Seq::empty(),
            }),
    {
        let ghost before = self@;
        let r = self.nodes.len();
        self.nodes.push(Node { data: NodeData::Text(t), attributes: Vec::new(), children: Vec::new() });
        let ghost after = self@;
        assert(after[r as int].attributes =~= Seq::<AttrView>::empty());
        assert(after =~= before.push(NodeView {
                data: NodeData::Text(t),
                attributes: Seq::empty(),
                children: Seq::empty(),
            }));
        assert(children_after_parent(after)) by {
            assert forall|m: int, j: int| 0 <= m < after.len() && 0 <= j < after[m].children.len()
                implies m < #[trigger] after[m].children[j] < after.len() by {
                assert(after[m] == before[m]);
            }
        }
        r
    }

    /// Sets the attributes of node `n` to `attrs`, and returns those it had.
    pub(crate) fn replace_attributes(&mut self, n: usize, attrs: Vec<Attribute>) -> (r: Vec<Attribute>)
        requires
            old(self).wf(),
            n < old(self)@.len(),
        ensures
            final(self).wf(),
            attr_views(r@) == old(self)@[n as int].attributes,
            final(self)@ == old(self)@.update(n as int, NodeView { attributes: attr_views(attrs@), ..old(self)@[n as int] }),
    {
        let ghost before = self@;
        let mut attrs = attrs;
        std::mem::swap(&mut self.nodes[n].attributes, &mut attrs);
        let ghost after = self@;
        assert(after =~= before.update(n as int, NodeView { attributes: after[n as int].attributes, ..before[n as int] }));
        assert(children_after_parent(after)) by {
            assert forall|m: int, j: int| 0 <= m < after.len() && 0 <= j < after[m].children.len()
                implies m < #[trigger] after[m].children[j] < after.len() by {
                if m != n {
                    assert(after[m] == before[m]);
                }
            }
        }
        attrs
    }

    /// Drops every node from index `len` on.
    pub(crate) fn truncate(&mut self, len: usize)
        requires
            0 < len <= old(self)@.len(),
            children_after_parent(old(self)@.subrange(0, len as int)),
        ensures
            final(self)@ == old(self)@.subrange(0, len as int),
            final(self).wf(),
    {
        let ghost before = self@;
        self.nodes.truncate(len);
        assert(self@ =~= before.subrange(0, len as int));
    }

    /// Removes attribute `i` of node `n`.
    pub(crate) fn remove_attribute(&mut self, n: usize, i: usize)
        requires
            old(self).wf(),
            n < old(self)@.len(),
            i < old(self)@[n as int].attributes.len(),
        ensures
            final(self).wf(),
            final(self)@ == old(self)@.update(n as int, NodeView {
                attributes: old(self)@[n as int].attributes.remove(i as int),
                ..old(self)@[n as int]
            }),
    {
        let ghost before = self@;
        let _ = self.nodes[n].attributes.remove(i);
        let ghost after = self@;
        assert(after[n as int].attributes =~= before[n as int].attributes.remove(i as int));
        assert(after =~= before.update(n as int, NodeView {
                attributes: before[n as int].attributes.remove(i as int),
                ..before[n as int]
            }));
        assert(children_after_parent(after)) by {
            assert forall|m: int, j: int| 0 <= m < after.len() && 0 <= j < after[m].children.len()
                implies m < #[trigger] after[m].children[j] < after.len() by {
                if m != n {
                    assert(after[m] == before[m]);
                }
            }
        }
    }

    /// The value of attribute `i` of node `n`.
    pub fn attribute_value(&self, n: usize, i: usize) -> (r: &String)
        requires
            n < self@.len(),
            i < self@[n as int].attributes.len(),
        ensures
            r@ == self@[n as int].attributes[i as int].value,
    {
        &self.nodes[n].attributes[i].value
    }

    /// Whether node `n` is an element.
    pub fn is_element(&self, n: usize) -> (r: bool)
        requires
            n < self@.len(),
        ensures
            r == is_element(self@[n as int]),
    {
        matches!(self.nodes[n].data, NodeData::Element { .. })
    }

    /// The text of node `n` and its descendants, as `text_content` states.
    pub fn text_content(&self, n: usize) -> (r: String)
        requires
            self.wf(),
            n < self@.len(),
        ensures
            r@ == text_content(self@, n as int),
        decreases self@.len() - n,
    {
        let ghost v = self@;
        match &self.nodes[n].data {
            NodeData::Text(s) => {
                return s.clone();
            },
            _ => {},
        }
        let k = self.nodes[n].children.len();
        let mut out = String::new();
        let mut i: usize = 0;
        while i < k
            invariant
                v == self@,
                self.wf(),
                n < v.len(),
                k == v[n as int].children.len(),
                !(v[n as int].data is Text),
                i <= k,
                out@ + children_text(v, n as int, i as int) == text_content(v, n as int),
            decreases k - i,
        {
            let c = self.nodes[n].children[i];
            assert(c == v[n as int].children[i as int]);
            assert(n < c < v.len());
            let t = self.text_content(c);
            assert(children_text(v, n as int, i as int) == t@ + children_text(v, n as int, i + 1));
            out.append(t.as_str());
            assert(out@ + children_text(v, n as int, i + 1) =~= text_content(v, n as int));
            i = i + 1;
        }
        assert(children_text(v, n as int, k as int) =~= Seq::<char>::empty());
        assert(out@ =~= text_content(v, n as int));
        out
    }

    /// The position among node `n`'s attributes of the null-namespace attribute
    /// named `name`, if it has one.
    pub fn find_attribute(&self, n: usize, name: &String) -> (r: Option<usize>)
        requires
            n < self@.len(),
        ensures
            r matches Some(i) ==> attr_index(self@[n as int].attributes, name@) == i
                && i < self@[n as int].attributes.len(),
            r is None ==> attr_index(self@[n as int].attributes, name@) == -1,
    {
        let ghost attrs = self@[n as int].attributes;
        let k = self.nodes[n].attributes.len();
        let mut i: usize = 0;
        proof {
            lemma_attr_index(attrs, name@);
        }
        while i < k
            invariant
                attrs == self@[n as int].attributes,
                k == attrs.len(),
                n < self@.len(),
                i <= k,
                forall|j: int| 0 <= j < i ==> !((#[trigger] attrs[j]).namespace.len() == 0 && attrs[j].name == name@),
                -1 <= attr_index(attrs, name@) < attrs.len(),
                attr_index(attrs, name@) >= 0 ==> attrs[attr_index(attrs, name@)].namespace.len() == 0
                    && attrs[attr_index(attrs, name@)].name == name@,
                forall|j: int| 0 <= j < attr_index(attrs, name@)
                    ==> !((#[trigger] attrs[j]).namespace.len() == 0 && attrs[j].name == name@),
                attr_index(attrs, name@) == -1 ==> forall|j: int| 0 <= j < attrs.len()
                    ==> !((#[trigger] attrs[j]).namespace.len() == 0 && attrs[j].name == name@),
            decreases k - i,
        {
            let a = &self.nodes[n].attributes[i];
            assert(a@ == attrs[i as int]);
            if a.namespace.unicode_len() == 0 && a.name == *name {
                assert(attrs[i as int].namespace.len() == 0 && attrs[i as int].name == name@);
                return Some(i);
            }
            i = i + 1;
        }
        None
    }
}

pub open spec fn attr_views(v: Seq<Attribute>) -> Seq<AttrView> {
    v.map_values(|a: Attribute| a@)
}

pub open spec fn node_views(v: Seq<Node>) -> Seq<NodeView> {
    v.map_values(|n: Node| n@)
}

fn copy_data(d: &NodeData) -> (r: NodeData)
    ensures
        r == *d,
{
    match d {
        NodeData::Document => NodeData::Document,
        NodeData::Doctype { name, public_id, system_id } => NodeData::Doctype {
            name: name.clone(),
            public_id: public_id.clone(),
            system_id: system_id.clone(),
        },
        NodeData::Comment(t) => NodeData::Comment(t.clone()),
        NodeData::ProcessingInstruction { target, data } => NodeData::ProcessingInstruction {
            target: target.clone(),
            data: data.clone(),
        },
        NodeData::Text(t) => NodeData::Text(t.clone()),
        NodeData::Element { namespace, name } => NodeData::Element { namespace: namespace.clone(), name: name.clone() },
    }
}

/// A copy of a list of attributes.
pub fn copy_attributes(v: &Vec<Attribute>) -> (r: Vec<Attribute>)
    ensures
        attr_views(r@) == attr_views(v@),
{
    let mut attributes: Vec<Attribute> = Vec::new();
    let mut i: usize = 0;
    while i < v.len()
        invariant
            i <= v@.len(),
            attributes@.len() == i,
            attr_views(attributes@) == attr_views(v@.subrange(0, i as int)),
        decreases v@.len() - i,
    {
        let a = &v[i];
        let ghost before = attributes@;
        attributes.push(Attribute { namespace: a.namespace.clone(), name: a.name.clone(), value: a.value.clone() });
        proof {
            assert forall|k: int| 0 <= k < i + 1 implies #[trigger] attr_views(attributes@)[k]
                == attr_views(v@.subrange(0, i + 1))[k] by {
                if k < i {
                    assert(attributes@[k] == before[k]);
                    assert(attr_views(before)[k] == attr_views(v@.subrange(0, i as int))[k]);
                }
            }
        }
        i = i + 1;
        assert(attr_views(attributes@) =~= attr_views(v@.subrange(0, i as int)));
    }
    assert(v@.subrange(0, i as int) =~= v@);
    attributes
}

fn copy_node(n: &Node) -> (r: Node)
    ensures
        r@ == n@,
{
    let attributes = copy_attributes(&n.attributes);
    let mut children: Vec<usize> = Vec::new();
    let mut j: usize = 0;
    while j < n.children.len()
        invariant
            j <= n.children@.len(),
            children@ == n.children@.subrange(0, j as int),
        decreases n.children@.len() - j,
    {
        children.push(n.children[j]);
        j = j + 1;
        assert(children@ =~= n.children@.subrange(0, j as int));
    }
    assert(children@ =~= n.children@);
    Node { data: copy_data(&n.data), attributes, children }
}

impl Document {
    /// A copy of this document.
    pub fn duplicate(&self) -> (r: Document)
        ensures
            r@ == self@,
    {
        let mut nodes: Vec<Node> = Vec::new();
        let mut i: usize = 0;
        while i < self.nodes.len()
            invariant
                i <= self.nodes@.len(),
                nodes@.len() == i,
                node_views(nodes@) == node_views(self.nodes@.subrange(0, i as int)),
            decreases self.nodes@.len() - i,
        {
            let ghost before = nodes@;
            nodes.push(copy_node(&self.nodes[i]));
            proof {
                assert forall|k: int| 0 <= k < i + 1 implies #[trigger] node_views(nodes@)[k]
                    == node_views(self.nodes@.subrange(0, i + 1))[k] by {
                    if k < i {
                        assert(nodes@[k] == before[k]);
                        assert(node_views(before)[k] == node_views(self.nodes@.subrange(0, i as int))[k]);
                    }
                }
            }
            i = i + 1;
            assert(node_views(nodes@) =~= node_views(self.nodes@.subrange(0, i as int)));
        }
        assert(self.nodes@.subrange(0, i as int) =~= self.nodes@);
        Document { nodes }
    }
}

impl View for Document {
    type V = Seq<NodeView>;

    open spec fn view(&self) -> Seq<NodeView> {
        self.view_nodes()
    }
}

} // verus!
