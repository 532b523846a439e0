//! The change ledger: prior states recorded before each change to the
//! document, put back in reverse order to restore it.

use vstd::prelude::*;
use crate::dom::{Document, NodeView, AttrView, NodeData, Attribute, attr_views};

verus! {

/// A recorded prior state of one node: its children, or one attribute's value.
pub enum PagebreakChange {
    Content(usize, Vec<usize>),
    Attribute(usize, usize, String),
    Attributes(usize, Vec<Attribute>),
}

pub enum ChangeView {
    Content(int, Seq<usize>),
    Attribute(int, int, Seq<char>),
    Attributes(int, Seq<AttrView>),
}

impl View for PagebreakChange {
    type V = ChangeView;

    open spec fn view(&self) -> ChangeView {
        match self {
            PagebreakChange::Content(n, kids) => ChangeView::Content(*n as int, kids@),
            PagebreakChange::Attribute(n, i, v) => ChangeView::Attribute(*n as int, *i as int, v@),
            PagebreakChange::Attributes(n, attrs) => ChangeView::Attributes(*n as int, attr_views(attrs@)),
        }
    }
}

/// The nodes with one recorded state put back.
pub open spec fn undo(nodes: Seq<NodeView>, c: ChangeView) -> Seq<NodeView> {
    match c {
        ChangeView::Content(n, kids) => {
            if 0 <= n < nodes.len() {
                nodes.update(n, NodeView { children: kids, ..nodes[n] })
            } else {
                nodes
            }
        },
        ChangeView::Attribute(n, i, v) => {
            if 0 <= n < nodes.len() && 0 <= i < nodes[n].attributes.len() {
                nodes.update(n, NodeView {
                    attributes: nodes[n].attributes.update(i, AttrView { value: v, ..nodes[n].attributes[i] }),
                    ..nodes[n]
                })
            } else {
                nodes
            }
        },
        ChangeView::Attributes(n, attrs) => {
            if 0 <= n < nodes.len() {
                nodes.update(n, NodeView { attributes: attrs, ..nodes[n] })
            } else {
                nodes
            }
        },
    }
}

/// The nodes with every recorded state put back, the latest first.
pub open spec fn undo_all(nodes: Seq<NodeView>, changes: Seq<ChangeView>) -> Seq<NodeView>
    decreases changes.len(),
{
    if changes.len() == 0 {
        nodes
    } else {
        undo_all(undo(nodes, changes.last()), changes.drop_last())
    }
}

/// A recorded state fits the nodes: its node exists, its attribute too, and
/// recorded children come after their parent and exist.
pub open spec fn change_fits(nodes: Seq<NodeView>, c: ChangeView) -> bool {
    match c {
        ChangeView::Content(n, kids) => 0 <= n < nodes.len()
            && forall|j: int| 0 <= j < kids.len() ==> n < #[trigger] kids[j] < nodes.len(),
        ChangeView::Attribute(n, i, v) => 0 <= n < nodes.len() && 0 <= i < nodes[n].attributes.len(),
        ChangeView::Attributes(n, attrs) => 0 <= n < nodes.len(),
    }
}

/// Every recorded state fits the nodes as they are when it is put back: the
/// latest fits the nodes now, and the rest fit what putting it back gives.
pub open spec fn changes_fit(nodes: Seq<NodeView>, changes: Seq<ChangeView>) -> bool
    decreases changes.len(),
{
    changes.len() == 0 || (change_fits(nodes, changes.last()) && changes_fit(undo(nodes, changes.last()), changes.drop_last()))
}

/// Adding a node at the end commutes with putting recorded states back.
pub proof fn lemma_undo_all_push(nodes: Seq<NodeView>, changes: Seq<ChangeView>, x: NodeView)
    requires
        changes_fit(nodes, changes),
    ensures
        undo_all(nodes.push(x), changes) == undo_all(nodes, changes).push(x),
        changes_fit(nodes.push(x), changes),
    decreases changes.len(),
{
    if changes.len() > 0 {
        let c = changes.last();
        assert(undo(nodes.push(x), c) =~= undo(nodes, c).push(x));
        lemma_undo_all_push(undo(nodes, c), changes.drop_last(), x);
        match c {
            ChangeView::Content(n, kids) => {},
            ChangeView::Attribute(n, i, v) => {
                assert(nodes.push(x)[n] == nodes[n]);
            },
            ChangeView::Attributes(n, attrs) => {},
        }
    }
}

/// A change recorded before it is made is undone exactly: putting back the
/// ledger with that record gives what putting back the ledger gave before the
/// change, whatever was recorded earlier and whatever the new children,
/// value or attributes.
pub proof fn lemma_recorded_change_undone(d: Seq<NodeView>, l: Seq<ChangeView>, n: int, i: int, kids: Seq<usize>, value: Seq<char>,
    attrs: Seq<AttrView>)
    requires
        0 <= n < d.len(),
    ensures
        undo_all(d.update(n, NodeView { attributes: attrs, ..d[n] }), l.push(ChangeView::Attributes(n, d[n].attributes)))
            == undo_all(d, l),
        undo_all(d.update(n, NodeView { children: kids, ..d[n] }), l.push(ChangeView::Content(n, d[n].children)))
            == undo_all(d, l),
        0 <= i < d[n].attributes.len() ==> undo_all(
            d.update(n, NodeView { attributes: d[n].attributes.update(i, AttrView { value, ..d[n].attributes[i] }), ..d[n] }),
            l.push(ChangeView::Attribute(n, i, d[n].attributes[i].value)),
        ) == undo_all(d, l),
{
    let d3 = d.update(n, NodeView { attributes: attrs, ..d[n] });
    let l3 = l.push(ChangeView::Attributes(n, d[n].attributes));
    assert(l3.drop_last() =~= l);
    assert(undo(d3, l3.last()) =~= d);
    let d1 = d.update(n, NodeView { children: kids, ..d[n] });
    let l1 = l.push(ChangeView::Content(n, d[n].children));
    assert(l1.drop_last() =~= l);
    assert(undo(d1, l1.last()) =~= d);
    if 0 <= i < d[n].attributes.len() {
        let d2 = d.update(n, NodeView { attributes: d[n].attributes.update(i, AttrView { value, ..d[n].attributes[i] }), ..d[n] });
        let l2 = l.push(ChangeView::Attribute(n, i, d[n].attributes[i].value));
        assert(l2.drop_last() =~= l);
        assert(undo(d2, l2.last())[n].attributes =~= d[n].attributes);
        assert(undo(d2, l2.last()) =~= d);
    }
}

/// The undo log of one page: prior states, recorded before each change.
pub struct ChangeLedger {
    changes: Vec<PagebreakChange>,
}

impl View for ChangeLedger {
    type V = Seq<ChangeView>;

    closed spec fn view(&self) -> Seq<ChangeView> {
        self.changes@.map_values(|c: PagebreakChange| c@)
    }
}

impl ChangeLedger {
    pub fn new() -> (r: ChangeLedger)
        ensures
            r@.len() == 0,
    {
        let r = ChangeLedger { changes: Vec::new() };
        assert(r@ =~= Seq::<ChangeView>::empty());
        r
    }

    pub fn len(&self) -> (r: usize)
        ensures
            r == self@.len(),
    {
        self.changes.len()
    }

    /// Records the children of node `n`, then sets them to `v`.
    pub fn set_children(&mut self, doc: &mut Document, n: usize, v: Vec<usize>)
        requires
            old(doc).wf(),
            n < old(doc)@.len(),
            forall|j: int| 0 <= j < v@.len() ==> n < #[trigger] v@[j] < old(doc)@.len(),
            changes_fit(old(doc)@, old(self)@),
        ensures
            final(doc).wf(),
            final(doc)@ == old(doc)@.update(n as int, NodeView { children: v@, ..old(doc)@[n as int] }),
            final(self)@ == old(self)@.push(ChangeView::Content(n as int, old(doc)@[n as int].children)),
            undo_all(final(doc)@, final(self)@) == undo_all(old(doc)@, old(self)@),
            changes_fit(final(doc)@, final(self)@),
    {
        let ghost before = doc@;
        let ghost l0 = self@;
        let prior = doc.replace_children(n, v);
        self.changes.push(PagebreakChange::Content(n, prior));
        proof {
            let c = ChangeView::Content(n as int, prior@);
            assert(self@ =~= l0.push(c));
            assert(self@.drop_last() =~= l0);
            assert(undo(doc@, c) =~= before);
            assert(change_fits(doc@, c)) by {
                assert forall|j: int| 0 <= j < prior@.len() implies n < #[trigger] prior@[j] < doc@.len() by {
                    assert(prior@[j] == before[n as int].children[j]);
                }
            }
        }
    }

    /// Records the value of attribute `i` of node `n`, then sets it to `value`.
    pub fn set_attribute(&mut self, doc: &mut Document, n: usize, i: usize, value: String)
        requires
            old(doc).wf(),
            n < old(doc)@.len(),
            i < old(doc)@[n as int].attributes.len(),
            changes_fit(old(doc)@, old(self)@),
        ensures
            final(doc).wf(),
            final(doc)@ == old(doc)@.update(n as int, NodeView {
                attributes: old(doc)@[n as int].attributes.update(i as int, AttrView {
                    value: value@,
                    ..old(doc)@[n as int].attributes[i as int]
                }),
                ..old(doc)@[n as int]
            }),
            final(self)@ == old(self)@.push(ChangeView::Attribute(n as int, i as int, old(doc)@[n as int].attributes[i as int].value)),
            undo_all(final(doc)@, final(self)@) == undo_all(old(doc)@, old(self)@),
            changes_fit(final(doc)@, final(self)@),
    {
        let ghost before = doc@;
        let ghost l0 = self@;
        let prior = doc.replace_attribute_value(n, i, value);
        self.changes.push(PagebreakChange::Attribute(n, i, prior));
        proof {
            let c = ChangeView::Attribute(n as int, i as int, prior@);
            assert(self@ =~= l0.push(c));
            assert(self@.drop_last() =~= l0);
            assert(undo(doc@, c)[n as int].attributes =~= before[n as int].attributes);
            assert(undo(doc@, c) =~= before);
        }
    }

    /// Records the attributes of node `n`, then sets them to `attrs`.
    pub fn set_attributes(&mut self, doc: &mut Document, n: usize, attrs: Vec<Attribute>)
        requires
            old(doc).wf(),
            n < old(doc)@.len(),
            changes_fit(old(doc)@, old(self)@),
        ensures
            final(doc).wf(),
            final(doc)@ == old(doc)@.update(n as int, NodeView { attributes: attr_views(attrs@), ..old(doc)@[n as int] }),
            final(self)@ == old(self)@.push(ChangeView::Attributes(n as int, old(doc)@[n as int].attributes)),
            undo_all(final(doc)@, final(self)@) == undo_all(old(doc)@, old(self)@),
            changes_fit(final(doc)@, final(self)@),
    {
        let ghost before = doc@;
        let ghost l0 = self@;
        let prior = doc.replace_attributes(n, attrs);
        self.changes.push(PagebreakChange::Attributes(n, prior));
        proof {
            let c = ChangeView::Attributes(n as int, attr_views(prior@));
            assert(self@ =~= l0.push(c));
            assert(self@.drop_last() =~= l0);
            assert(undo(doc@, c) =~= before);
        }
    }

    /// Adds a text node to the document, which nothing holds yet.
    pub fn add_text(&mut self, doc: &mut Document, t: String) -> (r: usize)
        requires
            old(doc).wf(),
            old(doc)@.len() < usize::MAX,
            changes_fit(old(doc)@, old(self)@),
        ensures
            final(doc).wf(),
            r == old(doc)@.len(),
            final(self)@ == old(self)@,
            final(doc)@ == old(doc)@.push(NodeView { data: NodeData::Text(t), attributes: Seq::empty(), children: Seq::empty() }),
            undo_all(final(doc)@, final(self)@) == undo_all(old(doc)@, old(self)@).push(
                NodeView { data: NodeData::Text(t), attributes: Seq::empty(), children: Seq::empty() }),
            changes_fit(final(doc)@, final(self)@),
    {
        let ghost before = doc@;
        let r = doc.push_text(t);
        proof {
            let x = NodeView { data: NodeData::Text(t), attributes: Seq::empty(), children: Seq::empty() };
            lemma_undo_all_push(before, self@, x);
        }
        r
    }

    /// Puts every recorded state back, the latest first, and empties the ledger.
    pub fn revert(&mut self, doc: &mut Document)
        requires
            old(doc).wf(),
            changes_fit(old(doc)@, old(self)@),
        ensures
            final(doc).wf(),
            final(doc)@ == undo_all(old(doc)@, old(self)@),
            final(self)@.len() == 0,
    {
        let ghost target = undo_all(doc@, self@);
        while self.changes.len() > 0
            invariant
                doc.wf(),
                changes_fit(doc@, self@),
                undo_all(doc@, self@) == target,
            decreases self.changes.len(),
        {
            let ghost l0 = self@;
            let ghost before = doc@;
            let c = self.changes.pop().unwrap();
            assert(self@ =~= l0.drop_last());
            assert(c@ == l0.last());
            match c {
                PagebreakChange::Content(n, kids) => {
                    self.restore_children(doc, n, kids);
                },
                PagebreakChange::Attribute(n, i, v) => {
                    let _ = doc.replace_attribute_value(n, i, v);
                    assert(doc@[n as int].attributes =~= undo(before, c@)[n as int].attributes);
                    assert(doc@ =~= undo(before, c@));
                },
                PagebreakChange::Attributes(n, attrs) => {
                    let _ = doc.replace_attributes(n, attrs);
                    assert(doc@ =~= undo(before, c@));
                },
            }
        }
        assert(self@ =~= Seq::<ChangeView>::empty());
    }

    fn restore_children(&self, doc: &mut Document, n: usize, kids: Vec<usize>)
        requires
            old(doc).wf(),
            change_fits(old(doc)@, ChangeView::Content(n as int, kids@)),
        ensures
            final(doc).wf(),
            final(doc)@ == undo(old(doc)@, ChangeView::Content(n as int, kids@)),
    {
        let ghost c = ChangeView::Content(n as int, kids@);
        assert(change_fits(doc@, c));
        assert(0 <= n < doc@.len());
        assert forall|j: int| 0 <= j < kids@.len() implies n < #[trigger] kids@[j] < doc@.len() by {
            assert(n < c->Content_1[j] < doc@.len());
        }
        let _ = doc.replace_children(n, kids);
    }
}

} // verus!
