//! The steps of rendering one page: placing the items, filling in the
//! metadata templates, and updating the labels and controls.

use vstd::prelude::*;
use crate::dom::{Attribute, attr_views, Document, NodeView, NodeData, AttrView, is_element, element_name, attr_index, attr_value, text_content, text_node, lemma_text_frame};
use crate::ledger::{ChangeLedger, ChangeView, undo, undo_all, changes_fit};
use crate::text::{replace_all, decimal, replace_str, decimal_string};
use crate::state::{PagebreakElement, PagebreakElementType};

verus! {

pub proof fn lemma_undo_all_len(d: Seq<NodeView>, l: Seq<ChangeView>)
    ensures
        undo_all(d, l).len() == d.len(),
    decreases l.len(),
{
    if l.len() > 0 {
        lemma_undo_all_len(undo(d, l.last()), l.drop_last());
    }
}

/// Putting back the recorded changes of `d1` gives that of `d0`, followed by
/// nodes that `d1` added.
pub open spec fn keeps_undo(d0: Seq<NodeView>, l0: Seq<ChangeView>, d1: Seq<NodeView>, l1: Seq<ChangeView>) -> bool {
    d0.len() <= d1.len() && undo_all(d1, l1).subrange(0, d0.len() as int) == undo_all(d0, l0)
}

pub proof fn lemma_keeps_undo_trans(
    d0: Seq<NodeView>, l0: Seq<ChangeView>,
    d1: Seq<NodeView>, l1: Seq<ChangeView>,
    d2: Seq<NodeView>, l2: Seq<ChangeView>,
)
    requires
        keeps_undo(d0, l0, d1, l1),
        keeps_undo(d1, l1, d2, l2),
    ensures
        keeps_undo(d0, l0, d2, l2),
{
    lemma_undo_all_len(d1, l1);
    lemma_undo_all_len(d2, l2);
    assert(undo_all(d2, l2).subrange(0, d0.len() as int) =~= undo_all(d2, l2).subrange(0, d1.len() as int).subrange(0, d0.len() as int));
}

pub proof fn lemma_keeps_undo_refl(d0: Seq<NodeView>, l0: Seq<ChangeView>)
    ensures
        keeps_undo(d0, l0, d0, l0),
{
    lemma_undo_all_len(d0, l0);
    assert(undo_all(d0, l0).subrange(0, d0.len() as int) =~= undo_all(d0, l0));
}

fn copy_indices(v: &Vec<usize>) -> (r: Vec<usize>)
    ensures
        r@ == v@,
{
    let mut r: Vec<usize> = Vec::new();
    let mut i: usize = 0;
    while i < v.len()
        invariant
            i <= v@.len(),
            r@ == v@.subrange(0, i as int),
        decreases v@.len() - i,
    {
        r.push(v[i]);
        i = i + 1;
        assert(r@ =~= v@.subrange(0, i as int));
    }
    assert(r@ =~= v@);
    r
}

/// Records and removes every child of node `c`.
pub fn detach_children(doc: &mut Document, ledger: &mut ChangeLedger, c: usize)
    requires
        old(doc).wf(),
        changes_fit(old(doc)@, old(ledger)@),
        c < old(doc)@.len(),
    ensures
        final(doc).wf(),
        changes_fit(final(doc)@, final(ledger)@),
        keeps_undo(old(doc)@, old(ledger)@, final(doc)@, final(ledger)@),
        final(doc)@ == old(doc)@.update(c as int, NodeView { children: Seq::empty(), ..old(doc)@[c as int] }),
{
    let ghost d0 = doc@;
    ledger.set_children(doc, c, Vec::new());
    proof {
        lemma_undo_all_len(d0, old(ledger)@);
        assert(undo_all(doc@, ledger@).subrange(0, d0.len() as int) =~= undo_all(doc@, ledger@));
        assert(doc@ =~= d0.update(c as int, NodeView { children: Seq::empty(), ..d0[c as int] }));
    }
}

/// Records the children of node `c`, then appends `child` to them.
pub fn reattach_child(doc: &mut Document, ledger: &mut ChangeLedger, c: usize, child: usize)
    requires
        old(doc).wf(),
        changes_fit(old(doc)@, old(ledger)@),
        c < child < old(doc)@.len(),
    ensures
        final(doc).wf(),
        changes_fit(final(doc)@, final(ledger)@),
        keeps_undo(old(doc)@, old(ledger)@, final(doc)@, final(ledger)@),
        final(doc)@ == old(doc)@.update(c as int, NodeView { children: old(doc)@[c as int].children.push(child), ..old(doc)@[c as int] }),
{
    let ghost d0 = doc@;
    let mut kids = copy_indices(doc.children(c));
    kids.push(child);
    proof {
        assert forall|j: int| 0 <= j < kids@.len() implies c < #[trigger] kids@[j] < d0.len() by {
            if j < kids@.len() - 1 {
                assert(kids@[j] == d0[c as int].children[j]);
            }
        }
    }
    ledger.set_children(doc, c, kids);
    proof {
        lemma_undo_all_len(d0, old(ledger)@);
        assert(undo_all(doc@, ledger@).subrange(0, d0.len() as int) =~= undo_all(doc@, ledger@));
    }
}

/// Appends a new text node holding `indentation` to the children of node `c`,
/// and returns its index.
pub fn indent_for_next_element(doc: &mut Document, ledger: &mut ChangeLedger, c: usize, indentation: &String) -> (r: usize)
    requires
        old(doc).wf(),
        changes_fit(old(doc)@, old(ledger)@),
        c < old(doc)@.len(),
        old(doc)@.len() + 1 < usize::MAX,
    ensures
        final(doc).wf(),
        changes_fit(final(doc)@, final(ledger)@),
        keeps_undo(old(doc)@, old(ledger)@, final(doc)@, final(ledger)@),
        r == old(doc)@.len(),
        final(doc)@ == old(doc)@.update(c as int, NodeView { children: old(doc)@[c as int].children.push(r), ..old(doc)@[c as int] })
            .push(NodeView { data: NodeData::Text(*indentation), attributes: Seq::empty(), children: Seq::empty() }),
{
    let ghost d0 = doc@;
    let ghost l0 = ledger@;
    let t = ledger.add_text(doc, indentation.clone());
    let ghost d1 = doc@;
    proof {
        lemma_undo_all_len(d0, l0);
    }
    reattach_child(doc, ledger, c, t);
    proof {
        assert(undo_all(d1, l0).subrange(0, d0.len() as int) =~= undo_all(d0, l0));
        lemma_keeps_undo_trans(d0, l0, d1, l0, doc@, ledger@);
        assert(doc@ =~= d0.update(c as int, NodeView { children: d0[c as int].children.push(t), ..d0[c as int] })
            .push(NodeView { data: NodeData::Text(*indentation), attributes: Seq::empty(), children: Seq::empty() }));
    }
    t
}


/// The children of the container on a page: an indentation node before each
/// item and one after the last, the indentation nodes numbered from `base`.
pub open spec fn page_layout(base: int, items: Seq<usize>) -> Seq<usize> {
    Seq::new((2 * items.len() + 1) as nat, |p: int| if p % 2 == 0 { (base + p / 2) as usize } else { items[p / 2] })
}

/// The document with the container `c` holding `items` as `page_layout`
/// places them, and the indentation nodes added after the existing nodes.
pub open spec fn populated(d: Seq<NodeView>, c: int, items: Seq<usize>, indentation: String) -> Seq<NodeView> {
    d.update(c, NodeView { children: page_layout(d.len() as int, items), ..d[c] })
        + Seq::new((items.len() + 1) as nat, |j: int| NodeView { data: NodeData::Text(indentation), attributes: Seq::empty(), children: Seq::empty() })
}

/// Puts `items` into the container `c`, each after a new indentation node, and
/// one more indentation node after them, recording every change.
pub fn populate(doc: &mut Document, ledger: &mut ChangeLedger, c: usize, items: &Vec<usize>, indentation: &String)
    requires
        old(doc).wf(),
        changes_fit(old(doc)@, old(ledger)@),
        c < old(doc)@.len(),
        old(doc)@.len() + items@.len() + 2 < usize::MAX,
        forall|j: int| 0 <= j < items@.len() ==> c < #[trigger] items@[j] < old(doc)@.len(),
    ensures
        final(doc).wf(),
        changes_fit(final(doc)@, final(ledger)@),
        keeps_undo(old(doc)@, old(ledger)@, final(doc)@, final(ledger)@),
        final(doc)@.len() == old(doc)@.len() + items@.len() + 1,
        final(doc)@[c as int].children == page_layout(old(doc)@.len() as int, items@),
        final(doc)@[c as int].data == old(doc)@[c as int].data,
        final(doc)@[c as int].attributes == old(doc)@[c as int].attributes,
        forall|m: int| 0 <= m < old(doc)@.len() && m != c ==> #[trigger] final(doc)@[m] == old(doc)@[m],
        forall|m: int| old(doc)@.len() <= m < final(doc)@.len() ==>
            #[trigger] final(doc)@[m] == (NodeView { data: NodeData::Text(*indentation), attributes: Seq::empty(), children: Seq::empty() }),
        final(doc)@ == populated(old(doc)@, c as int, items@, *indentation),
{
    let ghost d0 = doc@;
    let ghost l0 = ledger@;
    let ghost base = d0.len() as int;
    let ghost text = NodeView { data: NodeData::Text(*indentation), attributes: Seq::empty(), children: Seq::empty() };
    detach_children(doc, ledger, c);
    let mut j: usize = 0;
    while j < items.len()
        invariant
            doc.wf(),
            changes_fit(doc@, ledger@),
            keeps_undo(d0, l0, doc@, ledger@),
            base == d0.len(),
            text == (NodeView { data: NodeData::Text(*indentation), attributes: Seq::empty(), children: Seq::empty() }),
            c < d0.len(),
            d0.len() + items@.len() + 2 < usize::MAX,
            forall|k: int| 0 <= k < items@.len() ==> c < #[trigger] items@[k] < d0.len(),
            j <= items@.len(),
            doc@.len() == base + j,
            doc@[c as int].children == page_layout(base, items@.subrange(0, j as int)).drop_last(),
            doc@[c as int].data == d0[c as int].data,
            doc@[c as int].attributes == d0[c as int].attributes,
            forall|m: int| 0 <= m < base && m != c ==> #[trigger] doc@[m] == d0[m],
            forall|m: int| base <= m < doc@.len() ==> #[trigger] doc@[m] == text,
        decreases items@.len() - j,
    {
        let ghost da = doc@;
        let ghost la = ledger@;
        let t = indent_for_next_element(doc, ledger, c, indentation);
        let ghost db = doc@;
        let ghost lb = ledger@;
        reattach_child(doc, ledger, c, items[j]);
        proof {
            lemma_keeps_undo_trans(d0, l0, da, la, db, lb);
            lemma_keeps_undo_trans(d0, l0, db, lb, doc@, ledger@);
            let old_layout = page_layout(base, items@.subrange(0, j as int));
            let new_layout = page_layout(base, items@.subrange(0, j + 1));
            assert(doc@[c as int].children =~= new_layout.drop_last()) by {
                assert(old_layout.drop_last().push(t).push(items@[j as int]) =~= new_layout.drop_last());
            }
            assert forall|m: int| base <= m < doc@.len() implies #[trigger] doc@[m] == text by {
                assert(doc@[m] == db[m]);
                if m < da.len() {
                    assert(db[m] == da[m]);
                }
            }
        }
        j = j + 1;
    }
    let ghost da = doc@;
    let ghost la = ledger@;
    let t = indent_for_next_element(doc, ledger, c, indentation);
    proof {
        lemma_keeps_undo_trans(d0, l0, da, la, doc@, ledger@);
        assert(items@.subrange(0, j as int) =~= items@);
        assert(page_layout(base, items@).drop_last().push(t) =~= page_layout(base, items@));
        assert forall|m: int| base <= m < doc@.len() implies #[trigger] doc@[m] == text by {
            if m < da.len() {
                assert(doc@[m] == da[m]);
            }
        }
        let p = populated(d0, c as int, items@, *indentation);
        assert(p.len() == doc@.len());
        assert forall|m: int| 0 <= m < p.len() implies #[trigger] doc@[m] == p[m] by {
            if m < base {
                if m != c {
                    assert(doc@[m] == d0[m]);
                }
            } else {
                assert(doc@[m] == text);
            }
        }
        assert(doc@ =~= p);
    }
}


/// Whether `s` begins with `t`.
pub open spec fn token_at(s: Seq<char>, t: Seq<char>) -> bool {
    t.len() <= s.len() && s.subrange(0, t.len() as int) == t
}

pub open spec fn num_placeholder() -> Seq<char> {
    seq![':', 'n', 'u', 'm']
}

pub open spec fn content_placeholder() -> Seq<char> {
    seq![':', 'c', 'o', 'n', 't', 'e', 'n', 't']
}

pub open spec fn rel_from_placeholder() -> Seq<char> {
    seq![':', 'r', 'e', 'l', '-', 'f', 'r', 'o', 'm']
}

pub open spec fn rel_to_placeholder() -> Seq<char> {
    seq![':', 'r', 'e', 'l', '-', 't', 'o']
}

/// A template filled in one pass from the left: each `:num`, `:content`,
/// `:rel-from` and `:rel-to` is replaced by its value, and what a value
/// holds is never read as a placeholder.
pub open spec fn fill_template(s: Seq<char>, num: Seq<char>, content: Seq<char>, rel_from: Seq<char>, rel_to: Seq<char>) -> Seq<char>
    decreases s.len(),
{
    if s.len() == 0 {
        Seq::empty()
    } else if token_at(s, num_placeholder()) {
        num + fill_template(s.subrange(4, s.len() as int), num, content, rel_from, rel_to)
    } else if token_at(s, content_placeholder()) {
        content + fill_template(s.subrange(8, s.len() as int), num, content, rel_from, rel_to)
    } else if token_at(s, rel_from_placeholder()) {
        rel_from + fill_template(s.subrange(9, s.len() as int), num, content, rel_from, rel_to)
    } else if token_at(s, rel_to_placeholder()) {
        rel_to + fill_template(s.subrange(7, s.len() as int), num, content, rel_from, rel_to)
    } else {
        seq![s[0]] + fill_template(s.drop_first(), num, content, rel_from, rel_to)
    }
}

/// A template filled for a page: `:num` is the page number counted from one,
/// `:content` the value being replaced, `:rel-from` the link from this page to
/// the first and `:rel-to` the link from the first page to this one.
pub open spec fn resolve_format_spec(format: Seq<char>, page: nat, content: Seq<char>, rel_from: Seq<char>, rel_to: Seq<char>) -> Seq<char> {
    fill_template(format, decimal(page + 1), content, rel_from, rel_to)
}

/// Fills a template, as `resolve_format_spec` states.
pub fn resolve_format(format: &str, page: usize, content: &str, rel_from: &str, rel_to: &str) -> (r: String)
    requires
        page < usize::MAX,
    ensures
        r@ == resolve_format_spec(format@, page as nat, content@, rel_from@, rel_to@),
{
    let num = decimal_string(page + 1);
    proof {
        reveal_strlit(":num");
        reveal_strlit(":content");
        reveal_strlit(":rel-from");
        reveal_strlit(":rel-to");
    }
    let t_num = crate::text::chars_of(":num");
    let t_content = crate::text::chars_of(":content");
    let t_from = crate::text::chars_of(":rel-from");
    let t_to = crate::text::chars_of(":rel-to");
    assert(t_num@ =~= num_placeholder());
    assert(t_content@ =~= content_placeholder());
    assert(t_from@ =~= rel_from_placeholder());
    assert(t_to@ =~= rel_to_placeholder());
    let cs = crate::text::chars_of(format);
    let n = cs.len();
    let ghost nv = num@;
    let ghost full = fill_template(format@, nv, content@, rel_from@, rel_to@);
    let mut out = String::new();
    let mut run: usize = 0;
    let mut i: usize = 0;
    assert(format@.subrange(0, 0) =~= Seq::<char>::empty());
    assert(format@.subrange(0, n as int) =~= format@);
    while i < n
        invariant
            n == format@.len(),
            cs@ == format@,
            t_num@ == num_placeholder(),
            t_content@ == content_placeholder(),
            t_from@ == rel_from_placeholder(),
            t_to@ == rel_to_placeholder(),
            nv == num@,
            full == fill_template(format@, nv, content@, rel_from@, rel_to@),
            run <= i <= n,
            out@ + format@.subrange(run as int, i as int) + fill_template(format@.subrange(i as int, n as int), nv, content@, rel_from@, rel_to@) == full,
        decreases n - i,
    {
        let ghost rest = format@.subrange(i as int, n as int);
        let ghost before = out@;
        let ghost pending = format@.subrange(run as int, i as int);
        let (hit, len) = if crate::text::occurs_at(&cs, i, &t_num) {
            (1u8, 4usize)
        } else if crate::text::occurs_at(&cs, i, &t_content) {
            (2u8, 8usize)
        } else if crate::text::occurs_at(&cs, i, &t_from) {
            (3u8, 9usize)
        } else if crate::text::occurs_at(&cs, i, &t_to) {
            (4u8, 7usize)
        } else {
            (0u8, 1usize)
        };
        proof {
            if 4 <= rest.len() {
                assert(rest.subrange(0, 4) =~= format@.subrange(i as int, i + 4));
            }
            if 8 <= rest.len() {
                assert(rest.subrange(0, 8) =~= format@.subrange(i as int, i + 8));
            }
            if 9 <= rest.len() {
                assert(rest.subrange(0, 9) =~= format@.subrange(i as int, i + 9));
            }
            if 7 <= rest.len() {
                assert(rest.subrange(0, 7) =~= format@.subrange(i as int, i + 7));
            }
            assert(rest.subrange(len as int, rest.len() as int) =~= format@.subrange(i + len, n as int));
        }
        if hit == 0 {
            assert(pending + seq![rest[0]] =~= format@.subrange(run as int, i + 1));
            assert(out@ + format@.subrange(run as int, i + 1) + fill_template(format@.subrange(i + 1, n as int), nv, content@, rel_from@, rel_to@) =~=
                out@ + pending + fill_template(rest, nv, content@, rel_from@, rel_to@));
            i = i + 1;
        } else {
            out.append(format.substring_char(run, i));
            if hit == 1 {
                out.append(num.as_str());
            } else if hit == 2 {
                out.append(content);
            } else if hit == 3 {
                out.append(rel_from);
            } else {
                out.append(rel_to);
            }
            i = i + len;
            run = i;
            assert(format@.subrange(run as int, i as int) =~= Seq::<char>::empty());
            assert(out@ + format@.subrange(run as int, i as int) + fill_template(format@.subrange(i as int, n as int), nv, content@, rel_from@, rel_to@) =~=
                before + pending + fill_template(rest, nv, content@, rel_from@, rel_to@));
        }
    }
    assert(format@.subrange(n as int, n as int) =~= Seq::<char>::empty());
    out.append(format.substring_char(run, n));
    assert(out@ =~= full);
    out
}

pub open spec fn is_title(nv: NodeView) -> bool {
    is_element(nv) && element_name(nv) == "title"@
}

fn is_title_node(doc: &Document, n: usize, title: &String) -> (r: bool)
    requires
        n < doc@.len(),
        title@ == "title"@,
    ensures
        r == is_title(doc@[n as int]),
{
    match doc.data(n) {
        NodeData::Element { name, .. } => *name == *title,
        _ => false,
    }
}

/// The ledger entries that the title rewrite records over the first `upto`
/// nodes: the prior children of each title element, in node order.
pub open spec fn title_entries(d0: Seq<NodeView>, upto: int) -> Seq<ChangeView>
    decreases upto,
{
    if upto <= 0 {
        Seq::empty()
    } else {
        title_entries(d0, upto - 1) + if is_title(d0[upto - 1]) {
            seq![ChangeView::Content(upto - 1, d0[upto - 1].children)]
        } else {
            Seq::empty()
        }
    }
}

/// The title elements of `d0` in `d1`: each holds a single new text node with
/// its text filled into `format`; every other node is as it was.
pub open spec fn titles_rewritten(d0: Seq<NodeView>, d1: Seq<NodeView>, upto: int, format: Seq<char>, page: nat, rel_from: Seq<char>, rel_to: Seq<char>) -> bool {
    forall|m: int| 0 <= m < upto ==> if is_title(#[trigger] d0[m]) {
        &&& d1[m].data == d0[m].data
        &&& d1[m].attributes == d0[m].attributes
        &&& d1[m].children.len() == 1
        &&& d0.len() <= d1[m].children[0] < d1.len()
        &&& text_node(resolve_format_spec(format, page, text_content(d0, m), rel_from, rel_to), d1[d1[m].children[0] as int])
    } else {
        d1[m] == d0[m]
    }
}

/// On a page after the first, replaces the text of every title element with
/// the template filled with that text, recording every change.
pub fn update_tag_content(doc: &mut Document, ledger: &mut ChangeLedger, format: &String, page: usize, rel_from: &String, rel_to: &String)
    requires
        old(doc).wf(),
        changes_fit(old(doc)@, old(ledger)@),
        2 * old(doc)@.len() + 1 < usize::MAX,
        page < usize::MAX,
    ensures
        final(doc).wf(),
        changes_fit(final(doc)@, final(ledger)@),
        keeps_undo(old(doc)@, old(ledger)@, final(doc)@, final(ledger)@),
        page == 0 ==> final(doc)@ == old(doc)@ && final(ledger)@ == old(ledger)@,
        old(doc)@.len() <= final(doc)@.len() <= 2 * old(doc)@.len(),
        page > 0 ==> titles_rewritten(old(doc)@, final(doc)@, old(doc)@.len() as int, format@, page as nat, rel_from@, rel_to@),
        page > 0 ==> final(ledger)@ == old(ledger)@ + title_entries(old(doc)@, old(doc)@.len() as int),
{
    proof {
        lemma_keeps_undo_refl(doc@, ledger@);
    }
    if page == 0 {
        return;
    }
    let ghost d0 = doc@;
    let ghost l0 = ledger@;
    let title = String::from_str("title");
    let n = doc.len();
    let mut i: usize = 0;
    while i < n
        invariant
            doc.wf(),
            changes_fit(doc@, ledger@),
            keeps_undo(d0, l0, doc@, ledger@),
            crate::dom::nodes_wf(d0),
            n == d0.len(),
            2 * n + 1 < usize::MAX,
            page < usize::MAX,
            title@ == "title"@,
            i <= n,
            n <= doc@.len() <= n + i,
            forall|m: int| i <= m < n ==> #[trigger] doc@[m] == d0[m],
            titles_rewritten(d0, doc@, i as int, format@, page as nat, rel_from@, rel_to@),
            ledger@ == l0 + title_entries(d0, i as int),
        decreases n - i,
    {
        let ghost da = doc@;
        let ghost la = ledger@;
        if is_title_node(doc, i, &title) {
            let content = doc.text_content(i);
            proof {
                lemma_text_frame(d0, da, i as int);
            }
            let resolved = resolve_format(format.as_str(), page, content.as_str(), rel_from.as_str(), rel_to.as_str());
            let t = ledger.add_text(doc, resolved);
            let ghost db = doc@;
            let mut kids: Vec<usize> = Vec::new();
            kids.push(t);
            ledger.set_children(doc, i, kids);
            proof {
                assert(ledger@ =~= l0 + title_entries(d0, i + 1));
                lemma_undo_all_len(da, la);
                assert(undo_all(db, la).subrange(0, da.len() as int) =~= undo_all(da, la));
                assert(undo_all(doc@, ledger@).subrange(0, db.len() as int) =~= undo_all(db, la));
                lemma_keeps_undo_trans(d0, l0, da, la, db, la);
                lemma_keeps_undo_trans(d0, l0, db, la, doc@, ledger@);
                assert forall|m: int| 0 <= m < i + 1 implies (if is_title(#[trigger] d0[m]) {
                    &&& doc@[m].data == d0[m].data
                    &&& doc@[m].attributes == d0[m].attributes
                    &&& doc@[m].children.len() == 1
                    &&& d0.len() <= doc@[m].children[0] < doc@.len()
                    &&& text_node(resolve_format_spec(format@, page as nat, text_content(d0, m), rel_from@, rel_to@), doc@[doc@[m].children[0] as int])
                } else {
                    doc@[m] == d0[m]
                }) by {
                    if m < i {
                        assert(doc@[m] == da[m]);
                        if is_title(d0[m]) {
                            let c0 = da[m].children[0] as int;
                            assert(doc@[c0] == da[c0]);
                        }
                    }
                }
            }
        }
        i = i + 1;
    }
}


pub open spec fn is_ascii_letter(c: char) -> bool {
    ('a' <= c && c <= 'z') || ('A' <= c && c <= 'Z')
}

pub open spec fn is_scheme_char(c: char) -> bool {
    is_ascii_letter(c) || ('0' <= c && c <= '9') || c == '+' || c == '-' || c == '.'
}

/// Whether a value begins with a URL scheme: a letter, then letters, digits,
/// `+`, `-` or `.`, then `:` (`http:`, `mailto:`, `tel:`).
pub open spec fn has_scheme(v: Seq<char>) -> bool {
    exists|i: int| 1 <= i < v.len() && #[trigger] v[i] == ':' && is_ascii_letter(v[0])
        && forall|j: int| 1 <= j < i ==> is_scheme_char(#[trigger] v[j])
}

/// A link that is relative to the page: neither scheme-prefixed nor rooted at `/`.
pub open spec fn is_relative_url(v: Seq<char>) -> bool {
    !has_scheme(v) && !(v.len() > 0 && v[0] == '/')
}

/// Whether a value is a relative link, as `is_relative_url` states.
pub fn relative_url(v: &str) -> (r: bool)
    ensures
        r == is_relative_url(v@),
{
    let cs = crate::text::chars_of(v);
    if cs.len() > 0 && cs[0] == '/' {
        return false;
    }
    if cs.len() == 0 || !(('a' <= cs[0] && cs[0] <= 'z') || ('A' <= cs[0] && cs[0] <= 'Z')) {
        return true;
    }
    let mut j: usize = 1;
    while j < cs.len()
        invariant
            cs@ == v@,
            1 <= j <= cs@.len(),
            is_ascii_letter(cs@[0]),
            cs@[0] != '/',
            forall|k: int| 1 <= k < j ==> is_scheme_char(#[trigger] cs@[k]) && cs@[k] != ':',
        decreases cs@.len() - j,
    {
        let c = cs[j];
        if c == ':' {
            assert(v@[j as int] == ':');
            return false;
        }
        if !(('a' <= c && c <= 'z') || ('A' <= c && c <= 'Z') || ('0' <= c && c <= '9') || c == '+' || c == '-' || c == '.') {
            assert forall|i: int| 1 <= i < v@.len() && #[trigger] v@[i] == ':' implies
                !(forall|k: int| 1 <= k < i ==> is_scheme_char(#[trigger] v@[k])) by {
                assert(i > j);
                assert(!is_scheme_char(v@[j as int]));
            }
            return true;
        }
        j = j + 1;
    }
    true
}

/// Whether an element is chosen by the attribute selector `[sel_name]` or,
/// with a value, `[sel_name="value"]`.
pub open spec fn selected(nv: NodeView, sel_name: Seq<char>, sel_value: Option<Seq<char>>) -> bool {
    is_element(nv) && attr_index(nv.attributes, sel_name) >= 0
        && (sel_value matches Some(v) ==> attr_value(nv, sel_name) == Some(v))
}

/// Whether the rewrite of attribute `attr` applies to a node.
pub open spec fn rewrites(nv: NodeView, sel_name: Seq<char>, sel_value: Option<Seq<char>>, attr: Seq<char>, relative_only: bool) -> bool {
    selected(nv, sel_name, sel_value) && attr_index(nv.attributes, attr) >= 0
        && (relative_only ==> is_relative_url(attr_value(nv, attr)->0))
}

/// A node with the value of attribute `attr` set to `value`.
pub open spec fn with_attr_value(nv: NodeView, attr: Seq<char>, value: Seq<char>) -> NodeView {
    let i = attr_index(nv.attributes, attr);
    NodeView { attributes: nv.attributes.update(i, AttrView { value, ..nv.attributes[i] }), ..nv }
}

/// One attribute rewrite applied to one node.
pub open spec fn attr_step(nv: NodeView, sel_name: Seq<char>, sel_value: Option<Seq<char>>, attr: Seq<char>, relative_only: bool,
    format: Seq<char>, page: nat, rel_from: Seq<char>, rel_to: Seq<char>) -> NodeView {
    if rewrites(nv, sel_name, sel_value, attr, relative_only) {
        with_attr_value(nv, attr, resolve_format_spec(format, page, attr_value(nv, attr)->0, rel_from, rel_to))
    } else {
        nv
    }
}

/// What an attribute rewrite does to a node depends on its data and attributes alone.
pub proof fn lemma_attr_step_local(x: NodeView, y: NodeView, sel_name: Seq<char>, sel_value: Option<Seq<char>>, attr: Seq<char>,
    relative_only: bool, format: Seq<char>, page: nat, rel_from: Seq<char>, rel_to: Seq<char>)
    requires
        x.data == y.data,
        x.attributes == y.attributes,
    ensures
        attr_step(x, sel_name, sel_value, attr, relative_only, format, page, rel_from, rel_to).data
            == attr_step(y, sel_name, sel_value, attr, relative_only, format, page, rel_from, rel_to).data,
        attr_step(x, sel_name, sel_value, attr, relative_only, format, page, rel_from, rel_to).attributes
            == attr_step(y, sel_name, sel_value, attr, relative_only, format, page, rel_from, rel_to).attributes,
        attr_step(x, sel_name, sel_value, attr, relative_only, format, page, rel_from, rel_to).children == x.children,
{
}

/// The ledger entries that an attribute rewrite records over the first
/// `upto` nodes: the prior value of each rewritten attribute, in node order.
pub open spec fn attr_entries(d0: Seq<NodeView>, upto: int, sel_name: Seq<char>, sel_value: Option<Seq<char>>,
    attr: Seq<char>, relative_only: bool) -> Seq<ChangeView>
    decreases upto,
{
    if upto <= 0 {
        Seq::empty()
    } else {
        let m = upto - 1;
        attr_entries(d0, m, sel_name, sel_value, attr, relative_only) + if rewrites(d0[m], sel_name, sel_value, attr, relative_only) {
            seq![ChangeView::Attribute(m, attr_index(d0[m].attributes, attr), attr_value(d0[m], attr)->0)]
        } else {
            Seq::empty()
        }
    }
}

pub open spec fn attr_rewritten(d0: Seq<NodeView>, d1: Seq<NodeView>, upto: int, sel_name: Seq<char>, sel_value: Option<Seq<char>>,
    attr: Seq<char>, relative_only: bool, format: Seq<char>, page: nat, rel_from: Seq<char>, rel_to: Seq<char>) -> bool {
    forall|m: int| 0 <= m < upto ==> #[trigger] d1[m] == if rewrites(d0[m], sel_name, sel_value, attr, relative_only) {
        with_attr_value(d0[m], attr, resolve_format_spec(format, page, attr_value(d0[m], attr)->0, rel_from, rel_to))
    } else {
        d0[m]
    }
}

/// On a page after the first, sets attribute `attr` of every element that the
/// selector chooses (and, with `relative_only`, whose value is a relative link)
/// to the template filled with its value, recording every change.
pub fn update_tag_attribute(
    doc: &mut Document,
    ledger: &mut ChangeLedger,
    format: &String,
    sel_name: &String,
    sel_value: Option<&String>,
    attr: &String,
    relative_only: bool,
    page: usize,
    rel_from: &String,
    rel_to: &String,
)
    requires
        old(doc).wf(),
        changes_fit(old(doc)@, old(ledger)@),
        page < usize::MAX,
    ensures
        final(doc).wf(),
        changes_fit(final(doc)@, final(ledger)@),
        keeps_undo(old(doc)@, old(ledger)@, final(doc)@, final(ledger)@),
        page == 0 ==> final(doc)@ == old(doc)@ && final(ledger)@ == old(ledger)@,
        final(doc)@.len() == old(doc)@.len(),
        page > 0 ==> attr_rewritten(old(doc)@, final(doc)@, old(doc)@.len() as int, sel_name@,
            match sel_value { Some(v) => Some(v@), None => None }, attr@, relative_only, format@, page as nat, rel_from@, rel_to@),
        page > 0 ==> final(ledger)@ == old(ledger)@ + attr_entries(old(doc)@, old(doc)@.len() as int, sel_name@,
            match sel_value { Some(v) => Some(v@), None => None }, attr@, relative_only),
{
    proof {
        lemma_keeps_undo_refl(doc@, ledger@);
    }
    if page == 0 {
        return;
    }
    let ghost d0 = doc@;
    let ghost l0 = ledger@;
    let ghost sv = match sel_value { Some(v) => Some(v@), None => None };
    let n = doc.len();
    let mut i: usize = 0;
    while i < n
        invariant
            doc.wf(),
            changes_fit(doc@, ledger@),
            keeps_undo(d0, l0, doc@, ledger@),
            n == d0.len(),
            n == doc@.len(),
            page < usize::MAX,
            sv == match sel_value { Some(v) => Some(v@), None => None },
            i <= n,
            forall|m: int| i <= m < n ==> #[trigger] doc@[m] == d0[m],
            attr_rewritten(d0, doc@, i as int, sel_name@, sv, attr@, relative_only, format@, page as nat, rel_from@, rel_to@),
            ledger@ == l0 + attr_entries(d0, i as int, sel_name@, sv, attr@, relative_only),
        decreases n - i,
    {
        let ghost da = doc@;
        let ghost la = ledger@;
        assert(da[i as int] == d0[i as int]);
        let mut chosen = false;
        let mut at: usize = 0;
        if doc.is_element(i) {
            match doc.find_attribute(i, sel_name) {
                Some(si) => {
                    let value_ok = match sel_value {
                        Some(v) => *doc.attribute_value(i, si) == *v,
                        None => true,
                    };
                    if value_ok {
                        match doc.find_attribute(i, attr) {
                            Some(ai) => {
                                let v = doc.attribute_value(i, ai);
                                let filter_ok = if relative_only {
                                    relative_url(v.as_str())
                                } else {
                                    true
                                };
                                if filter_ok {
                                    chosen = true;
                                    at = ai;
                                }
                            },
                            None => {},
                        }
                    }
                },
                None => {},
            }
        }
        assert(chosen == rewrites(d0[i as int], sel_name@, sv, attr@, relative_only));
        let ghost entries_before = ledger@;
        if chosen {
            let content = doc.attribute_value(i, at).clone();
            let resolved = resolve_format(format.as_str(), page, content.as_str(), rel_from.as_str(), rel_to.as_str());
            ledger.set_attribute(doc, i, at, resolved);
            proof {
                assert(at as int == attr_index(d0[i as int].attributes, attr@));
                assert(ledger@ =~= l0 + attr_entries(d0, i + 1, sel_name@, sv, attr@, relative_only));
                lemma_undo_all_len(da, la);
                assert(undo_all(doc@, ledger@).subrange(0, da.len() as int) =~= undo_all(doc@, ledger@));
                lemma_keeps_undo_trans(d0, l0, da, la, doc@, ledger@);
                assert(doc@[i as int].attributes =~= with_attr_value(d0[i as int], attr@, resolve_format_spec(format@, page as nat, content@, rel_from@, rel_to@)).attributes);
                assert forall|m: int| 0 <= m < i + 1 implies #[trigger] doc@[m] == if rewrites(d0[m], sel_name@, sv, attr@, relative_only) {
                    with_attr_value(d0[m], attr@, resolve_format_spec(format@, page as nat, attr_value(d0[m], attr@)->0, rel_from@, rel_to@))
                } else {
                    d0[m]
                } by {
                    if m < i {
                        assert(doc@[m] == da[m]);
                    }
                }
            }
        }
        i = i + 1;
    }
}


/// Whether `m` is a control of type `ty`.
pub open spec fn is_control_of(els: Seq<PagebreakElement>, ty: PagebreakElementType, m: int) -> bool {
    exists|k: int| 0 <= k < els.len() && (#[trigger] els[k]).element == m && els[k].element_type == ty
}

pub open spec fn controls_ok(els: Seq<PagebreakElement>, len: nat) -> bool {
    &&& forall|k: int| 0 <= k < els.len() ==> (#[trigger] els[k]).element < len
        && (els[k].parent matches Some(p) ==> p < len)
    &&& forall|k: int, l: int| 0 <= k < l < els.len() ==> (#[trigger] els[k]).element < (#[trigger] els[l]).element
}

/// Sets the text of every control of type `ty` to `text`, recording every change.
pub fn update_element_text(doc: &mut Document, ledger: &mut ChangeLedger, els: &Vec<PagebreakElement>, ty: PagebreakElementType, text: &String)
    requires
        old(doc).wf(),
        changes_fit(old(doc)@, old(ledger)@),
        old(doc)@.len() + els@.len() + 1 < usize::MAX,
        controls_ok(els@, old(doc)@.len()),
    ensures
        final(doc).wf(),
        changes_fit(final(doc)@, final(ledger)@),
        keeps_undo(old(doc)@, old(ledger)@, final(doc)@, final(ledger)@),
        old(doc)@.len() <= final(doc)@.len() <= old(doc)@.len() + els@.len(),
        forall|k: int| 0 <= k < els@.len() && (#[trigger] els@[k]).element_type == ty ==> {
            let e = els@[k].element as int;
            &&& final(doc)@[e].data == old(doc)@[e].data
            &&& final(doc)@[e].attributes == old(doc)@[e].attributes
            &&& final(doc)@[e].children.len() == 1
            &&& old(doc)@.len() <= final(doc)@[e].children[0] < final(doc)@.len()
            &&& text_node(text@, final(doc)@[final(doc)@[e].children[0] as int])
        },
        forall|m: int| 0 <= m < old(doc)@.len() && !is_control_of(els@, ty, m) ==> #[trigger] final(doc)@[m] == old(doc)@[m],
{
    let ghost d0 = doc@;
    let ghost l0 = ledger@;
    proof {
        lemma_keeps_undo_refl(d0, l0);
    }
    let mut i: usize = 0;
    while i < els.len()
        invariant
            doc.wf(),
            changes_fit(doc@, ledger@),
            keeps_undo(d0, l0, doc@, ledger@),
            d0.len() + els@.len() + 1 < usize::MAX,
            controls_ok(els@, d0.len()),
            i <= els@.len(),
            d0.len() <= doc@.len() <= d0.len() + i,
            forall|k: int| 0 <= k < i && (#[trigger] els@[k]).element_type == ty ==> {
                let e = els@[k].element as int;
                &&& doc@[e].data == d0[e].data
                &&& doc@[e].attributes == d0[e].attributes
                &&& doc@[e].children.len() == 1
                &&& d0.len() <= doc@[e].children[0] < doc@.len()
                &&& text_node(text@, doc@[doc@[e].children[0] as int])
            },
            forall|m: int| 0 <= m < d0.len() && !(exists|k: int| 0 <= k < i && (#[trigger] els@[k]).element == m && els@[k].element_type == ty)
                ==> #[trigger] doc@[m] == d0[m],
        decreases els@.len() - i,
    {
        let ghost da = doc@;
        let ghost la = ledger@;
        let e = els[i].element;
        if els[i].element_type == ty {
            let t = ledger.add_text(doc, text.clone());
            let ghost db = doc@;
            let mut kids: Vec<usize> = Vec::new();
            kids.push(t);
            ledger.set_children(doc, e, kids);
            proof {
                lemma_undo_all_len(da, la);
                assert(undo_all(db, la).subrange(0, da.len() as int) =~= undo_all(da, la));
                assert(undo_all(doc@, ledger@).subrange(0, db.len() as int) =~= undo_all(db, la));
                lemma_keeps_undo_trans(d0, l0, da, la, db, la);
                lemma_keeps_undo_trans(d0, l0, db, la, doc@, ledger@);
                assert(!(exists|k: int| 0 <= k < i && (#[trigger] els@[k]).element == e && els@[k].element_type == ty)) by {
                    assert forall|k: int| 0 <= k < i implies (#[trigger] els@[k]).element != e by {
                        assert(els@[k].element < els@[i as int].element);
                    }
                }
                assert(da[e as int] == d0[e as int]);
                assert forall|k: int| 0 <= k < i + 1 && (#[trigger] els@[k]).element_type == ty implies {
                    let e2 = els@[k].element as int;
                    &&& doc@[e2].data == d0[e2].data
                    &&& doc@[e2].attributes == d0[e2].attributes
                    &&& doc@[e2].children.len() == 1
                    &&& d0.len() <= doc@[e2].children[0] < doc@.len()
                    &&& text_node(text@, doc@[doc@[e2].children[0] as int])
                } by {
                    if k < i {
                        let e2 = els@[k].element as int;
                        assert(e2 < e);
                        assert(doc@[e2] == da[e2]);
                        let c0 = da[e2].children[0] as int;
                        assert(doc@[c0] == da[c0]);
                    }
                }
                assert forall|m: int| 0 <= m < d0.len() && !(exists|k: int| 0 <= k < i + 1 && (#[trigger] els@[k]).element == m && els@[k].element_type == ty)
                    implies #[trigger] doc@[m] == d0[m] by {
                    if m == e {
                        assert(els@[i as int].element == m);
                    }
                    assert(doc@[m] == da[m]);
                }
            }
        } else {
            proof {
                assert forall|m: int| 0 <= m < d0.len() && !(exists|k: int| 0 <= k < i + 1 && (#[trigger] els@[k]).element == m && els@[k].element_type == ty)
                    implies #[trigger] doc@[m] == d0[m] by {
                    assert(!(exists|k: int| 0 <= k < i && (#[trigger] els@[k]).element == m && els@[k].element_type == ty));
                }
            }
        }
        i = i + 1;
    }
}


pub open spec fn href_attr() -> Seq<char> {
    "href"@
}

/// A node with its link set to `href`: the `href` attribute's value where it
/// has one, else a new `href` attribute after the others.
pub open spec fn with_href(nv: NodeView, href: Seq<char>) -> NodeView {
    if attr_index(nv.attributes, href_attr()) >= 0 {
        with_attr_value(nv, href_attr(), href)
    } else {
        NodeView { attributes: nv.attributes.push(AttrView { namespace: Seq::empty(), name: href_attr(), value: href }), ..nv }
    }
}

pub proof fn lemma_with_href(nv: NodeView, href: Seq<char>)
    ensures
        attr_value(with_href(nv, href), href_attr()) == Some(href),
        with_href(nv, href).children == nv.children,
        with_href(nv, href).data == nv.data,
{
    crate::dom::lemma_attr_index(nv.attributes, href_attr());
    if attr_index(nv.attributes, href_attr()) >= 0 {
        let i = attr_index(nv.attributes, href_attr());
        crate::dom::lemma_attr_index_update(nv.attributes, i, href, href_attr());
    } else {
        let a = nv.attributes.push(AttrView { namespace: Seq::empty(), name: href_attr(), value: href });
        assert(a.drop_last() =~= nv.attributes);
    }
}

/// Sets the link of every control of type `ty` to `href`, adding the `href`
/// attribute where a control has none, recording every change.
pub fn update_element_href(doc: &mut Document, ledger: &mut ChangeLedger, els: &Vec<PagebreakElement>, ty: PagebreakElementType, href: &String)
    requires
        old(doc).wf(),
        changes_fit(old(doc)@, old(ledger)@),
        controls_ok(els@, old(doc)@.len()),
    ensures
        final(doc).wf(),
        changes_fit(final(doc)@, final(ledger)@),
        keeps_undo(old(doc)@, old(ledger)@, final(doc)@, final(ledger)@),
        final(doc)@.len() == old(doc)@.len(),
        forall|k: int| 0 <= k < els@.len() && (#[trigger] els@[k]).element_type == ty ==>
            final(doc)@[els@[k].element as int] == with_href(old(doc)@[els@[k].element as int], href@),
        forall|m: int| 0 <= m < old(doc)@.len() && !is_control_of(els@, ty, m) ==> #[trigger] final(doc)@[m] == old(doc)@[m],
        forall|m: int| 0 <= m < old(doc)@.len() ==> (#[trigger] final(doc)@[m]).children == old(doc)@[m].children,
{
    let ghost d0 = doc@;
    let ghost l0 = ledger@;
    proof {
        lemma_keeps_undo_refl(d0, l0);
    }
    let name = String::from_str("href");
    let mut i: usize = 0;
    while i < els.len()
        invariant
            doc.wf(),
            changes_fit(doc@, ledger@),
            keeps_undo(d0, l0, doc@, ledger@),
            controls_ok(els@, d0.len()),
            name@ == href_attr(),
            i <= els@.len(),
            doc@.len() == d0.len(),
            forall|k: int| 0 <= k < i && (#[trigger] els@[k]).element_type == ty ==>
                doc@[els@[k].element as int] == with_href(d0[els@[k].element as int], href@),
            forall|m: int| 0 <= m < d0.len() && !(exists|k: int| 0 <= k < i && (#[trigger] els@[k]).element == m && els@[k].element_type == ty)
                ==> #[trigger] doc@[m] == d0[m],
            forall|m: int| 0 <= m < d0.len() ==> (#[trigger] doc@[m]).children == d0[m].children,
        decreases els@.len() - i,
    {
        let ghost da = doc@;
        let ghost la = ledger@;
        let e = els[i].element;
        if els[i].element_type == ty {
            proof {
                assert(!(exists|k: int| 0 <= k < i && (#[trigger] els@[k]).element == e && els@[k].element_type == ty)) by {
                    assert forall|k: int| 0 <= k < i implies (#[trigger] els@[k]).element != e by {
                        assert(els@[k].element < els@[i as int].element);
                    }
                }
                assert(da[e as int] == d0[e as int]);
            }
            match doc.find_attribute(e, &name) {
                Some(a) => {
                    ledger.set_attribute(doc, e, a, href.clone());
                    proof {
                        assert(doc@[e as int].attributes =~= with_href(d0[e as int], href@).attributes);
                    }
                },
                None => {
                    let mut attrs = crate::dom::copy_attributes(doc.attributes(e));
                    attrs.push(Attribute { namespace: String::new(), name: String::from_str("href"), value: href.clone() });
                    proof {
                        reveal_strlit("href");
                        assert(attr_views(attrs@) =~= with_href(d0[e as int], href@).attributes);
                    }
                    ledger.set_attributes(doc, e, attrs);
                },
            }
            proof {
                lemma_undo_all_len(da, la);
                assert(undo_all(doc@, ledger@).subrange(0, da.len() as int) =~= undo_all(doc@, ledger@));
                lemma_keeps_undo_trans(d0, l0, da, la, doc@, ledger@);
                assert(doc@[e as int] == with_href(d0[e as int], href@));
                lemma_with_href(d0[e as int], href@);
                assert forall|k: int| 0 <= k < i + 1 && (#[trigger] els@[k]).element_type == ty implies
                    doc@[els@[k].element as int] == with_href(d0[els@[k].element as int], href@) by {
                    if k < i {
                        let e2 = els@[k].element as int;
                        assert(e2 < e);
                        assert(doc@[e2] == da[e2]);
                    }
                }
                assert forall|m: int| 0 <= m < d0.len() && !(exists|k: int| 0 <= k < i + 1 && (#[trigger] els@[k]).element == m && els@[k].element_type == ty)
                    implies #[trigger] doc@[m] == d0[m] by {
                    if m == e {
                        assert(els@[i as int].element == m);
                    }
                    assert(doc@[m] == da[m]);
                }
                assert forall|m: int| 0 <= m < d0.len() implies (#[trigger] doc@[m]).children == d0[m].children by {
                    if m != e {
                        assert(doc@[m] == da[m]);
                    }
                }
            }
        } else {
            proof {
                assert forall|m: int| 0 <= m < d0.len() && !(exists|k: int| 0 <= k < i + 1 && (#[trigger] els@[k]).element == m && els@[k].element_type == ty)
                    implies #[trigger] doc@[m] == d0[m] by {
                    assert(!(exists|k: int| 0 <= k < i && (#[trigger] els@[k]).element == m && els@[k].element_type == ty));
                }
            }
        }
        i = i + 1;
    }
}

/// The indices of `kids` other than `e`, in order.
fn without(kids: &Vec<usize>, e: usize) -> (r: Vec<usize>)
    ensures
        forall|x: usize| r@.contains(x) <==> kids@.contains(x) && x != e,
        forall|j: int| 0 <= j < r@.len() ==> kids@.contains(#[trigger] r@[j]),
{
    let mut r: Vec<usize> = Vec::new();
    let mut i: usize = 0;
    while i < kids.len()
        invariant
            i <= kids@.len(),
            forall|x: usize| r@.contains(x) <==> kids@.subrange(0, i as int).contains(x) && x != e,
            forall|j: int| 0 <= j < r@.len() ==> kids@.contains(#[trigger] r@[j]),
        decreases kids@.len() - i,
    {
        let ghost r0 = r@;
        let x = kids[i];
        if x != e {
            r.push(x);
        }
        proof {
            assert forall|y: usize| r@.contains(y) <==> kids@.subrange(0, i + 1).contains(y) && y != e by {
                if kids@.subrange(0, i + 1).contains(y) && y != e {
                    let j = choose|j: int| 0 <= j < i + 1 && #[trigger] kids@.subrange(0, i + 1)[j] == y;
                    if j < i {
                        assert(kids@.subrange(0, i as int)[j] == y);
                        assert(r0.contains(y));
                        let q = choose|q: int| 0 <= q < r0.len() && #[trigger] r0[q] == y;
                        assert(r@[q] == y);
                    } else {
                        assert(r@[r@.len() - 1] == y);
                    }
                }
                if r@.contains(y) {
                    let q = choose|q: int| 0 <= q < r@.len() && #[trigger] r@[q] == y;
                    if q < r0.len() {
                        assert(r0[q] == y);
                        assert(r0.contains(y));
                        let j = choose|j: int| 0 <= j < i && #[trigger] kids@.subrange(0, i as int)[j] == y;
                        assert(kids@.subrange(0, i + 1)[j] == y);
                    } else {
                        assert(kids@.subrange(0, i + 1)[i as int] == y);
                    }
                }
            }
            assert forall|j: int| 0 <= j < r@.len() implies kids@.contains(#[trigger] r@[j]) by {
                if j < r0.len() {
                    assert(r@[j] == r0[j]);
                } else {
                    assert(kids@[i as int] == r@[j]);
                }
            }
        }
        i = i + 1;
    }
    assert(kids@.subrange(0, kids@.len() as int) =~= kids@);
    r
}

/// Takes every control of type `ty` out of the children of the node that held
/// it when it was found, recording every change.
pub fn detach_element(doc: &mut Document, ledger: &mut ChangeLedger, els: &Vec<PagebreakElement>, ty: PagebreakElementType)
    requires
        old(doc).wf(),
        changes_fit(old(doc)@, old(ledger)@),
        controls_ok(els@, old(doc)@.len()),
    ensures
        final(doc).wf(),
        changes_fit(final(doc)@, final(ledger)@),
        keeps_undo(old(doc)@, old(ledger)@, final(doc)@, final(ledger)@),
        final(doc)@.len() == old(doc)@.len(),
        forall|k: int| 0 <= k < els@.len() && (#[trigger] els@[k]).element_type == ty ==>
            (els@[k].parent matches Some(p) ==> !final(doc)@[p as int].children.contains(els@[k].element)),
        forall|m: int| 0 <= m < old(doc)@.len() ==> (#[trigger] final(doc)@[m]).data == old(doc)@[m].data
            && final(doc)@[m].attributes == old(doc)@[m].attributes
            && forall|x: usize| final(doc)@[m].children.contains(x) ==> old(doc)@[m].children.contains(x),
        forall|m: int| 0 <= m < old(doc)@.len() && !(exists|k: int| 0 <= k < els@.len() && (#[trigger] els@[k]).element_type == ty
            && els@[k].parent == Some(m as usize)) ==> #[trigger] final(doc)@[m] == old(doc)@[m],
{
    let ghost d0 = doc@;
    let ghost l0 = ledger@;
    proof {
        lemma_keeps_undo_refl(d0, l0);
    }
    let mut i: usize = 0;
    while i < els.len()
        invariant
            doc.wf(),
            changes_fit(doc@, ledger@),
            keeps_undo(d0, l0, doc@, ledger@),
            controls_ok(els@, d0.len()),
            i <= els@.len(),
            doc@.len() == d0.len(),
            forall|k: int| 0 <= k < i && (#[trigger] els@[k]).element_type == ty ==>
                (els@[k].parent matches Some(p) ==> !doc@[p as int].children.contains(els@[k].element)),
            forall|m: int| 0 <= m < d0.len() ==> (#[trigger] doc@[m]).data == d0[m].data
                && doc@[m].attributes == d0[m].attributes
                && forall|x: usize| doc@[m].children.contains(x) ==> d0[m].children.contains(x),
            forall|m: int| 0 <= m < d0.len() && !(exists|k: int| 0 <= k < i && (#[trigger] els@[k]).element_type == ty
                && els@[k].parent == Some(m as usize)) ==> #[trigger] doc@[m] == d0[m],
        decreases els@.len() - i,
    {
        let ghost da = doc@;
        let ghost la = ledger@;
        let e = els[i].element;
        if els[i].element_type == ty {
            if let Some(p) = els[i].parent {
                let kids = without(doc.children(p), e);
                proof {
                    assert forall|j: int| 0 <= j < kids@.len() implies p < #[trigger] kids@[j] < da.len() by {
                        let q = choose|q: int| 0 <= q < da[p as int].children.len() && #[trigger] da[p as int].children[q] == kids@[j];
                    }
                }
                ledger.set_children(doc, p, kids);
                proof {
                    lemma_undo_all_len(da, la);
                    assert(undo_all(doc@, ledger@).subrange(0, da.len() as int) =~= undo_all(doc@, ledger@));
                    lemma_keeps_undo_trans(d0, l0, da, la, doc@, ledger@);
                    assert forall|k: int| 0 <= k < i + 1 && (#[trigger] els@[k]).element_type == ty implies
                        (els@[k].parent matches Some(p2) ==> !doc@[p2 as int].children.contains(els@[k].element)) by {
                        if k < i {
                            if let Some(p2) = els@[k].parent {
                                if p2 == p {
                                    assert(!da[p as int].children.contains(els@[k].element));
                                } else {
                                    assert(doc@[p2 as int] == da[p2 as int]);
                                }
                            }
                        }
                    }
                    assert forall|m: int| 0 <= m < d0.len() implies (#[trigger] doc@[m]).data == d0[m].data
                        && doc@[m].attributes == d0[m].attributes
                        && forall|x: usize| doc@[m].children.contains(x) ==> d0[m].children.contains(x) by {
                        if m != p {
                            assert(doc@[m] == da[m]);
                        }
                    }
                    assert forall|m: int| 0 <= m < d0.len() && !(exists|k: int| 0 <= k < i + 1 && (#[trigger] els@[k]).element_type == ty
                        && els@[k].parent == Some(m as usize)) implies #[trigger] doc@[m] == d0[m] by {
                        if m == p {
                            assert(els@[i as int].parent == Some(m as usize));
                        }
                        assert(doc@[m] == da[m]);
                    }
                }
            } else {
                proof {
                    assert forall|m: int| 0 <= m < d0.len() && !(exists|k: int| 0 <= k < i + 1 && (#[trigger] els@[k]).element_type == ty
                        && els@[k].parent == Some(m as usize)) implies #[trigger] doc@[m] == d0[m] by {
                        assert(!(exists|k: int| 0 <= k < i && (#[trigger] els@[k]).element_type == ty && els@[k].parent == Some(m as usize)));
                    }
                }
            }
        } else {
            proof {
                assert forall|m: int| 0 <= m < d0.len() && !(exists|k: int| 0 <= k < i + 1 && (#[trigger] els@[k]).element_type == ty
                    && els@[k].parent == Some(m as usize)) implies #[trigger] doc@[m] == d0[m] by {
                    assert(!(exists|k: int| 0 <= k < i && (#[trigger] els@[k]).element_type == ty && els@[k].parent == Some(m as usize)));
                }
            }
        }
        i = i + 1;
    }
}

} // verus!
