//! The pagination state: hydration of one document, and the per-page
//! render-and-revert cycle.

use vstd::prelude::*;
use crate::dom::{Document, NodeView, NodeData, is_element, attr_index, attr_value, text_content, is_text, nodes_wf};
use crate::ledger::{ChangeLedger, undo_all, changes_fit};
use crate::errors::{PageError, PageErrorCode};
use crate::paths::{valid_file_path, resolve_output_path, relative_link, page_escapes, page_dir, relative_parts, link_text, page_parts, render};
use crate::page::{attr_step, lemma_attr_step_local, populated, resolve_format_spec, is_control_of, keeps_undo, lemma_keeps_undo_trans, lemma_keeps_undo_refl, lemma_undo_all_len, populate, page_layout, update_tag_content, update_tag_attribute, update_element_text, update_element_href, detach_element, controls_ok, href_attr, is_title};
use crate::dom::text_node;
use crate::text::{parse_usize, parse_unsigned, decimal_string, decimal};

verus! {

/// One item of the container, by node index.
pub struct PagebreakNode {
    pub element: usize,
}

impl PagebreakNode {
    pub fn new(element: usize) -> (r: PagebreakNode)
        ensures
            r.element == element,
    {
        PagebreakNode { element }
    }
}

/// What a control or label element does on each page.
#[derive(Debug, PartialEq, Eq, Structural, Clone, Copy)]
pub enum PagebreakElementType {
    Next,
    Previous,
    NoNext,
    NoPrevious,
    Current,
    Total,
    Inert,
}

/// A control or label element, with where it stood when it was found.
pub struct PagebreakElement {
    pub element: usize,
    pub parent: Option<usize>,
    pub previous_sibling: Option<usize>,
    pub element_type: PagebreakElementType,
}

impl PagebreakElement {
    pub fn new(
        element: usize,
        element_type: PagebreakElementType,
        parent: Option<usize>,
        previous_sibling: Option<usize>,
    ) -> (r: PagebreakElement)
        ensures
            r.element == element,
            r.element_type == element_type,
            r.parent == parent,
            r.previous_sibling == previous_sibling,
    {
        PagebreakElement { element, parent, previous_sibling, element_type }
    }
}

pub open spec fn container_attr() -> Seq<char> {
    "data-pagebreak"@
}

pub open spec fn url_attr() -> Seq<char> {
    "data-pagebreak-url"@
}

pub open spec fn meta_attr() -> Seq<char> {
    "data-pagebreak-meta"@
}

pub open spec fn control_attr() -> Seq<char> {
    "data-pagebreak-control"@
}

pub open spec fn label_attr() -> Seq<char> {
    "data-pagebreak-label"@
}

pub open spec fn default_url_format() -> Seq<char> {
    "./page/:num/"@
}

pub open spec fn default_meta_format() -> Seq<char> {
    ":content | Page :num"@
}

pub open spec fn default_per_page() -> Seq<char> {
    "2"@
}

/// An element that carries the null-namespace attribute `name`.
pub open spec fn has_attr(nv: NodeView, name: Seq<char>) -> bool {
    is_element(nv) && attr_index(nv.attributes, name) >= 0
}

/// The type that a control (`is_control`) or label attribute value gives.
pub open spec fn classify(is_control: bool, value: Seq<char>) -> PagebreakElementType {
    if is_control {
        if value == "next"@ {
            PagebreakElementType::Next
        } else if value == "prev"@ {
            PagebreakElementType::Previous
        } else if value == "!next"@ {
            PagebreakElementType::NoNext
        } else if value == "!prev"@ {
            PagebreakElementType::NoPrevious
        } else {
            PagebreakElementType::Inert
        }
    } else if value == "current"@ {
        PagebreakElementType::Current
    } else if value == "total"@ {
        PagebreakElementType::Total
    } else {
        PagebreakElementType::Inert
    }
}

/// The number of pages that `n` items fill, `d` to a page.
pub open spec fn ceil_div(n: nat, d: nat) -> nat {
    if n % d == 0 { n / d } else { n / d + 1 }
}

/// The number of pages that `item_count` items fill, `per_page` to a page.
pub fn ceil_division(item_count: usize, per_page: usize) -> (r: usize)
    requires
        per_page > 0,
    ensures
        r == ceil_div(item_count as nat, per_page as nat),
{
    let q = item_count / per_page;
    if item_count % per_page == 0 {
        q
    } else {
        assert(q < item_count) by (nonlinear_arith)
            requires q == item_count / per_page, per_page > 0, item_count % per_page != 0;
        q + 1
    }
}

/// The element children among `kids`, in order.
pub open spec fn elements_among(nodes: Seq<NodeView>, kids: Seq<usize>) -> Seq<usize>
    decreases kids.len(),
{
    if kids.len() == 0 {
        Seq::empty()
    } else {
        elements_among(nodes, kids.drop_last()) + (if kids.last() < nodes.len() && is_element(nodes[kids.last() as int]) {
            seq![kids.last()]
        } else {
            Seq::empty()
        })
    }
}

pub open spec fn item_indices(items: Seq<PagebreakNode>) -> Seq<usize> {
    items.map_values(|i: PagebreakNode| i.element)
}


/// The pagination of one document: its configuration, items and controls, and
/// the changes of the page being rendered.
pub struct PagebreakState {
    document: Document,
    file_path: String,
    output_path: String,
    page_container: Option<usize>,
    page_items: Vec<PagebreakNode>,
    page_count: Option<usize>,
    per_page: Option<usize>,
    page_url_format: String,
    page_meta_format: String,
    dom_indentation: String,
    pagebreak_elements: Vec<PagebreakElement>,
    changes: ChangeLedger,
    base_len: usize,
    pristine: Ghost<Seq<NodeView>>,
}

pub open spec fn element_indices(els: Seq<PagebreakElement>) -> Seq<usize> {
    els.map_values(|e: PagebreakElement| e.element)
}

impl PagebreakState {
    /// The document as it was after hydration, which every page starts from.
    pub closed spec fn pristine(&self) -> Seq<NodeView> {
        self.pristine@
    }

    pub closed spec fn document_view(&self) -> Seq<NodeView> {
        self.document@
    }

    pub closed spec fn container(&self) -> Option<usize> {
        self.page_container
    }

    pub closed spec fn items(&self) -> Seq<usize> {
        item_indices(self.page_items@)
    }

    pub closed spec fn controls(&self) -> Seq<PagebreakElement> {
        self.pagebreak_elements@
    }

    pub closed spec fn per_page_spec(&self) -> Option<usize> {
        self.per_page
    }

    pub closed spec fn page_count_spec(&self) -> Option<usize> {
        self.page_count
    }

    pub closed spec fn file(&self) -> Seq<char> {
        self.file_path@
    }

    pub closed spec fn output(&self) -> Seq<char> {
        self.output_path@
    }

    pub closed spec fn url_format(&self) -> Seq<char> {
        self.page_url_format@
    }

    pub closed spec fn meta_format(&self) -> Seq<char> {
        self.page_meta_format@
    }

    pub closed spec fn indentation_node_text(&self) -> String {
        self.dom_indentation
    }

    pub closed spec fn indentation(&self) -> Seq<char> {
        self.dom_indentation@
    }

    /// The state's invariant: the document is well formed, putting back the
    /// recorded changes gives the hydrated document, and every index held
    /// points into that document.
    pub closed spec fn wf(&self) -> bool {
        &&& self.document.wf()
        &&& nodes_wf(self.pristine@)
        &&& self.base_len == self.pristine@.len()
        &&& self.base_len <= self.document@.len()
        &&& changes_fit(self.document@, self.changes@)
        &&& undo_all(self.document@, self.changes@).len() == self.document@.len()
        &&& undo_all(self.document@, self.changes@).subrange(0, self.base_len as int) == self.pristine@
        &&& forall|k: int| 0 <= k < self.pagebreak_elements@.len() ==> {
            let e = #[trigger] self.pagebreak_elements@[k];
            &&& e.element < self.base_len
            &&& (e.parent matches Some(p) ==> p < self.base_len)
        }
        &&& forall|k: int, l: int| 0 <= k < l < self.pagebreak_elements@.len()
            ==> (#[trigger] self.pagebreak_elements@[k]).element < (#[trigger] self.pagebreak_elements@[l]).element
        &&& (self.page_container matches Some(c) ==> {
            &&& c < self.base_len
            &&& self.per_page is Some
            &&& self.per_page->0 > 0
            &&& self.page_count == Some(ceil_div(self.page_items@.len() as nat, self.per_page->0 as nat) as usize)
            &&& forall|k: int| 0 <= k < self.page_items@.len() ==> c < (#[trigger] self.page_items@[k]).element < self.base_len
        })
    }

    /// Whether no change is pending: the document is the hydrated one.
    pub closed spec fn settled(&self) -> bool {
        self.changes@.len() == 0 && self.document@ == self.pristine@
    }

    /// A state for `document`, found at `file_path` and written under
    /// `output_path`, before hydration.
    pub fn new(document: Document, file_path: String, output_path: String) -> (r: PagebreakState)
        requires
            document.wf(),
        ensures
            r.wf(),
            r.settled(),
            r.document_view() == document@,
            r.pristine() == document@,
            r.container() is None,
            r.file() == file_path@,
            r.output() == output_path@,
            r.url_format() == default_url_format(),
            r.meta_format() == default_meta_format(),
            r.indentation() == seq!['\n'],
    {
        let base_len = document.len();
        let ghost pristine = document@;
        let changes = ChangeLedger::new();
        let r = PagebreakState {
            document,
            file_path,
            output_path,
            page_container: None,
            page_items: Vec::new(),
            page_count: None,
            per_page: None,
            page_url_format: String::from_str("./page/:num/"),
            page_meta_format: String::from_str(":content | Page :num"),
            dom_indentation: String::from_str("\n"),
            pagebreak_elements: Vec::new(),
            changes,
            base_len,
            pristine: Ghost(pristine),
        };
        proof {
            reveal_strlit("\n");
            assert(r.document@.subrange(0, base_len as int) =~= pristine);
        }
        r
    }

    /// Sets the path of the source file, relative to the source directory.
    pub fn set_file_path(&mut self, file_path: String)
        requires
            old(self).wf(),
        ensures
            final(self).wf(),
            final(self).file() == file_path@,
            final(self).url_format() == old(self).url_format(),
            final(self).meta_format() == old(self).meta_format(),
    {
        self.file_path = file_path;
    }

    /// Sets the URL format of the pages after the first.
    pub fn set_url_format(&mut self, format: String)
        requires
            old(self).wf(),
        ensures
            final(self).wf(),
            final(self).url_format() == format@,
            final(self).file() == old(self).file(),
            final(self).meta_format() == old(self).meta_format(),
    {
        self.page_url_format = format;
    }

    /// The path of the source file, relative to the source directory.
    pub fn file_path(&self) -> (r: &String)
        ensures
            r@ == self.file(),
    {
        &self.file_path
    }

    /// The directory that pages are written under.
    pub fn output_path(&self) -> (r: &String)
        ensures
            r@ == self.output(),
    {
        &self.output_path
    }

    /// The document as it stands.
    pub fn document(&self) -> (r: &Document)
        ensures
            r@ == self.document_view(),
    {
        &self.document
    }

    /// The number of pages, once hydrated.
    pub fn page_count(&self) -> (r: Option<usize>)
        ensures
            r == self.page_count_spec(),
    {
        self.page_count
    }

    /// The number of items per page, once hydrated.
    pub fn per_page(&self) -> (r: Option<usize>)
        ensures
            r == self.per_page_spec(),
    {
        self.per_page
    }

    /// The number of items found in the container.
    pub fn item_count(&self) -> (r: usize)
        ensures
            r == self.items().len(),
    {
        self.page_items.len()
    }

    /// The number of control and label elements found.
    pub fn control_count(&self) -> (r: usize)
        ensures
            r == self.controls().len(),
    {
        self.pagebreak_elements.len()
    }

    /// The index of the container, once found.
    pub fn container_node(&self) -> (r: Option<usize>)
        ensures
            r == self.container(),
    {
        self.page_container
    }

    /// Finds the container: the first element, in document order, that carries
    /// the pagination-count attribute.
    fn find_pagebreak_node(&self) -> (r: Option<usize>)
        ensures
            r matches Some(c) ==> c < self.document@.len()
                && has_attr(self.document@[c as int], container_attr())
                && forall|m: int| 0 <= m < c ==> !has_attr(#[trigger] self.document@[m], container_attr()),
            r is None ==> forall|m: int| 0 <= m < self.document@.len()
                ==> !has_attr(#[trigger] self.document@[m], container_attr()),
    {
        let name = String::from_str("data-pagebreak");
        let n = self.document.len();
        let mut i: usize = 0;
        while i < n
            invariant
                n == self.document@.len(),
                name@ == container_attr(),
                i <= n,
                forall|m: int| 0 <= m < i ==> !has_attr(#[trigger] self.document@[m], container_attr()),
            decreases n - i,
        {
            if self.document.is_element(i) {
                if let Some(_) = self.document.find_attribute(i, &name) {
                    return Some(i);
                }
            }
            i = i + 1;
        }
        None
    }
}


/// Removes the null-namespace attribute `name` of node `n`, if it has one, and
/// returns its value.
fn take_attribute(doc: &mut Document, n: usize, name: &String) -> (r: Option<String>)
    requires
        old(doc).wf(),
        n < old(doc)@.len(),
    ensures
        final(doc).wf(),
        r matches Some(v) ==> attr_value(old(doc)@[n as int], name@) == Some(v@)
            && final(doc)@ == old(doc)@.update(n as int, NodeView {
                attributes: old(doc)@[n as int].attributes.remove(attr_index(old(doc)@[n as int].attributes, name@)),
                ..old(doc)@[n as int]
            }),
        r is None ==> attr_value(old(doc)@[n as int], name@) is None && final(doc)@ == old(doc)@,
{
    match doc.find_attribute(n, name) {
        Some(i) => {
            let v = doc.attribute_value(n, i).clone();
            doc.remove_attribute(n, i);
            Some(v)
        },
        None => None,
    }
}

/// The per-page count that the container's attribute value gives (`2` where
/// it has none): a positive `usize`, or `None` for a configuration error.
pub open spec fn per_page_of(value: Option<Seq<char>>) -> Option<nat> {
    let text = match value {
        Some(v) => v,
        None => default_per_page(),
    };
    match parse_unsigned(text) {
        Some(k) => if k > 0 { Some(k) } else { None },
        None => None,
    }
}

/// Reads the per-page count from its attribute text, as `per_page_of` states.
fn parse_per_page(file: &String, value: Option<String>) -> (r: Result<usize, PageError>)
    ensures
        r matches Ok(k) ==> per_page_of(match value { Some(v) => Some(v@), None => None }) == Some(k as nat),
        r is Err ==> per_page_of(match value { Some(v) => Some(v@), None => None }) is None,
        r matches Err(e) ==> e.code == PageErrorCode::InvalidPerPage && e.relative_path@ == file@,
{
    let text = match value {
        Some(v) => v,
        None => String::from_str("2"),
    };
    match parse_usize(text.as_str()) {
        Some(k) => {
            if k > 0 {
                return Ok(k);
            }
        },
        None => {},
    }
    let mut message = String::from_str("Invalid number of items per page: ");
    message.append(text.as_str());
    Err(PageError { relative_path: file.clone(), message, code: PageErrorCode::InvalidPerPage })
}

/// The items of the container, and the indentation that its first child holds
/// where that child is text.
fn find_pagination_children(doc: &Document, c: usize) -> (r: (Vec<PagebreakNode>, Option<String>))
    requires
        doc.wf(),
        c < doc@.len(),
    ensures
        item_indices(r.0@) == elements_among(doc@, doc@[c as int].children),
        forall|k: int| 0 <= k < r.0@.len() ==> c < (#[trigger] r.0@[k]).element < doc@.len(),
        r.1 matches Some(t) ==> doc@[c as int].children.len() > 0 && is_text(doc@[doc@[c as int].children[0] as int], t@),
        r.1 is None ==> !(doc@[c as int].children.len() > 0 && doc@[doc@[c as int].children[0] as int].data is Text),
{
    let kids = doc.children(c);
    let ghost ks = kids@;
    let mut items: Vec<PagebreakNode> = Vec::new();
    let mut indentation: Option<String> = None;
    if kids.len() > 0 {
        match doc.data(kids[0]) {
            NodeData::Text(t) => {
                indentation = Some(t.clone());
            },
            _ => {},
        }
    }
    let mut j: usize = 0;
    assert(ks.subrange(0, 0) =~= Seq::<usize>::empty());
    assert(item_indices(items@) =~= Seq::<usize>::empty());
    while j < kids.len()
        invariant
            doc.wf(),
            c < doc@.len(),
            ks == kids@,
            ks == doc@[c as int].children,
            j <= ks.len(),
            item_indices(items@) == elements_among(doc@, ks.subrange(0, j as int)),
            forall|k: int| 0 <= k < items@.len() ==> c < (#[trigger] items@[k]).element < doc@.len(),
        decreases ks.len() - j,
    {
        let e = kids[j];
        assert(c < e < doc@.len());
        assert(ks.subrange(0, j + 1).drop_last() =~= ks.subrange(0, j as int));
        let ghost before = items@;
        if doc.is_element(e) {
            items.push(PagebreakNode::new(e));
            assert(item_indices(items@) =~= item_indices(before).push(e));
        } else {
            assert(item_indices(items@) =~= item_indices(before) + Seq::<usize>::empty());
        }
        j = j + 1;
    }
    assert(ks.subrange(0, ks.len() as int) =~= ks);
    (items, indentation)
}


/// The type of control or label that an element is, if it is one; a control
/// attribute takes precedence over a label attribute.
pub open spec fn control_kind(nv: NodeView) -> Option<PagebreakElementType> {
    if has_attr(nv, control_attr()) {
        Some(classify(true, attr_value(nv, control_attr())->0))
    } else if has_attr(nv, label_attr()) {
        Some(classify(false, attr_value(nv, label_attr())->0))
    } else {
        None
    }
}

/// The controls and labels among the first `i` nodes, in document order.
pub open spec fn controls_upto(nodes: Seq<NodeView>, i: int) -> Seq<usize>
    decreases i,
{
    if i <= 0 {
        Seq::empty()
    } else {
        controls_upto(nodes, i - 1) + (if control_kind(nodes[i - 1]) is Some { seq![(i - 1) as usize] } else { Seq::empty() })
    }
}

/// For each node, one node that holds it as a child, if any does.
fn parent_table(doc: &Document) -> (r: Vec<Option<usize>>)
    requires
        doc.wf(),
    ensures
        r@.len() == doc@.len(),
        forall|c: int| 0 <= c < r@.len() ==> (#[trigger] r@[c] matches Some(p) ==> p < c && doc@[p as int].children.contains(c as usize)),
{
    let n = doc.len();
    let mut r: Vec<Option<usize>> = Vec::new();
    let mut i: usize = 0;
    while i < n
        invariant
            n == doc@.len(),
            i <= n,
            r@.len() == i,
            forall|c: int| 0 <= c < i ==> r@[c] is None,
        decreases n - i,
    {
        r.push(None);
        i = i + 1;
    }
    let mut p: usize = 0;
    while p < n
        invariant
            doc.wf(),
            n == doc@.len(),
            p <= n,
            r@.len() == n,
            forall|c: int| 0 <= c < r@.len() ==> (#[trigger] r@[c] matches Some(q) ==> q < c && doc@[q as int].children.contains(c as usize)),
        decreases n - p,
    {
        let kids = doc.children(p);
        let mut j: usize = 0;
        while j < kids.len()
            invariant
                doc.wf(),
                n == doc@.len(),
                p < n,
                kids@ == doc@[p as int].children,
                j <= kids@.len(),
                r@.len() == n,
                forall|c: int| 0 <= c < r@.len() ==> (#[trigger] r@[c] matches Some(q) ==> q < c && doc@[q as int].children.contains(c as usize)),
            decreases kids@.len() - j,
        {
            let c = kids[j];
            assert(p < c < n);
            let ghost before = r@;
            r.set(c, Some(p));
            assert(doc@[p as int].children[j as int] == c);
            assert forall|d: int| 0 <= d < r@.len() implies (#[trigger] r@[d] matches Some(q) ==> q < d && doc@[q as int].children.contains(d as usize)) by {
                if d != c {
                    assert(r@[d] == before[d]);
                }
            }
            j = j + 1;
        }
        p = p + 1;
    }
    r
}

/// The child just before the first `e` among `kids`, `prev` standing for the
/// child before `kids`; none where `e` is not among them.
pub open spec fn child_before(kids: Seq<usize>, e: usize, prev: Option<usize>) -> Option<usize>
    decreases kids.len(),
{
    if kids.len() == 0 {
        None
    } else if kids[0] == e {
        prev
    } else {
        child_before(kids.drop_first(), e, Some(kids[0]))
    }
}

/// The child before `e` among `kids`, as `child_before` states.
fn sibling_before(kids: &Vec<usize>, e: usize) -> (r: Option<usize>)
    ensures
        r == child_before(kids@, e, None),
{
    let mut j: usize = 0;
    assert(kids@.subrange(0, kids@.len() as int) =~= kids@);
    while j < kids.len()
        invariant
            j <= kids@.len(),
            child_before(kids@, e, None) == child_before(kids@.subrange(j as int, kids@.len() as int), e,
                if j == 0 { None } else { Some(kids@[j - 1]) }),
        decreases kids@.len() - j,
    {
        let ghost rest = kids@.subrange(j as int, kids@.len() as int);
        assert(rest.drop_first() =~= kids@.subrange(j + 1, kids@.len() as int));
        assert(rest[0] == kids@[j as int]);
        if kids[j] == e {
            if j > 0 {
                return Some(kids[j - 1]);
            }
            return None;
        }
        j = j + 1;
    }
    None
}

/// An attribute list without the first null-namespace attribute named `name`.
pub open spec fn strip_attr(attrs: Seq<crate::dom::AttrView>, name: Seq<char>) -> Seq<crate::dom::AttrView> {
    if attr_index(attrs, name) >= 0 { attrs.remove(attr_index(attrs, name)) } else { attrs }
}

/// The attribute that classifies a control: the control attribute where it
/// has one, else the label attribute.
pub open spec fn classification_attr(nv: NodeView) -> Seq<char> {
    if has_attr(nv, control_attr()) { control_attr() } else { label_attr() }
}

/// A node as hydration leaves it when it is a control or label: without its
/// classification attribute.
pub open spec fn stripped_control(nv: NodeView) -> NodeView {
    if control_kind(nv) is Some {
        NodeView { attributes: strip_attr(nv.attributes, classification_attr(nv)), ..nv }
    } else {
        nv
    }
}

/// The container as hydration leaves it: without its meta format, URL
/// format and count attributes.
pub open spec fn stripped_container(nv: NodeView) -> NodeView {
    NodeView { attributes: strip_attr(strip_attr(strip_attr(nv.attributes, meta_attr()), url_attr()), container_attr()), ..nv }
}

/// The type that an attribute value gives, as `classify` states.
fn classify_value(is_control: bool, value: &String) -> (r: PagebreakElementType)
    ensures
        r == classify(is_control, value@),
{
    if is_control {
        if *value == String::from_str("next") {
            PagebreakElementType::Next
        } else if *value == String::from_str("prev") {
            PagebreakElementType::Previous
        } else if *value == String::from_str("!next") {
            PagebreakElementType::NoNext
        } else if *value == String::from_str("!prev") {
            PagebreakElementType::NoPrevious
        } else {
            PagebreakElementType::Inert
        }
    } else if *value == String::from_str("current") {
        PagebreakElementType::Current
    } else if *value == String::from_str("total") {
        PagebreakElementType::Total
    } else {
        PagebreakElementType::Inert
    }
}

/// Finds every control and label element, in document order, classifies it,
/// strips its classification attribute, and records where it stands.
fn find_pagebreak_elements(doc: &mut Document) -> (r: Vec<PagebreakElement>)
    requires
        old(doc).wf(),
    ensures
        final(doc).wf(),
        final(doc)@.len() == old(doc)@.len(),
        forall|m: int| 0 <= m < old(doc)@.len() ==> (#[trigger] final(doc)@[m]).children == old(doc)@[m].children
            && final(doc)@[m].data == old(doc)@[m].data,
        forall|m: int| 0 <= m < old(doc)@.len() && control_kind(old(doc)@[m]) is None ==> #[trigger] final(doc)@[m] == old(doc)@[m],
        forall|m: int| 0 <= m < old(doc)@.len() ==> #[trigger] final(doc)@[m] == stripped_control(old(doc)@[m]),
        element_indices(r@) == controls_upto(old(doc)@, old(doc)@.len() as int),
        forall|k: int| 0 <= k < r@.len() ==> {
            let e = #[trigger] r@[k];
            &&& e.element < old(doc)@.len()
            &&& control_kind(old(doc)@[e.element as int]) == Some(e.element_type)
            &&& (e.parent matches Some(p) ==> p < e.element && old(doc)@[p as int].children.contains(e.element))
            &&& e.previous_sibling == match e.parent {
                Some(p) => child_before(old(doc)@[p as int].children, e.element, None),
                None => None,
            }
        },
        forall|k: int, l: int| 0 <= k < l < r@.len() ==> (#[trigger] r@[k]).element < (#[trigger] r@[l]).element,
{
    let ghost d0 = doc@;
    let parents = parent_table(doc);
    let control = String::from_str("data-pagebreak-control");
    let label = String::from_str("data-pagebreak-label");
    let n = doc.len();
    let mut r: Vec<PagebreakElement> = Vec::new();
    let mut i: usize = 0;
    assert(element_indices(r@) =~= Seq::<usize>::empty());
    while i < n
        invariant
            doc.wf(),
            n == doc@.len(),
            n == d0.len(),
            control@ == control_attr(),
            label@ == label_attr(),
            parents@.len() == n,
            forall|c: int| 0 <= c < n ==> (#[trigger] parents@[c] matches Some(q) ==> q < c && d0[q as int].children.contains(c as usize)),
            i <= n,
            forall|m: int| 0 <= m < n ==> (#[trigger] doc@[m]).children == d0[m].children && doc@[m].data == d0[m].data,
            forall|m: int| i <= m < n ==> #[trigger] doc@[m] == d0[m],
            forall|m: int| 0 <= m < i && control_kind(d0[m]) is None ==> #[trigger] doc@[m] == d0[m],
            forall|m: int| 0 <= m < i ==> #[trigger] doc@[m] == stripped_control(d0[m]),
            element_indices(r@) == controls_upto(d0, i as int),
            forall|k: int| 0 <= k < r@.len() ==> {
                let e = #[trigger] r@[k];
                &&& e.element < i
                &&& control_kind(d0[e.element as int]) == Some(e.element_type)
                &&& (e.parent matches Some(p) ==> p < e.element && d0[p as int].children.contains(e.element))
                &&& e.previous_sibling == match e.parent {
                    Some(p) => child_before(d0[p as int].children, e.element, None),
                    None => None,
                }
            },
            forall|k: int, l: int| 0 <= k < l < r@.len() ==> (#[trigger] r@[k]).element < (#[trigger] r@[l]).element,
        decreases n - i,
    {
        let ghost before = doc@;
        let ghost r0 = r@;
        assert(doc@[i as int] == d0[i as int]);
        let mut found: Option<(bool, usize)> = None;
        if doc.is_element(i) {
            match doc.find_attribute(i, &control) {
                Some(a) => {
                    found = Some((true, a));
                },
                None => {
                    match doc.find_attribute(i, &label) {
                        Some(a) => {
                            found = Some((false, a));
                        },
                        None => {},
                    }
                },
            }
        }
        match found {
            Some((is_control, a)) => {
                let value = doc.attribute_value(i, a).clone();
                let element_type = classify_value(is_control, &value);
                assert(control_kind(d0[i as int]) == Some(element_type));
                doc.remove_attribute(i, a);
                let parent = parents[i];
                let previous_sibling = match parent {
                    Some(p) => sibling_before(doc.children(p), i),
                    None => None,
                };
                r.push(PagebreakElement::new(i, element_type, parent, previous_sibling));
                assert(element_indices(r@) =~= element_indices(r0).push(i));
                proof {
                    assert forall|m: int| 0 <= m < n implies (#[trigger] doc@[m]).children == d0[m].children && doc@[m].data == d0[m].data by {
                        if m != i {
                            assert(doc@[m] == before[m]);
                        }
                    }
                    assert(doc@[i as int].attributes =~= stripped_control(d0[i as int]).attributes) by {
                        crate::dom::lemma_attr_index(d0[i as int].attributes, control_attr());
                    }
                    assert(doc@[i as int] == stripped_control(d0[i as int]));
                    assert forall|m: int| 0 <= m < i + 1 implies #[trigger] doc@[m] == stripped_control(d0[m]) by {
                        if m < i {
                            assert(doc@[m] == before[m]);
                        }
                    }
                    assert forall|k: int| 0 <= k < r@.len() implies {
                        let e = #[trigger] r@[k];
                        &&& e.element < i + 1
                        &&& control_kind(d0[e.element as int]) == Some(e.element_type)
                        &&& (e.parent matches Some(p) ==> p < e.element && d0[p as int].children.contains(e.element))
                        &&& e.previous_sibling == match e.parent {
                            Some(p) => child_before(d0[p as int].children, e.element, None),
                            None => None,
                        }
                    } by {
                        if k < r0.len() {
                            assert(r@[k] == r0[k]);
                        }
                    }
                    assert forall|k: int, l: int| 0 <= k < l < r@.len() implies (#[trigger] r@[k]).element < (#[trigger] r@[l]).element by {
                        if l < r0.len() {
                            assert(r@[k] == r0[k] && r@[l] == r0[l]);
                        } else {
                            assert(r@[k] == r0[k]);
                        }
                    }
                }
            },
            None => {
                assert(control_kind(d0[i as int]) is None);
                assert(element_indices(r@) =~= controls_upto(d0, i + 1));
                assert(doc@[i as int] == stripped_control(d0[i as int]));
            },
        }
        i = i + 1;
    }
    r
}


/// Whether `c` is the container of `nodes`: the first element with the
/// pagination-count attribute.
pub open spec fn is_container(nodes: Seq<NodeView>, c: int) -> bool {
    0 <= c < nodes.len() && has_attr(nodes[c], container_attr())
        && forall|m: int| 0 <= m < c ==> !has_attr(#[trigger] nodes[m], container_attr())
}

pub open spec fn opt_view(o: Option<Seq<char>>, default: Seq<char>) -> Seq<char> {
    match o {
        Some(v) => v,
        None => default,
    }
}

proof fn lemma_controls_upto_ext(a: Seq<NodeView>, b: Seq<NodeView>, i: int)
    requires
        0 <= i <= a.len(),
        a.len() == b.len(),
        forall|m: int| 0 <= m < a.len() ==> control_kind(#[trigger] a[m]) == control_kind(b[m]),
    ensures
        controls_upto(a, i) == controls_upto(b, i),
    decreases i,
{
    if i > 0 {
        lemma_controls_upto_ext(a, b, i - 1);
        assert(control_kind(a[i - 1]) == control_kind(b[i - 1]));
    }
}

/// Stripping an attribute of name `name` from a node keeps what the node says
/// of every other attribute name.
proof fn lemma_strip_keeps(nv: NodeView, name: Seq<char>, other: Seq<char>)
    requires
        attr_index(nv.attributes, name) >= 0,
        name != other,
    ensures ({
        let stripped = NodeView { attributes: nv.attributes.remove(attr_index(nv.attributes, name)), ..nv };
        &&& has_attr(stripped, other) == has_attr(nv, other)
        &&& attr_value(stripped, other) == attr_value(nv, other)
    }),
{
    crate::dom::lemma_attr_index(nv.attributes, name);
    crate::dom::lemma_attr_index_remove(nv.attributes, attr_index(nv.attributes, name), other);
}

proof fn lemma_attr_names_differ()
    ensures
        container_attr() != control_attr(),
        container_attr() != label_attr(),
        url_attr() != control_attr(),
        url_attr() != label_attr(),
        meta_attr() != control_attr(),
        meta_attr() != label_attr(),
        meta_attr() != url_attr(),
        meta_attr() != container_attr(),
        url_attr() != container_attr(),
{
    reveal_strlit("data-pagebreak");
    reveal_strlit("data-pagebreak-url");
    reveal_strlit("data-pagebreak-meta");
    reveal_strlit("data-pagebreak-control");
    reveal_strlit("data-pagebreak-label");
    assert(container_attr().len() != control_attr().len());
    assert(container_attr().len() != label_attr().len());
    assert(url_attr().len() != control_attr().len());
    assert(url_attr().len() != label_attr().len());
    assert(meta_attr().len() != control_attr().len());
    assert(meta_attr().len() != label_attr().len());
    assert(meta_attr().len() != url_attr().len());
    assert(meta_attr().len() != container_attr().len());
    assert(url_attr().len() != container_attr().len());
}

/// Strips one attribute of the container, keeping what it says of the others.
fn strip_container_attribute(doc: &mut Document, c: usize, name: &String) -> (r: Option<String>)
    requires
        old(doc).wf(),
        c < old(doc)@.len(),
    ensures
        final(doc).wf(),
        r matches Some(v) ==> attr_value(old(doc)@[c as int], name@) == Some(v@),
        r is None ==> attr_value(old(doc)@[c as int], name@) is None,
        final(doc)@.len() == old(doc)@.len(),
        forall|m: int| 0 <= m < old(doc)@.len() && m != c ==> #[trigger] final(doc)@[m] == old(doc)@[m],
        final(doc)@[c as int].children == old(doc)@[c as int].children,
        final(doc)@[c as int].data == old(doc)@[c as int].data,
        forall|other: Seq<char>| other != name@ ==> has_attr(#[trigger] final(doc)@[c as int], other) == has_attr(old(doc)@[c as int], other)
            && attr_value(final(doc)@[c as int], other) == attr_value(old(doc)@[c as int], other),
        final(doc)@[c as int].attributes == strip_attr(old(doc)@[c as int].attributes, name@),
{
    let ghost before = doc@;
    let r = take_attribute(doc, c, name);
    proof {
        if r is Some {
            assert forall|other: Seq<char>| other != name@ implies has_attr(#[trigger] doc@[c as int], other) == has_attr(before[c as int], other)
                && attr_value(doc@[c as int], other) == attr_value(before[c as int], other) by {
                lemma_strip_keeps(before[c as int], name@, other);
            }
        }
    }
    r
}

impl PagebreakState {
    /// Reads the configuration from the container, finds the items and the
    /// controls, and counts the pages. A document without a container is left
    /// as it is, with nothing to paginate; a per-page count that is not a
    /// positive integer is an error, and leaves nothing to paginate either.
    pub fn hydrate(&mut self) -> (r: Result<(), PageError>)
        requires
            old(self).wf(),
            old(self).settled(),
            old(self).container() is None,
        ensures
            final(self).wf(),
            final(self).settled(),
            final(self).document_view() == final(self).pristine(),
            final(self).file() == old(self).file(),
            final(self).output() == old(self).output(),
            (forall|m: int| 0 <= m < old(self).document_view().len() ==> !has_attr(#[trigger] old(self).document_view()[m], container_attr()))
                ==> r is Ok && final(self).container() is None && final(self).document_view() == old(self).document_view(),
            forall|c: int| #[trigger] is_container(old(self).document_view(), c) ==> ({
                let d0 = old(self).document_view();
                let per_page = per_page_of(attr_value(d0[c], container_attr()));
                &&& final(self).document_view() == Seq::new(d0.len(), |m: int|
                    stripped_control(if m == c { stripped_container(d0[m]) } else { d0[m] }))
                &&& (r is Err <==> per_page is None)
                &&& (r matches Err(e) ==> e.code == PageErrorCode::InvalidPerPage && final(self).container() is None)
                &&& (r is Ok ==> {
                    &&& final(self).container() == Some(c as usize)
                    &&& final(self).per_page_spec() == Some(per_page->0 as usize)
                    &&& final(self).page_count_spec() == Some(ceil_div(final(self).items().len() as nat, per_page->0) as usize)
                    &&& final(self).url_format() == opt_view(attr_value(d0[c], url_attr()), old(self).url_format())
                    &&& final(self).meta_format() == opt_view(attr_value(d0[c], meta_attr()), old(self).meta_format())
                    &&& final(self).items() == elements_among(d0, d0[c].children)
                    &&& (d0[c].children.len() > 0 && d0[d0[c].children[0] as int].data is Text ==>
                        is_text(d0[d0[c].children[0] as int], final(self).indentation()))
                    &&& (!(d0[c].children.len() > 0 && d0[d0[c].children[0] as int].data is Text) ==>
                        final(self).indentation() == old(self).indentation())
                    &&& element_indices(final(self).controls()) == controls_upto(d0, d0.len() as int)
                    &&& forall|k: int| 0 <= k < final(self).controls().len() ==>
                        control_kind(d0[(#[trigger] final(self).controls()[k]).element as int]) == Some(final(self).controls()[k].element_type)
                    &&& forall|k: int| 0 <= k < final(self).controls().len() ==> {
                        let e = #[trigger] final(self).controls()[k];
                        &&& (e.parent matches Some(p) ==> p < e.element && d0[p as int].children.contains(e.element))
                        &&& e.previous_sibling == match e.parent {
                            Some(p) => child_before(d0[p as int].children, e.element, None),
                            None => None,
                        }
                    }
                })
            }),
    {
        let ghost d0 = self.document@;
        let c = match self.find_pagebreak_node() {
            Some(c) => c,
            None => {
                return Ok(());
            },
        };
        proof {
            lemma_attr_names_differ();
            assert(is_container(d0, c as int));
            assert forall|c2: int| #[trigger] is_container(d0, c2) implies c2 == c by {
                if c2 < c {
                    assert(!has_attr(d0[c2], container_attr()));
                }
                if c2 > c {
                    assert(!has_attr(d0[c as int], container_attr()));
                }
            }
        }
        let meta_name = String::from_str("data-pagebreak-meta");
        let url_name = String::from_str("data-pagebreak-url");
        let count_name = String::from_str("data-pagebreak");
        let ghost d_a = self.document@;
        let meta = strip_container_attribute(&mut self.document, c, &meta_name);
        let ghost d_b = self.document@;
        let url = strip_container_attribute(&mut self.document, c, &url_name);
        let ghost d_c = self.document@;
        let count = strip_container_attribute(&mut self.document, c, &count_name);
        let ghost d1 = self.document@;
        proof {
            assert(attr_value(d_b[c as int], url_attr()) == attr_value(d0[c as int], url_attr()));
            assert(attr_value(d_c[c as int], container_attr()) == attr_value(d0[c as int], container_attr()));
            assert forall|m: int| 0 <= m < d1.len() implies control_kind(#[trigger] d1[m]) == control_kind(d0[m]) by {
                if m == c {
                    assert(has_attr(d1[m], control_attr()) == has_attr(d0[m], control_attr()));
                    assert(has_attr(d1[m], label_attr()) == has_attr(d0[m], label_attr()));
                    assert(attr_value(d1[m], control_attr()) == attr_value(d0[m], control_attr()));
                    assert(attr_value(d1[m], label_attr()) == attr_value(d0[m], label_attr()));
                } else {
                    assert(d1[m] == d0[m]);
                }
            }
        }
        let (items, indentation) = find_pagination_children(&self.document, c);
        assert(d1[c as int].children == d0[c as int].children);
        assert(elements_among(d1, d1[c as int].children) == elements_among(d0, d0[c as int].children)) by {
            assert forall|m: int| 0 <= m < d1.len() implies is_element(#[trigger] d1[m]) == is_element(d0[m]) by {
                if m != c {
                    assert(d1[m] == d0[m]);
                }
            }
            lemma_elements_among_ext(d1, d0, d1[c as int].children);
        }
        let elements = find_pagebreak_elements(&mut self.document);
        proof {
            lemma_controls_upto_ext(d1, d0, d1.len() as int);
            assert(d1[c as int].attributes == stripped_container(d0[c as int]).attributes);
            assert(self.document@ =~= Seq::new(d0.len(), |m: int|
                stripped_control(if m == c { stripped_container(d0[m]) } else { d0[m] })));
            assert forall|m: int| 0 <= m < d1.len() implies #[trigger] d1[m].children == d0[m].children by {
                if m != c {
                    assert(d1[m] == d0[m]);
                }
            }
        }
        self.base_len = self.document.len();
        self.pristine = Ghost(self.document@);
        assert(self.document@.subrange(0, self.base_len as int) =~= self.document@);
        let per_page = match parse_per_page(&self.file_path, count) {
            Ok(k) => k,
            Err(e) => {
                return Err(e);
            },
        };
        if let Some(m) = meta {
            self.page_meta_format = m;
        }
        if let Some(u) = url {
            self.page_url_format = u;
        }
        if let Some(t) = indentation {
            self.dom_indentation = t;
        }
        self.page_count = Some(ceil_division(items.len(), per_page));
        self.per_page = Some(per_page);
        self.page_items = items;
        self.pagebreak_elements = elements;
        self.page_container = Some(c);
        proof {
            assert forall|k: int| 0 <= k < self.page_items@.len() implies c < (#[trigger] self.page_items@[k]).element < self.base_len by {}
        }
        Ok(())
    }
}

proof fn lemma_elements_among_ext(a: Seq<NodeView>, b: Seq<NodeView>, kids: Seq<usize>)
    requires
        a.len() == b.len(),
        forall|m: int| 0 <= m < a.len() ==> is_element(#[trigger] a[m]) == is_element(b[m]),
    ensures
        elements_among(a, kids) == elements_among(b, kids),
    decreases kids.len(),
{
    if kids.len() > 0 {
        lemma_elements_among_ext(a, b, kids.drop_last());
        if kids.last() < a.len() {
            assert(is_element(a[kids.last() as int]) == is_element(b[kids.last() as int]));
        }
    }
}


/// Whether the relative link from page `from` to page `to` can be made.
pub open spec fn link_ok(file: Seq<char>, url: Seq<char>, from: nat, to: nat) -> bool {
    !page_escapes(file, url, from) && !page_escapes(file, url, to)
        && relative_parts(page_dir(file, url, to), page_dir(file, url, from)) is Some
}

/// A directory as a link from the site root: `/`, its path, and `/`.
pub open spec fn rooted_link(d: Seq<crate::paths::PartView>) -> Seq<char> {
    if d.len() == 0 { seq!['/'] } else { seq!['/'] + render(d) + seq!['/'] }
}

/// The link that page `from` uses for page `to`: the relative path between
/// their directories, or, where there is none, `to`'s directory from the site root.
pub open spec fn link_of(file: Seq<char>, url: Seq<char>, from: nat, to: nat) -> Seq<char> {
    match relative_parts(page_dir(file, url, to), page_dir(file, url, from)) {
        Some(rel) => link_text(rel),
        None => rooted_link(page_dir(file, url, to)),
    }
}

/// Whether page `page` has a page before it that can be written.
pub open spec fn has_previous(file: Seq<char>, url: Seq<char>, page: nat) -> bool {
    page > 0 && !page_escapes(file, url, (page - 1) as nat)
}

/// Whether page `page` of `count` has a page after it that can be written.
pub open spec fn has_next(file: Seq<char>, url: Seq<char>, page: nat, count: nat) -> bool {
    page + 1 < count && !page_escapes(file, url, page + 1)
}

/// The output path of page `page`, relative to the output directory.
pub open spec fn page_path_text(file: Seq<char>, url: Seq<char>, page: nat) -> Seq<char> {
    if page == 0 { file } else { render(page_parts(file, url, page)) }
}

/// The items of page `page`: the slice of `per_page` items that it holds.
pub open spec fn page_slice(items: Seq<usize>, page: nat, per_page: nat) -> Seq<usize> {
    let start = page * per_page;
    let end = if start + per_page <= items.len() { start + per_page } else { items.len() as nat };
    items.subrange(start as int, end as int)
}

/// The link that page `from` uses for page `to`, as `link_of` states.
fn page_link(file: &String, url: &String, from: usize, to: usize) -> (r: String)
    requires
        valid_file_path(file@),
        from < usize::MAX,
        to < usize::MAX,
        !page_escapes(file@, url@, from as nat),
        !page_escapes(file@, url@, to as nat),
    ensures
        r@ == link_of(file@, url@, from as nat, to as nat),
{
    match relative_link(file.as_str(), url.as_str(), from, to) {
        Ok(l) => l,
        Err(_) => {
            let mut parts = match crate::paths::page_path(file.as_str(), url.as_str(), to) {
                Ok(p) => p,
                Err(_) => {
                    proof {
                        assert(false);
                    }
                    return String::new();
                },
            };
            let ghost whole = crate::paths::parts_view(parts@);
            parts.pop();
            assert(crate::paths::parts_view(parts@) =~= whole.drop_last());
            proof {
                reveal_strlit("/");
            }
            let mut r = String::from_str("/");
            if parts.len() > 0 {
                r.append(crate::paths::render_path(&parts).as_str());
                r.append("/");
            }
            r
        },
    }
}

fn link_or_err(file: &String, url: &String, from: usize, to: usize) -> (r: Result<String, PageError>)
    requires
        valid_file_path(file@),
        from < usize::MAX,
        to < usize::MAX,
    ensures
        r is Ok <==> link_ok(file@, url@, from as nat, to as nat),
        r matches Ok(s) ==> s@ == link_of(file@, url@, from as nat, to as nat),
        r matches Err(e) ==> e.relative_path@ == file@,
{
    relative_link(file.as_str(), url.as_str(), from, to)
}

impl PagebreakState {
    /// The document `d` shows page `page` of this hydrated state:
    /// - every control is taken out or linked as `controls_placed` states, for
    ///   the pages before and after that exist;
    /// - every label that holds no control shows the page number or count;
    /// - the new indentation nodes hold the indentation;
    /// - on a page after the first, every title that is neither a control nor
    ///   holds one shows the meta template filled with its text;
    /// - every node that is neither a control nor holds one has the metadata
    ///   attributes rewritten (after the first page) or as hydrated;
    /// - the container, unless a title, a control or holding one, holds the
    ///   page's items laid out as `page_layout` states.
    pub open spec fn page_shown(&self, page: nat, d: Seq<NodeView>) -> bool {
        let f = self.file();
        let u = self.url_format();
        let n = self.page_count_spec()->0 as nat;
        let c = self.container()->0 as int;
        let slice = page_slice(self.items(), page, self.per_page_spec()->0 as nat);
        let rel_from = link_of(f, u, page, 0);
        let rel_to = link_of(f, u, 0, page);
        &&& forall|k: int| 0 <= k < self.controls().len() ==> #[trigger] controls_placed(
            d, self.controls()[k], has_previous(f, u, page), has_next(f, u, page, n),
            link_of(f, u, page, (page - 1) as nat), link_of(f, u, page, page + 1))
        &&& forall|k: int| 0 <= k < self.controls().len()
            && holds_no_control(self.controls(), (#[trigger] self.controls()[k]).element as int)
            ==> label_shown(d, self.controls()[k], page, n)
        &&& forall|j: int| 0 <= j <= slice.len() ==> text_node(self.indentation(), #[trigger] d[self.pristine().len() + j])
        &&& (page > 0 ==> forall|m: int| 0 <= m < self.pristine().len() && is_title(#[trigger] self.pristine()[m])
            && untouched_by_controls(self.controls(), m) ==> {
            let shown = populated(self.pristine(), c, slice, self.indentation_node_text());
            &&& d[m].children.len() == 1
            &&& text_node(resolve_format_spec(self.meta_format(), page, text_content(shown, m), rel_from, rel_to), d[d[m].children[0] as int])
        })
        &&& forall|m: int| 0 <= m < self.pristine().len() && untouched_by_controls(self.controls(), m)
            ==> (#[trigger] d[m]).attributes == if page > 0 {
                metadata_rewritten(self.pristine()[m], self.meta_format(), page, rel_from, rel_to).attributes
            } else {
                self.pristine()[m].attributes
            }
        &&& (!is_title(self.pristine()[c]) && untouched_by_controls(self.controls(), c)
            ==> d[c].children == page_layout(self.pristine().len() as int, slice))
    }

    /// The output path of page `page`; see `resolve_output_path`.
    pub fn get_file_url(&self, page: usize) -> (r: Result<String, PageError>)
        requires
            valid_file_path(self.file()),
            page < usize::MAX,
        ensures
            r is Err <==> page_escapes(self.file(), self.url_format(), page as nat),
            r matches Ok(p) ==> p@ == page_path_text(self.file(), self.url_format(), page as nat),
            r matches Err(e) ==> e.code == PageErrorCode::ParentDir && e.relative_path@ == self.file()
                && e.message@ == crate::paths::escape_message(page_parts(self.file(), self.url_format(), page as nat)),
    {
        resolve_output_path(self.file_path.as_str(), self.page_url_format.as_str(), page)
    }

    /// The link from page `from` to page `to`; see `relative_link`.
    pub fn relative_path_between_pages(&self, from: usize, to: usize) -> (r: Result<String, PageError>)
        requires
            valid_file_path(self.file()),
            from < usize::MAX,
            to < usize::MAX,
        ensures
            r is Ok <==> link_ok(self.file(), self.url_format(), from as nat, to as nat),
            r matches Ok(s) ==> s@ == link_of(self.file(), self.url_format(), from as nat, to as nat),
    {
        link_or_err(&self.file_path, &self.page_url_format, from, to)
    }

    /// Renders page `page` into the document, recording every change: the
    /// page's items in the container, the page metadata filled in from the
    /// templates (after the first page), the labels set, and the controls
    /// that do not apply taken out or given their links. Returns the page's
    /// output path, or the error that stops the pagination, in which case
    /// nothing was changed.
    #[verifier::rlimit(100)]
    pub fn render_page(&mut self, page: usize) -> (r: Result<String, PageError>)
        requires
            old(self).wf(),
            old(self).settled(),
            old(self).container() is Some,
            old(self).page_count_spec() matches Some(n) && page < n,
            valid_file_path(old(self).file()),
            old(self).pristine().len() <= usize::MAX / 8,
            old(self).items().len() <= usize::MAX / 8,
            old(self).controls().len() <= usize::MAX / 8,
        ensures
            final(self).wf(),
            final(self).pristine() == old(self).pristine(),
            final(self).file() == old(self).file(),
            final(self).url_format() == old(self).url_format(),
            final(self).meta_format() == old(self).meta_format(),
            final(self).container() == old(self).container(),
            final(self).items() == old(self).items(),
            final(self).controls() == old(self).controls(),
            final(self).per_page_spec() == old(self).per_page_spec(),
            final(self).page_count_spec() == old(self).page_count_spec(),
            final(self).indentation() == old(self).indentation(),
            final(self).indentation_node_text() == old(self).indentation_node_text(),
            r is Ok <==> !page_escapes(old(self).file(), old(self).url_format(), page as nat),
            r is Err ==> final(self).settled() && final(self).document_view() == old(self).document_view(),
            r matches Ok(p) ==> p@ == page_path_text(old(self).file(), old(self).url_format(), page as nat),
            r matches Err(e) ==> e.relative_path@ == old(self).file() && e.code == PageErrorCode::ParentDir
                && e.message@ == crate::paths::escape_message(page_parts(old(self).file(), old(self).url_format(), page as nat)),
            r is Ok ==> old(self).page_shown(page as nat, final(self).document_view()),
    {
        let ghost p_start = self.pristine@;
        let n = self.page_count.unwrap();
        let path = match self.get_file_url(page) {
            Ok(p) => p,
            Err(e) => return Err(e),
        };
        let rel_to = if page > 0 { page_link(&self.file_path, &self.page_url_format, 0, page) } else { String::new() };
        let rel_from = if page > 0 { page_link(&self.file_path, &self.page_url_format, page, 0) } else { String::new() };
        let has_prev = page > 0 && self.get_file_url(page - 1).is_ok();
        let prev_link = if has_prev { page_link(&self.file_path, &self.page_url_format, page, page - 1) } else { String::new() };
        let has_next = page + 1 < n && self.get_file_url(page + 1).is_ok();
        let next_link = if has_next { page_link(&self.file_path, &self.page_url_format, page, page + 1) } else { String::new() };
        let c = self.page_container.unwrap();
        let pp = self.per_page.unwrap();
        let slice = self.page_slice_of(page);
        let ghost d0 = self.document@;
        let ghost l0 = self.changes@;
        assert(d0 == p_start);
        proof {
            lemma_keeps_undo_refl(d0, l0);
        }
        populate(&mut self.document, &mut self.changes, c, &slice, &self.dom_indentation);
        let ghost d1 = self.document@;
        let ghost l1 = self.changes@;
        rewrite_metadata(&mut self.document, &mut self.changes, &self.page_meta_format, page, &rel_from, &rel_to);
        let ghost d2 = self.document@;
        let ghost l2 = self.changes@;
        proof {
            lemma_keeps_undo_trans(d0, l0, d1, l1, d2, l2);
        }
        proof {
            assert forall|k: int| 0 <= k < self.pagebreak_elements@.len() implies (#[trigger] self.pagebreak_elements@[k]).element < d2.len()
                && (self.pagebreak_elements@[k].parent matches Some(p) ==> p < d2.len()) by {}
        }
        update_controls(&mut self.document, &mut self.changes, &self.pagebreak_elements, page, n, has_prev, has_next, &prev_link, &next_link);
        proof {
            lemma_keeps_undo_trans(d0, l0, d2, l2, self.document@, self.changes@);
            lemma_undo_all_len(self.document@, self.changes@);
            let d6 = self.document@;
            let els = self.pagebreak_elements@;
            assert forall|j: int| 0 <= j <= slice@.len() implies text_node(self.dom_indentation@, #[trigger] d6[d0.len() + j]) by {
                let m = d0.len() + j;
                assert(d1[m] == (NodeView { data: NodeData::Text(self.dom_indentation), attributes: Seq::empty(), children: Seq::empty() }));
                assert(!is_element(d1[m]));
                assert(d2[m] == d1[m]);
                assert(untouched_by_controls(els, m)) by {
                    assert forall|k: int| 0 <= k < els.len() implies (#[trigger] els[k]).element != m && els[k].parent != Some(m as usize) by {}
                }
                assert(d6[m] == d2[m]);
            }
            lemma_controls_links(d6, els, has_prev, has_next, prev_link@, next_link@,
                link_of(self.file(), self.url_format(), page as nat, (page as int - 1) as nat),
                link_of(self.file(), self.url_format(), page as nat, page as nat + 1));
            assert forall|m: int| 0 <= m < d0.len() && untouched_by_controls(els, m) implies (#[trigger] d6[m]).attributes == if page > 0 {
                metadata_rewritten(d0[m], self.page_meta_format@, page as nat, rel_from@, rel_to@).attributes
            } else {
                d0[m].attributes
            } by {
                assert(d1[m].data == d0[m].data && d1[m].attributes == d0[m].attributes);
                assert(d6[m] == d2[m]);
                if page > 0 {
                    lemma_metadata_local(d1[m], d0[m], self.page_meta_format@, page as nat, rel_from@, rel_to@);
                }
            }
            if page > 0 {
                assert forall|m: int| 0 <= m < d0.len() && is_title(#[trigger] d0[m]) && untouched_by_controls(els, m) implies {
                    &&& d6[m].children.len() == 1
                    &&& text_node(resolve_format_spec(self.page_meta_format@, page as nat, text_content(d1, m), rel_from@, rel_to@), d6[d6[m].children[0] as int])
                } by {
                    assert(d1[m].data == d0[m].data);
                    assert(is_title(d1[m]));
                    let t = d2[m].children[0] as int;
                    assert(d1.len() <= t < d2.len());
                    assert(d6[m] == d2[m]);
                    assert(untouched_by_controls(els, t)) by {
                        assert forall|k: int| 0 <= k < els.len() implies (#[trigger] els[k]).element != t && els[k].parent != Some(t as usize) by {}
                    }
                    assert(d6[t] == d2[t]);
                }
            }
            if !is_title(d0[c as int]) && untouched_by_controls(els, c as int) {
                assert(d1[c as int].data == d0[c as int].data);
                assert(!is_title(d1[c as int]));
                assert(d2[c as int].children == d1[c as int].children);
                assert(d6[c as int] == d2[c as int]);
            }
        }
        Ok(path)
    }

    /// Records and removes every child of the container.
    pub fn detach_children(&mut self)
        requires
            old(self).wf(),
            old(self).container() is Some,
        ensures
            final(self).wf(),
            final(self).pristine() == old(self).pristine(),
            final(self).container() == old(self).container(),
            final(self).document_view() == old(self).document_view().update(old(self).container()->0 as int,
                NodeView { children: Seq::empty(), ..old(self).document_view()[old(self).container()->0 as int] }),
    {
        let c = self.page_container.unwrap();
        let ghost d0 = self.document@;
        let ghost l0 = self.changes@;
        crate::page::detach_children(&mut self.document, &mut self.changes, c);
        proof {
            lemma_undo_all_len(self.document@, self.changes@);
            lemma_undo_all_len(d0, l0);
            assert(undo_all(self.document@, self.changes@).subrange(0, self.base_len as int)
                =~= undo_all(d0, l0).subrange(0, self.base_len as int));
        }
    }

    /// Records the children of the container, then appends `child` to them.
    pub fn reattach_child(&mut self, child: PagebreakNode)
        requires
            old(self).wf(),
            old(self).container() matches Some(c) && c < child.element < old(self).document_view().len(),
        ensures
            final(self).wf(),
            final(self).pristine() == old(self).pristine(),
            final(self).container() == old(self).container(),
            final(self).document_view() == old(self).document_view().update(old(self).container()->0 as int, NodeView {
                children: old(self).document_view()[old(self).container()->0 as int].children.push(child.element),
                ..old(self).document_view()[old(self).container()->0 as int]
            }),
    {
        let c = self.page_container.unwrap();
        let ghost d0 = self.document@;
        let ghost l0 = self.changes@;
        crate::page::reattach_child(&mut self.document, &mut self.changes, c, child.element);
        proof {
            lemma_undo_all_len(self.document@, self.changes@);
            lemma_undo_all_len(d0, l0);
            assert(undo_all(self.document@, self.changes@).subrange(0, self.base_len as int)
                =~= undo_all(d0, l0).subrange(0, self.base_len as int));
        }
    }

    /// The item indices of page `page`.
    fn page_slice_of(&self, page: usize) -> (r: Vec<usize>)
        requires
            self.wf(),
            self.container() is Some,
            self.page_count_spec() matches Some(n) && page < n,
        ensures
            r@ == page_slice(self.items(), page as nat, self.per_page_spec()->0 as nat),
            r@.len() <= self.items().len(),
            forall|j: int| 0 <= j < r@.len() ==> self.container()->0 < #[trigger] r@[j] < self.pristine().len(),
    {
        let pp = self.per_page.unwrap();
        let len = self.page_items.len();
        let n = self.page_count.unwrap();
        proof {
            lemma_page_start(len as nat, pp as nat, page as nat);
        }
        let start = page * pp;
        let end = if pp <= len - start { start + pp } else { len };
        let mut r: Vec<usize> = Vec::new();
        let mut i: usize = start;
        while i < end
            invariant
                start <= i <= end <= len,
                len == self.page_items@.len(),
                self.wf(),
                self.container() is Some,
                r@ == self.items().subrange(start as int, i as int),
                forall|j: int| 0 <= j < r@.len() ==> self.container()->0 < #[trigger] r@[j] < self.pristine().len(),
            decreases end - i,
        {
            assert(self.page_items@[i as int].element == self.page_items[i as int].element);
            r.push(self.page_items[i].element);
            i = i + 1;
            assert(r@ =~= self.items().subrange(start as int, i as int));
        }
        r
    }
}


/// A page that exists starts at an item that exists.
pub proof fn lemma_page_start(len: nat, pp: nat, page: nat)
    requires
        pp > 0,
        page < ceil_div(len, pp),
    ensures
        page * pp < len,
        ceil_div(len, pp) <= len,
{
    let q = len / pp;
    let r = len % pp;
    assert(len == q * pp + r && 0 <= r < pp) by (nonlinear_arith)
        requires pp > 0, q == len / pp, r == len % pp;
    if r == 0 {
        assert(page + 1 <= q);
        assert(page * pp + pp <= q * pp) by (nonlinear_arith)
            requires page + 1 <= q, pp > 0;
        assert(q <= len) by (nonlinear_arith)
            requires len == q * pp, pp >= 1;
    } else {
        assert(page <= q);
        assert(page * pp <= q * pp) by (nonlinear_arith)
            requires page <= q, pp > 0;
        assert(q + 1 <= len) by (nonlinear_arith)
            requires len == q * pp + r, pp >= 1, r >= 1;
    }
}

/// Rewrites the page metadata: the title, the social titles, relative links,
/// the canonical link and the social URL.
fn rewrite_metadata(doc: &mut Document, ledger: &mut ChangeLedger, meta: &String, page: usize, rel_from: &String, rel_to: &String)
    requires
        old(doc).wf(),
        changes_fit(old(doc)@, old(ledger)@),
        2 * old(doc)@.len() + 1 < usize::MAX,
        page < usize::MAX,
    ensures
        final(doc).wf(),
        changes_fit(final(doc)@, final(ledger)@),
        keeps_undo(old(doc)@, old(ledger)@, final(doc)@, final(ledger)@),
        final(doc)@.len() <= 2 * old(doc)@.len(),
        forall|m: int| 0 <= m < old(doc)@.len() && !is_title(old(doc)@[m]) ==> (#[trigger] final(doc)@[m]).children == old(doc)@[m].children,
        forall|m: int| 0 <= m < old(doc)@.len() && !is_element(old(doc)@[m]) ==> #[trigger] final(doc)@[m] == old(doc)@[m],
        page == 0 ==> final(doc)@ == old(doc)@,
        page > 0 ==> forall|m: int| 0 <= m < old(doc)@.len() ==> (#[trigger] final(doc)@[m]).attributes
            == metadata_rewritten(old(doc)@[m], meta@, page as nat, rel_from@, rel_to@).attributes,
        page > 0 ==> forall|m: int| 0 <= m < old(doc)@.len() && is_title(#[trigger] old(doc)@[m]) ==> {
            let d = final(doc)@;
            &&& d[m].children.len() == 1
            &&& old(doc)@.len() <= d[m].children[0] < d.len()
            &&& text_node(resolve_format_spec(meta@, page as nat, text_content(old(doc)@, m), rel_from@, rel_to@), d[d[m].children[0] as int])
        },
{
    let ghost d0 = doc@;
    let ghost l0 = ledger@;
    update_tag_content(doc, ledger, meta, page, rel_from, rel_to);
    let ghost d1 = doc@;
    let ghost l1 = ledger@;
    let property = String::from_str("property");
    let content = String::from_str("content");
    let href = String::from_str("href");
    let rel = String::from_str("rel");
    let og_title = String::from_str("og:title");
    let twitter_title = String::from_str("twitter:title");
    let canonical = String::from_str("canonical");
    let og_url = String::from_str("og:url");
    let link_from_format = String::from_str(":rel-from:content");
    let link_to_format = String::from_str(":content:rel-to");
    update_tag_attribute(doc, ledger, meta, &property, Some(&og_title), &content, false, page, rel_from, rel_to);
    let ghost d2 = doc@;
    let ghost l2 = ledger@;
    update_tag_attribute(doc, ledger, meta, &property, Some(&twitter_title), &content, false, page, rel_from, rel_to);
    let ghost d3 = doc@;
    let ghost l3 = ledger@;
    update_tag_attribute(doc, ledger, &link_from_format, &href, None, &href, true, page, rel_from, rel_to);
    let ghost d4 = doc@;
    let ghost l4 = ledger@;
    update_tag_attribute(doc, ledger, &link_to_format, &rel, Some(&canonical), &href, false, page, rel_from, rel_to);
    let ghost d5 = doc@;
    let ghost l5 = ledger@;
    update_tag_attribute(doc, ledger, &link_to_format, &property, Some(&og_url), &content, false, page, rel_from, rel_to);
    proof {
        assert forall|m: int| 0 <= m < d0.len() && !is_title(d0[m]) implies (#[trigger] doc@[m]).children == d0[m].children by {
            if page > 0 {
                assert(d1[m] == d0[m]);
            }
            assert(d2[m].children == d1[m].children);
            assert(d3[m].children == d2[m].children);
            assert(d4[m].children == d3[m].children);
            assert(d5[m].children == d4[m].children);
        }
        if page > 0 {
            assert forall|m: int| 0 <= m < d0.len() implies (#[trigger] doc@[m]).attributes
                == metadata_rewritten(d0[m], meta@, page as nat, rel_from@, rel_to@).attributes by {
                assert(d1[m].data == d0[m].data && d1[m].attributes == d0[m].attributes);
                let f = rel_from@;
                let t = rel_to@;
                let pg = page as nat;
                lemma_attr_step_local(d1[m], d0[m], "property"@, Some("og:title"@), "content"@, false, meta@, pg, f, t);
                let a = attr_step(d0[m], "property"@, Some("og:title"@), "content"@, false, meta@, pg, f, t);
                lemma_attr_step_local(d2[m], a, "property"@, Some("twitter:title"@), "content"@, false, meta@, pg, f, t);
                let b = attr_step(a, "property"@, Some("twitter:title"@), "content"@, false, meta@, pg, f, t);
                lemma_attr_step_local(d3[m], b, "href"@, None, "href"@, true, ":rel-from:content"@, pg, f, t);
                let c = attr_step(b, "href"@, None, "href"@, true, ":rel-from:content"@, pg, f, t);
                lemma_attr_step_local(d4[m], c, "rel"@, Some("canonical"@), "href"@, false, ":content:rel-to"@, pg, f, t);
                let d = attr_step(c, "rel"@, Some("canonical"@), "href"@, false, ":content:rel-to"@, pg, f, t);
                lemma_attr_step_local(d5[m], d, "property"@, Some("og:url"@), "content"@, false, ":content:rel-to"@, pg, f, t);
            }
            assert forall|m: int| 0 <= m < d0.len() && is_title(#[trigger] d0[m]) implies {
                let d = doc@;
                &&& d[m].children.len() == 1
                &&& d0.len() <= d[m].children[0] < d.len()
                &&& text_node(resolve_format_spec(meta@, page as nat, text_content(d0, m), rel_from@, rel_to@), d[d[m].children[0] as int])
            } by {
                let t = d1[m].children[0] as int;
                assert(d0.len() <= t < d1.len());
                assert(d2[m].children == d1[m].children);
                assert(d3[m].children == d2[m].children);
                assert(d4[m].children == d3[m].children);
                assert(d5[m].children == d4[m].children);
                assert(!is_element(d1[t]));
                assert(d2[t] == d1[t]);
                assert(d3[t] == d2[t]);
                assert(d4[t] == d3[t]);
                assert(d5[t] == d4[t]);
            }
        }
        assert forall|m: int| 0 <= m < d0.len() && !is_element(d0[m]) implies #[trigger] doc@[m] == d0[m] by {
            if page > 0 {
                assert(d1[m] == d0[m]);
            }
            assert(d2[m] == d1[m]);
            assert(d3[m] == d2[m]);
            assert(d4[m] == d3[m]);
            assert(d5[m] == d4[m]);
        }
        lemma_keeps_undo_trans(d0, l0, d1, l1, d2, l2);
        lemma_keeps_undo_trans(d0, l0, d2, l2, d3, l3);
        lemma_keeps_undo_trans(d0, l0, d3, l3, d4, l4);
        lemma_keeps_undo_trans(d0, l0, d4, l4, d5, l5);
        lemma_keeps_undo_trans(d0, l0, d5, l5, doc@, ledger@);
    }
}

/// The attributes that the page metadata rewrites give a node: the social
/// titles filled into the meta template, relative links prefixed with the
/// link back to the first page, and the canonical link and the social URL
/// followed by the link from the first page.
pub open spec fn metadata_rewritten(nv: NodeView, meta: Seq<char>, page: nat, rel_from: Seq<char>, rel_to: Seq<char>) -> NodeView {
    let a = attr_step(nv, "property"@, Some("og:title"@), "content"@, false, meta, page, rel_from, rel_to);
    let b = attr_step(a, "property"@, Some("twitter:title"@), "content"@, false, meta, page, rel_from, rel_to);
    let c = attr_step(b, "href"@, None, "href"@, true, ":rel-from:content"@, page, rel_from, rel_to);
    let d = attr_step(c, "rel"@, Some("canonical"@), "href"@, false, ":content:rel-to"@, page, rel_from, rel_to);
    attr_step(d, "property"@, Some("og:url"@), "content"@, false, ":content:rel-to"@, page, rel_from, rel_to)
}

proof fn lemma_metadata_local(x: NodeView, y: NodeView, meta: Seq<char>, page: nat, f: Seq<char>, t: Seq<char>)
    requires
        x.data == y.data,
        x.attributes == y.attributes,
    ensures
        metadata_rewritten(x, meta, page, f, t).attributes == metadata_rewritten(y, meta, page, f, t).attributes,
{
    lemma_attr_step_local(x, y, "property"@, Some("og:title"@), "content"@, false, meta, page, f, t);
    let ax = attr_step(x, "property"@, Some("og:title"@), "content"@, false, meta, page, f, t);
    let ay = attr_step(y, "property"@, Some("og:title"@), "content"@, false, meta, page, f, t);
    lemma_attr_step_local(ax, ay, "property"@, Some("twitter:title"@), "content"@, false, meta, page, f, t);
    let bx = attr_step(ax, "property"@, Some("twitter:title"@), "content"@, false, meta, page, f, t);
    let by_ = attr_step(ay, "property"@, Some("twitter:title"@), "content"@, false, meta, page, f, t);
    lemma_attr_step_local(bx, by_, "href"@, None, "href"@, true, ":rel-from:content"@, page, f, t);
    let cx = attr_step(bx, "href"@, None, "href"@, true, ":rel-from:content"@, page, f, t);
    let cy = attr_step(by_, "href"@, None, "href"@, true, ":rel-from:content"@, page, f, t);
    lemma_attr_step_local(cx, cy, "rel"@, Some("canonical"@), "href"@, false, ":content:rel-to"@, page, f, t);
    let dx = attr_step(cx, "rel"@, Some("canonical"@), "href"@, false, ":content:rel-to"@, page, f, t);
    let dy = attr_step(cy, "rel"@, Some("canonical"@), "href"@, false, ":content:rel-to"@, page, f, t);
    lemma_attr_step_local(dx, dy, "property"@, Some("og:url"@), "content"@, false, ":content:rel-to"@, page, f, t);
}

/// Sets the labels and the controls for page `page` of `n`.
fn update_controls(doc: &mut Document, ledger: &mut ChangeLedger, els: &Vec<PagebreakElement>, page: usize, n: usize,
    has_prev: bool, has_next: bool, prev_link: &String, next_link: &String)
    requires
        old(doc).wf(),
        changes_fit(old(doc)@, old(ledger)@),
        old(doc)@.len() + 2 * els@.len() + 2 < usize::MAX,
        controls_ok(els@, old(doc)@.len()),
        page < n,
    ensures
        final(doc).wf(),
        changes_fit(final(doc)@, final(ledger)@),
        keeps_undo(old(doc)@, old(ledger)@, final(doc)@, final(ledger)@),
        forall|k: int| 0 <= k < els@.len() ==> #[trigger] controls_placed(final(doc)@, els@[k], has_prev, has_next, prev_link@, next_link@),
        forall|m: int| 0 <= m < old(doc)@.len() && untouched_by_controls(els@, m) ==> #[trigger] final(doc)@[m] == old(doc)@[m],
        forall|k: int| 0 <= k < els@.len() && holds_no_control(els@, (#[trigger] els@[k]).element as int)
            ==> label_shown(final(doc)@, els@[k], page as nat, n as nat),
{
    let ghost d0 = doc@;
    let ghost l0 = ledger@;
    let current = decimal_string(page + 1);
    let total = decimal_string(n);
    update_element_text(doc, ledger, els, PagebreakElementType::Current, &current);
    let ghost d1 = doc@;
    let ghost l1 = ledger@;
    proof {
        assert(controls_ok(els@, d1.len())) by {
            assert forall|k: int| 0 <= k < els@.len() implies (#[trigger] els@[k]).element < d1.len()
                && (els@[k].parent matches Some(p) ==> p < d1.len()) by {}
        }
    }
    update_element_text(doc, ledger, els, PagebreakElementType::Total, &total);
    let ghost d2 = doc@;
    let ghost l2 = ledger@;
    proof {
        lemma_keeps_undo_trans(d0, l0, d1, l1, d2, l2);
        assert(controls_ok(els@, d2.len())) by {
            assert forall|k: int| 0 <= k < els@.len() implies (#[trigger] els@[k]).element < d2.len()
                && (els@[k].parent matches Some(p) ==> p < d2.len()) by {}
        }
    }
    place_previous(doc, ledger, els, has_prev, prev_link);
    let ghost d4 = doc@;
    let ghost l4 = ledger@;
    proof {
        lemma_keeps_undo_trans(d0, l0, d2, l2, d4, l4);
    }
    place_next(doc, ledger, els, has_prev, has_next, prev_link, next_link);
    proof {
        lemma_keeps_undo_trans(d0, l0, d4, l4, doc@, ledger@);
        assert forall|k: int| 0 <= k < els@.len() && holds_no_control(els@, (#[trigger] els@[k]).element as int)
            implies label_shown(doc@, els@[k], page as nat, n as nat) by {
            let e = els@[k].element as int;
            if els@[k].element_type == PagebreakElementType::Current {
                lemma_only_type(els@, k, PagebreakElementType::Total);
                assert(d2[e] == d1[e]);
                let t = d1[e].children[0] as int;
                assert(d0.len() <= t < d1.len());
                assert(untouched_by_controls(els@, t)) by {
                    assert forall|j: int| 0 <= j < els@.len() implies (#[trigger] els@[j]).element != t && els@[j].parent != Some(t as usize) by {}
                }
                assert(d2[t] == d1[t]);
                assert(d4[t] == d2[t]);
                assert(doc@[t] == d4[t]);
            }
            if els@[k].element_type == PagebreakElementType::Total {
                let t = d2[e].children[0] as int;
                assert(d1.len() <= t < d2.len());
                assert(untouched_by_controls(els@, t)) by {
                    assert forall|j: int| 0 <= j < els@.len() implies (#[trigger] els@[j]).element != t && els@[j].parent != Some(t as usize) by {}
                }
                assert(d4[t] == d2[t]);
                assert(doc@[t] == d4[t]);
            }
        }
        assert forall|m: int| 0 <= m < d0.len() && untouched_by_controls(els@, m) implies #[trigger] doc@[m] == d0[m] by {
            lemma_untouched(els@, m, PagebreakElementType::Current);
            lemma_untouched(els@, m, PagebreakElementType::Total);
            assert(d1[m] == d0[m]);
            assert(d2[m] == d1[m]);
            assert(d4[m] == d2[m]);
        }
    }
}

proof fn lemma_controls_links(d: Seq<NodeView>, els: Seq<PagebreakElement>, has_prev: bool, has_next: bool,
    prev: Seq<char>, next: Seq<char>, lp: Seq<char>, ln: Seq<char>)
    requires
        forall|k: int| 0 <= k < els.len() ==> #[trigger] controls_placed(d, els[k], has_prev, has_next, prev, next),
        has_prev ==> prev == lp,
        has_next ==> next == ln,
    ensures
        forall|k: int| 0 <= k < els.len() ==> #[trigger] controls_placed(d, els[k], has_prev, has_next, lp, ln),
{
    assert forall|k: int| 0 <= k < els.len() implies #[trigger] controls_placed(d, els[k], has_prev, has_next, lp, ln) by {
        assert(controls_placed(d, els[k], has_prev, has_next, prev, next));
    }
}

/// No control was found as a child of `m`.
pub open spec fn holds_no_control(els: Seq<PagebreakElement>, m: int) -> bool {
    forall|k: int| 0 <= k < els.len() ==> (#[trigger] els[k]).parent != Some(m as usize)
}

/// A label as a page shows it: its text is the page number, counted from one,
/// for `Current`, and the page count for `Total`.
pub open spec fn label_shown(d: Seq<NodeView>, e: PagebreakElement, page: nat, n: nat) -> bool {
    &&& (e.element_type == PagebreakElementType::Current ==> d[e.element as int].children.len() == 1
        && text_node(decimal(page + 1), d[d[e.element as int].children[0] as int]))
    &&& (e.element_type == PagebreakElementType::Total ==> d[e.element as int].children.len() == 1
        && text_node(decimal(n), d[d[e.element as int].children[0] as int]))
}

proof fn lemma_only_type(els: Seq<PagebreakElement>, k: int, ty: PagebreakElementType)
    requires
        0 <= k < els.len(),
        els[k].element_type != ty,
        forall|a: int, b: int| 0 <= a < b < els.len() ==> (#[trigger] els[a]).element < (#[trigger] els[b]).element,
    ensures
        !is_control_of(els, ty, els[k].element as int),
{
    if is_control_of(els, ty, els[k].element as int) {
        let j = choose|j: int| 0 <= j < els.len() && (#[trigger] els[j]).element == els[k].element && els[j].element_type == ty;
        if j < k {
            assert(els[j].element < els[k].element);
        } else if j > k {
            assert(els[k].element < els[j].element);
        }
    }
}

/// Neither a control nor the node that held one.
pub open spec fn untouched_by_controls(els: Seq<PagebreakElement>, m: int) -> bool {
    forall|k: int| 0 <= k < els.len() ==> (#[trigger] els[k]).element != m && els[k].parent != Some(m as usize)
}

proof fn lemma_untouched(els: Seq<PagebreakElement>, m: int, ty: PagebreakElementType)
    requires
        untouched_by_controls(els, m),
    ensures
        !is_control_of(els, ty, m),
        !(exists|k: int| 0 <= k < els.len() && (#[trigger] els[k]).element_type == ty && els[k].parent == Some(m as usize)),
{
}

/// Without a page before, takes out `Previous`; with one, sets its link and
/// takes out `NoPrevious`.
fn place_previous(doc: &mut Document, ledger: &mut ChangeLedger, els: &Vec<PagebreakElement>, has_prev: bool, prev_link: &String)
    requires
        old(doc).wf(),
        changes_fit(old(doc)@, old(ledger)@),
        controls_ok(els@, old(doc)@.len()),
    ensures
        final(doc).wf(),
        changes_fit(final(doc)@, final(ledger)@),
        keeps_undo(old(doc)@, old(ledger)@, final(doc)@, final(ledger)@),
        final(doc)@.len() == old(doc)@.len(),
        forall|k: int| 0 <= k < els@.len() ==> #[trigger] controls_placed_prev(final(doc)@, els@[k], has_prev, prev_link@),
        forall|k: int| 0 <= k < els@.len() && ((#[trigger] els@[k]).element_type == PagebreakElementType::Current
            || els@[k].element_type == PagebreakElementType::Total) && holds_no_control(els@, els@[k].element as int)
            ==> final(doc)@[els@[k].element as int] == old(doc)@[els@[k].element as int],
        forall|m: int| 0 <= m < old(doc)@.len() && untouched_by_controls(els@, m) ==> #[trigger] final(doc)@[m] == old(doc)@[m],
{
    let ghost d2 = doc@;
    let ghost l2 = ledger@;
    if !has_prev {
        detach_element(doc, ledger, els, PagebreakElementType::Previous);
        proof {
            assert forall|m: int| 0 <= m < d2.len() && untouched_by_controls(els@, m) implies #[trigger] doc@[m] == d2[m] by {
                lemma_untouched(els@, m, PagebreakElementType::Previous);
            }
        }
    } else {
        update_element_href(doc, ledger, els, PagebreakElementType::Previous, prev_link);
        let ghost d3 = doc@;
        let ghost l3 = ledger@;
        detach_element(doc, ledger, els, PagebreakElementType::NoPrevious);
        proof {
            lemma_keeps_undo_trans(d2, l2, d3, l3, doc@, ledger@);
            assert forall|m: int| 0 <= m < d2.len() && untouched_by_controls(els@, m) implies #[trigger] doc@[m] == d2[m] by {
                lemma_untouched(els@, m, PagebreakElementType::Previous);
                lemma_untouched(els@, m, PagebreakElementType::NoPrevious);
                assert(d3[m] == d2[m]);
            }
            assert forall|k: int| 0 <= k < els@.len() && (#[trigger] els@[k]).element_type == PagebreakElementType::Previous
                implies attr_value(doc@[els@[k].element as int], href_attr()) == Some(prev_link@) by {
                let e = els@[k].element as int;
                assert(doc@[e].attributes == d3[e].attributes);
                crate::page::lemma_with_href(d2[e], prev_link@);
            }
        }
    }
    proof {
        assert forall|k: int| 0 <= k < els@.len() && ((#[trigger] els@[k]).element_type == PagebreakElementType::Current
            || els@[k].element_type == PagebreakElementType::Total) && holds_no_control(els@, els@[k].element as int)
            implies doc@[els@[k].element as int] == d2[els@[k].element as int] by {
            lemma_only_type(els@, k, PagebreakElementType::Previous);
        }
    }
}

/// Without a page after, takes out `Next`; with one, sets its link and takes
/// out `NoNext`, keeping what `place_previous` did.
fn place_next(doc: &mut Document, ledger: &mut ChangeLedger, els: &Vec<PagebreakElement>, has_prev: bool, has_next: bool,
    prev_link: &String, next_link: &String)
    requires
        old(doc).wf(),
        changes_fit(old(doc)@, old(ledger)@),
        controls_ok(els@, old(doc)@.len()),
        forall|k: int| 0 <= k < els@.len() ==> #[trigger] controls_placed_prev(old(doc)@, els@[k], has_prev, prev_link@),
    ensures
        final(doc).wf(),
        changes_fit(final(doc)@, final(ledger)@),
        keeps_undo(old(doc)@, old(ledger)@, final(doc)@, final(ledger)@),
        forall|k: int| 0 <= k < els@.len() ==> #[trigger] controls_placed(final(doc)@, els@[k], has_prev, has_next, prev_link@, next_link@),
        forall|m: int| 0 <= m < old(doc)@.len() && untouched_by_controls(els@, m) ==> #[trigger] final(doc)@[m] == old(doc)@[m],
        forall|k: int| 0 <= k < els@.len() && ((#[trigger] els@[k]).element_type == PagebreakElementType::Current
            || els@[k].element_type == PagebreakElementType::Total) && holds_no_control(els@, els@[k].element as int)
            ==> final(doc)@[els@[k].element as int] == old(doc)@[els@[k].element as int],
{
    let ghost d4 = doc@;
    let ghost l4 = ledger@;
    if !has_next {
        detach_element(doc, ledger, els, PagebreakElementType::Next);
        proof {
            assert forall|m: int| 0 <= m < d4.len() && untouched_by_controls(els@, m) implies #[trigger] doc@[m] == d4[m] by {
                lemma_untouched(els@, m, PagebreakElementType::Next);
            }
        }
    } else {
        update_element_href(doc, ledger, els, PagebreakElementType::Next, next_link);
        let ghost d5 = doc@;
        let ghost l5 = ledger@;
        detach_element(doc, ledger, els, PagebreakElementType::NoNext);
        proof {
            lemma_keeps_undo_trans(d4, l4, d5, l5, doc@, ledger@);
            assert forall|m: int| 0 <= m < d4.len() && untouched_by_controls(els@, m) implies #[trigger] doc@[m] == d4[m] by {
                lemma_untouched(els@, m, PagebreakElementType::Next);
                lemma_untouched(els@, m, PagebreakElementType::NoNext);
                assert(d5[m] == d4[m]);
            }
            assert forall|k: int| 0 <= k < els@.len() && (#[trigger] els@[k]).element_type == PagebreakElementType::Next
                implies attr_value(doc@[els@[k].element as int], href_attr()) == Some(next_link@) by {
                let e = els@[k].element as int;
                assert(doc@[e].attributes == d5[e].attributes);
                crate::page::lemma_with_href(d4[e], next_link@);
            }
        }
    }
    proof {
        let d6 = doc@;
        assert forall|k: int| 0 <= k < els@.len() implies #[trigger] controls_placed(d6, els@[k], has_prev, has_next, prev_link@, next_link@) by {
            let e = els@[k];
            assert(controls_placed_prev(d4, e, has_prev, prev_link@));
            if e.element_type != PagebreakElementType::Next {
                assert(!is_control_of(els@, PagebreakElementType::Next, e.element as int)) by {
                    if is_control_of(els@, PagebreakElementType::Next, e.element as int) {
                        let j = choose|j: int| 0 <= j < els@.len() && (#[trigger] els@[j]).element == e.element && els@[j].element_type == PagebreakElementType::Next;
                        if j < k {
                            assert(els@[j].element < els@[k].element);
                        } else if j > k {
                            assert(els@[k].element < els@[j].element);
                        }
                    }
                }
                assert(d6[e.element as int].attributes == d4[e.element as int].attributes);
            }
            if let Some(p) = e.parent {
                assert(d6[p as int].children.contains(e.element) ==> d4[p as int].children.contains(e.element));
            }
        }
    }
    proof {
        assert forall|k: int| 0 <= k < els@.len() && ((#[trigger] els@[k]).element_type == PagebreakElementType::Current
            || els@[k].element_type == PagebreakElementType::Total) && holds_no_control(els@, els@[k].element as int)
            implies doc@[els@[k].element as int] == d4[els@[k].element as int] by {
            lemma_only_type(els@, k, PagebreakElementType::Next);
        }
    }
}

/// The controls that lead back, as a page shows them: without a page before
/// it, `Previous` is taken out; with one, `NoPrevious` is taken out and
/// `Previous` links to that page.
pub open spec fn controls_placed_prev(d: Seq<NodeView>, e: PagebreakElement, has_prev: bool, prev_link: Seq<char>) -> bool {
    &&& (!has_prev && e.element_type == PagebreakElementType::Previous && e.parent is Some
        ==> !d[e.parent->0 as int].children.contains(e.element))
    &&& (has_prev && e.element_type == PagebreakElementType::NoPrevious && e.parent is Some
        ==> !d[e.parent->0 as int].children.contains(e.element))
    &&& (has_prev && e.element_type == PagebreakElementType::Previous
        ==> attr_value(d[e.element as int], href_attr()) == Some(prev_link))
}

/// The navigation controls as a page shows them: those leading back as
/// `controls_placed_prev` states; without a page after it, `Next` is taken
/// out; with one, `NoNext` is taken out and `Next` links to that page.
pub open spec fn controls_placed(d: Seq<NodeView>, e: PagebreakElement, has_prev: bool, has_next: bool, prev_link: Seq<char>, next_link: Seq<char>) -> bool {
    &&& controls_placed_prev(d, e, has_prev, prev_link)
    &&& (!has_next && e.element_type == PagebreakElementType::Next && e.parent is Some
        ==> !d[e.parent->0 as int].children.contains(e.element))
    &&& (has_next && e.element_type == PagebreakElementType::NoNext && e.parent is Some
        ==> !d[e.parent->0 as int].children.contains(e.element))
    &&& (has_next && e.element_type == PagebreakElementType::Next
        ==> attr_value(d[e.element as int], href_attr()) == Some(next_link))
}


/// Page `k` of the hydrated state `st` rendered: its path stays in the output
/// directory and is the page's, and its document shows the page as
/// `page_shown` states.
pub open spec fn rendered_as(st: PagebreakState, p: RenderedPage, k: int) -> bool {
    &&& !page_escapes(st.file(), st.url_format(), k as nat)
    &&& p.path@ == page_path_text(st.file(), st.url_format(), k as nat)
    &&& st.page_shown(k as nat, p.document@)
}

/// Two states with the same hydrated document and configuration.
pub open spec fn same_pages(a: PagebreakState, b: PagebreakState) -> bool {
    &&& a.file() == b.file()
    &&& a.url_format() == b.url_format()
    &&& a.meta_format() == b.meta_format()
    &&& a.page_count_spec() == b.page_count_spec()
    &&& a.per_page_spec() == b.per_page_spec()
    &&& a.container() == b.container()
    &&& a.items() == b.items()
    &&& a.controls() == b.controls()
    &&& a.pristine() == b.pristine()
    &&& a.indentation() == b.indentation()
    &&& a.indentation_node_text() == b.indentation_node_text()
}

proof fn lemma_same_pages(a: PagebreakState, b: PagebreakState, p: RenderedPage, k: int)
    requires
        same_pages(a, b),
        rendered_as(a, p, k),
    ensures
        rendered_as(b, p, k),
{
}

/// One rendered page: where it goes, and the document as the page shows it.
pub struct RenderedPage {
    pub path: String,
    pub document: Document,
}

/// The pages of one file, and the error that stopped the pagination early, if any.
pub struct PaginationOutcome {
    pub pages: Vec<RenderedPage>,
    pub error: Option<PageError>,
}

impl PagebreakState {
    /// Puts back every recorded change, the latest first, and drops the nodes
    /// that the page added: the document is the hydrated one again.
    pub fn revert_changes(&mut self)
        requires
            old(self).wf(),
        ensures
            final(self).wf(),
            final(self).settled(),
            final(self).document_view() == final(self).pristine(),
            final(self).pristine() == old(self).pristine(),
            final(self).file() == old(self).file(),
            final(self).url_format() == old(self).url_format(),
            final(self).meta_format() == old(self).meta_format(),
            final(self).container() == old(self).container(),
            final(self).items() == old(self).items(),
            final(self).controls() == old(self).controls(),
            final(self).per_page_spec() == old(self).per_page_spec(),
            final(self).page_count_spec() == old(self).page_count_spec(),
            final(self).indentation() == old(self).indentation(),
            final(self).indentation_node_text() == old(self).indentation_node_text(),
    {
        self.changes.revert(&mut self.document);
        proof {
            lemma_undo_all_len(old(self).document@, old(self).changes@);
        }
        assert(self.document@.subrange(0, self.base_len as int) == self.pristine@);
        self.document.truncate(self.base_len);
        proof {
            assert(undo_all(self.document@, self.changes@) == self.document@);
            assert(self.document@.subrange(0, self.base_len as int) =~= self.document@);
        }
    }

    /// Renders page `page`, copies the document as the page shows it, and
    /// reverts the changes.
    fn render_one(&mut self, page: usize) -> (r: Result<RenderedPage, PageError>)
        requires
            old(self).wf(),
            old(self).settled(),
            old(self).container() is Some,
            old(self).page_count_spec() matches Some(n) && page < n,
            valid_file_path(old(self).file()),
            old(self).pristine().len() <= usize::MAX / 8,
            old(self).items().len() <= usize::MAX / 8,
            old(self).controls().len() <= usize::MAX / 8,
        ensures
            final(self).wf(),
            final(self).settled(),
            final(self).pristine() == old(self).pristine(),
            final(self).file() == old(self).file(),
            final(self).url_format() == old(self).url_format(),
            final(self).container() == old(self).container(),
            final(self).items() == old(self).items(),
            final(self).controls() == old(self).controls(),
            final(self).page_count_spec() == old(self).page_count_spec(),
            same_pages(*old(self), *final(self)),
            r is Ok <==> !page_escapes(old(self).file(), old(self).url_format(), page as nat),
            r matches Ok(p) ==> rendered_as(*old(self), p, page as int),
            r matches Err(e) ==> e.relative_path@ == old(self).file() && e.code == PageErrorCode::ParentDir
                && e.message@ == crate::paths::escape_message(page_parts(old(self).file(), old(self).url_format(), page as nat)),
    {
        match self.render_page(page) {
            Ok(path) => {
                let document = self.document.duplicate();
                self.revert_changes();
                Ok(RenderedPage { path, document })
            },
            Err(e) => Err(e),
        }
    }

    /// Renders every page in turn, each from the hydrated document, and
    /// returns each page's path and document; it stops at the first page whose
    /// path leaves the output directory, keeping the pages before it. The
    /// document is the hydrated one again afterwards.
    #[verifier::rlimit(60)]
    pub fn paginate(&mut self) -> (r: PaginationOutcome)
        requires
            old(self).wf(),
            old(self).settled(),
            valid_file_path(old(self).file()),
            old(self).pristine().len() <= usize::MAX / 8,
            old(self).items().len() <= usize::MAX / 8,
            old(self).controls().len() <= usize::MAX / 8,
        ensures
            final(self).wf(),
            final(self).settled(),
            final(self).document_view() == final(self).pristine(),
            final(self).pristine() == old(self).pristine(),
            old(self).container() is None ==> r.pages@.len() == 0 && r.error is None,
            old(self).container() is Some ==> {
                let n = old(self).page_count_spec()->0;
                let f = old(self).file();
                let u = old(self).url_format();
                &&& r.pages@.len() <= n
                &&& (r.error is None <==> r.pages@.len() == n)
                &&& forall|k: int| 0 <= k < r.pages@.len() ==> rendered_as(*old(self), #[trigger] r.pages@[k], k)
                &&& (r.error matches Some(e) ==> page_escapes(f, u, r.pages@.len() as nat)
                    && e.code == PageErrorCode::ParentDir && e.relative_path@ == f
                    && e.message@ == crate::paths::escape_message(page_parts(f, u, r.pages@.len() as nat)))
            },
    {
        let mut pages: Vec<RenderedPage> = Vec::new();
        if self.page_container.is_none() {
            return PaginationOutcome { pages, error: None };
        }
        let n = self.page_count.unwrap();
        let ghost f = self.file();
        let ghost u = self.url_format();
        let mut page: usize = 0;
        while page < n
            invariant
                self.wf(),
                self.settled(),
                self.pristine() == old(self).pristine(),
                self.file() == f,
                self.url_format() == u,
                f == old(self).file(),
                u == old(self).url_format(),
                self.container() is Some,
                self.page_count_spec() == Some(n),
                n == old(self).page_count_spec()->0,
                old(self).container() is Some,
                self.items() == old(self).items(),
                self.controls() == old(self).controls(),
                valid_file_path(f),
                self.pristine().len() <= usize::MAX / 8,
                self.items().len() <= usize::MAX / 8,
                self.controls().len() <= usize::MAX / 8,
                page <= n,
                pages@.len() == page,
                same_pages(*old(self), *self),
                forall|k: int| 0 <= k < pages@.len() ==> rendered_as(*old(self), #[trigger] pages@[k], k),
            decreases n - page,
        {
            let ghost s_before = *self;
            match self.render_one(page) {
                Ok(rendered) => {
                    proof {
                        lemma_same_pages(s_before, *old(self), rendered, page as int);
                    }
                    let ghost before = pages@;
                    let ghost item = rendered;
                    pages.push(rendered);
                    proof {
                        assert(pages@[page as int] == item);
                        assert forall|k: int| 0 <= k < pages@.len() implies rendered_as(*old(self), #[trigger] pages@[k], k) by {
                            if k < before.len() {
                                assert(pages@[k] == before[k]);
                            } else {
                                assert(k == page);
                                assert(pages@[k] == item);
                            }
                        }
                    }
                    assert(pages@.len() == page + 1);
                },
                Err(e) => {
                    assert(n == old(self).page_count_spec()->0);
                    assert(f == old(self).file());
                    let r = PaginationOutcome { pages, error: Some(e) };
                    assert(r.pages@.len() == page);
                    assert(r.pages@.len() <= n);
                    return r;
                },
            }
            page = page + 1;
        }
        PaginationOutcome { pages, error: None }
    }
}


/// The page count is the ceiling of the item count over the page size: the
/// pages hold every item, the last page is not empty, a count that divides
/// evenly leaves no short page, and no items make no pages.
pub proof fn lemma_ceil_division(item_count: nat, per_page: nat)
    requires
        per_page > 0,
    ensures
        ceil_div(item_count, per_page) * per_page >= item_count,
        ceil_div(item_count, per_page) > 0 ==> (ceil_div(item_count, per_page) - 1) * per_page < item_count,
        item_count % per_page == 0 ==> ceil_div(item_count, per_page) * per_page == item_count,
        item_count == 0 ==> ceil_div(item_count, per_page) == 0,
{
    let q = item_count / per_page;
    let r = item_count % per_page;
    assert(item_count == q * per_page + r && 0 <= r < per_page) by (nonlinear_arith)
        requires per_page > 0, q == item_count / per_page, r == item_count % per_page;
    if r == 0 {
        if q > 0 {
            assert((q - 1) * per_page < item_count) by (nonlinear_arith)
                requires item_count == q * per_page, per_page > 0, q > 0;
        }
    } else {
        assert((q + 1) * per_page >= item_count) by (nonlinear_arith)
            requires item_count == q * per_page + r, r < per_page;
        assert(q * per_page < item_count) by (nonlinear_arith)
            requires item_count == q * per_page + r, r > 0;
    }
    if item_count == 0 {
        assert(q == 0);
    }
}


/// Reports what hydration found.
pub trait PagebreakStatusLogging {
    /// The line that reports the items found, the file, and the pages built.
    fn log_hydrated(&self) -> String;
}

/// `Pagebreak: Found <items> items on "<file>"; Building <pages> pages of size <per page>`.
pub open spec fn hydrated_message(items: nat, file: Seq<char>, pages: nat, per_page: nat) -> Seq<char> {
    "Pagebreak: Found "@ + decimal(items) + " items on \""@ + file + "\"; Building "@ + decimal(pages)
        + " pages of size "@ + decimal(per_page)
}

impl PagebreakStatusLogging for PagebreakState {
    fn log_hydrated(&self) -> (r: String)
        ensures
            r@ == hydrated_message(self.items().len() as nat, self.file(),
                match self.page_count_spec() { Some(n) => n as nat, None => 0 },
                match self.per_page_spec() { Some(n) => n as nat, None => 0 }),
    {
        let pages = match self.page_count { Some(n) => n, None => 0 };
        let per_page = match self.per_page { Some(n) => n, None => 0 };
        let mut r = String::from_str("Pagebreak: Found ");
        r.append(decimal_string(self.page_items.len()).as_str());
        r.append(" items on \"");
        r.append(self.file_path.as_str());
        r.append("\"; Building ");
        r.append(decimal_string(pages).as_str());
        r.append(" pages of size ");
        r.append(decimal_string(per_page).as_str());
        r
    }
}

} // verus!
