//! HTML documents read with `scraper`. An element is reached from its
//! document by a path of steps, and what `scraper` gives for an element is
//! named over the document's text and that path.

use vstd::prelude::*;
use scraper::{ElementRef, Html, Selector};

verus! {

#[verifier::external_type_specification]
#[verifier::external_body]
pub struct ExHtml(Html);

#[verifier::external_type_specification]
#[verifier::external_body]
pub struct ExSelector(Selector);

#[verifier::external_type_specification]
#[verifier::external_body]
pub struct ExElementRef<'a>(ElementRef<'a>);

/// One step from a document or an element to an element.
#[derive(Debug, Clone)]
pub enum Step {
    /// The `index`-th element of the document that matches `css`.
    InDocument { css: String, index: usize },
    /// The `index`-th descendant of the element that matches `css`.
    Within { css: String, index: usize },
    /// The `index`-th child of the element that is an element.
    Child { index: usize },
}

/// The plain content of a [`Step`].
pub enum StepView {
    InDocument { css: Seq<char>, index: nat },
    Within { css: Seq<char>, index: nat },
    Child { index: nat },
}

impl View for Step {
    type V = StepView;

    open spec fn view(&self) -> StepView {
        match self {
            Step::InDocument { css, index } => StepView::InDocument { css: css@, index: *index as nat },
            Step::Within { css, index } => StepView::Within { css: css@, index: *index as nat },
            Step::Child { index } => StepView::Child { index: *index as nat },
        }
    }
}

/// The plain content of a path.
pub open spec fn path_view(path: Seq<Step>) -> Seq<StepView> {
    path.map_values(|s: Step| s@)
}

/// Whether `Selector::parse` accepts `css` as a CSS selector group.
pub uninterp spec fn css_accepted(css: Seq<char>) -> bool;

/// How many elements `Html::select` finds with `css` in the document parsed
/// from `document` by `Html::parse_document`.
pub uninterp spec fn document_match_count(document: Seq<char>, css: Seq<char>) -> nat;

/// How many descendants `ElementRef::select` finds with `css` under the
/// element at `path` of the document parsed from `document`.
pub uninterp spec fn element_match_count(
    document: Seq<char>,
    path: Seq<StepView>,
    css: Seq<char>,
) -> nat;

/// How many children `ElementRef::child_elements` finds under the element at
/// `path` of the document parsed from `document`.
pub uninterp spec fn element_child_count(document: Seq<char>, path: Seq<StepView>) -> nat;

/// The text nodes `ElementRef::text` yields under the element at `path` of
/// the document parsed from `document`, in order.
pub uninterp spec fn element_text_nodes(document: Seq<char>, path: Seq<StepView>) -> Seq<
    Seq<char>,
>;

/// An HTML document and the text it was parsed from.
pub struct Document {
    source: String,
    html: Html,
}

impl Document {
    /// The text the document was parsed from.
    pub closed spec fn source(&self) -> Seq<char> {
        self.source@
    }
}

/// A CSS selector group and its text.
pub struct Css {
    text: String,
    selector: Selector,
}

impl Css {
    /// The text of the selector group.
    pub closed spec fn text(&self) -> Seq<char> {
        self.text@
    }
}

/// An element of a document and the path that reaches it.
pub struct Node<'a> {
    source: &'a str,
    element: ElementRef<'a>,
    path: Vec<Step>,
}

impl<'a> Node<'a> {
    /// The text of the element's document.
    pub closed spec fn source(&self) -> Seq<char> {
        self.source@
    }

    /// The path from the document to the element.
    pub closed spec fn path(&self) -> Seq<StepView> {
        path_view(self.path@)
    }
}

/// `scraper::Html::parse_document`: the document `source` denotes, kept with
/// its text.
#[verifier::external_body]
pub fn parse_document(source: &str) -> (r: Document)
    ensures
        r.source() == source@,
{
    Document { source: source.to_string(), html: Html::parse_document(source) }
}

/// `scraper::Selector::parse`: the selector group `css` denotes, if `css` is
/// one; which texts are accepted is a function of the text alone.
#[verifier::external_body]
pub fn parse_selector(css: &str) -> (r: Option<Css>)
    ensures
        r is Some <==> css_accepted(css@),
        r matches Some(c) ==> c.text() == css@,
{
    Selector::parse(css).ok().map(|selector| Css { text: css.to_string(), selector })
}

/// `scraper::Html::select`: the elements of `document` that match `css`, in
/// document order; the `i`-th is reached by the step `InDocument(css, i)`.
#[verifier::external_body]
pub fn select_in_document<'a>(document: &'a Document, css: &Css) -> (r: Vec<Node<'a>>)
    ensures
        r@.len() == document_match_count(document.source(), css.text()),
        forall|i: int|
            0 <= i < r@.len() ==> (#[trigger] r@[i]).source() == document.source() && r@[i].path()
                == seq![StepView::InDocument { css: css.text(), index: i as nat }],
{
    document.html.select(&css.selector).enumerate().map(|(index, element)| Node {
        source: document.source.as_str(),
        element,
        path: vec![Step::InDocument { css: css.text.clone(), index }],
    }).collect()
}

/// `scraper::ElementRef::select`: the descendants of `node` that match `css`,
/// in document order; the `i`-th is reached by one more step `Within(css, i)`.
#[verifier::external_body]
pub fn select_in_element<'a>(node: &Node<'a>, css: &Css) -> (r: Vec<Node<'a>>)
    ensures
        r@.len() == element_match_count(node.source(), node.path(), css.text()),
        forall|i: int|
            0 <= i < r@.len() ==> (#[trigger] r@[i]).source() == node.source() && r@[i].path()
                == node.path().push(StepView::Within { css: css.text(), index: i as nat }),
{
    node.element.select(&css.selector).enumerate().map(|(index, element)| {
        let mut path = node.path.clone();
        path.push(Step::Within { css: css.text.clone(), index });
        Node { source: node.source, element, path }
    }).collect()
}

/// `scraper::ElementRef::child_elements`: the children of `node` that are
/// elements, in order; the `i`-th is reached by one more step `Child(i)`.
#[verifier::external_body]
pub fn child_elements<'a>(node: &Node<'a>) -> (r: Vec<Node<'a>>)
    ensures
        r@.len() == element_child_count(node.source(), node.path()),
        forall|i: int|
            0 <= i < r@.len() ==> (#[trigger] r@[i]).source() == node.source() && r@[i].path()
                == node.path().push(StepView::Child { index: i as nat }),
{
    node.element.child_elements().enumerate().map(|(index, element)| {
        let mut path = node.path.clone();
        path.push(Step::Child { index });
        Node { source: node.source, element, path }
    }).collect()
}

/// `scraper::ElementRef::text`: the text nodes under `node`, in document order.
#[verifier::external_body]
pub fn text_nodes(node: &Node) -> (r: Vec<String>)
    ensures
        r@.map_values(|s: String| s@) == element_text_nodes(node.source(), node.path()),
{
    node.element.text().map(|t| t.to_string()).collect()
}

} // verus!
