//! What is read from HTML.

use crate::text;
use vstd::prelude::*;

verus! {

/// An element of an HTML document: the value of one of its attributes, and the
/// text inside it.
#[derive(Debug)]
pub struct Element {
    /// The attribute's value.
    pub value: Option<String>,
    /// The text inside the element.
    pub text: String,
}

impl View for Element {
    type V = (Option<Seq<char>>, Seq<char>);

    open spec fn view(&self) -> (Option<Seq<char>>, Seq<char>) {
        (text::opt_text(self.value), self.text@)
    }
}

/// The views of the elements.
pub open spec fn element_views(elements: Seq<Element>) -> Seq<(Option<Seq<char>>, Seq<char>)> {
    elements.map_values(|element: Element| element@)
}

/// The text of an HTML document.
pub uninterp spec fn html_text(html: Seq<char>) -> Seq<char>;

/// The elements of an HTML document that a selector matches, each with the
/// value of an attribute and the text inside it; nothing if the selector is
/// none.
pub uninterp spec fn html_elements(
    html: Seq<char>,
    selector: Seq<char>,
    attribute: Seq<char>,
) -> Option<Seq<(Option<Seq<char>>, Seq<char>)>>;

/// The matched elements by their views.
pub open spec fn matches_view(r: Option<Vec<Element>>) -> Option<
    Seq<(Option<Seq<char>>, Seq<char>)>,
> {
    match r {
        Some(elements) => Some(element_views(elements@)),
        None => None,
    }
}

/// `scraper::Html::parse_document` with the text nodes of the root element one
/// after the other, from `ElementRef::text`. Every text parses, to a document
/// with a root element. The result depends on the text alone and is named
/// [`html_text`].
#[verifier::external_body]
pub(crate) fn html_to_text(html: &str) -> (r: String)
    ensures
        r@ == html_text(html@),
{
    scraper::Html::parse_document(html).root_element().text().collect()
}

/// `scraper::Html::select` on what `scraper::Html::parse_document` gives: for
/// each element matched, the attribute of that name, from `Element::attr`, and
/// its text nodes one after the other, from `ElementRef::text`. The result
/// depends on the arguments alone and is named [`html_elements`].
#[verifier::external_body]
pub(crate) fn select_elements(html: &str, selector: &str, attribute: &str) -> (r: Option<
    Vec<Element>,
>)
    ensures
        matches_view(r) == html_elements(html@, selector@, attribute@),
{
    let selector = scraper::Selector::parse(selector).ok()?;
    let document = scraper::Html::parse_document(html);
    let elements = document.select(&selector).map(|e| Element {
        value: e.value().attr(attribute).map(str::to_string),
        text: e.text().collect(),
    });
    Some(elements.collect())
}

/// Law: elements are held as the values of their attributes and their texts, each in its
/// place.
pub proof fn law_element_views(elements: Seq<Element>)
    ensures
        element_views(elements).len() == elements.len(),
        forall|i: int|
            0 <= i < elements.len() ==> #[trigger] element_views(elements)[i] == (
                text::opt_text(elements[i].value),
                elements[i].text@,
            ),
{
}

} // verus!
