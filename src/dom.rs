//! Reading a page's parts from its document tree.

use vstd::prelude::*;

use scraper::{ElementRef, Html, Selector};

use crate::record::{
    assemble, status_of, status_result_view, AirStatus, AirStatusView, CardFields, CardText,
    ExtractError, PageFields, PageText,
};
use crate::text::{join_trimmed, join_trimmed_parts, lemma_trimmed_is_tight, trim, trimmed};

verus! {

#[verifier::external_type_specification]
#[verifier::external_body]
pub struct ExHtml(Html);

#[verifier::external_type_specification]
#[verifier::external_body]
pub struct ExSelector(Selector);

#[verifier::external_type_specification]
#[verifier::external_body]
pub struct ExElementRef<'a>(ElementRef<'a>);

/// The document tree that HTML text parses to.
pub uninterp spec fn document_of(text: Seq<char>) -> Html;

/// The selector that a text compiles to, if it is one.
pub uninterp spec fn compiled_selector(text: Seq<char>) -> Option<Selector>;

/// The elements of a document that match a selector, in document order.
pub uninterp spec fn document_matches(document: &Html, selector: Selector) -> Seq<ElementRef>;

/// The descendants of an element that match a selector, in document order.
pub uninterp spec fn element_matches(element: ElementRef, selector: Selector) -> Seq<ElementRef>;

/// The descendant text nodes of an element, in document order.
pub uninterp spec fn texts_of(element: ElementRef) -> Seq<Seq<char>>;

/// Relies on `scraper::Html::parse_document`, which builds a document tree from
/// any text (HTML parsing recovers from errors rather than failing), the same
/// tree for the same text.
pub assume_specification[ Html::parse_document ](document: &str) -> (r: Html)
    ensures
        r == document_of(document@),
;

/// Relies on `scraper::Selector::parse`: the compiled CSS selector group, or
/// `None` where the text is no selector.
#[verifier::external_body]
fn compile_selector(text: &str) -> (r: Option<Selector>)
    ensures
        r == compiled_selector(text@),
{
    Selector::parse(text).ok()
}

/// Relies on `scraper::Html::select`: the document's elements that match the
/// selector, in document order.
#[verifier::external_body]
fn select_in_document<'a>(document: &'a Html, selector: &Selector) -> (r: Vec<ElementRef<'a>>)
    ensures
        r@ == document_matches(document, *selector),
{
    document.select(selector).collect()
}

/// Relies on `scraper::ElementRef::select`: the element's descendants that
/// match the selector, in document order.
#[verifier::external_body]
fn select_in_element<'a>(element: &ElementRef<'a>, selector: &Selector) -> (r: Vec<ElementRef<'a>>)
    ensures
        r@ == element_matches(*element, *selector),
{
    element.select(selector).collect()
}

/// Relies on `scraper::ElementRef::text`: the element's descendant text nodes,
/// in document order.
#[verifier::external_body]
fn text_nodes(element: &ElementRef) -> (r: Vec<String>)
    ensures
        r@.map_values(|p: String| p@) == texts_of(*element),
{
    element.text().map(|t| t.to_string()).collect()
}

/// The visible text of an element: its text nodes, each trimmed, concatenated.
pub open spec fn element_text(element: ElementRef) -> Seq<char> {
    join_trimmed(texts_of(element))
}

/// The visible text of the first of `elements`, or the empty text.
pub open spec fn first_text(elements: Seq<ElementRef>) -> Seq<char> {
    if elements.len() == 0 {
        Seq::empty()
    } else {
        element_text(elements[0])
    }
}

/// The visible text of an element: its text nodes, each trimmed, concatenated.
pub fn extract_text_from_element(element: &ElementRef) -> (r: String)
    ensures
        r@ == element_text(*element),
        trimmed(r@) == r@,
{
    let nodes = text_nodes(element);
    join_trimmed_parts(&nodes)
}

/// The text of the first element that matches within `element`, or the empty
/// string where none does.
fn first_text_in(element: &ElementRef, selector: &Selector) -> (r: String)
    ensures
        r@ == first_text(element_matches(*element, *selector)),
        trimmed(r@) == r@,
{
    let found = select_in_element(element, selector);
    if found.len() == 0 {
        proof {
            lemma_trimmed_is_tight(Seq::<char>::empty());
        }
        String::new()
    } else {
        extract_text_from_element(&found[0])
    }
}

/// Whether every text of a card is trimmed.
pub open spec fn card_is_trimmed(c: CardText) -> bool {
    trimmed(c.label) == c.label && trimmed(c.grade) == c.grade && trimmed(c.unit) == c.unit
}

/// Whether every text of a page's parts is trimmed.
pub open spec fn page_is_trimmed(p: PageText) -> bool {
    &&& trimmed(p.station) == p.station
    &&& trimmed(p.time) == p.time
    &&& forall|m: int| 0 <= m < p.cards.len() ==> card_is_trimmed(#[trigger] p.cards[m])
    &&& match p.script {
        Some(s) => trimmed(s) == s,
        None => true,
    }
}

/// The selectors that address the parts of a station page.
pub struct PageSelectors {
    pub station: Selector,
    pub time: Selector,
    pub card: Selector,
    pub card_label: Selector,
    pub card_grade: Selector,
    pub card_unit: Selector,
    pub script: Selector,
}

/// The page's selectors, compiled; none if one of them does not compile.
pub open spec fn page_selectors_spec() -> Option<PageSelectors> {
    match (
        compiled_selector("h1>.tit"@),
        compiled_selector("h1>.tim"@),
        compiled_selector("div[class^=mList]>ul>li"@),
        compiled_selector(".tit"@),
        compiled_selector(".con>.co>.tx>.t1"@),
        compiled_selector(".con>.co>.tx>.t1>sub"@),
        compiled_selector("body>script:last-child"@),
    ) {
        (
            Some(station),
            Some(time),
            Some(card),
            Some(card_label),
            Some(card_grade),
            Some(card_unit),
            Some(script),
        ) => Some(PageSelectors { station, time, card, card_label, card_grade, card_unit, script }),
        _ => None,
    }
}

/// Compiles the page's selectors; none if one does not compile.
fn page_selectors() -> (r: Option<PageSelectors>)
    ensures
        r == page_selectors_spec(),
{
    let station = compile_selector("h1>.tit");
    let time = compile_selector("h1>.tim");
    let card = compile_selector("div[class^=mList]>ul>li");
    let card_label = compile_selector(".tit");
    let card_grade = compile_selector(".con>.co>.tx>.t1");
    let card_unit = compile_selector(".con>.co>.tx>.t1>sub");
    let script = compile_selector("body>script:last-child");
    match (station, time, card, card_label, card_grade, card_unit, script) {
        (
            Some(station),
            Some(time),
            Some(card),
            Some(card_label),
            Some(card_grade),
            Some(card_unit),
            Some(script),
        ) => Some(PageSelectors { station, time, card, card_label, card_grade, card_unit, script }),
        _ => None,
    }
}

/// The station's address: the first text node of the first heading title,
/// trimmed; empty where there is none.
pub open spec fn station_text(headings: Seq<ElementRef>) -> Seq<char> {
    if headings.len() == 0 || texts_of(headings[0]).len() == 0 {
        Seq::empty()
    } else {
        trimmed(texts_of(headings[0])[0])
    }
}

/// The text of one pollutant block.
pub open spec fn card_text_of(block: ElementRef, sel: PageSelectors) -> CardText {
    CardText {
        label: first_text(element_matches(block, sel.card_label)),
        grade: first_text(element_matches(block, sel.card_grade)),
        unit: first_text(element_matches(block, sel.card_unit)),
    }
}

/// A page's parts as the selectors find them in the document.
pub open spec fn page_text_of(document: &Html, sel: PageSelectors) -> PageText {
    let scripts = document_matches(document, sel.script);
    PageText {
        station: station_text(document_matches(document, sel.station)),
        time: first_text(document_matches(document, sel.time)),
        cards: document_matches(document, sel.card).map_values(
            |b: ElementRef| card_text_of(b, sel),
        ),
        script: if scripts.len() == 0 {
            None
        } else {
            Some(element_text(scripts[0]))
        },
    }
}

/// The view of a reading of a page's parts.
pub open spec fn fields_result_view(r: Result<PageFields, ExtractError>) -> Result<
    PageText,
    ExtractError,
> {
    match r {
        Ok(f) => Ok(f@),
        Err(e) => Err(e),
    }
}

/// The status that a document holds.
pub open spec fn document_status(document: &Html) -> Result<AirStatusView, ExtractError> {
    match page_selectors_spec() {
        Some(sel) => status_of(page_text_of(document, sel)),
        None => Err(ExtractError::InvalidSelector),
    }
}

/// Reads a station page's parts: the station's address (the first text of its
/// heading, trimmed), the observation time, one card per repeated pollutant
/// block with its label, status word and unit, and the text of the page's
/// last script. A part the page lacks reads as the empty string; only the
/// script's absence is kept as such. Every text read is trimmed.
pub fn read_fields(document: &Html) -> (r: Result<PageFields, ExtractError>)
    ensures
        fields_result_view(r) == match page_selectors_spec() {
            Some(sel) => Ok(page_text_of(document, sel)),
            None => Err(ExtractError::InvalidSelector),
        },
        r is Ok ==> page_is_trimmed(r->Ok_0@),
{
    proof {
        lemma_trimmed_is_tight(Seq::<char>::empty());
    }
    let sel = match page_selectors() {
        Some(s) => s,
        None => {
            return Err(ExtractError::InvalidSelector);
        },
    };
    let headings = select_in_document(document, &sel.station);
    let station = if headings.len() == 0 {
        String::new()
    } else {
        let nodes = text_nodes(&headings[0]);
        if nodes.len() == 0 {
            String::new()
        } else {
            trim(nodes[0].as_str())
        }
    };
    let times = select_in_document(document, &sel.time);
    let time = if times.len() == 0 {
        String::new()
    } else {
        extract_text_from_element(&times[0])
    };
    let blocks = select_in_document(document, &sel.card);
    let ghost want = blocks@.map_values(|b: ElementRef| card_text_of(b, sel));
    let mut cards: Vec<CardFields> = Vec::new();
    let mut k: usize = 0;
    while k < blocks.len()
        invariant
            k <= blocks@.len(),
            want == blocks@.map_values(|b: ElementRef| card_text_of(b, sel)),
            cards@.len() == k,
            forall|m: int| 0 <= m < k ==> #[trigger] cards@[m]@ == want[m],
            forall|m: int| 0 <= m < cards@.len() ==> card_is_trimmed(#[trigger] cards@[m]@),
        decreases blocks@.len() - k,
    {
        let block = &blocks[k];
        cards.push(
            CardFields {
                label: first_text_in(block, &sel.card_label),
                grade: first_text_in(block, &sel.card_grade),
                unit: first_text_in(block, &sel.card_unit),
            },
        );
        k = k + 1;
    }
    let scripts = select_in_document(document, &sel.script);
    let script = if scripts.len() == 0 {
        None
    } else {
        Some(extract_text_from_element(&scripts[0]))
    };
    let fields = PageFields { station, time, cards, script };
    assert(fields@.cards =~= want);
    assert(page_is_trimmed(fields@));
    assert(fields@ == page_text_of(document, sel));
    Ok(fields)
}

/// Reads the status of a station page: its parts as `read_fields` finds them,
/// put together by `assemble`. The status depends on the document alone.
pub fn parse(document: &Html) -> (r: Result<AirStatus, ExtractError>)
    ensures
        status_result_view(r) == document_status(document),
{
    let fields = match read_fields(document) {
        Ok(f) => f,
        Err(e) => {
            return Err(e);
        },
    };
    assemble(&fields)
}

/// Reads the status of a station page from its HTML text. The status depends
/// on the text alone.
pub fn parse_page(body: &str) -> (r: Result<AirStatus, ExtractError>)
    ensures
        status_result_view(r) == document_status(&document_of(body@)),
{
    let document = Html::parse_document(body);
    parse(&document)
}

} // verus!
