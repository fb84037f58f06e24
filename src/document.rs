//! A property-list document as plain values: dictionaries, arrays, strings
//! and data, with every other kind of value carried through unread.
use vstd::prelude::*;

verus! {

/// A property-list value, as `plist` reads and writes it.
#[verifier::external_type_specification]
#[verifier::external_body]
pub struct ExPlistValue(plist::Value);

/// A property-list document.
pub enum Document {
    /// Keys and values in their stored order.
    Dictionary(Vec<(String, Document)>),
    Array(Vec<Document>),
    Text(String),
    Data(Vec<u8>),
    /// A boolean, number, date or UID, which an archive never holds.
    Other(plist::Value),
}

/// The mathematical value of a document.
pub enum DocumentView {
    Dictionary(Seq<(Seq<char>, DocumentView)>),
    Array(Seq<DocumentView>),
    Text(Seq<char>),
    Data(Seq<u8>),
    Other,
}

pub open spec fn document_view(d: Document) -> DocumentView
    decreases d,
{
    match d {
        Document::Dictionary(es) => DocumentView::Dictionary(entries_view(es@)),
        Document::Array(items) => DocumentView::Array(documents_view(items@)),
        Document::Text(s) => DocumentView::Text(s@),
        Document::Data(b) => DocumentView::Data(b@),
        Document::Other(_) => DocumentView::Other,
    }
}

pub open spec fn entries_view(es: Seq<(String, Document)>) -> Seq<(Seq<char>, DocumentView)>
    decreases es,
{
    if es.len() == 0 {
        Seq::empty()
    } else {
        entries_view(es.drop_last()).push((es.last().0@, document_view(es.last().1)))
    }
}

pub open spec fn documents_view(items: Seq<Document>) -> Seq<DocumentView>
    decreases items,
{
    if items.len() == 0 {
        Seq::empty()
    } else {
        documents_view(items.drop_last()).push(document_view(items.last()))
    }
}

impl View for Document {
    type V = DocumentView;

    open spec fn view(&self) -> DocumentView {
        document_view(*self)
    }
}

pub proof fn lemma_entries_view(es: Seq<(String, Document)>)
    ensures
        entries_view(es).len() == es.len(),
        forall|i: int|
            0 <= i < es.len() ==> #[trigger] entries_view(es)[i] == (
            es[i].0@,
            document_view(es[i].1),
            ),
    decreases es.len(),
{
    if es.len() > 0 {
        lemma_entries_view(es.drop_last());
    }
}

pub proof fn lemma_documents_view(items: Seq<Document>)
    ensures
        documents_view(items).len() == items.len(),
        forall|i: int|
            0 <= i < items.len() ==> #[trigger] documents_view(items)[i] == document_view(items[i]),
    decreases items.len(),
{
    if items.len() > 0 {
        lemma_documents_view(items.drop_last());
    }
}


pub proof fn lemma_entries_view_push(es: Seq<(String, Document)>, e: (String, Document))
    ensures
        entries_view(es.push(e)) == entries_view(es).push((e.0@, document_view(e.1))),
{
    assert(es.push(e).drop_last() =~= es);
}

pub proof fn lemma_documents_view_push(items: Seq<Document>, d: Document)
    ensures
        documents_view(items.push(d)) == documents_view(items).push(document_view(d)),
{
    assert(items.push(d).drop_last() =~= items);
}


/// A document made of dictionaries, arrays, strings and data alone, whose
/// view therefore determines it.
pub open spec fn plain(d: DocumentView) -> bool
    decreases d,
{
    match d {
        DocumentView::Dictionary(es) => plain_entries(es),
        DocumentView::Array(items) => plain_items(items),
        DocumentView::Other => false,
        _ => true,
    }
}

pub open spec fn plain_entries(es: Seq<(Seq<char>, DocumentView)>) -> bool
    decreases es,
{
    es.len() > 0 ==> plain_entries(es.drop_last()) && plain(es.last().1)
}

pub open spec fn plain_items(items: Seq<DocumentView>) -> bool
    decreases items,
{
    items.len() > 0 ==> plain_items(items.drop_last()) && plain(items.last())
}

pub proof fn lemma_plain_entries_concat(
    a: Seq<(Seq<char>, DocumentView)>,
    b: Seq<(Seq<char>, DocumentView)>,
)
    ensures
        plain_entries(a + b) == (plain_entries(a) && plain_entries(b)),
    decreases b.len(),
{
    if b.len() == 0 {
        assert(a + b =~= a);
    } else {
        assert((a + b).drop_last() =~= a + b.drop_last());
        lemma_plain_entries_concat(a, b.drop_last());
    }
}

pub proof fn lemma_plain_entries_single(k: Seq<char>, v: DocumentView)
    ensures
        plain_entries(seq![(k, v)]) == plain(v),
{
    reveal_with_fuel(plain_entries, 2);
    assert(seq![(k, v)].drop_last() =~= Seq::<(Seq<char>, DocumentView)>::empty());
}

} // verus!
