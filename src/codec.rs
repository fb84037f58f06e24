//! The mapping between archives and property-list documents, in both
//! directions, with a strict schema on the way in.
use vstd::prelude::*;
use vstd::slice::slice_to_vec;
use vstd::string::StringExecFns;
use crate::document::{
    Document, DocumentView, documents_view, entries_view, lemma_documents_view,
    lemma_documents_view_push, lemma_entries_view, lemma_plain_entries_concat,
    lemma_plain_entries_single, plain, plain_items,
    lemma_entries_view_push,
};
use crate::model::{
    ArchiveView, ResourceView, WebArchive, WebResource, archive_views, lemma_archive_views,
    resource_views,
};

verus! {

/// Why a document is not an archive.
#[derive(Debug, Clone, Copy, PartialEq, Eq, Structural)]
pub enum DecodeError {
    /// A dictionary holds a key that its schema does not define.
    UnknownKey,
    /// A required key is missing.
    MissingKey,
    /// A value has the wrong kind (a string where a dictionary was expected, ...).
    WrongType,
}

pub open spec fn key_main_resource() -> Seq<char> {
    "WebMainResource"@
}

pub open spec fn key_subresources() -> Seq<char> {
    "WebSubresources"@
}

pub open spec fn key_subframe_archives() -> Seq<char> {
    "WebSubframeArchives"@
}

pub open spec fn key_data() -> Seq<char> {
    "WebResourceData"@
}

pub open spec fn key_url() -> Seq<char> {
    "WebResourceURL"@
}

pub open spec fn key_frame_name() -> Seq<char> {
    "WebResourceFrameName"@
}

pub open spec fn key_mime_type() -> Seq<char> {
    "WebResourceMIMEType"@
}

pub open spec fn key_text_encoding_name() -> Seq<char> {
    "WebResourceTextEncodingName"@
}

pub open spec fn key_response() -> Seq<char> {
    "WebResourceResponse"@
}

pub open spec fn archive_keys() -> Set<Seq<char>> {
    set![key_main_resource(), key_subresources(), key_subframe_archives()]
}

pub open spec fn resource_keys() -> Set<Seq<char>> {
    set![
        key_data(),
        key_url(),
        key_frame_name(),
        key_mime_type(),
        key_text_encoding_name(),
        key_response(),
    ]
}

/// Every key of a dictionary is one of `allowed`.
pub open spec fn keys_within(es: Seq<(Seq<char>, DocumentView)>, allowed: Set<Seq<char>>) -> bool {
    forall|i: int| 0 <= i < es.len() ==> allowed.contains(#[trigger] es[i].0)
}

/// The value stored under `key`; where the key occurs twice, the later one.
pub open spec fn lookup(es: Seq<(Seq<char>, DocumentView)>, key: Seq<char>) -> Option<DocumentView>
    decreases es.len(),
{
    if es.len() == 0 {
        None
    } else if es.last().0 == key {
        Some(es.last().1)
    } else {
        lookup(es.drop_last(), key)
    }
}

/// A stored string read as an optional one: the empty string means absent.
pub open spec fn text_or_absent(s: Seq<char>) -> Option<Seq<char>> {
    if s.len() == 0 {
        None
    } else {
        Some(s)
    }
}

pub open spec fn field_data(es: Seq<(Seq<char>, DocumentView)>, key: Seq<char>) -> Result<Seq<u8>, DecodeError> {
    match lookup(es, key) {
        Some(DocumentView::Data(b)) => Ok(b),
        Some(_) => Err(DecodeError::WrongType),
        None => Err(DecodeError::MissingKey),
    }
}

pub open spec fn field_text(es: Seq<(Seq<char>, DocumentView)>, key: Seq<char>) -> Result<Seq<char>, DecodeError> {
    match lookup(es, key) {
        Some(DocumentView::Text(s)) => Ok(s),
        Some(_) => Err(DecodeError::WrongType),
        None => Err(DecodeError::MissingKey),
    }
}

pub open spec fn field_optional_text(es: Seq<(Seq<char>, DocumentView)>, key: Seq<char>) -> Result<Option<Seq<char>>, DecodeError> {
    match lookup(es, key) {
        Some(DocumentView::Text(s)) => Ok(text_or_absent(s)),
        Some(_) => Err(DecodeError::WrongType),
        None => Ok(None),
    }
}

pub open spec fn field_optional_data(es: Seq<(Seq<char>, DocumentView)>, key: Seq<char>) -> Result<Option<Seq<u8>>, DecodeError> {
    match lookup(es, key) {
        Some(DocumentView::Data(b)) => Ok(Some(b)),
        Some(_) => Err(DecodeError::WrongType),
        None => Ok(None),
    }
}

/// Decoding one resource. Unknown keys are reported first, then the fields
/// in the order data, URL, frame name, MIME type, text encoding, response.
pub open spec fn decode_resource(d: DocumentView) -> Result<ResourceView, DecodeError> {
    match d {
        DocumentView::Dictionary(es) => {
            let data = field_data(es, key_data());
            let url = field_text(es, key_url());
            let frame_name = field_optional_text(es, key_frame_name());
            let mime_type = field_text(es, key_mime_type());
            let text_encoding_name = field_optional_text(es, key_text_encoding_name());
            let response = field_optional_data(es, key_response());
            if !keys_within(es, resource_keys()) {
                Err(DecodeError::UnknownKey)
            } else if data is Err {
                Err(data->Err_0)
            } else if url is Err {
                Err(url->Err_0)
            } else if frame_name is Err {
                Err(frame_name->Err_0)
            } else if mime_type is Err {
                Err(mime_type->Err_0)
            } else if text_encoding_name is Err {
                Err(text_encoding_name->Err_0)
            } else if response is Err {
                Err(response->Err_0)
            } else {
                Ok(
                    ResourceView {
                        data: data->Ok_0,
                        url: url->Ok_0,
                        frame_name: frame_name->Ok_0,
                        mime_type: mime_type->Ok_0,
                        text_encoding_name: text_encoding_name->Ok_0,
                        response: response->Ok_0,
                    },
                )
            }
        },
        _ => Err(DecodeError::WrongType),
    }
}

/// Decoding a list of resources: the first failure in list order, if any.
pub open spec fn decode_resources(items: Seq<DocumentView>) -> Result<Seq<ResourceView>, DecodeError>
    decreases items.len(),
{
    if items.len() == 0 {
        Ok(Seq::empty())
    } else {
        match decode_resources(items.drop_last()) {
            Err(e) => Err(e),
            Ok(rs) => match decode_resource(items.last()) {
                Err(e) => Err(e),
                Ok(r) => Ok(rs.push(r)),
            },
        }
    }
}

/// Decoding an optional list of resources stored under a key.
pub open spec fn decode_resource_list(v: Option<DocumentView>) -> Result<Option<Seq<ResourceView>>, DecodeError> {
    match v {
        None => Ok(None),
        Some(DocumentView::Array(items)) => match decode_resources(items) {
            Ok(rs) => Ok(Some(rs)),
            Err(e) => Err(e),
        },
        Some(_) => Err(DecodeError::WrongType),
    }
}

/// Decoding an archive. Unknown keys are reported first, then the main
/// resource, the subresources and the subframe archives, in that order.
pub open spec fn decode_archive(d: DocumentView) -> Result<ArchiveView, DecodeError>
    decreases d,
    via decode_archive_decreases
{
    match d {
        DocumentView::Dictionary(es) => {
            let main = match lookup(es, key_main_resource()) {
                Some(m) => decode_resource(m),
                None => Err(DecodeError::MissingKey),
            };
            let subresources = decode_resource_list(lookup(es, key_subresources()));
            let frames = match lookup(es, key_subframe_archives()) {
                None => Ok(None),
                Some(DocumentView::Array(items)) => match decode_archives(items) {
                    Ok(archives) => Ok(Some(archives)),
                    Err(e) => Err(e),
                },
                Some(_) => Err(DecodeError::WrongType),
            };
            if !keys_within(es, archive_keys()) {
                Err(DecodeError::UnknownKey)
            } else if main is Err {
                Err(main->Err_0)
            } else if subresources is Err {
                Err(subresources->Err_0)
            } else if frames is Err {
                Err(frames->Err_0)
            } else {
                Ok(
                    ArchiveView {
                        main_resource: main->Ok_0,
                        subresources: subresources->Ok_0,
                        subframe_archives: frames->Ok_0,
                    },
                )
            }
        },
        _ => Err(DecodeError::WrongType),
    }
}

/// Decoding a list of archives: the first failure in list order, if any.
pub open spec fn decode_archives(items: Seq<DocumentView>) -> Result<Seq<ArchiveView>, DecodeError>
    decreases items,
{
    if items.len() == 0 {
        Ok(Seq::empty())
    } else {
        match decode_archives(items.drop_last()) {
            Err(e) => Err(e),
            Ok(archives) => match decode_archive(items.last()) {
                Err(e) => Err(e),
                Ok(a) => Ok(archives.push(a)),
            },
        }
    }
}

/// A value found by `lookup` is smaller than the dictionary it was found in.
pub proof fn lemma_lookup_decreases(es: Seq<(Seq<char>, DocumentView)>, key: Seq<char>)
    ensures
        lookup(es, key) matches Some(v) ==> decreases_to!(es => v),
    decreases es.len(),
{
    if es.len() > 0 {
        let i = es.len() - 1;
        assert(decreases_to!(es => es[i]));
        assert(decreases_to!(es[i] => es[i].1));
        if es.last().0 != key {
            lemma_lookup_decreases(es.drop_last(), key);
            assert(decreases_to!(es => es.drop_last()));
        }
    }
}

#[via_fn]
proof fn decode_archive_decreases(d: DocumentView) {
    if let DocumentView::Dictionary(es) = d {
        lemma_lookup_decreases(es, key_subframe_archives());
        assert(decreases_to!(d => es));
        if let Some(DocumentView::Array(items)) = lookup(es, key_subframe_archives()) {
            let v = lookup(es, key_subframe_archives())->0;
            assert(decreases_to!(v => items));
        }
    }
}


pub open spec fn optional_text_entry(key: Seq<char>, v: Option<Seq<char>>) -> Seq<(Seq<char>, DocumentView)> {
    match v {
        Some(s) => seq![(key, DocumentView::Text(s))],
        None => Seq::empty(),
    }
}

pub open spec fn optional_data_entry(key: Seq<char>, v: Option<Seq<u8>>) -> Seq<(Seq<char>, DocumentView)> {
    match v {
        Some(b) => seq![(key, DocumentView::Data(b))],
        None => Seq::empty(),
    }
}

/// The entries of an encoded resource: data and URL, the frame name if
/// present, the MIME type, then the text encoding and the response if present.
pub open spec fn resource_entries(r: ResourceView) -> Seq<(Seq<char>, DocumentView)> {
    seq![(key_data(), DocumentView::Data(r.data))]
        + seq![(key_url(), DocumentView::Text(r.url))]
        + optional_text_entry(key_frame_name(), r.frame_name)
        + seq![(key_mime_type(), DocumentView::Text(r.mime_type))]
        + optional_text_entry(key_text_encoding_name(), r.text_encoding_name)
        + optional_data_entry(key_response(), r.response)
}

pub open spec fn encode_resource(r: ResourceView) -> DocumentView {
    DocumentView::Dictionary(resource_entries(r))
}

pub open spec fn encode_resources(s: Seq<ResourceView>) -> Seq<DocumentView> {
    Seq::new(s.len(), |i: int| encode_resource(s[i]))
}

pub open spec fn subresources_entry(v: Option<Seq<ResourceView>>) -> Seq<(Seq<char>, DocumentView)> {
    match v {
        Some(s) => seq![(key_subresources(), DocumentView::Array(encode_resources(s)))],
        None => Seq::empty(),
    }
}

/// An encoded archive: the main resource, then each list that is present.
/// An absent list has no key at all.
pub open spec fn encode_archive(a: ArchiveView) -> DocumentView
    decreases a,
{
    DocumentView::Dictionary(
        seq![(key_main_resource(), encode_resource(a.main_resource))]
            + subresources_entry(a.subresources)
            + match a.subframe_archives {
                Some(s) => seq![(key_subframe_archives(), DocumentView::Array(encode_archives(s)))],
                None => Seq::empty(),
            },
    )
}

pub open spec fn encode_archives(s: Seq<ArchiveView>) -> Seq<DocumentView>
    decreases s,
{
    if s.len() == 0 {
        Seq::empty()
    } else {
        encode_archives(s.drop_last()).push(encode_archive(s.last()))
    }
}

/// A resource whose optional strings, where present, are not empty: the
/// resources that decoding can give back.
pub open spec fn resource_round_trips(r: ResourceView) -> bool {
    &&& r.frame_name != Some(Seq::<char>::empty())
    &&& r.text_encoding_name != Some(Seq::<char>::empty())
}

pub open spec fn archive_round_trips(a: ArchiveView) -> bool
    decreases a,
{
    &&& resource_round_trips(a.main_resource)
    &&& (a.subresources matches Some(s) ==> forall|i: int|
        0 <= i < s.len() ==> resource_round_trips(#[trigger] s[i]))
    &&& (a.subframe_archives matches Some(s) ==> archives_round_trip(s))
}

pub open spec fn archives_round_trip(s: Seq<ArchiveView>) -> bool
    decreases s,
{
    s.len() > 0 ==> archives_round_trip(s.drop_last()) && archive_round_trips(s.last())
}

proof fn lemma_keys_distinct()
    ensures
        key_main_resource() != key_subresources(),
        key_main_resource() != key_subframe_archives(),
        key_subresources() != key_subframe_archives(),
        key_data() != key_url(),
        key_data() != key_frame_name(),
        key_data() != key_mime_type(),
        key_data() != key_text_encoding_name(),
        key_data() != key_response(),
        key_url() != key_frame_name(),
        key_url() != key_mime_type(),
        key_url() != key_text_encoding_name(),
        key_url() != key_response(),
        key_frame_name() != key_mime_type(),
        key_frame_name() != key_text_encoding_name(),
        key_frame_name() != key_response(),
        key_mime_type() != key_text_encoding_name(),
        key_mime_type() != key_response(),
        key_text_encoding_name() != key_response(),
{
    reveal_strlit("WebMainResource");
    reveal_strlit("WebSubresources");
    reveal_strlit("WebSubframeArchives");
    reveal_strlit("WebResourceData");
    reveal_strlit("WebResourceURL");
    reveal_strlit("WebResourceFrameName");
    reveal_strlit("WebResourceMIMEType");
    reveal_strlit("WebResourceTextEncodingName");
    reveal_strlit("WebResourceResponse");
    assert(key_main_resource()[6] == 'n');
    assert(key_subresources()[6] == 'r');
    assert(key_subframe_archives()[6] == 'f');
    assert(key_data()[11] == 'D');
    assert(key_url()[11] == 'U');
    assert(key_frame_name()[11] == 'F');
    assert(key_mime_type()[11] == 'M');
    assert(key_text_encoding_name()[11] == 'T');
    assert(key_response()[11] == 'R');
}

/// Looking a key up in two lists of entries put together: the second list
/// wins.
pub proof fn lemma_lookup_concat(
    a: Seq<(Seq<char>, DocumentView)>,
    b: Seq<(Seq<char>, DocumentView)>,
    key: Seq<char>,
)
    ensures
        lookup(a + b, key) == match lookup(b, key) {
            Some(v) => Some(v),
            None => lookup(a, key),
        },
    decreases b.len(),
{
    if b.len() == 0 {
        assert(a + b =~= a);
    } else {
        assert((a + b).drop_last() =~= a + b.drop_last());
        lemma_lookup_concat(a, b.drop_last(), key);
    }
}

pub proof fn lemma_lookup_single(k: Seq<char>, v: DocumentView, key: Seq<char>)
    ensures
        lookup(seq![(k, v)], key) == if k == key {
            Some(v)
        } else {
            None::<DocumentView>
        },
{
    reveal_with_fuel(lookup, 2);
    assert(seq![(k, v)].drop_last() =~= Seq::<(Seq<char>, DocumentView)>::empty());
}

pub proof fn lemma_keys_within_concat(
    a: Seq<(Seq<char>, DocumentView)>,
    b: Seq<(Seq<char>, DocumentView)>,
    allowed: Set<Seq<char>>,
)
    ensures
        keys_within(a + b, allowed) == (keys_within(a, allowed) && keys_within(b, allowed)),
{
    if keys_within(a, allowed) && keys_within(b, allowed) {
        assert forall|i: int| 0 <= i < (a + b).len() implies allowed.contains(#[trigger] (a + b)[i].0) by {
            if i >= a.len() {
                assert((a + b)[i] == b[i - a.len()]);
            }
        }
    }
    if keys_within(a + b, allowed) {
        assert forall|i: int| 0 <= i < a.len() implies allowed.contains(#[trigger] a[i].0) by {
            assert((a + b)[i] == a[i]);
        }
        assert forall|i: int| 0 <= i < b.len() implies allowed.contains(#[trigger] b[i].0) by {
            assert((a + b)[i + a.len()] == b[i]);
        }
    }
}

proof fn lemma_resource_entries(r: ResourceView, key: Seq<char>)
    ensures
        keys_within(resource_entries(r), resource_keys()),
        lookup(resource_entries(r), key) == if key == key_data() {
            Some(DocumentView::Data(r.data))
        } else if key == key_url() {
            Some(DocumentView::Text(r.url))
        } else if key == key_frame_name() {
            match r.frame_name {
                Some(s) => Some(DocumentView::Text(s)),
                None => None,
            }
        } else if key == key_mime_type() {
            Some(DocumentView::Text(r.mime_type))
        } else if key == key_text_encoding_name() {
            match r.text_encoding_name {
                Some(s) => Some(DocumentView::Text(s)),
                None => None,
            }
        } else if key == key_response() {
            match r.response {
                Some(b) => Some(DocumentView::Data(b)),
                None => None,
            }
        } else {
            None
        },
{
    lemma_keys_distinct();
    let e1 = seq![(key_data(), DocumentView::Data(r.data))];
    let e2 = seq![(key_url(), DocumentView::Text(r.url))];
    let e3 = optional_text_entry(key_frame_name(), r.frame_name);
    let e4 = seq![(key_mime_type(), DocumentView::Text(r.mime_type))];
    let e5 = optional_text_entry(key_text_encoding_name(), r.text_encoding_name);
    let e6 = optional_data_entry(key_response(), r.response);
    let rk = resource_keys();
    lemma_lookup_concat(e1 + e2 + e3 + e4 + e5, e6, key);
    lemma_lookup_concat(e1 + e2 + e3 + e4, e5, key);
    lemma_lookup_concat(e1 + e2 + e3, e4, key);
    lemma_lookup_concat(e1 + e2, e3, key);
    lemma_lookup_concat(e1, e2, key);
    lemma_lookup_single(key_data(), DocumentView::Data(r.data), key);
    lemma_lookup_single(key_url(), DocumentView::Text(r.url), key);
    lemma_lookup_single(key_mime_type(), DocumentView::Text(r.mime_type), key);
    if let Some(s) = r.frame_name {
        lemma_lookup_single(key_frame_name(), DocumentView::Text(s), key);
    }
    if let Some(s) = r.text_encoding_name {
        lemma_lookup_single(key_text_encoding_name(), DocumentView::Text(s), key);
    }
    if let Some(b) = r.response {
        lemma_lookup_single(key_response(), DocumentView::Data(b), key);
    }
    lemma_keys_within_concat(e1 + e2 + e3 + e4 + e5, e6, rk);
    lemma_keys_within_concat(e1 + e2 + e3 + e4, e5, rk);
    lemma_keys_within_concat(e1 + e2 + e3, e4, rk);
    lemma_keys_within_concat(e1 + e2, e3, rk);
    lemma_keys_within_concat(e1, e2, rk);
}

/// Encoding a resource and decoding the result gives the resource back,
/// where its optional strings are absent or non-empty.
pub proof fn lemma_resource_round_trip(r: ResourceView)
    requires
        resource_round_trips(r),
    ensures
        decode_resource(encode_resource(r)) == Ok::<ResourceView, DecodeError>(r),
{
    lemma_keys_distinct();
    lemma_resource_entries(r, key_data());
    lemma_resource_entries(r, key_url());
    lemma_resource_entries(r, key_frame_name());
    lemma_resource_entries(r, key_mime_type());
    lemma_resource_entries(r, key_text_encoding_name());
    lemma_resource_entries(r, key_response());
    if let Some(s) = r.frame_name {
        if s.len() == 0 {
            assert(s =~= Seq::<char>::empty());
        }
    }
    if let Some(s) = r.text_encoding_name {
        if s.len() == 0 {
            assert(s =~= Seq::<char>::empty());
        }
    }
}


proof fn lemma_resources_round_trip(s: Seq<ResourceView>)
    requires
        forall|i: int| 0 <= i < s.len() ==> resource_round_trips(#[trigger] s[i]),
    ensures
        decode_resources(encode_resources(s)) == Ok::<Seq<ResourceView>, DecodeError>(s),
    decreases s.len(),
{
    if s.len() > 0 {
        let e = encode_resources(s);
        assert(e.drop_last() =~= encode_resources(s.drop_last()));
        lemma_resources_round_trip(s.drop_last());
        lemma_resource_round_trip(s.last());
        assert(s.drop_last().push(s.last()) =~= s);
    } else {
        assert(encode_resources(s) =~= Seq::<DocumentView>::empty());
        assert(s =~= Seq::<ResourceView>::empty());
    }
}

proof fn lemma_archive_entries(a: ArchiveView, key: Seq<char>)
    ensures
        encode_archive(a) matches DocumentView::Dictionary(es) && keys_within(es, archive_keys())
            && lookup(es, key) == if key == key_main_resource() {
            Some(encode_resource(a.main_resource))
        } else if key == key_subresources() {
            match a.subresources {
                Some(s) => Some(DocumentView::Array(encode_resources(s))),
                None => None,
            }
        } else if key == key_subframe_archives() {
            match a.subframe_archives {
                Some(s) => Some(DocumentView::Array(encode_archives(s))),
                None => None,
            }
        } else {
            None
        },
{
    lemma_keys_distinct();
    let e1 = seq![(key_main_resource(), encode_resource(a.main_resource))];
    let e2 = subresources_entry(a.subresources);
    let e3 = match a.subframe_archives {
        Some(s) => seq![(key_subframe_archives(), DocumentView::Array(encode_archives(s)))],
        None => Seq::empty(),
    };
    let ak = archive_keys();
    lemma_lookup_concat(e1 + e2, e3, key);
    lemma_lookup_concat(e1, e2, key);
    lemma_lookup_single(key_main_resource(), encode_resource(a.main_resource), key);
    if let Some(s) = a.subresources {
        lemma_lookup_single(key_subresources(), DocumentView::Array(encode_resources(s)), key);
    }
    if let Some(s) = a.subframe_archives {
        lemma_lookup_single(key_subframe_archives(), DocumentView::Array(encode_archives(s)), key);
    }
    lemma_keys_within_concat(e1 + e2, e3, ak);
    lemma_keys_within_concat(e1, e2, ak);
}

/// Encoding an archive and decoding the result gives the archive back, with
/// its lists in their order and absent lists still absent, wherever no
/// optional string of a resource is present and empty.
pub proof fn lemma_archive_round_trip(a: ArchiveView)
    requires
        archive_round_trips(a),
    ensures
        decode_archive(encode_archive(a)) == Ok::<ArchiveView, DecodeError>(a),
    decreases a,
{
    lemma_keys_distinct();
    lemma_archive_entries(a, key_main_resource());
    lemma_archive_entries(a, key_subresources());
    lemma_archive_entries(a, key_subframe_archives());
    lemma_resource_round_trip(a.main_resource);
    if let Some(s) = a.subresources {
        lemma_resources_round_trip(s);
    }
    if let Some(s) = a.subframe_archives {
        lemma_archives_round_trip(s);
    }
}

proof fn lemma_archives_round_trip(s: Seq<ArchiveView>)
    requires
        archives_round_trip(s),
    ensures
        decode_archives(encode_archives(s)) == Ok::<Seq<ArchiveView>, DecodeError>(s),
    decreases s,
{
    if s.len() > 0 {
        lemma_archives_round_trip(s.drop_last());
        lemma_archive_round_trip(s.last());
        let e = encode_archives(s);
        assert(e.drop_last() =~= encode_archives(s.drop_last()));
        assert(e.last() == encode_archive(s.last()));
        assert(s.drop_last().push(s.last()) =~= s);
    } else {
        assert(s =~= Seq::<ArchiveView>::empty());
    }
}


fn push_entry(es: &mut Vec<(String, Document)>, key: &str, value: Document)
    ensures
        entries_view(final(es)@) == entries_view(old(es)@).push((key@, value@)),
{
    let e = (String::from_str(key), value);
    proof {
        lemma_entries_view_push(es@, e);
    }
    es.push(e);
}

fn push_optional_text(es: &mut Vec<(String, Document)>, key: &str, value: &Option<String>)
    ensures
        entries_view(final(es)@) == entries_view(old(es)@) + optional_text_entry(
            key@,
            crate::model::opt_str_view(*value),
        ),
{
    match value {
        Some(s) => {
            push_entry(es, key, Document::Text(s.clone()));
            assert(entries_view(es@) =~= entries_view(old(es)@) + seq![(key@, DocumentView::Text(s@))]);
        },
        None => {
            assert(entries_view(es@) =~= entries_view(old(es)@) + Seq::empty());
        },
    }
}

fn encode_resource_exec(r: &WebResource) -> (d: Document)
    ensures
        d@ == encode_resource(r@),
{
    let mut es: Vec<(String, Document)> = Vec::new();
    assert(entries_view(es@) =~= Seq::empty());
    push_entry(&mut es, "WebResourceData", Document::Data(slice_to_vec(r.data.as_slice())));
    push_entry(&mut es, "WebResourceURL", Document::Text(r.url.clone()));
    push_optional_text(&mut es, "WebResourceFrameName", &r.frame_name);
    push_entry(&mut es, "WebResourceMIMEType", Document::Text(r.mime_type.clone()));
    push_optional_text(&mut es, "WebResourceTextEncodingName", &r.text_encoding_name);
    let ghost before = entries_view(es@);
    match &r.response {
        Some(b) => {
            push_entry(&mut es, "WebResourceResponse", Document::Data(slice_to_vec(b.as_slice())));
            assert(entries_view(es@) =~= before + seq![(key_response(), DocumentView::Data(b@))]);
        },
        None => {
            assert(entries_view(es@) =~= before + Seq::empty());
        },
    }
    assert(entries_view(es@) =~= resource_entries(r@));
    Document::Dictionary(es)
}

fn encode_archive_exec(a: &WebArchive) -> (d: Document)
    ensures
        d@ == encode_archive(a@),
    decreases a,
{
    let mut es: Vec<(String, Document)> = Vec::new();
    assert(entries_view(es@) =~= Seq::empty());
    push_entry(&mut es, "WebMainResource", encode_resource_exec(&a.main_resource));
    let ghost first = entries_view(es@);
    match &a.subresources {
        Some(subresources) => {
            let ghost s = resource_views(subresources@);
            let mut items: Vec<Document> = Vec::new();
            let mut i: usize = 0;
            while i < subresources.len()
                invariant
                    s == resource_views(subresources@),
                    i <= subresources.len(),
                    documents_view(items@) =~= encode_resources(s.take(i as int)),
                decreases subresources.len() - i,
            {
                let d = encode_resource_exec(&subresources[i]);
                proof {
                    lemma_documents_view_push(items@, d);
                    assert(encode_resources(s.take(i + 1)) =~= encode_resources(s.take(i as int)).push(
                        d@,
                    ));
                }
                items.push(d);
                i = i + 1;
            }
            assert(s.take(s.len() as int) =~= s);
            push_entry(&mut es, "WebSubresources", Document::Array(items));
        },
        None => {},
    }
    assert(entries_view(es@) =~= first + subresources_entry(a@.subresources));
    let ghost second = entries_view(es@);
    match &a.subframe_archives {
        Some(archives) => {
            let ghost s = archive_views(archives@);
            proof {
                lemma_archive_views(archives@);
            }
            let mut items: Vec<Document> = Vec::new();
            let mut i: usize = 0;
            while i < archives.len()
                invariant
                    s == archive_views(archives@),
                    s.len() == archives.len(),
                    forall|j: int| 0 <= j < archives.len() ==> #[trigger] s[j] == archives@[j]@,
                    i <= archives.len(),
                    documents_view(items@) == encode_archives(s.take(i as int)),
                    a.subframe_archives == Some(*archives),
                decreases archives.len() - i,
            {
                proof {
                    assert(decreases_to!(a.subframe_archives => a.subframe_archives->0));
                    assert(decreases_to!(a.subframe_archives->0 => a.subframe_archives->0[i as int]));
                }
                let d = encode_archive_exec(&archives[i]);
                proof {
                    lemma_documents_view_push(items@, d);
                    assert(s.take(i + 1).drop_last() =~= s.take(i as int));
                }
                items.push(d);
                i = i + 1;
            }
            assert(s.take(s.len() as int) =~= s);
            push_entry(&mut es, "WebSubframeArchives", Document::Array(items));
            assert(entries_view(es@) =~= second + seq![(key_subframe_archives(), DocumentView::Array(encode_archives(s)))]);
        },
        None => {
            assert(entries_view(es@) =~= second + Seq::empty());
        },
    }
    Document::Dictionary(es)
}

/// The property-list document that stores an archive.
pub fn to_document(archive: &WebArchive) -> (d: Document)
    ensures
        d@ == encode_archive(archive@),
{
    encode_archive_exec(archive)
}


pub open spec fn resource_result(r: Result<WebResource, DecodeError>) -> Result<ResourceView, DecodeError> {
    match r {
        Ok(x) => Ok(x@),
        Err(e) => Err(e),
    }
}

pub open spec fn archive_result(r: Result<WebArchive, DecodeError>) -> Result<ArchiveView, DecodeError> {
    match r {
        Ok(x) => Ok(x@),
        Err(e) => Err(e),
    }
}

/// The position of the value stored under `key`, the later one where the key
/// occurs twice.
fn find_key(es: &Vec<(String, Document)>, key: &str) -> (r: Option<usize>)
    ensures
        match r {
            Some(i) => i < es.len() && lookup(entries_view(es@), key@) == Some(es@[i as int].1@),
            None => lookup(entries_view(es@), key@) is None,
        },
{
    let ghost ev = entries_view(es@);
    proof {
        lemma_entries_view(es@);
    }
    let k = String::from_str(key);
    let mut found: Option<usize> = None;
    let mut i: usize = 0;
    while i < es.len()
        invariant
            ev == entries_view(es@),
            ev.len() == es.len(),
            forall|j: int| 0 <= j < es.len() ==> #[trigger] ev[j] == (es@[j].0@, es@[j].1@),
            k@ == key@,
            i <= es.len(),
            match found {
                Some(j) => j < i && lookup(ev.take(i as int), key@) == Some(es@[j as int].1@),
                None => lookup(ev.take(i as int), key@) is None,
            },
        decreases es.len() - i,
    {
        assert(ev.take(i + 1).drop_last() =~= ev.take(i as int));
        if es[i].0 == k {
            found = Some(i);
        }
        i = i + 1;
    }
    assert(ev.take(es.len() as int) =~= ev);
    found
}

fn equals_key(k: &String, key: &str) -> (r: bool)
    ensures
        r == (k@ == key@),
{
    *k == String::from_str(key)
}

fn is_resource_key(k: &String) -> (r: bool)
    ensures
        r == resource_keys().contains(k@),
{
    equals_key(k, "WebResourceData") || equals_key(k, "WebResourceURL") || equals_key(
        k,
        "WebResourceFrameName",
    ) || equals_key(k, "WebResourceMIMEType") || equals_key(k, "WebResourceTextEncodingName")
        || equals_key(k, "WebResourceResponse")
}

fn is_archive_key(k: &String) -> (r: bool)
    ensures
        r == archive_keys().contains(k@),
{
    equals_key(k, "WebMainResource") || equals_key(k, "WebSubresources") || equals_key(
        k,
        "WebSubframeArchives",
    )
}

/// Whether every key of a dictionary is one of a resource's (`for_archive`
/// false) or one of an archive's (`for_archive` true).
fn keys_known(es: &Vec<(String, Document)>, for_archive: bool) -> (r: bool)
    ensures
        r == keys_within(
            entries_view(es@),
            if for_archive {
                archive_keys()
            } else {
                resource_keys()
            },
        ),
{
    let ghost ev = entries_view(es@);
    let ghost allowed = if for_archive {
        archive_keys()
    } else {
        resource_keys()
    };
    proof {
        lemma_entries_view(es@);
    }
    let mut i: usize = 0;
    while i < es.len()
        invariant
            ev == entries_view(es@),
            ev.len() == es.len(),
            forall|j: int| 0 <= j < es.len() ==> #[trigger] ev[j] == (es@[j].0@, es@[j].1@),
            allowed == if for_archive {
                archive_keys()
            } else {
                resource_keys()
            },
            i <= es.len(),
            forall|j: int| 0 <= j < i ==> allowed.contains(#[trigger] ev[j].0),
        decreases es.len() - i,
    {
        let known = if for_archive {
            is_archive_key(&es[i].0)
        } else {
            is_resource_key(&es[i].0)
        };
        if !known {
            assert(!allowed.contains(ev[i as int].0));
            return false;
        }
        i = i + 1;
    }
    true
}

fn data_field(es: &Vec<(String, Document)>, key: &str) -> (r: Result<Vec<u8>, DecodeError>)
    ensures
        match r {
            Ok(b) => field_data(entries_view(es@), key@) == Ok::<Seq<u8>, DecodeError>(b@),
            Err(e) => field_data(entries_view(es@), key@) == Err::<Seq<u8>, DecodeError>(e),
        },
{
    match find_key(es, key) {
        Some(i) => match &es[i].1 {
            Document::Data(b) => Ok(slice_to_vec(b.as_slice())),
            _ => Err(DecodeError::WrongType),
        },
        None => Err(DecodeError::MissingKey),
    }
}

fn optional_data_field(es: &Vec<(String, Document)>, key: &str) -> (r: Result<Option<Vec<u8>>, DecodeError>)
    ensures
        match r {
            Ok(b) => field_optional_data(entries_view(es@), key@) == Ok::<Option<Seq<u8>>, DecodeError>(
                crate::model::opt_bytes_view(b),
            ),
            Err(e) => field_optional_data(entries_view(es@), key@) == Err::<Option<Seq<u8>>, DecodeError>(e),
        },
{
    match find_key(es, key) {
        Some(i) => match &es[i].1 {
            Document::Data(b) => Ok(Some(slice_to_vec(b.as_slice()))),
            _ => Err(DecodeError::WrongType),
        },
        None => Ok(None),
    }
}

fn text_field(es: &Vec<(String, Document)>, key: &str) -> (r: Result<String, DecodeError>)
    ensures
        match r {
            Ok(s) => field_text(entries_view(es@), key@) == Ok::<Seq<char>, DecodeError>(s@),
            Err(e) => field_text(entries_view(es@), key@) == Err::<Seq<char>, DecodeError>(e),
        },
{
    match find_key(es, key) {
        Some(i) => match &es[i].1 {
            Document::Text(s) => Ok(s.clone()),
            _ => Err(DecodeError::WrongType),
        },
        None => Err(DecodeError::MissingKey),
    }
}

/// Reads an optional string where an empty one stands for an absent value.
fn optional_text_field(es: &Vec<(String, Document)>, key: &str) -> (r: Result<Option<String>, DecodeError>)
    ensures
        match r {
            Ok(s) => field_optional_text(entries_view(es@), key@) == Ok::<Option<Seq<char>>, DecodeError>(
                crate::model::opt_str_view(s),
            ),
            Err(e) => field_optional_text(entries_view(es@), key@) == Err::<Option<Seq<char>>, DecodeError>(e),
        },
{
    match find_key(es, key) {
        Some(i) => match &es[i].1 {
            Document::Text(s) => {
                if s.as_str().unicode_len() == 0 {
                    Ok(None)
                } else {
                    Ok(Some(s.clone()))
                }
            },
            _ => Err(DecodeError::WrongType),
        },
        None => Ok(None),
    }
}

fn decode_resource_exec(d: &Document) -> (r: Result<WebResource, DecodeError>)
    ensures
        resource_result(r) == decode_resource(d@),
{
    match d {
        Document::Dictionary(es) => {
            if !keys_known(es, false) {
                return Err(DecodeError::UnknownKey);
            }
            let data = match data_field(es, "WebResourceData") {
                Ok(x) => x,
                Err(e) => return Err(e),
            };
            let url = match text_field(es, "WebResourceURL") {
                Ok(x) => x,
                Err(e) => return Err(e),
            };
            let frame_name = match optional_text_field(es, "WebResourceFrameName") {
                Ok(x) => x,
                Err(e) => return Err(e),
            };
            let mime_type = match text_field(es, "WebResourceMIMEType") {
                Ok(x) => x,
                Err(e) => return Err(e),
            };
            let text_encoding_name = match optional_text_field(es, "WebResourceTextEncodingName") {
                Ok(x) => x,
                Err(e) => return Err(e),
            };
            let response = match optional_data_field(es, "WebResourceResponse") {
                Ok(x) => x,
                Err(e) => return Err(e),
            };
            Ok(WebResource { data, url, frame_name, mime_type, text_encoding_name, response })
        },
        _ => Err(DecodeError::WrongType),
    }
}

/// Once a prefix of a list fails to decode, the whole list fails the same way.
proof fn lemma_decode_resources_prefix(s: Seq<DocumentView>, k: int)
    requires
        0 <= k <= s.len(),
        decode_resources(s.take(k)) is Err,
    ensures
        decode_resources(s) == decode_resources(s.take(k)),
    decreases s.len() - k,
{
    if k < s.len() {
        assert(s.take(k + 1).drop_last() =~= s.take(k));
        lemma_decode_resources_prefix(s, k + 1);
    } else {
        assert(s.take(k) =~= s);
    }
}

proof fn lemma_decode_archives_prefix(s: Seq<DocumentView>, k: int)
    requires
        0 <= k <= s.len(),
        decode_archives(s.take(k)) is Err,
    ensures
        decode_archives(s) == decode_archives(s.take(k)),
    decreases s.len() - k,
{
    if k < s.len() {
        assert(s.take(k + 1).drop_last() =~= s.take(k));
        lemma_decode_archives_prefix(s, k + 1);
    } else {
        assert(s.take(k) =~= s);
    }
}

fn decode_resources_exec(items: &Vec<Document>) -> (r: Result<Vec<WebResource>, DecodeError>)
    ensures
        match r {
            Ok(v) => decode_resources(documents_view(items@)) == Ok::<Seq<ResourceView>, DecodeError>(
                resource_views(v@),
            ),
            Err(e) => decode_resources(documents_view(items@)) == Err::<Seq<ResourceView>, DecodeError>(e),
        },
{
    let ghost dv = documents_view(items@);
    proof {
        lemma_documents_view(items@);
    }
    let mut out: Vec<WebResource> = Vec::new();
    let mut i: usize = 0;
    assert(resource_views(out@) =~= Seq::empty());
    while i < items.len()
        invariant
            dv == documents_view(items@),
            dv.len() == items.len(),
            forall|j: int| 0 <= j < items.len() ==> #[trigger] dv[j] == items@[j]@,
            i <= items.len(),
            decode_resources(dv.take(i as int)) == Ok::<Seq<ResourceView>, DecodeError>(
                resource_views(out@),
            ),
        decreases items.len() - i,
    {
        assert(dv.take(i + 1).drop_last() =~= dv.take(i as int));
        match decode_resource_exec(&items[i]) {
            Ok(x) => {
                proof {
                    assert(resource_views(out@.push(x)) =~= resource_views(out@).push(x@));
                }
                out.push(x);
            },
            Err(e) => {
                proof {
                    lemma_decode_resources_prefix(dv, i + 1);
                }
                return Err(e);
            },
        }
        i = i + 1;
    }
    assert(dv.take(items.len() as int) =~= dv);
    Ok(out)
}

fn decode_archive_exec(d: &Document) -> (r: Result<WebArchive, DecodeError>)
    ensures
        archive_result(r) == decode_archive(d@),
    decreases d,
{
    match d {
        Document::Dictionary(es) => {
            if !keys_known(es, true) {
                return Err(DecodeError::UnknownKey);
            }
            let main_resource = match find_key(es, "WebMainResource") {
                Some(i) => match decode_resource_exec(&es[i].1) {
                    Ok(x) => x,
                    Err(e) => return Err(e),
                },
                None => return Err(DecodeError::MissingKey),
            };
            let subresources = match find_key(es, "WebSubresources") {
                Some(i) => match &es[i].1 {
                    Document::Array(items) => match decode_resources_exec(items) {
                        Ok(v) => Some(v),
                        Err(e) => return Err(e),
                    },
                    _ => return Err(DecodeError::WrongType),
                },
                None => None,
            };
            let subframe_archives = match find_key(es, "WebSubframeArchives") {
                Some(k) => match &es[k].1 {
                    Document::Array(items) => {
                        let ghost dv = documents_view(items@);
                        proof {
                            lemma_documents_view(items@);
                        }
                        let mut out: Vec<WebArchive> = Vec::new();
                        let mut i: usize = 0;
                        assert(archive_views(out@) =~= Seq::empty());
                        while i < items.len()
                            invariant
                                dv == documents_view(items@),
                                dv.len() == items.len(),
                                forall|j: int| 0 <= j < items.len() ==> #[trigger] dv[j] == items@[j]@,
                                i <= items.len(),
                                decode_archives(dv.take(i as int)) == Ok::<Seq<ArchiveView>, DecodeError>(
                                    archive_views(out@),
                                ),
                                k < es.len(),
                                es@[k as int].1 == Document::Array(*items),
                                *d == Document::Dictionary(*es),
                                keys_within(entries_view(es@), archive_keys()),
                                lookup(entries_view(es@), key_main_resource()) matches Some(m)
                                    && decode_resource(m) == Ok::<ResourceView, DecodeError>(main_resource@),
                                decode_resource_list(lookup(entries_view(es@), key_subresources()))
                                    == Ok::<Option<Seq<ResourceView>>, DecodeError>(
                                    match subresources {
                                        Some(v) => Some(resource_views(v@)),
                                        None => None,
                                    },
                                ),
                                lookup(entries_view(es@), key_subframe_archives()) == Some(
                                    DocumentView::Array(dv),
                                ),
                            decreases items.len() - i,
                        {
                            assert(dv.take(i + 1).drop_last() =~= dv.take(i as int));
                            proof {
                                assert(decreases_to!(*d => *es));
                                assert(decreases_to!(*es => es@[k as int]));
                                assert(decreases_to!(es@[k as int] => es@[k as int].1));
                                assert(decreases_to!(es@[k as int].1 => es@[k as int].1->Array_0));
                                assert(decreases_to!(*items => items[i as int]));
                            }
                            match decode_archive_exec(&items[i]) {
                                Ok(x) => {
                                    proof {
                                        assert(out@.push(x).drop_last() =~= out@);
                                    }
                                    out.push(x);
                                },
                                Err(e) => {
                                    proof {
                                        lemma_decode_archives_prefix(dv, i + 1);
                                    }
                                    return Err(e);
                                },
                            }
                            i = i + 1;
                        }
                        assert(dv.take(items.len() as int) =~= dv);
                        Some(out)
                    },
                    _ => return Err(DecodeError::WrongType),
                },
                None => None,
            };
            Ok(WebArchive { main_resource, subresources, subframe_archives })
        },
        _ => Err(DecodeError::WrongType),
    }
}

/// Reads an archive out of a property-list document, refusing any key that
/// the schema does not define, at any depth.
pub fn from_document(d: &Document) -> (r: Result<WebArchive, DecodeError>)
    ensures
        archive_result(r) == decode_archive(d@),
{
    decode_archive_exec(d)
}


/// A resource stored with an empty text encoding or frame name decodes with
/// that field absent, not empty.
pub proof fn lemma_empty_name_is_absent(es: Seq<(Seq<char>, DocumentView)>)
    ensures
        decode_resource(DocumentView::Dictionary(es)) matches Ok(r) ==> {
            &&& lookup(es, key_text_encoding_name()) == Some(DocumentView::Text(Seq::empty()))
                ==> r.text_encoding_name is None
            &&& lookup(es, key_frame_name()) == Some(DocumentView::Text(Seq::empty()))
                ==> r.frame_name is None
        },
{
}

/// An archive without subresources is encoded without the subresources key,
/// and decoding such a document gives no list rather than an empty one.
pub proof fn lemma_absent_list_omitted(a: ArchiveView, es: Seq<(Seq<char>, DocumentView)>)
    requires
        a.subresources is None,
    ensures
        forall|i: int|
            0 <= i < encode_archive(a)->Dictionary_0.len() ==> #[trigger] encode_archive(
                a,
            )->Dictionary_0[i].0 != key_subresources(),
        archive_round_trips(a) ==> (decode_archive(encode_archive(a)) matches Ok(b)
            && b.subresources is None),
        (forall|i: int| 0 <= i < es.len() ==> #[trigger] es[i].0 != key_subresources())
            ==> (decode_archive(DocumentView::Dictionary(es)) matches Ok(b) ==> b.subresources is None),
{
    lemma_keys_distinct();
    let e1 = seq![(key_main_resource(), encode_resource(a.main_resource))];
    let e3 = match a.subframe_archives {
        Some(s) => seq![(key_subframe_archives(), DocumentView::Array(encode_archives(s)))],
        None => Seq::empty(),
    };
    let entries = encode_archive(a)->Dictionary_0;
    assert(entries =~= e1 + e3);
    assert forall|i: int| 0 <= i < entries.len() implies #[trigger] entries[i].0 != key_subresources() by {
        if i >= 1 {
            assert(entries[i] == e3[i - 1]);
        }
    }
    if archive_round_trips(a) {
        lemma_archive_round_trip(a);
    }
    if forall|i: int| 0 <= i < es.len() ==> #[trigger] es[i].0 != key_subresources() {
        lemma_lookup_missing(es, key_subresources());
    }
}

proof fn lemma_lookup_missing(es: Seq<(Seq<char>, DocumentView)>, key: Seq<char>)
    requires
        forall|i: int| 0 <= i < es.len() ==> #[trigger] es[i].0 != key,
    ensures
        lookup(es, key) is None,
    decreases es.len(),
{
    if es.len() > 0 {
        assert(es[es.len() - 1].0 != key);
        lemma_lookup_missing(es.drop_last(), key);
    }
}

/// A resource dictionary with a key outside the schema is refused.
pub proof fn lemma_unknown_resource_key_rejected(es: Seq<(Seq<char>, DocumentView)>, i: int)
    requires
        0 <= i < es.len(),
        !resource_keys().contains(es[i].0),
    ensures
        decode_resource(DocumentView::Dictionary(es)) == Err::<ResourceView, DecodeError>(
            DecodeError::UnknownKey,
        ),
{
}

/// An archive dictionary with a key outside the schema is refused.
pub proof fn lemma_unknown_archive_key_rejected(es: Seq<(Seq<char>, DocumentView)>, i: int)
    requires
        0 <= i < es.len(),
        !archive_keys().contains(es[i].0),
    ensures
        decode_archive(DocumentView::Dictionary(es)) == Err::<ArchiveView, DecodeError>(
            DecodeError::UnknownKey,
        ),
{
}

proof fn lemma_decode_resources_elements(items: Seq<DocumentView>, j: int)
    requires
        0 <= j < items.len(),
        decode_resource(items[j]) is Err,
    ensures
        decode_resources(items) is Err,
    decreases items.len(),
{
    if j < items.len() - 1 {
        assert(items.drop_last()[j] == items[j]);
        lemma_decode_resources_elements(items.drop_last(), j);
    }
}

proof fn lemma_decode_archives_elements(items: Seq<DocumentView>, j: int)
    requires
        0 <= j < items.len(),
        decode_archive(items[j]) is Err,
    ensures
        decode_archives(items) is Err,
    decreases items.len(),
{
    if j < items.len() - 1 {
        assert(items.drop_last()[j] == items[j]);
        lemma_decode_archives_elements(items.drop_last(), j);
    }
}

/// A part of an archive that fails to decode makes the whole archive fail:
/// the main resource, any one subresource, or any one subframe archive. With
/// the two lemmas on unknown keys, a key outside the schema at any depth
/// makes decoding fail.
pub proof fn lemma_nested_failure_rejected(es: Seq<(Seq<char>, DocumentView)>, j: int)
    ensures
        lookup(es, key_main_resource()) matches Some(m) && decode_resource(m) is Err
            ==> decode_archive(DocumentView::Dictionary(es)) is Err,
        lookup(es, key_subresources()) matches Some(DocumentView::Array(items)) && 0 <= j
            < items.len() && decode_resource(items[j]) is Err ==> decode_archive(
            DocumentView::Dictionary(es),
        ) is Err,
        lookup(es, key_subframe_archives()) matches Some(DocumentView::Array(items)) && 0 <= j
            < items.len() && decode_archive(items[j]) is Err ==> decode_archive(
            DocumentView::Dictionary(es),
        ) is Err,
{
    if let Some(DocumentView::Array(items)) = lookup(es, key_subresources()) {
        if 0 <= j < items.len() && decode_resource(items[j]) is Err {
            lemma_decode_resources_elements(items, j);
        }
    }
    if let Some(DocumentView::Array(items)) = lookup(es, key_subframe_archives()) {
        if 0 <= j < items.len() && decode_archive(items[j]) is Err {
            lemma_decode_archives_elements(items, j);
        }
    }
}


proof fn lemma_encode_resource_plain(r: ResourceView)
    ensures
        plain(encode_resource(r)),
{
    let e1 = seq![(key_data(), DocumentView::Data(r.data))];
    let e2 = seq![(key_url(), DocumentView::Text(r.url))];
    let e3 = optional_text_entry(key_frame_name(), r.frame_name);
    let e4 = seq![(key_mime_type(), DocumentView::Text(r.mime_type))];
    let e5 = optional_text_entry(key_text_encoding_name(), r.text_encoding_name);
    let e6 = optional_data_entry(key_response(), r.response);
    lemma_plain_entries_concat(e1 + e2 + e3 + e4 + e5, e6);
    lemma_plain_entries_concat(e1 + e2 + e3 + e4, e5);
    lemma_plain_entries_concat(e1 + e2 + e3, e4);
    lemma_plain_entries_concat(e1 + e2, e3);
    lemma_plain_entries_concat(e1, e2);
    lemma_plain_entries_single(key_data(), DocumentView::Data(r.data));
    lemma_plain_entries_single(key_url(), DocumentView::Text(r.url));
    lemma_plain_entries_single(key_mime_type(), DocumentView::Text(r.mime_type));
    if let Some(s) = r.frame_name {
        lemma_plain_entries_single(key_frame_name(), DocumentView::Text(s));
    }
    if let Some(s) = r.text_encoding_name {
        lemma_plain_entries_single(key_text_encoding_name(), DocumentView::Text(s));
    }
    if let Some(b) = r.response {
        lemma_plain_entries_single(key_response(), DocumentView::Data(b));
    }
}

proof fn lemma_encode_resources_plain(s: Seq<ResourceView>)
    ensures
        plain_items(encode_resources(s)),
    decreases s.len(),
{
    if s.len() > 0 {
        assert(encode_resources(s).drop_last() =~= encode_resources(s.drop_last()));
        lemma_encode_resources_plain(s.drop_last());
        lemma_encode_resource_plain(s.last());
    }
}

/// An encoded archive is a plain document.
pub proof fn lemma_encode_archive_plain(a: ArchiveView)
    ensures
        plain(encode_archive(a)),
    decreases a,
{
    let e1 = seq![(key_main_resource(), encode_resource(a.main_resource))];
    let e2 = subresources_entry(a.subresources);
    let e3 = match a.subframe_archives {
        Some(s) => seq![(key_subframe_archives(), DocumentView::Array(encode_archives(s)))],
        None => Seq::empty(),
    };
    lemma_plain_entries_concat(e1 + e2, e3);
    lemma_plain_entries_concat(e1, e2);
    lemma_encode_resource_plain(a.main_resource);
    lemma_plain_entries_single(key_main_resource(), encode_resource(a.main_resource));
    if let Some(s) = a.subresources {
        lemma_encode_resources_plain(s);
        lemma_plain_entries_single(key_subresources(), DocumentView::Array(encode_resources(s)));
    }
    if let Some(s) = a.subframe_archives {
        lemma_encode_archives_plain(s);
        lemma_plain_entries_single(key_subframe_archives(), DocumentView::Array(encode_archives(s)));
    }
}

proof fn lemma_encode_archives_plain(s: Seq<ArchiveView>)
    ensures
        plain_items(encode_archives(s)),
    decreases s,
{
    if s.len() > 0 {
        lemma_encode_archives_plain(s.drop_last());
        lemma_encode_archive_plain(s.last());
        assert(encode_archives(s).drop_last() =~= encode_archives(s.drop_last()));
    }
}


proof fn lemma_decoded_resources_have_no_empty_names(items: Seq<DocumentView>)
    ensures
        decode_resources(items) matches Ok(rs) ==> forall|i: int|
            0 <= i < rs.len() ==> resource_round_trips(#[trigger] rs[i]),
    decreases items.len(),
{
    if items.len() > 0 {
        lemma_decoded_resources_have_no_empty_names(items.drop_last());
        if let Ok(rs) = decode_resources(items) {
            let prev = decode_resources(items.drop_last())->Ok_0;
            assert forall|i: int| 0 <= i < rs.len() implies resource_round_trips(#[trigger] rs[i]) by {
                if i < prev.len() {
                    assert(rs[i] == prev[i]);
                }
            }
        }
    }
}

/// No archive that decoding gives holds a present and empty text encoding
/// or frame name, in any resource at any depth: an empty stored string
/// always decodes as absent.
pub proof fn lemma_decoded_has_no_empty_names(d: DocumentView)
    ensures
        decode_archive(d) matches Ok(a) ==> archive_round_trips(a),
    decreases d,
{
    if let DocumentView::Dictionary(es) = d {
        if let Some(DocumentView::Array(items)) = lookup(es, key_subresources()) {
            lemma_decoded_resources_have_no_empty_names(items);
        }
        lemma_lookup_decreases(es, key_subframe_archives());
        if let Some(DocumentView::Array(items)) = lookup(es, key_subframe_archives()) {
            let v = lookup(es, key_subframe_archives())->0;
            assert(decreases_to!(v => items));
            lemma_decoded_archives_have_no_empty_names(items);
        }
    }
}

proof fn lemma_decoded_archives_have_no_empty_names(items: Seq<DocumentView>)
    ensures
        decode_archives(items) matches Ok(s) ==> archives_round_trip(s),
    decreases items,
{
    if items.len() > 0 {
        lemma_decoded_archives_have_no_empty_names(items.drop_last());
        lemma_decoded_has_no_empty_names(items.last());
        if let Ok(s) = decode_archives(items) {
            let prev = decode_archives(items.drop_last())->Ok_0;
            assert(s.drop_last() =~= prev);
        }
    }
}

/// A resource dictionary holds a key outside its schema.
pub open spec fn resource_has_unknown_key(d: DocumentView) -> bool {
    d matches DocumentView::Dictionary(es) && !keys_within(es, resource_keys())
}

pub open spec fn resources_have_unknown_key(items: Seq<DocumentView>) -> bool
    decreases items.len(),
{
    items.len() > 0 && (resources_have_unknown_key(items.drop_last()) || resource_has_unknown_key(
        items.last(),
    ))
}

/// Somewhere in an archive document, at any depth, a dictionary that the
/// schema reads (the archive's, its main resource's, a subresource's, or
/// those of a subframe archive) holds a key outside its schema.
pub open spec fn archive_has_unknown_key(d: DocumentView) -> bool
    decreases d,
    via archive_has_unknown_key_decreases
{
    match d {
        DocumentView::Dictionary(es) => {
            ||| !keys_within(es, archive_keys())
            ||| lookup(es, key_main_resource()) matches Some(m) && resource_has_unknown_key(m)
            ||| lookup(es, key_subresources()) matches Some(DocumentView::Array(items))
                && resources_have_unknown_key(items)
            ||| lookup(es, key_subframe_archives()) matches Some(DocumentView::Array(items))
                && archives_have_unknown_key(items)
        },
        _ => false,
    }
}

pub open spec fn archives_have_unknown_key(items: Seq<DocumentView>) -> bool
    decreases items,
{
    items.len() > 0 && (archives_have_unknown_key(items.drop_last()) || archive_has_unknown_key(
        items.last(),
    ))
}

#[via_fn]
proof fn archive_has_unknown_key_decreases(d: DocumentView) {
    if let DocumentView::Dictionary(es) = d {
        lemma_lookup_decreases(es, key_subframe_archives());
        assert(decreases_to!(d => es));
        if let Some(DocumentView::Array(items)) = lookup(es, key_subframe_archives()) {
            let v = lookup(es, key_subframe_archives())->0;
            assert(decreases_to!(v => items));
        }
    }
}

proof fn lemma_resources_unknown_key_rejected(items: Seq<DocumentView>)
    ensures
        resources_have_unknown_key(items) ==> decode_resources(items) is Err,
    decreases items.len(),
{
    if items.len() > 0 {
        lemma_resources_unknown_key_rejected(items.drop_last());
    }
}

/// A key outside the schema anywhere in an archive document, at any depth,
/// makes decoding fail.
pub proof fn lemma_unknown_key_anywhere_rejected(d: DocumentView)
    ensures
        archive_has_unknown_key(d) ==> decode_archive(d) is Err,
    decreases d,
{
    if let DocumentView::Dictionary(es) = d {
        if let Some(DocumentView::Array(items)) = lookup(es, key_subresources()) {
            lemma_resources_unknown_key_rejected(items);
        }
        lemma_lookup_decreases(es, key_subframe_archives());
        if let Some(DocumentView::Array(items)) = lookup(es, key_subframe_archives()) {
            let v = lookup(es, key_subframe_archives())->0;
            assert(decreases_to!(v => items));
            lemma_archives_unknown_key_rejected(items);
        }
    }
}

proof fn lemma_archives_unknown_key_rejected(items: Seq<DocumentView>)
    ensures
        archives_have_unknown_key(items) ==> decode_archives(items) is Err,
    decreases items,
{
    if items.len() > 0 {
        lemma_archives_unknown_key_rejected(items.drop_last());
        lemma_unknown_key_anywhere_rejected(items.last());
    }
}

} // verus!
