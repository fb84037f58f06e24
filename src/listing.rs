//! What an inspection of an archive reports, as data: one entry per archive,
//! in depth-first pre-order, each followed by one entry per direct
//! subresource.
use vstd::prelude::*;
use crate::model::{
    ArchiveView, ResourceView, WebArchive, WebResource, archive_views, archives_size,
    lemma_archive_views, lemma_archives_size_prefix, lemma_archives_size_step, resource_views,
    total_size,
};

verus! {

/// One line of an archive's listing.
pub enum ListingEntry {
    /// An archive: its main resource's URL, type and size, how many direct
    /// subresources and subframe archives it has, and its total size.
    Archive {
        url: String,
        mime_type: String,
        size: usize,
        subresource_count: usize,
        subframe_archive_count: usize,
        total_size: usize,
    },
    /// A direct subresource of the archive listed before it.
    Subresource { url: String, mime_type: String, size: usize },
}

/// The mathematical value of a listing entry.
pub enum EntryView {
    Archive {
        url: Seq<char>,
        mime_type: Seq<char>,
        size: nat,
        subresource_count: nat,
        subframe_archive_count: nat,
        total_size: nat,
    },
    Subresource { url: Seq<char>, mime_type: Seq<char>, size: nat },
}

pub open spec fn entry_view(e: ListingEntry) -> EntryView {
    match e {
        ListingEntry::Archive {
            url,
            mime_type,
            size,
            subresource_count,
            subframe_archive_count,
            total_size,
        } => EntryView::Archive {
            url: url@,
            mime_type: mime_type@,
            size: size as nat,
            subresource_count: subresource_count as nat,
            subframe_archive_count: subframe_archive_count as nat,
            total_size: total_size as nat,
        },
        ListingEntry::Subresource { url, mime_type, size } => EntryView::Subresource {
            url: url@,
            mime_type: mime_type@,
            size: size as nat,
        },
    }
}

pub open spec fn entries_of(v: Seq<ListingEntry>) -> Seq<EntryView> {
    Seq::new(v.len(), |i: int| entry_view(v[i]))
}

pub open spec fn subresource_entry(r: ResourceView) -> EntryView {
    EntryView::Subresource { url: r.url, mime_type: r.mime_type, size: r.data.len() }
}

/// The listing of an archive: its own entry, an entry per direct
/// subresource in list order, then the listing of each subframe archive.
pub open spec fn listing_of(a: ArchiveView) -> Seq<EntryView>
    decreases a,
{
    let subs = match a.subresources {
        Some(s) => s,
        None => Seq::empty(),
    };
    seq![
        EntryView::Archive {
            url: a.main_resource.url,
            mime_type: a.main_resource.mime_type,
            size: a.main_resource.data.len(),
            subresource_count: subs.len(),
            subframe_archive_count: match a.subframe_archives {
                Some(s) => s.len(),
                None => 0,
            },
            total_size: total_size(a),
        },
    ] + Seq::new(subs.len(), |i: int| subresource_entry(subs[i])) + match a.subframe_archives {
        Some(s) => listing_all(s),
        None => Seq::empty(),
    }
}

pub open spec fn listing_all(s: Seq<ArchiveView>) -> Seq<EntryView>
    decreases s,
{
    if s.len() == 0 {
        Seq::empty()
    } else {
        listing_all(s.drop_last()) + listing_of(s.last())
    }
}

fn push_entry(out: &mut Vec<ListingEntry>, e: ListingEntry)
    ensures
        entries_of(final(out)@) == entries_of(old(out)@).push(entry_view(e)),
{
    out.push(e);
    assert(entries_of(out@) =~= entries_of(old(out)@).push(entry_view(e)));
}

fn subresource_entry_exec(r: &WebResource) -> (e: ListingEntry)
    ensures
        entry_view(e) == subresource_entry(r@),
{
    ListingEntry::Subresource {
        url: r.url.clone(),
        mime_type: r.mime_type.clone(),
        size: r.data.len(),
    }
}

fn listing_into(a: &WebArchive, out: &mut Vec<ListingEntry>)
    requires
        total_size(a@) <= usize::MAX,
    ensures
        entries_of(final(out)@) == entries_of(old(out)@) + listing_of(a@),
    decreases a,
{
    let ghost start = entries_of(out@);
    let subresource_count = a.subresource_count();
    let subframe_archive_count = a.subframe_archive_count();
    let total = a.total_size();
    push_entry(
        out,
        ListingEntry::Archive {
            url: a.main_resource.url.clone(),
            mime_type: a.main_resource.mime_type.clone(),
            size: a.main_resource.data.len(),
            subresource_count,
            subframe_archive_count,
            total_size: total,
        },
    );
    let ghost subs = match a@.subresources {
        Some(s) => s,
        None => Seq::empty(),
    };
    let ghost first = entries_of(out@);
    if let Some(subresources) = &a.subresources {
        let mut i: usize = 0;
        while i < subresources.len()
            invariant
                subs == resource_views(subresources@),
                i <= subresources.len(),
                entries_of(out@) == first + Seq::new(i as nat, |j: int| subresource_entry(subs[j])),
            decreases subresources.len() - i,
        {
            let e = subresource_entry_exec(&subresources[i]);
            push_entry(out, e);
            i = i + 1;
            assert(entries_of(out@) =~= first + Seq::new(i as nat, |j: int| subresource_entry(subs[j])));
        }
    } else {
        assert(entries_of(out@) =~= first + Seq::new(0, |j: int| subresource_entry(subs[j])));
    }
    let ghost second = entries_of(out@);
    if let Some(archives) = &a.subframe_archives {
        let ghost av = archive_views(archives@);
        proof {
            lemma_archive_views(archives@);
        }
        let mut i: usize = 0;
        while i < archives.len()
            invariant
                av == archive_views(archives@),
                av.len() == archives.len(),
                forall|j: int| 0 <= j < archives.len() ==> #[trigger] av[j] == archives@[j]@,
                a.subframe_archives == Some(*archives),
                a@.subframe_archives == Some(av),
                total_size(a@) <= usize::MAX,
                i <= archives.len(),
                entries_of(out@) == second + listing_all(av.take(i as int)),
            decreases archives.len() - i,
        {
            proof {
                lemma_archives_size_step(av, i as int);
                lemma_archives_size_prefix(av, i + 1);
                assert(decreases_to!(a.subframe_archives => a.subframe_archives->0));
                assert(decreases_to!(a.subframe_archives->0 => a.subframe_archives->0[i as int]));
                assert(av.take(i + 1).drop_last() =~= av.take(i as int));
            }
            listing_into(&archives[i], out);
            i = i + 1;
            assert(entries_of(out@) =~= second + listing_all(av.take(i as int)));
        }
        assert(av.take(av.len() as int) =~= av);
    } else {
        assert(entries_of(out@) =~= second + Seq::empty());
    }
    assert(entries_of(out@) =~= start + listing_of(a@));
}

impl WebArchive {
    /// What inspecting the archive reports: one entry per archive, in
    /// depth-first pre-order, each followed by its direct subresources.
    pub fn listing(&self) -> (r: Vec<ListingEntry>)
        requires
            total_size(self@) <= usize::MAX,
        ensures
            entries_of(r@) == listing_of(self@),
    {
        let mut out: Vec<ListingEntry> = Vec::new();
        assert(entries_of(out@) =~= Seq::empty());
        listing_into(self, &mut out);
        assert(Seq::<EntryView>::empty() + listing_of(self@) =~= listing_of(self@));
        out
    }
}

} // verus!
