//! The archive tree: resources, archives, and their mathematical views.
use vstd::prelude::*;

verus! {

/// One resource that the page needs to be displayed.
pub struct WebResource {
    /// The raw bytes of the resource.
    pub data: Vec<u8>,
    /// The URL that the resource stands for.
    pub url: String,
    /// In multi-frame pages, the name of the frame this resource is for.
    pub frame_name: Option<String>,
    /// The MIME type of the resource.
    pub mime_type: String,
    /// The text encoding of `data`, for text resources.
    pub text_encoding_name: Option<String>,
    /// Extended data about the server response, itself usually a property list.
    pub response: Option<Vec<u8>>,
}

/// A whole archive: the main resource, the resources it references, and one
/// nested archive per embedded frame.
pub struct WebArchive {
    /// The resource that is displayed on opening the archive.
    pub main_resource: WebResource,
    /// The resources that the page may reference, in their stored order.
    pub subresources: Option<Vec<WebResource>>,
    /// The archives of the page's frames, in their stored order.
    pub subframe_archives: Option<Vec<WebArchive>>,
}

/// The mathematical value of a resource.
pub struct ResourceView {
    pub data: Seq<u8>,
    pub url: Seq<char>,
    pub frame_name: Option<Seq<char>>,
    pub mime_type: Seq<char>,
    pub text_encoding_name: Option<Seq<char>>,
    pub response: Option<Seq<u8>>,
}

/// The mathematical value of an archive.
pub struct ArchiveView {
    pub main_resource: ResourceView,
    pub subresources: Option<Seq<ResourceView>>,
    pub subframe_archives: Option<Seq<ArchiveView>>,
}

pub open spec fn opt_str_view(s: Option<String>) -> Option<Seq<char>> {
    match s {
        Some(t) => Some(t@),
        None => None,
    }
}

pub open spec fn opt_bytes_view(b: Option<Vec<u8>>) -> Option<Seq<u8>> {
    match b {
        Some(v) => Some(v@),
        None => None,
    }
}

impl View for WebResource {
    type V = ResourceView;

    open spec fn view(&self) -> ResourceView {
        ResourceView {
            data: self.data@,
            url: self.url@,
            frame_name: opt_str_view(self.frame_name),
            mime_type: self.mime_type@,
            text_encoding_name: opt_str_view(self.text_encoding_name),
            response: opt_bytes_view(self.response),
        }
    }
}

pub open spec fn resource_views(v: Seq<WebResource>) -> Seq<ResourceView> {
    Seq::new(v.len(), |i: int| v[i]@)
}

pub open spec fn archive_view(a: WebArchive) -> ArchiveView
    decreases a,
{
    ArchiveView {
        main_resource: a.main_resource@,
        subresources: match a.subresources {
            Some(v) => Some(resource_views(v@)),
            None => None,
        },
        subframe_archives: match a.subframe_archives {
            Some(v) => Some(archive_views(v@)),
            None => None,
        },
    }
}

pub open spec fn archive_views(v: Seq<WebArchive>) -> Seq<ArchiveView>
    decreases v,
{
    if v.len() == 0 {
        Seq::empty()
    } else {
        archive_views(v.drop_last()).push(archive_view(v.last()))
    }
}

impl View for WebArchive {
    type V = ArchiveView;

    open spec fn view(&self) -> ArchiveView {
        archive_view(*self)
    }
}

/// The number of bytes of a list of resources, added up.
pub open spec fn resources_size(s: Seq<ResourceView>) -> nat
    decreases s.len(),
{
    if s.len() == 0 {
        0
    } else {
        resources_size(s.drop_last()) + s.last().data.len()
    }
}

/// The bytes of every resource that an archive holds, at any depth.
pub open spec fn total_size(a: ArchiveView) -> nat
    decreases a,
{
    a.main_resource.data.len() + match a.subresources {
        Some(s) => resources_size(s),
        None => 0,
    } + match a.subframe_archives {
        Some(s) => archives_size(s),
        None => 0,
    }
}

/// The `total_size` of each archive in a list, added up.
pub open spec fn archives_size(s: Seq<ArchiveView>) -> nat
    decreases s,
{
    if s.len() == 0 {
        0
    } else {
        archives_size(s.drop_last()) + total_size(s.last())
    }
}


pub proof fn lemma_archive_views(v: Seq<WebArchive>)
    ensures
        archive_views(v).len() == v.len(),
        forall|i: int| 0 <= i < v.len() ==> #[trigger] archive_views(v)[i] == archive_view(v[i]),
    decreases v.len(),
{
    if v.len() > 0 {
        lemma_archive_views(v.drop_last());
    }
}

/// Adding one more resource of a list adds its size.
pub proof fn lemma_resources_size_step(s: Seq<ResourceView>, i: int)
    requires
        0 <= i < s.len(),
    ensures
        resources_size(s.take(i + 1)) == resources_size(s.take(i)) + s[i].data.len(),
{
    assert(s.take(i + 1).drop_last() =~= s.take(i));
}

/// A prefix of a list of resources is no larger than the whole list.
pub proof fn lemma_resources_size_prefix(s: Seq<ResourceView>, i: int)
    requires
        0 <= i <= s.len(),
    ensures
        resources_size(s.take(i)) <= resources_size(s),
    decreases s.len() - i,
{
    if i < s.len() {
        lemma_resources_size_step(s, i);
        lemma_resources_size_prefix(s, i + 1);
    } else {
        assert(s.take(i) =~= s);
    }
}

/// Adding one more archive of a list adds its total size.
pub proof fn lemma_archives_size_step(s: Seq<ArchiveView>, i: int)
    requires
        0 <= i < s.len(),
    ensures
        archives_size(s.take(i + 1)) == archives_size(s.take(i)) + total_size(s[i]),
{
    assert(s.take(i + 1).drop_last() =~= s.take(i));
}

/// A prefix of a list of archives is no larger than the whole list.
pub proof fn lemma_archives_size_prefix(s: Seq<ArchiveView>, i: int)
    requires
        0 <= i <= s.len(),
    ensures
        archives_size(s.take(i)) <= archives_size(s),
    decreases s.len() - i,
{
    if i < s.len() {
        lemma_archives_size_step(s, i);
        lemma_archives_size_prefix(s, i + 1);
    } else {
        assert(s.take(i) =~= s);
    }
}

/// The total size of an archive is the size of its main resource, plus the
/// sizes of its subresources, plus the total size of each subframe archive.
pub proof fn lemma_size_aggregation(a: ArchiveView)
    ensures
        total_size(a) == a.main_resource.data.len() + match a.subresources {
            Some(s) => resources_size(s),
            None => 0,
        } + match a.subframe_archives {
            Some(s) => archives_size(s),
            None => 0,
        },
        a.subframe_archives matches Some(s) ==> forall|k: int|
            0 <= k < s.len() ==> #[trigger] archives_size(s.take(k + 1)) == archives_size(s.take(k))
                + total_size(s[k]),
{
    if let Some(s) = a.subframe_archives {
        assert forall|k: int| 0 <= k < s.len() implies #[trigger] archives_size(s.take(k + 1))
            == archives_size(s.take(k)) + total_size(s[k]) by {
            lemma_archives_size_step(s, k);
        }
    }
}

impl WebArchive {
    /// The number of bytes of all resources in the archive, nested archives
    /// included; metadata and response data are not counted.
    pub fn total_size(&self) -> (r: usize)
        requires
            total_size(self@) <= usize::MAX,
        ensures
            r == total_size(self@),
        decreases self,
    {
        let mut subresource_size: usize = 0;
        if let Some(subresources) = &self.subresources {
            let ghost s = resource_views(subresources@);
            proof {
                lemma_resources_size_prefix(s, s.len() as int);
                assert(s.take(s.len() as int) =~= s);
            }
            let mut i: usize = 0;
            while i < subresources.len()
                invariant
                    s == resource_views(subresources@),
                    i <= subresources.len(),
                    subresource_size == resources_size(s.take(i as int)),
                    resources_size(s) <= usize::MAX,
                decreases subresources.len() - i,
            {
                proof {
                    lemma_resources_size_step(s, i as int);
                    lemma_resources_size_prefix(s, i + 1);
                }
                subresource_size = subresource_size + subresources[i].data.len();
                i = i + 1;
            }
            assert(s.take(s.len() as int) =~= s);
        }
        let mut subframe_archive_size: usize = 0;
        if let Some(archives) = &self.subframe_archives {
            let ghost s = archive_views(archives@);
            proof {
                lemma_archive_views(archives@);
            }
            let mut i: usize = 0;
            while i < archives.len()
                invariant
                    s == archive_views(archives@),
                    s.len() == archives.len(),
                    forall|j: int| 0 <= j < archives.len() ==> #[trigger] s[j] == archives@[j]@,
                    i <= archives.len(),
                    subframe_archive_size == archives_size(s.take(i as int)),
                    archives_size(s) <= usize::MAX,
                    self.subframe_archives == Some(*archives),
                decreases archives.len() - i,
            {
                proof {
                    lemma_archives_size_step(s, i as int);
                    lemma_archives_size_prefix(s, i + 1);
                    assert(decreases_to!(self.subframe_archives => self.subframe_archives->0));
                    assert(decreases_to!(self.subframe_archives->0 => self.subframe_archives->0[i as int]));
                }
                let size = archives[i].total_size();
                subframe_archive_size = subframe_archive_size + size;
                i = i + 1;
            }
            assert(s.take(s.len() as int) =~= s);
        }
        self.main_resource.data.len() + subresource_size + subframe_archive_size
    }

    /// The number of direct subresources; none when the list is absent.
    pub fn subresource_count(&self) -> (r: usize)
        ensures
            r == match self@.subresources {
                Some(s) => s.len(),
                None => 0,
            },
    {
        match &self.subresources {
            Some(v) => v.len(),
            None => 0,
        }
    }

    /// The number of direct subframe archives; none when the list is absent.
    pub fn subframe_archive_count(&self) -> (r: usize)
        ensures
            r == match self@.subframe_archives {
                Some(s) => s.len(),
                None => 0,
            },
    {
        match &self.subframe_archives {
            Some(v) => {
                proof {
                    lemma_archive_views(v@);
                }
                v.len()
            },
            None => 0,
        }
    }
}

} // verus!
