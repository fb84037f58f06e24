//! Unpacking an archive into files: the path of each resource, derived from
//! its URL, and the order in which the files are written.
use vstd::prelude::*;
use vstd::string::StringExecFns;
use crate::model::{
    ArchiveView, ResourceView, WebArchive, WebResource, archive_views, lemma_archive_views,
    resource_views,
};

verus! {

/// The extensions that `mime_guess` knows for a MIME type, in its table's
/// order; none for a type it does not know.
pub uninterp spec fn mime_extensions(mime_type: Seq<char>) -> Option<Seq<Seq<char>>>;

pub open spec fn strings_view(v: Seq<String>) -> Seq<Seq<char>> {
    Seq::new(v.len(), |i: int| v[i]@)
}

/// Relies on mime_guess::get_mime_extensions_str: a lookup in a fixed table,
/// so the result depends on the MIME type alone.
#[verifier::external_body]
fn extensions_for(mime_type: &str) -> (r: Option<Vec<String>>)
    ensures
        match r {
            Some(v) => mime_extensions(mime_type@) == Some(strings_view(v@)),
            None => mime_extensions(mime_type@) is None,
        },
{
    mime_guess::get_mime_extensions_str(mime_type).map(
        |exts| exts.iter().map(|e| e.to_string()).collect(),
    )
}

/// Why no file path can be derived from a URL.
#[derive(Debug, Clone, Copy, PartialEq, Eq, Structural)]
pub enum PathError {
    /// Nothing is left of the URL once its scheme is taken off.
    NoFileName,
    /// The path would leave the destination directory: it is absolute, or
    /// one of its segments is `..`.
    EscapesDestination,
}

/// Whether `//` starts at position `i`.
pub open spec fn double_slash_at(url: Seq<char>, i: int) -> bool {
    0 <= i && i + 1 < url.len() && url[i] == '/' && url[i + 1] == '/'
}

/// What follows the first `//` of a URL (scheme and separator taken off);
/// the whole URL where it has none.
pub open spec fn url_remainder(url: Seq<char>) -> Seq<char> {
    if exists|i: int| double_slash_at(url, i) {
        let i = choose|i: int|
            double_slash_at(url, i) && forall|j: int| 0 <= j < i ==> !double_slash_at(url, j);
        url.subrange(i + 2, url.len() as int)
    } else {
        url
    }
}

/// Some segment of the path, between slashes or at either end, is `..`.
pub open spec fn has_parent_segment(p: Seq<char>) -> bool {
    exists|i: int|
        0 <= i && i + 2 <= p.len() && #[trigger] p[i] == '.' && p[i + 1] == '.' && (i == 0 || p[i
            - 1] == '/') && (i + 2 == p.len() || p[i + 2] == '/')
}

/// The extension of a file that stands for a directory-like URL: the last
/// that the table gives, `txt` where it gives none.
pub open spec fn index_extension(exts: Option<Seq<Seq<char>>>) -> Seq<char> {
    match exts {
        Some(s) => if s.len() > 0 {
            s.last()
        } else {
            "txt"@
        },
        None => "txt"@,
    }
}

/// The relative path of the file for a URL, given the extensions of its
/// resource's MIME type: the URL's remainder, with `_unnamed_index.` and an
/// extension added where it ends in `/`.
pub open spec fn derived_path(url: Seq<char>, exts: Option<Seq<Seq<char>>>) -> Result<Seq<char>, PathError> {
    let rest = url_remainder(url);
    if rest.len() == 0 {
        Err(PathError::NoFileName)
    } else if rest[0] == '/' || has_parent_segment(rest) {
        Err(PathError::EscapesDestination)
    } else if rest.last() == '/' {
        Ok(rest + "_unnamed_index."@ + index_extension(exts))
    } else {
        Ok(rest)
    }
}

fn chars_of(s: &str) -> (r: Vec<char>)
    ensures
        r@ == s@,
{
    let n = s.unicode_len();
    let mut out: Vec<char> = Vec::new();
    let mut i: usize = 0;
    while i < n
        invariant
            n == s@.len(),
            i <= n,
            out@ == s@.take(i as int),
        decreases n - i,
    {
        out.push(s.get_char(i));
        i = i + 1;
        assert(out@ =~= s@.take(i as int));
    }
    assert(s@.take(n as int) =~= s@);
    out
}

fn string_of(c: &Vec<char>, from: usize) -> (r: String)
    requires
        from <= c.len(),
    ensures
        r@ == c@.subrange(from as int, c.len() as int),
{
    let mut out = String::new();
    let mut i: usize = from;
    while i < c.len()
        invariant
            from <= i <= c.len(),
            out@ == c@.subrange(from as int, i as int),
        decreases c.len() - i,
    {
        let mut one = String::new();
        let ch = c[i];
        push_char(&mut one, ch);
        out.append(one.as_str());
        i = i + 1;
        assert(out@ =~= c@.subrange(from as int, i as int));
    }
    out
}

/// Relies on String::push: the character is added at the end.
#[verifier::external_body]
fn push_char(s: &mut String, c: char)
    ensures
        final(s)@ == old(s)@.push(c),
{
    s.push(c)
}

/// The extension for a directory-like URL, from the extensions that the
/// MIME table gave: the last one, or `txt` where there is none.
pub fn index_file_extension(extensions: &Option<Vec<String>>) -> (r: String)
    ensures
        r@ == index_extension(
            match extensions {
                Some(v) => Some(strings_view(v@)),
                None => None,
            },
        ),
{
    match extensions {
        Some(v) => {
            if v.len() > 0 {
                v[v.len() - 1].clone()
            } else {
                String::from_str("txt")
            }
        },
        None => String::from_str("txt"),
    }
}

/// Where the remainder of a URL starts: after its first `//`, or at its
/// start where it has none.
fn remainder_start(c: &Vec<char>) -> (start: usize)
    ensures
        start <= c.len(),
        c@.subrange(start as int, c.len() as int) == url_remainder(c@),
{
    let ghost u = c@;
    let mut i: usize = 0;
    while i < c.len()
        invariant
            c@ == u,
            i <= c.len(),
            forall|j: int| 0 <= j < i ==> !double_slash_at(u, j),
        decreases c.len() - i,
    {
        if i + 1 < c.len() && c[i] == '/' && c[i + 1] == '/' {
            proof {
                let k = choose|k: int|
                    double_slash_at(u, k) && forall|j: int| 0 <= j < k ==> !double_slash_at(u, j);
                assert(double_slash_at(u, i as int));
                if k < i {
                } else if k > i {
                }
            }
            return i + 2;
        }
        i = i + 1;
    }
    proof {
        assert forall|j: int| !double_slash_at(u, j) by {
            if double_slash_at(u, j) {
                assert(j < i);
            }
        }
        assert(u.subrange(0, u.len() as int) =~= u);
    }
    0
}

fn tail(c: &Vec<char>, start: usize) -> (r: Vec<char>)
    requires
        start <= c.len(),
    ensures
        r@ == c@.subrange(start as int, c.len() as int),
{
    let mut out: Vec<char> = Vec::new();
    let mut i: usize = start;
    while i < c.len()
        invariant
            start <= i <= c.len(),
            out@ == c@.subrange(start as int, i as int),
        decreases c.len() - i,
    {
        out.push(c[i]);
        i = i + 1;
        assert(out@ =~= c@.subrange(start as int, i as int));
    }
    out
}

fn has_parent_segment_exec(p: &Vec<char>) -> (r: bool)
    ensures
        r == has_parent_segment(p@),
{
    let n = p.len();
    let mut k: usize = 0;
    while k < n
        invariant
            n == p.len(),
            k <= n,
            forall|m: int|
                0 <= m < k ==> !(m + 2 <= p@.len() && #[trigger] p@[m] == '.' && p@[m + 1] == '.' && (
                m == 0 || p@[m - 1] == '/') && (m + 2 == p@.len() || p@[m + 2] == '/')),
        decreases n - k,
    {
        if k + 1 < n && p[k] == '.' && p[k + 1] == '.' && (k == 0 || p[k - 1] == '/') && (k + 2 == n
            || p[k + 2] == '/') {
            return true;
        }
        k = k + 1;
    }
    false
}

/// The relative path of the file for a URL, given the extensions that the
/// MIME table gives for its resource's type.
pub fn path_for(url: &str, extensions: &Option<Vec<String>>) -> (r: Result<String, PathError>)
    ensures
        match r {
            Ok(p) => derived_path(
                url@,
                match extensions {
                    Some(v) => Some(strings_view(v@)),
                    None => None,
                },
            ) == Ok::<Seq<char>, PathError>(p@),
            Err(e) => derived_path(
                url@,
                match extensions {
                    Some(v) => Some(strings_view(v@)),
                    None => None,
                },
            ) == Err::<Seq<char>, PathError>(e),
        },
{
    let c = chars_of(url);
    let start = remainder_start(&c);
    let rest = tail(&c, start);
    let n = rest.len();
    if n == 0 {
        return Err(PathError::NoFileName);
    }
    if rest[0] == '/' || has_parent_segment_exec(&rest) {
        return Err(PathError::EscapesDestination);
    }
    let mut path = string_of(&rest, 0);
    assert(rest@.subrange(0, n as int) =~= rest@);
    if rest[n - 1] == '/' {
        path.append("_unnamed_index.");
        let ext = index_file_extension(extensions);
        path.append(ext.as_str());
    }
    Ok(path)
}

/// The relative path of the file that a resource is written to.
pub fn relative_path(resource: &WebResource) -> (r: Result<String, PathError>)
    ensures
        match r {
            Ok(p) => derived_path(resource.url@, mime_extensions(resource.mime_type@))
                == Ok::<Seq<char>, PathError>(p@),
            Err(e) => derived_path(resource.url@, mime_extensions(resource.mime_type@))
                == Err::<Seq<char>, PathError>(e),
        },
{
    let exts = extensions_for(resource.mime_type.as_str());
    path_for(resource.url.as_str(), &exts)
}


/// Every resource of an archive in the order it is extracted: the main
/// resource, the subresources in list order, then each subframe archive in
/// list order, depth first.
pub open spec fn flatten(a: ArchiveView) -> Seq<ResourceView>
    decreases a,
{
    seq![a.main_resource] + match a.subresources {
        Some(s) => s,
        None => Seq::empty(),
    } + match a.subframe_archives {
        Some(s) => flatten_all(s),
        None => Seq::empty(),
    }
}

pub open spec fn flatten_all(s: Seq<ArchiveView>) -> Seq<ResourceView>
    decreases s,
{
    if s.len() == 0 {
        Seq::empty()
    } else {
        flatten_all(s.drop_last()) + flatten(s.last())
    }
}

/// The file for each resource of a list, as path and bytes; or the URL and
/// error of the first resource whose path cannot be derived, if any.
pub open spec fn plan_of(s: Seq<ResourceView>) -> Result<Seq<(Seq<char>, Seq<u8>)>, (Seq<char>, PathError)>
    decreases s.len(),
{
    if s.len() == 0 {
        Ok(Seq::empty())
    } else {
        match plan_of(s.drop_last()) {
            Err(e) => Err(e),
            Ok(x) => match derived_path(s.last().url, mime_extensions(s.last().mime_type)) {
                Err(e) => Err((s.last().url, e)),
                Ok(p) => Ok(x.push((p, s.last().data))),
            },
        }
    }
}

pub proof fn lemma_plan_of_concat(a: Seq<ResourceView>, b: Seq<ResourceView>)
    ensures
        plan_of(a + b) == match plan_of(a) {
            Err(e) => Err(e),
            Ok(x) => match plan_of(b) {
                Err(e) => Err(e),
                Ok(y) => Ok(x + y),
            },
        },
    decreases b.len(),
{
    if b.len() == 0 {
        assert(a + b =~= a);
        if let Ok(x) = plan_of(a) {
            assert(x + Seq::<(Seq<char>, Seq<u8>)>::empty() =~= x);
        }
    } else {
        assert((a + b).drop_last() =~= a + b.drop_last());
        lemma_plan_of_concat(a, b.drop_last());
        if let Ok(x) = plan_of(a) {
            if let Ok(y) = plan_of(b.drop_last()) {
                if let Ok(p) = derived_path(b.last().url, mime_extensions(b.last().mime_type)) {
                    assert(x + y.push((p, b.last().data)) =~= (x + y).push((p, b.last().data)));
                }
            }
        }
    }
}

/// A resource whose URL gives no safe file path.
#[derive(Debug)]
pub struct PlanError {
    /// The resource's URL.
    pub url: String,
    /// Why it gives no path.
    pub reason: PathError,
}

/// A file to write: its path relative to the destination, and its bytes.
pub struct PlannedFile {
    pub path: String,
    pub data: Vec<u8>,
}

pub open spec fn planned(v: Seq<PlannedFile>) -> Seq<(Seq<char>, Seq<u8>)> {
    Seq::new(v.len(), |i: int| (v[i].path@, v[i].data@))
}

fn plan_resource_into(r: &WebResource, out: &mut Vec<PlannedFile>) -> (res: Result<(), PlanError>)
    ensures
        match res {
            Ok(_) => derived_path(r.url@, mime_extensions(r.mime_type@)) matches Ok(p)
                && planned(final(out)@) == planned(old(out)@).push((p, r.data@)),
            Err(e) => e.url@ == r.url@ && derived_path(r.url@, mime_extensions(r.mime_type@))
                == Err::<Seq<char>, PathError>(e.reason),
        },
{
    match relative_path(r) {
        Ok(path) => {
            let f = PlannedFile { path, data: vstd::slice::slice_to_vec(r.data.as_slice()) };
            out.push(f);
            assert(planned(out@) =~= planned(old(out)@).push((f.path@, r.data@)));
            Ok(())
        },
        Err(reason) => Err(PlanError { url: r.url.clone(), reason }),
    }
}

fn plan_archive_into(a: &WebArchive, out: &mut Vec<PlannedFile>) -> (res: Result<(), PlanError>)
    ensures
        match res {
            Ok(_) => plan_of(flatten(a@)) matches Ok(x) && planned(final(out)@) == planned(old(out)@) + x,
            Err(e) => plan_of(flatten(a@)) == Err::<Seq<(Seq<char>, Seq<u8>)>, (Seq<char>, PathError)>(
                (e.url@, e.reason),
            ),
        },
    decreases a,
{
    let ghost start = planned(out@);
    let ghost main = seq![a.main_resource@];
    let ghost subs = match a@.subresources {
        Some(s) => s,
        None => Seq::empty(),
    };
    let ghost frames = match a@.subframe_archives {
        Some(s) => flatten_all(s),
        None => Seq::empty(),
    };
    assert(flatten(a@) == main + subs + frames);
    proof {
        reveal_with_fuel(plan_of, 2);
        assert(main.drop_last() =~= Seq::<ResourceView>::empty());
    }
    match plan_resource_into(&a.main_resource, out) {
        Ok(_) => {},
        Err(e) => {
            proof {
                lemma_plan_of_concat(main, subs);
                lemma_plan_of_concat(main + subs, frames);
            }
            return Err(e);
        },
    }
    assert(plan_of(main) matches Ok(x) && planned(out@) == start + x);
    let ghost mut done = main;
    if let Some(subresources) = &a.subresources {
        let ghost sv = resource_views(subresources@);
        let mut i: usize = 0;
        while i < subresources.len()
            invariant
                sv == resource_views(subresources@),
                a@.subresources == Some(sv),
                subs == sv,
                i <= subresources.len(),
                done == main + sv.take(i as int),
                flatten(a@) == main + subs + frames,
                main == seq![a.main_resource@],
                plan_of(done) matches Ok(x) && planned(out@) == start + x,
            decreases subresources.len() - i,
        {
            let ghost before = planned(out@);
            assert((main + sv.take(i + 1)).drop_last() =~= main + sv.take(i as int));
            match plan_resource_into(&subresources[i], out) {
                Ok(_) => {},
                Err(e) => {
                    proof {
                        lemma_plan_of_concat(main + sv.take(i + 1), sv.skip(i + 1));
                        assert(main + sv.take(i + 1) + sv.skip(i + 1) =~= main + subs);
                        lemma_plan_of_concat(main + subs, frames);
                    }
                    return Err(e);
                },
            }
            i = i + 1;
            proof {
                done = main + sv.take(i as int);
                let x = plan_of(done)->Ok_0;
                assert(planned(out@) =~= start + x);
            }
        }
        assert(sv.take(sv.len() as int) =~= sv);
    } else {
        assert(main + subs =~= main);
    }
    assert(done == main + subs);
    if let Some(archives) = &a.subframe_archives {
        let ghost av = archive_views(archives@);
        proof {
            lemma_archive_views(archives@);
        }
        let mut i: usize = 0;
        while i < archives.len()
            invariant
                av == archive_views(archives@),
                av.len() == archives.len(),
                forall|j: int| 0 <= j < archives.len() ==> #[trigger] av[j] == archives@[j]@,
                a.subframe_archives == Some(*archives),
                a@.subframe_archives == Some(av),
                frames == flatten_all(av),
                i <= archives.len(),
                done == main + subs + flatten_all(av.take(i as int)),
                flatten(a@) == main + subs + frames,
                plan_of(done) matches Ok(x) && planned(out@) == start + x,
            decreases archives.len() - i,
        {
            assert(av.take(i + 1).drop_last() =~= av.take(i as int));
            assert(flatten_all(av.take(i + 1)) == flatten_all(av.take(i as int)) + flatten(av[i as int]));
            let ghost mid = planned(out@);
            proof {
                assert(decreases_to!(a.subframe_archives => a.subframe_archives->0));
                assert(decreases_to!(a.subframe_archives->0 => a.subframe_archives->0[i as int]));
            }
            let res = plan_archive_into(&archives[i], out);
            proof {
                lemma_plan_of_concat(done, flatten(av[i as int]));
                assert(main + subs + flatten_all(av.take(i + 1)) =~= done + flatten(av[i as int]));
            }
            match res {
                Ok(_) => {},
                Err(e) => {
                    proof {
                        let rest = av.skip(i + 1);
                        lemma_flatten_all_concat(av.take(i + 1), rest);
                        assert(av.take(i + 1) + rest =~= av);
                        lemma_plan_of_concat(done + flatten(av[i as int]), flatten_all(rest));
                        assert(main + subs + frames =~= done + flatten(av[i as int]) + flatten_all(rest));
                    }
                    return Err(e);
                },
            }
            proof {
                let x = plan_of(flatten(av[i as int]))->Ok_0;
                let y = plan_of(done)->Ok_0;
                assert(planned(out@) =~= start + (y + x));
            }
            i = i + 1;
            proof {
                done = main + subs + flatten_all(av.take(i as int));
            }
        }
        assert(av.take(av.len() as int) =~= av);
    } else {
        assert(main + subs + frames =~= main + subs);
    }
    Ok(())
}

pub proof fn lemma_flatten_all_concat(a: Seq<ArchiveView>, b: Seq<ArchiveView>)
    ensures
        flatten_all(a + b) == flatten_all(a) + flatten_all(b),
    decreases b.len(),
{
    if b.len() == 0 {
        assert(a + b =~= a);
        assert(flatten_all(a) + Seq::<ResourceView>::empty() =~= flatten_all(a));
    } else {
        assert((a + b).drop_last() =~= a + b.drop_last());
        lemma_flatten_all_concat(a, b.drop_last());
        assert(flatten_all(a) + flatten_all(b.drop_last()) + flatten(b.last()) =~= flatten_all(a) + (
        flatten_all(b.drop_last()) + flatten(b.last())));
    }
}

/// The files that extracting an archive writes, in the order they are
/// written; or, where some resource's URL gives no safe path, the URL and
/// error of the first such resource in that order, before anything is
/// written.
pub fn plan_extraction(archive: &WebArchive) -> (r: Result<Vec<PlannedFile>, PlanError>)
    ensures
        match r {
            Ok(v) => plan_of(flatten(archive@)) matches Ok(x) && x == planned(v@),
            Err(e) => plan_of(flatten(archive@)) == Err::<Seq<(Seq<char>, Seq<u8>)>, (Seq<char>, PathError)>(
                (e.url@, e.reason),
            ),
        },
{
    let mut out: Vec<PlannedFile> = Vec::new();
    assert(planned(out@) =~= Seq::empty());
    match plan_archive_into(archive, &mut out) {
        Ok(_) => {
            assert(planned(out@) =~= Seq::empty() + plan_of(flatten(archive@))->Ok_0);
            Ok(out)
        },
        Err(e) => Err(e),
    }
}


/// The state of an extraction that writes its files one after the other and
/// stops at the first that cannot be written.
pub struct ExtractionRun {
    /// How many files have been written.
    pub written: usize,
    /// How many files there are to write.
    pub total: usize,
    /// Whether a write has failed.
    pub failed: bool,
}

/// The file to write next, if any.
pub open spec fn next_of(run: ExtractionRun) -> Option<usize> {
    if run.failed || run.written >= run.total {
        None
    } else {
        Some(run.written)
    }
}

/// The state after the outcome of writing the next file.
pub open spec fn after(run: ExtractionRun, ok: bool) -> ExtractionRun {
    if ok {
        ExtractionRun { written: (run.written + 1) as usize, ..run }
    } else {
        ExtractionRun { failed: true, ..run }
    }
}

impl ExtractionRun {
    /// A run over `total` files, none written yet.
    pub fn new(total: usize) -> (r: ExtractionRun)
        ensures
            r == (ExtractionRun { written: 0, total, failed: false }),
    {
        ExtractionRun { written: 0, total, failed: false }
    }

    /// The index of the file to write next; none once all are written or one
    /// has failed.
    pub fn next_file(&self) -> (r: Option<usize>)
        ensures
            r == next_of(*self),
    {
        if self.failed || self.written >= self.total {
            None
        } else {
            Some(self.written)
        }
    }

    /// Takes note of whether the file that `next_file` named was written.
    pub fn record(&mut self, ok: bool)
        requires
            next_of(*old(self)) is Some,
        ensures
            *final(self) == after(*old(self), ok),
    {
        if ok {
            self.written = self.written + 1;
        } else {
            self.failed = true;
        }
    }
}

/// Once a write has failed, no further file is written: the run names no
/// next file, and the files it let through are exactly those before the
/// failed one.
pub proof fn lemma_fail_fast(run: ExtractionRun)
    requires
        next_of(run) is Some,
    ensures
        next_of(after(run, false)) is None,
        after(run, false).written == run.written,
        next_of(after(run, true)) is Some ==> next_of(after(run, true)) == Some((run.written + 1) as usize),
{
}

} // verus!
