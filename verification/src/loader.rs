//! Driver library resolution and loading: a configured, `;`-separated
//! search path is consulted in listed order for `directory/name.so`, and
//! the first existing candidate is opened as a dynamically loaded
//! library. The open handle is owned by one `Loader` and released exactly
//! once, when the `Loader` is dropped; no API releases it early or
//! duplicates ownership.

use vstd::prelude::*;
use vstd::string::StrSliceExecFns;

verus! {

/// A runtime failure of resolution or loading.
#[derive(Debug)]
pub enum LoaderError {
    /// The search path holds no existing candidate for the requested name.
    LibraryNotFound { name: String },
    /// The dynamic loader rejected the resolved artifact.
    LoadError { detail: String },
}

/// View of a loader error.
pub enum LoaderErrV {
    LibraryNotFound(Seq<char>),
    LoadError(Seq<char>),
}

impl View for LoaderError {
    type V = LoaderErrV;

    open spec fn view(&self) -> LoaderErrV {
        match self {
            LoaderError::LibraryNotFound { name } => LoaderErrV::LibraryNotFound(name@),
            LoaderError::LoadError { detail } => LoaderErrV::LoadError(detail@),
        }
    }
}

/// Splitting at every `;`, keeping empty pieces: the semantics of
/// splitting a string on one separator character.
pub open spec fn spec_split(s: Seq<char>) -> Seq<Seq<char>>
    decreases s.len(),
{
    if s.len() == 0 {
        seq![Seq::<char>::empty()]
    } else if s[0] == ';' {
        seq![Seq::<char>::empty()] + spec_split(s.drop_first())
    } else {
        let rest = spec_split(s.drop_first());
        seq![seq![s[0]] + rest[0]] + rest.drop_first()
    }
}

/// The index of the first `;`, or the length if there is none.
pub open spec fn first_semi(s: Seq<char>) -> int
    decreases s.len(),
{
    if s.len() == 0 {
        0
    } else if s[0] == ';' {
        0
    } else {
        1 + first_semi(s.drop_first())
    }
}

proof fn lemma_first_semi_bounds(s: Seq<char>)
    ensures
        0 <= first_semi(s) <= s.len(),
    decreases s.len(),
{
    if s.len() > 0 && s[0] != ';' {
        lemma_first_semi_bounds(s.drop_first());
    }
}

proof fn lemma_first_semi_at(s: Seq<char>, k: int)
    requires
        0 <= k < s.len(),
        s[k] == ';',
        forall|j: int| 0 <= j < k ==> s[j] != ';',
    ensures
        first_semi(s) == k,
    decreases k,
{
    if k > 0 {
        assert(s.drop_first()[k - 1] == s[k]);
        assert(forall|j: int| 0 <= j < k - 1 ==> s.drop_first()[j] == s[j + 1]);
        lemma_first_semi_at(s.drop_first(), k - 1);
    }
}

proof fn lemma_first_semi_none(s: Seq<char>)
    requires
        forall|j: int| 0 <= j < s.len() ==> s[j] != ';',
    ensures
        first_semi(s) == s.len(),
    decreases s.len(),
{
    if s.len() > 0 {
        assert(forall|j: int| 0 <= j < s.drop_first().len() ==> s.drop_first()[j] == s[j + 1]);
        lemma_first_semi_none(s.drop_first());
    }
}

/// The split's first piece runs to the first `;`, and the remaining
/// pieces split what follows it.
proof fn lemma_split_first(s: Seq<char>)
    ensures
        spec_split(s).len() >= 1,
        spec_split(s)[0] == s.take(first_semi(s)),
        first_semi(s) < s.len() ==> spec_split(s) == seq![s.take(first_semi(s))] + spec_split(
            s.skip(first_semi(s) + 1),
        ),
        first_semi(s) == s.len() ==> spec_split(s) == seq![s],
    decreases s.len(),
{
    let f = first_semi(s);
    lemma_first_semi_bounds(s);
    if s.len() == 0 {
        assert(s.take(0) =~= s);
        assert(s =~= Seq::<char>::empty());
        assert(spec_split(s) =~= seq![s]);
    } else if s[0] == ';' {
        assert(s.take(0) =~= Seq::<char>::empty());
        assert(s.skip(1) =~= s.drop_first());
    } else {
        let d = s.drop_first();
        lemma_split_first(d);
        lemma_first_semi_bounds(d);
        let fd = first_semi(d);
        assert(f == 1 + fd);
        assert(forall|j: int| 0 <= j < d.len() ==> d[j] == s[j + 1]);
        assert(s.take(f) =~= seq![s[0]] + d.take(fd));
        let rest = spec_split(d);
        assert(spec_split(s) == seq![seq![s[0]] + rest[0]] + rest.drop_first());
        assert(spec_split(s)[0] == seq![s[0]] + d.take(fd));
        if f < s.len() {
            assert(fd < d.len());
            assert(rest == seq![d.take(fd)] + spec_split(d.skip(fd + 1)));
            assert(rest.drop_first() =~= spec_split(d.skip(fd + 1)));
            assert(d.skip(fd + 1) =~= s.skip(f + 1));
            assert(spec_split(s) =~= seq![s.take(f)] + spec_split(s.skip(f + 1)));
        } else {
            assert(fd == d.len());
            assert(rest == seq![d]);
            assert(rest.drop_first() =~= Seq::<Seq<char>>::empty());
            assert(seq![s[0]] + d =~= s);
            assert(spec_split(s) =~= seq![s]);
        }
    }
}

/// Splits a search-path string at every `;`, keeping empty entries.
pub fn split_search_path(s: &str) -> (r: Vec<String>)
    ensures
        r@.map_values(|x: String| x@) == spec_split(s@),
{
    let n = s.unicode_len();
    let mut parts: Vec<String> = Vec::new();
    let mut start: usize = 0;
    let mut i: usize = 0;
    proof {
        assert(s@.skip(0) =~= s@);
        assert(parts@.map_values(|x: String| x@) + spec_split(s@)
            =~= spec_split(s@));
    }
    while i < n
        invariant
            n == s@.len(),
            0 <= start <= i <= n,
            forall|j: int| start <= j < i ==> s@[j] != ';',
            spec_split(s@) == parts@.map_values(|x: String| x@) + spec_split(s@.skip(start as int)),
        decreases n - i,
    {
        let c = s.get_char(i);
        if c == ';' {
            let piece = s.substring_char(start, i).to_owned();
            let ghost pv = parts@.map_values(|x: String| x@);
            let ghost tail = s@.skip(start as int);
            proof {
                assert(forall|j: int| 0 <= j < tail.len() ==> tail[j] == s@[start + j]);
                lemma_first_semi_at(tail, i - start);
                lemma_split_first(tail);
                assert(tail.take(i - start) =~= s@.subrange(start as int, i as int));
                assert(tail.skip(i - start + 1) =~= s@.skip(i + 1));
                assert(piece@ == tail.take(i - start));
            }
            parts.push(piece);
            start = i + 1;
            proof {
                assert(parts@.map_values(|x: String| x@) =~= pv.push(piece@));
                assert(pv + (seq![piece@] + spec_split(s@.skip(start as int)))
                    =~= pv.push(piece@) + spec_split(s@.skip(start as int)));
            }
        }
        i += 1;
    }
    let piece = s.substring_char(start, n).to_owned();
    let ghost pv = parts@.map_values(|x: String| x@);
    let ghost tail = s@.skip(start as int);
    proof {
        assert(forall|j: int| 0 <= j < tail.len() ==> tail[j] == s@[start + j]);
        lemma_first_semi_none(tail);
        lemma_split_first(tail);
        assert(piece@ == s@.subrange(start as int, n as int));
        assert(piece@ =~= tail);
    }
    parts.push(piece);
    proof {
        assert(parts@.map_values(|x: String| x@) =~= pv.push(piece@));
        assert(pv + seq![tail] =~= pv.push(piece@));
    }
    parts
}

/// View of an optional configured string.
pub open spec fn opt_str_view(o: Option<String>) -> Option<Seq<char>> {
    match o {
        Option::Some(s) => Option::Some(s@),
        Option::None => Option::None,
    }
}

/// The candidate paths for `name`: one `directory/name.so` per search
/// path entry, in listed order; none when the search path is unset.
pub open spec fn spec_candidates(sp: Option<Seq<char>>, name: Seq<char>) -> Seq<Seq<char>> {
    match sp {
        Option::Some(s) => spec_split(s).map_values(|d: Seq<char>| d + "/"@ + name + ".so"@),
        Option::None => Seq::empty(),
    }
}

/// Builds every candidate path for `name` from the configured search
/// path, in listed order.
pub fn candidate_paths(search_path: &Option<String>, name: &str) -> (r: Vec<String>)
    ensures
        r@.map_values(|x: String| x@) == spec_candidates(opt_str_view(*search_path), name@),
{
    match search_path {
        None => {
            let r: Vec<String> = Vec::new();
            proof {
                assert(r@.map_values(|x: String| x@) =~= Seq::<Seq<char>>::empty());
            }
            r
        },
        Some(s) => {
            let parts = split_search_path(s.as_str());
            let mut out: Vec<String> = Vec::new();
            let mut i: usize = 0;
            while i < parts.len()
                invariant
                    0 <= i <= parts.len(),
                    out@.map_values(|x: String| x@) =~= spec_split(s@).map_values(
                        |d: Seq<char>| d + "/"@ + name@ + ".so"@,
                    ).take(i as int),
                    parts@.map_values(|x: String| x@) == spec_split(s@),
                decreases parts.len() - i,
            {
                let cand = parts[i].clone().concat("/").concat(name).concat(".so");
                let ghost ov = out@.map_values(|x: String| x@);
                out.push(cand);
                proof {
                    assert(cand@ == parts@[i as int]@ + "/"@ + name@ + ".so"@);
                    assert(out@.map_values(|x: String| x@) =~= ov.push(cand@));
                    assert(out@.map_values(|x: String| x@) =~= spec_split(s@).map_values(
                        |d: Seq<char>| d + "/"@ + name@ + ".so"@,
                    ).take(i as int + 1));
                }
                i += 1;
            }
            proof {
                assert(spec_split(s@).map_values(|d: Seq<char>| d + "/"@ + name@ + ".so"@).take(
                    i as int,
                ) =~= spec_split(s@).map_values(|d: Seq<char>| d + "/"@ + name@ + ".so"@));
            }
            out
        },
    }
}

/// View of (candidate path, exists) entries.
pub open spec fn entries_view(v: Seq<(String, bool)>) -> Seq<(Seq<char>, bool)> {
    v.map_values(|p: (String, bool)| (p.0@, p.1))
}

/// Resolution over (candidate, exists) entries: the first existing
/// candidate, or `LibraryNotFound` carrying the requested name when no
/// candidate exists (in particular when the list is empty).
pub open spec fn spec_resolve(n: Seq<char>, es: Seq<(Seq<char>, bool)>) -> Result<
    Seq<char>,
    LoaderErrV,
>
    decreases es.len(),
{
    if es.len() == 0 {
        Err(LoaderErrV::LibraryNotFound(n))
    } else if es[0].1 {
        Ok(es[0].0)
    } else {
        spec_resolve(n, es.drop_first())
    }
}

/// Law: resolution returns the first entry, in listed order, that
/// exists; it fails exactly when no entry exists, and then always with
/// `LibraryNotFound` carrying the requested name.
pub proof fn lemma_resolve_first_hit(n: Seq<char>, es: Seq<(Seq<char>, bool)>, i: int)
    requires
        0 <= i < es.len(),
        es[i].1,
        forall|j: int| 0 <= j < i ==> !es[j].1,
    ensures
        spec_resolve(n, es) == Ok::<Seq<char>, LoaderErrV>(es[i].0),
    decreases i,
{
    if i > 0 {
        assert(es.drop_first()[i - 1] == es[i]);
        assert(forall|j: int| 0 <= j < i - 1 ==> es.drop_first()[j] == es[j + 1]);
        lemma_resolve_first_hit(n, es.drop_first(), i - 1);
    }
}

/// Law: with no existing entry, resolution fails with `LibraryNotFound`
/// carrying the requested name.
pub proof fn lemma_resolve_none(n: Seq<char>, es: Seq<(Seq<char>, bool)>)
    requires
        forall|j: int| 0 <= j < es.len() ==> !es[j].1,
    ensures
        spec_resolve(n, es) == Err::<Seq<char>, LoaderErrV>(LoaderErrV::LibraryNotFound(n)),
    decreases es.len(),
{
    if es.len() > 0 {
        assert(forall|j: int| 0 <= j < es.drop_first().len() ==> es.drop_first()[j] == es[j + 1]);
        lemma_resolve_none(n, es.drop_first());
    }
}

/// Picks the first entry marked existing, in listed order; fails with
/// `LibraryNotFound` carrying `name` when none is.
pub fn resolve_first(name: &str, entries: &Vec<(String, bool)>) -> (r: Result<
    String,
    LoaderError,
>)
    ensures
        match r {
            Ok(p) => spec_resolve(name@, entries_view(entries@)) == Ok::<Seq<char>, LoaderErrV>(
                p@,
            ),
            Err(e) => spec_resolve(name@, entries_view(entries@)) == Err::<Seq<char>, LoaderErrV>(
                e@,
            ),
        },
{
    let ghost ev = entries_view(entries@);
    let mut i: usize = 0;
    while i < entries.len()
        invariant
            0 <= i <= entries.len(),
            ev == entries_view(entries@),
            forall|j: int| 0 <= j < i ==> !ev[j].1,
        decreases entries.len() - i,
    {
        if entries[i].1 {
            proof {
                lemma_resolve_first_hit(name@, ev, i as int);
            }
            return Ok(entries[i].0.clone());
        }
        i += 1;
    }
    proof {
        lemma_resolve_none(name@, ev);
    }
    Err(LoaderError::LibraryNotFound { name: name.to_owned() })
}

/// Declares `libloading::Library` so that a `Loader` can own the handle.
#[verifier::external_type_specification]
#[verifier::external_body]
pub struct ExLibrary(libloading::Library);

/// Declares `libloading::Error` so that the load failure can be mapped
/// to this library's error type.
#[verifier::external_type_specification]
#[verifier::external_body]
pub struct ExLibloadingError(libloading::Error);

/// Relies on `libloading::Library::new`: opens the shared library at
/// `path`; whether it succeeds depends on what is on disk, so nothing
/// more is assumed of the outcome. The handle is released when the
/// returned value is dropped.
#[verifier::external_body]
fn open_library(path: &String) -> Result<libloading::Library, libloading::Error> {
    libloading::Library::new(path.as_str())
}

/// Relies on the `Display` rendering of `libloading::Error` for a
/// human-readable diagnostic.
#[verifier::external_body]
fn lib_error_text(e: &libloading::Error) -> String {
    format!("{}", e)
}

/// A resolved path paired with the open dynamic-library handle. The
/// handle is exclusively owned: it is released exactly once, when the
/// `Loader` is dropped, and symbols obtained from it are valid only
/// while the `Loader` is alive (a caller obligation this type cannot
/// enforce beyond scoping the handle's lifetime).
pub struct Loader {
    path: String,
    lib: libloading::Library,
}

impl View for Loader {
    type V = Seq<char>;

    closed spec fn view(&self) -> Seq<char> {
        self.path@
    }
}

impl Loader {
    /// Resolves `name` against the (candidate path, exists) entries, in
    /// listed order, and opens the first existing candidate. Fails with
    /// `LibraryNotFound` exactly when no candidate exists; a
    /// `LoadError` can only come from an existing candidate the dynamic
    /// loader rejected.
    pub fn new(name: &str, entries: &Vec<(String, bool)>) -> (r: Result<Loader, LoaderError>)
        ensures
            match spec_resolve(name@, entries_view(entries@)) {
                Ok(p) => match r {
                    Ok(l) => l@ == p,
                    Err(e) => e@ is LoadError,
                },
                Err(e0) => r matches Err(e) && e@ == e0,
            },
    {
        let path = match resolve_first(name, entries) {
            Ok(p) => p,
            Err(e) => {
                return Err(e);
            },
        };
        match open_library(&path) {
            Ok(lib) => Ok(Loader { path, lib }),
            Err(e) => Err(LoaderError::LoadError { detail: lib_error_text(&e) }),
        }
    }

    /// The resolved path this loader owns.
    pub fn path(&self) -> (r: &String)
        ensures
            r@ == self@,
    {
        &self.path
    }
}

} // verus!
