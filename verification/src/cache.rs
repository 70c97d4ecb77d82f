use crate::guard::SLASH;
use vstd::prelude::*;

verus! {

/// The bytes of `fafind`, the cache directory of the search tool.
pub open spec fn fafind_dir() -> Seq<u8> {
    seq![0x66u8, 0x61, 0x66, 0x69, 0x6e, 0x64]
}

/// The bytes of `last`, the file that holds the last search's hits.
pub open spec fn last_file() -> Seq<u8> {
    seq![0x6cu8, 0x61, 0x73, 0x74]
}

/// The bytes of `.cache/fafind/last`, the hits file below a home directory.
pub open spec fn home_cache_file() -> Seq<u8> {
    seq![0x2eu8, 0x63, 0x61, 0x63, 0x68, 0x65, SLASH] + fafind_dir() + seq![SLASH] + last_file()
}

/// Where the last search's hits are kept, as a base path and the relative
/// paths joined onto it in turn, given the values of `FAFIND_LAST`,
/// `XDG_CACHE_HOME` and `HOME` (`None` where a variable is unset):
/// `FAFIND_LAST` itself, else `$XDG_CACHE_HOME` joined with `fafind` and then
/// `last`, else `$HOME` joined with `.cache/fafind/last`.
pub open spec fn cache_path(
    fafind_last: Option<Seq<u8>>,
    xdg_cache_home: Option<Seq<u8>>,
    home: Option<Seq<u8>>,
) -> Option<(Seq<u8>, Seq<Seq<u8>>)> {
    match (fafind_last, xdg_cache_home, home) {
        (Some(p), _, _) => Some((p, Seq::<Seq<u8>>::empty())),
        (None, Some(xdg), _) => Some((xdg, seq![fafind_dir(), last_file()])),
        (None, None, Some(h)) => Some((h, seq![home_cache_file()])),
        (None, None, None) => None,
    }
}

/// A file given as a base path and the relative paths to join onto it, in
/// order, with the platform's own path joining.
pub struct CacheFile {
    pub base: Vec<u8>,
    pub joins: Vec<Vec<u8>>,
}

impl View for CacheFile {
    type V = (Seq<u8>, Seq<Seq<u8>>);

    open spec fn view(&self) -> (Seq<u8>, Seq<Seq<u8>>) {
        (self.base@, self.joins.deep_view())
    }
}

/// The order in which the variables decide: `FAFIND_LAST`, when set, is the
/// file itself whatever the others hold; else `XDG_CACHE_HOME`, when set,
/// with `fafind` and `last` joined on, whatever `HOME` holds; else `HOME`
/// with `.cache/fafind/last` joined on; and with none set there is no file.
pub proof fn lemma_cache_precedence(
    fafind_last: Option<Seq<u8>>,
    xdg_cache_home: Option<Seq<u8>>,
    home: Option<Seq<u8>>,
)
    ensures
        fafind_last matches Some(p) ==> cache_path(fafind_last, xdg_cache_home, home) == Some(
            (p, Seq::<Seq<u8>>::empty()),
        ),
        fafind_last is None ==> (xdg_cache_home matches Some(x) ==> cache_path(
            fafind_last,
            xdg_cache_home,
            home,
        ) == Some((x, seq![seq![0x66u8, 0x61, 0x66, 0x69, 0x6e, 0x64], seq![0x6cu8, 0x61, 0x73, 0x74]]))),
        fafind_last is None && xdg_cache_home is None ==> (home matches Some(h) ==> cache_path(
            fafind_last,
            xdg_cache_home,
            home,
        ) == Some(
            (
                h,
                seq![
                    seq![
                        0x2eu8, 0x63, 0x61, 0x63, 0x68, 0x65, 0x2f,
                        0x66, 0x61, 0x66, 0x69, 0x6e, 0x64, 0x2f,
                        0x6c, 0x61, 0x73, 0x74,
                    ],
                ],
            ),
        )),
        fafind_last is None && xdg_cache_home is None && home is None ==> cache_path(
            fafind_last,
            xdg_cache_home,
            home,
        ) is None,
{
    assert(fafind_dir() =~= seq![0x66u8, 0x61, 0x66, 0x69, 0x6e, 0x64]);
    assert(last_file() =~= seq![0x6cu8, 0x61, 0x73, 0x74]);
    assert(home_cache_file() =~= seq![
        0x2eu8, 0x63, 0x61, 0x63, 0x68, 0x65, 0x2f,
        0x66, 0x61, 0x66, 0x69, 0x6e, 0x64, 0x2f,
        0x6c, 0x61, 0x73, 0x74,
    ]);
}

fn fafind_dir_bytes() -> (v: Vec<u8>)
    ensures
        v@ == fafind_dir(),
{
    let v: Vec<u8> = vec![0x66u8, 0x61, 0x66, 0x69, 0x6e, 0x64];
    assert(v@ =~= fafind_dir());
    v
}

fn last_file_bytes() -> (v: Vec<u8>)
    ensures
        v@ == last_file(),
{
    let v: Vec<u8> = vec![0x6cu8, 0x61, 0x73, 0x74];
    assert(v@ =~= last_file());
    v
}

fn home_cache_file_bytes() -> (v: Vec<u8>)
    ensures
        v@ == home_cache_file(),
{
    let v: Vec<u8> = vec![
        0x2eu8, 0x63, 0x61, 0x63, 0x68, 0x65, SLASH,
        0x66, 0x61, 0x66, 0x69, 0x6e, 0x64, SLASH,
        0x6c, 0x61, 0x73, 0x74,
    ];
    assert(v@ =~= home_cache_file());
    v
}

/// The file that holds the last search's hits, from the values of the
/// variables `FAFIND_LAST`, `XDG_CACHE_HOME` and `HOME`; `None` when all three
/// are unset.
pub fn last_cache_path(
    fafind_last: Option<Vec<u8>>,
    xdg_cache_home: Option<Vec<u8>>,
    home: Option<Vec<u8>>,
) -> (path: Option<CacheFile>)
    ensures
        path is None <==> cache_path(
            fafind_last.deep_view(),
            xdg_cache_home.deep_view(),
            home.deep_view(),
        ) is None,
        path matches Some(f) ==> Some(f@) == cache_path(
            fafind_last.deep_view(),
            xdg_cache_home.deep_view(),
            home.deep_view(),
        ),
{
    if let Some(p) = fafind_last {
        let joins: Vec<Vec<u8>> = Vec::new();
        assert(p.deep_view() =~= p@);
        assert(joins.deep_view() =~= Seq::<Seq<u8>>::empty());
        return Some(CacheFile { base: p, joins });
    }
    if let Some(xdg) = xdg_cache_home {
        let mut joins: Vec<Vec<u8>> = Vec::new();
        let dir = fafind_dir_bytes();
        let file = last_file_bytes();
        assert(dir.deep_view() =~= dir@);
        assert(file.deep_view() =~= file@);
        joins.push(dir);
        joins.push(file);
        assert(xdg.deep_view() =~= xdg@);
        assert(joins.deep_view() =~= seq![fafind_dir(), last_file()]);
        return Some(CacheFile { base: xdg, joins });
    }
    match home {
        Some(h) => {
            let mut joins: Vec<Vec<u8>> = Vec::new();
            let file = home_cache_file_bytes();
            assert(file.deep_view() =~= file@);
            joins.push(file);
            assert(h.deep_view() =~= h@);
            assert(joins.deep_view() =~= seq![home_cache_file()]);
            Some(CacheFile { base: h, joins })
        },
        None => None,
    }
}

/// The last search's hits file, or, when none of `FAFIND_LAST`,
/// `XDG_CACHE_HOME` and `HOME` is set, the failure reported for it: not
/// found, `no cache dir; set FAFIND_LAST`.
pub fn last_hits_file(
    fafind_last: Option<Vec<u8>>,
    xdg_cache_home: Option<Vec<u8>>,
    home: Option<Vec<u8>>,
) -> (r: Result<CacheFile, Replacement>)
    ensures
        r is Err <==> cache_path(
            fafind_last.deep_view(),
            xdg_cache_home.deep_view(),
            home.deep_view(),
        ) is None,
        r matches Ok(f) ==> Some(f@) == cache_path(
            fafind_last.deep_view(),
            xdg_cache_home.deep_view(),
            home.deep_view(),
        ),
        r matches Err(rep) ==> rep.kind == ErrorKind::NotFound && rep.message@
            == "no cache dir; set FAFIND_LAST"@,
{
    match last_cache_path(fafind_last, xdg_cache_home, home) {
        Some(f) => Ok(f),
        None => {
            let message = "no cache dir; set FAFIND_LAST".to_string();
            Err(Replacement { kind: ErrorKind::NotFound, message })
        },
    }
}

/// Where the list of hits is read from.
#[derive(PartialEq, Eq, Structural, Clone, Copy, Debug)]
pub enum InputSource {
    /// The file named on the command line.
    File,
    /// Standard input, which is a pipe or a file.
    Stdin,
    /// The last search's hits file.
    LastHits,
}

/// A file named on the command line is read first; else standard input, when
/// it is not a terminal; else the last search's hits.
pub fn input_source(has_file: bool, stdin_is_terminal: bool) -> (src: InputSource)
    ensures
        src == (if has_file {
            InputSource::File
        } else if !stdin_is_terminal {
            InputSource::Stdin
        } else {
            InputSource::LastHits
        }),
{
    if has_file {
        InputSource::File
    } else if !stdin_is_terminal {
        InputSource::Stdin
    } else {
        InputSource::LastHits
    }
}

/// The kinds of file-system failure that the decisions tell apart.
#[derive(PartialEq, Eq, Structural, Clone, Copy, Debug)]
pub enum ErrorKind {
    NotFound,
    PermissionDenied,
    IsADirectory,
    Other,
}

/// A failure reported in place of the one that the file system gave.
pub struct Replacement {
    pub kind: ErrorKind,
    pub message: String,
}

/// Reading the hits file named on the command line failed with `kind`: a
/// directory is reported as `<path>: is a directory, not a fafind hits file`,
/// where `shown_path` is how the path is displayed; any other failure is
/// reported as it came (`None`).
pub fn annotate_directory(kind: ErrorKind, shown_path: &str) -> (r: Option<Replacement>)
    ensures
        r is Some <==> kind == ErrorKind::IsADirectory,
        r matches Some(rep) ==> rep.kind == ErrorKind::IsADirectory && rep.message@ == shown_path@
            + ": is a directory, not a fafind hits file"@,
{
    match kind {
        ErrorKind::IsADirectory => {
            let message = shown_path.to_string().concat(": is a directory, not a fafind hits file");
            Some(Replacement { kind: ErrorKind::IsADirectory, message })
        },
        _ => None,
    }
}

/// Reading the last search's hits file failed with `kind`. No search writes a
/// directory there, so a directory means that no hits were recorded yet: it is
/// reported as not found, `no last faf hits`; any other failure is reported as
/// it came (`None`).
pub fn read_cache_error(kind: ErrorKind) -> (r: Option<Replacement>)
    ensures
        r is Some <==> kind == ErrorKind::IsADirectory,
        r matches Some(rep) ==> rep.kind == ErrorKind::NotFound && rep.message@
            == "no last faf hits"@,
{
    match kind {
        ErrorKind::IsADirectory => {
            let message = "no last faf hits".to_string();
            Some(Replacement { kind: ErrorKind::NotFound, message })
        },
        _ => None,
    }
}

} // verus!
