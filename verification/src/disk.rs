//! Filesystem access, abstracted so embedders can substitute their own.

use vstd::hash_map::StringHashMap;
use vstd::prelude::*;
use vstd::string::*;
use vstd::utf8::*;

use crate::canon::dir_name;
use crate::error::Error;
use crate::text::string_from_utf8;
use crate::text_map::TextMap;

verus! {

broadcast use vstd::hash_map::group_hash_map_axioms;

use crate::canon::{dir_part, not_sep, sep};
use crate::error::ErrorView;
use crate::text::{ascending, lemma_scan_back, scan_back, texts};

/// The outcome of an operation by what it says.
pub type Outcome<T> = Result<T, ErrorView>;

/// Whether a result says what `w` does.
pub open spec fn same_outcome<T>(r: Result<T, Error>, w: Outcome<T>) -> bool {
    match (r, w) {
        (Ok(a), Ok(b)) => a == b,
        (Err(e), Err(f)) => e@ == f,
        _ => false,
    }
}

/// Whether the bytes that were read are what `w` says.
pub open spec fn same_content(
    r: Result<Option<Vec<u8>>, Error>,
    w: Outcome<Option<Seq<u8>>>,
) -> bool {
    match (r, w) {
        (Ok(None), Ok(None)) => true,
        (Ok(Some(a)), Ok(Some(b))) => a@ == b,
        (Err(e), Err(f)) => e@ == f,
        _ => false,
    }
}

/// Filesystem operations the build engine needs.
///
/// What an operation returns, and what it changes, is a function of the disk's
/// model; asking changes nothing. The functions that speak of the model stand
/// in contracts only: an implementation whose contracts are not checked leaves
/// them out.
pub trait DiskInterface: Sized {
    /// What the disk holds.
    type Model;

    /// The model of this disk.
    closed spec fn model(&self) -> Self::Model {
        arbitrary()
    }

    /// The mtime of a path.
    closed spec fn mtime_of(m: Self::Model, path: Seq<char>) -> Outcome<i64> {
        arbitrary()
    }

    /// The contents of a path.
    closed spec fn content_of(m: Self::Model, path: Seq<char>) -> Outcome<Option<Seq<u8>>> {
        arbitrary()
    }

    /// What creating a directory returns and leaves.
    closed spec fn dir_made(m: Self::Model, path: Seq<char>) -> (Outcome<()>, Self::Model) {
        arbitrary()
    }

    /// What writing a file returns and leaves.
    closed spec fn written(m: Self::Model, path: Seq<char>, text: Seq<char>, crlf: bool) -> (
        Outcome<()>,
        Self::Model,
    ) {
        arbitrary()
    }

    /// What removing a file returns and leaves.
    closed spec fn removed(m: Self::Model, path: Seq<char>) -> (Outcome<bool>, Self::Model) {
        arbitrary()
    }

    /// Return the mtime of `path` in nanoseconds since the Unix epoch, or 0 if
    /// it does not exist. Errors are reserved for real failures (e.g. EACCES).
    fn stat(&self, path: &str) -> (r: Result<i64, Error>)
        ensures
            same_outcome(r, Self::mtime_of(self.model(), path@)),
    ;

    /// Create the directory `path`. Succeeds if it already exists.
    fn make_dir(&mut self, path: &str) -> (r: Result<(), Error>)
        ensures
            same_outcome(r, Self::dir_made(old(self).model(), path@).0),
            final(self).model() == Self::dir_made(old(self).model(), path@).1,
    ;

    /// Write `contents` to `path`, creating or truncating it. When
    /// `crlf_on_windows` is set, `\n` is translated to `\r\n` on Windows.
    fn write_file(&mut self, path: &str, contents: &str, crlf_on_windows: bool) -> (r: Result<
        (),
        Error,
    >)
        ensures
            same_outcome(
                r,
                Self::written(old(self).model(), path@, contents@, crlf_on_windows).0,
            ),
            final(self).model() == Self::written(
                old(self).model(),
                path@,
                contents@,
                crlf_on_windows,
            ).1,
    ;

    /// Read `path`. Returns `Ok(None)` when the file does not exist.
    fn read_file(&self, path: &str) -> (r: Result<Option<Vec<u8>>, Error>)
        ensures
            same_content(r, Self::content_of(self.model(), path@)),
    ;

    /// Remove `path`, like `rm -f`. Returns true if a file was removed, false
    /// if it did not exist.
    fn remove_file(&mut self, path: &str) -> (r: Result<bool, Error>)
        ensures
            same_outcome(r, Self::removed(old(self).model(), path@).0),
            final(self).model() == Self::removed(old(self).model(), path@).1,
    ;
}

/// The directory part of a path is shorter than the path.
pub proof fn lemma_dir_part_shorter(s: Seq<char>)
    ensures
        dir_part(s).len() < s.len() || dir_part(s).len() == 0,
{
    let n = s.len() as int;
    lemma_scan_back(s, n, not_sep());
    let after = scan_back(s, n, not_sep());
    if after > 0 {
        lemma_scan_back(s, after, sep());
        assert(s[after - 1] == '/');
        assert(sep()(s[after - 1]));
    }
}

/// What creating all parent directories of a path returns and leaves: nothing
/// happens when there is no parent or it exists, otherwise its own parents are
/// created first and then the parent.
pub open spec fn dirs_made<D: DiskInterface>(m: D::Model, path: Seq<char>) -> (
    Outcome<()>,
    D::Model,
)
    decreases path.len(),
{
    let dir = dir_part(path);
    if dir.len() == 0 {
        (Ok(()), m)
    } else {
        proof {
            lemma_dir_part_shorter(path);
        }
        match D::mtime_of(m, dir) {
            Err(e) => (Err(e), m),
            Ok(t) => if t > 0 {
                (Ok(()), m)
            } else if dir.len() < path.len() {
                let up = dirs_made::<D>(m, dir);
                match up.0 {
                    Err(e) => up,
                    Ok(_) => D::dir_made(up.1, dir),
                }
            } else {
                (Ok(()), m)
            },
        }
    }
}

/// Create all parent directories of `path`, like `mkdir -p $(dirname path)`.
pub fn make_dirs<D: DiskInterface>(disk: &mut D, path: &str) -> (r: Result<(), Error>)
    ensures
        same_outcome(r, dirs_made::<D>(old(disk).model(), path@).0),
        final(disk).model() == dirs_made::<D>(old(disk).model(), path@).1,
    decreases path@.len(),
{
    let dir = dir_name(path);
    if dir.is_empty() {
        return Ok(());
    }
    proof {
        lemma_dir_part_shorter(path@);
    }
    match disk.stat(dir) {
        Err(e) => {
            return Err(e);
        },
        Ok(mtime) => {
            if mtime > 0 {
                return Ok(());
            }
        },
    }
    match make_dirs(disk, dir) {
        Err(e) => Err(e),
        Ok(_) => disk.make_dir(dir),
    }
}

/// What reading a path as text gives.
pub open spec fn text_of<D: DiskInterface>(m: D::Model, path: Seq<char>) -> Outcome<
    Option<Seq<char>>,
> {
    match D::content_of(m, path) {
        Err(e) => Err(e),
        Ok(None) => Ok(None),
        Ok(Some(b)) => if valid_utf8(b) {
            Ok(Some(decode_utf8(b)))
        } else {
            Err(ErrorView::Io(path, "file is not valid UTF-8"@))
        },
    }
}

/// Read `path` as UTF-8 text.
pub fn read_file_text<D: DiskInterface>(disk: &D, path: &str) -> (r: Result<Option<String>, Error>)
    ensures
        match (r, text_of::<D>(disk.model(), path@)) {
            (Ok(None), Ok(None)) => true,
            (Ok(Some(s)), Ok(Some(t))) => s@ == t,
            (Err(e), Err(f)) => e@ == f,
            _ => false,
        },
{
    match disk.read_file(path) {
        Err(e) => Err(e),
        Ok(None) => Ok(None),
        Ok(Some(bytes)) => match string_from_utf8(bytes) {
            Some(s) => Ok(Some(s)),
            None => Err(Error::Io(path.to_owned(), "file is not valid UTF-8".to_owned())),
        },
    }
}

/// What an in-memory filesystem holds.
pub struct MemDiskView {
    /// Files with their contents and mtimes.
    pub files: Map<Seq<char>, (Seq<u8>, i64)>,
    /// Directories with their mtimes.
    pub dirs: Map<Seq<char>, i64>,
    /// The virtual time.
    pub clock: i64,
}

/// A file of an in-memory filesystem.
struct MemFile {
    content: Vec<u8>,
    mtime: i64,
}

/// How far the virtual clock advances at a time.
pub const TICK: i64 = 1_000_000_000;

/// An in-memory filesystem, useful for tests and for embedders that generate
/// manifests on the fly.
pub struct MemDisk {
    files: TextMap<MemFile>,
    dirs: StringHashMap<i64>,
    clock: i64,
}

impl View for MemDisk {
    type V = MemDiskView;

    closed spec fn view(&self) -> MemDiskView {
        MemDiskView {
            files: self.files@.map_values(|f: MemFile| (f.content@, f.mtime)),
            dirs: self.dirs@,
            clock: self.clock,
        }
    }
}

impl MemDisk {
    /// An empty filesystem.
    pub fn new() -> (r: MemDisk)
        ensures
            r@ == (MemDiskView { files: Map::empty(), dirs: Map::empty(), clock: TICK }),
    {
        let r = MemDisk { files: TextMap::new(), dirs: StringHashMap::new(), clock: TICK };
        assert(r@.files =~= Map::empty());
        r
    }

    /// Advance the virtual clock, so files written next look newer.
    pub fn tick(&mut self) -> (r: i64)
        requires
            old(self)@.clock <= i64::MAX - TICK,
        ensures
            final(self)@ == (MemDiskView { clock: (old(self)@.clock + TICK) as i64, ..old(self)@ }),
            r == final(self)@.clock,
    {
        let now: i64 = self.clock + TICK;
        self.clock = now;
        now
    }

    /// The current virtual time.
    pub fn now(&self) -> (r: i64)
        ensures
            r == self@.clock,
    {
        self.clock
    }

    /// Create or overwrite a file with the current virtual mtime.
    pub fn create(&mut self, path: &str, contents: &[u8])
        ensures
            final(self)@ == (MemDiskView {
                files: old(self)@.files.insert(path@, (contents@, old(self)@.clock)),
                ..old(self)@
            }),
    {
        let content = vstd::slice::slice_to_vec(contents);
        let file = MemFile { content, mtime: self.clock };
        self.files.insert(path, file);
        assert(self@.files =~= old(self)@.files.insert(path@, (contents@, old(self)@.clock)));
    }

    /// True if `path` exists as a file.
    pub fn contains(&self, path: &str) -> (r: bool)
        ensures
            r == self@.files.contains_key(path@),
    {
        self.files.contains_key(path)
    }

    /// The contents of `path`, if it exists.
    pub fn contents(&self, path: &str) -> (r: Option<Vec<u8>>)
        ensures
            match r {
                Some(v) => self@.files.contains_key(path@) && v@ == self@.files[path@].0,
                None => !self@.files.contains_key(path@),
            },
    {
        match self.files.get(path) {
            Some(f) => {
                let v = f.content.clone();
                assert(v@ =~= f.content@);
                Some(v)
            },
            None => None,
        }
    }

    /// Every file path present, sorted.
    pub fn paths(&self) -> (r: Vec<String>)
        ensures
            ascending(texts(r@)),
            forall|p: Seq<char>| #[trigger]
                texts(r@).contains(p) <==> self@.files.contains_key(p),
    {
        let names = self.files.keys();
        let mut out: Vec<String> = Vec::new();
        let mut i: usize = 0;
        while i < names.len()
            invariant
                i <= names.len(),
                out@.len() == i,
                forall|k: int| 0 <= k < i ==> (#[trigger] out@[k])@ == names@[k]@,
            decreases names.len() - i,
        {
            out.push(names[i].clone());
            i += 1;
        }
        assert(texts(out@) =~= texts(names@));
        out
    }
}

impl DiskInterface for MemDisk {
    type Model = MemDiskView;

    open spec fn model(&self) -> MemDiskView {
        self@
    }

    open spec fn mtime_of(m: MemDiskView, path: Seq<char>) -> Outcome<i64> {
        if m.files.contains_key(path) {
            Ok(m.files[path].1)
        } else if m.dirs.contains_key(path) {
            Ok(m.dirs[path])
        } else {
            Ok(0)
        }
    }

    open spec fn content_of(m: MemDiskView, path: Seq<char>) -> Outcome<Option<Seq<u8>>> {
        if m.files.contains_key(path) {
            Ok(Some(m.files[path].0))
        } else {
            Ok(None)
        }
    }

    open spec fn dir_made(m: MemDiskView, path: Seq<char>) -> (Outcome<()>, MemDiskView) {
        (Ok(()), MemDiskView { dirs: m.dirs.insert(path, m.clock), ..m })
    }

    open spec fn written(m: MemDiskView, path: Seq<char>, text: Seq<char>, crlf: bool) -> (
        Outcome<()>,
        MemDiskView,
    ) {
        (
            Ok(()),
            MemDiskView { files: m.files.insert(path, (encode_utf8(text), m.clock)), ..m },
        )
    }

    open spec fn removed(m: MemDiskView, path: Seq<char>) -> (Outcome<bool>, MemDiskView) {
        (
            Ok(m.files.contains_key(path)),
            MemDiskView { files: m.files.remove(path), ..m },
        )
    }

    fn stat(&self, path: &str) -> (r: Result<i64, Error>) {
        match self.files.get(path) {
            Some(f) => {
                return Ok(f.mtime);
            },
            None => {},
        }
        match self.dirs.get(path) {
            Some(t) => Ok(*t),
            None => Ok(0),
        }
    }

    fn make_dir(&mut self, path: &str) -> (r: Result<(), Error>) {
        self.dirs.insert(path.to_owned(), self.clock);
        Ok(())
    }

    fn write_file(&mut self, path: &str, contents: &str, crlf_on_windows: bool) -> (r: Result<
        (),
        Error,
    >) {
        self.create(path, contents.as_bytes());
        Ok(())
    }

    fn read_file(&self, path: &str) -> (r: Result<Option<Vec<u8>>, Error>) {
        Ok(self.contents(path))
    }

    fn remove_file(&mut self, path: &str) -> (r: Result<bool, Error>) {
        let there: bool = self.contains(path);
        self.files.remove(path);
        assert(self@.files =~= old(self)@.files.remove(path@));
        Ok(there)
    }
}

/// A file reads back as what was last written to it, and no other file changes.
pub proof fn law_read_gives_back_what_was_written(
    m: MemDiskView,
    path: Seq<char>,
    text: Seq<char>,
    crlf: bool,
    other: Seq<char>,
)
    ensures
        ({
            let w = MemDisk::written(m, path, text, crlf).1;
            &&& MemDisk::content_of(w, path) == Ok::<Option<Seq<u8>>, ErrorView>(
                Some(encode_utf8(text)),
            )
            &&& text_of::<MemDisk>(w, path) == Ok::<Option<Seq<char>>, ErrorView>(Some(text))
            &&& other != path ==> MemDisk::content_of(w, other) == MemDisk::content_of(m, other)
        }),
{
    encode_utf8_valid_utf8(text);
    encode_utf8_decode_utf8(text);
}

/// A removed file is gone.
pub proof fn law_removed_files_are_gone(m: MemDiskView, path: Seq<char>)
    ensures
        MemDisk::content_of(MemDisk::removed(m, path).1, path) == Ok::<
            Option<Seq<u8>>,
            ErrorView,
        >(None),
{
}

proof fn lemma_dirs_made_keeps_files(m: MemDiskView, path: Seq<char>)
    ensures
        dirs_made::<MemDisk>(m, path).0 is Ok,
        dirs_made::<MemDisk>(m, path).1.files == m.files,
        dirs_made::<MemDisk>(m, path).1.clock == m.clock,
        forall|d: Seq<char>| #[trigger]
            m.dirs.contains_key(d) ==> dirs_made::<MemDisk>(m, path).1.dirs.contains_key(d) && (
            dirs_made::<MemDisk>(m, path).1.dirs[d] == m.dirs[d] || dirs_made::<MemDisk>(
                m,
                path,
            ).1.dirs[d] == m.clock),
    decreases path.len(),
{
    let dir = dir_part(path);
    lemma_dir_part_shorter(path);
    if dir.len() > 0 && dir.len() < path.len() {
        lemma_dirs_made_keeps_files(m, dir);
    }
}

/// Creating the parent directories of a path makes its directory exist, and
/// the directory of that directory, and so on. File times and the clock are
/// positive, as they are on every disk that was not made with other times.
pub proof fn law_parent_directories_exist(m: MemDiskView, path: Seq<char>)
    requires
        m.clock > 0,
        forall|p: Seq<char>| #[trigger] m.files.contains_key(p) ==> m.files[p].1 > 0,
        dir_part(path).len() > 0,
    ensures
        MemDisk::mtime_of(dirs_made::<MemDisk>(m, path).1, dir_part(path)) matches Ok(t) && t > 0,
        MemDisk::mtime_of(m, dir_part(path)) == Ok::<i64, ErrorView>(0) && dir_part(
            dir_part(path),
        ).len() > 0 ==> (MemDisk::mtime_of(
            dirs_made::<MemDisk>(m, path).1,
            dir_part(dir_part(path)),
        ) matches Ok(t) && t > 0),
{
    let dir = dir_part(path);
    lemma_dir_part_shorter(path);
    lemma_dir_part_shorter(dir);
    lemma_dirs_made_keeps_files(m, dir);
    let up = dir_part(dir);
    if up.len() > 0 {
        lemma_dirs_made_keeps_files(m, up);
    }
}

/// Whether something exists at a path.
pub open spec fn present<D: DiskInterface>(m: D::Model, path: Seq<char>) -> bool {
    D::mtime_of(m, path) matches Ok(t) && t > 0
}

/// Whether no file is at a path.
pub open spec fn gone<D: DiskInterface>(m: D::Model, path: Seq<char>) -> bool {
    D::content_of(m, path) == Ok::<Option<Seq<u8>>, ErrorView>(None)
}

/// Whether everything but `path` is on one disk what it is on the other.
pub open spec fn same_elsewhere<D: DiskInterface>(
    m: D::Model,
    n: D::Model,
    path: Seq<char>,
) -> bool {
    forall|q: Seq<char>|
        q != path ==> #[trigger] D::content_of(n, q) == D::content_of(m, q) && present::<D>(n, q)
            == present::<D>(m, q)
}

/// Whether a disk, as long as `ok` holds of it, is a filesystem: a directory
/// that was made exists, a file that was written exists and holds what was
/// written, a file that was removed is gone, which is told if it was there, and
/// nothing else changes.
pub open spec fn is_filesystem<D: DiskInterface>(ok: spec_fn(D::Model) -> bool) -> bool {
    &&& forall|m: D::Model, p: Seq<char>|
        ok(m) ==> {
            let n = (#[trigger] D::dir_made(m, p)).1;
            &&& ok(n)
            &&& same_elsewhere::<D>(m, n, p)
            &&& D::content_of(n, p) == D::content_of(m, p)
            &&& present::<D>(m, p) ==> present::<D>(n, p)
            &&& D::dir_made(m, p).0 is Ok ==> present::<D>(n, p)
        }
    &&& forall|m: D::Model, p: Seq<char>, text: Seq<char>, crlf: bool|
        ok(m) ==> {
            let n = (#[trigger] D::written(m, p, text, crlf)).1;
            &&& ok(n)
            &&& same_elsewhere::<D>(m, n, p)
            &&& present::<D>(m, p) ==> present::<D>(n, p)
            &&& D::written(m, p, text, crlf).0 is Ok ==> present::<D>(n, p) && D::content_of(n, p)
                == Ok::<Option<Seq<u8>>, ErrorView>(Some(encode_utf8(text)))
        }
    &&& forall|m: D::Model, p: Seq<char>|
        ok(m) ==> {
            let n = (#[trigger] D::removed(m, p)).1;
            &&& ok(n)
            &&& same_elsewhere::<D>(m, n, p)
            &&& D::removed(m, p).0 matches Ok(there) ==> gone::<D>(n, p) && there == !gone::<D>(m, p)
            &&& gone::<D>(m, p) ==> gone::<D>(n, p)
        }
}

/// Whether the times of an in-memory filesystem are those of files that exist.
pub open spec fn has_times(m: MemDiskView) -> bool {
    &&& m.clock > 0
    &&& forall|p: Seq<char>| #[trigger] m.files.contains_key(p) ==> m.files[p].1 > 0
    &&& forall|p: Seq<char>| #[trigger] m.dirs.contains_key(p) ==> m.dirs[p] > 0
}

/// An in-memory filesystem is a filesystem.
pub proof fn law_memory_is_a_filesystem()
    ensures
        is_filesystem::<MemDisk>(|m: MemDiskView| has_times(m)),
{
}

/// Whether all directories that a path leads through exist: each is what stands
/// before a separator, unless that is another separator.
pub open spec fn has_directories<D: DiskInterface>(m: D::Model, path: Seq<char>) -> bool {
    forall|i: int|
        0 < i < path.len() && #[trigger] path[i] == '/' && path[i - 1] != '/' ==> present::<D>(
            m,
            path.take(i),
        )
}

/// Whether the directory that a path is in exists: what stands before the last
/// of its separators that do not follow another and are followed by something.
pub open spec fn has_directory<D: DiskInterface>(m: D::Model, path: Seq<char>) -> bool {
    forall|i: int|
        0 < i < path.len() && #[trigger] path[i] == '/' && path[i - 1] != '/' && (forall|j: int|
            i < j < path.len() && #[trigger] path[j] == '/' ==> path[j - 1] == '/')
            ==> present::<D>(m, path.take(i))
}

/// Whether everything that exists is in directories that exist.
pub open spec fn is_tree<D: DiskInterface>(m: D::Model) -> bool {
    forall|q: Seq<char>| #[trigger] present::<D>(m, q) ==> has_directories::<D>(m, q)
}

proof fn lemma_dir_part(path: Seq<char>)
    ensures
        dir_part(path).len() <= path.len(),
        dir_part(path) == path.take(dir_part(path).len() as int),
        dir_part(path).len() > 0 ==> dir_part(path).len() < path.len() && path[dir_part(
            path,
        ).len() as int] == '/' && path[dir_part(path).len() - 1] != '/',
        forall|i: int|
            0 < i < path.len() && #[trigger] path[i] == '/' && path[i - 1] != '/' ==> i <= dir_part(
                path,
            ).len(),
{
    let n = path.len() as int;
    lemma_scan_back(path, n, not_sep());
    let after = scan_back(path, n, not_sep());
    if after > 0 {
        lemma_scan_back(path, after, sep());
        let k = scan_back(path, after, sep());
        assert(!not_sep()(path[after - 1]));
        assert(dir_part(path) =~= path.take(k));
        assert(sep()(path[after - 1]));
        assert(k < after);
        assert(sep()(path[k]));
        if k > 0 {
            assert(!sep()(path[k - 1]));
        }
        assert forall|i: int|
            0 < i < path.len() && #[trigger] path[i] == '/' && path[i - 1] != '/' implies i <= k by {
            if i > k {
                if i >= after {
                    assert(not_sep()(path[i]));
                } else {
                    assert(sep()(path[i - 1]));
                }
            }
        }
    } else {
        assert(dir_part(path) =~= path.take(0));
        assert forall|i: int| 0 < i < path.len() && #[trigger] path[i] == '/' implies false by {
            assert(not_sep()(path[i]));
        }
    }
}

proof fn lemma_directories<D: DiskInterface>(m: D::Model, path: Seq<char>)
    requires
        dir_part(path).len() > 0,
        present::<D>(m, dir_part(path)),
        has_directories::<D>(m, dir_part(path)),
    ensures
        has_directories::<D>(m, path),
{
    let dir = dir_part(path);
    lemma_dir_part(path);
    assert forall|i: int|
        0 < i < path.len() && #[trigger] path[i] == '/' && path[i - 1] != '/' implies present::<D>(
        m,
        path.take(i),
    ) by {
        if i < dir.len() {
            assert(dir[i] == '/' && dir[i - 1] != '/');
            assert(dir.take(i) =~= path.take(i));
        } else {
            assert(path.take(i) =~= dir);
        }
    }
}

proof fn lemma_directory<D: DiskInterface>(m: D::Model, path: Seq<char>)
    requires
        dir_part(path).len() > 0 ==> present::<D>(m, dir_part(path)),
    ensures
        has_directory::<D>(m, path),
{
    let dir = dir_part(path);
    let k = dir.len() as int;
    lemma_dir_part(path);
    assert forall|i: int|
        0 < i < path.len() && #[trigger] path[i] == '/' && path[i - 1] != '/' && (forall|j: int|
            i < j < path.len() && #[trigger] path[j] == '/' ==> path[j - 1]
                == '/') implies present::<D>(m, path.take(i)) by {
        if i < k {
            assert(path[k] == '/');
        }
        assert(i == k);
    }
}

/// Making the directories of a path makes the one that it is in, and all of them
/// where everything that exists is in directories that exist; it keeps what
/// exists, and touches no file.
pub proof fn law_directories_are_made<D: DiskInterface>(
    ok: spec_fn(D::Model) -> bool,
    m: D::Model,
    path: Seq<char>,
)
    requires
        is_filesystem::<D>(ok),
        ok(m),
    ensures
        ({
            let (r, n) = dirs_made::<D>(m, path);
            &&& ok(n)
            &&& r is Ok ==> has_directory::<D>(n, path)
            &&& is_tree::<D>(m) ==> is_tree::<D>(n) && (r is Ok ==> has_directories::<D>(n, path))
            &&& forall|q: Seq<char>| #[trigger] present::<D>(m, q) ==> present::<D>(n, q)
            &&& forall|q: Seq<char>| #[trigger] D::content_of(n, q) == D::content_of(m, q)
        }),
    decreases path.len(),
{
    let dir = dir_part(path);
    lemma_dir_part_shorter(path);
    lemma_dir_part(path);
    if dir.len() == 0 {
        assert(has_directories::<D>(m, path));
        lemma_directory::<D>(m, path);
    } else {
        let t = D::mtime_of(m, dir);
        if t is Ok && t->Ok_0 > 0 {
            assert(present::<D>(m, dir));
            lemma_directory::<D>(m, path);
            if is_tree::<D>(m) {
                lemma_directories::<D>(m, path);
            }
        } else if t is Ok {
            law_directories_are_made::<D>(ok, m, dir);
            let (r, u) = dirs_made::<D>(m, dir);
            if r is Ok {
                let (o, n) = D::dir_made(u, dir);
                assert(ok(n) && same_elsewhere::<D>(u, n, dir));
                assert forall|q: Seq<char>| #[trigger] D::content_of(n, q) == D::content_of(
                    m,
                    q,
                ) by {
                    assert(D::content_of(u, q) == D::content_of(m, q));
                }
                assert forall|q: Seq<char>| #[trigger] present::<D>(u, q) implies present::<D>(
                    n,
                    q,
                ) by {
                    if q != dir {
                        assert(D::content_of(n, q) == D::content_of(u, q));
                    }
                }
                assert forall|q: Seq<char>|
                    is_tree::<D>(m) && #[trigger] present::<D>(n, q) implies has_directories::<D>(
                    n,
                    q,
                ) by {
                    if q != dir {
                        assert(D::content_of(n, q) == D::content_of(u, q));
                        assert(present::<D>(u, q));
                    }
                    assert(has_directories::<D>(u, q));
                    assert forall|i: int|
                        0 < i < q.len() && #[trigger] q[i] == '/' && q[i - 1]
                            != '/' implies present::<D>(n, q.take(i)) by {
                        assert(present::<D>(u, q.take(i)));
                    }
                }
                if o is Ok {
                    assert(present::<D>(n, dir));
                    lemma_directory::<D>(n, path);
                    if is_tree::<D>(m) {
                        lemma_directories::<D>(n, path);
                    }
                }
            }
        }
    }
}

} // verus!
