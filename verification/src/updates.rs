//! The update log of the Shelv web site: versions named like `1.3.9` or
//! `1_3_9`, update folders named `<version>[-<name>]`, and the file system
//! abstraction the log is read through.
use vstd::prelude::*;
use vstd::utf8::{is_char_boundary, valid_utf8, encode_utf8_valid_utf8, valid_utf8_concat};
use crate::fs_path::{lemma_comps_view_push, comps_view, path_comps, join_spec, comps_of, join_comps, comps_eq, comps_less, comps_starts_with, comps_start_with, comps_lt, lemma_comps_lt_order};
use crate::num_text::{parse_uint_spec, parse_u32, format_u32, radix_digits};
use crate::text_bytes::{
    utf8_bytes, split_spec, split_str, first_index_of, index_of_byte, sub_string, append_str,
    lemma_first_index_props, lemma_ascii_boundaries, lemma_ascii_valid, lemma_splice_valid,
    splice, string_from_utf8, push_all, lemma_ascii_chars_bytes,
};

verus! {

broadcast use vstd::seq::group_seq_axioms;

/// A file path.
#[derive(Debug, Clone, PartialEq, Eq, PartialOrd, Ord)]
pub struct FsFile(Vec<String>);

/// A directory path.
#[derive(Debug, Clone, PartialEq, Eq, PartialOrd, Ord)]
pub struct FsDir(Vec<String>);

/// An entry of a directory listing.
#[derive(Debug, Clone, PartialEq, Eq)]
pub enum FsEntry {
    File(FsFile),
    Dir(FsDir),
}

impl FsFile {
    pub closed spec fn comps(&self) -> Seq<Seq<u8>> {
        comps_view(self.0@)
    }

    /// The file at the `/`-separated path `path`.
    pub fn new(path: &str) -> (r: Self)
        ensures
            r.comps() == path_comps(utf8_bytes(path@)),
    {
        FsFile(comps_of(path))
    }

    /// The path written out with `/` between components.
    pub fn path(&self) -> (r: String)
        ensures
            utf8_bytes(r@) == join_spec(self.comps()),
    {
        join_comps(&self.0)
    }
}

impl FsDir {
    pub closed spec fn comps(&self) -> Seq<Seq<u8>> {
        comps_view(self.0@)
    }

    /// The directory at the `/`-separated path `path`.
    pub fn new(path: &str) -> (r: Self)
        ensures
            r.comps() == path_comps(utf8_bytes(path@)),
    {
        FsDir(comps_of(path))
    }

    /// The path written out with `/` between components.
    pub fn path(&self) -> (r: String)
        ensures
            utf8_bytes(r@) == join_spec(self.comps()),
    {
        join_comps(&self.0)
    }

    pub fn duplicate(&self) -> (r: Self)
        ensures
            r.comps() == self.comps(),
    {
        let v = self.0.clone();
        assert(v@ =~= self.0@);
        FsDir(v)
    }
}

impl FsEntry {
    /// The path of the entry, file or directory.
    pub open spec fn comps(&self) -> Seq<Seq<u8>> {
        match self {
            FsEntry::File(f) => f.comps(),
            FsEntry::Dir(d) => d.comps(),
        }
    }

    pub fn as_file(&self) -> (r: Option<&FsFile>)
        ensures
            r is Some <==> self is File,
            r matches Some(f) ==> *self == FsEntry::File(*f),
    {
        match self {
            FsEntry::File(f) => Some(f),
            _ => None,
        }
    }

    pub fn as_dir(&self) -> (r: Option<&FsDir>)
        ensures
            r is Some <==> self is Dir,
            r matches Some(d) ==> *self == FsEntry::Dir(*d),
    {
        match self {
            FsEntry::Dir(d) => Some(d),
            _ => None,
        }
    }

    pub fn is_dir(&self) -> (r: bool)
        ensures
            r == self is Dir,
    {
        match self {
            FsEntry::Dir(_) => true,
            _ => false,
        }
    }

    pub fn is_file(&self) -> (r: bool)
        ensures
            r == self is File,
    {
        match self {
            FsEntry::File(_) => true,
            _ => false,
        }
    }
}

/// Why a file-system operation failed, with a message.
#[derive(Debug, Clone)]
pub enum FsError {
    NotFound(String),
    Other(String),
}

impl FsError {
    pub open spec fn message_spec(&self) -> Seq<char> {
        match self {
            FsError::NotFound(m) => m@,
            FsError::Other(m) => m@,
        }
    }

    pub fn message(&self) -> (r: &String)
        ensures
            r@ == self.message_spec(),
    {
        match self {
            FsError::NotFound(m) => m,
            FsError::Other(m) => m,
        }
    }
}

/// File-system operations, so that the update log can be read from disk or
/// from memory.
pub trait FileSystem {
    /// Lists all entries in a directory.
    fn list_dir(&self, path: &FsDir) -> Result<Vec<FsEntry>, FsError>;

    /// Reads a file's contents.
    fn read_file(&self, file: &FsFile) -> Result<String, FsError>;

    /// The directory at `path`, when there is one.
    fn as_dir(&self, path: &str) -> Option<FsDir>;
}

/// A version of the app, ordered by major, then minor, then patch.
#[derive(Debug, Clone, Copy, PartialEq, Eq, PartialOrd, Ord, Structural)]
pub struct Version {
    pub major: u32,
    pub minor: u32,
    pub patch: u32,
}

/// `b` with every `_` byte turned into `.`.
pub open spec fn underscores_to_dots(b: Seq<u8>) -> Seq<u8> {
    b.map_values(|c: u8| if c == 0x5f { 0x2eu8 } else { c })
}

/// The parts of a version string (split at `.` or `_`).
pub open spec fn version_parts(b: Seq<u8>) -> Seq<Seq<u8>> {
    split_spec(underscores_to_dots(b), 0x2e)
}

/// The version a string spells, or which check it fails: 0 for the number of
/// parts, 1, 2, 3 for the major, minor or patch number.
pub open spec fn version_parse_spec(b: Seq<u8>) -> Result<Version, int> {
    let p = version_parts(b);
    if p.len() != 3 {
        Err(0)
    } else if parse_uint_spec(p[0], 10, u32::MAX as nat) is None {
        Err(1)
    } else if parse_uint_spec(p[1], 10, u32::MAX as nat) is None {
        Err(2)
    } else if parse_uint_spec(p[2], 10, u32::MAX as nat) is None {
        Err(3)
    } else {
        Ok(
            Version {
                major: parse_uint_spec(p[0], 10, u32::MAX as nat)->0 as u32,
                minor: parse_uint_spec(p[1], 10, u32::MAX as nat)->0 as u32,
                patch: parse_uint_spec(p[2], 10, u32::MAX as nat)->0 as u32,
            },
        )
    }
}

/// The bytes of `n` in decimal.
pub open spec fn dec(n: u32) -> Seq<u8> {
    radix_digits(n as nat, 10)
}

fn replace_underscores(s: &str) -> (r: String)
    ensures
        utf8_bytes(r@) == underscores_to_dots(utf8_bytes(s@)),
{
    let b = s.as_bytes();
    let mut v: Vec<u8> = Vec::new();
    let mut i: usize = 0;
    proof {
        encode_utf8_valid_utf8(s@);
    }
    assert(v@ + b@.subrange(0, b@.len() as int) =~= b@);
    while i < b.len()
        invariant
            i <= b@.len(),
            valid_utf8(b@),
            v@ == underscores_to_dots(b@.subrange(0, i as int)),
            valid_utf8(v@ + b@.subrange(i as int, b@.len() as int)),
        decreases b@.len() - i,
    {
        let c = b[i];
        let ghost whole = v@ + b@.subrange(i as int, b@.len() as int);
        let nc: u8 = if c == 0x5f { 0x2e } else { c };
        if c == 0x5f {
            proof {
                assert(whole[i as int] == c);
                lemma_ascii_boundaries(whole, i as int);
                lemma_ascii_valid(seq![0x2eu8]);
                lemma_splice_valid(whole, i as int, i + 1, seq![0x2eu8]);
                assert(splice(whole, i as int, i + 1, seq![0x2eu8]) =~= v@.push(nc) + b@.subrange(
                    i + 1,
                    b@.len() as int,
                ));
            }
        } else {
            assert(whole =~= v@.push(nc) + b@.subrange(i + 1, b@.len() as int));
        }
        v.push(nc);
        i = i + 1;
        assert(v@ =~= underscores_to_dots(b@.subrange(0, i as int)));
    }
    assert(b@.subrange(0, b@.len() as int) =~= b@);
    assert(v@ + b@.subrange(i as int, b@.len() as int) =~= v@);
    string_from_utf8(v).unwrap()
}

impl Version {
    /// Parses a version written `1.3.9` or `1_3_9`. The error message names the
    /// whole input when the number of parts is not three, and otherwise the
    /// first part that is not a `u32`.
    pub fn parse(s: &str) -> (r: Result<Self, String>)
        ensures
            r matches Ok(v) ==> version_parse_spec(utf8_bytes(s@)) == Ok::<Version, int>(v),
            r is Err <==> version_parse_spec(utf8_bytes(s@)) is Err,
            version_parse_spec(utf8_bytes(s@)) == Err::<Version, int>(0) ==> (r matches Err(m) && m@ == "Invalid version format: "@ + s@),
            version_parse_spec(utf8_bytes(s@)) == Err::<Version, int>(1) ==> (r matches Err(m) && exists|c: Seq<char>| utf8_bytes(c) == version_parts(utf8_bytes(s@))[0] && m@ == "Invalid major version: "@ + c),
            version_parse_spec(utf8_bytes(s@)) == Err::<Version, int>(2) ==> (r matches Err(m) && exists|c: Seq<char>| utf8_bytes(c) == version_parts(utf8_bytes(s@))[1] && m@ == "Invalid minor version: "@ + c),
            version_parse_spec(utf8_bytes(s@)) == Err::<Version, int>(3) ==> (r matches Err(m) && exists|c: Seq<char>| utf8_bytes(c) == version_parts(utf8_bytes(s@))[2] && m@ == "Invalid patch version: "@ + c),
    {
        let normalized = replace_underscores(s);
        let parts = split_str(normalized.as_str(), 0x2e);
        if parts.len() != 3 {
            let mut m = String::new();
            m.append("Invalid version format: ");
            m.append(s);
            return Err(m);
        }
        let major = match parse_u32(parts[0].as_str()) {
            Some(v) => v,
            None => {
                let mut m = String::new();
                m.append("Invalid major version: ");
                m.append(parts[0].as_str());
                return Err(m);
            },
        };
        let minor = match parse_u32(parts[1].as_str()) {
            Some(v) => v,
            None => {
                let mut m = String::new();
                m.append("Invalid minor version: ");
                m.append(parts[1].as_str());
                return Err(m);
            },
        };
        let patch = match parse_u32(parts[2].as_str()) {
            Some(v) => v,
            None => {
                let mut m = String::new();
                m.append("Invalid patch version: ");
                m.append(parts[2].as_str());
                return Err(m);
            },
        };
        Ok(Version { major, minor, patch })
    }

    /// The version as used in routes: `1_3_9`.
    pub fn to_route_format(&self) -> (r: String)
        ensures
            utf8_bytes(r@) == dec(self.major) + seq![0x5fu8] + dec(self.minor) + seq![0x5fu8]
                + dec(self.patch),
    {
        self.joined(0x5f)
    }

    /// The version as used in file names: `1.3.9`.
    pub fn to_file_format(&self) -> (r: String)
        ensures
            utf8_bytes(r@) == dec(self.major) + seq![0x2eu8] + dec(self.minor) + seq![0x2eu8]
                + dec(self.patch),
    {
        self.joined(0x2e)
    }

    fn joined(&self, sep: u8) -> (r: String)
        requires
            sep <= 0x7f,
        ensures
            utf8_bytes(r@) == dec(self.major) + seq![sep] + dec(self.minor) + seq![sep] + dec(
                self.patch,
            ),
    {
        let a = format_u32(self.major);
        let b = format_u32(self.minor);
        let c = format_u32(self.patch);
        let mut v: Vec<u8> = Vec::new();
        push_all(&mut v, a.as_str().as_bytes());
        v.push(sep);
        push_all(&mut v, b.as_str().as_bytes());
        v.push(sep);
        push_all(&mut v, c.as_str().as_bytes());
        proof {
            encode_utf8_valid_utf8(a@);
            encode_utf8_valid_utf8(b@);
            encode_utf8_valid_utf8(c@);
            lemma_ascii_valid(seq![sep]);
            valid_utf8_concat(utf8_bytes(a@), seq![sep]);
            valid_utf8_concat(utf8_bytes(a@) + seq![sep], utf8_bytes(b@));
            valid_utf8_concat(utf8_bytes(a@) + seq![sep] + utf8_bytes(b@), seq![sep]);
            valid_utf8_concat(utf8_bytes(a@) + seq![sep] + utf8_bytes(b@) + seq![sep], utf8_bytes(c@));
        }
        assert(v@ =~= dec(self.major) + seq![sep] + dec(self.minor) + seq![sep] + dec(self.patch));
        string_from_utf8(v).unwrap()
    }
}


/// The part of a folder name before its first `-` (all of it when there is none).
pub open spec fn folder_head(b: Seq<u8>) -> Seq<u8> {
    match first_index_of(b, 0x2d) {
        Some(i) => b.subrange(0, i),
        None => b,
    }
}

/// The part of a folder name after its first `-`, if there is one.
pub open spec fn folder_tail(b: Seq<u8>) -> Option<Seq<u8>> {
    match first_index_of(b, 0x2d) {
        Some(i) => Some(b.subrange(i + 1, b.len() as int)),
        None => None,
    }
}

/// Parses an update folder name `<version>[-<name>]` into the version and
/// the optional name; fails exactly when the version part does not parse.
pub fn parse_folder_name(folder_name: &str) -> (r: Result<(Version, Option<String>), String>)
    ensures
        r is Err <==> version_parse_spec(folder_head(utf8_bytes(folder_name@))) is Err,
        r matches Ok(p) ==> version_parse_spec(folder_head(utf8_bytes(folder_name@))) == Ok::<
            Version,
            int,
        >(p.0),
        r matches Ok(p) ==> (p.1 is Some <==> folder_tail(utf8_bytes(folder_name@)) is Some),
        r matches Ok(p) ==> (p.1 matches Some(n) ==> folder_tail(utf8_bytes(folder_name@)) == Some(
            utf8_bytes(n@),
        )),
{
    let b = folder_name.as_bytes();
    let blen = b.len();
    let ghost bs = b@;
    proof {
        encode_utf8_valid_utf8(folder_name@);
        lemma_first_index_props(bs, 0x2d);
        vstd::utf8::is_char_boundary_start_end_of_seq(bs);
    }
    match index_of_byte(b, 0x2d) {
        None => {
            let version = Version::parse(folder_name)?;
            Ok((version, None))
        },
        Some(i) => {
            proof {
                lemma_ascii_boundaries(bs, i as int);
            }
            assert(i < b@.len());
            let head = sub_string(folder_name, 0, i);
            let tail = sub_string(folder_name, i + 1, blen);
            let version = Version::parse(head.as_str())?;
            Ok((version, Some(tail)))
        },
    }
}

/// A file of a virtual directory tree.
#[derive(Debug)]
pub struct VFile {
    pub name: String,
    pub content: String,
}

/// A virtual directory: a name and the items in it.
#[derive(Debug)]
pub struct VDir {
    pub name: String,
    pub items: Vec<VItem>,
}

/// A file or directory of a virtual directory tree.
#[derive(Debug)]
pub enum VItem {
    File(VFile),
    Dir(VDir),
}

/// A virtual file with the given name and content.
pub fn file(name: &str, content: &str) -> (r: VItem)
    ensures
        r matches VItem::File(f) && f.name@ == name@ && f.content@ == content@,
{
    VItem::File(VFile { name: name.to_owned(), content: content.to_owned() })
}

/// A virtual directory with the given name and items.
pub fn dir(name: &str, items: Vec<VItem>) -> (r: VItem)
    ensures
        r matches VItem::Dir(d) && d.name@ == name@ && d.items == items,
{
    VItem::Dir(VDir { name: name.to_owned(), items })
}

/// The unnamed root of a virtual directory tree.
pub fn root(items: Vec<VItem>) -> (r: VDir)
    ensures
        r.name@.len() == 0,
        r.items == items,
{
    VDir { name: String::new(), items }
}

/// The files a virtual item adds under `base`, in the order they are added:
/// each item's name is joined to its parent's path.
pub open spec fn item_adds(base: Seq<Seq<u8>>, item: VItem) -> Seq<(Seq<Seq<u8>>, Seq<char>)>
    decreases item, 0int,
{
    match item {
        VItem::File(f) => seq![(base + path_comps(utf8_bytes(f.name@)), f.content@)],
        VItem::Dir(d) => items_adds(base + path_comps(utf8_bytes(d.name@)), d.items@, 0),
    }
}

pub open spec fn items_adds(base: Seq<Seq<u8>>, items: Seq<VItem>, i: int) -> Seq<
    (Seq<Seq<u8>>, Seq<char>),
>
    decreases items, items.len() - i,
{
    if i < 0 || i >= items.len() {
        Seq::empty()
    } else {
        item_adds(base, items[i]) + items_adds(base, items, i + 1)
    }
}

/// The map of files after adding each `(path, content)` in order; a later add
/// of the same path replaces the earlier content.
pub open spec fn apply_adds(
    m: Map<Seq<Seq<u8>>, Seq<char>>,
    adds: Seq<(Seq<Seq<u8>>, Seq<char>)>,
) -> Map<Seq<Seq<u8>>, Seq<char>>
    decreases adds.len(),
{
    if adds.len() == 0 {
        m
    } else {
        apply_adds(m.insert(adds[0].0, adds[0].1), adds.drop_first())
    }
}

proof fn lemma_apply_adds_concat(
    m: Map<Seq<Seq<u8>>, Seq<char>>,
    a: Seq<(Seq<Seq<u8>>, Seq<char>)>,
    b: Seq<(Seq<Seq<u8>>, Seq<char>)>,
)
    ensures
        apply_adds(m, a + b) == apply_adds(apply_adds(m, a), b),
    decreases a.len(),
{
    if a.len() == 0 {
        assert(a + b =~= b);
    } else {
        assert((a + b).drop_first() =~= a.drop_first() + b);
        assert((a + b)[0] == a[0]);
        lemma_apply_adds_concat(m.insert(a[0].0, a[0].1), a.drop_first(), b);
    }
}

/// The content stored under `k` among `files[i..]`.
pub open spec fn lookup_from(files: Seq<(Vec<String>, String)>, k: Seq<Seq<u8>>, i: int) -> Option<
    Seq<char>,
>
    decreases files.len() - i,
{
    if i < 0 || i >= files.len() {
        None
    } else if comps_view(files[i].0@) == k {
        Some(files[i].1@)
    } else {
        lookup_from(files, k, i + 1)
    }
}

/// A file system held in memory, for tests of the update log.
#[derive(Debug)]
pub struct InMemoryFileSystem {
    files: Vec<(Vec<String>, String)>,
}

impl InMemoryFileSystem {
    /// No path is stored twice.
    #[verifier::type_invariant]
    closed spec fn wf(self) -> bool {
        forall|i: int, j: int|
            0 <= i < j < self.files@.len() ==> comps_view(self.files@[i].0@) != comps_view(
                self.files@[j].0@,
            )
    }

    /// The files held: path components to content.
    pub closed spec fn files_map(&self) -> Map<Seq<Seq<u8>>, Seq<char>> {
        Map::new(
            |k: Seq<Seq<u8>>| lookup_from(self.files@, k, 0) is Some,
            |k: Seq<Seq<u8>>| lookup_from(self.files@, k, 0)->0,
        )
    }

    pub fn new() -> (r: Self)
        ensures
            r.files_map() == Map::<Seq<Seq<u8>>, Seq<char>>::empty(),
    {
        let r = InMemoryFileSystem { files: Vec::new() };
        assert(r.files_map() =~= Map::<Seq<Seq<u8>>, Seq<char>>::empty());
        r
    }

    fn add_comps(&mut self, key: Vec<String>, content: String)
        ensures
            final(self).files_map() == old(self).files_map().insert(comps_view(key@), content@),
    {
        proof {
            use_type_invariant(&*self);
        }
        let ghost k = comps_view(key@);
        let ghost old_files = self.files@;
        let mut files: Vec<(Vec<String>, String)> = Vec::new();
        std::mem::swap(&mut files, &mut self.files);
        assert(files@ == old_files);
        assert(forall|a: int, b: int| 0 <= a < b < files@.len() ==> comps_view(files@[a].0@) != comps_view(files@[b].0@));
        let mut i: usize = 0;
        while i < files.len()
            invariant
                i <= files@.len(),
                k == comps_view(key@),
                files@ == old_files,
                forall|m: int| 0 <= m < i ==> comps_view(files@[m].0@) != k,
                lookup_from(old_files, k, 0) == lookup_from(old_files, k, i as int),
                forall|kk: Seq<Seq<u8>>|
                    #![trigger lookup_from(old_files, kk, 0)]
                    (forall|m: int| 0 <= m < i ==> comps_view(old_files[m].0@) != kk)
                        ==> lookup_from(old_files, kk, 0) == lookup_from(old_files, kk, i as int),
            ensures
                i < files@.len() ==> comps_view(files@[i as int].0@) == k,
            decreases files@.len() - i,
        {
            if crate::fs_path::comps_eq(&files[i].0, &key) {
                break;
            }
            assert(comps_view(files@[i as int].0@) != k);
            proof {
                assert forall|kk: Seq<Seq<u8>>|
                    (forall|m: int| 0 <= m < i + 1 ==> comps_view(old_files[m].0@) != kk)
                        implies lookup_from(old_files, kk, 0) == lookup_from(
                        old_files,
                        kk,
                        i + 1,
                    ) by {
                    assert(comps_view(old_files[i as int].0@) != kk);
                }
            }
            i = i + 1;
        }
        if i < files.len() {
            // replace the content in place
            let entry_key = files[i].0.clone();
            assert(entry_key@ =~= files@[i as int].0@);
            files.set(i, (entry_key, content));
            proof {
                let nf = files@;
                assert forall|kk: Seq<Seq<u8>>|
                    lookup_from(nf, kk, 0) == (if kk == k { Some(content@) } else {
                        lookup_from(old_files, kk, 0)
                    }) by {
                    lemma_lookup_update(old_files, nf, i as int, kk, 0);
                }
            }
            self.files = files;
            assert(self.files_map() =~= old(self).files_map().insert(k, content@));
        } else {
            files.push((key, content));
            proof {
                let nf = files@;
                assert forall|kk: Seq<Seq<u8>>|
                    lookup_from(nf, kk, 0) == (if kk == k { Some(content@) } else {
                        lookup_from(old_files, kk, 0)
                    }) by {
                    lemma_lookup_push(old_files, nf, kk, 0);
                }
            }
            self.files = files;
            assert(self.files_map() =~= old(self).files_map().insert(k, content@));
        }
    }

    /// Stores `content` under `path`, replacing what was there.
    pub fn add_file(&mut self, path: &str, content: String)
        ensures
            final(self).files_map() == old(self).files_map().insert(
                path_comps(utf8_bytes(path@)),
                content@,
            ),
    {
        let key = comps_of(path);
        self.add_comps(key, content);
    }
}

proof fn lemma_lookup_update(
    old_files: Seq<(Vec<String>, String)>,
    nf: Seq<(Vec<String>, String)>,
    at: int,
    kk: Seq<Seq<u8>>,
    i: int,
)
    requires
        0 <= at < old_files.len(),
        nf.len() == old_files.len(),
        forall|m: int| 0 <= m < nf.len() && m != at ==> nf[m] == old_files[m],
        comps_view(nf[at].0@) == comps_view(old_files[at].0@),
        forall|m: int| 0 <= m < at ==> comps_view(old_files[m].0@) != comps_view(old_files[at].0@),
        0 <= i <= at,
    ensures
        lookup_from(nf, kk, i) == (if kk == comps_view(old_files[at].0@) {
            Some(nf[at].1@)
        } else {
            lookup_from(old_files, kk, i)
        }),
    decreases old_files.len() - i,
{
    if i < at {
        lemma_lookup_update(old_files, nf, at, kk, i + 1);
    } else {
        if kk != comps_view(old_files[at].0@) {
            lemma_lookup_same_tail(old_files, nf, kk, at + 1);
        }
    }
}

proof fn lemma_lookup_same_tail(
    a: Seq<(Vec<String>, String)>,
    b: Seq<(Vec<String>, String)>,
    kk: Seq<Seq<u8>>,
    i: int,
)
    requires
        a.len() == b.len(),
        0 <= i,
        forall|m: int| i <= m < a.len() ==> a[m] == b[m],
    ensures
        lookup_from(a, kk, i) == lookup_from(b, kk, i),
    decreases a.len() - i,
{
    if i < a.len() {
        lemma_lookup_same_tail(a, b, kk, i + 1);
    }
}

proof fn lemma_lookup_push(
    old_files: Seq<(Vec<String>, String)>,
    nf: Seq<(Vec<String>, String)>,
    kk: Seq<Seq<u8>>,
    i: int,
)
    requires
        nf.len() == old_files.len() + 1,
        forall|m: int| 0 <= m < old_files.len() ==> nf[m] == old_files[m],
        forall|m: int|
            0 <= m < old_files.len() ==> comps_view(old_files[m].0@) != comps_view(
                nf[old_files.len() as int].0@,
            ),
        0 <= i <= old_files.len(),
    ensures
        lookup_from(nf, kk, i) == (if kk == comps_view(nf[old_files.len() as int].0@) {
            Some(nf[old_files.len() as int].1@)
        } else {
            lookup_from(old_files, kk, i)
        }),
    decreases old_files.len() - i,
{
    if i < old_files.len() {
        lemma_lookup_push(old_files, nf, kk, i + 1);
    } else {
        assert(lookup_from(nf, kk, i + 1) is None);
        assert(lookup_from(old_files, kk, i) is None);
    }
}


/// `lookup_from` finds something exactly when some entry from `i` on has the path.
proof fn lemma_lookup_some(files: Seq<(Vec<String>, String)>, k: Seq<Seq<u8>>, i: int)
    requires
        0 <= i,
    ensures
        lookup_from(files, k, i) is Some <==> exists|m: int|
            i <= m < files.len() && comps_view(files[m].0@) == k,
    decreases files.len() - i,
{
    if i < files.len() {
        lemma_lookup_some(files, k, i + 1);
        if comps_view(files[i].0@) != k {
            if exists|m: int| i <= m < files.len() && comps_view(files[m].0@) == k {
                let m = choose|m: int| i <= m < files.len() && comps_view(files[m].0@) == k;
                assert(i + 1 <= m);
            }
        }
    }
}

/// The first `n` components of `c`.
fn take_comps(c: &Vec<String>, n: usize) -> (r: Vec<String>)
    requires
        n <= c@.len(),
    ensures
        comps_view(r@) == comps_view(c@).subrange(0, n as int),
{
    let mut r: Vec<String> = Vec::new();
    let mut i: usize = 0;
    while i < n
        invariant
            i <= n <= c@.len(),
            comps_view(r@) == comps_view(c@).subrange(0, i as int),
        decreases n - i,
    {
        let ghost before = r@;
        let s = c[i].clone();
        assert(s == c@[i as int]);
        r.push(s);
        i = i + 1;
        assert(r@ == before.push(s));
        proof {
            lemma_comps_view_push(before, s);
        }
        assert(comps_view(r@) =~= comps_view(c@).subrange(0, i as int));
    }
    r
}

/// The components of `a` followed by those of `b`.
fn concat_comps(a: &Vec<String>, b: &Vec<String>) -> (r: Vec<String>)
    ensures
        comps_view(r@) == comps_view(a@) + comps_view(b@),
{
    let mut r = take_comps(a, a.len());
    assert(comps_view(a@).subrange(0, a@.len() as int) =~= comps_view(a@));
    let mut i: usize = 0;
    while i < b.len()
        invariant
            i <= b@.len(),
            comps_view(r@) == comps_view(a@) + comps_view(b@).subrange(0, i as int),
        decreases b@.len() - i,
    {
        let ghost before = r@;
        let s = b[i].clone();
        assert(s == b@[i as int]);
        r.push(s);
        i = i + 1;
        assert(r@ == before.push(s));
        proof {
            lemma_comps_view_push(before, s);
        }
        assert(comps_view(r@) =~= comps_view(a@) + comps_view(b@).subrange(0, i as int));
    }
    assert(comps_view(b@).subrange(0, b@.len() as int) =~= comps_view(b@));
    r
}

/// The key a directory entry is ordered by: its path, then directories
/// before files.
pub open spec fn entry_key(e: FsEntry) -> (Seq<Seq<u8>>, bool) {
    (e.comps(), e is File)
}

pub open spec fn key_lt(a: (Seq<Seq<u8>>, bool), b: (Seq<Seq<u8>>, bool)) -> bool {
    comps_lt(a.0, b.0) || (a.0 == b.0 && !a.1 && b.1)
}

/// Entries strictly ascending by path, a directory before a file of the same path.
pub open spec fn entries_sorted(v: Seq<FsEntry>) -> bool {
    forall|i: int, j: int| 0 <= i < j < v.len() ==> key_lt(entry_key(v[i]), entry_key(v[j]))
}

pub open spec fn entries_have(v: Seq<FsEntry>, x: (Seq<Seq<u8>>, bool)) -> bool {
    exists|i: int| 0 <= i < v.len() && entry_key(v[i]) == x
}

proof fn lemma_key_order(a: (Seq<Seq<u8>>, bool), b: (Seq<Seq<u8>>, bool), c: (Seq<Seq<u8>>, bool))
    ensures
        !key_lt(a, a),
        a != b ==> key_lt(a, b) || key_lt(b, a),
        key_lt(a, b) ==> !key_lt(b, a),
        key_lt(a, b) && key_lt(b, c) ==> key_lt(a, c),
{
    lemma_comps_lt_order(a.0, b.0, c.0);
    lemma_comps_lt_order(b.0, a.0, c.0);
    lemma_comps_lt_order(a.0, c.0, b.0);
    lemma_comps_lt_order(b.0, c.0, a.0);
}

fn entry_comps(e: &FsEntry) -> (r: &Vec<String>)
    ensures
        comps_view(r@) == e.comps(),
{
    match e {
        FsEntry::File(f) => &f.0,
        FsEntry::Dir(d) => &d.0,
    }
}

fn entry_less(a: &FsEntry, b: &FsEntry) -> (r: bool)
    ensures
        r == key_lt(entry_key(*a), entry_key(*b)),
{
    let ca = entry_comps(a);
    let cb = entry_comps(b);
    comps_less(ca, cb) || (comps_eq(ca, cb) && a.is_dir() && b.is_file())
}

fn entry_same(a: &FsEntry, b: &FsEntry) -> (r: bool)
    ensures
        r == (entry_key(*a) == entry_key(*b)),
{
    a.is_file() == b.is_file() && comps_eq(entry_comps(a), entry_comps(b))
}

/// Inserts `e` into a sorted list of entries unless an entry with the same
/// key is already there.
fn insert_sorted(v: &mut Vec<FsEntry>, e: FsEntry)
    requires
        entries_sorted(old(v)@),
    ensures
        entries_sorted(final(v)@),
        forall|x: (Seq<Seq<u8>>, bool)|
            #![trigger entries_have(final(v)@, x)]
            entries_have(final(v)@, x) <==> (entries_have(old(v)@, x) || x == entry_key(e)),
{
    let mut pos: usize = 0;
    while pos < v.len() && entry_less(&v[pos], &e)
        invariant
            pos <= v@.len(),
            forall|m: int| 0 <= m < pos ==> key_lt(entry_key(#[trigger] v@[m]), entry_key(e)),
        decreases v@.len() - pos,
    {
        pos = pos + 1;
    }
    let ghost ek = entry_key(e);
    if pos < v.len() && entry_same(&v[pos], &e) {
        assert(entry_key(v@[pos as int]) == ek);
        assert forall|x: (Seq<Seq<u8>>, bool)|
            entries_have(v@, x) <==> (entries_have(old(v)@, x) || x == ek) by {
            if x == ek {
                assert(entry_key(v@[pos as int]) == x);
            }
        }
        return;
    }
    let ghost ov = v@;
    proof {
        if pos < ov.len() {
            lemma_key_order(entry_key(ov[pos as int]), ek, ek);
            assert(key_lt(ek, entry_key(ov[pos as int])));
        }
    }
    v.insert(pos, e);
    proof {
        let nv = v@;
        assert forall|i: int, j: int| 0 <= i < j < nv.len() implies key_lt(
            entry_key(nv[i]),
            entry_key(nv[j]),
        ) by {
            if j < pos {
                assert(nv[i] == ov[i] && nv[j] == ov[j]);
            } else if j == pos {
                assert(nv[i] == ov[i]);
            } else if i == pos {
                assert(nv[j] == ov[j - 1]);
                if j - 1 > pos {
                    lemma_key_order(ek, entry_key(ov[pos as int]), entry_key(ov[j - 1]));
                }
            } else if i < pos {
                assert(nv[i] == ov[i] && nv[j] == ov[j - 1]);
            } else {
                assert(nv[i] == ov[i - 1] && nv[j] == ov[j - 1]);
            }
        }
        assert forall|x: (Seq<Seq<u8>>, bool)|
            entries_have(nv, x) <==> (entries_have(ov, x) || x == ek) by {
            if entries_have(nv, x) {
                let i = choose|i: int| 0 <= i < nv.len() && entry_key(nv[i]) == x;
                if i < pos {
                    assert(nv[i] == ov[i]);
                } else if i > pos {
                    assert(nv[i] == ov[i - 1]);
                }
            }
            if entries_have(ov, x) {
                let i = choose|i: int| 0 <= i < ov.len() && entry_key(ov[i]) == x;
                if i < pos {
                    assert(nv[i] == ov[i]);
                } else {
                    assert(nv[i + 1] == ov[i]);
                }
            }
            if x == ek {
                assert(entry_key(nv[pos as int]) == x);
            }
        }
    }
}

/// A key of the map that places an entry of kind `x.1` at path `x.0` in the
/// listing of `p`: a file directly in `p`, or a directory directly in `p`
/// that holds the key further down.
pub open spec fn contributes(k: Seq<Seq<u8>>, p: Seq<Seq<u8>>, x: (Seq<Seq<u8>>, bool)) -> bool {
    comps_start_with(k, p) && if x.1 {
        k.len() == p.len() + 1 && x.0 == k
    } else {
        k.len() >= p.len() + 2 && x.0 == k.subrange(0, p.len() + 1int)
    }
}

/// Entries a directory listing holds: an entry for each file directly in
/// `p` and for each directory directly in `p` that has files below it.
pub open spec fn listed(m: Map<Seq<Seq<u8>>, Seq<char>>, p: Seq<Seq<u8>>, x: (Seq<Seq<u8>>, bool)) -> bool {
    exists|k: Seq<Seq<u8>>| m.dom().contains(k) && #[trigger] contributes(k, p, x)
}

/// Listing `p` fails when it lists nothing and no stored path lies under `p`.
pub open spec fn listing_fails(m: Map<Seq<Seq<u8>>, Seq<char>>, p: Seq<Seq<u8>>) -> bool {
    (forall|x: (Seq<Seq<u8>>, bool)| !#[trigger] listed(m, p, x)) && !exists|k: Seq<Seq<u8>>|
        m.dom().contains(k) && #[trigger] comps_start_with(k, p)
}

/// A stored path lies strictly below `p`, so `p` is a directory.
pub open spec fn is_dir_spec(m: Map<Seq<Seq<u8>>, Seq<char>>, p: Seq<Seq<u8>>) -> bool {
    exists|k: Seq<Seq<u8>>| m.dom().contains(k) && k.len() >= p.len() + 1 && #[trigger] comps_start_with(k, p)
}

impl InMemoryFileSystem {
    proof fn lemma_dom(&self, k: Seq<Seq<u8>>)
        ensures
            self.files_map().dom().contains(k) <==> exists|m: int|
                0 <= m < self.files@.len() && comps_view(self.files@[m].0@) == k,
    {
        lemma_lookup_some(self.files@, k, 0);
    }

    /// Lists the entries directly in `dir`, sorted by path with a directory
    /// before a file of the same path; `NotFound` when nothing is stored at
    /// or below `dir`.
    pub fn list_dir(&self, dir: &FsDir) -> (r: Result<Vec<FsEntry>, FsError>)
        ensures
            r is Err <==> listing_fails(self.files_map(), dir.comps()),
            r matches Err(e) ==> e is NotFound,
            r matches Ok(v) ==> entries_sorted(v@),
            r matches Ok(v) ==> forall|x: (Seq<Seq<u8>>, bool)|
                #![trigger entries_have(v@, x)]
                entries_have(v@, x) <==> listed(self.files_map(), dir.comps(), x),
    {
        proof {
            use_type_invariant(self);
        }
        let p = &dir.0;
        let ghost pv = comps_view(p@);
        let mut out: Vec<FsEntry> = Vec::new();
        let mut any_prefix = false;
        let mut i: usize = 0;
        while i < self.files.len()
            invariant
                i <= self.files@.len(),
                pv == comps_view(p@),
                pv == dir.comps(),
                entries_sorted(out@),
                forall|x: (Seq<Seq<u8>>, bool)|
                    #![trigger entries_have(out@, x)]
                    entries_have(out@, x) <==> exists|m: int|
                        0 <= m < i && #[trigger] contributes(comps_view(self.files@[m].0@), pv, x),
                any_prefix <==> exists|m: int|
                    0 <= m < i && #[trigger] comps_start_with(comps_view(self.files@[m].0@), pv),
            decreases self.files@.len() - i,
        {
            let k = &self.files[i].0;
            let ghost kv = comps_view(k@);
            let sw = comps_starts_with(k, p);
            let ghost out_before = out@;
            if sw {
                any_prefix = true;
            }
            if sw && k.len() > p.len() && k.len() - p.len() == 1 {
                let f = FsEntry::File(FsFile(take_comps(k, k.len())));
                assert(comps_view(k@).subrange(0, k@.len() as int) =~= comps_view(k@));
                insert_sorted(&mut out, f);
            }
            let ghost out_mid = out@;
            if sw && k.len() > p.len() && k.len() - p.len() >= 2 {
                let d = FsEntry::Dir(FsDir(take_comps(k, p.len() + 1)));
                insert_sorted(&mut out, d);
            }
            proof {
                assert forall|x: (Seq<Seq<u8>>, bool)|
                    entries_have(out@, x) <==> exists|m: int|
                        0 <= m < i + 1 && #[trigger] contributes(comps_view(self.files@[m].0@), pv, x) by {
                    if contributes(kv, pv, x) {
                        assert(contributes(comps_view(self.files@[i as int].0@), pv, x));
                    }
                    if exists|m: int| 0 <= m < i + 1 && #[trigger] contributes(comps_view(self.files@[m].0@), pv, x) {
                        let m = choose|m: int| 0 <= m < i + 1 && #[trigger] contributes(comps_view(self.files@[m].0@), pv, x);
                        if m < i {
                            assert(entries_have(out_before, x));
                        }
                    }
                    if entries_have(out_before, x) {
                        let m = choose|m: int| 0 <= m < i && #[trigger] contributes(comps_view(self.files@[m].0@), pv, x);
                        assert(0 <= m < i + 1);
                    }
                }
                if sw {
                    assert(comps_start_with(comps_view(self.files@[i as int].0@), pv));
                }
                if exists|m: int| 0 <= m < i + 1 && #[trigger] comps_start_with(comps_view(self.files@[m].0@), pv) {
                    let m = choose|m: int| 0 <= m < i + 1 && #[trigger] comps_start_with(comps_view(self.files@[m].0@), pv);
                    if m < i {
                    }
                }
            }
            i = i + 1;
        }
        proof {
            let fm = self.files_map();
            assert forall|x: (Seq<Seq<u8>>, bool)|
                entries_have(out@, x) <==> listed(fm, pv, x) by {
                if entries_have(out@, x) {
                    let m = choose|m: int| 0 <= m < self.files@.len() && #[trigger] contributes(comps_view(self.files@[m].0@), pv, x);
                    let k = comps_view(self.files@[m].0@);
                    self.lemma_dom(k);
                    assert(fm.dom().contains(k) && contributes(k, pv, x));
                }
                if listed(fm, pv, x) {
                    let k = choose|k: Seq<Seq<u8>>| fm.dom().contains(k) && #[trigger] contributes(k, pv, x);
                    self.lemma_dom(k);
                    let m = choose|m: int| 0 <= m < self.files@.len() && comps_view(self.files@[m].0@) == k;
                    assert(contributes(comps_view(self.files@[m].0@), pv, x));
                }
            }
            assert(any_prefix <==> exists|k: Seq<Seq<u8>>| fm.dom().contains(k) && #[trigger] comps_start_with(k, pv)) by {
                if any_prefix {
                    let m = choose|m: int| 0 <= m < self.files@.len() && #[trigger] comps_start_with(comps_view(self.files@[m].0@), pv);
                    self.lemma_dom(comps_view(self.files@[m].0@));
                }
                if exists|k: Seq<Seq<u8>>| fm.dom().contains(k) && #[trigger] comps_start_with(k, pv) {
                    let k = choose|k: Seq<Seq<u8>>| fm.dom().contains(k) && #[trigger] comps_start_with(k, pv);
                    self.lemma_dom(k);
                    let m = choose|m: int| 0 <= m < self.files@.len() && comps_view(self.files@[m].0@) == k;
                    assert(comps_start_with(comps_view(self.files@[m].0@), pv));
                }
            }
        }
        if out.len() == 0 && !any_prefix {
            proof {
                assert forall|x: (Seq<Seq<u8>>, bool)| !#[trigger] listed(self.files_map(), pv, x) by {
                    if listed(self.files_map(), pv, x) {
                        assert(entries_have(out@, x));
                    }
                }
            }
            let mut msg = String::new();
            msg.append("Directory not found: ");
            let path = join_comps(p);
            msg.append(path.as_str());
            return Err(FsError::NotFound(msg));
        }
        proof {
            if out@.len() > 0 {
                assert(entries_have(out@, entry_key(out@[0])));
                assert(listed(self.files_map(), pv, entry_key(out@[0])));
            }
        }
        Ok(out)
    }

    /// The content of `file`; `NotFound` when no file is stored at its path.
    pub fn read_file(&self, file: &FsFile) -> (r: Result<String, FsError>)
        ensures
            r is Ok <==> self.files_map().dom().contains(file.comps()),
            r matches Ok(c) ==> c@ == self.files_map()[file.comps()],
            r matches Err(e) ==> e is NotFound,
    {
        let ghost k = file.comps();
        let mut i: usize = 0;
        while i < self.files.len()
            invariant
                i <= self.files@.len(),
                k == comps_view(file.0@),
                lookup_from(self.files@, k, 0) == lookup_from(self.files@, k, i as int),
            decreases self.files@.len() - i,
        {
            if comps_eq(&self.files[i].0, &file.0) {
                return Ok(self.files[i].1.clone());
            }
            i = i + 1;
        }
        let mut msg = String::new();
        msg.append("File not found: ");
        let path = join_comps(&file.0);
        msg.append(path.as_str());
        Err(FsError::NotFound(msg))
    }

    /// The directory at `path` when some stored path lies strictly below it.
    pub fn as_dir(&self, path: &str) -> (r: Option<FsDir>)
        ensures
            r is Some <==> is_dir_spec(self.files_map(), path_comps(utf8_bytes(path@))),
            r matches Some(d) ==> d.comps() == path_comps(utf8_bytes(path@)),
    {
        let p = comps_of(path);
        let ghost pv = comps_view(p@);
        let mut i: usize = 0;
        while i < self.files.len()
            invariant
                i <= self.files@.len(),
                pv == comps_view(p@),
                pv == path_comps(utf8_bytes(path@)),
                forall|m: int|
                    0 <= m < i ==> !(comps_view(self.files@[m].0@).len() >= pv.len() + 1
                        && #[trigger] comps_start_with(comps_view(self.files@[m].0@), pv)),
            decreases self.files@.len() - i,
        {
            let k = &self.files[i].0;
            if k.len() > p.len() && comps_starts_with(k, &p) {
                proof {
                    self.lemma_dom(comps_view(k@));
                    assert(self.files_map().dom().contains(comps_view(k@)));
                    assert(comps_start_with(comps_view(k@), pv));
                }
                return Some(FsDir(p));
            }
            i = i + 1;
        }
        proof {
            if is_dir_spec(self.files_map(), pv) {
                let k = choose|k: Seq<Seq<u8>>| self.files_map().dom().contains(k) && k.len() >= pv.len() + 1 && #[trigger] comps_start_with(k, pv);
                self.lemma_dom(k);
                let m = choose|m: int| 0 <= m < self.files@.len() && comps_view(self.files@[m].0@) == k;
                assert(comps_start_with(comps_view(self.files@[m].0@), pv));
            }
        }
        None
    }
}


impl InMemoryFileSystem {
    /// Adds the files of a virtual directory tree under `base`.
    fn add_structure(&mut self, base: &Vec<String>, d: &VDir)
        ensures
            final(self).files_map() == apply_adds(
                old(self).files_map(),
                items_adds(comps_view(base@), d.items@, 0),
            ),
        decreases d,
    {
        let ghost bv = comps_view(base@);
        let ghost target = apply_adds(self.files_map(), items_adds(bv, d.items@, 0));
        let mut i: usize = 0;
        while i < d.items.len()
            invariant
                i <= d.items@.len(),
                bv == comps_view(base@),
                apply_adds(self.files_map(), items_adds(bv, d.items@, i as int)) == target,
            decreases d.items@.len() - i,
        {
            let ghost m0 = self.files_map();
            proof {
                lemma_apply_adds_concat(m0, item_adds(bv, d.items@[i as int]), items_adds(bv, d.items@, i + 1));
            }
            match &d.items[i] {
                VItem::File(f) => {
                    let name = comps_of(f.name.as_str());
                    let key = concat_comps(base, &name);
                    let ghost kv = comps_view(key@);
                    let content = f.content.clone();
                    assert(content == f.content);
                    self.add_comps(key, content);
                    proof {
                        let a = item_adds(bv, d.items@[i as int]);
                        assert(d.items@[i as int] == VItem::File(*f));
                        assert(a == seq![(kv, f.content@)]);
                        assert(a.drop_first() =~= Seq::<(Seq<Seq<u8>>, Seq<char>)>::empty());
                        assert(apply_adds(m0.insert(kv, f.content@), a.drop_first()) == m0.insert(kv, f.content@));
                        assert(apply_adds(m0, a) == self.files_map());
                    }
                },
                VItem::Dir(sub) => {
                    proof {
                        assert(decreases_to!(*d => d.items));
                        assert(decreases_to!(d.items => d.items@));
                        assert(decreases_to!(d.items@ => d.items@[i as int]));
                        assert(decreases_to!(d.items@[i as int] => (d.items@[i as int])->Dir_0));
                    }
                    let name = comps_of(sub.name.as_str());
                    let nbase = concat_comps(base, &name);
                    self.add_structure(&nbase, sub);
                },
            }
            i = i + 1;
        }
    }

    /// A file system holding the files of a virtual directory tree; the
    /// root's own name is not part of the paths.
    pub fn from_structure(structure: VDir) -> (r: Self)
        ensures
            r.files_map() == apply_adds(
                Map::<Seq<Seq<u8>>, Seq<char>>::empty(),
                items_adds(Seq::<Seq<u8>>::empty(), structure.items@, 0),
            ),
    {
        let mut fs = Self::new();
        let base: Vec<String> = Vec::new();
        assert(comps_view(base@) =~= Seq::<Seq<u8>>::empty());
        fs.add_structure(&base, &structure);
        fs
    }
}

impl FileSystem for InMemoryFileSystem {
    fn list_dir(&self, path: &FsDir) -> (r: Result<Vec<FsEntry>, FsError>)
        ensures
            r is Err <==> listing_fails(self.files_map(), path.comps()),
            r matches Err(e) ==> e is NotFound,
            r matches Ok(v) ==> entries_sorted(v@),
            r matches Ok(v) ==> forall|x: (Seq<Seq<u8>>, bool)|
                #![trigger entries_have(v@, x)]
                entries_have(v@, x) <==> listed(self.files_map(), path.comps(), x),
    {
        InMemoryFileSystem::list_dir(self, path)
    }

    fn read_file(&self, file: &FsFile) -> (r: Result<String, FsError>)
        ensures
            r is Ok <==> self.files_map().dom().contains(file.comps()),
            r matches Ok(c) ==> c@ == self.files_map()[file.comps()],
            r matches Err(e) ==> e is NotFound,
    {
        InMemoryFileSystem::read_file(self, file)
    }

    fn as_dir(&self, path: &str) -> (r: Option<FsDir>)
        ensures
            r is Some <==> is_dir_spec(self.files_map(), path_comps(utf8_bytes(path@))),
            r matches Some(d) ==> d.comps() == path_comps(utf8_bytes(path@)),
    {
        InMemoryFileSystem::as_dir(self, path)
    }
}


/// One entry of the update log.
#[derive(Debug, Clone, PartialEq, Eq)]
pub struct UpdateEntry {
    pub version: Version,
    pub optional_name: Option<String>,
    pub markdown_content: String,
    pub folder_path: FsDir,
}

pub open spec fn version_lt(a: Version, b: Version) -> bool {
    a.major < b.major || (a.major == b.major && (a.minor < b.minor || (a.minor == b.minor
        && a.patch < b.patch)))
}

/// Versions are strictly and totally ordered, and a version is newer than
/// another when its major number is larger, or its major number is the same
/// and its minor number larger, or both are the same and its patch number
/// larger.
pub proof fn law_version_order(a: Version, b: Version, c: Version)
    ensures
        !version_lt(a, a),
        version_lt(a, b) ==> !version_lt(b, a),
        version_lt(a, b) && version_lt(b, c) ==> version_lt(a, c),
        a != b ==> version_lt(a, b) || version_lt(b, a),
        a.major < b.major ==> version_lt(a, b),
        a.major == b.major && a.minor < b.minor ==> version_lt(a, b),
        a.major == b.major && a.minor == b.minor && a.patch < b.patch ==> version_lt(a, b),
{
}

fn version_less(a: &Version, b: &Version) -> (r: bool)
    ensures
        r == version_lt(*a, *b),
        a.major == b.major && a.minor == b.minor ==> (r <==> a.patch < b.patch),
{
    a.major < b.major || (a.major == b.major && (a.minor < b.minor || (a.minor == b.minor
        && a.patch < b.patch)))
}

/// Position at which `x` goes into a list sorted newest first: before the
/// first entry with an older version, so entries of equal version keep their order.
pub open spec fn newest_first_pos(s: Seq<UpdateEntry>, x: UpdateEntry, i: int) -> int
    decreases s.len() - i,
{
    if i < 0 || i >= s.len() {
        s.len() as int
    } else if version_lt(s[i].version, x.version) {
        i
    } else {
        newest_first_pos(s, x, i + 1)
    }
}

/// The entries sorted newest version first, entries of the same version
/// keeping their relative order (a stable sort).
pub open spec fn sort_newest_first(s: Seq<UpdateEntry>) -> Seq<UpdateEntry>
    decreases s.len(),
{
    if s.len() == 0 {
        s
    } else {
        let r = sort_newest_first(s.drop_last());
        r.insert(newest_first_pos(r, s.last(), 0), s.last())
    }
}

proof fn lemma_newest_first_pos(s: Seq<UpdateEntry>, x: UpdateEntry, i: int)
    requires
        0 <= i <= s.len(),
    ensures
        i <= newest_first_pos(s, x, i) <= s.len(),
    decreases s.len() - i,
{
    if i < s.len() && !version_lt(s[i].version, x.version) {
        lemma_newest_first_pos(s, x, i + 1);
    }
}

/// Sorts update entries newest first, keeping the order of entries with
/// equal versions.
pub fn sort_updates_newest_first(v: Vec<UpdateEntry>) -> (r: Vec<UpdateEntry>)
    ensures
        r@ == sort_newest_first(v@),
{
    let ghost orig = v@;
    let n = v.len();
    let mut input = v;
    let mut out: Vec<UpdateEntry> = Vec::new();
    let mut k: usize = 0;
    assert(orig.subrange(0, 0) =~= Seq::<UpdateEntry>::empty());
    assert(orig.subrange(0, orig.len() as int) =~= orig);
    while input.len() > 0
        invariant
            k <= orig.len(),
            orig.len() == n,
            input@ == orig.subrange(k as int, orig.len() as int),
            out@ == sort_newest_first(orig.subrange(0, k as int)),
        decreases input@.len(),
    {
        let x = input.remove(0);
        let ghost pre = orig.subrange(0, k as int + 1);
        assert(pre.drop_last() =~= orig.subrange(0, k as int));
        assert(pre.last() == x);
        let mut pos: usize = 0;
        while pos < out.len() && !version_less(&out[pos].version, &x.version)
            invariant
                pos <= out@.len(),
                newest_first_pos(out@, x, 0) == newest_first_pos(out@, x, pos as int),
            decreases out@.len() - pos,
        {
            pos = pos + 1;
        }
        out.insert(pos, x);
        k = k + 1;
        assert(input@ =~= orig.subrange(k as int, orig.len() as int));
    }
    out
}

proof fn lemma_md_suffix()
    ensures
        utf8_bytes(".md"@) == seq![0x2eu8, 0x6du8, 0x64u8],
{
    reveal_strlit(".md");
    assert(".md"@ =~= seq!['.', 'm', 'd']);
    let md = seq!['.', 'm', 'd'];
    assert forall|i: int| 0 <= i < md.len() implies (#[trigger] md[i] as u32) <= 0x7f by {}
    lemma_ascii_chars_bytes(md);
    assert(utf8_bytes(md) =~= seq![0x2eu8, 0x6du8, 0x64u8]);
}

/// The last component of a path.
pub open spec fn last_comp(c: Seq<Seq<u8>>) -> Option<Seq<u8>> {
    if c.len() == 0 { None } else { Some(c.last()) }
}

/// What an update folder yields: its version, its optional name, and the
/// path of its markdown file `<version>.md` inside it; `None` when the
/// folder name does not start with a version.
#[verifier::spinoff_prover]
#[verifier::rlimit(30)]
pub fn update_location(dir: &FsDir) -> (r: Option<(Version, Option<String>, FsFile)>)
    ensures
        r is Some <==> (last_comp(dir.comps()) matches Some(n) && version_parse_spec(folder_head(n)) is Ok),
        r matches Some(t) ==> version_parse_spec(folder_head(dir.comps().last())) == Ok::<Version, int>(t.0),
        r matches Some(t) ==> (t.1 is Some <==> folder_tail(dir.comps().last()) is Some),
        r matches Some(t) ==> (t.1 matches Some(n) ==> folder_tail(dir.comps().last()) == Some(utf8_bytes(n@))),
        r matches Some(t) ==> t.2.comps() == dir.comps().push(
            dec(t.0.major) + seq![0x2eu8] + dec(t.0.minor) + seq![0x2eu8] + dec(t.0.patch) + seq![0x2eu8, 0x6du8, 0x64u8],
        ),
{
    let n = dir.0.len();
    if n == 0 {
        return None;
    }
    let folder_name = dir.0[n - 1].as_str();
    match parse_folder_name(folder_name) {
        Err(_) => None,
        Ok((version, name)) => {
            let mut file_name = version.to_file_format();
            append_str(&mut file_name, ".md");
            proof {
                lemma_md_suffix();
            }
            let mut comps = dir.0.clone();
            assert(comps@ =~= dir.0@);
            let ghost before = comps@;
            comps.push(file_name);
            proof {
                lemma_comps_view_push(before, file_name);
            }
            Some((version, name, FsFile(comps)))
        },
    }
}

/// The message a failed listing of the updates directory gives.
pub open spec fn listing_error_message(e: FsError) -> Seq<char> {
    "Failed to read updates directory: "@ + e.message_spec()
}

/// An update entry as plain values: version, the bytes of its optional name,
/// its markdown text and the components of its folder's path.
pub open spec fn entry_view(e: UpdateEntry) -> (Version, Option<Seq<u8>>, Seq<char>, Seq<Seq<u8>>) {
    (
        e.version,
        match e.optional_name {
            Some(n) => Some(utf8_bytes(n@)),
            None => None,
        },
        e.markdown_content@,
        e.folder_path.comps(),
    )
}

/// What reading the markdown file of the `k`-th listed entry gave, if it was
/// read.
pub open spec fn read_at(reads: Seq<Option<Result<String, FsError>>>, k: int) -> Option<Result<String, FsError>> {
    if 0 <= k < reads.len() { reads[k] } else { None }
}

/// A listed entry names an update folder: a directory whose last path
/// component starts with a version.
pub open spec fn is_update_folder(entry: FsEntry) -> bool {
    entry matches FsEntry::Dir(d) && d.comps().len() > 0 && version_parse_spec(folder_head(d.comps().last())) is Ok
}

/// The update a listed entry yields: an update folder whose markdown file
/// was read gives its version, optional name, the file's text and its path.
pub open spec fn listed_update(entry: FsEntry, read: Option<Result<String, FsError>>) -> Option<
    (Version, Option<Seq<u8>>, Seq<char>, Seq<Seq<u8>>),
> {
    match entry {
        FsEntry::Dir(d) => {
            let c = d.comps();
            if is_update_folder(entry) {
                match read {
                    Some(Ok(md)) => Some(
                        (version_parse_spec(folder_head(c.last()))->Ok_0, folder_tail(c.last()), md@, c),
                    ),
                    _ => None,
                }
            } else {
                None
            }
        },
        FsEntry::File(_) => None,
    }
}

/// The updates the first `k` listed entries yield, in listing order.
pub open spec fn listed_updates(
    listing: Seq<FsEntry>,
    reads: Seq<Option<Result<String, FsError>>>,
    k: int,
) -> Seq<(Version, Option<Seq<u8>>, Seq<char>, Seq<Seq<u8>>)>
    decreases k,
{
    if k <= 0 || k > listing.len() {
        Seq::empty()
    } else {
        let before = listed_updates(listing, reads, k - 1);
        match listed_update(listing[k - 1], read_at(reads, k - 1)) {
            Some(u) => before.push(u),
            None => before,
        }
    }
}

pub open spec fn view_pos(
    s: Seq<(Version, Option<Seq<u8>>, Seq<char>, Seq<Seq<u8>>)>,
    x: (Version, Option<Seq<u8>>, Seq<char>, Seq<Seq<u8>>),
    i: int,
) -> int
    decreases s.len() - i,
{
    if i < 0 || i >= s.len() {
        s.len() as int
    } else if version_lt(s[i].0, x.0) {
        i
    } else {
        view_pos(s, x, i + 1)
    }
}

/// Update views sorted newest version first, equal versions keeping their
/// order (the same stable sort as `sort_newest_first`).
pub open spec fn sort_views_newest_first(s: Seq<(Version, Option<Seq<u8>>, Seq<char>, Seq<Seq<u8>>)>) -> Seq<
    (Version, Option<Seq<u8>>, Seq<char>, Seq<Seq<u8>>),
>
    decreases s.len(),
{
    if s.len() == 0 {
        s
    } else {
        let r = sort_views_newest_first(s.drop_last());
        r.insert(view_pos(r, s.last(), 0), s.last())
    }
}

proof fn lemma_view_pos(s: Seq<UpdateEntry>, x: UpdateEntry, i: int)
    ensures
        newest_first_pos(s, x, i) == view_pos(s.map_values(|e: UpdateEntry| entry_view(e)), entry_view(x), i),
    decreases s.len() - i,
{
    let sv = s.map_values(|e: UpdateEntry| entry_view(e));
    if 0 <= i < s.len() {
        assert(sv[i] == entry_view(s[i]));
        if !version_lt(s[i].version, x.version) {
            lemma_view_pos(s, x, i + 1);
        }
    }
}

/// Sorting and then viewing the entries is viewing and then sorting.
proof fn lemma_sort_views(s: Seq<UpdateEntry>)
    ensures
        sort_newest_first(s).map_values(|e: UpdateEntry| entry_view(e)) == sort_views_newest_first(
            s.map_values(|e: UpdateEntry| entry_view(e)),
        ),
    decreases s.len(),
{
    let sv = s.map_values(|e: UpdateEntry| entry_view(e));
    if s.len() > 0 {
        let p = s.drop_last();
        lemma_sort_views(p);
        assert(p.map_values(|e: UpdateEntry| entry_view(e)) =~= sv.drop_last());
        let r = sort_newest_first(p);
        lemma_newest_first_pos(r, s.last(), 0);
        lemma_view_pos(r, s.last(), 0);
        let pos = newest_first_pos(r, s.last(), 0);
        assert(sv.last() == entry_view(s.last()));
        assert(r.insert(pos, s.last()).map_values(|e: UpdateEntry| entry_view(e)) =~= r.map_values(
            |e: UpdateEntry| entry_view(e),
        ).insert(pos, entry_view(s.last())));
    } else {
        assert(sort_newest_first(s).map_values(|e: UpdateEntry| entry_view(e)) =~= sv);
    }
}

/// The update log from a directory listing and, for each listed entry, what
/// reading its markdown file `<folder>/<version>.md` gave (`None` where it was
/// not read): exactly one entry for every listed update folder whose file was
/// read, holding its version, optional name, the file's text and the
/// folder's path, newest version first; nothing else.
pub fn assemble_updates(listing: Vec<FsEntry>, reads: Vec<Option<Result<String, FsError>>>) -> (r: Vec<UpdateEntry>)
    ensures
        r@.map_values(|e: UpdateEntry| entry_view(e)) == sort_views_newest_first(
            listed_updates(listing@, reads@, listing@.len() as int),
        ),
        forall|i: int, j: int| 0 <= i < j < r@.len() ==> !version_lt(r@[i].version, r@[j].version),
{
    let mut updates: Vec<UpdateEntry> = Vec::new();
    let mut k: usize = 0;
    while k < listing.len()
        invariant
            k <= listing@.len(),
            updates@.map_values(|e: UpdateEntry| entry_view(e)) == listed_updates(listing@, reads@, k as int),
        decreases listing@.len() - k,
    {
        let ghost before = updates@;
        let ghost entry = listing@[k as int];
        let ghost rd = read_at(reads@, k as int);
        let mut pushed = false;
        if let Some(entry_dir) = listing[k].as_dir() {
            if let Some((version, optional_name, _markdown_file)) = update_location(entry_dir) {
                if k < reads.len() {
                    if let Some(Ok(md)) = &reads[k] {
                        let folder_path = entry_dir.duplicate();
                        let markdown_content = md.clone();
                        let e = UpdateEntry { version, optional_name, markdown_content, folder_path };
                        proof {
                            assert(entry_view(e) == listed_update(entry, rd)->0);
                        }
                        updates.push(e);
                        pushed = true;
                    }
                }
            }
        }
        proof {
            if pushed {
                assert(updates@.map_values(|e: UpdateEntry| entry_view(e)) =~= before.map_values(
                    |e: UpdateEntry| entry_view(e),
                ).push(listed_update(entry, rd)->0));
            } else {
                assert(listed_update(entry, rd) is None);
                assert(updates@ == before);
            }
        }
        k = k + 1;
    }
    let sorted = sort_updates_newest_first(updates);
    proof {
        lemma_sort_newest_first(updates@);
        lemma_sort_views(updates@);
    }
    sorted
}

/// Which listed entries get their markdown file read: the update folders.
pub open spec fn reads_fit(listing: Seq<FsEntry>, reads: Seq<Option<Result<String, FsError>>>) -> bool {
    &&& reads.len() == listing.len()
    &&& forall|k: int| 0 <= k < listing.len() ==> ((#[trigger] reads[k]) is Some <==> is_update_folder(listing[k]))
}

/// Loads the update log: every folder of `updates_dir` named
/// `<version>[-<name>]` that holds a `<version>.md` file, newest version first.
/// Folders whose name or markdown file does not fit are skipped; a directory
/// that cannot be listed is an error, and its message names the failure.
pub fn load_updates<FS: FileSystem>(fs: &FS, updates_dir: &FsDir) -> (r: Result<Vec<UpdateEntry>, String>)
    ensures
        r matches Err(m) ==> exists|e: FsError| m@ == #[trigger] listing_error_message(e),
        r matches Ok(v) ==> exists|es: Seq<FsEntry>, reads: Seq<Option<Result<String, FsError>>>|
            #[trigger] reads_fit(es, reads) && v@.map_values(|e: UpdateEntry| entry_view(e))
                == sort_views_newest_first(listed_updates(es, reads, es.len() as int)),
        r matches Ok(v) ==> forall|i: int, j: int| 0 <= i < j < v@.len() ==> !version_lt(v@[i].version, v@[j].version),
{
    let listing = fs.list_dir(updates_dir);
    let ghost l = listing;
    let r = collect_updates(fs, listing);
    let ghost rr = r;
    proof {
        if let Err(m) = rr {
            if let Err(e) = l {
                assert(m@ == listing_error_message(e));
            }
        }
    }
    r
}

/// The update log from the result of listing the updates directory: an error
/// naming the failure when the listing failed; otherwise, after reading the
/// markdown file `<folder>/<version>.md` of every listed update folder, the
/// entries `assemble_updates` builds from the listing and those reads.
pub fn collect_updates<FS: FileSystem>(fs: &FS, listing: Result<Vec<FsEntry>, FsError>) -> (r: Result<Vec<UpdateEntry>, String>)
    ensures
        r is Err <==> listing is Err,
        listing matches Err(e) ==> (r matches Err(m) && m@ == listing_error_message(e)),
        r matches Ok(v) ==> forall|i: int, j: int| 0 <= i < j < v@.len() ==> !version_lt(v@[i].version, v@[j].version),
        r matches Ok(v) ==> (listing matches Ok(es) && exists|reads: Seq<Option<Result<String, FsError>>>|
            #[trigger] reads_fit(es@, reads) && v@.map_values(|e: UpdateEntry| entry_view(e))
                == sort_views_newest_first(listed_updates(es@, reads, es@.len() as int))),
{
    let entries = match listing {
        Ok(e) => e,
        Err(e) => {
            let mut msg = String::new();
            msg.append("Failed to read updates directory: ");
            msg.append(e.message().as_str());
            proof {
                assert(msg@ =~= listing_error_message(e));
            }
            return Err(msg);
        },
    };
    let mut reads: Vec<Option<Result<String, FsError>>> = Vec::new();
    let mut i: usize = 0;
    while i < entries.len()
        invariant
            i <= entries@.len(),
            reads@.len() == i,
            forall|k: int| 0 <= k < i ==> ((#[trigger] reads@[k]) is Some <==> is_update_folder(entries@[k])),
        decreases entries@.len() - i,
    {
        let mut read: Option<Result<String, FsError>> = None;
        if let Some(entry_dir) = entries[i].as_dir() {
            if let Some((_version, _optional_name, markdown_file)) = update_location(entry_dir) {
                read = Some(fs.read_file(&markdown_file));
            }
        }
        reads.push(read);
        i = i + 1;
    }
    let ghost es = entries@;
    let ghost rs = reads@;
    let updates = assemble_updates(entries, reads);
    proof {
        assert(reads_fit(es, rs));
    }
    Ok(updates)
}

/// Sorting newest first keeps the entries (as a multiset) and orders them by
/// version, newest first.
pub proof fn lemma_sort_newest_first(s: Seq<UpdateEntry>)
    ensures
        sort_newest_first(s).len() == s.len(),
        forall|i: int, j: int|
            0 <= i < j < s.len() ==> !version_lt(
                sort_newest_first(s)[i].version,
                sort_newest_first(s)[j].version,
            ),
        forall|i: int| 0 <= i < s.len() ==> exists|j: int| 0 <= j < s.len() && #[trigger] sort_newest_first(s)[i] == s[j],
    decreases s.len(),
{
    if s.len() > 0 {
        let p = s.drop_last();
        lemma_sort_newest_first(p);
        let r = sort_newest_first(p);
        let x = s.last();
        lemma_newest_first_pos(r, x, 0);
        let pos = newest_first_pos(r, x, 0);
        lemma_pos_props(r, x, 0);
        let out = r.insert(pos, x);
        assert forall|i: int, j: int| 0 <= i < j < out.len() implies !version_lt(out[i].version, out[j].version) by {
            if j < pos {
                assert(out[i] == r[i] && out[j] == r[j]);
            } else if j == pos {
                assert(out[i] == r[i]);
            } else if i == pos {
                assert(out[j] == r[j - 1]);
            } else if i < pos {
                assert(out[i] == r[i] && out[j] == r[j - 1]);
            } else {
                assert(out[i] == r[i - 1] && out[j] == r[j - 1]);
            }
        }
        assert forall|i: int| 0 <= i < out.len() implies exists|j: int| 0 <= j < s.len() && #[trigger] out[i] == s[j] by {
            if i < pos {
                assert(out[i] == r[i]);
                let j = choose|j: int| 0 <= j < p.len() && r[i] == p[j];
                assert(s[j] == p[j]);
            } else if i == pos {
                assert(out[i] == s[s.len() - 1]);
            } else {
                assert(out[i] == r[i - 1]);
                let j = choose|j: int| 0 <= j < p.len() && r[i - 1] == p[j];
                assert(s[j] == p[j]);
            }
        }
    }
}

proof fn lemma_pos_props(r: Seq<UpdateEntry>, x: UpdateEntry, i: int)
    requires
        0 <= i <= r.len(),
        forall|a: int, b: int| 0 <= a < b < r.len() ==> !version_lt(r[a].version, r[b].version),
    ensures
        forall|m: int| i <= m < newest_first_pos(r, x, i) ==> !version_lt(r[m].version, x.version),
        forall|m: int| newest_first_pos(r, x, i) <= m < r.len() ==> !version_lt(x.version, r[m].version),
    decreases r.len() - i,
{
    if i < r.len() {
        if version_lt(r[i].version, x.version) {
            assert forall|m: int| i <= m < r.len() implies !version_lt(x.version, r[m].version) by {
                if m > i {
                    assert(!version_lt(r[i].version, r[m].version));
                }
            }
        } else {
            lemma_pos_props(r, x, i + 1);
        }
    }
}

} // verus!
