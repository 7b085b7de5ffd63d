//! The read-only filesystem over an archive.
use vstd::prelude::*;
use vstd::string::StringSliceAdditionalSpecFns;
use vstd::utf8::encode_utf8;
use crate::builder::{build_from, initial_state, DirTreeBuilder};
use crate::parser::{entries_match, parse_tar, tar_ok, ErrorKind, TarEntry};
use crate::tree::{is_path, resolve_path, DirTree, EntryRef, NodeView, PathSeq, Resolved};

verus! {

/// Why a filesystem operation failed.
#[derive(Clone, Copy, Debug, PartialEq, Eq, Structural)]
pub enum FsError {
    /// The path leads nowhere, or not to the kind of node asked for.
    NotFound,
    /// The archive is read-only.
    NotSupported,
    /// The archive could not be decoded.
    Malformed(ErrorKind),
}

#[derive(Clone, Copy, Debug, PartialEq, Eq, Structural)]
pub enum FileType {
    File,
    Directory,
}

#[derive(Clone, Copy, Debug, PartialEq, Eq, Structural)]
pub struct Metadata {
    pub file_type: FileType,
    /// The length of a file in bytes; zero for a directory.
    pub len: u64,
}

/// The tree that the records of `s` fold into.
pub open spec fn archive_tree(s: Seq<u8>) -> Map<PathSeq, NodeView> {
    build_from(initial_state(), choose|es: Seq<TarEntry<'static>>| entries_match(es, s)).tree
}

/// What `open_file` gives for `path`.
pub open spec fn open_file_spec(m: Map<PathSeq, NodeView>, path: Seq<u8>) -> Result<Seq<u8>, FsError> {
    match resolve_path(m, path) {
        Resolved::File(b) => Ok(b),
        _ => Err(FsError::NotFound),
    }
}

/// What `metadata` gives for `path`.
pub open spec fn metadata_spec(m: Map<PathSeq, NodeView>, path: Seq<u8>) -> Result<Metadata, FsError> {
    match resolve_path(m, path) {
        Resolved::File(b) => Ok(Metadata { file_type: FileType::File, len: b.len() as u64 }),
        Resolved::Directory(_) => Ok(Metadata { file_type: FileType::Directory, len: 0 }),
        Resolved::NotFound => Err(FsError::NotFound),
    }
}

/// Whether `read_dir` succeeds for `path`.
pub open spec fn read_dir_ok(m: Map<PathSeq, NodeView>, path: Seq<u8>) -> bool {
    resolve_path(m, path) is Directory
}

/// What `path_exists` gives for `path`.
pub open spec fn exists_spec(m: Map<PathSeq, NodeView>, path: Seq<u8>) -> bool {
    !(resolve_path(m, path) is NotFound)
}

/// A read-only filesystem over the bytes of a tar archive.
pub struct TarFS<'a> {
    root: DirTree<'a>,
}

impl<'a> TarFS<'a> {
    #[verifier::type_invariant]
    spec fn inv(&self) -> bool {
        self.root.wf()
    }

    /// The tree: what each path holds.
    pub closed spec fn view(&self) -> Map<PathSeq, NodeView> {
        self.root@
    }

    /// Decodes the archive `file` and builds its tree.
    pub fn new(file: &'a [u8]) -> (r: Result<TarFS<'a>, FsError>)
        ensures
            r is Ok <==> tar_ok(file@),
            r is Ok ==> r->Ok_0@ == archive_tree(file@),
            r is Ok ==> forall|q: PathSeq| #[trigger] r->Ok_0@.contains_key(q) ==> is_path(q),
            r is Err ==> r->Err_0 is Malformed,
    {
        let entries = match parse_tar(file) {
            Ok((_, entries)) => entries,
            Err(e) => {
                return Err(FsError::Malformed(e.kind));
            },
        };
        let root = DirTreeBuilder::new().build(entries.as_slice());
        proof {
            let es = choose|es: Seq<TarEntry<'static>>| entries_match(es, file@);
            lemma_same_records_same_state(initial_state(), entries@, es, file@);
            root.lemma_paths_are_segments();
        }
        Ok(TarFS { root })
    }

    /// Looks up `path`, following links.
    fn find_entry(&self, path: &str) -> (r: Option<EntryRef<'a>>)
        ensures
            match resolve_path(self@, path.spec_bytes()) {
                Resolved::File(b) => r matches Some(EntryRef::File(x)) && x@ == b,
                Resolved::Directory(p) => r matches Some(EntryRef::Directory(d)) && d
                    < self.root.node_count() && self.root.is_dir(d as int)
                    && self.root.path_of(d as int) == p,
                Resolved::NotFound => r is None,
            },
    {
        proof {
            use_type_invariant(self);
        }
        self.root.find_entry(path)
    }

    /// The names in the directory at `path`.
    pub fn read_dir(&self, path: &str) -> (r: Result<Vec<String>, FsError>)
        ensures
            r is Ok <==> read_dir_ok(self@, path.spec_bytes()),
            r is Err ==> r == Err::<Vec<String>, FsError>(FsError::NotFound),
            r is Ok ==> forall|k: Seq<u8>|
                self@.contains_key(
                    #[trigger] resolve_path(self@, path.spec_bytes())->Directory_0.push(k),
                ) <==> exists|c: int|
                    0 <= c < r->Ok_0@.len() && encode_utf8((#[trigger] r->Ok_0@[c])@) == k,
            r is Ok ==> forall|c1: int, c2: int|
                0 <= c1 < r->Ok_0@.len() && 0 <= c2 < r->Ok_0@.len() && c1 != c2
                    ==> (#[trigger] r->Ok_0@[c1])@ != (#[trigger] r->Ok_0@[c2])@,
    {
        proof {
            use_type_invariant(self);
        }
        match self.find_entry(path) {
            Some(EntryRef::Directory(d)) => {
                let names = self.root.names(d);
                let r: Result<Vec<String>, FsError> = Ok(names);
                proof {
                    let p = resolve_path(self@, path.spec_bytes())->Directory_0;
                    assert(p == self.root.path_of(d as int));
                    assert(self@ == self.root@);
                    assert forall|k: Seq<u8>|
                        self@.contains_key(#[trigger] p.push(k)) implies exists|c: int|
                            0 <= c < r->Ok_0@.len() && encode_utf8((#[trigger] r->Ok_0@[c])@) == k by {
                        assert(self.root@.contains_key(self.root.path_of(d as int).push(k)));
                        let c = choose|c: int|
                            0 <= c < names@.len() && encode_utf8((#[trigger] names@[c])@) == k;
                        assert(encode_utf8(r->Ok_0@[c]@) == k);
                    }
                    assert forall|k: Seq<u8>|
                        (exists|c: int|
                            0 <= c < r->Ok_0@.len() && encode_utf8((#[trigger] r->Ok_0@[c])@) == k) implies self@.contains_key(p.push(k)) by {
                        let c = choose|c: int|
                            0 <= c < r->Ok_0@.len() && encode_utf8((#[trigger] r->Ok_0@[c])@) == k;
                        assert(encode_utf8(names@[c]@) == k);
                        assert(self.root@.contains_key(self.root.path_of(d as int).push(k)));
                    }
                }
                r
            },
            _ => Err(FsError::NotFound),
        }
    }

    /// The bytes of the file at `path`.
    pub fn open_file(&self, path: &str) -> (r: Result<&'a [u8], FsError>)
        ensures
            match open_file_spec(self@, path.spec_bytes()) {
                Ok(b) => r is Ok && r->Ok_0@ == b,
                Err(e) => r == Err::<&'a [u8], FsError>(e),
            },
    {
        match self.find_entry(path) {
            Some(EntryRef::File(b)) => Ok(b),
            _ => Err(FsError::NotFound),
        }
    }

    /// The kind and length of what is at `path`.
    pub fn metadata(&self, path: &str) -> (r: Result<Metadata, FsError>)
        ensures
            r == metadata_spec(self@, path.spec_bytes()),
    {
        match self.find_entry(path) {
            Some(EntryRef::File(b)) => Ok(Metadata { file_type: FileType::File, len: b.len() as u64 }),
            Some(EntryRef::Directory(_)) => Ok(Metadata { file_type: FileType::Directory, len: 0 }),
            None => Err(FsError::NotFound),
        }
    }

    /// Whether `path` leads to a file or a directory.
    pub fn path_exists(&self, path: &str) -> (r: bool)
        ensures
            r == exists_spec(self@, path.spec_bytes()),
    {
        self.find_entry(path).is_some()
    }

    /// Fails: the archive is read-only.
    pub fn create_dir(&self, _path: &str) -> (r: Result<(), FsError>)
        ensures
            r == Err::<(), FsError>(FsError::NotSupported),
    {
        Err(FsError::NotSupported)
    }

    /// Fails: the archive is read-only.
    pub fn create_file(&self, _path: &str) -> (r: Result<(), FsError>)
        ensures
            r == Err::<(), FsError>(FsError::NotSupported),
    {
        Err(FsError::NotSupported)
    }

    /// Fails: the archive is read-only.
    pub fn append_file(&self, _path: &str) -> (r: Result<(), FsError>)
        ensures
            r == Err::<(), FsError>(FsError::NotSupported),
    {
        Err(FsError::NotSupported)
    }

    /// Fails: the archive is read-only.
    pub fn remove_file(&self, _path: &str) -> (r: Result<(), FsError>)
        ensures
            r == Err::<(), FsError>(FsError::NotSupported),
    {
        Err(FsError::NotSupported)
    }

    /// Fails: the archive is read-only.
    pub fn remove_dir(&self, _path: &str) -> (r: Result<(), FsError>)
        ensures
            r == Err::<(), FsError>(FsError::NotSupported),
    {
        Err(FsError::NotSupported)
    }
}

/// Two record lists decoded from the same bytes fold into the same state:
/// building the tree twice from one archive gives the same tree.
pub proof fn lemma_same_records_same_state<'a, 'b>(
    st: crate::builder::BuildState,
    es1: Seq<TarEntry<'a>>,
    es2: Seq<TarEntry<'b>>,
    s: Seq<u8>,
)
    requires
        entries_match(es1, s),
        entries_match(es2, s),
    ensures
        build_from(st, es1) == build_from(st, es2),
    decreases es1.len(),
{
    if es1.len() > 0 {
        assert(es2.len() > 0);
        let (e1, e2) = (es1[0], es2[0]);
        assert(crate::builder::full_name(e1) == crate::builder::full_name(e2));
        assert(crate::builder::step(st, e1) == crate::builder::step(st, e2));
        lemma_same_records_same_state(
            crate::builder::step(st, e1),
            es1.drop_first(),
            es2.drop_first(),
            s.subrange(crate::parser::record_len(s) as int, s.len() as int),
        );
    } else {
        assert(es2.len() == 0);
    }
}

} // verus!
