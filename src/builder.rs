//! Folding the record stream into a directory tree.
use vstd::prelude::*;
use vstd::string::StringSliceAdditionalSpecFns;
use vstd::utf8::{encode_utf8_valid_utf8, valid_utf8, valid_utf8_concat};
use crate::parser::{
    dec_digits, dec_ok, dec_value, field_str, parse_decimal, parse_long_name, parse_pax, pax_get,
    pax_items, pax_lookup, pax_view, str_ok, ExtraHeader, TarEntry, TypeFlag, UStarExtraHeader,
};
use crate::tree::{
    comps_view, components, insert_dir_spec, insert_leaf_spec, split_path, DirTree, Entry,
    NodeView, PathSeq,
};

verus! {

/// The builder's state: the tree so far, and the overrides that modifier
/// records left for the next concrete record.
pub struct BuildState {
    pub tree: Map<PathSeq, NodeView>,
    pub longname: Option<Seq<u8>>,
    pub longlink: Option<Seq<u8>>,
    pub realsize: Option<u64>,
}

/// The state before the first record.
pub open spec fn initial_state() -> BuildState {
    BuildState {
        tree: map![Seq::<Seq<u8>>::empty() => NodeView::Directory],
        longname: None,
        longlink: None,
        realsize: None,
    }
}

/// The record's own name: `prefix/name` for a POSIX ustar header with a
/// non-empty prefix, else `name`.
pub open spec fn full_name(e: TarEntry) -> Seq<u8> {
    let name = e.header.name.spec_bytes();
    match e.header.ustar {
        ExtraHeader::UStar(u) => match u.extra {
            UStarExtraHeader::Posix(p) => if p.prefix.spec_bytes().len() > 0 {
                p.prefix.spec_bytes() + seq![47u8] + name
            } else {
                name
            },
            UStarExtraHeader::Gnu(_) => name,
        },
        ExtraHeader::Padding => name,
    }
}

/// The name a concrete record is stored under: a pending long name wins.
pub open spec fn effective_name(st: BuildState, e: TarEntry) -> Seq<u8> {
    match st.longname {
        Some(n) => n,
        None => full_name(e),
    }
}

/// Inserts a file or link under `name`; a name that ends in a slash names
/// no file and is skipped.
pub open spec fn leaf_spec(m: Map<PathSeq, NodeView>, name: Seq<u8>, v: NodeView) -> Map<
    PathSeq,
    NodeView,
> {
    if name.len() > 0 && name.last() == 47 {
        m
    } else {
        insert_leaf_spec(m, components(name), v)
    }
}

/// The first `size` bytes of the contents; all of them when `size` is larger.
pub open spec fn file_bytes(c: Seq<u8>, size: u64) -> Seq<u8> {
    if size <= c.len() {
        c.subrange(0, size as int)
    } else {
        c
    }
}

pub open spec fn path_key() -> Seq<u8> {
    seq![112u8, 97, 116, 104]
}

pub open spec fn linkpath_key() -> Seq<u8> {
    seq![108u8, 105, 110, 107, 112, 97, 116, 104]
}

pub open spec fn size_key() -> Seq<u8> {
    seq![115u8, 105, 122, 101]
}

/// The size a PAX block sets, if it holds a `size` record that reads as a
/// number.
pub open spec fn pax_size(c: Seq<u8>) -> Option<u64> {
    match pax_lookup(pax_items(c), size_key()) {
        Some(v) => if dec_ok(v) {
            Some(dec_value(dec_digits(v)) as u64)
        } else {
            None
        },
        None => None,
    }
}

/// Keeps an override that is already pending; else takes the new one.
pub open spec fn keep_first<T>(old: Option<T>, new: Option<T>) -> Option<T> {
    if old is Some {
        old
    } else {
        new
    }
}

/// One record folded into the state.
pub open spec fn step(st: BuildState, e: TarEntry) -> BuildState {
    let f = e.header.typeflag;
    let c = e.contents@;
    if f == TypeFlag::Directory || f == TypeFlag::GnuDirectory {
        BuildState {
            tree: insert_dir_spec(st.tree, components(effective_name(st, e))),
            longname: None,
            ..st
        }
    } else if f == TypeFlag::HardLink || f == TypeFlag::SymbolicLink {
        let target = match st.longlink {
            Some(t) => t,
            None => e.header.linkname.spec_bytes(),
        };
        BuildState {
            tree: leaf_spec(st.tree, effective_name(st, e), NodeView::Link(target)),
            longname: None,
            longlink: None,
            ..st
        }
    } else if f == TypeFlag::GnuLongName {
        if str_ok(c) {
            BuildState { longname: keep_first(st.longname, Some(field_str(c))), ..st }
        } else {
            st
        }
    } else if f == TypeFlag::GnuLongLink {
        if str_ok(c) {
            BuildState { longlink: keep_first(st.longlink, Some(field_str(c))), ..st }
        } else {
            st
        }
    } else if f == TypeFlag::Pax {
        BuildState {
            longname: keep_first(st.longname, pax_lookup(pax_items(c), path_key())),
            longlink: keep_first(st.longlink, pax_lookup(pax_items(c), linkpath_key())),
            realsize: keep_first(st.realsize, pax_size(c)),
            ..st
        }
    } else if f == TypeFlag::PaxGlobal || f == TypeFlag::GnuVolumeHeader {
        st
    } else {
        let size = match st.realsize {
            Some(s) => s,
            None => e.header.size,
        };
        BuildState {
            tree: leaf_spec(st.tree, effective_name(st, e), NodeView::File(file_bytes(c, size))),
            longname: None,
            realsize: None,
            ..st
        }
    }
}

/// The records folded into the state, in order.
pub open spec fn build_from(st: BuildState, es: Seq<TarEntry>) -> BuildState
    decreases es.len(),
{
    if es.len() == 0 {
        st
    } else {
        build_from(step(st, es[0]), es.drop_first())
    }
}

pub open spec fn str_bytes(s: Option<&str>) -> Option<Seq<u8>> {
    match s {
        Some(x) => Some(x.spec_bytes()),
        None => None,
    }
}

/// Appends the bytes `b` to `v`.
fn append_bytes(v: &mut Vec<u8>, b: &[u8])
    ensures
        final(v)@ == old(v)@ + b@,
{
    let mut k: usize = 0;
    while k < b.len()
        invariant
            k <= b@.len(),
            v@ == old(v)@ + b@.subrange(0, k as int),
        decreases b@.len() - k,
    {
        v.push(b[k]);
        k = k + 1;
        assert(v@ =~= old(v)@ + b@.subrange(0, k as int));
    }
    assert(b@.subrange(0, k as int) =~= b@);
}

/// Folds records into a directory tree, carrying the overrides that
/// modifier records set for the record after them.
pub struct DirTreeBuilder<'a> {
    root: DirTree<'a>,
    longname: Option<&'a str>,
    longlink: Option<&'a str>,
    realsize: Option<u64>,
}

impl<'a> Default for DirTreeBuilder<'a> {
    /// A builder with an empty tree and nothing pending.
    fn default() -> (r: Self)
        ensures
            r.wf(),
            r@ == initial_state(),
    {
        DirTreeBuilder::new()
    }
}

impl<'a> DirTreeBuilder<'a> {
    pub closed spec fn view(&self) -> BuildState {
        BuildState {
            tree: self.root@,
            longname: str_bytes(self.longname),
            longlink: str_bytes(self.longlink),
            realsize: self.realsize,
        }
    }

    pub closed spec fn wf(&self) -> bool {
        self.root.wf()
    }

    /// A builder with an empty tree and nothing pending.
    pub fn new() -> (r: Self)
        ensures
            r.wf(),
            r@ == initial_state(),
    {
        DirTreeBuilder { root: DirTree::new(), longname: None, longlink: None, realsize: None }
    }

    /// The record's own name, as bytes.
    pub fn get_full_name(entry: &TarEntry<'a>) -> (r: Vec<u8>)
        ensures
            r@ == full_name(*entry),
            valid_utf8(r@),
    {
        proof {
            encode_utf8_valid_utf8(entry.header.name@);
        }
        let mut out: Vec<u8> = Vec::new();
        if let ExtraHeader::UStar(ustar) = &entry.header.ustar {
            if let UStarExtraHeader::Posix(header) = &ustar.extra {
                if header.prefix.as_bytes().len() > 0 {
                    append_bytes(&mut out, header.prefix.as_bytes());
                    out.push(47);
                    append_bytes(&mut out, entry.header.name.as_bytes());
                    proof {
                        let p = header.prefix.spec_bytes();
                        encode_utf8_valid_utf8(header.prefix@);
                        reveal_with_fuel(valid_utf8, 2);
                        assert(valid_utf8(seq![47u8]));
                        valid_utf8_concat(p, seq![47u8]);
                        valid_utf8_concat(p + seq![47u8], entry.header.name.spec_bytes());
                    }
                    return out;
                }
            }
        }
        append_bytes(&mut out, entry.header.name.as_bytes());
        assert(out@ =~= entry.header.name.spec_bytes());
        out
    }

    /// The name the record is stored under; takes the pending long name.
    fn get_name(&mut self, entry: &TarEntry<'a>) -> (r: Vec<u8>)
        ensures
            r@ == effective_name(old(self)@, *entry),
            valid_utf8(r@),
            final(self).root == old(self).root,
            final(self).longname is None,
            final(self).longlink == old(self).longlink,
            final(self).realsize == old(self).realsize,
    {
        match self.longname.take() {
            Some(name) => {
                let mut out: Vec<u8> = Vec::new();
                append_bytes(&mut out, name.as_bytes());
                assert(out@ =~= name.spec_bytes());
                proof {
                    encode_utf8_valid_utf8(name@);
                }
                out
            },
            None => Self::get_full_name(entry),
        }
    }

    /// Inserts a directory, with its missing parents.
    fn insert_dir(&mut self, name: &[u8])
        requires
            old(self).wf(),
            valid_utf8(name@),
        ensures
            final(self).wf(),
            final(self).root@ == insert_dir_spec(old(self).root@, components(name@)),
            final(self).longname == old(self).longname,
            final(self).longlink == old(self).longlink,
            final(self).realsize == old(self).realsize,
    {
        let comps = split_path(name);
        self.root.insert_dir(&comps);
    }

    /// Inserts a file with the bytes `buf`.
    fn insert_file(&mut self, name: &[u8], buf: &'a [u8])
        requires
            old(self).wf(),
            valid_utf8(name@),
        ensures
            final(self).wf(),
            final(self).root@ == leaf_spec(old(self).root@, name@, NodeView::File(buf@)),
            final(self).longname == old(self).longname,
            final(self).longlink == old(self).longlink,
            final(self).realsize == old(self).realsize,
    {
        if name.len() > 0 && name[name.len() - 1] == 47 {
            return;
        }
        let comps = split_path(name);
        self.root.insert_leaf(&comps, Entry::File(buf));
    }

    /// Inserts a link to `target`.
    fn insert_link(&mut self, name: &[u8], target: &'a str)
        requires
            old(self).wf(),
            valid_utf8(name@),
        ensures
            final(self).wf(),
            final(self).root@ == leaf_spec(
                old(self).root@,
                name@,
                NodeView::Link(target.spec_bytes()),
            ),
            final(self).longname == old(self).longname,
            final(self).longlink == old(self).longlink,
            final(self).realsize == old(self).realsize,
    {
        if name.len() > 0 && name[name.len() - 1] == 47 {
            return;
        }
        let comps = split_path(name);
        self.root.insert_leaf(&comps, Entry::Link(target));
    }

    /// Folds one record into the tree or into the pending overrides.
    pub fn add_entry(&mut self, entry: &TarEntry<'a>)
        requires
            old(self).wf(),
        ensures
            final(self).wf(),
            final(self)@ == step(old(self)@, *entry),
    {
        match entry.header.typeflag {
            TypeFlag::Directory | TypeFlag::GnuDirectory => {
                let name = self.get_name(entry);
                self.insert_dir(name.as_slice());
            },
            TypeFlag::HardLink | TypeFlag::SymbolicLink => {
                let name = self.get_name(entry);
                let target = match self.longlink.take() {
                    Some(t) => t,
                    None => entry.header.linkname,
                };
                self.insert_link(name.as_slice(), target);
            },
            TypeFlag::GnuLongName => {
                if let Ok((_, name)) = parse_long_name(entry.contents) {
                    if self.longname.is_none() {
                        self.longname = Some(name);
                    }
                }
            },
            TypeFlag::GnuLongLink => {
                if let Ok((_, target)) = parse_long_name(entry.contents) {
                    if self.longlink.is_none() {
                        self.longlink = Some(target);
                    }
                }
            },
            TypeFlag::Pax => {
                if let Ok((_, pax)) = parse_pax(entry.contents) {
                    let path_key_bytes: Vec<u8> = vec![112, 97, 116, 104];
                    let linkpath_key_bytes: Vec<u8> = vec![108, 105, 110, 107, 112, 97, 116, 104];
                    let size_key_bytes: Vec<u8> = vec![115, 105, 122, 101];
                    assert(path_key_bytes@ =~= path_key());
                    assert(linkpath_key_bytes@ =~= linkpath_key());
                    assert(size_key_bytes@ =~= size_key());
                    if let Some(name) = pax_get(&pax, path_key_bytes.as_slice()) {
                        if self.longname.is_none() {
                            self.longname = Some(name);
                        }
                    }
                    if let Some(target) = pax_get(&pax, linkpath_key_bytes.as_slice()) {
                        if self.longlink.is_none() {
                            self.longlink = Some(target);
                        }
                    }
                    if let Some(size) = pax_get(&pax, size_key_bytes.as_slice()) {
                        if self.realsize.is_none() {
                            self.realsize = parse_decimal(size.as_bytes());
                        }
                    }
                }
            },
            TypeFlag::PaxGlobal | TypeFlag::GnuVolumeHeader => {},
            _ => {
                let name = self.get_name(entry);
                let size = match self.realsize.take() {
                    Some(s) => s,
                    None => entry.header.size,
                };
                let contents = entry.contents;
                let buf = if size <= contents.len() as u64 {
                    &contents[0..size as usize]
                } else {
                    contents
                };
                self.insert_file(name.as_slice(), buf);
            },
        }
    }

    /// Folds the records, in order, and gives the tree.
    pub fn build(self, entries: &[TarEntry<'a>]) -> (r: DirTree<'a>)
        requires
            self.wf(),
        ensures
            r.wf(),
            r@ == build_from(self@, entries@).tree,
    {
        let mut b = self;
        let mut k: usize = 0;
        assert(entries@.subrange(0, entries@.len() as int) =~= entries@);
        while k < entries.len()
            invariant
                b.wf(),
                k <= entries@.len(),
                build_from(b@, entries@.subrange(k as int, entries@.len() as int)) == build_from(
                    self@,
                    entries@,
                ),
            decreases entries@.len() - k,
        {
            assert(entries@.subrange(k as int, entries@.len() as int).drop_first() =~= entries@.subrange(
                k + 1,
                entries@.len() as int,
            ));
            b.add_entry(&entries[k]);
            k = k + 1;
        }
        assert(entries@.subrange(k as int, entries@.len() as int) =~= Seq::<TarEntry<'a>>::empty());
        b.root
    }
}

} // verus!
