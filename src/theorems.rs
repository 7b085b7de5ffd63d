//! What holds of the tree, the builder and the queries together.
use vstd::prelude::*;
use vstd::string::StringSliceAdditionalSpecFns;
use crate::builder::{effective_name, file_bytes, leaf_spec, pax_size, step, BuildState};
use crate::fs::{exists_spec, metadata_spec, open_file_spec, read_dir_ok, FileType, Metadata};
use crate::parser::{field_str, str_ok, ExtraHeader, TarEntry, TypeFlag, UStarExtraHeader};
use crate::tree::{
    components, ensure_dirs, insert_leaf_spec, lookup, resolve_link, resolve_path, walk, NodeView,
    PathSeq, Resolved, WalkView,
};

verus! {

/// A record kind that is stored as a regular file.
pub open spec fn is_file_flag(f: TypeFlag) -> bool {
    !(f == TypeFlag::Directory || f == TypeFlag::GnuDirectory || f == TypeFlag::HardLink || f
        == TypeFlag::SymbolicLink || f == TypeFlag::GnuLongName || f == TypeFlag::GnuLongLink || f
        == TypeFlag::Pax || f == TypeFlag::PaxGlobal || f == TypeFlag::GnuVolumeHeader)
}

/// Every prefix of `cs` strictly longer than `i` and shorter than `cs`
/// holds a directory.
pub open spec fn dirs_above(m: Map<PathSeq, NodeView>, cs: PathSeq, i: nat) -> bool {
    forall|j: int|
        i < j < cs.len() ==> m.contains_key(#[trigger] cs.subrange(0, j)) && m[cs.subrange(0, j)]
            is Directory
}

/// A walk whose path runs through directories down to a file or a link
/// ends there.
pub proof fn lemma_walk_to_leaf(m: Map<PathSeq, NodeView>, cs: PathSeq, i: nat)
    requires
        i < cs.len(),
        dirs_above(m, cs, i),
        m.contains_key(cs),
        !(m[cs] is Directory),
    ensures
        walk(m, cs, i) == match m[cs] {
            NodeView::File(b) => WalkView::File(b),
            NodeView::Link(t) => WalkView::Link(cs.len(), t),
            NodeView::Directory => WalkView::Directory,
        },
    decreases cs.len() - i,
{
    if i + 1 == cs.len() {
        assert(cs.subrange(0, (i + 1) as int) =~= cs);
    } else {
        assert(m.contains_key(cs.subrange(0, (i + 1) as int)));
        lemma_walk_to_leaf(m, cs, i + 1);
    }
}

/// Making the prefixes of `cs` directories, when it succeeds, leaves every
/// prefix past `i` a directory, and changes no path that was present.
pub proof fn lemma_ensure_dirs(m: Map<PathSeq, NodeView>, cs: PathSeq, i: nat)
    requires
        ensure_dirs(m, cs, i).1,
    ensures
        forall|j: int|
            i < j <= cs.len() ==> ensure_dirs(m, cs, i).0.contains_key(#[trigger] cs.subrange(0, j))
                && ensure_dirs(m, cs, i).0[cs.subrange(0, j)] is Directory,
        forall|q: PathSeq|
            #[trigger] m.contains_key(q) ==> ensure_dirs(m, cs, i).0.contains_key(q) && ensure_dirs(
                m,
                cs,
                i,
            ).0[q] == m[q],
    decreases cs.len() - i,
{
    if i < cs.len() {
        let q = cs.subrange(0, (i + 1) as int);
        let r = ensure_dirs(m, cs, i);
        if m.contains_key(q) {
            assert(m[q] is Directory);
            lemma_ensure_dirs(m, cs, i + 1);
            assert(r == ensure_dirs(m, cs, i + 1));
            assert forall|j: int| i < j <= cs.len() implies r.0.contains_key(
                #[trigger] cs.subrange(0, j),
            ) && r.0[cs.subrange(0, j)] is Directory by {
                if j == i + 1 {
                    assert(m.contains_key(cs.subrange(0, j)));
                }
            }
        } else {
            let m2 = m.insert(q, NodeView::Directory);
            lemma_ensure_dirs(m2, cs, i + 1);
            assert(r == ensure_dirs(m2, cs, i + 1));
            assert forall|j: int| i < j <= cs.len() implies r.0.contains_key(
                #[trigger] cs.subrange(0, j),
            ) && r.0[cs.subrange(0, j)] is Directory by {
                if j == i + 1 {
                    assert(m2.contains_key(cs.subrange(0, j)));
                }
            }
            assert forall|q2: PathSeq| #[trigger] m.contains_key(q2) implies r.0.contains_key(q2)
                && r.0[q2] == m[q2] by {
                assert(m2.contains_key(q2));
                assert(m2[q2] == m[q2]);
            }
        }
    }
}

/// A file record whose name has no file or link on its parent path is
/// found, after it is folded in, under its name, with its contents.
pub proof fn lemma_file_found_by_name(st: BuildState, e: TarEntry, fuel: nat)
    requires
        is_file_flag(e.header.typeflag),
        st.realsize is None,
        e.contents@.len() == e.header.size,
        !(effective_name(st, e).len() > 0 && effective_name(st, e).last() == 47),
        components(effective_name(st, e)).len() > 0,
        ensure_dirs(st.tree, components(effective_name(st, e)).drop_last(), 0).1,
    ensures
        lookup(step(st, e).tree, components(effective_name(st, e)), fuel) == Resolved::File(
            e.contents@,
        ),
{
    let cs = components(effective_name(st, e));
    let parent = cs.drop_last();
    let m1 = ensure_dirs(st.tree, parent, 0).0;
    let m2 = m1.insert(cs, NodeView::File(e.contents@));
    assert(e.contents@.subrange(0, e.header.size as int) =~= e.contents@);
    assert(step(st, e).tree == m2);
    lemma_ensure_dirs(st.tree, parent, 0);
    assert forall|j: int| 0 < j < cs.len() implies m2.contains_key(#[trigger] cs.subrange(0, j))
        && m2[cs.subrange(0, j)] is Directory by {
        assert(cs.subrange(0, j) =~= parent.subrange(0, j));
        assert(cs.subrange(0, j) != cs);
    }
    lemma_walk_to_leaf(m2, cs, 0);
}

/// Looking up a link's path is looking up where it points, with one link
/// fewer to follow.
pub proof fn lemma_link_resolves_to_target(m: Map<PathSeq, NodeView>, l: PathSeq, t: Seq<u8>, fuel: nat)
    requires
        l.len() > 0,
        dirs_above(m, l, 0),
        m.contains_key(l),
        m[l] == NodeView::Link(t),
    ensures
        lookup(m, l, fuel + 1) == lookup(m, resolve_link(l, t), fuel),
{
    lemma_walk_to_leaf(m, l, 0);
    assert(l.subrange(0, l.len() as int) =~= l);
    assert(resolve_link(l, t) + l.subrange(l.len() as int, l.len() as int) =~= resolve_link(l, t));
}

/// A path exists exactly when it opens as a file or lists as a directory.
pub proof fn lemma_exists_iff_file_or_dir(m: Map<PathSeq, NodeView>, path: Seq<u8>)
    ensures
        exists_spec(m, path) <==> (open_file_spec(m, path) is Ok || read_dir_ok(m, path)),
{
}

/// The length that `metadata` reports for a file is the number of bytes it
/// opens to.
pub proof fn lemma_metadata_len_is_file_len(m: Map<PathSeq, NodeView>, path: Seq<u8>)
    requires
        open_file_spec(m, path) is Ok,
    ensures
        metadata_spec(m, path) == Ok::<Metadata, crate::fs::FsError>(
            Metadata {
                file_type: FileType::File,
                len: open_file_spec(m, path)->Ok_0.len() as u64,
            },
        ),
{
}

/// A file after a PAX record that sets `size=S` is stored with its first `S`
/// bytes, whatever its header says.
pub proof fn lemma_pax_size_sets_length(st: BuildState, pax: TarEntry, e: TarEntry, s: u64)
    requires
        st.realsize is None,
        pax.header.typeflag == TypeFlag::Pax,
        pax_size(pax.contents@) == Some(s),
        is_file_flag(e.header.typeflag),
        s <= e.contents@.len(),
    ensures
        step(step(st, pax), e).tree == leaf_spec(
            st.tree,
            effective_name(step(st, pax), e),
            NodeView::File(e.contents@.subrange(0, s as int)),
        ),
        e.contents@.subrange(0, s as int).len() == s,
{
}

/// A file after a GNU long-name record is stored under that long name,
/// whatever its header's name field says.
pub proof fn lemma_long_name_sets_path(st: BuildState, ln: TarEntry, e: TarEntry)
    requires
        st.longname is None,
        st.realsize is None,
        ln.header.typeflag == TypeFlag::GnuLongName,
        str_ok(ln.contents@),
        is_file_flag(e.header.typeflag),
    ensures
        step(step(st, ln), e).tree == leaf_spec(
            st.tree,
            field_str(ln.contents@),
            NodeView::File(file_bytes(e.contents@, e.header.size)),
        ),
{
}

/// A POSIX ustar file record with a non-empty prefix is stored under
/// `prefix/name`.
pub proof fn lemma_ustar_prefix_path(st: BuildState, e: TarEntry)
    requires
        st.longname is None,
        st.realsize is None,
        is_file_flag(e.header.typeflag),
        e.header.ustar is UStar,
        e.header.ustar->UStar_0.extra is Posix,
        e.header.ustar->UStar_0.extra->Posix_0.prefix.spec_bytes().len() > 0,
    ensures
        step(st, e).tree == leaf_spec(
            st.tree,
            e.header.ustar->UStar_0.extra->Posix_0.prefix.spec_bytes() + seq![47u8]
                + e.header.name.spec_bytes(),
            NodeView::File(file_bytes(e.contents@, e.header.size)),
        ),
{
}

} // verus!
