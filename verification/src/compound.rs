//! Compound files held in memory: a tree of storages with byte streams at its
//! leaves, addressed by paths such as `/Library/Data`.

use std::io::{Cursor, Read, Write};
use vstd::prelude::*;
use crate::error::{AppError, Failure};
use crate::sections::is_key_char;
use crate::text::{lemma_split_join, lemma_split_without, split, upper, upper_text};

verus! {

/// The compound file of the `cfb` crate.
#[verifier::external_type_specification]
#[verifier::external_body]
#[verifier::reject_recursive_types(F)]
pub struct ExCompoundFile<F>(cfb::CompoundFile<F>);

/// The standard library's in-memory reader and writer.
#[verifier::external_type_specification]
#[verifier::external_body]
#[verifier::reject_recursive_types(T)]
pub struct ExCursor<T>(std::io::Cursor<T>);

/// A compound file in memory.
pub type Compound = cfb::CompoundFile<std::io::Cursor<Vec<u8>>>;

/// The paths at which a stream opens, each with what reading it to its end
/// gives, or with `None` where reading fails.
pub type Streams = Map<Seq<char>, Option<Seq<u8>>>;

/// The streams of a compound file.
pub uninterp spec fn compound_streams(compound: Compound) -> Streams;

/// The paths at which a compound file has a storage. The empty path leads to
/// its root.
pub uninterp spec fn compound_storages(compound: Compound) -> Set<Seq<char>>;

/// How much there is in a compound file that was created here and has got all
/// it holds by `create_storage` and `write_stream`: the lengths of its streams
/// and `ENTRY_COST` for each stream and storage. `None` for any other.
pub uninterp spec fn compound_content(compound: Compound) -> Option<nat>;

/// The streams of the compound file that the bytes `image` are, or `None` where
/// `cfb` does not open them. Paths are taken apart at `/` alone, as on Unix.
pub uninterp spec fn image_streams(image: Seq<u8>) -> Option<Streams>;

/// What a storage or a stream counts for, apart from the data in it.
pub const ENTRY_COST: u64 = 4096;

/// How much may be put into a compound file: with no more than this in it, its
/// sectors, mini sectors and entries can all be numbered with 32 bits.
pub const CONTENT_LIMIT: u64 = 0x40_0000_0000;

/// Whether an entry of a compound file can have this name, as far as its length
/// and its characters go.
pub open spec fn is_fit_name(name: Seq<char>) -> bool {
    &&& name.len() <= 31
    &&& forall|i: int| 0 <= i < name.len() ==> is_key_char(#[trigger] name[i])
}

/// Whether `path` is a `/` in front of each of one or more fit names.
pub open spec fn is_fit_path(path: Seq<char>) -> bool {
    let pieces = split(path, '/');
    &&& pieces.len() >= 2
    &&& pieces[0].len() == 0
    &&& forall|i: int| 1 <= i < pieces.len() ==> is_fit_name(#[trigger] pieces[i])
}

/// Whether `name` is a fit name that a path can hold as it is: not empty and
/// not a dot or two.
pub open spec fn is_plain_name(name: Seq<char>) -> bool {
    &&& is_fit_name(name)
    &&& name.len() > 0
    &&& name != seq!['.']
    &&& name != seq!['.', '.']
}

/// Whether `path` is a `/` in front of each of one or more plain names.
pub open spec fn is_plain_path(path: Seq<char>) -> bool {
    let pieces = split(path, '/');
    &&& pieces.len() >= 2
    &&& pieces[0].len() == 0
    &&& forall|i: int| 1 <= i < pieces.len() ==> is_plain_name(#[trigger] pieces[i])
}

/// Whether two plain paths lead to the same place: names differ in more than case.
pub open spec fn same_place(a: Seq<char>, b: Seq<char>) -> bool {
    upper_text(a) == upper_text(b)
}

/// What reading the stream at `path` gives, where it can be read.
pub open spec fn stream_at(streams: Streams, path: Seq<char>) -> Option<Seq<u8>> {
    if streams.contains_key(path) {
        streams[path]
    } else {
        None
    }
}

/// `cfb::CompoundFile::create` on an empty cursor: it succeeds, and the new
/// compound file has no streams and no storage but its root.
#[verifier::external_body]
pub(crate) fn create_compound() -> (r: Result<Compound, std::io::Error>)
    ensures
        r is Ok,
        r matches Ok(compound) ==> compound_content(compound) == Some(0nat),
        r matches Ok(compound) ==> compound_streams(compound) == Streams::empty(),
        r matches Ok(compound) ==> compound_storages(compound).contains(Seq::empty()),
        r matches Ok(compound) ==> forall|path: Seq<char>|
            is_plain_path(path) ==> !#[trigger] compound_storages(compound).contains(path),
{
    cfb::CompoundFile::create(Cursor::new(Vec::new()))
}

/// `cfb::CompoundFile::open` on a cursor over the bytes: whether they open, and
/// what streams they hold, are functions of the bytes.
#[verifier::external_body]
pub(crate) fn open_compound(image: &[u8]) -> (r: Result<Compound, std::io::Error>)
    ensures
        match r {
            Ok(compound) => image_streams(image@) == Some(compound_streams(compound)),
            Err(_) => image_streams(image@) is None,
        },
{
    cfb::CompoundFile::open(Cursor::new(image.to_vec()))
}

/// `cfb::CompoundFile::open_stream`, and `read_to_end` on the stream: the outer
/// result says whether the stream opens, the inner one what reading it gives.
/// Neither changes the compound file.
#[verifier::external_body]
pub(crate) fn read_stream(compound: &mut Compound, path: &str) -> (r: Result<
    Result<Vec<u8>, std::io::Error>,
    std::io::Error,
>)
    ensures
        compound_streams(*final(compound)) == compound_streams(*old(compound)),
        match r {
            Ok(Ok(data)) => compound_streams(*old(compound)).contains_key(path@)
                && compound_streams(*old(compound))[path@] == Some(data@),
            Ok(Err(_)) => compound_streams(*old(compound)).contains_key(path@)
                && compound_streams(*old(compound))[path@] is None,
            Err(_) => !compound_streams(*old(compound)).contains_key(path@),
        },
{
    let mut stream = compound.open_stream(path)?;
    let mut data = Vec::new();
    Ok(stream.read_to_end(&mut data).map(|_| data))
}

/// The path of `name` under the storage at `parent`, where the root is at the
/// empty path.
pub open spec fn child_path(parent: Seq<char>, name: Seq<char>) -> Seq<char> {
    parent + seq!['/'] + name
}

/// Whether the plain path `path` leads to something directly under a storage
/// of `compound`.
pub open spec fn has_parent(compound: Compound, path: Seq<char>) -> bool {
    exists|parent: Seq<char>, name: Seq<char>|
        #![trigger child_path(parent, name)]
        compound_storages(compound).contains(parent) && is_plain_name(name) && path
            == child_path(parent, name)
}

/// Whether `compound` is one of those whose content is known, with room for
/// `more`.
pub open spec fn has_room(compound: Compound, more: nat) -> bool {
    compound_content(compound) matches Some(content) && content + more <= CONTENT_LIMIT
}

/// Whether the known content of `before` has grown by no more than `more`.
pub open spec fn has_grown(before: Compound, after: Compound, more: nat) -> bool {
    compound_content(after) matches Some(content) && content <= compound_content(before)->0 + more
}

/// What holds when a storage was created at `path`.
pub open spec fn storage_created(before: Compound, after: Compound, path: Seq<char>) -> bool {
    &&& path != seq!['/', '.']
    &&& path != seq!['/', '.', '.']
    &&& compound_streams(after) == compound_streams(before)
    &&& compound_storages(before).subset_of(compound_storages(after))
    &&& forall|other: Seq<char>|
        is_plain_path(path) && is_plain_path(other) ==> (#[trigger] compound_storages(
            after,
        ).contains(other) <==> compound_storages(before).contains(other) || same_place(path, other))
}

/// What holds when `data` was written to the stream at `path`.
pub open spec fn stream_written(
    before: Compound,
    after: Compound,
    path: Seq<char>,
    data: Seq<u8>,
) -> bool {
    &&& compound_storages(after) == compound_storages(before)
    &&& forall|other: Seq<char>|
        is_plain_path(path) && is_plain_path(other) && same_place(path, other) ==> {
            &&& #[trigger] compound_streams(after).contains_key(other)
            &&& compound_streams(after)[other] == Some(data)
        }
    &&& forall|other: Seq<char>|
        is_plain_path(path) && is_plain_path(other) && !same_place(path, other) ==> {
            &&& #[trigger] compound_streams(after).contains_key(other) == compound_streams(
                before,
            ).contains_key(other)
            &&& compound_streams(before).contains_key(other) ==> compound_streams(after)[other]
                == compound_streams(before)[other]
        }
}

/// `cfb::CompoundFile::create_storage`: at a plain path it succeeds exactly
/// where the parent is a storage and nothing is there yet, and never where the
/// path names the root or its parent. The storage is then there under every
/// spelling of the path, the other storages and the streams are as before, and
/// there is one entry more. Names are not checked: other names than fit ones may
/// make it panic, or make a file that does not open.
#[verifier::external_body]
pub(crate) fn create_storage(compound: &mut Compound, path: &str) -> (r: Result<
    (),
    std::io::Error,
>)
    requires
        is_fit_path(path@),
        has_room(*old(compound), ENTRY_COST as nat),
    ensures
        is_plain_path(path@) ==> (r is Ok <==> has_parent(*old(compound), path@)
            && !compound_storages(*old(compound)).contains(path@) && !compound_streams(
            *old(compound),
        ).contains_key(path@)),
        r is Ok ==> storage_created(*old(compound), *final(compound), path@),
        r is Ok ==> has_grown(*old(compound), *final(compound), ENTRY_COST as nat),
{
    compound.create_storage(path)
}

/// `cfb::CompoundFile::create_stream`, and `write_all` and `flush` on the
/// stream: at a plain path they succeed exactly where the parent is a storage
/// and no storage is there. The stream then holds the data under every spelling
/// of the path, the streams at other plain paths and the storages are as
/// before, and there is at most one entry with these data more. Names are not
/// checked here either.
#[verifier::external_body]
pub(crate) fn write_stream(compound: &mut Compound, path: &str, data: &[u8]) -> (r: Result<
    (),
    std::io::Error,
>)
    requires
        is_fit_path(path@),
        has_room(*old(compound), ENTRY_COST as nat + data@.len()),
    ensures
        is_plain_path(path@) ==> (r is Ok <==> has_parent(*old(compound), path@)
            && !compound_storages(*old(compound)).contains(path@)),
        r is Ok ==> stream_written(*old(compound), *final(compound), path@, data@),
        r is Ok ==> has_grown(*old(compound), *final(compound), ENTRY_COST as nat + data@.len()),
{
    let mut stream = compound.create_stream(path)?;
    stream.write_all(data)?;
    stream.flush()
}

/// `cfb::CompoundFile::flush`, and `into_inner` down to the bytes: on a
/// compound file that was made by the calls above flushing succeeds, and the
/// bytes open again as a compound file with the same streams.
#[verifier::external_body]
pub(crate) fn finish_compound(compound: Compound) -> (r: Result<Vec<u8>, std::io::Error>)
    requires
        compound_content(compound) is Some,
    ensures
        r is Ok,
        r matches Ok(image) ==> image_streams(image@) == Some(compound_streams(compound)),
{
    let mut compound = compound;
    compound.flush()?;
    Ok(compound.into_inner().into_inner())
}

/// Reads the stream at `path` whole.
pub(crate) fn read_stream_bytes(compound: &mut Compound, path: &str) -> (r: Result<
    Vec<u8>,
    AppError,
>)
    ensures
        compound_streams(*final(compound)) == compound_streams(*old(compound)),
        match r {
            Ok(data) => stream_at(compound_streams(*old(compound)), path@) == Some(data@),
            Err(e) => stream_at(compound_streams(*old(compound)), path@) is None && e.failure()
                == Failure::Io,
        },
{
    match read_stream(compound, path) {
        Ok(Ok(data)) => Ok(data),
        Ok(Err(e)) => Err(AppError::Io(e)),
        Err(e) => Err(AppError::Io(e)),
    }
}

/// The path of `name` directly under the root.
pub open spec fn root_path(name: Seq<char>) -> Seq<char> {
    seq!['/'] + name
}

pub fn root_path_text(name: &str) -> (path: String)
    ensures
        path@ == root_path(name@),
{
    let mut path = String::new();
    path.push('/');
    path.append(name);
    assert(path@ =~= root_path(name@));
    path
}

/// Key characters, more than two of them, make a plain name.
pub proof fn lemma_long_name_plain(name: Seq<char>)
    requires
        2 < name.len() <= 31,
        forall|i: int| 0 <= i < name.len() ==> is_key_char(#[trigger] name[i]),
    ensures
        is_plain_name(name),
{
    assert(seq!['.'].len() == 1);
    assert(seq!['.', '.'].len() == 2);
}

pub proof fn lemma_plain_name_slash_free(name: Seq<char>)
    requires
        is_plain_name(name),
    ensures
        !name.contains('/'),
{
    lemma_plain_name_split(name);
}

proof fn lemma_plain_name_split(name: Seq<char>)
    requires
        is_plain_name(name),
    ensures
        !name.contains('/'),
        split(name, '/') == seq![name],
{
    assert(!name.contains('/')) by {
        if name.contains('/') {
            let i = choose|i: int| 0 <= i < name.len() && name[i] == '/';
            assert(is_key_char(name[i]));
        }
    }
    lemma_split_without(name, '/');
}

pub proof fn lemma_plain_root(name: Seq<char>)
    requires
        is_plain_name(name),
    ensures
        is_plain_path(root_path(name)),
{
    let none = Seq::<char>::empty();
    lemma_plain_name_split(name);
    lemma_split_join(none, '/', name);
    assert(none + seq!['/'] + name =~= root_path(name));
    assert(split(none, '/') =~= seq![none]);
    assert(split(root_path(name), '/') =~= seq![none, name]);
}

pub proof fn lemma_plain_child(parent: Seq<char>, name: Seq<char>)
    requires
        is_plain_path(parent),
        is_plain_name(name),
    ensures
        is_plain_path(child_path(parent, name)),
{
    lemma_plain_name_split(name);
    lemma_split_join(parent, '/', name);
    let a = split(parent, '/');
    let b = split(child_path(parent, name), '/');
    assert(b =~= a.push(name));
    assert forall|i: int| 1 <= i < b.len() implies is_plain_name(#[trigger] b[i]) by {
        if i < a.len() {
            assert(b[i] == a[i]);
        }
    }
}

/// Two paths to the same place have their slashes at the same positions.
pub proof fn lemma_same_place_slashes(a: Seq<char>, b: Seq<char>)
    requires
        same_place(a, b),
    ensures
        a.len() == b.len(),
        forall|i: int| 0 <= i < a.len() ==> upper(#[trigger] a[i]) == upper(b[i]),
        forall|i: int| 0 <= i < a.len() ==> ((#[trigger] a[i] == '/') == (b[i] == '/')),
{
    assert(upper_text(a).len() == a.len() && upper_text(b).len() == b.len());
    assert forall|i: int| 0 <= i < a.len() implies upper(#[trigger] a[i]) == upper(b[i]) by {
        assert(upper_text(a)[i] == upper_text(b)[i]);
    }
}

/// Paths of different depth under the root lead to different places.
pub proof fn lemma_depths_differ(name: Seq<char>, key: Seq<char>, rest: Seq<char>)
    requires
        !name.contains('/'),
    ensures
        !same_place(root_path(name), child_path(root_path(key), rest)),
        !same_place(child_path(root_path(key), rest), root_path(name)),
{
    let a = root_path(name);
    let b = child_path(root_path(key), rest);
    assert(b[1 + key.len() as int] == '/');
    if same_place(a, b) || same_place(b, a) {
        assert(same_place(a, b));
        lemma_same_place_slashes(a, b);
        assert(a[1 + key.len() as int] == '/');
        assert(name[key.len() as int] == '/');
    }
}

/// Paths that lead to the same place do so under names that are the same but for case.
pub proof fn lemma_same_section(k: Seq<char>, s: Seq<char>, l: Seq<char>, t: Seq<char>)
    requires
        !k.contains('/'),
        !l.contains('/'),
        same_place(child_path(root_path(k), s), child_path(root_path(l), t)),
    ensures
        same_place(root_path(k), root_path(l)),
        same_place(s, t),
{
    let a = child_path(root_path(k), s);
    let b = child_path(root_path(l), t);
    lemma_same_place_slashes(a, b);
    assert(a[1 + k.len() as int] == '/');
    assert(b[1 + l.len() as int] == '/');
    if k.len() < l.len() {
        assert(b[1 + k.len() as int] == l[k.len() as int]);
    } else if l.len() < k.len() {
        assert(a[1 + l.len() as int] == k[l.len() as int]);
    }
    assert forall|i: int| 0 <= i < k.len() + 1 implies upper(root_path(k)[i]) == upper(
        root_path(l)[i],
    ) by {
        assert(a[i] == root_path(k)[i] && b[i] == root_path(l)[i]);
    }
    assert(upper_text(root_path(k)) =~= upper_text(root_path(l)));
    assert forall|i: int| 0 <= i < s.len() implies upper(s[i]) == upper(t[i]) by {
        assert(a[i + k.len() + 2] == s[i] && b[i + k.len() + 2] == t[i]);
    }
    assert(upper_text(s) =~= upper_text(t));
}

/// Texts whose characters at `k` differ in more than case name different places.
pub proof fn lemma_places_differ_at(a: Seq<char>, b: Seq<char>, k: int)
    requires
        0 <= k < a.len(),
        0 <= k < b.len(),
        upper(a[k]) != upper(b[k]),
    ensures
        !same_place(a, b),
{
    assert(upper_text(a)[k] == upper(a[k]));
    assert(upper_text(b)[k] == upper(b[k]));
}

/// Paths directly under the root lead to the same place just where the names do.
pub proof fn lemma_same_root(a: Seq<char>, b: Seq<char>)
    ensures
        same_place(root_path(a), root_path(b)) <==> same_place(a, b),
{
    let p = upper_text(root_path(a));
    let q = upper_text(root_path(b));
    assert(p =~= seq!['/'] + upper_text(a));
    assert(q =~= seq!['/'] + upper_text(b));
    assert(p.skip(1) =~= upper_text(a));
    assert(q.skip(1) =~= upper_text(b));
}

/// The path of a fit name directly under the root has that name for its one piece.
pub proof fn lemma_root_pieces(name: Seq<char>)
    requires
        is_fit_name(name),
    ensures
        split(root_path(name), '/') == seq![Seq::<char>::empty(), name],
{
    let none = Seq::<char>::empty();
    assert(!name.contains('/')) by {
        if name.contains('/') {
            let i = choose|i: int| 0 <= i < name.len() && name[i] == '/';
            assert(is_key_char(name[i]));
        }
    }
    lemma_split_without(name, '/');
    lemma_split_join(none, '/', name);
    assert(none + seq!['/'] + name =~= root_path(name));
    assert(split(none, '/') =~= seq![none]);
    assert(split(root_path(name), '/') =~= seq![none, name]);
}

/// A fit name directly under the root makes a fit path.
pub proof fn lemma_fit_root(name: Seq<char>)
    requires
        is_fit_name(name),
    ensures
        is_fit_path(root_path(name)),
{
    lemma_root_pieces(name);
}

/// What is put into a compound file: its storages, with `None`, and its
/// streams, with their data, each under the path that it was given.
pub type Tree = Map<Seq<char>, Option<Seq<u8>>>;

pub open spec fn storage_in(tree: Tree, path: Seq<char>) -> bool {
    exists|p: Seq<char>| #[trigger]
        tree.contains_key(p) && tree[p] is None && same_place(p, path)
}

pub open spec fn stream_in(tree: Tree, path: Seq<char>) -> bool {
    exists|p: Seq<char>| #[trigger]
        tree.contains_key(p) && tree[p] is Some && same_place(p, path)
}

/// Whether nothing of `tree` is in the place of `path`.
pub open spec fn is_free(tree: Tree, path: Seq<char>) -> bool {
    forall|p: Seq<char>| #[trigger] tree.contains_key(p) ==> !same_place(p, path)
}

/// Whether `path` leads to something under the root or under a storage of `tree`.
pub open spec fn is_rooted(tree: Tree, path: Seq<char>) -> bool {
    exists|parent: Seq<char>, name: Seq<char>|
        #![trigger child_path(parent, name)]
        is_plain_name(name) && path == child_path(parent, name) && (parent.len() == 0
            || tree.contains_key(parent) && tree[parent] is None)
}

/// Whether `compound` holds, at plain paths, `tree` and nothing else, and no
/// more than `content` of it.
pub open spec fn holds_tree(compound: Compound, tree: Tree, content: nat) -> bool {
    &&& compound_content(compound) matches Some(held) && held <= content
    &&& compound_storages(compound).contains(Seq::empty())
    &&& forall|p: Seq<char>| #[trigger] tree.contains_key(p) ==> is_plain_path(p)
    &&& forall|path: Seq<char>|
        is_plain_path(path) ==> #[trigger] compound_storages(compound).contains(path)
            == storage_in(tree, path)
    &&& forall|path: Seq<char>|
        is_plain_path(path) ==> #[trigger] compound_streams(compound).contains_key(path)
            == stream_in(tree, path)
    &&& forall|p: Seq<char>| #[trigger]
        tree.contains_key(p) && tree[p] is Some ==> compound_streams(compound)[p] == tree[p]
}

/// A new compound file holds nothing.
proof fn lemma_empty_tree(compound: Compound)
    requires
        compound_content(compound) == Some(0nat),
        compound_streams(compound) == Streams::empty(),
        compound_storages(compound).contains(Seq::empty()),
        forall|path: Seq<char>|
            is_plain_path(path) ==> !#[trigger] compound_storages(compound).contains(path),
    ensures
        holds_tree(compound, Tree::empty(), 0),
{
}

proof fn lemma_rooted(compound: Compound, tree: Tree, content: nat, path: Seq<char>)
    requires
        holds_tree(compound, tree, content),
        is_rooted(tree, path),
    ensures
        has_parent(compound, path),
{
    let (parent, name) = choose|parent: Seq<char>, name: Seq<char>|
        #![trigger child_path(parent, name)]
        is_plain_name(name) && path == child_path(parent, name) && (parent.len() == 0
            || tree.contains_key(parent) && tree[parent] is None);
    if parent.len() == 0 {
        assert(parent =~= Seq::empty());
    } else {
        assert(same_place(parent, parent));
        assert(storage_in(tree, parent));
    }
    assert(compound_storages(compound).contains(parent));
}

/// What a new storage or stream at a free place adds to a tree.
proof fn lemma_tree_grows(tree: Tree, path: Seq<char>, node: Option<Seq<u8>>, other: Seq<char>)
    requires
        is_free(tree, path),
    ensures
        storage_in(tree.insert(path, node), other) == (storage_in(tree, other) || node is None
            && same_place(path, other)),
        stream_in(tree.insert(path, node), other) == (stream_in(tree, other) || node is Some
            && same_place(path, other)),
{
    let next = tree.insert(path, node);
    assert(!tree.contains_key(path)) by {
        assert(same_place(path, path));
    }
    assert(next.contains_key(path));
    if storage_in(tree, other) {
        let p = choose|p: Seq<char>| #[trigger]
            tree.contains_key(p) && tree[p] is None && same_place(p, other);
        assert(next.contains_key(p) && next[p] is None);
    }
    if stream_in(tree, other) {
        let p = choose|p: Seq<char>| #[trigger]
            tree.contains_key(p) && tree[p] is Some && same_place(p, other);
        assert(next.contains_key(p) && next[p] is Some);
    }
    if storage_in(next, other) {
        let p = choose|p: Seq<char>| #[trigger]
            next.contains_key(p) && next[p] is None && same_place(p, other);
        assert(p == path || tree.contains_key(p));
    }
    if stream_in(next, other) {
        let p = choose|p: Seq<char>| #[trigger]
            next.contains_key(p) && next[p] is Some && same_place(p, other);
        assert(p == path || tree.contains_key(p));
    }
}

/// A plain path is a fit one.
pub proof fn lemma_plain_fits(path: Seq<char>)
    requires
        is_plain_path(path),
    ensures
        is_fit_path(path),
{
    let pieces = split(path, '/');
    assert forall|i: int| 1 <= i < pieces.len() implies is_fit_name(#[trigger] pieces[i]) by {
        assert(is_plain_name(pieces[i]));
    }
}

/// Creates a compound file with nothing in it.
pub(crate) fn start_tree() -> (r: Result<Compound, AppError>)
    ensures
        r matches Ok(compound) && holds_tree(compound, Tree::empty(), 0),
{
    match create_compound() {
        Ok(compound) => {
            proof {
                lemma_empty_tree(compound);
            }
            Ok(compound)
        },
        Err(e) => Err(AppError::Io(e)),
    }
}

/// Adds a storage to a tree.
pub(crate) fn add_storage(
    compound: &mut Compound,
    path: &str,
    tree: Ghost<Tree>,
    content: Ghost<nat>,
) -> (r: Result<(), AppError>)
    requires
        holds_tree(*old(compound), tree@, content@),
        content@ + ENTRY_COST <= CONTENT_LIMIT,
        is_fit_path(path@),
        is_plain_path(path@) ==> is_rooted(tree@, path@),
    ensures
        match r {
            Ok(_) => {
                &&& path@ != seq!['/', '.']
                &&& path@ != seq!['/', '.', '.']
                &&& is_plain_path(path@) ==> is_free(tree@, path@) && holds_tree(
                    *final(compound),
                    tree@.insert(path@, None),
                    content@ + ENTRY_COST as nat,
                )
            },
            Err(e) => e.failure() == Failure::Io && (is_plain_path(path@) ==> !is_free(
                tree@,
                path@,
            )),
        },
{
    let ghost before = *compound;
    proof {
        if is_plain_path(path@) {
            lemma_rooted(before, tree@, content@, path@);
        }
    }
    match create_storage(compound, path) {
        Ok(_) => {
            proof {
                if is_plain_path(path@) {
                    assert(!storage_in(tree@, path@));
                    assert(!stream_in(tree@, path@));
                    assert(is_free(tree@, path@));
                    lemma_storage_added(before, *compound, tree@, content@, path@);
                }
            }
            Ok(())
        },
        Err(e) => {
            proof {
                if is_plain_path(path@) {
                    assert(storage_in(tree@, path@) || stream_in(tree@, path@));
                }
            }
            Err(AppError::Io(e))
        },
    }
}

proof fn lemma_storage_added(
    before: Compound,
    after: Compound,
    tree: Tree,
    content: nat,
    path: Seq<char>,
)
    requires
        holds_tree(before, tree, content),
        is_plain_path(path),
        is_free(tree, path),
        storage_created(before, after, path),
        has_grown(before, after, ENTRY_COST as nat),
    ensures
        holds_tree(after, tree.insert(path, None), content + ENTRY_COST as nat),
{
    let next = tree.insert(path, None);
    assert forall|other: Seq<char>| is_plain_path(other) implies #[trigger] compound_storages(
        after,
    ).contains(other) == storage_in(next, other) by {
        lemma_tree_grows(tree, path, None, other);
    }
    assert forall|other: Seq<char>| is_plain_path(other) implies #[trigger] compound_streams(
        after,
    ).contains_key(other) == stream_in(next, other) by {
        lemma_tree_grows(tree, path, None, other);
    }
    assert forall|p: Seq<char>| #[trigger]
        next.contains_key(p) && next[p] is Some implies compound_streams(after)[p] == next[p] by {
        assert(tree.contains_key(p));
    }
    assert forall|p: Seq<char>| #[trigger] next.contains_key(p) implies is_plain_path(p) by {
        assert(p == path || tree.contains_key(p));
    }
}

/// Adds a stream to a tree.
pub(crate) fn add_stream(
    compound: &mut Compound,
    path: &str,
    data: &[u8],
    tree: Ghost<Tree>,
    content: Ghost<nat>,
) -> (r: Result<(), AppError>)
    requires
        holds_tree(*old(compound), tree@, content@),
        content@ + ENTRY_COST + data@.len() <= CONTENT_LIMIT,
        is_plain_path(path@),
        is_rooted(tree@, path@),
    ensures
        match r {
            Ok(_) => {
                &&& !storage_in(tree@, path@)
                &&& is_free(tree@, path@) ==> holds_tree(
                    *final(compound),
                    tree@.insert(path@, Some(data@)),
                    content@ + ENTRY_COST as nat + data@.len(),
                )
            },
            Err(e) => storage_in(tree@, path@) && e.failure() == Failure::Io,
        },
{
    let ghost before = *compound;
    proof {
        lemma_rooted(before, tree@, content@, path@);
        lemma_plain_fits(path@);
    }
    match write_stream(compound, path, data) {
        Ok(_) => {
            proof {
                if is_free(tree@, path@) {
                    lemma_stream_added(before, *compound, tree@, content@, path@, data@);
                }
            }
            Ok(())
        },
        Err(e) => Err(AppError::Io(e)),
    }
}

proof fn lemma_stream_added(
    before: Compound,
    after: Compound,
    tree: Tree,
    content: nat,
    path: Seq<char>,
    data: Seq<u8>,
)
    requires
        holds_tree(before, tree, content),
        is_plain_path(path),
        is_free(tree, path),
        stream_written(before, after, path, data),
        has_grown(before, after, ENTRY_COST as nat + data.len()),
    ensures
        holds_tree(
            after,
            tree.insert(path, Some(data)),
            content + ENTRY_COST as nat + data.len(),
        ),
{
    let next = tree.insert(path, Some(data));
    assert forall|other: Seq<char>| is_plain_path(other) implies #[trigger] compound_storages(
        after,
    ).contains(other) == storage_in(next, other) by {
        lemma_tree_grows(tree, path, Some(data), other);
        assert(compound_storages(before).contains(other) == storage_in(tree, other));
    }
    assert forall|other: Seq<char>| is_plain_path(other) implies #[trigger] compound_streams(
        after,
    ).contains_key(other) == stream_in(next, other) by {
        lemma_tree_grows(tree, path, Some(data), other);
        assert(compound_streams(before).contains_key(other) == stream_in(tree, other));
    }
    assert forall|p: Seq<char>| #[trigger]
        next.contains_key(p) && next[p] is Some implies compound_streams(after)[p] == next[p] by {
        if p == path {
            assert(same_place(path, path));
            assert(compound_streams(after).contains_key(path));
        } else {
            assert(tree.contains_key(p));
            assert(!same_place(path, p));
            assert(same_place(p, p));
            assert(stream_in(tree, p));
            assert(compound_streams(before).contains_key(p));
            assert(compound_streams(after).contains_key(p));
        }
    }
    assert forall|p: Seq<char>| #[trigger] next.contains_key(p) implies is_plain_path(p) by {
        assert(p == path || tree.contains_key(p));
    }
}

/// What a tree has under a path of its own, the compound file reads there.
pub proof fn lemma_tree_read(compound: Compound, tree: Tree, content: nat, path: Seq<char>)
    requires
        holds_tree(compound, tree, content),
        tree.contains_key(path),
        tree[path] is Some,
    ensures
        stream_at(compound_streams(compound), path) == tree[path],
{
    assert(same_place(path, path));
    assert(stream_in(tree, path));
    assert(compound_streams(compound).contains_key(path));
}

/// The bytes of the compound file with the given tree.
pub(crate) fn finish_tree(compound: Compound, tree: Ghost<Tree>, content: Ghost<nat>) -> (r: Result<
    Vec<u8>,
    AppError,
>)
    requires
        holds_tree(compound, tree@, content@),
    ensures
        r matches Ok(image) && image_streams(image@) == Some(compound_streams(compound)),
{
    match finish_compound(compound) {
        Ok(image) => Ok(image),
        Err(e) => Err(AppError::Io(e)),
    }
}

/// Whether components can have storages under these keys beside what else is in
/// the root: no key is a dot or two, and no two keys, nor a key and one of the
/// names `taken`, differ in case alone.
pub open spec fn keys_fit(keys: Seq<Seq<char>>, taken: Seq<Seq<char>>) -> bool {
    &&& forall|i: int|
        0 <= i < keys.len() ==> #[trigger] keys[i] != seq!['.'] && keys[i] != seq!['.', '.']
    &&& forall|i: int, t: int|
        0 <= i < keys.len() && 0 <= t < taken.len() ==> !same_place(
            #[trigger] taken[t],
            #[trigger] keys[i],
        )
    &&& forall|i: int, j: int|
        0 <= i < j < keys.len() ==> !same_place(#[trigger] keys[i], #[trigger] keys[j])
}

} // verus!
