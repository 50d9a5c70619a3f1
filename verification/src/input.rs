//! Claims as they are authored: a tree in which single claims are marked for
//! disclosure with a tag. The tree is walked once; the walk gives the paths
//! of the marked claims and takes the mark off the marked elements of
//! sequences.

use crate::integer::{numeral_of, write_numeral};
use itertools::Itertools;
use vstd::prelude::*;
use vstd::string::StringExecFns;

verus! {

broadcast use {
    vstd::std_specs::vec::axiom_vec_index_decreases,
    vstd::std_specs::vec::axiom_vec_decreases_to_view,
    vstd::seq::axiom_seq_index_decreases,
};

/// A key of a mapping.
#[derive(Debug)]
pub enum ClaimKey {
    /// A scalar under a tag; `text` is the scalar where it is a string.
    Tagged { tag: String, text: Option<String> },
    /// A string.
    Text(String),
    /// Any other key.
    Other,
}

/// A tree of claims.
#[derive(Debug)]
pub enum ClaimNode {
    /// Keys and their values, in the order in which they were written.
    Mapping(Vec<(ClaimKey, ClaimNode)>),
    /// The elements of a sequence.
    Sequence(Vec<ClaimNode>),
    /// A value under a tag; `text` is the value where it is a string.
    Tagged { tag: String, text: Option<String> },
    /// A string.
    Text(String),
    /// Any other value.
    Other,
}

/// What a `ClaimKey` stands for.
pub enum ClaimKeyView {
    Tagged { tag: Seq<char>, text: Option<Seq<char>> },
    Text(Seq<char>),
    Other,
}

/// What a `ClaimNode` stands for.
pub enum ClaimNodeView {
    Mapping(Seq<(ClaimKeyView, ClaimNodeView)>),
    Sequence(Seq<ClaimNodeView>),
    Tagged { tag: Seq<char>, text: Option<Seq<char>> },
    Text(Seq<char>),
    Other,
}

/// The characters of a string that may be missing.
pub open spec fn text_view(text: Option<String>) -> Option<Seq<char>> {
    match text {
        Some(t) => Some(t@),
        None => None,
    }
}

impl View for ClaimKey {
    type V = ClaimKeyView;

    open spec fn view(&self) -> ClaimKeyView {
        match self {
            ClaimKey::Tagged { tag, text } => ClaimKeyView::Tagged {
                tag: tag@,
                text: text_view(*text),
            },
            ClaimKey::Text(t) => ClaimKeyView::Text(t@),
            ClaimKey::Other => ClaimKeyView::Other,
        }
    }
}

/// What a tree of claims stands for.
pub open spec fn node_view(node: ClaimNode) -> ClaimNodeView
    decreases node,
{
    match node {
        ClaimNode::Mapping(entries) => ClaimNodeView::Mapping(
            Seq::new(
                entries@.len(),
                |i: int|
                    if 0 <= i < entries@.len() {
                        (entries@[i].0@, node_view(entries@[i].1))
                    } else {
                        (ClaimKeyView::Other, ClaimNodeView::Other)
                    },
            ),
        ),
        ClaimNode::Sequence(items) => ClaimNodeView::Sequence(
            Seq::new(
                items@.len(),
                |i: int|
                    if 0 <= i < items@.len() {
                        node_view(items@[i])
                    } else {
                        ClaimNodeView::Other
                    },
            ),
        ),
        ClaimNode::Tagged { tag, text } => ClaimNodeView::Tagged { tag: tag@, text: text_view(text) },
        ClaimNode::Text(t) => ClaimNodeView::Text(t@),
        ClaimNode::Other => ClaimNodeView::Other,
    }
}

impl View for ClaimNode {
    type V = ClaimNodeView;

    open spec fn view(&self) -> ClaimNodeView {
        node_view(*self)
    }
}

/// What the entries of a mapping stand for.
pub open spec fn entry_views(entries: Seq<(ClaimKey, ClaimNode)>) -> Seq<
    (ClaimKeyView, ClaimNodeView),
> {
    Seq::new(entries.len(), |i: int| (entries[i].0@, entries[i].1@))
}

/// What the elements of a sequence stand for.
pub open spec fn item_views(items: Seq<ClaimNode>) -> Seq<ClaimNodeView> {
    Seq::new(items.len(), |i: int| items[i]@)
}

/// The characters of each string of a list.
pub open spec fn texts(list: Seq<String>) -> Seq<Seq<char>> {
    Seq::new(list.len(), |i: int| list[i]@)
}

/// Why a tree of claims is refused.
#[derive(Debug)]
pub enum InputError {
    /// A claim is marked for disclosure under the tag `tag`, and what stands
    /// under the tag is no string.
    InvalidInput { tag: String },
}

impl View for InputError {
    type V = Seq<char>;

    open spec fn view(&self) -> Seq<char> {
        match self {
            InputError::InvalidInput { tag } => tag@,
        }
    }
}

/// The segments one after the other, with `sep` between each two.
pub open spec fn joined(parts: Seq<Seq<char>>, sep: Seq<char>) -> Seq<char>
    decreases parts.len(),
{
    if parts.len() == 0 {
        Seq::empty()
    } else if parts.len() == 1 {
        parts[0]
    } else {
        joined(parts.drop_last(), sep) + sep + parts.last()
    }
}

/// The segments one after the other, with a slash in front of each.
pub open spec fn rooted(parts: Seq<Seq<char>>) -> Seq<char>
    decreases parts.len(),
{
    if parts.len() == 0 {
        Seq::empty()
    } else {
        rooted(parts.drop_last()) + "/"@ + parts.last()
    }
}

/// The path of a claim with the segment `segment` below `path`.
pub open spec fn full_path(path: Seq<Seq<char>>, segment: Seq<char>) -> Seq<char> {
    joined(path, "/"@) + "/"@ + segment
}

/// A tag without its leading exclamation mark, where more than the mark is
/// there.
pub open spec fn unbanged(tag: Seq<char>) -> Seq<char> {
    if tag.len() > 1 && tag[0] == '!' {
        tag.skip(1)
    } else {
        tag
    }
}

/// Whether a tag marks a claim for disclosure.
pub open spec fn disclosure(tag: Seq<char>) -> bool {
    tag.len() > 0 && unbanged(tag) == unbanged("!sd"@)
}

/// `Itertools::join` on the segments: each segment as it is, with `sep`
/// between each two, and the empty string for no segment.
#[verifier::external_body]
fn join_segments(path: &Vec<String>, sep: &str) -> (r: String)
    ensures
        r@ == joined(texts(path@), sep@),
{
    path.iter().join(sep)
}

/// Equality of two `serde_yaml::value::Tag`s made of the two strings: the
/// tags are the same where the strings are, a leading exclamation mark that
/// something follows left aside. A tag cannot be made of the empty string.
#[verifier::external_body]
fn same_tag(a: &str, b: &str) -> (r: bool)
    requires
        a@.len() > 0,
        b@.len() > 0,
    ensures
        r == (unbanged(a@) == unbanged(b@)),
{
    serde_yaml::value::Tag::new(a) == serde_yaml::value::Tag::new(b)
}

/// Whether a tag marks a claim for disclosure.
pub fn is_disclosure(tag: &String) -> (r: bool)
    ensures
        r == disclosure(tag@),
{
    if tag.as_str().is_empty() {
        false
    } else {
        proof {
            reveal_strlit("!sd");
        }
        same_tag(tag.as_str(), "!sd")
    }
}

/// The path of a claim below `path`: the segments joined by slashes, then a
/// slash and the claim's own segment.
pub fn build_full_path(path: &Vec<String>, additional_segment: &str) -> (r: String)
    ensures
        r@ == full_path(texts(path@), additional_segment@),
{
    let mut full_path = join_segments(path, "/");
    full_path.append("/");
    full_path.append(additional_segment);
    full_path
}

/// The path of the claim at `path` itself: a slash and a segment, for each
/// segment.
pub fn build_rooted_path(path: &Vec<String>) -> (r: String)
    ensures
        r@ == rooted(texts(path@)),
{
    let mut full_path = String::new();
    let mut i: usize = 0;
    while i < path.len()
        invariant
            i <= path.len(),
            full_path@ == rooted(texts(path@).take(i as int)),
        decreases path.len() - i,
    {
        proof {
            assert(texts(path@).take(i + 1).drop_last() =~= texts(path@).take(i as int));
        }
        full_path.append("/");
        full_path.append(path[i].as_str());
        i += 1;
    }
    proof {
        assert(texts(path@).take(i as int) =~= texts(path@));
    }
    full_path
}

/// What a walk gives: the tree, the path that the walk stands at, the paths
/// found, and the tag of the claim that the walk failed at.
pub struct Walked {
    pub node: ClaimNodeView,
    pub path: Seq<Seq<char>>,
    pub paths: Seq<Seq<char>>,
    pub failed: Option<Seq<char>>,
}

/// The walk through a tree that stands at `path`, after the paths `paths`
/// were found.
///
/// In a mapping, a key that is marked gives the path of its string below
/// the mapping, and the walk fails where the key is no string; the value
/// under a key that is a string is walked, below the key. In a sequence each
/// element is walked, below its position; an element that is marked then
/// becomes its string, and the walk fails where it is none. A marked value
/// gives the path that the walk stands at. A walk that fails stops where it
/// stands.
pub open spec fn walk(node: ClaimNodeView, path: Seq<Seq<char>>, paths: Seq<Seq<char>>) -> Walked
    decreases node, 0nat,
{
    match node {
        ClaimNodeView::Mapping(entries) => walk_entries(entries, 0, Seq::empty(), path, paths),
        ClaimNodeView::Sequence(items) => walk_items(items, 0, Seq::empty(), path, paths),
        ClaimNodeView::Tagged { tag, .. } => if disclosure(tag) {
            Walked { node, path, paths: paths.push(rooted(path)), failed: None }
        } else {
            Walked { node, path, paths, failed: None }
        },
        _ => Walked { node, path, paths, failed: None },
    }
}

/// The walk through the entries of a mapping from the entry `i` on, after
/// the entries `acc` were walked.
pub open spec fn walk_entries(
    entries: Seq<(ClaimKeyView, ClaimNodeView)>,
    i: nat,
    acc: Seq<(ClaimKeyView, ClaimNodeView)>,
    path: Seq<Seq<char>>,
    paths: Seq<Seq<char>>,
) -> Walked
    decreases entries, entries.len() - i,
{
    if i >= entries.len() {
        Walked { node: ClaimNodeView::Mapping(acc), path, paths, failed: None }
    } else {
        let (key, value) = entries[i as int];
        match key {
            ClaimKeyView::Tagged { tag, text } => if disclosure(tag) {
                match text {
                    Some(t) => walk_entries(
                        entries,
                        i + 1,
                        acc.push((key, value)),
                        path,
                        paths.push(full_path(path, t)),
                    ),
                    None => Walked {
                        node: ClaimNodeView::Mapping(acc),
                        path,
                        paths,
                        failed: Some(tag),
                    },
                }
            } else {
                walk_entries(entries, i + 1, acc.push((key, value)), path, paths)
            },
            ClaimKeyView::Text(k) => {
                let below = walk(value, path.push(k), paths);
                if below.failed is Some {
                    below
                } else {
                    walk_entries(entries, i + 1, acc.push((key, below.node)), path, below.paths)
                }
            },
            ClaimKeyView::Other => walk_entries(
                entries,
                i + 1,
                acc.push((key, value)),
                path,
                paths,
            ),
        }
    }
}

/// An element of a sequence after the walk: its string where it is marked,
/// itself otherwise; or the tag of a marked element that is no string.
pub open spec fn unmarked(node: ClaimNodeView) -> Result<ClaimNodeView, Seq<char>> {
    match node {
        ClaimNodeView::Tagged { tag, text } => if disclosure(tag) {
            match text {
                Some(t) => Ok(ClaimNodeView::Text(t)),
                None => Err(tag),
            }
        } else {
            Ok(node)
        },
        _ => Ok(node),
    }
}

/// The walk through the elements of a sequence from the element `i` on,
/// after the elements `acc` were walked.
pub open spec fn walk_items(
    items: Seq<ClaimNodeView>,
    i: nat,
    acc: Seq<ClaimNodeView>,
    path: Seq<Seq<char>>,
    paths: Seq<Seq<char>>,
) -> Walked
    decreases items, items.len() - i,
{
    if i >= items.len() {
        Walked { node: ClaimNodeView::Sequence(acc), path, paths, failed: None }
    } else {
        let here = path.push(numeral_of(i as i128));
        let below = walk(items[i as int], here, paths);
        if below.failed is Some {
            below
        } else {
            match unmarked(below.node) {
                Ok(item) => walk_items(items, i + 1, acc.push(item), path, below.paths),
                Err(tag) => Walked {
                    node: ClaimNodeView::Sequence(acc),
                    path: here,
                    paths: below.paths,
                    failed: Some(tag),
                },
            }
        }
    }
}

/// Whether a walk ended as `w` says: at the path it stands at, with the paths
/// found, and with the tree or the failure `r`.
pub open spec fn walked(
    w: Walked,
    r: Result<ClaimNodeView, Seq<char>>,
    path: Seq<Seq<char>>,
    paths: Seq<Seq<char>>,
) -> bool {
    &&& path == w.path
    &&& paths == w.paths
    &&& match w.failed {
        Some(tag) => r == Err::<ClaimNodeView, Seq<char>>(tag),
        None => r == Ok::<ClaimNodeView, Seq<char>>(w.node),
    }
}

/// What the result of a walk stands for.
pub open spec fn outcome(r: Result<ClaimNode, InputError>) -> Result<ClaimNodeView, Seq<char>> {
    match r {
        Ok(node) => Ok(node@),
        Err(e) => Err(e@),
    }
}

/// What the result of a walk through a mapping stands for.
pub open spec fn mapping_outcome(r: Result<Vec<(ClaimKey, ClaimNode)>, InputError>) -> Result<
    ClaimNodeView,
    Seq<char>,
> {
    match r {
        Ok(entries) => Ok(ClaimNodeView::Mapping(entry_views(entries@))),
        Err(e) => Err(e@),
    }
}

/// What the result of a walk through a sequence stands for.
pub open spec fn sequence_outcome(r: Result<Vec<ClaimNode>, InputError>) -> Result<
    ClaimNodeView,
    Seq<char>,
> {
    match r {
        Ok(items) => Ok(ClaimNodeView::Sequence(item_views(items@))),
        Err(e) => Err(e@),
    }
}

/// One more string at the end of a list.
proof fn lemma_texts_push(list: Seq<String>, s: String)
    ensures
        texts(list.push(s)) == texts(list).push(s@),
{
    assert(texts(list.push(s)) =~= texts(list).push(s@));
}

/// A list without its last string.
proof fn lemma_texts_drop_last(list: Seq<String>)
    requires
        list.len() > 0,
    ensures
        texts(list.drop_last()) == texts(list).drop_last(),
{
    assert(texts(list.drop_last()) =~= texts(list).drop_last());
}

/// One more entry at the end of a mapping.
proof fn lemma_entries_push(entries: Seq<(ClaimKey, ClaimNode)>, key: ClaimKey, value: ClaimNode)
    ensures
        entry_views(entries.push((key, value))) == entry_views(entries).push((key@, value@)),
{
    assert(entry_views(entries.push((key, value))) =~= entry_views(entries).push(
        (key@, value@),
    ));
}

/// One more element at the end of a sequence.
proof fn lemma_items_push(items: Seq<ClaimNode>, item: ClaimNode)
    ensures
        item_views(items.push(item)) == item_views(items).push(item@),
{
    assert(item_views(items.push(item)) =~= item_views(items).push(item@));
}

/// A mapping stands for what its entries stand for.
proof fn lemma_mapping_view(entries: Vec<(ClaimKey, ClaimNode)>)
    ensures
        ClaimNode::Mapping(entries)@ == ClaimNodeView::Mapping(entry_views(entries@)),
{
    assert(node_view(ClaimNode::Mapping(entries))->Mapping_0 =~= entry_views(entries@));
}

/// A sequence stands for what its elements stand for.
proof fn lemma_sequence_view(items: Vec<ClaimNode>)
    ensures
        ClaimNode::Sequence(items)@ == ClaimNodeView::Sequence(item_views(items@)),
{
    assert(node_view(ClaimNode::Sequence(items))->Sequence_0 =~= item_views(items@));
}

/// Walks a tree of claims that stands at `path`: adds the paths of the
/// claims that are marked for disclosure to `paths`, and gives the tree with
/// the marked elements of sequences turned into their strings. Fails at the
/// first marked claim that is no string, and leaves `path` where the walk
/// stood then; a walk that does not fail leaves `path` as it was.
pub fn collect_tagged_keys(node: ClaimNode, path: &mut Vec<String>, paths: &mut Vec<String>) -> (r:
    Result<ClaimNode, InputError>)
    ensures
        walked(
            walk(node@, texts(old(path)@), texts(old(paths)@)),
            outcome(r),
            texts(final(path)@),
            texts(final(paths)@),
        ),
        r is Ok ==> texts(final(path)@) == texts(old(path)@),
    decreases node, 0nat,
{
    match node {
        ClaimNode::Mapping(entries) => {
            proof {
                lemma_mapping_view(entries);
            }
            match collect_entries(entries, path, paths) {
                Ok(out) => {
                    proof {
                        lemma_mapping_view(out);
                    }
                    Ok(ClaimNode::Mapping(out))
                },
                Err(e) => Err(e),
            }
        },
        ClaimNode::Sequence(items) => {
            proof {
                lemma_sequence_view(items);
            }
            match collect_items(items, path, paths) {
                Ok(out) => {
                    proof {
                        lemma_sequence_view(out);
                    }
                    Ok(ClaimNode::Sequence(out))
                },
                Err(e) => Err(e),
            }
        },
        ClaimNode::Tagged { tag, text } => {
            if is_disclosure(&tag) {
                let full_path = build_rooted_path(path);
                proof {
                    lemma_texts_push(paths@, full_path);
                }
                paths.push(full_path);
            }
            Ok(ClaimNode::Tagged { tag, text })
        },
        ClaimNode::Text(t) => Ok(ClaimNode::Text(t)),
        ClaimNode::Other => Ok(ClaimNode::Other),
    }
}

/// Walks the entries of a mapping that stands at `path`.
fn collect_entries(
    entries: Vec<(ClaimKey, ClaimNode)>,
    path: &mut Vec<String>,
    paths: &mut Vec<String>,
) -> (r: Result<Vec<(ClaimKey, ClaimNode)>, InputError>)
    ensures
        walked(
            walk_entries(
                entry_views(entries@),
                0,
                Seq::empty(),
                texts(old(path)@),
                texts(old(paths)@),
            ),
            mapping_outcome(r),
            texts(final(path)@),
            texts(final(paths)@),
        ),
        r is Ok ==> texts(final(path)@) == texts(old(path)@),
    decreases entries, 1nat,
{
    let ghost all = entries@;
    let ghost views = entry_views(entries@);
    let ghost start = walk_entries(views, 0, Seq::empty(), texts(path@), texts(paths@));
    let ghost path0 = texts(path@);
    let mut rest = entries;
    let mut out: Vec<(ClaimKey, ClaimNode)> = Vec::new();
    proof {
        assert(entry_views(out@) =~= Seq::empty());
        assert(all.skip(0) =~= all);
    }
    while rest.len() > 0
        invariant
            all == entries@,
            views == entry_views(all),
            rest.len() <= all.len(),
            rest@ == all.skip(all.len() - rest.len()),
            texts(path@) == path0,
            path0 == texts(old(path)@),
            start == walk_entries(views, 0, Seq::empty(), path0, texts(old(paths)@)),
            walk_entries(
                views,
                (all.len() - rest.len()) as nat,
                entry_views(out@),
                texts(path@),
                texts(paths@),
            ) == start,
        decreases rest.len(),
    {
        let ghost i = all.len() - rest.len();
        let (key, value) = rest.remove(0);
        proof {
            assert(all.skip(i).remove(0) =~= all.skip(i + 1));
            assert(views[i] == (key@, value@));
        }
        match key {
            ClaimKey::Tagged { tag, text } => {
                if is_disclosure(&tag) {
                    match text {
                        Some(t) => {
                            let full_path = build_full_path(path, t.as_str());
                            proof {
                                lemma_texts_push(paths@, full_path);
                                lemma_entries_push(
                                    out@,
                                    ClaimKey::Tagged { tag, text: Some(t) },
                                    value,
                                );
                            }
                            paths.push(full_path);
                            out.push((ClaimKey::Tagged { tag, text: Some(t) }, value));
                        },
                        None => {
                            return Err(InputError::InvalidInput { tag });
                        },
                    }
                } else {
                    proof {
                        lemma_entries_push(out@, ClaimKey::Tagged { tag, text }, value);
                    }
                    out.push((ClaimKey::Tagged { tag, text }, value));
                }
            },
            ClaimKey::Text(k) => {
                proof {
                    lemma_texts_push(path@, k);
                }
                path.push(k.clone());
                match collect_tagged_keys(value, path, paths) {
                    Ok(below) => {
                        proof {
                            lemma_texts_drop_last(path@);
                            lemma_entries_push(out@, ClaimKey::Text(k), below);
                            assert(path0.push(k@).drop_last() =~= path0);
                        }
                        path.pop();
                        out.push((ClaimKey::Text(k), below));
                    },
                    Err(e) => {
                        return Err(e);
                    },
                }
            },
            ClaimKey::Other => {
                proof {
                    lemma_entries_push(out@, ClaimKey::Other, value);
                }
                out.push((ClaimKey::Other, value));
            },
        }
    }
    Ok(out)
}

/// The element of a sequence after the walk: its string where it is marked,
/// itself otherwise. Fails where a marked element is no string.
fn unmark(node: ClaimNode) -> (r: Result<ClaimNode, InputError>)
    ensures
        outcome(r) == unmarked(node@),
{
    match node {
        ClaimNode::Tagged { tag, text } => {
            if is_disclosure(&tag) {
                match text {
                    Some(t) => Ok(ClaimNode::Text(t)),
                    None => Err(InputError::InvalidInput { tag }),
                }
            } else {
                Ok(ClaimNode::Tagged { tag, text })
            }
        },
        ClaimNode::Mapping(entries) => Ok(ClaimNode::Mapping(entries)),
        ClaimNode::Sequence(items) => Ok(ClaimNode::Sequence(items)),
        ClaimNode::Text(t) => Ok(ClaimNode::Text(t)),
        ClaimNode::Other => Ok(ClaimNode::Other),
    }
}

/// Walks the elements of a sequence that stands at `path`.
fn collect_items(items: Vec<ClaimNode>, path: &mut Vec<String>, paths: &mut Vec<String>) -> (r:
    Result<Vec<ClaimNode>, InputError>)
    ensures
        walked(
            walk_items(
                item_views(items@),
                0,
                Seq::empty(),
                texts(old(path)@),
                texts(old(paths)@),
            ),
            sequence_outcome(r),
            texts(final(path)@),
            texts(final(paths)@),
        ),
        r is Ok ==> texts(final(path)@) == texts(old(path)@),
    decreases items, 1nat,
{
    let ghost all = items@;
    let ghost views = item_views(items@);
    let ghost start = walk_items(views, 0, Seq::empty(), texts(path@), texts(paths@));
    let ghost path0 = texts(path@);
    let mut rest = items;
    let mut out: Vec<ClaimNode> = Vec::new();
    let mut index: usize = 0;
    let total = rest.len();
    proof {
        assert(item_views(out@) =~= Seq::empty());
        assert(all.skip(0) =~= all);
    }
    while rest.len() > 0
        invariant
            all == items@,
            views == item_views(all),
            all.len() == total,
            rest.len() <= all.len(),
            index == all.len() - rest.len(),
            rest@ == all.skip(index as int),
            texts(path@) == path0,
            path0 == texts(old(path)@),
            start == walk_items(views, 0, Seq::empty(), path0, texts(old(paths)@)),
            walk_items(views, index as nat, item_views(out@), texts(path@), texts(paths@))
                == start,
        decreases rest.len(),
    {
        let value = rest.remove(0);
        proof {
            assert(all.skip(index as int).remove(0) =~= all.skip(index + 1));
            assert(views[index as int] == value@);
        }
        let segment = write_numeral(index as i128);
        proof {
            lemma_texts_push(path@, segment);
        }
        path.push(segment);
        let below = match collect_tagged_keys(value, path, paths) {
            Ok(below) => below,
            Err(e) => {
                return Err(e);
            },
        };
        let item = match unmark(below) {
            Ok(item) => item,
            Err(e) => {
                return Err(e);
            },
        };
        proof {
            lemma_texts_drop_last(path@);
            lemma_items_push(out@, item);
            assert(path0.push(segment@).drop_last() =~= path0);
        }
        path.pop();
        out.push(item);
        index += 1;
    }
    Ok(out)
}

/// The claims as they were authored, and the paths of those that are marked
/// for disclosure.
#[derive(Debug)]
pub struct InputClaims {
    pub raw: ClaimNode,
    pub disclosable_paths: Vec<String>,
}

/// A tree of claims that is refused: why, and the path that the walk stood
/// at.
#[derive(Debug)]
pub struct InputFailure {
    pub path: Vec<String>,
    pub error: InputError,
}

impl InputClaims {
    /// The claims of a tree: the tree after the walk from its root, and the
    /// paths that the walk found. Fails where the walk fails, with the path
    /// that it stood at.
    pub fn from_tree(node: ClaimNode) -> (r: Result<InputClaims, InputFailure>)
        ensures
            ({
                let w = walk(node@, Seq::empty(), Seq::empty());
                match w.failed {
                    Some(tag) => r matches Err(f) && f.error@ == tag && texts(f.path@) == w.path,
                    None => r matches Ok(claims) && claims.raw@ == w.node && texts(
                        claims.disclosable_paths@,
                    ) == w.paths,
                }
            }),
    {
        let mut path: Vec<String> = Vec::new();
        let mut tagged_paths: Vec<String> = Vec::new();
        proof {
            assert(texts(path@) =~= Seq::empty());
            assert(texts(tagged_paths@) =~= Seq::empty());
        }
        match collect_tagged_keys(node, &mut path, &mut tagged_paths) {
            Ok(raw) => Ok(InputClaims { raw, disclosable_paths: tagged_paths }),
            Err(error) => Err(InputFailure { path, error }),
        }
    }
}

} // verus!
