//! The directory tree: filtering, shaping and ordering of listings.
//!
//! A traversal of the filesystem is handed in as raw entries (one per
//! directory entry, with the raw entries of readable subdirectories
//! nested inside) and shaped into the tree the GUI shell displays:
//! hidden and ignored names are dropped, folders are placed before
//! files, and each group is ordered by case-insensitive name.

use vstd::prelude::*;

use crate::order::{lemma_name_le_total, lemma_name_le_trans, name_le, name_le_exec};

verus! {

/// Whether one entry is a file or a folder.
#[derive(Clone, Copy, PartialEq, Eq, Structural, Debug)]
pub enum EntryKind {
    File,
    Folder,
}

/// One node of the produced tree. A `File` node never carries children;
/// a `Folder` node carries `Some` ordered children, or `None` when the
/// folder's contents could not be enumerated.
#[derive(Debug)]
pub struct FileNode {
    pub name: String,
    pub path: String,
    pub kind: EntryKind,
    pub children: Option<Vec<FileNode>>,
}

/// One raw directory entry as the shell found it, before filtering and
/// ordering. For a `Folder`, `children` is `Some` raw listing when the
/// subdirectory could be read and `None` when it could not.
#[derive(Debug)]
pub struct RawEntry {
    pub name: String,
    pub path: String,
    pub kind: EntryKind,
    pub children: Option<Vec<RawEntry>>,
}

/// Mathematical model of a produced tree node.
pub ghost struct NodeModel {
    pub name: Seq<char>,
    pub path: Seq<char>,
    pub kind: EntryKind,
    pub children: Option<Seq<NodeModel>>,
}

/// Mathematical model of a raw entry.
pub ghost struct RawModel {
    pub name: Seq<char>,
    pub path: Seq<char>,
    pub kind: EntryKind,
    pub children: Option<Seq<RawModel>>,
}

pub open spec fn node_view(n: FileNode) -> NodeModel
    decreases n,
{
    NodeModel {
        name: n.name@,
        path: n.path@,
        kind: n.kind,
        children: match n.children {
            Option::None => Option::None,
            Option::Some(v) => Option::Some(node_views(v@)),
        },
    }
}

pub open spec fn node_views(s: Seq<FileNode>) -> Seq<NodeModel>
    decreases s,
{
    if s.len() == 0 {
        Seq::empty()
    } else {
        seq![node_view(s[0])] + node_views(s.drop_first())
    }
}

pub open spec fn raw_view(e: RawEntry) -> RawModel
    decreases e,
{
    RawModel {
        name: e.name@,
        path: e.path@,
        kind: e.kind,
        children: match e.children {
            Option::None => Option::None,
            Option::Some(v) => Option::Some(raw_views(v@)),
        },
    }
}

pub open spec fn raw_views(s: Seq<RawEntry>) -> Seq<RawModel>
    decreases s,
{
    if s.len() == 0 {
        Seq::empty()
    } else {
        seq![raw_view(s[0])] + raw_views(s.drop_first())
    }
}

/// A name is hidden when it starts with the hidden marker `.`.
pub open spec fn hidden_name(name: Seq<char>) -> bool {
    name.len() > 0 && name[0] == '.'
}

/// A name is ignored when it matches one of the fixed ignore set: the
/// dependency cache and the build-artifact directories.
pub open spec fn ignored_name(name: Seq<char>) -> bool {
    ||| name == "node_modules"@
    ||| name == "target"@
    ||| name == "dist"@
}

/// A directory entry with such a name is left out of the tree entirely.
pub open spec fn skipped_name(name: Seq<char>) -> bool {
    hidden_name(name) || ignored_name(name)
}

/// The order of siblings at one level: folders come before files, and
/// within one kind names compare case-insensitively.
pub open spec fn node_le(a: NodeModel, b: NodeModel) -> bool {
    if a.kind == b.kind {
        name_le(a.name, b.name)
    } else {
        a.kind == EntryKind::Folder
    }
}

/// The node a raw entry turns into: same name, path and kind; a file
/// never carries children, a folder carries its shaped children when
/// its raw listing could be read.
pub open spec fn built_node(e: RawModel) -> NodeModel
    decreases e, 0int,
{
    NodeModel {
        name: e.name,
        path: e.path,
        kind: e.kind,
        children: if e.kind == EntryKind::Folder {
            match e.children {
                Option::None => Option::None,
                Option::Some(cs) => Option::Some(built_list(cs)),
            }
        } else {
            Option::None
        },
    }
}

/// The nodes of one level before ordering: skipped names are dropped,
/// the rest are built in listing order.
pub open spec fn shaped_list(s: Seq<RawModel>) -> Seq<NodeModel>
    decreases s, 1int,
{
    if s.len() == 0 {
        Seq::empty()
    } else {
        let rest = shaped_list(s.drop_first());
        if skipped_name(s[0].name) {
            rest
        } else {
            seq![built_node(s[0])] + rest
        }
    }
}

/// Stable insertion of a node into an ordered level: the new node goes
/// after every node that compares less-or-equal to it.
pub open spec fn insert_sorted(x: NodeModel, s: Seq<NodeModel>) -> Seq<NodeModel>
    decreases s,
{
    if s.len() == 0 {
        seq![x]
    } else if node_le(s[0], x) {
        seq![s[0]] + insert_sorted(x, s.drop_first())
    } else {
        seq![x] + s
    }
}

/// Stable sort of one level, inserting each node in listing order.
pub open spec fn sorted_nodes(s: Seq<NodeModel>) -> Seq<NodeModel>
    decreases s,
{
    if s.len() == 0 {
        Seq::empty()
    } else {
        insert_sorted(s.last(), sorted_nodes(s.drop_last()))
    }
}

/// One whole level of the produced tree: shaped, then ordered.
pub open spec fn built_list(s: Seq<RawModel>) -> Seq<NodeModel>
    decreases s, 2int,
{
    sorted_nodes(shaped_list(s))
}

/// A level is ordered when every pair of siblings stands in `node_le`.
pub open spec fn level_ordered(s: Seq<NodeModel>) -> bool {
    forall|i: int, j: int|
        #![trigger s[i], s[j]]
        0 <= i < j < s.len() ==> node_le(s[i], s[j])
}

/// `node_le` is total: any two nodes are comparable.
pub proof fn lemma_node_le_total(a: NodeModel, b: NodeModel)
    ensures
        node_le(a, b) || node_le(b, a),
{
    if a.kind == b.kind {
        lemma_name_le_total(a.name, b.name);
    }
}

/// `node_le` is transitive.
pub proof fn lemma_node_le_trans(a: NodeModel, b: NodeModel, c: NodeModel)
    requires
        node_le(a, b),
        node_le(b, c),
    ensures
        node_le(a, c),
{
    if a.kind == b.kind && b.kind == c.kind {
        lemma_name_le_trans(a.name, b.name, c.name);
    }
}

pub proof fn lemma_node_views_len(s: Seq<FileNode>)
    ensures
        node_views(s).len() == s.len(),
    decreases s,
{
    if s.len() > 0 {
        lemma_node_views_len(s.drop_first());
    }
}

pub proof fn lemma_node_views_index(s: Seq<FileNode>, i: int)
    requires
        0 <= i < s.len(),
    ensures
        node_views(s).len() == s.len(),
        node_views(s)[i] == node_view(s[i]),
    decreases s,
{
    lemma_node_views_len(s);
    if i > 0 {
        lemma_node_views_index(s.drop_first(), i - 1);
    }
}

pub proof fn lemma_raw_views_len(s: Seq<RawEntry>)
    ensures
        raw_views(s).len() == s.len(),
    decreases s,
{
    if s.len() > 0 {
        lemma_raw_views_len(s.drop_first());
    }
}

pub proof fn lemma_raw_views_index(s: Seq<RawEntry>, i: int)
    requires
        0 <= i < s.len(),
    ensures
        raw_views(s).len() == s.len(),
        raw_views(s)[i] == raw_view(s[i]),
    decreases s,
{
    lemma_raw_views_len(s);
    if i > 0 {
        lemma_raw_views_index(s.drop_first(), i - 1);
    }
}

pub proof fn lemma_insert_sorted_len(x: NodeModel, s: Seq<NodeModel>)
    ensures
        insert_sorted(x, s).len() == s.len() + 1,
    decreases s,
{
    if s.len() > 0 && node_le(s[0], x) {
        lemma_insert_sorted_len(x, s.drop_first());
    }
}

/// Inserting a node adds exactly that node: the result holds the same
/// nodes as before, plus the inserted one.
pub proof fn lemma_insert_sorted_multiset(x: NodeModel, s: Seq<NodeModel>)
    ensures
        insert_sorted(x, s).to_multiset() == s.to_multiset().insert(x),
    decreases s,
{
    broadcast use vstd::seq_lib::group_to_multiset_ensures;

    if s.len() == 0 {
        assert(insert_sorted(x, s) =~= Seq::empty().push(x));
        assert(Seq::<NodeModel>::empty().push(x).to_multiset() =~= s.to_multiset().insert(x));
    } else if node_le(s[0], x) {
        lemma_insert_sorted_multiset(x, s.drop_first());
        let t = insert_sorted(x, s.drop_first());
        assert(insert_sorted(x, s) =~= seq![s[0]] + t);
        lemma_multiset_of_cons(s[0], t);
        lemma_multiset_of_cons(s[0], s.drop_first());
        assert(seq![s[0]] + s.drop_first() =~= s);
        assert((seq![s[0]] + t).to_multiset() =~= s.to_multiset().insert(x));
    } else {
        lemma_multiset_of_cons(x, s);
        assert(insert_sorted(x, s) =~= seq![x] + s);
    }
}

/// Prepending one element inserts it into the multiset of the rest.
pub proof fn lemma_multiset_of_cons(x: NodeModel, s: Seq<NodeModel>)
    ensures
        (seq![x] + s).to_multiset() == s.to_multiset().insert(x),
    decreases s,
{
    broadcast use vstd::seq_lib::group_to_multiset_ensures;

    if s.len() == 0 {
        assert(seq![x] + s =~= Seq::empty().push(x));
        assert(Seq::<NodeModel>::empty().push(x).to_multiset() =~= s.to_multiset().insert(x));
    } else {
        let r = seq![x] + s;
        assert(r =~= (seq![x] + s.drop_last()).push(s.last()));
        lemma_multiset_of_cons(x, s.drop_last());
        assert(s =~= s.drop_last().push(s.last()));
        assert(s.to_multiset() =~= s.drop_last().to_multiset().insert(s.last()));
        assert(r.to_multiset() =~= s.drop_last().to_multiset().insert(x).insert(s.last()));
        assert(s.drop_last().to_multiset().insert(x).insert(s.last()) =~= s.drop_last()
            .to_multiset()
            .insert(s.last())
            .insert(x));
    }
}

/// Inserting into an ordered level keeps it ordered.
pub proof fn lemma_insert_sorted_ordered(x: NodeModel, s: Seq<NodeModel>)
    requires
        level_ordered(s),
    ensures
        level_ordered(insert_sorted(x, s)),
    decreases s,
{
    broadcast use vstd::seq_lib::group_to_multiset_ensures;

    if s.len() == 0 {
    } else if node_le(s[0], x) {
        let rest = s.drop_first();
        assert(level_ordered(rest)) by {
            assert forall|i: int, j: int|
                #![trigger rest[i], rest[j]]
                0 <= i < j < rest.len() implies node_le(rest[i], rest[j]) by {
                assert(rest[i] == s[i + 1]);
                assert(rest[j] == s[j + 1]);
            }
        }
        lemma_insert_sorted_ordered(x, rest);
        let t = insert_sorted(x, rest);
        let r = seq![s[0]] + t;
        // every node of `t` is `x` or one of `rest`, so `s[0]` precedes it
        lemma_insert_sorted_multiset(x, rest);
        assert forall|j: int| 1 <= j < r.len() implies node_le(r[0], r[j]) by {
            assert(r[j] == t[j - 1]);
            lemma_insert_sorted_len(x, rest);
            assert(t.contains(t[j - 1]));
            assert(t.to_multiset().count(t[j - 1]) > 0);
            if t[j - 1] == x {
            } else {
                assert(rest.to_multiset().count(t[j - 1]) > 0);
                assert(rest.contains(t[j - 1]));
                let k: int = choose|k: int| 0 <= k < rest.len() && rest[k] == t[j - 1];
                assert(s[0] == s[0] && rest[k] == s[k + 1]);
                assert(node_le(s[0], s[k + 1]));
            }
        }
        assert forall|i: int, j: int|
            #![trigger r[i], r[j]]
            0 <= i < j < r.len() implies node_le(r[i], r[j]) by {
            if i == 0 {
            } else {
                assert(r[i] == t[i - 1]);
                assert(r[j] == t[j - 1]);
            }
        }
    } else {
        lemma_node_le_total(x, s[0]);
        let r = seq![x] + s;
        assert forall|i: int, j: int|
            #![trigger r[i], r[j]]
            0 <= i < j < r.len() implies node_le(r[i], r[j]) by {
            if i == 0 {
                assert(r[j] == s[j - 1]);
                if j > 1 {
                    assert(node_le(s[0], s[j - 1]));
                    lemma_node_le_trans(x, s[0], s[j - 1]);
                }
            } else {
                assert(r[i] == s[i - 1]);
                assert(r[j] == s[j - 1]);
            }
        }
    }
}

pub proof fn lemma_sorted_nodes_len(s: Seq<NodeModel>)
    ensures
        sorted_nodes(s).len() == s.len(),
    decreases s,
{
    if s.len() > 0 {
        lemma_sorted_nodes_len(s.drop_last());
        lemma_insert_sorted_len(s.last(), sorted_nodes(s.drop_last()));
    }
}

/// Ordering a level keeps exactly the nodes that were there.
pub proof fn lemma_sorted_nodes_multiset(s: Seq<NodeModel>)
    ensures
        sorted_nodes(s).to_multiset() == s.to_multiset(),
    decreases s,
{
    broadcast use vstd::seq_lib::group_to_multiset_ensures;

    if s.len() > 0 {
        lemma_sorted_nodes_multiset(s.drop_last());
        lemma_insert_sorted_multiset(s.last(), sorted_nodes(s.drop_last()));
        assert(s =~= s.drop_last().push(s.last()));
        assert(s.to_multiset() =~= s.drop_last().to_multiset().insert(s.last()));
    }
}

/// The result of ordering a level is ordered.
pub proof fn lemma_sorted_nodes_ordered(s: Seq<NodeModel>)
    ensures
        level_ordered(sorted_nodes(s)),
    decreases s,
{
    if s.len() > 0 {
        lemma_sorted_nodes_ordered(s.drop_last());
        lemma_insert_sorted_ordered(s.last(), sorted_nodes(s.drop_last()));
    }
}

/// Where the scan stopped is where `insert_sorted` places the node.
pub proof fn lemma_insert_sorted_at(x: NodeModel, s: Seq<NodeModel>, j: int)
    requires
        0 <= j <= s.len(),
        forall|k: int| 0 <= k < j ==> node_le(#[trigger] s[k], x),
        j < s.len() ==> !node_le(s[j], x),
    ensures
        insert_sorted(x, s) == s.insert(j, x),
    decreases s,
{
    if s.len() == 0 {
        assert(insert_sorted(x, s) =~= s.insert(0, x));
    } else if j == 0 {
        assert(insert_sorted(x, s) =~= s.insert(0, x));
    } else {
        assert(node_le(s[0], x));
        let rest = s.drop_first();
        assert forall|k: int| 0 <= k < j - 1 implies node_le(#[trigger] rest[k], x) by {
            assert(rest[k] == s[k + 1]);
        }
        assert(j - 1 < rest.len() ==> !node_le(rest[j - 1], x)) by {
            if j - 1 < rest.len() {
                assert(rest[j - 1] == s[j]);
            }
        }
        lemma_insert_sorted_at(x, rest, j - 1);
        assert(seq![s[0]] + rest.insert(j - 1, x) =~= s.insert(j, x));
    }
}

pub proof fn lemma_node_views_insert(s: Seq<FileNode>, j: int, x: FileNode)
    requires
        0 <= j <= s.len(),
    ensures
        node_views(s.insert(j, x)) == node_views(s).insert(j, node_view(x)),
{
    let a = s.insert(j, x);
    lemma_node_views_len(s);
    lemma_node_views_len(a);
    assert forall|i: int| 0 <= i < a.len() implies node_views(a)[i] == node_views(s).insert(
        j,
        node_view(x),
    )[i] by {
        lemma_node_views_index(a, i);
        if i < j {
            lemma_node_views_index(s, i);
        } else if i > j {
            lemma_node_views_index(s, i - 1);
        }
    }
    assert(node_views(a) =~= node_views(s).insert(j, node_view(x)));
}

pub proof fn lemma_node_views_push(s: Seq<FileNode>, x: FileNode)
    ensures
        node_views(s.push(x)) == node_views(s).push(node_view(x)),
{
    let a = s.push(x);
    lemma_node_views_len(s);
    lemma_node_views_len(a);
    assert forall|i: int| 0 <= i < a.len() implies node_views(a)[i] == node_views(s).push(
        node_view(x),
    )[i] by {
        lemma_node_views_index(a, i);
        if i < s.len() {
            lemma_node_views_index(s, i);
        }
    }
    assert(node_views(a) =~= node_views(s).push(node_view(x)));
}

pub proof fn lemma_raw_views_push(s: Seq<RawEntry>, x: RawEntry)
    ensures
        raw_views(s.push(x)) == raw_views(s).push(raw_view(x)),
{
    let a = s.push(x);
    lemma_raw_views_len(s);
    lemma_raw_views_len(a);
    assert forall|i: int| 0 <= i < a.len() implies raw_views(a)[i] == raw_views(s).push(
        raw_view(x),
    )[i] by {
        lemma_raw_views_index(a, i);
        if i < s.len() {
            lemma_raw_views_index(s, i);
        }
    }
    assert(raw_views(a) =~= raw_views(s).push(raw_view(x)));
}

/// Shaping one more raw entry appends its node, or nothing when the
/// entry's name is skipped.
pub proof fn lemma_shaped_push(s: Seq<RawModel>, e: RawModel)
    ensures
        shaped_list(s.push(e)) == if skipped_name(e.name) {
            shaped_list(s)
        } else {
            shaped_list(s).push(built_node(e))
        },
    decreases s,
{
    let a = s.push(e);
    assert(a.len() == s.len() + 1);
    if s.len() == 0 {
        assert(a[0] == e);
        assert(a.drop_first() =~= Seq::<RawModel>::empty());
        assert(shaped_list(Seq::<RawModel>::empty()) == Seq::<NodeModel>::empty());
        if !skipped_name(e.name) {
            assert(shaped_list(a) == seq![built_node(e)] + Seq::<NodeModel>::empty());
            assert(seq![built_node(e)] + Seq::<NodeModel>::empty() =~= Seq::<
                NodeModel,
            >::empty().push(built_node(e)));
        }
    } else {
        assert(a[0] == s[0]);
        assert(a.drop_first() =~= s.drop_first().push(e));
        lemma_shaped_push(s.drop_first(), e);
        if skipped_name(e.name) {
        } else {
            if skipped_name(s[0].name) {
            } else {
                assert(seq![built_node(s[0])] + shaped_list(s.drop_first()).push(built_node(e))
                    =~= (seq![built_node(s[0])] + shaped_list(s.drop_first())).push(
                    built_node(e),
                ));
            }
        }
    }
}

/// Well-formedness of one produced node: a file never carries
/// children, and a folder's children form an ordered, well-formed
/// level.
pub open spec fn subtree_wf(m: NodeModel) -> bool
    decreases m, 0int,
{
    &&& (m.kind == EntryKind::File ==> m.children is None)
    &&& match m.children {
        Option::None => true,
        Option::Some(cs) => level_ordered(cs) && children_wf(cs),
    }
}

pub open spec fn children_wf(s: Seq<NodeModel>) -> bool
    decreases s, 1int,
{
    if s.len() == 0 {
        true
    } else {
        subtree_wf(s[0]) && children_wf(s.drop_first())
    }
}

/// Well-formedness of a whole produced tree: the top level is ordered
/// and every node in it is well-formed.
pub open spec fn forest_wf(s: Seq<NodeModel>) -> bool {
    level_ordered(s) && children_wf(s)
}

/// A node is clean when neither it nor any node below it bears a
/// hidden or ignored name.
pub open spec fn subtree_clean(m: NodeModel) -> bool
    decreases m, 0int,
{
    &&& !skipped_name(m.name)
    &&& match m.children {
        Option::None => true,
        Option::Some(cs) => children_clean(cs),
    }
}

pub open spec fn children_clean(s: Seq<NodeModel>) -> bool
    decreases s, 1int,
{
    if s.len() == 0 {
        true
    } else {
        subtree_clean(s[0]) && children_clean(s.drop_first())
    }
}

pub proof fn lemma_children_wf_index(s: Seq<NodeModel>)
    ensures
        children_wf(s) <==> (forall|i: int| 0 <= i < s.len() ==> subtree_wf(#[trigger] s[i])),
    decreases s,
{
    if s.len() > 0 {
        lemma_children_wf_index(s.drop_first());
        if children_wf(s) {
            assert forall|i: int| 0 <= i < s.len() implies subtree_wf(#[trigger] s[i]) by {
                if i > 0 {
                    assert(s[i] == s.drop_first()[i - 1]);
                }
            }
        }
        if forall|i: int| 0 <= i < s.len() ==> subtree_wf(#[trigger] s[i]) {
            assert forall|i: int|
                0 <= i < s.drop_first().len() implies subtree_wf(
                #[trigger] s.drop_first()[i],
            ) by {
                assert(s.drop_first()[i] == s[i + 1]);
            }
        }
    }
}

pub proof fn lemma_children_clean_index(s: Seq<NodeModel>)
    ensures
        children_clean(s) <==> (forall|i: int|
            0 <= i < s.len() ==> subtree_clean(#[trigger] s[i])),
    decreases s,
{
    if s.len() > 0 {
        lemma_children_clean_index(s.drop_first());
        if children_clean(s) {
            assert forall|i: int| 0 <= i < s.len() implies subtree_clean(#[trigger] s[i]) by {
                if i > 0 {
                    assert(s[i] == s.drop_first()[i - 1]);
                }
            }
        }
        if forall|i: int| 0 <= i < s.len() ==> subtree_clean(#[trigger] s[i]) {
            assert forall|i: int|
                0 <= i < s.drop_first().len() implies subtree_clean(
                #[trigger] s.drop_first()[i],
            ) by {
                assert(s.drop_first()[i] == s[i + 1]);
            }
        }
    }
}

/// Ordering a level keeps every property its nodes had one by one.
pub proof fn lemma_sorted_nodes_element(s: Seq<NodeModel>, i: int)
    requires
        0 <= i < sorted_nodes(s).len(),
    ensures
        s.contains(sorted_nodes(s)[i]),
{
    broadcast use vstd::seq_lib::group_to_multiset_ensures;

    lemma_sorted_nodes_multiset(s);
    assert(sorted_nodes(s).contains(sorted_nodes(s)[i]));
    assert(sorted_nodes(s).to_multiset().count(sorted_nodes(s)[i]) > 0);
}

/// The node of every raw entry that is not skipped: same name, path
/// and kind. A folder whose raw listing could not be read keeps its
/// place with no children.
pub proof fn lemma_entry_kept(s: Seq<RawModel>, i: int)
    requires
        0 <= i < s.len(),
        !skipped_name(s[i].name),
    ensures
        built_list(s).contains(built_node(s[i])),
        built_node(s[i]).name == s[i].name,
        built_node(s[i]).path == s[i].path,
        built_node(s[i]).kind == s[i].kind,
        s[i].kind == EntryKind::Folder && s[i].children is None ==> built_node(s[i]).children
            is None,
{
    broadcast use vstd::seq_lib::group_to_multiset_ensures;

    lemma_shaped_contains(s, i);
    lemma_sorted_nodes_multiset(shaped_list(s));
    assert(shaped_list(s).to_multiset().count(built_node(s[i])) > 0);
}

pub proof fn lemma_shaped_contains(s: Seq<RawModel>, i: int)
    requires
        0 <= i < s.len(),
        !skipped_name(s[i].name),
    ensures
        shaped_list(s).contains(built_node(s[i])),
    decreases s,
{
    if i == 0 {
        assert(shaped_list(s)[0] == built_node(s[0]));
    } else {
        lemma_shaped_contains(s.drop_first(), i - 1);
        assert(s.drop_first()[i - 1] == s[i]);
        let rest = shaped_list(s.drop_first());
        let k: int = choose|k: int| 0 <= k < rest.len() && rest[k] == built_node(s[i]);
        if skipped_name(s[0].name) {
        } else {
            assert((seq![built_node(s[0])] + rest)[k + 1] == rest[k]);
        }
    }
}

/// Every tree this crate builds is well-formed: at every level the
/// folders stand before the files, within one kind the names ascend
/// case-insensitively, and no file carries children.
pub proof fn lemma_built_list_wf(s: Seq<RawModel>)
    ensures
        forest_wf(built_list(s)),
    decreases s, 2int,
{
    lemma_sorted_nodes_ordered(shaped_list(s));
    lemma_shaped_children_wf(s);
    let t = shaped_list(s);
    let r = sorted_nodes(t);
    lemma_children_wf_index(t);
    lemma_sorted_nodes_len(t);
    assert forall|i: int| 0 <= i < r.len() implies subtree_wf(#[trigger] r[i]) by {
        lemma_sorted_nodes_element(t, i);
        let k: int = choose|k: int| 0 <= k < t.len() && t[k] == r[i];
        assert(subtree_wf(t[k]));
    }
    lemma_children_wf_index(r);
}

pub proof fn lemma_shaped_children_wf(s: Seq<RawModel>)
    ensures
        children_wf(shaped_list(s)),
    decreases s, 1int,
{
    if s.len() == 0 {
    } else {
        lemma_shaped_children_wf(s.drop_first());
        let rest = shaped_list(s.drop_first());
        if skipped_name(s[0].name) {
        } else {
            lemma_built_node_wf(s[0]);
            let r = seq![built_node(s[0])] + rest;
            assert(r[0] == built_node(s[0]));
            assert(r.drop_first() =~= rest);
        }
    }
}

pub proof fn lemma_built_node_wf(e: RawModel)
    ensures
        subtree_wf(built_node(e)),
    decreases e, 0int,
{
    if e.kind == EntryKind::Folder {
        match e.children {
            Option::None => {},
            Option::Some(cs) => {
                lemma_built_list_wf(cs);
            },
        }
    }
}

/// Every tree this crate builds is clean: no hidden name and no name
/// of the ignore set appears in it, at any depth.
pub proof fn lemma_built_list_clean(s: Seq<RawModel>)
    ensures
        children_clean(built_list(s)),
    decreases s, 2int,
{
    lemma_shaped_children_clean(s);
    let t = shaped_list(s);
    let r = sorted_nodes(t);
    lemma_children_clean_index(t);
    lemma_sorted_nodes_len(t);
    assert forall|i: int| 0 <= i < r.len() implies subtree_clean(#[trigger] r[i]) by {
        lemma_sorted_nodes_element(t, i);
        let k: int = choose|k: int| 0 <= k < t.len() && t[k] == r[i];
        assert(subtree_clean(t[k]));
    }
    lemma_children_clean_index(r);
}

pub proof fn lemma_shaped_children_clean(s: Seq<RawModel>)
    ensures
        children_clean(shaped_list(s)),
    decreases s, 1int,
{
    if s.len() == 0 {
    } else {
        lemma_shaped_children_clean(s.drop_first());
        let rest = shaped_list(s.drop_first());
        if skipped_name(s[0].name) {
        } else {
            lemma_built_node_clean(s[0]);
            let r = seq![built_node(s[0])] + rest;
            assert(r[0] == built_node(s[0]));
            assert(r.drop_first() =~= rest);
        }
    }
}

pub proof fn lemma_built_node_clean(e: RawModel)
    requires
        !skipped_name(e.name),
    ensures
        subtree_clean(built_node(e)),
    decreases e, 0int,
{
    if e.kind == EntryKind::Folder {
        match e.children {
            Option::None => {},
            Option::Some(cs) => {
                lemma_built_list_clean(cs);
            },
        }
    }
}

/// Whether a directory entry with this name is left out of the tree.
pub fn is_skipped_name(name: &String) -> (r: bool)
    ensures
        r == skipped_name(name@),
{
    let len: usize = name.as_str().unicode_len();
    if len > 0 && name.as_str().get_char(0) == '.' {
        return true;
    }
    if string_eq_literal(name, "node_modules") {
        return true;
    }
    if string_eq_literal(name, "target") {
        return true;
    }
    if string_eq_literal(name, "dist") {
        return true;
    }
    false
}

fn string_eq_literal(name: &String, lit: &str) -> (r: bool)
    ensures
        r == (name@ == lit@),
{
    let l: String = lit.to_owned();
    *name == l
}

/// The sibling order, computed: folders before files, case-insensitive
/// names within one kind.
pub fn node_le_exec(a: &FileNode, b: &FileNode) -> (r: bool)
    ensures
        r == node_le(node_view(*a), node_view(*b)),
{
    if a.kind == b.kind {
        name_le_exec(a.name.as_str(), b.name.as_str())
    } else {
        a.kind == EntryKind::Folder
    }
}

/// Stable insertion of one node into an already ordered level.
fn insert_node(out: &mut Vec<FileNode>, x: FileNode)
    ensures
        node_views(final(out)@) == insert_sorted(node_view(x), node_views(old(out)@)),
{
    let mut j: usize = 0;
    loop
        invariant
            j <= out.len(),
            out@ == old(out)@,
            forall|k: int|
                0 <= k < j ==> node_le(#[trigger] node_views(out@)[k], node_view(x)),
        ensures
            j <= out.len(),
            out@ == old(out)@,
            forall|k: int|
                0 <= k < j ==> node_le(#[trigger] node_views(out@)[k], node_view(x)),
            j < out.len() ==> !node_le(node_views(out@)[j as int], node_view(x)),
        decreases out.len() - j,
    {
        if j == out.len() {
            break ;
        }
        proof {
            lemma_node_views_index(out@, j as int);
        }
        let le = node_le_exec(&out[j], &x);
        if !le {
            break ;
        }
        j = j + 1;
    }
    proof {
        lemma_node_views_len(out@);
        lemma_insert_sorted_at(node_view(x), node_views(out@), j as int);
    }
    let ghost before = out@;
    out.insert(j, x);
    proof {
        lemma_node_views_insert(before, j as int, x);
    }
}

/// Order one level of nodes: folders first, then files, each group by
/// case-insensitive name, ties keeping their listing order.
fn sort_nodes(v: Vec<FileNode>) -> (r: Vec<FileNode>)
    ensures
        node_views(r@) == sorted_nodes(node_views(v@)),
{
    let ghost orig = v@;
    let mut v = v;
    let mut out: Vec<FileNode> = Vec::new();
    proof {
        assert(orig.take(0) =~= Seq::<FileNode>::empty());
        lemma_node_views_len(orig);
    }
    while v.len() > 0
        invariant
            v@.len() <= orig.len(),
            v@ == orig.skip(orig.len() - v@.len()),
            node_views(out@) == sorted_nodes(node_views(orig.take(orig.len() - v@.len()))),
        decreases v.len(),
    {
        let ghost k: int = orig.len() - v@.len();
        let x = v.remove(0);
        proof {
            assert(x == orig[k]);
            assert(v@ =~= orig.skip(k + 1));
        }
        insert_node(&mut out, x);
        proof {
            let t = orig.take(k);
            lemma_node_views_push(t, x);
            assert(orig.take(k + 1) =~= t.push(x));
            assert(node_views(t.push(x)).drop_last() =~= node_views(t));
            assert(node_views(t.push(x)).last() == node_view(x));
        }
    }
    proof {
        assert(orig.take(orig.len() as int) =~= orig);
    }
    out
}

/// Build the tree of one directory level from its raw listing: hidden
/// and ignored names are dropped, each kept folder entry carries the
/// tree of its own raw listing (or no children where that listing could
/// not be read), and the level is ordered folders-first.
pub fn build_tree(entries: &Vec<RawEntry>) -> (r: Vec<FileNode>)
    ensures
        node_views(r@) == built_list(raw_views(entries@)),
    decreases entries,
{
    let mut shaped: Vec<FileNode> = Vec::new();
    let mut i: usize = 0;
    proof {
        assert(entries@.take(0) =~= Seq::<RawEntry>::empty());
    }
    while i < entries.len()
        invariant
            i <= entries.len(),
            node_views(shaped@) == shaped_list(raw_views(entries@.take(i as int))),
        decreases entries.len() - i,
    {
        let e = &entries[i];
        if !is_skipped_name(&e.name) {
            let children: Option<Vec<FileNode>> = match (&e.children, e.kind) {
                (Option::Some(cs), EntryKind::Folder) => Option::Some(build_tree(cs)),
                _ => Option::None,
            };
            let node = FileNode {
                name: e.name.clone(),
                path: e.path.clone(),
                kind: e.kind,
                children,
            };
            let ghost before = shaped@;
            proof {
                assert(node_view(node) == built_node(raw_view(*e)));
            }
            shaped.push(node);
            proof {
                lemma_node_views_push(before, node);
            }
        }
        proof {
            lemma_raw_views_push(entries@.take(i as int), entries@[i as int]);
            assert(entries@.take(i + 1) =~= entries@.take(i as int).push(entries@[i as int]));
            lemma_shaped_push(raw_views(entries@.take(i as int)), raw_view(entries@[i as int]));
        }
        i = i + 1;
    }
    proof {
        assert(entries@.take(entries@.len() as int) =~= entries@);
    }
    sort_nodes(shaped)
}

} // verus!
