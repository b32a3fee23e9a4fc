//! A directory tree as the walk sees it, and what a complete walk over it yields.
use vstd::prelude::*;
use crate::collection::PathView;

verus! {

/// An entry of a directory listing: its base name and what it is.
pub struct Child {
    pub name: Seq<char>,
    pub node: Node,
}

/// A file system object. A directory's listing is `None` where it cannot be read.
pub enum Node {
    File,
    Dir { listing: Option<Seq<Child>> },
}

/// What a walk yields: the number of entries examined and the target
/// directories found, in the order of discovery.
pub struct Outcome {
    pub visited: nat,
    pub found: Seq<PathView>,
}

pub open spec fn nothing() -> Outcome {
    Outcome { visited: 0, found: Seq::empty() }
}

/// The outcome of one part of a walk followed by that of another.
pub open spec fn followed_by(a: Outcome, b: Outcome) -> Outcome {
    Outcome { visited: a.visited + b.visited, found: a.found + b.found }
}

/// The name of the directories that the walk looks for: `.venv`.
pub open spec fn target_name() -> Seq<char> {
    seq!['.', 'v', 'e', 'n', 'v']
}

/// The walk over the entries `l` of the directory at `base`, in order.
///
/// Each entry counts as examined. An entry whose name is reserved is skipped;
/// a directory named `.venv` is recorded and not entered; any other directory
/// is entered when it can be read; anything else is passed over.
pub open spec fn scan_list(base: PathView, l: Seq<Child>, reserved: Seq<Seq<char>>) -> Outcome
    decreases l,
{
    if l.len() == 0 {
        nothing()
    } else {
        let c = l[0];
        let p = base.push(c.name);
        let head = if reserved.contains(c.name) {
            Outcome { visited: 1, found: Seq::empty() }
        } else {
            match c.node {
                Node::Dir { listing } => {
                    if c.name == target_name() {
                        Outcome { visited: 1, found: seq![p] }
                    } else {
                        match listing {
                            Some(sub) => {
                                let o = scan_list(p, sub, reserved);
                                Outcome { visited: 1 + o.visited, found: o.found }
                            },
                            None => Outcome { visited: 1, found: Seq::empty() },
                        }
                    }
                },
                Node::File => Outcome { visited: 1, found: Seq::empty() },
            }
        };
        followed_by(head, scan_list(base, l.subrange(1, l.len() as int), reserved))
    }
}

/// The walk of a whole tree from its root; the root itself is not counted.
pub open spec fn scan_of(root: Node, reserved: Seq<Seq<char>>) -> Outcome {
    match root {
        Node::Dir { listing: Some(l) } => scan_list(Seq::empty(), l, reserved),
        _ => nothing(),
    }
}

/// The node named `name` in the listing `l` (the first one, should two share it).
pub open spec fn child_named(l: Seq<Child>, name: Seq<char>) -> Option<Node>
    decreases l,
{
    if l.len() == 0 {
        None
    } else if l[0].name == name {
        Some(l[0].node)
    } else {
        child_named(l.subrange(1, l.len() as int), name)
    }
}

/// The node at `path` below `root`, if the path leads through readable directories.
pub open spec fn node_at(root: Node, path: PathView) -> Option<Node>
    decreases path.len(),
{
    if path.len() == 0 {
        Some(root)
    } else {
        match node_at(root, path.drop_last()) {
            Some(Node::Dir { listing: Some(l) }) => child_named(l, path.last()),
            _ => None,
        }
    }
}

/// Within each listing, no two entries share a name; as on any file system.
pub open spec fn distinct_names(l: Seq<Child>) -> bool
    decreases l,
{
    if l.len() == 0 {
        true
    } else {
        &&& forall|j: int| 1 <= j < l.len() ==> #[trigger] l[j].name != l[0].name
        &&& match l[0].node {
            Node::Dir { listing: Some(sub) } => distinct_names(sub),
            _ => true,
        }
        &&& distinct_names(l.subrange(1, l.len() as int))
    }
}

/// A tree whose listings all hold distinct names.
pub open spec fn wf_node(n: Node) -> bool {
    match n {
        Node::Dir { listing: Some(l) } => distinct_names(l),
        _ => true,
    }
}

pub proof fn lemma_child_named(l: Seq<Child>, i: int)
    requires
        distinct_names(l),
        0 <= i < l.len(),
    ensures
        child_named(l, l[i].name) == Some(l[i].node),
        wf_node(l[i].node),
    decreases l,
{
    if i > 0 {
        let r = l.subrange(1, l.len() as int);
        assert(r[i - 1] == l[i]);
        assert(l[i].name != l[0].name);
        lemma_child_named(r, i - 1);
    }
}

pub proof fn lemma_child_named_wf(l: Seq<Child>, name: Seq<char>)
    requires
        distinct_names(l),
    ensures
        child_named(l, name) matches Some(n) ==> wf_node(n),
    decreases l,
{
    if l.len() > 0 && l[0].name != name {
        lemma_child_named_wf(l.subrange(1, l.len() as int), name);
    }
}

pub proof fn lemma_node_at_wf(root: Node, path: PathView)
    requires
        wf_node(root),
    ensures
        node_at(root, path) matches Some(n) ==> wf_node(n),
    decreases path.len(),
{
    if path.len() > 0 {
        lemma_node_at_wf(root, path.drop_last());
        if let Some(Node::Dir { listing: Some(l) }) = node_at(root, path.drop_last()) {
            lemma_child_named_wf(l, path.last());
        }
    }
}

/// Looking one step further down a path.
pub proof fn lemma_node_at_push(root: Node, path: PathView, name: Seq<char>)
    ensures
        node_at(root, path.push(name)) == match node_at(root, path) {
            Some(Node::Dir { listing: Some(l) }) => child_named(l, name),
            _ => None,
        },
{
    assert(path.push(name).drop_last() =~= path);
}

/// The number of directories named `.venv` in the listing `l` and below it,
/// counting through every readable directory.
pub open spec fn venv_count(l: Seq<Child>) -> nat
    decreases l,
{
    if l.len() == 0 {
        0
    } else {
        let c = l[0];
        let here: nat = if c.node is Dir && c.name == target_name() {
            1
        } else {
            0
        };
        let below: nat = match c.node {
            Node::Dir { listing: Some(sub) } => venv_count(sub),
            _ => 0,
        };
        here + below + venv_count(l.subrange(1, l.len() as int))
    }
}

/// No directory named `.venv` in `l` or below it holds another one.
pub open spec fn no_nested_venv(l: Seq<Child>) -> bool
    decreases l,
{
    if l.len() == 0 {
        true
    } else {
        let c = l[0];
        &&& match c.node {
            Node::Dir { listing: Some(sub) } => {
                &&& (c.name == target_name() ==> venv_count(sub) == 0)
                &&& no_nested_venv(sub)
            },
            _ => true,
        }
        &&& no_nested_venv(l.subrange(1, l.len() as int))
    }
}

/// The number of `.venv` directories in a tree.
pub open spec fn tree_venv_count(root: Node) -> nat {
    match root {
        Node::Dir { listing: Some(l) } => venv_count(l),
        _ => 0,
    }
}

/// A tree in which no `.venv` directory holds another one.
pub open spec fn tree_no_nested_venv(root: Node) -> bool {
    match root {
        Node::Dir { listing: Some(l) } => no_nested_venv(l),
        _ => true,
    }
}

proof fn lemma_count(base: PathView, l: Seq<Child>)
    requires
        no_nested_venv(l),
    ensures
        scan_list(base, l, Seq::empty()).found.len() == venv_count(l),
    decreases l,
{
    if l.len() > 0 {
        let c = l[0];
        let p = base.push(c.name);
        if let Node::Dir { listing: Some(sub) } = c.node {
            if c.name != target_name() {
                lemma_count(p, sub);
            }
        }
        lemma_count(base, l.subrange(1, l.len() as int));
    }
}

/// With no reserved names, a walk reports one match for each `.venv` directory
/// of the tree, provided none of them holds another one.
pub proof fn law_one_match_per_venv(root: Node)
    requires
        tree_no_nested_venv(root),
    ensures
        scan_of(root, Seq::empty()).found.len() == tree_venv_count(root),
{
    if let Node::Dir { listing: Some(l) } = root {
        lemma_count(Seq::empty(), l);
    }
}

/// A path that a walk below `base` may report: it extends `base`, ends in
/// `.venv`, has no other `.venv` component below `base`, and no reserved component.
pub open spec fn found_shape(base: PathView, f: PathView, reserved: Seq<Seq<char>>) -> bool {
    &&& f.len() > base.len()
    &&& f.subrange(0, base.len() as int) == base
    &&& f.last() == target_name()
    &&& forall|k: int| base.len() <= k < f.len() - 1 ==> #[trigger] f[k] != target_name()
    &&& forall|k: int| base.len() <= k < f.len() ==> !reserved.contains(#[trigger] f[k])
}

proof fn lemma_found_shape(base: PathView, l: Seq<Child>, reserved: Seq<Seq<char>>)
    ensures
        forall|i: int|
            0 <= i < scan_list(base, l, reserved).found.len() ==> found_shape(
                base,
                #[trigger] scan_list(base, l, reserved).found[i],
                reserved,
            ),
    decreases l,
{
    if l.len() > 0 {
        let c = l[0];
        let p = base.push(c.name);
        let rest = l.subrange(1, l.len() as int);
        lemma_found_shape(base, rest, reserved);
        let fr = scan_list(base, rest, reserved).found;
        let all = scan_list(base, l, reserved).found;
        if reserved.contains(c.name) {
            assert(all =~= fr);
        } else if c.node is Dir && c.name == target_name() {
            assert(all =~= seq![p] + fr);
            assert(p.subrange(0, base.len() as int) =~= base);
            assert(all[0] == p);
            assert forall|i: int| 0 <= i < all.len() implies found_shape(
                base,
                #[trigger] all[i],
                reserved,
            ) by {
                if i > 0 {
                    assert(all[i] == fr[i - 1]);
                }
            }
        } else if let Node::Dir { listing: Some(sub) } = c.node {
            lemma_found_shape(p, sub, reserved);
            let fs = scan_list(p, sub, reserved).found;
            assert(all =~= fs + fr);
            assert forall|i: int| 0 <= i < all.len() implies found_shape(
                base,
                #[trigger] all[i],
                reserved,
            ) by {
                if i < fs.len() {
                    let f = fs[i];
                    assert(all[i] == f);
                    assert(found_shape(p, f, reserved));
                    assert(f.subrange(0, base.len() as int) =~= p.subrange(0, base.len() as int));
                    assert(p.subrange(0, base.len() as int) =~= base);
                    assert(f[base.len() as int] == f.subrange(0, p.len() as int)[base.len() as int]);
                } else {
                    assert(all[i] == fr[i - fs.len()]);
                }
            }
        } else {
            assert(all =~= fr);
        }
    }
}

/// Every path that a walk reports names a `.venv` directory, no component of it
/// is a reserved name, and no other component of it is `.venv`: the walk never
/// enters a reserved entry nor a directory that it reports.
pub proof fn law_found_paths(root: Node, reserved: Seq<Seq<char>>)
    ensures
        forall|i: int|
            0 <= i < scan_of(root, reserved).found.len() ==> {
                let f = #[trigger] scan_of(root, reserved).found[i];
                &&& f.len() > 0
                &&& f.last() == target_name()
                &&& forall|k: int| 0 <= k < f.len() - 1 ==> #[trigger] f[k] != target_name()
                &&& forall|k: int| 0 <= k < f.len() ==> !reserved.contains(#[trigger] f[k])
            },
{
    if let Node::Dir { listing: Some(l) } = root {
        lemma_found_shape(Seq::empty(), l, reserved);
    }
}

/// No match that a walk reports lies inside another one.
pub proof fn law_no_match_inside_another(root: Node, reserved: Seq<Seq<char>>)
    ensures
        forall|i: int, j: int|
            0 <= i < scan_of(root, reserved).found.len() && 0 <= j < scan_of(
                root,
                reserved,
            ).found.len() ==> !({
                let a = #[trigger] scan_of(root, reserved).found[i];
                let b = #[trigger] scan_of(root, reserved).found[j];
                a.len() < b.len() && b.subrange(0, a.len() as int) == a
            }),
{
    law_found_paths(root, reserved);
    let fo = scan_of(root, reserved).found;
    assert forall|i: int, j: int| 0 <= i < fo.len() && 0 <= j < fo.len() implies !({
        let a = #[trigger] fo[i];
        let b = #[trigger] fo[j];
        a.len() < b.len() && b.subrange(0, a.len() as int) == a
    }) by {
        let a = fo[i];
        let b = fo[j];
        if a.len() < b.len() && b.subrange(0, a.len() as int) == a {
            assert(b[a.len() - 1] == b.subrange(0, a.len() as int)[a.len() - 1]);
            assert(b[a.len() - 1] == target_name());
        }
    }
}

proof fn lemma_found_le_visited(base: PathView, l: Seq<Child>, reserved: Seq<Seq<char>>)
    ensures
        scan_list(base, l, reserved).found.len() <= scan_list(base, l, reserved).visited,
    decreases l,
{
    if l.len() > 0 {
        let c = l[0];
        if let Node::Dir { listing: Some(sub) } = c.node {
            lemma_found_le_visited(base.push(c.name), sub, reserved);
        }
        lemma_found_le_visited(base, l.subrange(1, l.len() as int), reserved);
    }
}

/// A walk examines at least as many entries as it reports matches.
pub proof fn law_visited_at_least_found(root: Node, reserved: Seq<Seq<char>>)
    ensures
        scan_of(root, reserved).found.len() <= scan_of(root, reserved).visited,
{
    if let Node::Dir { listing: Some(l) } = root {
        lemma_found_le_visited(Seq::empty(), l, reserved);
    }
}

/// The number of entries in the listing `l` and in every readable directory below it.
pub open spec fn entry_count(l: Seq<Child>) -> nat
    decreases l,
{
    if l.len() == 0 {
        0
    } else {
        let below: nat = match l[0].node {
            Node::Dir { listing: Some(sub) } => entry_count(sub),
            _ => 0,
        };
        1 + below + entry_count(l.subrange(1, l.len() as int))
    }
}

proof fn lemma_entry_count(base: PathView, l: Seq<Child>)
    requires
        venv_count(l) == 0,
    ensures
        scan_list(base, l, Seq::empty()).visited == entry_count(l),
    decreases l,
{
    if l.len() > 0 {
        let c = l[0];
        if let Node::Dir { listing: Some(sub) } = c.node {
            lemma_entry_count(base.push(c.name), sub);
        }
        lemma_entry_count(base, l.subrange(1, l.len() as int));
    }
}

/// With no reserved names and no `.venv` directory in the tree, a walk examines
/// every entry of every readable directory, each once.
pub proof fn law_visits_every_entry(root: Node)
    requires
        tree_venv_count(root) == 0,
    ensures
        scan_of(root, Seq::empty()).visited == match root {
            Node::Dir { listing: Some(l) } => entry_count(l),
            _ => 0,
        },
{
    if let Node::Dir { listing: Some(l) } = root {
        lemma_entry_count(Seq::empty(), l);
    }
}

} // verus!
