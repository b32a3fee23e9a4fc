//! The walk as a state machine. It asks for one directory at a time; the
//! caller reads that directory and hands its listing back through
//! [`Scanner::advance`], until the machine asks for nothing more.
use vstd::prelude::*;
use crate::collection::{PathView, path_view, VenvCollection};
use crate::model::{
    Child, Node, Outcome, nothing, followed_by, target_name, scan_list, scan_of, node_at, wf_node,
    lemma_child_named, lemma_node_at_wf, lemma_node_at_push,
};

verus! {

/// An entry still to be examined.
pub struct Pending {
    pub path: PathView,
    pub is_dir: bool,
}

/// The abstract state of a walk.
pub struct ScanState {
    pub visited: nat,
    pub found: Seq<PathView>,
    /// Entries still to be examined; the last one comes next.
    pub stack: Seq<Pending>,
    /// The directory whose listing the walk waits for.
    pub awaiting: Option<PathView>,
}

/// A listing as the caller reports it: each entry's name and whether it is a directory.
pub type ListingView = Seq<(Seq<char>, bool)>;

/// Whether a reported listing is that of the node `n`: the entries of a readable
/// directory in order, or nothing for anything else.
pub open spec fn listing_agrees(ls: Option<ListingView>, n: Option<Node>) -> bool {
    match n {
        Some(Node::Dir { listing: Some(l) }) => {
            &&& ls is Some
            &&& ls->0.len() == l.len()
            &&& forall|i: int|
                0 <= i < l.len() ==> (#[trigger] ls->0[i]).0 == l[i].name && (ls->0[i].1
                    <==> l[i].node is Dir)
        },
        _ => ls is None,
    }
}

/// The entries of a listing of `p`, stacked so that the first one comes next.
pub open spec fn listing_items(p: PathView, ls: ListingView) -> Seq<Pending>
    decreases ls.len(),
{
    if ls.len() == 0 {
        Seq::empty()
    } else {
        listing_items(p, ls.subrange(1, ls.len() as int)).push(
            Pending { path: p.push(ls[0].0), is_dir: ls[0].1 },
        )
    }
}

/// Taking in the listing of the awaited directory (`None`: it could not be read).
pub open spec fn feed(s: ScanState, ls: Option<ListingView>) -> ScanState {
    match s.awaiting {
        Some(p) => ScanState {
            stack: match ls {
                Some(l) => s.stack + listing_items(p, l),
                None => s.stack,
            },
            awaiting: None,
            ..s
        },
        None => s,
    }
}

pub open spec fn count_one(n: nat) -> nat {
    if n + 1 > usize::MAX {
        usize::MAX as nat
    } else {
        n + 1
    }
}

/// Examining entries until one is a directory to enter or none is left.
pub open spec fn settle(s: ScanState, reserved: Seq<Seq<char>>) -> ScanState
    decreases s.stack.len(),
{
    if s.awaiting is Some || s.stack.len() == 0 {
        s
    } else {
        let it = s.stack.last();
        let name = it.path.last();
        let s1 = ScanState { visited: count_one(s.visited), stack: s.stack.drop_last(), ..s };
        if reserved.contains(name) {
            settle(s1, reserved)
        } else if it.is_dir && name == target_name() {
            settle(ScanState { found: s1.found.push(it.path), ..s1 }, reserved)
        } else if it.is_dir {
            ScanState { awaiting: Some(it.path), ..s1 }
        } else {
            settle(s1, reserved)
        }
    }
}

/// What examining a pending entry of the tree `t` yields.
pub open spec fn item_outcome(t: Node, it: Pending, reserved: Seq<Seq<char>>) -> Outcome {
    match node_at(t, it.path) {
        Some(n) => scan_list(
            it.path.drop_last(),
            seq![Child { name: it.path.last(), node: n }],
            reserved,
        ),
        None => nothing(),
    }
}

pub open spec fn pending_outcome(t: Node, stack: Seq<Pending>, reserved: Seq<Seq<char>>) -> Outcome
    decreases stack.len(),
{
    if stack.len() == 0 {
        nothing()
    } else {
        followed_by(
            item_outcome(t, stack.last(), reserved),
            pending_outcome(t, stack.drop_last(), reserved),
        )
    }
}

pub open spec fn awaiting_outcome(t: Node, aw: Option<PathView>, reserved: Seq<Seq<char>>) -> Outcome {
    match aw {
        Some(p) => match node_at(t, p) {
            Some(Node::Dir { listing: Some(l) }) => scan_list(p, l, reserved),
            _ => nothing(),
        },
        None => nothing(),
    }
}

/// What is left of the walk in the state `s` over the tree `t`.
pub open spec fn remaining(s: ScanState, t: Node, reserved: Seq<Seq<char>>) -> Outcome {
    followed_by(awaiting_outcome(t, s.awaiting, reserved), pending_outcome(t, s.stack, reserved))
}

pub open spec fn stack_agrees(t: Node, stack: Seq<Pending>) -> bool {
    forall|k: int|
        0 <= k < stack.len() ==> {
            &&& (#[trigger] stack[k]).path.len() > 0
            &&& node_at(t, stack[k].path) is Some
            &&& (stack[k].is_dir <==> node_at(t, stack[k].path)->0 is Dir)
        }
}

/// The state `s` is part way through the walk of `t`: what has been gathered,
/// followed by what is left, is the outcome of the whole walk.
pub open spec fn tracks(s: ScanState, t: Node, reserved: Seq<Seq<char>>) -> bool {
    &&& wf_node(t)
    &&& scan_of(t, reserved).visited <= usize::MAX
    &&& stack_agrees(t, s.stack)
    &&& s.visited + remaining(s, t, reserved).visited == scan_of(t, reserved).visited
    &&& s.found + remaining(s, t, reserved).found == scan_of(t, reserved).found
}

/// The state in which a walk begins: waiting for the root's listing.
pub open spec fn initial() -> ScanState {
    ScanState { visited: 0, found: Seq::empty(), stack: Seq::empty(), awaiting: Some(Seq::empty()) }
}

pub open spec fn is_done(s: ScanState) -> bool {
    s.awaiting is None && s.stack.len() == 0
}

pub proof fn lemma_initial_tracks(t: Node, reserved: Seq<Seq<char>>)
    requires
        wf_node(t),
        scan_of(t, reserved).visited <= usize::MAX,
    ensures
        tracks(initial(), t, reserved),
{
    let s = initial();
    assert(s.found + remaining(s, t, reserved).found =~= scan_of(t, reserved).found);
}

/// A state that tracks a tree and is done holds the outcome of the whole walk.
pub proof fn lemma_done(s: ScanState, t: Node, reserved: Seq<Seq<char>>)
    requires
        tracks(s, t, reserved),
        is_done(s),
    ensures
        s.visited == scan_of(t, reserved).visited,
        s.found == scan_of(t, reserved).found,
{
    assert(s.found + remaining(s, t, reserved).found =~= s.found);
}

/// The walk over a listing is that over its first entry, then over the rest.
proof fn lemma_scan_split(p: PathView, l: Seq<Child>, reserved: Seq<Seq<char>>)
    requires
        l.len() > 0,
    ensures
        scan_list(p, l, reserved).visited == scan_list(p, seq![l[0]], reserved).visited
            + scan_list(p, l.subrange(1, l.len() as int), reserved).visited,
        scan_list(p, l, reserved).found =~= scan_list(p, seq![l[0]], reserved).found + scan_list(
            p,
            l.subrange(1, l.len() as int),
            reserved,
        ).found,
{
    let one = seq![l[0]];
    assert(one[0] == l[0]);
    assert(one.subrange(1, 1) =~= Seq::<Child>::empty());
    assert(scan_list(p, one.subrange(1, 1), reserved) == nothing());
    assert(scan_list(p, one, reserved).found =~= scan_list(p, l, reserved).found.subrange(0, 0)
        + scan_list(p, one, reserved).found);
}

proof fn lemma_feed_items(
    t: Node,
    p: PathView,
    full: Seq<Child>,
    ls: ListingView,
    k: int,
    st: Seq<Pending>,
    reserved: Seq<Seq<char>>,
)
    requires
        wf_node(t),
        node_at(t, p) == Some(Node::Dir { listing: Some(full) }),
        listing_agrees(Some(ls), node_at(t, p)),
        0 <= k <= full.len(),
    ensures
        ({
            let st2 = st + listing_items(p, ls.subrange(k, ls.len() as int));
            let sub = scan_list(p, full.subrange(k, full.len() as int), reserved);
            &&& pending_outcome(t, st2, reserved).visited == sub.visited + pending_outcome(
                t,
                st,
                reserved,
            ).visited
            &&& pending_outcome(t, st2, reserved).found =~= sub.found + pending_outcome(
                t,
                st,
                reserved,
            ).found
            &&& stack_agrees(t, st) ==> stack_agrees(t, st2)
        }),
    decreases full.len() - k,
{
    let n = full.len() as int;
    if k == n {
        assert(ls.subrange(k, n).len() == 0);
        assert(st + listing_items(p, ls.subrange(k, n)) =~= st);
        assert(full.subrange(k, n).len() == 0);
        assert(pending_outcome(t, st, reserved).found =~= Seq::empty() + pending_outcome(
            t,
            st,
            reserved,
        ).found);
    } else {
        lemma_feed_items(t, p, full, ls, k + 1, st, reserved);
        let lk = ls.subrange(k, n);
        assert(lk.subrange(1, lk.len() as int) =~= ls.subrange(k + 1, n));
        assert(lk[0] == ls[k]);
        let x = Pending { path: p.push(ls[k].0), is_dir: ls[k].1 };
        let s_rest = st + listing_items(p, ls.subrange(k + 1, n));
        assert(listing_items(p, lk) == listing_items(p, ls.subrange(k + 1, n)).push(x));
        let st2 = st + listing_items(p, lk);
        assert(st2 =~= s_rest.push(x));
        assert(st2.last() == x);
        assert(st2.drop_last() =~= s_rest);
        // the node that the new entry names
        lemma_node_at_wf(t, p);
        lemma_child_named(full, k);
        lemma_node_at_push(t, p, full[k].name);
        assert(ls[k].0 == full[k].name);
        assert(node_at(t, x.path) == Some(full[k].node));
        assert(x.path.drop_last() =~= p);
        assert(x.path.last() == full[k].name);
        assert(seq![Child { name: x.path.last(), node: full[k].node }] =~= seq![full[k]]);
        assert(item_outcome(t, x, reserved) == scan_list(p, seq![full[k]], reserved));
        // the walk over the rest of the listing
        let fk = full.subrange(k, n);
        assert(fk[0] == full[k]);
        assert(fk.subrange(1, fk.len() as int) =~= full.subrange(k + 1, n));
        lemma_scan_split(p, fk, reserved);
        assert(pending_outcome(t, st2, reserved) == followed_by(
            item_outcome(t, x, reserved),
            pending_outcome(t, s_rest, reserved),
        ));
        if stack_agrees(t, st) {
            assert forall|j: int| 0 <= j < st2.len() implies {
                &&& (#[trigger] st2[j]).path.len() > 0
                &&& node_at(t, st2[j].path) is Some
                &&& (st2[j].is_dir <==> node_at(t, st2[j].path)->0 is Dir)
            } by {
                if j < st2.len() - 1 {
                    assert(st2[j] == s_rest[j]);
                }
            }
        }
    }
}

/// Taking in the listing of the awaited directory keeps a state on its tree.
pub proof fn lemma_feed_tracks(
    s: ScanState,
    ls: Option<ListingView>,
    t: Node,
    reserved: Seq<Seq<char>>,
)
    requires
        tracks(s, t, reserved),
        s.awaiting matches Some(p) ==> listing_agrees(ls, node_at(t, p)),
    ensures
        tracks(feed(s, ls), t, reserved),
{
    if let Some(p) = s.awaiting {
        let s2 = feed(s, ls);
        if let Some(Node::Dir { listing: Some(full) }) = node_at(t, p) {
            let l = ls->0;
            lemma_feed_items(t, p, full, l, 0, s.stack, reserved);
            assert(l.subrange(0, l.len() as int) =~= l);
            assert(full.subrange(0, full.len() as int) =~= full);
            assert(remaining(s2, t, reserved).found =~= remaining(s, t, reserved).found);
        } else {
            assert(remaining(s2, t, reserved).found =~= remaining(s, t, reserved).found);
        }
    }
}

/// Examining entries keeps a state on its tree.
pub proof fn lemma_settle_tracks(s: ScanState, t: Node, reserved: Seq<Seq<char>>)
    requires
        tracks(s, t, reserved),
    ensures
        tracks(settle(s, reserved), t, reserved),
    decreases s.stack.len(),
{
    if !(s.awaiting is Some || s.stack.len() == 0) {
        let k = s.stack.len() - 1;
        let it = s.stack.last();
        assert(s.stack[k] == it);
        let n = node_at(t, it.path)->0;
        let base = it.path.drop_last();
        let name = it.path.last();
        assert(base.push(name) =~= it.path);
        let one = seq![Child { name: name, node: n }];
        assert(one[0] == Child { name: name, node: n });
        assert(one.subrange(1, 1) =~= Seq::<Child>::empty());
        assert(scan_list(base, one.subrange(1, 1), reserved) == nothing());
        let rest = s.stack.drop_last();
        let s1 = ScanState { visited: count_one(s.visited), stack: rest, ..s };
        assert(stack_agrees(t, rest)) by {
            assert forall|j: int| 0 <= j < rest.len() implies {
                &&& (#[trigger] rest[j]).path.len() > 0
                &&& node_at(t, rest[j].path) is Some
                &&& (rest[j].is_dir <==> node_at(t, rest[j].path)->0 is Dir)
            } by {
                assert(rest[j] == s.stack[j]);
            }
        }
        let po = pending_outcome(t, rest, reserved);
        let io = item_outcome(t, it, reserved);
        assert(remaining(s, t, reserved).visited == io.visited + po.visited);
        assert(remaining(s, t, reserved).found =~= io.found + po.found);
        assert(io.visited >= 1);
        assert(s1.visited == s.visited + 1);
        if reserved.contains(name) {
            assert(io.found =~= Seq::<PathView>::empty());
            assert(s1.found + remaining(s1, t, reserved).found =~= s.found + remaining(
                s,
                t,
                reserved,
            ).found);
            lemma_settle_tracks(s1, t, reserved);
        } else if it.is_dir && name == target_name() {
            let s2 = ScanState { found: s1.found.push(it.path), ..s1 };
            assert(io.found =~= seq![it.path]);
            assert(s2.found + remaining(s2, t, reserved).found =~= s.found + remaining(
                s,
                t,
                reserved,
            ).found);
            lemma_settle_tracks(s2, t, reserved);
        } else if it.is_dir {
            let s3 = ScanState { awaiting: Some(it.path), ..s1 };
            assert(s3.found + remaining(s3, t, reserved).found =~= s.found + remaining(
                s,
                t,
                reserved,
            ).found);
        } else {
            assert(io.found =~= Seq::<PathView>::empty());
            assert(s1.found + remaining(s1, t, reserved).found =~= s.found + remaining(
                s,
                t,
                reserved,
            ).found);
            lemma_settle_tracks(s1, t, reserved);
        }
    }
}

/// Two complete walks of one unchanged tree report the same matches in the
/// same order and the same count of entries examined.
pub proof fn law_walks_agree(s1: ScanState, s2: ScanState, t: Node, reserved: Seq<Seq<char>>)
    requires
        tracks(s1, t, reserved),
        tracks(s2, t, reserved),
        is_done(s1),
        is_done(s2),
    ensures
        s1.visited == s2.visited,
        s1.found == s2.found,
{
    lemma_done(s1, t, reserved);
    lemma_done(s2, t, reserved);
}

/// The names that a walk skips by default: Windows's protected folders of a
/// user's profile, and none elsewhere.
pub fn platform_reserved_names(windows: bool) -> (r: Vec<String>)
    ensures
        names_view(r@) == if windows {
            seq!["My Music"@, "My Pictures"@, "My Videos"@]
        } else {
            Seq::empty()
        },
{
    let mut r: Vec<String> = Vec::new();
    if windows {
        r.push(String::from_str("My Music"));
        r.push(String::from_str("My Pictures"));
        r.push(String::from_str("My Videos"));
        assert(names_view(r@) =~= seq!["My Music"@, "My Pictures"@, "My Videos"@]);
    } else {
        assert(names_view(r@) =~= Seq::empty());
    }
    r
}

/// An entry of a directory listing as the caller reports it.
pub struct DirEntryInfo {
    /// The entry's base name.
    pub name: String,
    /// Whether the entry is a directory (following symbolic links).
    pub is_dir: bool,
}

/// The view of a reported listing; `None` stands for a directory that could not be read.
pub open spec fn listing_view(listing: Option<Vec<DirEntryInfo>>) -> Option<ListingView> {
    match listing {
        Some(v) => Some(v@.map_values(|e: DirEntryInfo| (e.name@, e.is_dir))),
        None => None,
    }
}

pub open spec fn names_view(names: Seq<String>) -> Seq<Seq<char>> {
    names.map_values(|s: String| s@)
}

struct PendingEntry {
    path: Vec<String>,
    is_dir: bool,
}

/// A walk in progress. It starts by waiting for the listing of the root.
pub struct Scanner {
    reserved: Vec<String>,
    stack: Vec<PendingEntry>,
    awaiting: Option<Vec<String>>,
    result: VenvCollection,
}

impl View for Scanner {
    type V = ScanState;

    closed spec fn view(&self) -> ScanState {
        ScanState {
            visited: self.result.checked_files as nat,
            found: self.result.found(),
            stack: self.stack@.map_values(
                |e: PendingEntry| Pending { path: path_view(e.path@), is_dir: e.is_dir },
            ),
            awaiting: match self.awaiting {
                Some(p) => Some(path_view(p@)),
                None => None,
            },
        }
    }
}

/// Whether `name` is `.venv`.
fn is_target(name: &String) -> (r: bool)
    ensures
        r == (name@ == target_name()),
{
    let s = name.as_str();
    let n = s.unicode_len();
    if n != 5 {
        return false;
    }
    let r = s.get_char(0) == '.' && s.get_char(1) == 'v' && s.get_char(2) == 'e' && s.get_char(3)
        == 'n' && s.get_char(4) == 'v';
    if r {
        assert(name@ =~= target_name());
    }
    r
}

/// Whether `name` is one of `names`.
fn contains_name(names: &Vec<String>, name: &String) -> (r: bool)
    ensures
        r == names_view(names@).contains(name@),
{
    let mut i: usize = 0;
    while i < names.len()
        invariant
            i <= names@.len(),
            forall|j: int| 0 <= j < i ==> names@[j]@ != name@,
        decreases names@.len() - i,
    {
        if names[i] == *name {
            assert(names_view(names@)[i as int] == name@);
            return true;
        }
        i = i + 1;
    }
    assert forall|j: int| 0 <= j < names_view(names@).len() implies names_view(names@)[j]
        != name@ by {
        assert(names_view(names@)[j] == names@[j]@);
    }
    false
}

/// The path of the entry `name` of the directory at `p`.
fn child_path(p: &Vec<String>, name: &String) -> (r: Vec<String>)
    ensures
        path_view(r@) == path_view(p@).push(name@),
        r@.len() > 0,
{
    let mut r: Vec<String> = Vec::new();
    let mut i: usize = 0;
    while i < p.len()
        invariant
            i <= p@.len(),
            r@.len() == i,
            forall|j: int| 0 <= j < i ==> r@[j]@ == p@[j]@,
        decreases p@.len() - i,
    {
        r.push(p[i].clone());
        i = i + 1;
    }
    r.push(name.clone());
    assert(path_view(r@) =~= path_view(p@).push(name@));
    r
}

/// A copy of a path.
fn copy_path(p: &Vec<String>) -> (r: Vec<String>)
    ensures
        path_view(r@) == path_view(p@),
{
    let mut r: Vec<String> = Vec::new();
    let mut i: usize = 0;
    while i < p.len()
        invariant
            i <= p@.len(),
            r@.len() == i,
            forall|j: int| 0 <= j < i ==> r@[j]@ == p@[j]@,
        decreases p@.len() - i,
    {
        r.push(p[i].clone());
        i = i + 1;
    }
    assert(path_view(r@) =~= path_view(p@));
    r
}

impl Scanner {
    /// The names that the walk skips, as text.
    pub closed spec fn reserved_view(&self) -> Seq<Seq<char>> {
        names_view(self.reserved@)
    }

    /// Every pending entry has a name.
    pub closed spec fn wf(&self) -> bool {
        forall|k: int| 0 <= k < self.stack@.len() ==> (#[trigger] self.stack@[k]).path@.len() > 0
    }

    /// A walk that skips every entry whose base name is one of `reserved`.
    pub fn new(reserved: Vec<String>) -> (r: Self)
        ensures
            r.wf(),
            r@ == initial(),
            r.reserved_view() == names_view(reserved@),
            forall|t: Node|
                wf_node(t) && scan_of(t, names_view(reserved@)).visited <= usize::MAX ==> #[trigger] tracks(
                    r@,
                    t,
                    names_view(reserved@),
                ),
    {
        let r = Scanner {
            reserved,
            stack: Vec::new(),
            awaiting: Some(Vec::new()),
            result: VenvCollection::new(),
        };
        assert(r@.found =~= initial().found);
        assert(r@.stack =~= initial().stack);
        assert(path_view(Seq::<String>::empty()) =~= Seq::<Seq<char>>::empty());
        assert forall|t: Node|
            wf_node(t) && scan_of(t, names_view(reserved@)).visited <= usize::MAX implies #[trigger] tracks(
            r@,
            t,
            names_view(reserved@),
        ) by {
            lemma_initial_tracks(t, names_view(reserved@));
        }
        r
    }

    /// The directory, relative to the root, whose listing the walk waits for;
    /// `None` once the walk is over.
    pub fn next_dir(&self) -> (r: Option<Vec<String>>)
        ensures
            match r {
                Some(p) => self@.awaiting == Some(path_view(p@)),
                None => self@.awaiting is None,
            },
    {
        match &self.awaiting {
            Some(p) => Some(copy_path(p)),
            None => None,
        }
    }

    /// Whether the walk is over.
    pub fn is_done(&self) -> (r: bool)
        requires
            self.wf(),
        ensures
            r == is_done(self@),
    {
        self.awaiting.is_none() && self.stack.len() == 0
    }

    /// Hands the walk the listing of the directory that it waits for (`None`
    /// where that directory could not be read: the walk then skips it and goes
    /// on). The walk then examines entries, in pre-order, until it comes to a
    /// directory that it must enter or has nothing left. Called when the walk
    /// waits for nothing, it only goes on examining.
    ///
    /// Whatever tree the walk was following, it still follows it, provided the
    /// listing is that of the awaited directory in that tree.
    pub fn advance(&mut self, listing: Option<Vec<DirEntryInfo>>)
        requires
            old(self).wf(),
        ensures
            final(self).wf(),
            final(self).reserved_view() == old(self).reserved_view(),
            final(self)@ == settle(
                feed(old(self)@, listing_view(listing)),
                old(self).reserved_view(),
            ),
            forall|t: Node|
                tracks(old(self)@, t, old(self).reserved_view()) && (old(self)@.awaiting matches Some(
                    p,
                ) ==> listing_agrees(listing_view(listing), node_at(t, p))) ==> #[trigger] tracks(
                    final(self)@,
                    t,
                    old(self).reserved_view(),
                ),
    {
        let ghost s0 = self@;
        let ghost rv = self.reserved_view();
        let ghost lv = listing_view(listing);
        let aw = self.awaiting.take();
        if let Some(p) = aw {
            if let Some(entries) = listing {
                let ghost ls = lv->0;
                let ghost pv = path_view(p@);
                assert(ls.subrange(entries@.len() as int, entries@.len() as int).len() == 0);
                assert(self@.stack =~= s0.stack + listing_items(
                    pv,
                    ls.subrange(entries@.len() as int, entries@.len() as int),
                ));
                let mut i: usize = entries.len();
                while i > 0
                    invariant
                        i <= entries@.len(),
                        ls == entries@.map_values(|e: DirEntryInfo| (e.name@, e.is_dir)),
                        pv == path_view(p@),
                        self.reserved_view() == rv,
                        self.result == old(self).result,
                        self.awaiting is None,
                        self@.stack == s0.stack + listing_items(
                            pv,
                            ls.subrange(i as int, entries@.len() as int),
                        ),
                        self.wf(),
                    decreases i,
                {
                    i = i - 1;
                    let e = &entries[i];
                    let path = child_path(&p, &e.name);
                    let ghost before = self@.stack;
                    let ghost before_exec = self.stack@;
                    self.stack.push(PendingEntry { path, is_dir: e.is_dir });
                    proof {
                        let lk = ls.subrange(i as int, entries@.len() as int);
                        assert(lk.subrange(1, lk.len() as int) =~= ls.subrange(
                            i as int + 1,
                            entries@.len() as int,
                        ));
                        assert(lk[0] == ls[i as int]);
                        assert(self@.stack =~= before.push(
                            Pending { path: pv.push(ls[i as int].0), is_dir: ls[i as int].1 },
                        ));
                        assert(self@.stack =~= s0.stack + listing_items(pv, lk));
                        assert forall|k: int| 0 <= k < self.stack@.len() implies (
                        #[trigger] self.stack@[k]).path@.len() > 0 by {
                            if k < self.stack@.len() - 1 {
                                assert(self.stack@[k] == before_exec[k]);
                            }
                        }
                    }
                }
                assert(ls.subrange(0, entries@.len() as int) =~= ls);
            }
        }
        assert(self@ == feed(s0, lv)) by {
            assert(self@.found =~= feed(s0, lv).found);
            assert(self@.stack =~= feed(s0, lv).stack);
        }
        let ghost goal = settle(feed(s0, lv), rv);
        while self.awaiting.is_none() && self.stack.len() > 0
            invariant
                self.wf(),
                self.reserved_view() == rv,
                settle(self@, rv) == goal,
            decreases self.stack@.len(),
        {
            let ghost s = self@;
            let it = self.stack.pop().unwrap();
            let ghost itv = s.stack.last();
            assert(s.stack[s.stack.len() - 1] == itv);
            assert(self@.stack =~= s.stack.drop_last());
            self.result.checked_files = self.result.checked_files.saturating_add(1);
            let name = &it.path[it.path.len() - 1];
            assert(name@ == itv.path.last());
            if contains_name(&self.reserved, name) {
            } else if it.is_dir && is_target(name) {
                let ghost f0 = self.result.found();
                self.result.push(it.path);
                assert(self.result.found() =~= f0.push(itv.path));
            } else if it.is_dir {
                self.awaiting = Some(it.path);
            }
        }
        proof {
            assert forall|t: Node|
                tracks(s0, t, rv) && (s0.awaiting matches Some(p) ==> listing_agrees(
                    lv,
                    node_at(t, p),
                )) implies #[trigger] tracks(self@, t, rv) by {
                lemma_feed_tracks(s0, lv, t, rv);
                lemma_settle_tracks(feed(s0, lv), t, rv);
            }
        }
    }

    /// The collection gathered so far.
    pub fn into_collection(self) -> (r: VenvCollection)
        ensures
            r.checked_files as nat == self@.visited,
            r.found() == self@.found,
    {
        self.result
    }
}

} // verus!
