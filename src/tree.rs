use vstd::prelude::*;

use crate::fields::PidAndInfo;
use crate::ids::Pid;
use crate::info::{defunct_text, opt_text_display, Info};
use crate::text::{decimal_len, int_text, push_char, push_int, truncate_string, truncated};
use crate::process_info::ProcessInfo;

verus! {

/// The parent a record points to, if any: none for a defunct process, whose
/// link can no longer be trusted, nor where the parent is unknown.
pub open spec fn parent_link(info: ProcessInfo) -> Option<int> {
    if info.is_defunct {
        Option::None
    } else {
        match info.parent_pid {
            Info::Present(p) => Option::Some(p.0 as int),
            _ => Option::None,
        }
    }
}

pub open spec fn in_scope(scope: Seq<PidAndInfo>, p: int) -> bool {
    exists|i: int| 0 <= i < scope.len() && (#[trigger] scope[i]).0.0 == p
}

/// Index of the first record of `p` in the scope.
pub open spec fn first_index(scope: Seq<PidAndInfo>, p: int) -> int
    recommends
        in_scope(scope, p),
{
    choose|i: int|
        0 <= i < scope.len() && scope[i].0.0 == p && forall|k: int| 0 <= k < i ==> (#[trigger] scope[k]).0.0 != p
}

/// The next step of an ancestor walk: the parent of `p`, where `p` is in the
/// scope and its parent is too.
pub open spec fn step(scope: Seq<PidAndInfo>, p: int) -> Option<int> {
    if in_scope(scope, p) {
        match parent_link(scope[first_index(scope, p)].1) {
            Option::Some(q) => if in_scope(scope, q) {
                Option::Some(q)
            } else {
                Option::None
            },
            Option::None => Option::None,
        }
    } else {
        Option::None
    }
}

/// The `i`-th pid of the ancestor walk from `s`, if the walk gets that far.
pub open spec fn walk_at(scope: Seq<PidAndInfo>, s: int, i: nat) -> Option<int>
    decreases i,
{
    if i == 0 {
        Option::Some(s)
    } else {
        match walk_at(scope, s, (i - 1) as nat) {
            Option::Some(c) => step(scope, c),
            Option::None => Option::None,
        }
    }
}

/// The pids that the walks from the selected records reach within as many
/// steps as the scope has records.
pub open spec fn reachable(selected: Seq<PidAndInfo>, scope: Seq<PidAndInfo>) -> Set<int> {
    Set::new(
        |q: int|
            exists|k: int, i: nat|
                0 <= k < selected.len() && i <= scope.len() && walk_at(scope, selected[k].0.0 as int, i)
                    == Option::Some(q),
    )
}

/// A forest of processes: each node with the parent it hangs from, none at
/// a root, in ascending order of pid.
pub struct ProcessTree {
    pub nodes: Vec<(Pid, Option<Pid>)>,
}

impl ProcessTree {
    pub open spec fn pids(&self) -> Seq<int> {
        Seq::new(self.nodes.len() as nat, |k: int| self.nodes@[k].0.0 as int)
    }

    pub open spec fn parent_of(&self, k: int) -> Option<int> {
        match self.nodes@[k].1 {
            Option::Some(p) => Option::Some(p.0 as int),
            Option::None => Option::None,
        }
    }
}

fn position(scope: &Vec<PidAndInfo>, p: i32) -> (r: Option<usize>)
    ensures
        r is None ==> !in_scope(scope@, p as int),
        r matches Option::Some(i) ==> in_scope(scope@, p as int) && i == first_index(scope@, p as int) && i < scope.len(),
{
    let mut i: usize = 0;
    while i < scope.len()
        invariant
            i <= scope.len(),
            forall|k: int| 0 <= k < i ==> (#[trigger] scope@[k]).0.0 != p,
        decreases scope.len() - i,
    {
        if scope[i].0.0 == p {
            proof {
                assert(in_scope(scope@, p as int));
                let j = first_index(scope@, p as int);
                assert(0 <= j < scope.len() && scope@[j].0.0 == p);
                if j < i {
                    assert(scope@[j].0.0 != p);
                }
                assert(j == i);
            }
            return Some(i);
        }
        i = i + 1;
    }
    None
}

fn next_step(scope: &Vec<PidAndInfo>, p: i32) -> (r: Option<i32>)
    ensures
        match r {
            Option::Some(q) => step(scope@, p as int) == Option::Some(q as int),
            Option::None => step(scope@, p as int) is None,
        },
{
    match position(scope, p) {
        None => None,
        Some(i) => {
            let info = &scope[i].1;
            if info.is_defunct {
                return None;
            }
            match &info.parent_pid {
                Info::Present(q) => match position(scope, q.0) {
                    Some(_) => Some(q.0),
                    None => None,
                },
                _ => None,
            }
        },
    }
}


impl ProcessTree {
    /// Nodes in strictly ascending order of pid, each with the parent that
    /// the walk gives it.
    pub open spec fn well_formed(&self, scope: Seq<PidAndInfo>) -> bool {
        &&& forall|k: int, l: int| 0 <= k < l < self.nodes.len() ==> self.pids()[k] < self.pids()[l]
        &&& forall|k: int| 0 <= k < self.nodes.len() ==> #[trigger] self.parent_of(k) == step(scope, self.pids()[k])
    }
}

fn insert_node(tree: &mut ProcessTree, p: i32, scope: &Vec<PidAndInfo>)
    requires
        old(tree).well_formed(scope@),
    ensures
        final(tree).well_formed(scope@),
        final(tree).pids().to_set() == old(tree).pids().to_set().insert(p as int),
{
    let ghost old_pids = tree.pids();
    let mut j: usize = 0;
    while j < tree.nodes.len() && tree.nodes[j].0.0 < p
        invariant
            j <= tree.nodes.len(),
            tree.pids() == old_pids,
            tree.well_formed(scope@),
            forall|k: int| 0 <= k < j ==> old_pids[k] < p,
        decreases tree.nodes.len() - j,
    {
        j = j + 1;
    }
    if j < tree.nodes.len() && tree.nodes[j].0.0 == p {
        assert(old_pids[j as int] == p);
        assert(old_pids.to_set().insert(p as int) =~= old_pids.to_set());
        return;
    }
    assert(j < old_pids.len() ==> old_pids[j as int] > p);
    let parent = match next_step(scope, p) {
        Some(q) => Some(Pid(q)),
        None => None,
    };
    let ghost old_nodes = tree.nodes@;
    let ghost old_tree = *tree;
    assert(old_tree.well_formed(scope@));
    assert(old_tree.pids() == old_pids);
    tree.nodes.insert(j, (Pid(p), parent));
    proof {
        assert forall|k: int| 0 <= k < tree.nodes.len() implies #[trigger] tree.parent_of(k) == step(scope@, tree.pids()[k]) by {
            if k < j {
                assert(tree.nodes@[k] == old_nodes[k]);
                assert(old_tree.parent_of(k) == step(scope@, old_pids[k]));
            } else if k > j {
                assert(tree.nodes@[k] == old_nodes[k - 1]);
                assert(old_tree.parent_of(k - 1) == step(scope@, old_pids[k - 1]));
            } else {
                assert(tree.nodes@[k] == (Pid(p), parent));
            }
        }
        assert forall|k: int, l: int| 0 <= k < l < tree.nodes.len() implies tree.pids()[k] < tree.pids()[l] by {
            if l > j {
                assert(tree.nodes@[l] == old_nodes[l - 1]);
                if l - 1 > j {
                    assert(old_pids[j as int] < old_pids[l - 1]);
                }
                if k < j {
                    assert(old_pids[k] < p);
                }
                if k > j {
                    assert(old_pids[k - 1] < old_pids[l - 1]);
                }
            }
            if l < j {
                assert(old_pids[k] < old_pids[l]);
            }
            if k > j {
                assert(tree.nodes@[k] == old_nodes[k - 1]);
            }
            if k < j {
                assert(tree.nodes@[k] == old_nodes[k]);
            }
            if l < j {
                assert(tree.nodes@[l] == old_nodes[l]);
            }
        }
        assert forall|q: int| tree.pids().to_set().contains(q) <==> old_pids.to_set().insert(p as int).contains(q) by {
            if tree.pids().contains(q) {
                let k = choose|k: int| 0 <= k < tree.pids().len() && tree.pids()[k] == q;
                if k < j {
                    assert(tree.nodes@[k] == old_nodes[k]);
                    assert(old_pids[k] == q);
                } else if k > j {
                    assert(tree.nodes@[k] == old_nodes[k - 1]);
                    assert(old_pids[k - 1] == q);
                }
            }
            if old_pids.contains(q) {
                let k = choose|k: int| 0 <= k < old_pids.len() && old_pids[k] == q;
                if k < j {
                    assert(tree.nodes@[k] == old_nodes[k]);
                    assert(tree.pids()[k] == q);
                } else {
                    assert(tree.nodes@[k + 1] == old_nodes[k]);
                    assert(tree.pids()[k + 1] == q);
                }
            }
            if q == p {
                assert(tree.pids()[j as int] == q);
            }
        }
        assert(tree.pids().to_set() =~= old_pids.to_set().insert(p as int));
    }
}

proof fn lemma_walk_ends(scope: Seq<PidAndInfo>, s: int, i: nat, j: nat)
    requires
        i <= j,
        walk_at(scope, s, i) is None,
    ensures
        walk_at(scope, s, j) is None,
    decreases j,
{
    if i < j {
        lemma_walk_ends(scope, s, i, (j - 1) as nat);
    }
}

/// The pids of the first `i` steps of the walk from `s`.
pub open spec fn walk_set(scope: Seq<PidAndInfo>, s: int, i: nat) -> Set<int> {
    Set::new(|q: int| exists|i2: nat| i2 < i && walk_at(scope, s, i2) == Option::Some(q))
}

/// The pids that the walks from the first `k` selected records reach.
pub open spec fn reach_set(selected: Seq<PidAndInfo>, scope: Seq<PidAndInfo>, k: int) -> Set<int> {
    Set::new(
        |q: int|
            exists|k2: int, i: nat|
                0 <= k2 < k && i <= scope.len() && walk_at(scope, selected[k2].0.0 as int, i)
                    == Option::Some(q),
    )
}

proof fn lemma_walk_set_step(scope: Seq<PidAndInfo>, s: int, i: nat, c: int)
    requires
        walk_at(scope, s, i) == Option::Some(c),
    ensures
        walk_set(scope, s, i + 1) == walk_set(scope, s, i).insert(c),
{
    assert forall|q: int| walk_set(scope, s, i + 1).contains(q) <==> walk_set(scope, s, i).insert(c).contains(q) by {
        if walk_set(scope, s, i + 1).contains(q) {
            let i2 = choose|i2: nat| i2 < i + 1 && walk_at(scope, s, i2) == Option::Some(q);
            if i2 < i {
                assert(walk_set(scope, s, i).contains(q));
            }
        }
        if walk_set(scope, s, i).contains(q) {
            let i2 = choose|i2: nat| i2 < i && walk_at(scope, s, i2) == Option::Some(q);
            assert(i2 < i + 1);
        }
        if q == c {
            assert(walk_at(scope, s, i) == Option::Some(q));
        }
    }
    assert(walk_set(scope, s, i + 1) =~= walk_set(scope, s, i).insert(c));
}

proof fn lemma_walk_set_full(scope: Seq<PidAndInfo>, s: int, i: nat, n: nat)
    requires
        i <= n + 1,
        i == n + 1 || walk_at(scope, s, i) is None,
    ensures
        walk_set(scope, s, i) == walk_set(scope, s, n + 1),
{
    assert forall|q: int| walk_set(scope, s, n + 1).contains(q) implies walk_set(scope, s, i).contains(q) by {
        let i2 = choose|i2: nat| i2 < n + 1 && walk_at(scope, s, i2) == Option::Some(q);
        if i2 >= i {
            lemma_walk_ends(scope, s, i, i2);
        }
    }
    assert(walk_set(scope, s, i) =~= walk_set(scope, s, n + 1));
}

proof fn lemma_reach_set_step(selected: Seq<PidAndInfo>, scope: Seq<PidAndInfo>, k: int)
    requires
        0 <= k < selected.len(),
    ensures
        reach_set(selected, scope, k + 1) == reach_set(selected, scope, k).union(
            walk_set(scope, selected[k].0.0 as int, (scope.len() + 1) as nat),
        ),
{
    let s = selected[k].0.0 as int;
    let n1 = (scope.len() + 1) as nat;
    assert forall|q: int|
        reach_set(selected, scope, k + 1).contains(q) <==> reach_set(selected, scope, k).union(
            walk_set(scope, s, n1),
        ).contains(q) by {
        if reach_set(selected, scope, k + 1).contains(q) {
            let (k2, i) = choose|k2: int, i: nat|
                0 <= k2 < k + 1 && i <= scope.len() && walk_at(scope, selected[k2].0.0 as int, i) == Option::Some(q);
            if k2 == k {
                assert(walk_set(scope, s, n1).contains(q));
            } else {
                assert(reach_set(selected, scope, k).contains(q));
            }
        }
        if walk_set(scope, s, n1).contains(q) {
            let i = choose|i: nat| i < n1 && walk_at(scope, s, i) == Option::Some(q);
            assert(reach_set(selected, scope, k + 1).contains(q));
        }
        if reach_set(selected, scope, k).contains(q) {
            let (k2, i) = choose|k2: int, i: nat|
                0 <= k2 < k && i <= scope.len() && walk_at(scope, selected[k2].0.0 as int, i) == Option::Some(q);
            assert(reach_set(selected, scope, k + 1).contains(q));
        }
    }
    assert(reach_set(selected, scope, k + 1) =~= reach_set(selected, scope, k).union(walk_set(scope, s, n1)));
}

/// Rebuilds the process forest: every selected record and the ancestors
/// that its walk through `scope` reaches, each once, under the parent that
/// the walk gives it. The walk stops at a defunct process, at a parent
/// outside the scope, and after as many steps as the scope has records.
pub fn create_tree(selected: &Vec<PidAndInfo>, scope: &Vec<PidAndInfo>) -> (r: ProcessTree)
    ensures
        r.well_formed(scope@),
        r.pids().to_set() == reachable(selected@, scope@),
{
    let mut tree = ProcessTree { nodes: Vec::new() };
    let n = scope.len();
    let mut k: usize = 0;
    assert(tree.pids().to_set() =~= reach_set(selected@, scope@, 0));
    while k < selected.len()
        invariant
            k <= selected.len(),
            n == scope.len(),
            tree.well_formed(scope@),
            tree.pids().to_set() == reach_set(selected@, scope@, k as int),
        decreases selected.len() - k,
    {
        let s = selected[k].0.0;
        let mut cur: Option<i32> = Some(s);
        let mut i: u128 = 0;
        let ghost before = tree.pids().to_set();
        assert(walk_set(scope@, s as int, 0) =~= Set::<int>::empty());
        assert(before.union(walk_set(scope@, s as int, 0)) =~= before);
        while i <= n as u128 && cur.is_some()
            invariant
                n == scope.len(),
                i <= n + 1,
                tree.well_formed(scope@),
                match cur {
                    Option::Some(c) => walk_at(scope@, s as int, i as nat) == Option::Some(c as int),
                    Option::None => walk_at(scope@, s as int, i as nat) is None,
                },
                tree.pids().to_set() == before.union(walk_set(scope@, s as int, i as nat)),
            decreases n + 1 - i,
        {
            let c = cur.unwrap();
            insert_node(&mut tree, c, scope);
            cur = next_step(scope, c);
            proof {
                lemma_walk_set_step(scope@, s as int, i as nat, c as int);
                assert(tree.pids().to_set() =~= before.union(walk_set(scope@, s as int, (i + 1) as nat)));
            }
            i = i + 1;
        }
        proof {
            lemma_walk_set_full(scope@, s as int, i as nat, n as nat);
            lemma_reach_set_step(selected@, scope@, k as int);
        }
        k = k + 1;
    }
    proof {
        assert(reach_set(selected@, scope@, selected.len() as int) =~= reachable(selected@, scope@));
    }
    tree
}

/// Every selected record's pid is in the tree, and the tree has exactly one
/// node for each distinct pid that the ancestor walks reach.
pub proof fn lemma_tree_covers_selection(selected: Seq<PidAndInfo>, scope: Seq<PidAndInfo>, t: ProcessTree)
    requires
        t.well_formed(scope),
        t.pids().to_set() == reachable(selected, scope),
    ensures
        forall|k: int| 0 <= k < selected.len() ==> t.pids().contains(#[trigger] selected[k].0.0 as int),
        t.pids().no_duplicates(),
        t.nodes.len() == reachable(selected, scope).len(),
{
    assert forall|k: int| 0 <= k < selected.len() implies t.pids().contains(#[trigger] selected[k].0.0 as int) by {
        assert(walk_at(scope, selected[k].0.0 as int, 0) == Option::Some(selected[k].0.0 as int));
        assert(reachable(selected, scope).contains(selected[k].0.0 as int));
        assert(t.pids().to_set().contains(selected[k].0.0 as int));
    }
    assert forall|k: int, l: int| 0 <= k < t.pids().len() && 0 <= l < t.pids().len() && k != l implies t.pids()[k]
        != t.pids()[l] by {
        if k < l {
            assert(t.pids()[k] < t.pids()[l]);
        } else {
            assert(t.pids()[l] < t.pids()[k]);
        }
    }
    t.pids().unique_seq_to_set();
}


/// Which records the ancestor walks go through.
pub struct TreeArgs {
    /// Walk through every process, so that the ancestors of a shown process
    /// appear even where the filter drops them; else through the shown
    /// processes only, where a process whose parent is dropped becomes a
    /// root.
    pub include_ancestors: bool,
}

impl TreeArgs {
    pub fn scope<'a>(&self, all: &'a Vec<PidAndInfo>, shown: &'a Vec<PidAndInfo>) -> (r: &'a Vec<PidAndInfo>)
        ensures
            r == if self.include_ancestors {
                all
            } else {
                shown
            },
    {
        if self.include_ancestors {
            all
        } else {
            shown
        }
    }
}

/// How a tree is drawn.
pub struct TreeOptions {
    pub use_box_drawing: bool,
    /// Width to cut node labels to, if any.
    pub terminal_width: Option<usize>,
}

/// A node's label: its command line, else its path; `<defunct>` for a
/// defunct process.
pub open spec fn label_text(info: ProcessInfo) -> Seq<char> {
    if info.is_defunct {
        defunct_text()
    } else {
        match info.cmd_line {
            Info::Present(Option::Some(c)) => c@,
            _ => opt_text_display(info.path),
        }
    }
}

/// The label of `pid` among `infos`; empty where it has no record.
pub open spec fn label_of(infos: Seq<PidAndInfo>, pid: int) -> Seq<char> {
    if in_scope(infos, pid) {
        label_text(infos[first_index(infos, pid)].1)
    } else {
        Seq::empty()
    }
}

/// Indices of the first `m` nodes that hang from `parent`, in order.
pub open spec fn kids_upto(t: ProcessTree, parent: Option<int>, m: int) -> Seq<int>
    decreases m,
{
    if m <= 0 {
        Seq::empty()
    } else {
        let prev = kids_upto(t, parent, m - 1);
        if t.parent_of(m - 1) == parent {
            prev.push(m - 1)
        } else {
            prev
        }
    }
}

pub open spec fn kids(t: ProcessTree, parent: Option<int>) -> Seq<int> {
    kids_upto(t, parent, t.nodes.len() as int)
}

/// The glyph before a node: its place among its siblings, with a distinct
/// one for the very first node of the tree.
pub open spec fn border_glyph(box_drawing: bool, top: bool, last: bool) -> char {
    if box_drawing {
        if top {
            if last { '─' } else { '┌' }
        } else {
            if last { '└' } else { '├' }
        }
    } else {
        if top {
            if last { '-' } else { '/' }
        } else {
            if last { '\\' } else { '|' }
        }
    }
}

pub open spec fn branch_glyph(box_drawing: bool, has_kids: bool) -> char {
    if box_drawing && has_kids {
        '┬'
    } else if box_drawing {
        '─'
    } else {
        '-'
    }
}

/// What continues under a node for its descendants: a bar while siblings
/// follow, else a space.
pub open spec fn bar_glyph(box_drawing: bool, last: bool) -> char {
    if last {
        ' '
    } else if box_drawing {
        '│'
    } else {
        '|'
    }
}

/// Room for a label on a line of the given width, after the borders, two
/// glyphs, the pid and the spaces around it.
pub open spec fn label_room(width: int, borders_len: int, pid: int) -> int {
    let used = borders_len + 2 + 1 + int_text(pid).len() + 1;
    if width > used {
        width - used
    } else {
        0
    }
}

pub open spec fn node_line(
    t: ProcessTree,
    infos: Seq<PidAndInfo>,
    k: int,
    borders: Seq<char>,
    top: bool,
    last: bool,
    opts: TreeOptions,
) -> Seq<char> {
    let pid = t.pids()[k];
    let label = label_of(infos, pid);
    borders + seq![
        border_glyph(opts.use_box_drawing, top, last),
        branch_glyph(opts.use_box_drawing, kids(t, Option::Some(pid)).len() > 0),
        ' ',
    ] + int_text(pid) + seq![' '] + match opts.terminal_width {
        Option::Some(w) => truncated(label, label_room(w as int, borders.len() as int, pid)),
        Option::None => label,
    }
}

#[verifier::opaque]
/// The lines of the siblings `ks[i..]` under `borders`, each followed by its
/// descendants, depth first in order of pid; `fuel` bounds the depth.
pub open spec fn level_lines(
    t: ProcessTree,
    infos: Seq<PidAndInfo>,
    ks: Seq<int>,
    i: int,
    borders: Seq<char>,
    fuel: nat,
    opts: TreeOptions,
) -> Seq<Seq<char>>
    decreases fuel, ks.len() - i,
{
    if i < 0 || i >= ks.len() || fuel == 0 {
        Seq::empty()
    } else {
        let last = i == ks.len() - 1;
        let top = i == 0 && borders.len() == 0;
        seq![node_line(t, infos, ks[i], borders, top, last, opts)] + level_lines(
            t,
            infos,
            kids(t, Option::Some(t.pids()[ks[i]])),
            0,
            borders.push(bar_glyph(opts.use_box_drawing, last)),
            (fuel - 1) as nat,
            opts,
        ) + level_lines(t, infos, ks, i + 1, borders, fuel, opts)
    }
}

/// The lines of the whole tree, from its roots.
pub open spec fn tree_lines(t: ProcessTree, infos: Seq<PidAndInfo>, opts: TreeOptions) -> Seq<Seq<char>> {
    level_lines(t, infos, kids(t, Option::None), 0, Seq::empty(), t.nodes.len() as nat, opts)
}

pub open spec fn string_views(v: Seq<String>) -> Seq<Seq<char>> {
    Seq::new(v.len(), |i: int| v[i]@)
}

pub open spec fn parent_view(p: Option<i32>) -> Option<int> {
    match p {
        Option::Some(q) => Option::Some(q as int),
        Option::None => Option::None,
    }
}

fn kids_of(t: &ProcessTree, parent: Option<i32>) -> (r: Vec<usize>)
    ensures
        r@.len() == kids(*t, parent_view(parent)).len(),
        forall|i: int| 0 <= i < r.len() ==> r@[i] as int == #[trigger] kids(*t, parent_view(parent))[i],
        forall|i: int| 0 <= i < r.len() ==> r@[i] < t.nodes.len(),
{
    let ghost want = parent_view(parent);
    let mut r: Vec<usize> = Vec::new();
    let mut m: usize = 0;
    while m < t.nodes.len()
        invariant
            m <= t.nodes.len(),
            want == parent_view(parent),
            r@.len() == kids_upto(*t, want, m as int).len(),
            forall|i: int| 0 <= i < r.len() ==> r@[i] as int == #[trigger] kids_upto(*t, want, m as int)[i],
            forall|i: int| 0 <= i < r.len() ==> r@[i] < m,
        decreases t.nodes.len() - m,
    {
        let matches = match t.nodes[m].1 {
            Some(a) => match parent {
                Some(b) => a.0 == b,
                None => false,
            },
            None => parent.is_none(),
        };
        assert(matches == (t.parent_of(m as int) == want));
        assert(kids_upto(*t, want, m + 1) == if t.parent_of(m as int) == want {
            kids_upto(*t, want, m as int).push(m as int)
        } else {
            kids_upto(*t, want, m as int)
        });
        if matches {
            r.push(m);
        }
        m = m + 1;
    }
    r
}

fn label(infos: &Vec<PidAndInfo>, pid: i32) -> (r: String)
    ensures
        r@ == label_of(infos@, pid as int),
{
    match position(infos, pid) {
        None => String::new(),
        Some(i) => {
            let info = &infos[i].1;
            let mut out = String::new();
            if info.is_defunct {
                out.append("<defunct>");
                proof {
                    reveal_strlit("<defunct>");
                }
            } else {
                match &info.cmd_line {
                    Info::Present(Some(c)) => out.append(c.as_str()),
                    _ => out.append(info.path.to_str()),
                }
            }
            assert(out@ =~= label_of(infos@, pid as int));
            out
        },
    }
}

fn border_char(box_drawing: bool, top: bool, last: bool) -> (c: char)
    ensures
        c == border_glyph(box_drawing, top, last),
{
    if box_drawing {
        if top {
            if last { '─' } else { '┌' }
        } else {
            if last { '└' } else { '├' }
        }
    } else {
        if top {
            if last { '-' } else { '/' }
        } else {
            if last { '\\' } else { '|' }
        }
    }
}

proof fn lemma_level_step(
    t: ProcessTree,
    infos: Seq<PidAndInfo>,
    ks: Seq<int>,
    i: int,
    borders: Seq<char>,
    fuel: nat,
    opts: TreeOptions,
)
    requires
        0 <= i < ks.len(),
        fuel > 0,
    ensures
        level_lines(t, infos, ks, i, borders, fuel, opts) == seq![
            node_line(t, infos, ks[i], borders, i == 0 && borders.len() == 0, i == ks.len() - 1, opts),
        ] + level_lines(
            t,
            infos,
            kids(t, Option::Some(t.pids()[ks[i]])),
            0,
            borders.push(bar_glyph(opts.use_box_drawing, i == ks.len() - 1)),
            (fuel - 1) as nat,
            opts,
        ) + level_lines(t, infos, ks, i + 1, borders, fuel, opts),
{
    reveal(level_lines);
}

proof fn lemma_level_end(
    t: ProcessTree,
    infos: Seq<PidAndInfo>,
    ks: Seq<int>,
    i: int,
    borders: Seq<char>,
    fuel: nat,
    opts: TreeOptions,
)
    requires
        i >= ks.len() || fuel == 0,
    ensures
        level_lines(t, infos, ks, i, borders, fuel, opts) == Seq::<Seq<char>>::empty(),
{
    reveal(level_lines);
}

fn build_node_line(
    t: &ProcessTree,
    infos: &Vec<PidAndInfo>,
    k: usize,
    borders: &String,
    top: bool,
    last: bool,
    opts: &TreeOptions,
) -> (line: String)
    requires
        k < t.nodes.len(),
    ensures
        line@ == node_line(*t, infos@, k as int, borders@, top, last, *opts),
{
    let pid = t.nodes[k].0.0;
    assert(t.pids()[k as int] == pid);
    let child_kids = kids_of(t, Some(pid));
    let mut line = borders.clone();
    push_char(&mut line, border_char(opts.use_box_drawing, top, last));
    push_char(
        &mut line,
        if child_kids.len() > 0 && opts.use_box_drawing {
            '┬'
        } else if opts.use_box_drawing {
            '─'
        } else {
            '-'
        },
    );
    push_char(&mut line, ' ');
    push_int(&mut line, pid as i64);
    push_char(&mut line, ' ');
    let mut name = label(infos, pid);
    match opts.terminal_width {
        Some(w) => {
            let used: u128 = borders.as_str().unicode_len() as u128 + 2 + 1 + decimal_len_signed(pid) as u128 + 1;
            let room: usize = if w as u128 > used {
                (w as u128 - used) as usize
            } else {
                0
            };
            truncate_string(&mut name, room);
        },
        None => {},
    }
    line.append(name.as_str());
    assert(line@ =~= node_line(*t, infos@, k as int, borders@, top, last, *opts));
    line
}

#[verifier::rlimit(40)]
fn push_level(
    t: &ProcessTree,
    infos: &Vec<PidAndInfo>,
    parent: Option<i32>,
    borders: &String,
    fuel: usize,
    opts: &TreeOptions,
    out: &mut Vec<String>,
)
    ensures
        string_views(final(out)@) == string_views(old(out)@) + level_lines(
            *t,
            infos@,
            kids(*t, parent_view(parent)),
            0,
            borders@,
            fuel as nat,
            *opts,
        ),
    decreases fuel,
{
    let ghost ks = kids(*t, parent_view(parent));
    let ghost start = string_views(out@);
    let siblings = kids_of(t, parent);
    assert(siblings@.len() == ks.len());
    if fuel == 0 {
        proof {
            lemma_level_end(*t, infos@, ks, 0, borders@, fuel as nat, *opts);
        }
        assert(string_views(out@) =~= start + level_lines(*t, infos@, ks, 0, borders@, fuel as nat, *opts));
        return;
    }
    let n = siblings.len();
    let mut i: usize = 0;
    assert(string_views(out@) + level_lines(*t, infos@, ks, 0, borders@, fuel as nat, *opts) =~= start
        + level_lines(*t, infos@, ks, 0, borders@, fuel as nat, *opts));
    while i < n
        invariant
            i <= n,
            n == ks.len(),
            n == siblings.len(),
            fuel > 0,
            forall|j: int| 0 <= j < n ==> siblings@[j] as int == #[trigger] ks[j],
            forall|j: int| 0 <= j < n ==> siblings@[j] < t.nodes.len(),
            string_views(out@) + level_lines(*t, infos@, ks, i as int, borders@, fuel as nat, *opts) == start
                + level_lines(*t, infos@, ks, 0, borders@, fuel as nat, *opts),
        decreases n - i,
    {
        let k = siblings[i];
        let pid = t.nodes[k].0.0;
        assert(t.pids()[k as int] == pid);
        let last = i == n - 1;
        let top = i == 0 && borders.as_str().unicode_len() == 0;
        let line = build_node_line(t, infos, k, borders, top, last, opts);
        let ghost before = string_views(out@);
        out.push(line);
        assert(string_views(out@) =~= before.push(node_line(*t, infos@, k as int, borders@, top, last, *opts)));
        let mut child_borders = borders.clone();
        push_char(
            &mut child_borders,
            if last {
                ' '
            } else if opts.use_box_drawing {
                '│'
            } else {
                '|'
            },
        );
        let ghost mid = string_views(out@);
        push_level(t, infos, Some(pid), &child_borders, fuel - 1, opts, out);
        proof {
            lemma_level_step(*t, infos@, ks, i as int, borders@, fuel as nat, *opts);
            let below = level_lines(
                *t,
                infos@,
                kids(*t, Option::Some(pid as int)),
                0,
                borders@.push(bar_glyph(opts.use_box_drawing, last)),
                (fuel - 1) as nat,
                *opts,
            );
            let next = level_lines(*t, infos@, ks, i + 1, borders@, fuel as nat, *opts);
            assert(string_views(out@) + next =~= before + level_lines(*t, infos@, ks, i as int, borders@, fuel as nat, *opts));
        }
        i = i + 1;
    }
    proof {
        lemma_level_end(*t, infos@, ks, n as int, borders@, fuel as nat, *opts);
    }
    assert(string_views(out@) =~= start + level_lines(*t, infos@, ks, 0, borders@, fuel as nat, *opts));
}

fn decimal_len_signed(pid: i32) -> (r: usize)
    ensures
        r == int_text(pid as int).len(),
{
    if pid < 0 {
        let m: u64 = (0 - pid as i64) as u64;
        decimal_len(m) + 1
    } else {
        decimal_len(pid as u64)
    }
}

/// The lines that draw the tree: one per node, depth first, siblings in
/// order of pid, each with the borders that lead to it, its pid and its
/// label cut to the terminal's width.
pub fn render_tree(t: &ProcessTree, infos: &Vec<PidAndInfo>, opts: &TreeOptions) -> (r: Vec<String>)
    ensures
        string_views(r@) == tree_lines(*t, infos@, *opts),
{
    let mut out: Vec<String> = Vec::new();
    let fuel: usize = t.nodes.len();
    let borders = String::new();
    push_level(t, infos, None, &borders, fuel, opts, &mut out);
    assert(string_views(out@) =~= level_lines(*t, infos@, kids(*t, Option::None), 0, Seq::empty(), fuel as nat, *opts));
    out
}

} // verus!
