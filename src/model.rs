use vstd::prelude::*;

use crate::graph::{
    adj_wf, count_true, lemma_count_true_strict, lemma_reach_new_edge, lemma_reach_new_node,
    lemma_no_seeds, lemma_reach_split, lemma_reach_trans, reach_within, reaches,
};

verus! {

/// The abstract state of an inventory. Groups and hosts are numbered in order of
/// creation; each relation is a list of numbers per entity.
pub struct InventoryModel {
    pub groups: Seq<Seq<char>>,
    pub subgroups: Seq<Seq<usize>>,
    pub parents: Seq<Seq<usize>>,
    pub group_hosts: Seq<Seq<usize>>,
    pub group_vars: Seq<Map<Seq<char>, Seq<char>>>,
    pub hosts: Seq<Seq<char>>,
    pub host_groups: Seq<Seq<usize>>,
    pub host_vars: Seq<Map<Seq<char>, Seq<char>>>,
}

pub open spec fn all_name() -> Seq<char> {
    seq!['a', 'l', 'l']
}

pub open spec fn names_unique(s: Seq<Seq<char>>) -> bool {
    forall|i: int, j: int| 0 <= i < s.len() && 0 <= j < s.len() && i != j ==> s[i] != s[j]
}

/// The position of `name` in `s`, where it occurs.
pub open spec fn index_of(s: Seq<Seq<char>>, name: Seq<char>) -> int {
    choose|i: int| 0 <= i < s.len() && s[i] == name
}

pub open spec fn lists_unique(adj: Seq<Seq<usize>>) -> bool {
    forall|x: int| 0 <= x < adj.len() ==> (#[trigger] adj[x]).no_duplicates()
}

/// Every entry of every list of `adj` is below `bound`.
pub open spec fn lists_below(adj: Seq<Seq<usize>>, bound: nat) -> bool {
    forall|x: int, j: int| 0 <= x < adj.len() && 0 <= j < adj[x].len() ==> (#[trigger] adj[x][j]) < bound
}

/// `back` holds the reverse of each edge of `fwd`, and nothing else.
pub open spec fn mirrored(fwd: Seq<Seq<usize>>, back: Seq<Seq<usize>>) -> bool {
    forall|a: usize, b: usize|
        a < fwd.len() && b < back.len() ==> (#[trigger] fwd[a as int].contains(b) <==> #[trigger] back[b as int].contains(a))
}

impl InventoryModel {
    pub open spec fn has_group(self, name: Seq<char>) -> bool {
        self.groups.contains(name)
    }

    pub open spec fn has_host(self, name: Seq<char>) -> bool {
        self.hosts.contains(name)
    }

    pub open spec fn group_id(self, name: Seq<char>) -> int {
        index_of(self.groups, name)
    }

    pub open spec fn host_id(self, name: Seq<char>) -> int {
        index_of(self.hosts, name)
    }

    /// The invariant of an inventory: names are unique, `all` is group 0 and a
    /// direct parent of every other group, and each relation agrees with its reverse.
    pub open spec fn wf(self) -> bool {
        let ng = self.groups.len();
        let nh = self.hosts.len();
        &&& ng >= 1
        &&& self.groups[0] == all_name()
        &&& names_unique(self.groups)
        &&& names_unique(self.hosts)
        &&& self.subgroups.len() == ng
        &&& self.parents.len() == ng
        &&& self.group_hosts.len() == ng
        &&& self.group_vars.len() == ng
        &&& self.host_groups.len() == nh
        &&& self.host_vars.len() == nh
        &&& lists_below(self.subgroups, ng)
        &&& lists_below(self.parents, ng)
        &&& lists_below(self.group_hosts, nh)
        &&& lists_below(self.host_groups, ng)
        &&& lists_unique(self.subgroups)
        &&& lists_unique(self.parents)
        &&& lists_unique(self.group_hosts)
        &&& lists_unique(self.host_groups)
        &&& mirrored(self.subgroups, self.parents)
        &&& mirrored(self.group_hosts, self.host_groups)
        &&& forall|g: int| 1 <= g < ng ==> (#[trigger] self.parents[g]).contains(0)
        &&& self.acyclic()
    }

    /// No group is among its own ancestors.
    pub open spec fn acyclic(self) -> bool {
        forall|g: usize| g < self.groups.len() ==> !#[trigger] reaches(self.parents, self.parents[g as int], g)
    }

    /// The inventory that holds only the group `all`.
    pub open spec fn initial() -> InventoryModel {
        InventoryModel {
            groups: seq![all_name()],
            subgroups: seq![Seq::empty()],
            parents: seq![Seq::empty()],
            group_hosts: seq![Seq::empty()],
            group_vars: seq![Map::empty()],
            hosts: Seq::empty(),
            host_groups: Seq::empty(),
            host_vars: Seq::empty(),
        }
    }

    /// A new host named `name`, in no group and with no variables.
    pub open spec fn add_host(self, name: Seq<char>) -> InventoryModel {
        InventoryModel {
            hosts: self.hosts.push(name),
            host_groups: self.host_groups.push(Seq::empty()),
            host_vars: self.host_vars.push(Map::empty()),
            ..self
        }
    }

    /// A new group named `name`, placed directly under `all`.
    pub open spec fn add_group(self, name: Seq<char>) -> InventoryModel {
        let id = self.groups.len() as usize;
        InventoryModel {
            groups: self.groups.push(name),
            subgroups: self.subgroups.update(0, self.subgroups[0].push(id)).push(Seq::empty()),
            parents: self.parents.push(seq![0usize]),
            group_hosts: self.group_hosts.push(Seq::empty()),
            group_vars: self.group_vars.push(Map::empty()),
            ..self
        }
    }

    pub open spec fn ensure_host(self, name: Seq<char>) -> InventoryModel {
        if self.has_host(name) {
            self
        } else {
            self.add_host(name)
        }
    }

    pub open spec fn ensure_group(self, name: Seq<char>) -> InventoryModel {
        if self.has_group(name) {
            self
        } else {
            self.add_group(name)
        }
    }

    /// Host `h` recorded as a direct member of group `g`, on both sides.
    pub open spec fn link_host(self, g: usize, h: usize) -> InventoryModel {
        if self.group_hosts[g as int].contains(h) {
            self
        } else {
            InventoryModel {
                group_hosts: self.group_hosts.update(g as int, self.group_hosts[g as int].push(h)),
                host_groups: self.host_groups.update(h as int, self.host_groups[h as int].push(g)),
                ..self
            }
        }
    }

    /// Group `c` recorded as a direct subgroup of group `p`, on both sides.
    pub open spec fn link_subgroup(self, p: usize, c: usize) -> InventoryModel {
        if self.subgroups[p as int].contains(c) {
            self
        } else {
            InventoryModel {
                subgroups: self.subgroups.update(p as int, self.subgroups[p as int].push(c)),
                parents: self.parents.update(c as int, self.parents[c as int].push(p)),
                ..self
            }
        }
    }

    /// The result of assigning host `h` to group `g`, creating either if missing.
    pub open spec fn assign_host(self, g: Seq<char>, h: Seq<char>) -> InventoryModel {
        let m = self.ensure_group(g).ensure_host(h);
        m.link_host(m.group_id(g) as usize, m.host_id(h) as usize)
    }

    /// The result of making `c` a subgroup of `p`, creating either if missing.
    pub open spec fn assign_subgroup(self, p: Seq<char>, c: Seq<char>) -> InventoryModel {
        let m = self.ensure_group(p).ensure_group(c);
        m.link_subgroup(m.group_id(p) as usize, m.group_id(c) as usize)
    }

    /// Making `c` a subgroup of `p` would close a cycle: once both exist, `c` is `p`
    /// or one of its ancestors.
    pub open spec fn would_cycle(self, p: Seq<char>, c: Seq<char>) -> bool {
        let m = self.ensure_group(p).ensure_group(c);
        reaches(m.parents, seq![m.group_id(p) as usize], m.group_id(c) as usize)
    }

    /// The names of the direct members of group `g`, in order of assignment.
    pub open spec fn direct_hosts(self, g: int) -> Seq<Seq<char>> {
        self.group_hosts[g].map_values(|h: usize| self.hosts[h as int])
    }

    /// The groups where the search for the groups of host `h` starts: `all` and
    /// the groups that `h` is a direct member of.
    pub open spec fn lookup_seeds(self, h: int) -> Seq<usize> {
        seq![0usize] + self.host_groups[h]
    }

    /// Group `g` contributes to the variables of host `h`: it is `all`, a group of
    /// `h`, or an ancestor of one of them.
    pub open spec fn applies_to(self, h: int, g: usize) -> bool {
        reaches(self.parents, self.lookup_seeds(h), g)
    }

    /// The number of proper ancestors of group `g`. An ancestor of `g` has fewer
    /// ancestors than `g`, so ordering by this number puts parents before children.
    pub open spec fn depth(self, g: int) -> nat {
        count_true(Seq::new(self.groups.len(), |a: int| reaches(self.parents, self.parents[g], a as usize)))
    }

    /// The variables of the groups that apply to host `h`, merged in order of depth
    /// and then of group number: every group of depth below `k`, then those of
    /// depth `k` numbered below `i`. Later groups win on equal keys.
    pub open spec fn layered(self, h: int, k: nat, i: nat) -> Map<Seq<char>, Seq<char>>
        decreases k, i,
    {
        if i == 0 {
            if k == 0 {
                Map::empty()
            } else {
                self.layered(h, (k - 1) as nat, self.groups.len())
            }
        } else {
            let prev = self.layered(h, k, (i - 1) as nat);
            let g = (i - 1) as int;
            if self.applies_to(h, g as usize) && self.depth(g) == k {
                prev.union_prefer_right(self.group_vars[g])
            } else {
                prev
            }
        }
    }

    /// The effective variables of host `h`: the groups that apply, parents before
    /// children, and the host's own variables last.
    pub open spec fn resolved(self, h: int) -> Map<Seq<char>, Seq<char>> {
        self.layered(h, (self.groups.len() + 1) as nat, 0).union_prefer_right(self.host_vars[h])
    }

    /// The inventory with the variables of group `g` replaced.
    pub open spec fn with_group_vars(self, g: int, v: Map<Seq<char>, Seq<char>>) -> InventoryModel {
        InventoryModel { group_vars: self.group_vars.update(g, v), ..self }
    }

    /// The inventory with the variables of host `h` replaced.
    pub open spec fn with_host_vars(self, h: int, v: Map<Seq<char>, Seq<char>>) -> InventoryModel {
        InventoryModel { host_vars: self.host_vars.update(h, v), ..self }
    }

    /// Host `h` belongs to group `g` or to a group below it.
    pub open spec fn in_tree(self, g: int, h: int) -> bool {
        exists|k: int|
            0 <= k < self.host_groups[h].len() && reaches(
                self.subgroups,
                seq![g as usize],
                #[trigger] self.host_groups[h][k],
            )
    }
}

pub proof fn lemma_index_of(s: Seq<Seq<char>>, i: int)
    requires
        names_unique(s),
        0 <= i < s.len(),
    ensures
        index_of(s, s[i]) == i,
{
    assert(0 <= i < s.len() && s[i] == s[i]);
}

pub proof fn lemma_initial_wf()
    ensures
        InventoryModel::initial().wf(),
{
    let m = InventoryModel::initial();
    assert forall|g: usize| g < m.groups.len() implies !#[trigger] reaches(m.parents, m.parents[g as int], g) by {
        assert(m.parents[g as int] == Seq::<usize>::empty());
        if reaches(m.parents, m.parents[g as int], g) {
            let k = choose|k: nat| reach_within(m.parents, m.parents[g as int], g, k);
            lemma_no_seeds(m.parents, g, k);
        }
    }
}

pub proof fn lemma_add_host_wf(m: InventoryModel, name: Seq<char>)
    requires
        m.wf(),
        !m.has_host(name),
    ensures
        m.add_host(name).wf(),
{
    let r = m.add_host(name);
    assert(r.host_groups[m.hosts.len() as int] =~= Seq::empty());
    assert forall|a: usize, b: usize|
        a < r.group_hosts.len() && b < r.host_groups.len() implies (#[trigger] r.group_hosts[a as int].contains(b)
        <==> #[trigger] r.host_groups[b as int].contains(a)) by {
        if b == m.hosts.len() {
            if r.group_hosts[a as int].contains(b) {
                let j = choose|j: int| 0 <= j < r.group_hosts[a as int].len() && r.group_hosts[a as int][j] == b;
                assert(m.group_hosts[a as int][j] < m.hosts.len());
            }
        }
    }
    assert forall|i: int, j: int| 0 <= i < r.hosts.len() && 0 <= j < r.hosts.len() && i != j implies r.hosts[i] != r.hosts[j] by {
        if i == m.hosts.len() {
            assert(m.hosts[j] == r.hosts[j]);
        }
        if j == m.hosts.len() {
            assert(m.hosts[i] == r.hosts[i]);
        }
    }
}

pub proof fn lemma_add_group_wf(m: InventoryModel, name: Seq<char>)
    requires
        m.wf(),
        !m.has_group(name),
        m.groups.len() < usize::MAX,
    ensures
        m.add_group(name).wf(),
{
    let r = m.add_group(name);
    let id = m.groups.len() as usize;
    assert(!m.subgroups[0].contains(id)) by {
        if m.subgroups[0].contains(id) {
            let j = choose|j: int| 0 <= j < m.subgroups[0].len() && m.subgroups[0][j] == id;
            assert(m.subgroups[0][j] < m.groups.len());
        }
    }
    assert forall|x: int| 0 <= x < r.subgroups.len() implies (#[trigger] r.subgroups[x]).no_duplicates() by {
        if x == 0 {
            assert(m.subgroups[0].no_duplicates());
        }
    }
    assert(r.parents[id as int] == seq![0usize]);
    assert(r.parents[id as int][0] == 0usize);
    assert forall|g: int| 1 <= g < r.groups.len() implies (#[trigger] r.parents[g]).contains(0) by {
        if g < id {
            assert(m.parents[g].contains(0));
        } else {
            assert(r.parents[g][0] == 0usize);
        }
    }
    assert forall|x: int, j: int| 0 <= x < r.subgroups.len() && 0 <= j < r.subgroups[x].len() implies (#[trigger] r.subgroups[x][j]) < r.groups.len() by {
        if x == 0 && j == m.subgroups[0].len() {
        } else {
            assert(r.subgroups[x][j] == m.subgroups[x][j]);
        }
    }
    assert forall|x: int, j: int| 0 <= x < r.parents.len() && 0 <= j < r.parents[x].len() implies (#[trigger] r.parents[x][j]) < r.groups.len() by {
        if x < id {
            assert(r.parents[x][j] == m.parents[x][j]);
        }
    }
    assert forall|a: usize, b: usize|
        a < r.subgroups.len() && b < r.parents.len() implies (#[trigger] r.subgroups[a as int].contains(b)
        <==> #[trigger] r.parents[b as int].contains(a)) by {
        if a == 0 {
            seq_push_contains(m.subgroups[0], id, b);
        }
        if a == id {
            assert(r.subgroups[a as int] =~= Seq::<usize>::empty());
            if r.parents[b as int].contains(a) {
                let j = choose|j: int| 0 <= j < r.parents[b as int].len() && r.parents[b as int][j] == a;
                if b < id {
                    assert(m.parents[b as int][j] < m.groups.len());
                } else {
                    assert(r.parents[b as int][j] == 0usize);
                }
            }
        } else if b == id {
            if r.parents[b as int].contains(a) {
                let j = choose|j: int| 0 <= j < r.parents[b as int].len() && r.parents[b as int][j] == a;
                assert(r.parents[b as int][j] == 0usize);
            }
            if a != 0 && r.subgroups[a as int].contains(b) {
                let j = choose|j: int| 0 <= j < r.subgroups[a as int].len() && r.subgroups[a as int][j] == b;
                assert(m.subgroups[a as int][j] < m.groups.len());
            }
        } else {
            assert(r.parents[b as int] == m.parents[b as int]);
        }
    }
    assert forall|x: int, j: int| 0 <= x < r.group_hosts.len() && 0 <= j < r.group_hosts[x].len() implies (#[trigger] r.group_hosts[x][j]) < r.hosts.len() by {
        assert(x < m.group_hosts.len());
    }
    assert forall|a: usize, b: usize|
        a < r.group_hosts.len() && b < r.host_groups.len() implies (#[trigger] r.group_hosts[a as int].contains(b)
        <==> #[trigger] r.host_groups[b as int].contains(a)) by {
        if a == id {
            assert(r.group_hosts[a as int] =~= Seq::empty());
            if r.host_groups[b as int].contains(a) {
                let j = choose|j: int| 0 <= j < r.host_groups[b as int].len() && r.host_groups[b as int][j] == a;
                assert(m.host_groups[b as int][j] < m.groups.len());
            }
        }
    }
    assert forall|i: int, j: int| 0 <= i < r.groups.len() && 0 <= j < r.groups.len() && i != j implies r.groups[i] != r.groups[j] by {
        if i == id {
            assert(m.groups[j] == r.groups[j]);
        }
        if j == id {
            assert(m.groups[i] == r.groups[i]);
        }
    }
    assert(r.parents == m.parents.push(seq![0usize]));
    assert forall|g: usize| g < r.groups.len() implies !#[trigger] reaches(r.parents, r.parents[g as int], g) by {
        if reaches(r.parents, r.parents[g as int], g) {
            let k = choose|k: nat| reach_within(r.parents, r.parents[g as int], g, k);
            if g < id {
                assert forall|i: int| 0 <= i < m.parents[g as int].len() implies #[trigger] m.parents[g as int][i] < m.parents.len() by {
                }
                lemma_reach_new_node(m.parents, seq![0usize], m.parents[g as int], g, k);
            } else {
                assert forall|i: int| 0 <= i < seq![0usize].len() implies #[trigger] seq![0usize][i] < m.parents.len() by {
                }
                lemma_reach_new_node(m.parents, seq![0usize], seq![0usize], g, k);
            }
        }
    }
}

pub proof fn lemma_link_host_wf(m: InventoryModel, g: usize, h: usize)
    requires
        m.wf(),
        g < m.groups.len(),
        h < m.hosts.len(),
    ensures
        m.link_host(g, h).wf(),
        m.link_host(g, h).group_hosts[g as int].contains(h),
{
    if !m.group_hosts[g as int].contains(h) {
        let r = m.link_host(g, h);
        assert(!m.host_groups[h as int].contains(g));
        assert(r.group_hosts[g as int].last() == h);
        assert forall|x: int| 0 <= x < r.group_hosts.len() implies (#[trigger] r.group_hosts[x]).no_duplicates() by {
            assert(m.group_hosts[x].no_duplicates());
        }
        assert forall|x: int| 0 <= x < r.host_groups.len() implies (#[trigger] r.host_groups[x]).no_duplicates() by {
            assert(m.host_groups[x].no_duplicates());
        }
        assert forall|x: int, j: int| 0 <= x < r.group_hosts.len() && 0 <= j < r.group_hosts[x].len() implies (#[trigger] r.group_hosts[x][j]) < r.hosts.len() by {
            if x == g && j == m.group_hosts[x].len() {
            } else {
                assert(r.group_hosts[x][j] == m.group_hosts[x][j]);
            }
        }
        assert forall|x: int, j: int| 0 <= x < r.host_groups.len() && 0 <= j < r.host_groups[x].len() implies (#[trigger] r.host_groups[x][j]) < r.groups.len() by {
            if x == h && j == m.host_groups[x].len() {
            } else {
                assert(r.host_groups[x][j] == m.host_groups[x][j]);
            }
        }
        assert forall|a: usize, b: usize|
            a < r.group_hosts.len() && b < r.host_groups.len() implies (#[trigger] r.group_hosts[a as int].contains(b)
            <==> #[trigger] r.host_groups[b as int].contains(a)) by {
            seq_push_contains(m.group_hosts[a as int], h, b);
            seq_push_contains(m.host_groups[b as int], g, a);
        }
    }
}

pub proof fn lemma_link_subgroup_wf(m: InventoryModel, p: usize, c: usize)
    requires
        m.wf(),
        p < m.groups.len(),
        c < m.groups.len(),
        !reaches(m.parents, seq![p], c),
    ensures
        m.link_subgroup(p, c).wf(),
        m.link_subgroup(p, c).subgroups[p as int].contains(c),
{
    if !m.subgroups[p as int].contains(c) {
        let r = m.link_subgroup(p, c);
        assert(!m.parents[c as int].contains(p));
        assert(r.subgroups[p as int].last() == c);
        assert forall|x: int| 0 <= x < r.subgroups.len() implies (#[trigger] r.subgroups[x]).no_duplicates() by {
            assert(m.subgroups[x].no_duplicates());
        }
        assert forall|x: int| 0 <= x < r.parents.len() implies (#[trigger] r.parents[x]).no_duplicates() by {
            assert(m.parents[x].no_duplicates());
        }
        assert forall|x: int, j: int| 0 <= x < r.subgroups.len() && 0 <= j < r.subgroups[x].len() implies (#[trigger] r.subgroups[x][j]) < r.groups.len() by {
            if x == p && j == m.subgroups[x].len() {
            } else {
                assert(r.subgroups[x][j] == m.subgroups[x][j]);
            }
        }
        assert forall|x: int, j: int| 0 <= x < r.parents.len() && 0 <= j < r.parents[x].len() implies (#[trigger] r.parents[x][j]) < r.groups.len() by {
            if x == c && j == m.parents[x].len() {
            } else {
                assert(r.parents[x][j] == m.parents[x][j]);
            }
        }
        assert forall|g: int| 1 <= g < r.groups.len() implies (#[trigger] r.parents[g]).contains(0) by {
            assert(m.parents[g].contains(0));
            seq_push_contains(m.parents[g], p, 0);
        }
        assert forall|a: usize, b: usize|
            a < r.subgroups.len() && b < r.parents.len() implies (#[trigger] r.subgroups[a as int].contains(b)
            <==> #[trigger] r.parents[b as int].contains(a)) by {
            seq_push_contains(m.subgroups[a as int], c, b);
            seq_push_contains(m.parents[b as int], p, a);
        }
        assert(adj_wf(m.parents));
        assert forall|g: usize| g < r.groups.len() implies !#[trigger] reaches(r.parents, r.parents[g as int], g) by {
            if reaches(r.parents, r.parents[g as int], g) {
                let k = choose|k: nat| reach_within(r.parents, r.parents[g as int], g, k);
                lemma_reach_new_edge(m.parents, c, p, r.parents[g as int], g, k);
                if g == c {
                    assert(reaches(m.parents, m.parents[c as int].push(p), c));
                    let k2 = choose|k2: nat| reach_within(m.parents, m.parents[c as int].push(p), c, k2);
                    lemma_reach_split(m.parents, m.parents[c as int], p, c, k2);
                } else {
                    assert(r.parents[g as int] == m.parents[g as int]);
                    assert(!reaches(m.parents, m.parents[g as int], g));
                    let k3 = choose|k3: nat| reach_within(m.parents, m.parents[g as int], c, k3);
                    lemma_reach_trans(m.parents, seq![p], g, c, k3);
                }
            }
        }
    }
}

pub proof fn seq_push_contains(s: Seq<usize>, x: usize, y: usize)
    ensures
        s.push(x).contains(y) <==> (s.contains(y) || x == y),
{
    if s.contains(y) {
        let j = choose|j: int| 0 <= j < s.len() && s[j] == y;
        assert(s.push(x)[j] == y);
    }
    if x == y {
        assert(s.push(x)[s.len() as int] == y);
    }
    if s.push(x).contains(y) {
        let j = choose|j: int| 0 <= j < s.push(x).len() && s.push(x)[j] == y;
        if j < s.len() {
            assert(s[j] == y);
        }
    }
}

proof fn lemma_ensure_group(m: InventoryModel, name: Seq<char>)
    requires
        m.wf(),
        m.groups.len() < usize::MAX,
    ensures
        m.ensure_group(name).wf(),
        m.ensure_group(name).has_group(name),
        0 <= m.ensure_group(name).group_id(name) < m.ensure_group(name).groups.len(),
        m.ensure_group(name).groups[m.ensure_group(name).group_id(name)] == name,
        m.ensure_group(name).groups.len() <= m.groups.len() + 1,
        m.ensure_group(name).hosts == m.hosts,
{
    let r = m.ensure_group(name);
    if !m.has_group(name) {
        lemma_add_group_wf(m, name);
        assert(r.groups[m.groups.len() as int] == name);
    }
}

proof fn lemma_ensure_host(m: InventoryModel, name: Seq<char>)
    requires
        m.wf(),
    ensures
        m.ensure_host(name).wf(),
        m.ensure_host(name).has_host(name),
        0 <= m.ensure_host(name).host_id(name) < m.ensure_host(name).hosts.len(),
        m.ensure_host(name).hosts[m.ensure_host(name).host_id(name)] == name,
        m.ensure_host(name).groups == m.groups,
{
    let r = m.ensure_host(name);
    if !m.has_host(name) {
        lemma_add_host_wf(m, name);
        assert(r.hosts[m.hosts.len() as int] == name);
    }
}

/// Every group but `all` lies below `all`: `all` is among its ancestors, and it is
/// reached from `all` through subgroups.
pub proof fn lemma_all_is_root(m: InventoryModel, g: usize)
    requires
        m.wf(),
        0 < g < m.groups.len(),
    ensures
        m.groups[0] == all_name(),
        reaches(m.parents, m.parents[g as int], 0),
        reaches(m.subgroups, seq![0usize], g),
{
    assert(m.parents[g as int].contains(0));
    let j = choose|j: int| 0 <= j < m.parents[g as int].len() && m.parents[g as int][j] == 0;
    assert(reach_within(m.parents, m.parents[g as int], 0, 0));
    assert(m.subgroups[0].contains(g));
    assert(seq![0usize][0] == 0usize);
    assert(reach_within(m.subgroups, seq![0usize], 0, 0));
    assert(reach_within(m.subgroups, seq![0usize], g, 1));
}

/// After `host` is assigned to `group`, the direct members of `group` include
/// `host`; assigning it again leaves the inventory as it is.
pub proof fn lemma_assign_then_list(m: InventoryModel, group: Seq<char>, host: Seq<char>)
    requires
        m.wf(),
        m.groups.len() < usize::MAX,
        m.hosts.len() < usize::MAX,
    ensures
        m.assign_host(group, host).wf(),
        m.assign_host(group, host).has_group(group),
        m.assign_host(group, host).direct_hosts(m.assign_host(group, host).group_id(group)).contains(host),
        m.assign_host(group, host).assign_host(group, host) == m.assign_host(group, host),
{
    let m1 = m.ensure_group(group);
    lemma_ensure_group(m, group);
    let m2 = m1.ensure_host(host);
    lemma_ensure_host(m1, group);
    lemma_ensure_host(m1, host);
    let g = m2.group_id(group);
    let h = m2.host_id(host);
    assert(m1.groups[m1.group_id(group)] == group);
    assert(m2.groups == m1.groups);
    lemma_link_host_wf(m2, g as usize, h as usize);
    let r = m2.link_host(g as usize, h as usize);
    assert(r.groups == m2.groups);
    assert(r.hosts == m2.hosts);
    assert(r.has_group(group));
    assert(r.group_id(group) == g);
    let j = choose|j: int| 0 <= j < r.group_hosts[g].len() && r.group_hosts[g][j] == h as usize;
    assert(r.hosts[h] == host);
    assert(r.direct_hosts(g)[j] == r.hosts[r.group_hosts[g][j] as int]);
    assert(r.direct_hosts(g)[j] == host);
    assert(r.ensure_group(group) == r);
    assert(r.has_host(host));
    assert(r.ensure_group(group).ensure_host(host) == r);
    assert(r.host_id(host) == h);
}

/// A variable of the host itself is always the one that resolution returns,
/// however deep the groups that also set it.
pub proof fn lemma_host_vars_win(m: InventoryModel, h: int, key: Seq<char>)
    requires
        0 <= h < m.hosts.len(),
        m.host_vars[h].contains_key(key),
    ensures
        m.resolved(h).contains_key(key),
        m.resolved(h)[key] == m.host_vars[h][key],
{
}

/// Assigning a host adds at most one group.
pub proof fn lemma_assign_grows(m: InventoryModel, g: Seq<char>, h: Seq<char>)
    ensures
        m.assign_host(g, h).groups.len() <= m.groups.len() + 1,
{
}

/// Making a subgroup adds at most two groups.
pub proof fn lemma_subgroup_grows(m: InventoryModel, p: Seq<char>, c: Seq<char>)
    ensures
        m.assign_subgroup(p, c).groups.len() <= m.groups.len() + 2,
{
}

/// A proper ancestor has a smaller depth than its descendant, so resolution
/// merges the variables of a parent before those of its children, and a child's
/// value wins over its parent's.
pub proof fn lemma_ancestor_is_shallower(m: InventoryModel, a: usize, b: usize)
    requires
        m.wf(),
        m.groups.len() < usize::MAX,
        a < m.groups.len(),
        b < m.groups.len(),
        reaches(m.parents, m.parents[b as int], a),
    ensures
        m.depth(a as int) < m.depth(b as int),
{
    let n = m.groups.len();
    let sa = Seq::new(n, |x: int| reaches(m.parents, m.parents[a as int], x as usize));
    let sb = Seq::new(n, |x: int| reaches(m.parents, m.parents[b as int], x as usize));
    assert(adj_wf(m.parents));
    assert forall|i: int| 0 <= i < n && sa[i] implies sb[i] by {
        let x = i as usize;
        assert(reaches(m.parents, m.parents[a as int], x));
        let k = choose|k: nat| reach_within(m.parents, m.parents[a as int], x, k);
        lemma_reach_trans(m.parents, m.parents[b as int], a, x, k);
    }
    assert(!reaches(m.parents, m.parents[a as int], a));
    lemma_count_true_strict(sa, sb, a as int);
}

} // verus!
