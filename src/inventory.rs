use vstd::prelude::*;

use crate::graph::{adj_view, closure, count_marked, reaches};
use crate::model::{
    all_name, lemma_add_group_wf, lemma_add_host_wf, lemma_index_of, lemma_initial_wf,
    lemma_link_host_wf, lemma_link_subgroup_wf, InventoryModel,
};
use crate::vars::Variables;

verus! {

/// Why an inventory operation was refused.
#[derive(Debug)]
pub enum InventoryError {
    HostExists(String),
    GroupExists(String),
    NoSuchHost(String),
    NoSuchGroup(String),
    WouldCycle { parent: String, child: String },
}

/// The host/group graph with the variables of each entity.
///
/// Every relation is stored on both sides and both sides change together.
pub struct InventoryStore {
    group_names: Vec<String>,
    subgroups: Vec<Vec<usize>>,
    parents: Vec<Vec<usize>>,
    group_hosts: Vec<Vec<usize>>,
    group_vars: Vec<Variables>,
    host_names: Vec<String>,
    host_groups: Vec<Vec<usize>>,
    host_vars: Vec<Variables>,
}

pub open spec fn names_view(v: &Vec<String>) -> Seq<Seq<char>> {
    v@.map_values(|s: String| s@)
}

pub open spec fn vars_view(v: &Vec<Variables>) -> Seq<Map<Seq<char>, Seq<char>>> {
    v@.map_values(|d: Variables| d@)
}

fn push_at(adj: &mut Vec<Vec<usize>>, i: usize, x: usize)
    requires
        i < old(adj)@.len(),
    ensures
        adj_view(final(adj)) == adj_view(old(adj)).update(i as int, adj_view(old(adj))[i as int].push(x)),
{
    let mut inner = adj[i].clone();
    assert(inner@ =~= adj[i as int]@);
    inner.push(x);
    let ghost before = adj_view(adj);
    adj.set(i, inner);
    assert(adj_view(adj) =~= before.update(i as int, before[i as int].push(x)));
}

fn find_name(names: &Vec<String>, name: &String) -> (r: Option<usize>)
    requires
        crate::model::names_unique(names_view(names)),
    ensures
        match r {
            Some(i) => i < names@.len() && names_view(names)[i as int] == name@
                && crate::model::index_of(names_view(names), name@) == i,
            None => !names_view(names).contains(name@),
        },
{
    let mut i: usize = 0;
    while i < names.len()
        invariant
            i <= names@.len(),
            crate::model::names_unique(names_view(names)),
            forall|j: int| 0 <= j < i ==> names_view(names)[j] != name@,
        decreases names@.len() - i,
    {
        if names[i].eq(name) {
            proof {
                lemma_index_of(names_view(names), i as int);
            }
            return Some(i);
        }
        i = i + 1;
    }
    None
}

impl View for InventoryStore {
    type V = InventoryModel;

    closed spec fn view(&self) -> InventoryModel {
        InventoryModel {
            groups: names_view(&self.group_names),
            subgroups: adj_view(&self.subgroups),
            parents: adj_view(&self.parents),
            group_hosts: adj_view(&self.group_hosts),
            group_vars: vars_view(&self.group_vars),
            hosts: names_view(&self.host_names),
            host_groups: adj_view(&self.host_groups),
            host_vars: vars_view(&self.host_vars),
        }
    }
}

impl InventoryStore {
    /// The store's invariant: that of its model, and well-formed variable documents.
    pub closed spec fn wf(&self) -> bool {
        &&& self@.wf()
        &&& forall|i: int| 0 <= i < self.group_vars@.len() ==> (#[trigger] self.group_vars@[i]).wf()
        &&& forall|i: int| 0 <= i < self.host_vars@.len() ==> (#[trigger] self.host_vars@[i]).wf()
    }

    /// A well-formed store has a well-formed model: the laws stated over
    /// `InventoryModel` hold of every store that the operations here produce.
    pub proof fn lemma_model_wf(&self)
        requires
            self.wf(),
        ensures
            self@.wf(),
    {
    }

    /// An inventory that holds only the root group `all`.
    pub fn new() -> (r: InventoryStore)
        ensures
            r.wf(),
            r@ == InventoryModel::initial(),
    {
        let mut group_names: Vec<String> = Vec::new();
        let root = "all".to_owned();
        proof {
            reveal_strlit("all");
            assert(root@ =~= all_name());
        }
        group_names.push(root);
        let mut subgroups: Vec<Vec<usize>> = Vec::new();
        subgroups.push(Vec::new());
        let mut parents: Vec<Vec<usize>> = Vec::new();
        parents.push(Vec::new());
        let mut group_hosts: Vec<Vec<usize>> = Vec::new();
        group_hosts.push(Vec::new());
        let mut group_vars: Vec<Variables> = Vec::new();
        group_vars.push(Variables::new());
        let r = InventoryStore {
            group_names,
            subgroups,
            parents,
            group_hosts,
            group_vars,
            host_names: Vec::new(),
            host_groups: Vec::new(),
            host_vars: Vec::new(),
        };
        proof {
            reveal_strlit("all");
            lemma_initial_wf();
            assert(r@.groups =~= InventoryModel::initial().groups);
            assert(r@.subgroups =~= InventoryModel::initial().subgroups);
            assert(r@.parents =~= InventoryModel::initial().parents);
            assert(r@.group_hosts =~= InventoryModel::initial().group_hosts);
            assert(r@.group_vars =~= InventoryModel::initial().group_vars);
            assert(r@.hosts =~= InventoryModel::initial().hosts);
            assert(r@.host_groups =~= InventoryModel::initial().host_groups);
            assert(r@.host_vars =~= InventoryModel::initial().host_vars);
        }
        r
    }

    /// The number of groups, `all` included.
    pub fn group_count(&self) -> (r: usize)
        ensures
            r == self@.groups.len(),
    {
        self.group_names.len()
    }

    /// The number of hosts.
    pub fn host_count(&self) -> (r: usize)
        ensures
            r == self@.hosts.len(),
    {
        self.host_names.len()
    }

    /// Whether a host of this name exists.
    pub fn host_exists(&self, name: &String) -> (r: bool)
        requires
            self.wf(),
        ensures
            r == self@.has_host(name@),
    {
        find_name(&self.host_names, name).is_some()
    }

    /// Whether a group of this name exists.
    pub fn group_exists(&self, name: &String) -> (r: bool)
        requires
            self.wf(),
        ensures
            r == self@.has_group(name@),
    {
        find_name(&self.group_names, name).is_some()
    }

    fn add_host(&mut self, name: String) -> (id: usize)
        requires
            old(self).wf(),
            !old(self)@.has_host(name@),
        ensures
            final(self).wf(),
            final(self)@ == old(self)@.add_host(name@),
            id == old(self)@.hosts.len(),
    {
        let ghost m = self@;
        proof {
            lemma_add_host_wf(m, name@);
        }
        let id = self.host_names.len();
        self.host_names.push(name);
        self.host_groups.push(Vec::new());
        self.host_vars.push(Variables::new());
        proof {
            let t = m.add_host(name@);
            assert(self@.hosts =~= t.hosts);
            assert(self@.host_groups =~= t.host_groups);
            assert(self@.host_vars =~= t.host_vars);
        }
        id
    }

    fn add_group(&mut self, name: String) -> (id: usize)
        requires
            old(self).wf(),
            !old(self)@.has_group(name@),
            old(self)@.groups.len() < usize::MAX,
        ensures
            final(self).wf(),
            final(self)@ == old(self)@.add_group(name@),
            id == old(self)@.groups.len(),
    {
        let ghost m = self@;
        proof {
            lemma_add_group_wf(m, name@);
        }
        let id = self.group_names.len();
        self.group_names.push(name);
        push_at(&mut self.subgroups, 0, id);
        self.subgroups.push(Vec::new());
        let mut up: Vec<usize> = Vec::new();
        up.push(0);
        self.parents.push(up);
        self.group_hosts.push(Vec::new());
        self.group_vars.push(Variables::new());
        proof {
            let t = m.add_group(name@);
            assert(self@.groups =~= t.groups);
            assert(self@.subgroups =~= t.subgroups);
            assert(self@.parents[id as int] =~= seq![0usize]);
            assert(self@.parents =~= t.parents);
            assert(self@.group_hosts =~= t.group_hosts);
            assert(self@.group_vars =~= t.group_vars);
        }
        id
    }

    /// Adds a host; refused, with nothing changed, where the name is taken.
    pub fn create_host(&mut self, name: String) -> (r: Result<(), InventoryError>)
        requires
            old(self).wf(),
            old(self)@.hosts.len() < usize::MAX,
        ensures
            final(self).wf(),
            r is Ok <==> !old(self)@.has_host(name@),
            r is Ok ==> final(self)@ == old(self)@.add_host(name@),
            r is Err ==> final(self)@ == old(self)@,
            match r {
                Err(InventoryError::HostExists(n)) => n@ == name@,
                Err(_) => false,
                Ok(_) => true,
            },
    {
        if self.host_exists(&name) {
            return Err(InventoryError::HostExists(name));
        }
        self.add_host(name);
        Ok(())
    }

    /// Adds a group under `all`; refused, with nothing changed, where the name is taken.
    pub fn create_group(&mut self, name: String) -> (r: Result<(), InventoryError>)
        requires
            old(self).wf(),
            old(self)@.groups.len() < usize::MAX,
        ensures
            final(self).wf(),
            r is Ok <==> !old(self)@.has_group(name@),
            r is Ok ==> final(self)@ == old(self)@.add_group(name@),
            r is Err ==> final(self)@ == old(self)@,
            match r {
                Err(InventoryError::GroupExists(n)) => n@ == name@,
                Err(_) => false,
                Ok(_) => true,
            },
    {
        if self.group_exists(&name) {
            return Err(InventoryError::GroupExists(name));
        }
        self.add_group(name);
        Ok(())
    }

    fn ensure_group(&mut self, name: &String) -> (id: usize)
        requires
            old(self).wf(),
            old(self)@.groups.len() < usize::MAX,
        ensures
            final(self).wf(),
            final(self)@ == old(self)@.ensure_group(name@),
            id < final(self)@.groups.len(),
            final(self)@.groups[id as int] == name@,
            id == final(self)@.group_id(name@),
    {
        match find_name(&self.group_names, name) {
            Some(i) => i,
            None => {
                let id = self.add_group(name.clone());
                proof {
                    lemma_index_of(self@.groups, id as int);
                }
                id
            },
        }
    }

    fn ensure_host(&mut self, name: &String) -> (id: usize)
        requires
            old(self).wf(),
        ensures
            final(self).wf(),
            final(self)@ == old(self)@.ensure_host(name@),
            id < final(self)@.hosts.len(),
            final(self)@.hosts[id as int] == name@,
            id == final(self)@.host_id(name@),
    {
        match find_name(&self.host_names, name) {
            Some(i) => i,
            None => {
                let id = self.add_host(name.clone());
                proof {
                    lemma_index_of(self@.hosts, id as int);
                }
                id
            },
        }
    }

    fn contains_id(v: &Vec<usize>, x: usize) -> (r: bool)
        ensures
            r == v@.contains(x),
    {
        let mut i: usize = 0;
        while i < v.len()
            invariant
                i <= v@.len(),
                forall|j: int| 0 <= j < i ==> v@[j] != x,
            decreases v@.len() - i,
        {
            if v[i] == x {
                return true;
            }
            i = i + 1;
        }
        false
    }

    /// Makes `host` a direct member of `group`, creating either where missing.
    /// Assigning a member again changes nothing.
    pub fn assign_host_to_group(&mut self, group: String, host: String)
        requires
            old(self).wf(),
            old(self)@.groups.len() < usize::MAX,
        ensures
            final(self).wf(),
            final(self)@ == old(self)@.assign_host(group@, host@),
    {
        let g = self.ensure_group(&group);
        let h = self.ensure_host(&host);
        let ghost m = self@;
        proof {
            lemma_link_host_wf(m, g, h);
        }
        if !Self::contains_id(&self.group_hosts[g], h) {
            push_at(&mut self.group_hosts, g, h);
            push_at(&mut self.host_groups, h, g);
        }
        proof {
            assert(self@ =~= m.link_host(g, h));
        }
    }

    /// Makes `child` a direct subgroup of `parent`, creating either where missing.
    /// The edge is refused where `child` is `parent` or one of its ancestors, as it
    /// would close a cycle; the groups created on the way stay.
    pub fn assign_subgroup(&mut self, parent: String, child: String) -> (r: Result<(), InventoryError>)
        requires
            old(self).wf(),
            old(self)@.groups.len() + 1 < usize::MAX,
        ensures
            final(self).wf(),
            r is Err <==> old(self)@.would_cycle(parent@, child@),
            r is Ok ==> final(self)@ == old(self)@.assign_subgroup(parent@, child@),
            r is Err ==> final(self)@ == old(self)@.ensure_group(parent@).ensure_group(child@),
            match r {
                Err(InventoryError::WouldCycle { parent: p, child: c }) => p@ == parent@ && c@ == child@,
                Err(_) => false,
                Ok(_) => true,
            },
    {
        let p = self.ensure_group(&parent);
        let c = self.ensure_group(&child);
        let ghost m = self@;
        proof {
            assert(m.groups[p as int] == parent@);
            lemma_index_of(m.groups, p as int);
        }
        let mut seeds: Vec<usize> = Vec::new();
        seeds.push(p);
        assert(seeds@ =~= seq![p]);
        let above = closure(&self.parents, &seeds);
        if above[c] {
            return Err(InventoryError::WouldCycle { parent, child });
        }
        proof {
            lemma_link_subgroup_wf(m, p, c);
        }
        if !Self::contains_id(&self.subgroups[p], c) {
            push_at(&mut self.subgroups, p, c);
            push_at(&mut self.parents, c, p);
        }
        proof {
            assert(self@ =~= m.link_subgroup(p, c));
        }
        Ok(())
    }

    /// Replaces the variables of `group` wholesale.
    pub fn set_group_variables(&mut self, group: &String, vars: Variables) -> (r: Result<(), InventoryError>)
        requires
            old(self).wf(),
            vars.wf(),
        ensures
            final(self).wf(),
            r is Ok <==> old(self)@.has_group(group@),
            r is Ok ==> final(self)@ == old(self)@.with_group_vars(old(self)@.group_id(group@), vars@),
            r is Err ==> final(self)@ == old(self)@,
            match r {
                Err(InventoryError::NoSuchGroup(n)) => n@ == group@,
                Err(_) => false,
                Ok(_) => true,
            },
    {
        match find_name(&self.group_names, group) {
            None => Err(InventoryError::NoSuchGroup(group.clone())),
            Some(g) => {
                let ghost m = self@;
                self.group_vars.set(g, vars);
                assert(vars_view(&self.group_vars) =~= m.group_vars.update(g as int, vars@));
                assert(self@ == m.with_group_vars(g as int, vars@));
                Ok(())
            },
        }
    }

    /// Replaces the variables of `host` wholesale.
    pub fn set_host_variables(&mut self, host: &String, vars: Variables) -> (r: Result<(), InventoryError>)
        requires
            old(self).wf(),
            vars.wf(),
        ensures
            final(self).wf(),
            r is Ok <==> old(self)@.has_host(host@),
            r is Ok ==> final(self)@ == old(self)@.with_host_vars(old(self)@.host_id(host@), vars@),
            r is Err ==> final(self)@ == old(self)@,
            match r {
                Err(InventoryError::NoSuchHost(n)) => n@ == host@,
                Err(_) => false,
                Ok(_) => true,
            },
    {
        match find_name(&self.host_names, host) {
            None => Err(InventoryError::NoSuchHost(host.clone())),
            Some(h) => {
                let ghost m = self@;
                self.host_vars.set(h, vars);
                assert(vars_view(&self.host_vars) =~= m.host_vars.update(h as int, vars@));
                assert(self@ == m.with_host_vars(h as int, vars@));
                Ok(())
            },
        }
    }

    fn any_marked(v: &Vec<usize>, mark: &Vec<bool>) -> (r: bool)
        requires
            forall|k: int| 0 <= k < v@.len() ==> #[trigger] v@[k] < mark@.len(),
        ensures
            r == exists|k: int| 0 <= k < v@.len() && #[trigger] mark@[v@[k] as int],
    {
        let mut i: usize = 0;
        while i < v.len()
            invariant
                i <= v@.len(),
                forall|k: int| 0 <= k < v@.len() ==> #[trigger] v@[k] < mark@.len(),
                forall|k: int| 0 <= k < i ==> !#[trigger] mark@[v@[k] as int],
            decreases v@.len() - i,
        {
            if mark[v[i]] {
                assert(mark@[v@[i as int] as int]);
                return true;
            }
            i = i + 1;
        }
        false
    }

    /// The hosts of `group`. Directly assigned members, in order of assignment; or,
    /// with `transitive`, every host of the group or of a group below it, each once.
    pub fn list_hosts_in_group(&self, group: &String, transitive: bool) -> (r: Result<Vec<String>, InventoryError>)
        requires
            self.wf(),
        ensures
            match r {
                Ok(v) => {
                    let m = self@;
                    let g = m.group_id(group@);
                    &&& m.has_group(group@)
                    &&& !transitive ==> names_view(&v) == m.direct_hosts(g)
                    &&& transitive ==> names_view(&v).no_duplicates()
                    &&& transitive ==> forall|name: Seq<char>|
                        names_view(&v).contains(name) <==> exists|h: int|
                            0 <= h < m.hosts.len() && m.hosts[h] == name && #[trigger] m.in_tree(g, h)
                },
                Err(InventoryError::NoSuchGroup(n)) => !self@.has_group(group@) && n@ == group@,
                Err(_) => false,
            },
    {
        let g = match find_name(&self.group_names, group) {
            None => {
                return Err(InventoryError::NoSuchGroup(group.clone()));
            },
            Some(g) => g,
        };
        let ghost m = self@;
        assert(m.groups[g as int] == group@);
        assert(m.has_group(group@));
        assert(g == m.group_id(group@));
        let mut out: Vec<String> = Vec::new();
        if !transitive {
            let members = &self.group_hosts[g];
            assert(members@ == m.group_hosts[g as int]);
            let mut i: usize = 0;
            while i < members.len()
                invariant
                    self.wf(),
                    m == self@,
                    g < m.groups.len(),
                    members@ == m.group_hosts[g as int],
                    i <= members@.len(),
                    names_view(&out) == m.direct_hosts(g as int).subrange(0, i as int),
                decreases members@.len() - i,
            {
                let h = members[i];
                assert(h < m.hosts.len());
                let name = self.host_names[h].clone();
                let ghost prev = names_view(&out);
                out.push(name);
                assert(names_view(&out) =~= prev.push(name@));
                assert(m.direct_hosts(g as int)[i as int] == name@);
                assert(m.direct_hosts(g as int).subrange(0, i + 1) =~= m.direct_hosts(g as int).subrange(
                    0,
                    i as int,
                ).push(name@));
                i = i + 1;
            }
            assert(m.direct_hosts(g as int).subrange(0, i as int) =~= m.direct_hosts(g as int));
            return Ok(out);
        }
        let mut seeds: Vec<usize> = Vec::new();
        seeds.push(g);
        assert(seeds@ =~= seq![g]);
        let below = closure(&self.subgroups, &seeds);
        let mut h: usize = 0;
        while h < self.host_names.len()
            invariant
                self.wf(),
                m == self@,
                g < m.groups.len(),
                seeds@ == seq![g],
                below@.len() == m.groups.len(),
                forall|b: usize| b < m.groups.len() ==> (below@[b as int] <==> reaches(m.subgroups, seq![g], b)),
                h <= m.hosts.len(),
                names_view(&out).no_duplicates(),
                forall|name: Seq<char>|
                    names_view(&out).contains(name) <==> exists|x: int|
                        0 <= x < h && m.hosts[x] == name && #[trigger] m.in_tree(g as int, x),
            decreases m.hosts.len() - h,
        {
            let hg = &self.host_groups[h];
            assert(hg@ == m.host_groups[h as int]);
            let hit = Self::any_marked(hg, &below);
            let ghost prev = names_view(&out);
            proof {
                assert(hit == m.in_tree(g as int, h as int)) by {
                    if hit {
                        let k = choose|k: int| 0 <= k < hg@.len() && #[trigger] below@[hg@[k] as int];
                        assert(hg@[k] < m.groups.len());
                        assert(reaches(m.subgroups, seq![g], m.host_groups[h as int][k]));
                    }
                    if m.in_tree(g as int, h as int) {
                        let k = choose|k: int|
                            0 <= k < m.host_groups[h as int].len() && reaches(
                                m.subgroups,
                                seq![g],
                                #[trigger] m.host_groups[h as int][k],
                            );
                        assert(hg@[k] < m.groups.len());
                        assert(below@[hg@[k] as int]);
                    }
                }
            }
            if hit {
                let name = self.host_names[h].clone();
                proof {
                    assert(!prev.contains(name@)) by {
                        if prev.contains(name@) {
                            let x = choose|x: int|
                                0 <= x < h && m.hosts[x] == name@ && #[trigger] m.in_tree(g as int, x);
                            assert(m.hosts[x] == m.hosts[h as int]);
                        }
                    }
                }
                out.push(name);
                proof {
                    assert(names_view(&out) =~= prev.push(name@));
                    assert forall|name2: Seq<char>|
                        names_view(&out).contains(name2) <==> exists|x: int|
                            0 <= x < h + 1 && m.hosts[x] == name2 && #[trigger] m.in_tree(g as int, x) by {
                        if names_view(&out).contains(name2) && name2 != name@ {
                            let j = choose|j: int| 0 <= j < names_view(&out).len() && names_view(&out)[j] == name2;
                            assert(j < prev.len());
                            assert(prev[j] == name2);
                            assert(prev.contains(name2));
                            let x = choose|x: int|
                                0 <= x < h && m.hosts[x] == name2 && #[trigger] m.in_tree(g as int, x);
                            assert(0 <= x < h + 1 && m.hosts[x] == name2 && m.in_tree(g as int, x));
                        }
                        if name2 == name@ {
                            assert(names_view(&out)[prev.len() as int] == name2);
                            assert(m.hosts[h as int] == name2 && m.in_tree(g as int, h as int));
                        }
                        if exists|x: int| 0 <= x < h + 1 && m.hosts[x] == name2 && #[trigger] m.in_tree(g as int, x) {
                            let x = choose|x: int| 0 <= x < h + 1 && m.hosts[x] == name2 && #[trigger] m.in_tree(g as int, x);
                            if x < h {
                                assert(prev.contains(name2));
                                let j = choose|j: int| 0 <= j < prev.len() && prev[j] == name2;
                                assert(names_view(&out)[j] == name2);
                            } else {
                                assert(names_view(&out)[prev.len() as int] == name2);
                            }
                        }
                    }
                }
            } else {
                proof {
                    assert forall|name2: Seq<char>|
                        names_view(&out).contains(name2) <==> exists|x: int|
                            0 <= x < h + 1 && m.hosts[x] == name2 && #[trigger] m.in_tree(g as int, x) by {
                        if exists|x: int| 0 <= x < h + 1 && m.hosts[x] == name2 && #[trigger] m.in_tree(g as int, x) {
                            let x = choose|x: int| 0 <= x < h + 1 && m.hosts[x] == name2 && #[trigger] m.in_tree(g as int, x);
                            assert(x < h);
                        }
                    }
                }
            }
            h = h + 1;
        }
        assert(h == m.hosts.len());
        Ok(out)
    }

    /// The effective variables of `host`: `all` first, then every group that the
    /// host belongs to directly or through subgroups, ancestors before descendants
    /// and otherwise by group number, and the host's own variables last. Each later
    /// document wins on equal keys. Nothing is changed.
    pub fn resolve_variables(&self, host: &String) -> (r: Result<Variables, InventoryError>)
        requires
            self.wf(),
        ensures
            match r {
                Ok(v) => self@.has_host(host@) && v.wf() && v@ == self@.resolved(self@.host_id(host@)),
                Err(InventoryError::NoSuchHost(n)) => !self@.has_host(host@) && n@ == host@,
                Err(_) => false,
            },
    {
        let h = match find_name(&self.host_names, host) {
            None => {
                return Err(InventoryError::NoSuchHost(host.clone()));
            },
            Some(h) => h,
        };
        let ghost m = self@;
        assert(m.hosts[h as int] == host@);
        assert(m.has_host(host@));
        assert(h == m.host_id(host@));
        let n = self.group_names.len();
        let hg = &self.host_groups[h];
        assert(hg@ == m.host_groups[h as int]);
        let mut seeds: Vec<usize> = Vec::new();
        seeds.push(0);
        let mut i: usize = 0;
        while i < hg.len()
            invariant
                m == self@,
                self.wf(),
                n == m.groups.len(),
                h < m.hosts.len(),
                hg@ == m.host_groups[h as int],
                i <= hg@.len(),
                seeds@ == seq![0usize] + hg@.subrange(0, i as int),
            decreases hg@.len() - i,
        {
            seeds.push(hg[i]);
            assert(seeds@ =~= seq![0usize] + hg@.subrange(0, i + 1));
            i = i + 1;
        }
        assert(hg@.subrange(0, i as int) =~= hg@);
        assert(seeds@ == m.lookup_seeds(h as int));
        let applies = closure(&self.parents, &seeds);
        let mut depths: Vec<usize> = Vec::new();
        let mut g: usize = 0;
        while g < n
            invariant
                m == self@,
                self.wf(),
                n == m.groups.len(),
                h < m.hosts.len(),
                applies@.len() == n,
                forall|b: usize| b < n ==> (applies@[b as int] <==> m.applies_to(h as int, b)),
                g <= n,
                depths@.len() == g,
                forall|b: int| 0 <= b < g && applies@[b] ==> depths@[b] == m.depth(b),
            decreases n - g,
        {
            if applies[g] {
                let up = &self.parents[g];
                assert(up@ == m.parents[g as int]);
                let anc = closure(&self.parents, up);
                assert(anc@ =~= Seq::new(n as nat, |a: int| reaches(m.parents, m.parents[g as int], a as usize)));
                depths.push(count_marked(&anc));
            } else {
                depths.push(0);
            }
            g = g + 1;
        }
        let mut acc = Variables::new();
        let mut k: usize = 0;
        loop
            invariant
                m == self@,
                self.wf(),
                n == m.groups.len(),
                h < m.hosts.len(),
                applies@.len() == n,
                forall|b: usize| b < n ==> (applies@[b as int] <==> m.applies_to(h as int, b)),
                depths@.len() == n,
                forall|b: int| 0 <= b < n && applies@[b] ==> depths@[b] == m.depth(b),
                k <= n,
                acc.wf(),
                acc@ == m.layered(h as int, k as nat, 0),
                h == m.host_id(host@),
                m.has_host(host@),
            decreases n - k,
        {
            let mut i: usize = 0;
            assert(m.layered(h as int, k as nat, 0) == m.layered(h as int, k as nat, 0));
            while i < n
                invariant
                    m == self@,
                    self.wf(),
                    n == m.groups.len(),
                    h < m.hosts.len(),
                    applies@.len() == n,
                    forall|b: usize| b < n ==> (applies@[b as int] <==> m.applies_to(h as int, b)),
                    depths@.len() == n,
                    forall|b: int| 0 <= b < n && applies@[b] ==> depths@[b] == m.depth(b),
                    k <= n,
                    i <= n,
                    acc.wf(),
                    acc@ == m.layered(h as int, k as nat, i as nat),
                    h == m.host_id(host@),
                    m.has_host(host@),
                m.has_host(host@),
                decreases n - i,
            {
                if applies[i] && depths[i] == k {
                    acc.merge_from(&self.group_vars[i]);
                }
                i = i + 1;
            }
            assert(m.layered(h as int, (k + 1) as nat, 0) == m.layered(h as int, k as nat, n as nat));
            if k == n {
                let own = &self.host_vars[h];
                assert(own@ == m.host_vars[h as int]);
                assert(acc@ == m.layered(h as int, (m.groups.len() + 1) as nat, 0));
                acc.merge_from(own);
                return Ok(acc);
            }
            k = k + 1;
        }
    }
}

} // verus!
