use vstd::prelude::*;

use crate::inventory::{names_view, InventoryError, InventoryStore};
use crate::model::InventoryModel;
use crate::vars::Variables;

verus! {

/// Why loading an inventory stopped.
#[derive(Debug)]
pub enum LoadError {
    /// A path that is neither an inventory tree nor an executable.
    NotExecutable { path: String },
    /// A file whose document could not be read; `message` says why.
    Parse { path: String, message: String },
    /// A file whose content the inventory refused.
    Inventory { path: String, error: InventoryError },
}

/// How an inventory source is read.
#[derive(PartialEq, Eq, Structural, Clone, Copy, Debug)]
pub enum SourceKind {
    /// A directory with a `groups` subdirectory.
    Classic,
    /// A program whose output describes the inventory.
    Dynamic,
}

/// Decides how to read a source from what the filesystem says of it: a directory
/// holding `groups` is a classic tree, else it must be executable.
pub fn classify_source(path: String, is_dir: bool, has_groups_dir: bool, is_executable: bool) -> (r: Result<SourceKind, LoadError>)
    ensures
        is_dir && has_groups_dir ==> r == Ok::<SourceKind, LoadError>(SourceKind::Classic),
        !(is_dir && has_groups_dir) && is_executable ==> r == Ok::<SourceKind, LoadError>(SourceKind::Dynamic),
        !(is_dir && has_groups_dir) && !is_executable ==> match r {
            Err(LoadError::NotExecutable { path: p }) => p@ == path@,
            _ => false,
        },
{
    if is_dir && has_groups_dir {
        Ok(SourceKind::Classic)
    } else if is_executable {
        Ok(SourceKind::Dynamic)
    } else {
        Err(LoadError::NotExecutable { path })
    }
}

/// The content of a group file: its member hosts and its subgroups.
pub struct GroupDocument {
    pub hosts: Vec<String>,
    pub subgroups: Vec<String>,
}

/// The inventory after assigning each of `hosts` to group `g`, in order.
pub open spec fn assign_hosts(m: InventoryModel, g: Seq<char>, hosts: Seq<Seq<char>>) -> InventoryModel
    decreases hosts.len(),
{
    if hosts.len() == 0 {
        m
    } else {
        assign_hosts(m, g, hosts.drop_last()).assign_host(g, hosts.last())
    }
}

/// The inventory after making each of `subs` a subgroup of `g`, in order, and
/// whether every edge was made. The first subgroup that would close a cycle stops
/// the run: both of its groups exist, the edge is not made, and later subgroups
/// are not looked at.
pub open spec fn assign_subgroups(m: InventoryModel, g: Seq<char>, subs: Seq<Seq<char>>) -> (InventoryModel, bool)
    decreases subs.len(),
{
    if subs.len() == 0 {
        (m, true)
    } else {
        let (m1, ok) = assign_subgroups(m, g, subs.drop_last());
        if !ok {
            (m1, false)
        } else if m1.would_cycle(g, subs.last()) {
            (m1.ensure_group(g).ensure_group(subs.last()), false)
        } else {
            (m1.assign_subgroup(g, subs.last()), true)
        }
    }
}

/// Adds what a group file declares: first its hosts, then its subgroups, each
/// created where missing. A subgroup that would close a cycle stops the file;
/// what came before it stays.
pub fn add_group_document(store: &mut InventoryStore, group: &String, doc: &GroupDocument) -> (r: Result<(), InventoryError>)
    requires
        old(store).wf(),
        old(store)@.groups.len() + doc.hosts@.len() + 2 * doc.subgroups@.len() + 2 < usize::MAX,
    ensures
        final(store).wf(),
        ({
            let after_hosts = assign_hosts(old(store)@, group@, names_view(&doc.hosts));
            let (reached, ok) = assign_subgroups(after_hosts, group@, names_view(&doc.subgroups));
            &&& r is Ok <==> ok
            &&& final(store)@ == reached
            &&& match r {
                Err(InventoryError::WouldCycle { parent: p, child: _ }) => p@ == group@,
                Err(_) => false,
                Ok(_) => true,
            }
        }),
{
    let ghost start = store@;
    let mut i: usize = 0;
    while i < doc.hosts.len()
        invariant
            store.wf(),
            start == old(store)@,
            i <= doc.hosts@.len(),
            store@ == assign_hosts(start, group@, names_view(&doc.hosts).subrange(0, i as int)),
            store@.groups.len() <= start.groups.len() + i,
            start.groups.len() + doc.hosts@.len() + 2 * doc.subgroups@.len() + 2 < usize::MAX,
        decreases doc.hosts@.len() - i,
    {
        proof {
            assert(names_view(&doc.hosts).subrange(0, i + 1).drop_last() =~= names_view(&doc.hosts).subrange(0, i as int));
            crate::model::lemma_assign_grows(store@, group@, doc.hosts@[i as int]@);
        }
        store.assign_host_to_group(group.clone(), doc.hosts[i].clone());
        i = i + 1;
    }
    assert(names_view(&doc.hosts).subrange(0, i as int) =~= names_view(&doc.hosts));
    let ghost after_hosts = store@;
    let mut j: usize = 0;
    assert(names_view(&doc.subgroups).subrange(0, 0) =~= Seq::<Seq<char>>::empty());
    while j < doc.subgroups.len()
        invariant
            store.wf(),
            start == old(store)@,
            j <= doc.subgroups@.len(),
            after_hosts == assign_hosts(start, group@, names_view(&doc.hosts)),
            assign_subgroups(after_hosts, group@, names_view(&doc.subgroups).subrange(0, j as int)) == (store@, true),
            store@.groups.len() <= start.groups.len() + doc.hosts@.len() + 2 * j,
            start.groups.len() + doc.hosts@.len() + 2 * doc.subgroups@.len() + 2 < usize::MAX,
        decreases doc.subgroups@.len() - j,
    {
        proof {
            assert(names_view(&doc.subgroups).subrange(0, j + 1).drop_last() =~= names_view(&doc.subgroups).subrange(0, j as int));
            crate::model::lemma_subgroup_grows(store@, group@, doc.subgroups@[j as int]@);
        }
        let ghost before = store@;
        match store.assign_subgroup(group.clone(), doc.subgroups[j].clone()) {
            Ok(()) => {},
            Err(e) => {
                proof {
                    let pre = names_view(&doc.subgroups).subrange(0, j + 1);
                    assert(pre.last() == doc.subgroups@[j as int]@);
                    assert(before.would_cycle(group@, doc.subgroups@[j as int]@));
                    assert(assign_subgroups(after_hosts, group@, pre.drop_last()) == (before, true));
                    assert(assign_subgroups(after_hosts, group@, pre) == (store@, false));
                    lemma_stop_stays(after_hosts, group@, names_view(&doc.subgroups), j + 1);
                    assert(names_view(&doc.subgroups).subrange(0, doc.subgroups@.len() as int) =~= names_view(&doc.subgroups));
                }
                return Err(e);
            },
        }
        j = j + 1;
    }
    assert(names_view(&doc.subgroups).subrange(0, j as int) =~= names_view(&doc.subgroups));
    Ok(())
}

proof fn lemma_stop_stays(m: InventoryModel, g: Seq<char>, subs: Seq<Seq<char>>, k: int)
    requires
        0 <= k <= subs.len(),
        !assign_subgroups(m, g, subs.subrange(0, k)).1,
    ensures
        assign_subgroups(m, g, subs.subrange(0, subs.len() as int)) == assign_subgroups(m, g, subs.subrange(0, k)),
    decreases subs.len() - k,
{
    if k < subs.len() {
        assert(subs.subrange(0, k + 1).drop_last() =~= subs.subrange(0, k));
        lemma_stop_stays(m, g, subs, k + 1);
    }
}

/// Stores the variables of a group file. A file for a group that no group file
/// declared is skipped; the result says whether it was stored.
pub fn add_group_vars(store: &mut InventoryStore, group: &String, vars: Variables) -> (r: bool)
    requires
        old(store).wf(),
        vars.wf(),
    ensures
        final(store).wf(),
        r == old(store)@.has_group(group@),
        r ==> final(store)@ == old(store)@.with_group_vars(old(store)@.group_id(group@), vars@),
        !r ==> final(store)@ == old(store)@,
{
    store.set_group_variables(group, vars).is_ok()
}

/// Stores the variables of a host file. A file for a host that no group file
/// declared is skipped; the result says whether it was stored.
pub fn add_host_vars(store: &mut InventoryStore, host: &String, vars: Variables) -> (r: bool)
    requires
        old(store).wf(),
        vars.wf(),
    ensures
        final(store).wf(),
        r == old(store)@.has_host(host@),
        r ==> final(store)@ == old(store)@.with_host_vars(old(store)@.host_id(host@), vars@),
        !r ==> final(store)@ == old(store)@,
{
    store.set_host_variables(host, vars).is_ok()
}

} // verus!
