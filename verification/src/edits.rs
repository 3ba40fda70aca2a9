//! The structure of a plan as its edit commands see it: task ids, resource
//! ids, dependencies and assignments, with the checks each edit makes and
//! what it keeps of the rest.

use vstd::prelude::*;

use crate::error::CamshaftError;
use crate::graph::Dep;
use crate::kinds::{
    dependency_type_named, parse_dependency_type, parse_resource_type, resource_type_named,
    unknown_dependency_type, unknown_resource_type, DependencyType, ResourceType,
};
use crate::text::{contains_str, lowercase, string_views};

verus! {

/// A resource assignment: a resource put on a task.
#[derive(Debug, Clone)]
pub struct Assignment {
    pub activity: String,
    pub resource: String,
}

/// The ids and links of a plan, in the plan's order.
#[derive(Debug, Clone)]
pub struct PlanItems {
    pub activities: Vec<String>,
    pub resources: Vec<String>,
    pub deps: Vec<Dep>,
    pub assignments: Vec<Assignment>,
}

/// Whether dependency `d` has `id` at either end.
pub open spec fn touches(d: Dep, id: Seq<char>) -> bool {
    d.predecessor@ == id || d.successor@ == id
}

/// The dependencies of `ds` that do not touch `id`, in order.
pub open spec fn deps_without(ds: Seq<Dep>, id: Seq<char>) -> Seq<Dep>
    decreases ds.len(),
{
    if ds.len() == 0 {
        seq![]
    } else if touches(ds.last(), id) {
        deps_without(ds.drop_last(), id)
    } else {
        deps_without(ds.drop_last(), id).push(ds.last())
    }
}

/// Whether dependency `d` runs from `from` to `to`.
pub open spec fn is_link(d: Dep, from: Seq<char>, to: Seq<char>) -> bool {
    d.predecessor@ == from && d.successor@ == to
}

/// The dependencies of `ds` other than those from `from` to `to`, in order.
pub open spec fn deps_unlinked(ds: Seq<Dep>, from: Seq<char>, to: Seq<char>) -> Seq<Dep>
    decreases ds.len(),
{
    if ds.len() == 0 {
        seq![]
    } else if is_link(ds.last(), from, to) {
        deps_unlinked(ds.drop_last(), from, to)
    } else {
        deps_unlinked(ds.drop_last(), from, to).push(ds.last())
    }
}

/// The assignments of `asg` that are not on task `id`, in order.
pub open spec fn assignments_without(asg: Seq<Assignment>, id: Seq<char>) -> Seq<Assignment>
    decreases asg.len(),
{
    if asg.len() == 0 {
        seq![]
    } else if asg.last().activity@ == id {
        assignments_without(asg.drop_last(), id)
    } else {
        assignments_without(asg.drop_last(), id).push(asg.last())
    }
}

/// The ids of `ids` other than `id`, in order.
pub open spec fn ids_without(ids: Seq<Seq<char>>, id: Seq<char>) -> Seq<Seq<char>>
    decreases ids.len(),
{
    if ids.len() == 0 {
        seq![]
    } else if ids.last() == id {
        ids_without(ids.drop_last(), id)
    } else {
        ids_without(ids.drop_last(), id).push(ids.last())
    }
}

fn copy_dep(d: &Dep) -> (r: Dep)
    ensures
        r == *d,
{
    Dep { predecessor: d.predecessor.clone(), successor: d.successor.clone() }
}

fn copy_assignment(a: &Assignment) -> (r: Assignment)
    ensures
        r == *a,
{
    Assignment { activity: a.activity.clone(), resource: a.resource.clone() }
}

/// The dependencies of `ds` that do not touch `id`.
fn keep_deps_without(ds: &Vec<Dep>, id: &str) -> (r: Vec<Dep>)
    ensures
        r@ == deps_without(ds@, id@),
{
    let mut r: Vec<Dep> = Vec::new();
    let mut i: usize = 0;
    while i < ds.len()
        invariant
            i <= ds.len(),
            r@ == deps_without(ds@.subrange(0, i as int), id@),
        decreases ds.len() - i,
    {
        let ghost pre = ds@.subrange(0, i as int);
        assert(ds@.subrange(0, i + 1).drop_last() =~= pre);
        let d = &ds[i];
        let hit = crate::text::str_eq(d.predecessor.as_str(), id) || crate::text::str_eq(
            d.successor.as_str(),
            id,
        );
        if !hit {
            r.push(copy_dep(d));
        }
        i = i + 1;
    }
    assert(ds@.subrange(0, ds.len() as int) =~= ds@);
    r
}

/// The dependencies of `ds` other than those from `from` to `to`.
fn keep_deps_unlinked(ds: &Vec<Dep>, from: &str, to: &str) -> (r: Vec<Dep>)
    ensures
        r@ == deps_unlinked(ds@, from@, to@),
{
    let mut r: Vec<Dep> = Vec::new();
    let mut i: usize = 0;
    while i < ds.len()
        invariant
            i <= ds.len(),
            r@ == deps_unlinked(ds@.subrange(0, i as int), from@, to@),
        decreases ds.len() - i,
    {
        let ghost pre = ds@.subrange(0, i as int);
        assert(ds@.subrange(0, i + 1).drop_last() =~= pre);
        let d = &ds[i];
        let hit = crate::text::str_eq(d.predecessor.as_str(), from) && crate::text::str_eq(
            d.successor.as_str(),
            to,
        );
        if !hit {
            r.push(copy_dep(d));
        }
        i = i + 1;
    }
    assert(ds@.subrange(0, ds.len() as int) =~= ds@);
    r
}

/// The assignments of `asg` not on task `id`.
fn keep_assignments_without(asg: &Vec<Assignment>, id: &str) -> (r: Vec<Assignment>)
    ensures
        r@ == assignments_without(asg@, id@),
{
    let mut r: Vec<Assignment> = Vec::new();
    let mut i: usize = 0;
    while i < asg.len()
        invariant
            i <= asg.len(),
            r@ == assignments_without(asg@.subrange(0, i as int), id@),
        decreases asg.len() - i,
    {
        let ghost pre = asg@.subrange(0, i as int);
        assert(asg@.subrange(0, i + 1).drop_last() =~= pre);
        let a = &asg[i];
        if !crate::text::str_eq(a.activity.as_str(), id) {
            r.push(copy_assignment(a));
        }
        i = i + 1;
    }
    assert(asg@.subrange(0, asg.len() as int) =~= asg@);
    r
}

/// The ids of `ids` other than `id`.
fn keep_ids_without(ids: &Vec<String>, id: &str) -> (r: Vec<String>)
    ensures
        string_views(r@) == ids_without(string_views(ids@), id@),
{
    let mut r: Vec<String> = Vec::new();
    let mut i: usize = 0;
    while i < ids.len()
        invariant
            i <= ids.len(),
            string_views(r@) == ids_without(string_views(ids@.subrange(0, i as int)), id@),
        decreases ids.len() - i,
    {
        let ghost pre = ids@.subrange(0, i as int);
        assert(ids@.subrange(0, i + 1).drop_last() =~= pre);
        assert(string_views(ids@.subrange(0, i + 1)).drop_last() =~= string_views(pre));
        let x = &ids[i];
        if !crate::text::str_eq(x.as_str(), id) {
            let ghost before = r@;
            r.push(x.clone());
            assert(string_views(r@) =~= string_views(before).push(x@));
        }
        i = i + 1;
    }
    assert(ids@.subrange(0, ids.len() as int) =~= ids@);
    r
}

proof fn lemma_deps_without_untouched(ds: Seq<Dep>, id: Seq<char>)
    ensures
        forall|k: int| 0 <= k < deps_without(ds, id).len() ==> !touches(#[trigger] deps_without(ds, id)[k], id),
    decreases ds.len(),
{
    if ds.len() > 0 {
        let p = deps_without(ds.drop_last(), id);
        lemma_deps_without_untouched(ds.drop_last(), id);
        if !touches(ds.last(), id) {
            assert forall|k: int| 0 <= k < p.push(ds.last()).len() implies !touches(#[trigger] p.push(ds.last())[k], id) by {
                if k < p.len() {
                    assert(p.push(ds.last())[k] == p[k]);
                }
            }
        }
    }
}

proof fn lemma_deps_without_kept(ds: Seq<Dep>, id: Seq<char>)
    ensures
        forall|k: int| 0 <= k < ds.len() && !touches(#[trigger] ds[k], id) ==> deps_without(ds, id).contains(ds[k]),
    decreases ds.len(),
{
    if ds.len() > 0 {
        let p = ds.drop_last();
        lemma_deps_without_kept(p, id);
        assert forall|k: int| 0 <= k < ds.len() && !touches(#[trigger] ds[k], id) implies deps_without(ds, id).contains(ds[k]) by {
            if k < ds.len() - 1 {
                assert(p[k] == ds[k]);
                let j = choose|j: int| 0 <= j < deps_without(p, id).len() && deps_without(p, id)[j] == ds[k];
                if !touches(ds.last(), id) {
                    assert(deps_without(ds, id)[j] == ds[k]);
                }
            } else {
                assert(deps_without(ds, id).last() == ds[k]);
            }
        }
    }
}

proof fn lemma_assignments_without_untouched(asg: Seq<Assignment>, id: Seq<char>)
    ensures
        forall|k: int| 0 <= k < assignments_without(asg, id).len() ==> (#[trigger] assignments_without(asg, id)[k]).activity@ != id,
    decreases asg.len(),
{
    if asg.len() > 0 {
        let p = assignments_without(asg.drop_last(), id);
        lemma_assignments_without_untouched(asg.drop_last(), id);
        if asg.last().activity@ != id {
            assert forall|k: int| 0 <= k < p.push(asg.last()).len() implies (#[trigger] p.push(asg.last())[k]).activity@ != id by {
                if k < p.len() {
                    assert(p.push(asg.last())[k] == p[k]);
                }
            }
        }
    }
}

proof fn lemma_ids_without_absent(ids: Seq<Seq<char>>, id: Seq<char>)
    ensures
        !ids_without(ids, id).contains(id),
    decreases ids.len(),
{
    if ids.len() > 0 {
        lemma_ids_without_absent(ids.drop_last(), id);
        let p = ids_without(ids.drop_last(), id);
        if ids.last() != id {
            assert forall|k: int| 0 <= k < p.push(ids.last()).len() implies p.push(ids.last())[k] != id by {
                if k < p.len() {
                    assert(p.push(ids.last())[k] == p[k]);
                }
            }
        }
    }
}

/// The priority as a new task stores it: lowercased, so that later reads
/// match it however it was typed.
pub fn stored_priority(priority: &str) -> (r: String)
    ensures
        r@ == lowercase(priority@),
{
    crate::text::to_lowercase(priority)
}

impl PlanItems {
    /// The task ids, as text.
    pub open spec fn activity_ids(&self) -> Seq<Seq<char>> {
        string_views(self.activities@)
    }

    /// The resource ids, as text.
    pub open spec fn resource_ids(&self) -> Seq<Seq<char>> {
        string_views(self.resources@)
    }

    /// Whether the plan has task `id`.
    pub fn has_activity(&self, id: &str) -> (r: bool)
        ensures
            r == self.activity_ids().contains(id@),
    {
        contains_str(&self.activities, id)
    }

    /// Whether the plan has resource `id`.
    pub fn has_resource(&self, id: &str) -> (r: bool)
        ensures
            r == self.resource_ids().contains(id@),
    {
        contains_str(&self.resources, id)
    }

    /// Succeeds when task `id` exists; else `TaskNotFound`. Completing,
    /// reopening, showing a task and a what-if on it all start so.
    pub fn require_activity(&self, id: &str) -> (r: Result<(), CamshaftError>)
        ensures
            self.activity_ids().contains(id@) ==> r is Ok,
            !self.activity_ids().contains(id@) ==> (r matches Err(CamshaftError::TaskNotFound(x))
                && x@ == id@),
    {
        if self.has_activity(id) {
            Ok(())
        } else {
            Err(CamshaftError::TaskNotFound(String::from_str(id)))
        }
    }

    /// Adds task (or milestone) `id`; an id that is already taken is a
    /// `DuplicateTask` error and changes nothing.
    pub fn add_activity(&mut self, id: &str) -> (r: Result<(), CamshaftError>)
        ensures
            old(self).activity_ids().contains(id@) ==> (r matches Err(CamshaftError::DuplicateTask(x))
                && x@ == id@ && *final(self) == *old(self)),
            !old(self).activity_ids().contains(id@) ==> (r is Ok && final(self).activity_ids()
                == old(self).activity_ids().push(id@) && final(self).resources == old(self).resources
                && final(self).deps == old(self).deps && final(self).assignments
                == old(self).assignments),
    {
        if self.has_activity(id) {
            return Err(CamshaftError::DuplicateTask(String::from_str(id)));
        }
        let s = String::from_str(id);
        let ghost before = self.activities@;
        self.activities.push(s);
        assert(string_views(self.activities@) =~= string_views(before).push(id@));
        Ok(())
    }

    /// Adds the dependency `from -> to` of the named type. Both tasks must
    /// exist (else `InvalidDependency`) and the type must be known (else a
    /// validation error); on success the type is returned.
    pub fn add_dependency(&mut self, from: &str, to: &str, dep_type: &str) -> (r: Result<
        DependencyType,
        CamshaftError,
    >)
        ensures
            !old(self).activity_ids().contains(from@) || !old(self).activity_ids().contains(to@) ==> (r matches Err(
                CamshaftError::InvalidDependency { predecessor, successor },
            ) && predecessor@ == from@ && successor@ == to@ && *final(self) == *old(self)),
            old(self).activity_ids().contains(from@) && old(self).activity_ids().contains(to@) ==> match dependency_type_named(lowercase(dep_type@)) {
                None => (r matches Err(CamshaftError::ValidationFailed(m)) && m@
                    == unknown_dependency_type(dep_type@) && *final(self) == *old(self)),
                Some(t) => r == Ok::<DependencyType, CamshaftError>(t)
                    && final(self).deps@.len() == old(self).deps@.len() + 1
                    && final(self).deps@.drop_last() == old(self).deps@
                    && final(self).deps@.last().predecessor@ == from@
                    && final(self).deps@.last().successor@ == to@
                    && final(self).activities == old(self).activities
                    && final(self).resources == old(self).resources
                    && final(self).assignments == old(self).assignments,
            },
    {
        if !self.has_activity(from) || !self.has_activity(to) {
            return Err(
                CamshaftError::InvalidDependency {
                    predecessor: String::from_str(from),
                    successor: String::from_str(to),
                },
            );
        }
        match parse_dependency_type(dep_type) {
            Err(e) => Err(e),
            Ok(t) => {
                self.deps.push(Dep { predecessor: String::from_str(from), successor: String::from_str(to) });
                assert(self.deps@.drop_last() =~= old(self).deps@);
                Ok(t)
            },
        }
    }

    /// Adds resource `id` of the named type; an unknown type is a validation
    /// error. A resource of an id already taken is replaced in its place.
    pub fn add_resource(&mut self, id: &str, res_type: &str) -> (r: Result<ResourceType, CamshaftError>)
        ensures
            match resource_type_named(lowercase(res_type@)) {
                None => (r matches Err(CamshaftError::ValidationFailed(m)) && m@
                    == unknown_resource_type(res_type@) && *final(self) == *old(self)),
                Some(t) => r == Ok::<ResourceType, CamshaftError>(t) && final(self).resource_ids()
                    == (if old(self).resource_ids().contains(id@) {
                    old(self).resource_ids()
                } else {
                    old(self).resource_ids().push(id@)
                }) && final(self).activities == old(self).activities && final(self).deps
                    == old(self).deps && final(self).assignments == old(self).assignments,
            },
    {
        let t = match parse_resource_type(res_type) {
            Err(e) => return Err(e),
            Ok(t) => t,
        };
        if !self.has_resource(id) {
            let ghost before = self.resources@;
            self.resources.push(String::from_str(id));
            assert(string_views(self.resources@) =~= string_views(before).push(id@));
        }
        Ok(t)
    }

    /// Puts resource `resource` on task `task`. A missing task is
    /// `TaskNotFound(task)`; a missing resource is `TaskNotFound` of
    /// `"resource: "` and its id.
    pub fn assign(&mut self, task: &str, resource: &str) -> (r: Result<(), CamshaftError>)
        ensures
            !old(self).activity_ids().contains(task@) ==> (r matches Err(CamshaftError::TaskNotFound(x))
                && x@ == task@ && *final(self) == *old(self)),
            old(self).activity_ids().contains(task@) && !old(self).resource_ids().contains(resource@) ==> (r matches Err(
                CamshaftError::TaskNotFound(x),
            ) && x@ == "resource: "@ + resource@ && *final(self) == *old(self)),
            old(self).activity_ids().contains(task@) && old(self).resource_ids().contains(resource@) ==> (r is Ok
                && final(self).assignments@.len() == old(self).assignments@.len() + 1
                && final(self).assignments@.drop_last() == old(self).assignments@
                && final(self).assignments@.last().activity@ == task@
                && final(self).assignments@.last().resource@ == resource@
                && final(self).activities == old(self).activities
                && final(self).resources == old(self).resources && final(self).deps == old(self).deps),
    {
        if !self.has_activity(task) {
            return Err(CamshaftError::TaskNotFound(String::from_str(task)));
        }
        if !self.has_resource(resource) {
            return Err(
                CamshaftError::TaskNotFound(String::from_str("resource: ").concat(resource)),
            );
        }
        self.assignments.push(
            Assignment { activity: String::from_str(task), resource: String::from_str(resource) },
        );
        assert(self.assignments@.drop_last() =~= old(self).assignments@);
        Ok(())
    }

    /// Removes task `id` with every dependency that touches it and every
    /// assignment on it, keeping the rest in order, and returns how many
    /// dependencies and assignments went with it. A missing task is
    /// `TaskNotFound` and changes nothing.
    pub fn remove_task(&mut self, id: &str) -> (r: Result<(usize, usize), CamshaftError>)
        ensures
            !old(self).activity_ids().contains(id@) ==> (r matches Err(CamshaftError::TaskNotFound(x))
                && x@ == id@ && *final(self) == *old(self)),
            old(self).activity_ids().contains(id@) ==> (r matches Ok((nd, na))
                && final(self).activity_ids() == ids_without(old(self).activity_ids(), id@)
                && final(self).resources == old(self).resources
                && final(self).deps@ == deps_without(old(self).deps@, id@)
                && final(self).assignments@ == assignments_without(old(self).assignments@, id@)
                && nd == old(self).deps@.len() - final(self).deps@.len()
                && na == old(self).assignments@.len() - final(self).assignments@.len()),
            old(self).activity_ids().contains(id@) ==> {
                &&& !final(self).activity_ids().contains(id@)
                &&& forall|k: int| 0 <= k < final(self).deps@.len() ==> !touches(#[trigger] final(self).deps@[k], id@)
                &&& forall|k: int| 0 <= k < final(self).assignments@.len() ==> (#[trigger] final(self).assignments@[k]).activity@ != id@
                &&& forall|k: int| 0 <= k < old(self).deps@.len() && !touches(#[trigger] old(self).deps@[k], id@) ==> final(self).deps@.contains(old(self).deps@[k])
            },
    {
        if !self.has_activity(id) {
            return Err(CamshaftError::TaskNotFound(String::from_str(id)));
        }
        let ids = keep_ids_without(&self.activities, id);
        let deps = keep_deps_without(&self.deps, id);
        let asg = keep_assignments_without(&self.assignments, id);
        proof {
            lemma_deps_without_len(self.deps@, id@);
            lemma_assignments_without_len(self.assignments@, id@);
            lemma_deps_without_untouched(self.deps@, id@);
            lemma_deps_without_kept(self.deps@, id@);
            lemma_assignments_without_untouched(self.assignments@, id@);
            lemma_ids_without_absent(string_views(self.activities@), id@);
        }
        let nd = self.deps.len() - deps.len();
        let na = self.assignments.len() - asg.len();
        self.activities = ids;
        self.deps = deps;
        self.assignments = asg;
        Ok((nd, na))
    }

    /// Removes every dependency from `from` to `to`, keeping the rest in
    /// order, and returns how many went; none is a validation error that
    /// changes nothing.
    pub fn remove_dependency(&mut self, from: &str, to: &str) -> (r: Result<usize, CamshaftError>)
        ensures
            deps_unlinked(old(self).deps@, from@, to@).len() == old(self).deps@.len() ==> (r matches Err(
                CamshaftError::ValidationFailed(m),
            ) && m@ == "Dependency "@ + from@ + " -> "@ + to@ + " not found"@ && *final(self)
                == *old(self)),
            deps_unlinked(old(self).deps@, from@, to@).len() != old(self).deps@.len() ==> (r matches Ok(n)
                && final(self).deps@ == deps_unlinked(old(self).deps@, from@, to@) && n
                == old(self).deps@.len() - final(self).deps@.len() && n > 0
                && final(self).activities == old(self).activities
                && final(self).resources == old(self).resources
                && final(self).assignments == old(self).assignments),
    {
        let deps = keep_deps_unlinked(&self.deps, from, to);
        proof {
            lemma_deps_unlinked_len(self.deps@, from@, to@);
        }
        if deps.len() == self.deps.len() {
            let m = String::from_str("Dependency ").concat(from).concat(" -> ").concat(to).concat(
                " not found",
            );
            return Err(CamshaftError::ValidationFailed(m));
        }
        let n = self.deps.len() - deps.len();
        self.deps = deps;
        Ok(n)
    }
}

proof fn lemma_deps_without_len(ds: Seq<Dep>, id: Seq<char>)
    ensures
        deps_without(ds, id).len() <= ds.len(),
    decreases ds.len(),
{
    if ds.len() > 0 {
        lemma_deps_without_len(ds.drop_last(), id);
    }
}

proof fn lemma_deps_unlinked_len(ds: Seq<Dep>, from: Seq<char>, to: Seq<char>)
    ensures
        deps_unlinked(ds, from, to).len() <= ds.len(),
    decreases ds.len(),
{
    if ds.len() > 0 {
        lemma_deps_unlinked_len(ds.drop_last(), from, to);
    }
}

proof fn lemma_assignments_without_len(asg: Seq<Assignment>, id: Seq<char>)
    ensures
        assignments_without(asg, id).len() <= asg.len(),
    decreases asg.len(),
{
    if asg.len() > 0 {
        lemma_assignments_without_len(asg.drop_last(), id);
    }
}

/// Removing a task just added undoes the addition: when `id` is not a task
/// yet and no dependency or assignment names it, adding it and removing it
/// again leaves the tasks, dependencies and assignments as they were.
pub proof fn lemma_remove_undoes_add(items: PlanItems, id: Seq<char>)
    requires
        !items.activity_ids().contains(id),
        forall|k: int| 0 <= k < items.deps@.len() ==> !touches(#[trigger] items.deps@[k], id),
        forall|k: int| 0 <= k < items.assignments@.len() ==> (#[trigger] items.assignments@[k]).activity@ != id,
    ensures
        ids_without(items.activity_ids().push(id), id) == items.activity_ids(),
        deps_without(items.deps@, id) == items.deps@,
        assignments_without(items.assignments@, id) == items.assignments@,
{
    let ids = items.activity_ids();
    assert(items.activity_ids().push(id).drop_last() =~= ids);
    lemma_ids_without_keeps(ids, id);
    lemma_deps_without_keeps(items.deps@, id);
    lemma_assignments_without_keeps(items.assignments@, id);
}

proof fn lemma_ids_without_keeps(ids: Seq<Seq<char>>, id: Seq<char>)
    requires
        !ids.contains(id),
    ensures
        ids_without(ids, id) == ids,
    decreases ids.len(),
{
    if ids.len() > 0 {
        assert(!ids.drop_last().contains(id)) by {
            if ids.drop_last().contains(id) {
                let k = choose|k: int| 0 <= k < ids.drop_last().len() && ids.drop_last()[k] == id;
                assert(ids[k] == id);
            }
        }
        lemma_ids_without_keeps(ids.drop_last(), id);
        assert(ids.last() != id) by {
            assert(ids[ids.len() - 1] == ids.last());
        }
        assert(ids.drop_last().push(ids.last()) =~= ids);
    }
}

proof fn lemma_deps_without_keeps(ds: Seq<Dep>, id: Seq<char>)
    requires
        forall|k: int| 0 <= k < ds.len() ==> !touches(#[trigger] ds[k], id),
    ensures
        deps_without(ds, id) == ds,
    decreases ds.len(),
{
    if ds.len() > 0 {
        assert forall|k: int| 0 <= k < ds.drop_last().len() implies !touches(#[trigger] ds.drop_last()[k], id) by {
            assert(ds.drop_last()[k] == ds[k]);
        }
        lemma_deps_without_keeps(ds.drop_last(), id);
        assert(!touches(ds[ds.len() - 1], id));
        assert(ds.drop_last().push(ds.last()) =~= ds);
    }
}

proof fn lemma_assignments_without_keeps(asg: Seq<Assignment>, id: Seq<char>)
    requires
        forall|k: int| 0 <= k < asg.len() ==> (#[trigger] asg[k]).activity@ != id,
    ensures
        assignments_without(asg, id) == asg,
    decreases asg.len(),
{
    if asg.len() > 0 {
        assert forall|k: int| 0 <= k < asg.drop_last().len() implies (#[trigger] asg.drop_last()[k]).activity@ != id by {
            assert(asg.drop_last()[k] == asg[k]);
        }
        lemma_assignments_without_keeps(asg.drop_last(), id);
        assert(asg[asg.len() - 1].activity@ != id);
        assert(asg.drop_last().push(asg.last()) =~= asg);
    }
}


/// Removing a task keeps exactly the dependencies that name it at neither
/// end, and the assignments that are not on it.
pub proof fn lemma_removal_keeps_the_others(ds: Seq<Dep>, asg: Seq<Assignment>, id: Seq<char>)
    ensures
        forall|d: Dep| #[trigger] deps_without(ds, id).contains(d) <==> (ds.contains(d) && d.predecessor@ != id
            && d.successor@ != id),
        forall|a: Assignment| #[trigger] assignments_without(asg, id).contains(a) <==> (asg.contains(a)
            && a.activity@ != id),
    decreases ds.len() + asg.len(),
{
    if ds.len() > 0 {
        lemma_removal_keeps_the_others(ds.drop_last(), asg, id);
        let p = deps_without(ds.drop_last(), id);
        let r = deps_without(ds, id);
        let last = ds.last();
        assert forall|d: Dep| #[trigger] r.contains(d) <==> (ds.contains(d) && d.predecessor@ != id
            && d.successor@ != id) by {
            if r.contains(d) {
                let i = choose|i: int| 0 <= i < r.len() && r[i] == d;
                if i < p.len() {
                    assert(r[i] == p[i]);
                    assert(p.contains(d));
                    let j = choose|j: int| 0 <= j < ds.drop_last().len() && ds.drop_last()[j] == d;
                    assert(ds[j] == d);
                } else {
                    assert(ds[ds.len() - 1] == d);
                }
            }
            if ds.contains(d) && d.predecessor@ != id && d.successor@ != id {
                let j = choose|j: int| 0 <= j < ds.len() && ds[j] == d;
                if j < ds.len() - 1 {
                    assert(ds.drop_last()[j] == d);
                    assert(p.contains(d));
                    let i = choose|i: int| 0 <= i < p.len() && p[i] == d;
                    if !touches(last, id) {
                        assert(r[i] == d);
                    }
                } else {
                    assert(r[p.len() as int] == d);
                }
            }
        }
    } else if asg.len() > 0 {
        lemma_removal_keeps_the_others(ds, asg.drop_last(), id);
        let p = assignments_without(asg.drop_last(), id);
        let r = assignments_without(asg, id);
        let last = asg.last();
        assert(deps_without(ds, id) =~= Seq::<Dep>::empty());
        assert forall|a: Assignment| #[trigger] r.contains(a) <==> (asg.contains(a) && a.activity@ != id) by {
            if r.contains(a) {
                let i = choose|i: int| 0 <= i < r.len() && r[i] == a;
                if i < p.len() {
                    assert(r[i] == p[i]);
                    assert(p.contains(a));
                    let j = choose|j: int| 0 <= j < asg.drop_last().len() && asg.drop_last()[j] == a;
                    assert(asg[j] == a);
                } else {
                    assert(asg[asg.len() - 1] == a);
                }
            }
            if asg.contains(a) && a.activity@ != id {
                let j = choose|j: int| 0 <= j < asg.len() && asg[j] == a;
                if j < asg.len() - 1 {
                    assert(asg.drop_last()[j] == a);
                    assert(p.contains(a));
                    let i = choose|i: int| 0 <= i < p.len() && p[i] == a;
                    if last.activity@ != id {
                        assert(r[i] == a);
                    }
                } else {
                    assert(r[p.len() as int] == a);
                }
            }
        }
    }
}

/// Removing the dependencies from `from` to `to` keeps exactly the others.
pub proof fn lemma_unlinking_keeps_the_others(ds: Seq<Dep>, from: Seq<char>, to: Seq<char>)
    ensures
        forall|d: Dep| #[trigger] deps_unlinked(ds, from, to).contains(d) <==> (ds.contains(d) && !(
        d.predecessor@ == from && d.successor@ == to)),
    decreases ds.len(),
{
    if ds.len() > 0 {
        lemma_unlinking_keeps_the_others(ds.drop_last(), from, to);
        let p = deps_unlinked(ds.drop_last(), from, to);
        let r = deps_unlinked(ds, from, to);
        let last = ds.last();
        assert forall|d: Dep| #[trigger] r.contains(d) <==> (ds.contains(d) && !(d.predecessor@ == from
            && d.successor@ == to)) by {
            if r.contains(d) {
                let i = choose|i: int| 0 <= i < r.len() && r[i] == d;
                if i < p.len() {
                    assert(r[i] == p[i]);
                    assert(p.contains(d));
                    let j = choose|j: int| 0 <= j < ds.drop_last().len() && ds.drop_last()[j] == d;
                    assert(ds[j] == d);
                } else {
                    assert(ds[ds.len() - 1] == d);
                }
            }
            if ds.contains(d) && !(d.predecessor@ == from && d.successor@ == to) {
                let j = choose|j: int| 0 <= j < ds.len() && ds[j] == d;
                if j < ds.len() - 1 {
                    assert(ds.drop_last()[j] == d);
                    assert(p.contains(d));
                    let i = choose|i: int| 0 <= i < p.len() && p[i] == d;
                    if !is_link(last, from, to) {
                        assert(r[i] == d);
                    }
                } else {
                    assert(r[p.len() as int] == d);
                }
            }
        }
    }
}

} // verus!
