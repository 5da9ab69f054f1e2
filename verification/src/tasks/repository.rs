//! Task persistence: the repository interface and its in-memory implementation.

use vstd::prelude::*;
use std::collections::HashMap;

use crate::tasks::model::{Task, TaskError, TaskResult, TaskView};
use crate::text::{chars_of, eq_str, seq_eq, to_lowercase, unicode_lowercase};

verus! {

broadcast use vstd::std_specs::hash::group_hash_axioms;

/// `r` lists the tasks of `m`, each exactly once, in increasing id order.
pub open spec fn lists_by_id(r: Seq<Task>, m: Map<u64, TaskView>) -> bool {
    &&& forall|i: int, j: int| 0 <= i < j < r.len() ==> r[i].id < r[j].id
    &&& forall|i: int| 0 <= i < r.len() ==> m.contains_key(#[trigger] r[i].id) && m[r[i].id] == r[i]@
    &&& forall|k: u64| m.contains_key(k) ==> exists|i: int| 0 <= i < r.len() && #[trigger] r[i].id == k
}

/// `t` carries `tag`, compared without regard to case.
pub open spec fn has_tag(t: TaskView, tag: Seq<char>) -> bool {
    exists|i: int| 0 <= i < t.tags.len() && unicode_lowercase(#[trigger] t.tags[i]) == unicode_lowercase(tag)
}

/// Some stored task already uses `title`, compared without regard to case.
pub open spec fn title_taken(m: Map<u64, TaskView>, title: Seq<char>) -> bool {
    exists|k: u64| m.contains_key(k) && unicode_lowercase(#[trigger] m[k].title) == unicode_lowercase(title)
}

/// Trait for task persistence.
pub trait TaskRepository {
    /// The stored tasks, by id.
    spec fn stored(&self) -> Map<u64, TaskView>;

    fn get_all(&self) -> (r: Vec<Task>)
        ensures
            lists_by_id(r@, self.stored()),
    ;

    fn get_by_id(&self, id: u64) -> (r: TaskResult<Task>)
        ensures
            match r {
                Ok(t) => self.stored().contains_key(id) && t@ == self.stored()[id] && t.id == id,
                Err(e) => !self.stored().contains_key(id) && e == TaskError::NotFound(id),
            },
    ;

    fn add(&mut self, task: Task) -> (r: TaskResult<()>)
        ensures
            title_taken(old(self).stored(), task@.title) ==> {
                &&& r matches Err(TaskError::DuplicateTitle(t)) && t@ == task@.title
                &&& final(self).stored() == old(self).stored()
            },
            !title_taken(old(self).stored(), task@.title) ==> {
                &&& r is Ok
                &&& final(self).stored() == old(self).stored().insert(task.id, task@)
            },
    ;

    fn update(&mut self, task: Task) -> (r: TaskResult<()>)
        ensures
            old(self).stored().contains_key(task.id) ==> {
                &&& r is Ok
                &&& final(self).stored() == old(self).stored().insert(task.id, task@)
            },
            !old(self).stored().contains_key(task.id) ==> {
                &&& r == Err::<(), TaskError>(TaskError::NotFound(task.id))
                &&& final(self).stored() == old(self).stored()
            },
    ;

    fn remove(&mut self, id: u64) -> (r: TaskResult<Task>)
        ensures
            match r {
                Ok(t) => {
                    &&& old(self).stored().contains_key(id)
                    &&& t@ == old(self).stored()[id]
                    &&& final(self).stored() == old(self).stored().remove(id)
                },
                Err(e) => {
                    &&& !old(self).stored().contains_key(id)
                    &&& e == TaskError::NotFound(id)
                    &&& final(self).stored() == old(self).stored()
                },
            },
    ;

    fn find_by_tag(&self, tag: &str) -> (r: Vec<Task>)
        ensures
            forall|i: int| 0 <= i < r@.len() ==> {
                &&& self.stored().contains_key(#[trigger] r@[i].id)
                &&& self.stored()[r@[i].id] == r@[i]@
                &&& has_tag(r@[i]@, tag@)
            },
            forall|i: int, j: int| 0 <= i < j < r@.len() ==> r@[i].id != r@[j].id,
            forall|k: u64| self.stored().contains_key(k) && has_tag(self.stored()[k], tag@)
                ==> exists|i: int| 0 <= i < r@.len() && #[trigger] r@[i].id == k,
    ;

    fn count(&self) -> (n: usize)
        ensures
            n == self.stored().len(),
    ;
}

/// A task stored by `add` or `update` is what `get_by_id` then finds under
/// its id.
pub proof fn lemma_read_after_write(before: Map<u64, TaskView>, t: TaskView)
    ensures
        before.insert(t.id, t).contains_key(t.id),
        before.insert(t.id, t)[t.id] == t,
{
}

/// After `remove` of an id, `get_by_id` of it reports it not found, and
/// every other task is untouched.
pub proof fn lemma_removed_is_gone(before: Map<u64, TaskView>, id: u64)
    ensures
        !before.remove(id).contains_key(id),
        forall|k: u64| k != id && before.contains_key(k) ==> #[trigger] before.remove(id).contains_key(k)
            && before.remove(id)[k] == before[k],
{
}

/// Storing a task under a new id grows the count by one.
pub proof fn lemma_add_counts(before: Map<u64, TaskView>, t: TaskView)
    requires
        before.dom().finite(),
        !before.contains_key(t.id),
    ensures
        before.insert(t.id, t).len() == before.len() + 1,
{
}

/// In-memory implementation for testing.
pub struct InMemoryTaskRepository {
    tasks: HashMap<u64, Task>,
    /// The stored ids, each once, in the order they were first stored.
    order: Vec<u64>,
    next_id: u64,
}

impl InMemoryTaskRepository {
    /// Every task is stored under its own id.
    #[verifier::type_invariant]
    spec fn keyed_by_id(self) -> bool {
        &&& forall|k: u64| #[trigger] self.tasks@.contains_key(k) ==> self.tasks@[k].id == k
        &&& self.order@.no_duplicates()
        &&& forall|k: u64| #[trigger] self.order@.contains(k) <==> self.tasks@.contains_key(k)
    }

    /// The id the next call of `next_id` hands out.
    pub closed spec fn upcoming_id(self) -> u64 {
        self.next_id
    }

    pub fn new() -> (r: Self)
        ensures
            r.stored() == Map::<u64, TaskView>::empty(),
            r.upcoming_id() == 1,
    {
        let r = InMemoryTaskRepository { tasks: HashMap::new(), order: Vec::new(), next_id: 1 };
        proof {
            assert(r.stored() =~= Map::<u64, TaskView>::empty());
        }
        r
    }

    /// Hands out the next id of the counter and advances it.
    pub fn next_id(&mut self) -> (id: u64)
        requires
            old(self).upcoming_id() < u64::MAX,
        ensures
            id == old(self).upcoming_id(),
            final(self).upcoming_id() == id + 1,
            final(self).stored() == old(self).stored(),
    {
        proof {
            use_type_invariant(&*self);
        }
        let id = self.next_id;
        self.next_id = self.next_id + 1;
        id
    }

    /// Moves the contents out, leaving an empty repository with the same counter.
    fn take_parts(&mut self) -> (r: (HashMap<u64, Task>, Vec<u64>, u64))
        ensures
            r.0@ == old(self).tasks@,
            r.1@ == old(self).order@,
            r.2 == old(self).next_id,
            forall|k: u64| #[trigger] r.0@.contains_key(k) ==> r.0@[k].id == k,
            r.1@.no_duplicates(),
            forall|k: u64| #[trigger] r.1@.contains(k) <==> r.0@.contains_key(k),
    {
        proof {
            use_type_invariant(&*self);
        }
        let mut cur = InMemoryTaskRepository {
            tasks: HashMap::new(),
            order: Vec::new(),
            next_id: self.next_id,
        };
        std::mem::swap(self, &mut cur);
        proof {
            use_type_invariant(&cur);
        }
        let InMemoryTaskRepository { tasks, order, next_id } = cur;
        (tasks, order, next_id)
    }

    /// The ids of the stored tasks, each once, in no particular order.
    fn ids(&self) -> (r: Vec<u64>)
        ensures
            r@.no_duplicates(),
            forall|k: u64| r@.contains(k) <==> self.tasks@.contains_key(k),
    {
        proof {
            use_type_invariant(self);
        }
        self.order.clone()
    }
}

impl Default for InMemoryTaskRepository {
    fn default() -> (r: Self)
        ensures
            r.stored() == Map::<u64, TaskView>::empty(),
            r.upcoming_id() == 1,
    {
        Self::new()
    }
}

impl TaskRepository for InMemoryTaskRepository {
    closed spec fn stored(&self) -> Map<u64, TaskView> {
        Map::new(|k: u64| self.tasks@.contains_key(k), |k: u64| self.tasks@[k]@)
    }

    fn get_all(&self) -> (r: Vec<Task>) {
        proof {
            use_type_invariant(self);
        }
        let ids = sort_ids(self.ids());
        let mut out: Vec<Task> = Vec::new();
        let mut i: usize = 0;
        while i < ids.len()
            invariant
                i <= ids.len(),
                out@.len() == i,
                forall|a: int, b: int| 0 <= a < b < ids@.len() ==> ids@[a] < ids@[b],
                forall|k: u64| ids@.contains(k) <==> self.tasks@.contains_key(k),
                forall|a: int| 0 <= a < i ==> (#[trigger] out@[a]).id == ids@[a] && out@[a]@
                    == self.stored()[ids@[a]],
                forall|k: u64| #[trigger] self.tasks@.contains_key(k) ==> self.tasks@[k].id == k,
            decreases ids.len() - i,
        {
            let id = ids[i];
            proof {
                assert(ids@.contains(id));
            }
            let t = self.tasks.get(&id).unwrap().duplicate();
            out.push(t);
            i += 1;
        }
        proof {
            assert forall|k: u64| self.stored().contains_key(k) implies exists|a: int|
                0 <= a < out@.len() && #[trigger] out@[a].id == k by {
                assert(ids@.contains(k));
                let a = choose|a: int| 0 <= a < ids@.len() && ids@[a] == k;
                assert(out@[a].id == k);
            }
            assert forall|a: int| 0 <= a < out@.len() implies self.stored().contains_key(
                #[trigger] out@[a].id,
            ) && self.stored()[out@[a].id] == out@[a]@ by {
                assert(ids@.contains(ids@[a]));
            }
        }
        out
    }

    fn get_by_id(&self, id: u64) -> (r: TaskResult<Task>) {
        proof {
            use_type_invariant(self);
        }
        match self.tasks.get(&id) {
            Some(t) => Ok(t.duplicate()),
            None => Err(TaskError::NotFound(id)),
        }
    }

    fn add(&mut self, task: Task) -> (r: TaskResult<()>) {
        proof {
            use_type_invariant(&*self);
        }
        let wanted = to_lowercase(task.title.as_str());
        let wanted_chars = chars_of(wanted.as_str());
        let ids = self.ids();
        let mut i: usize = 0;
        while i < ids.len()
            invariant
                i <= ids.len(),
                wanted_chars@ == unicode_lowercase(task@.title),
                forall|k: u64| ids@.contains(k) <==> self.tasks@.contains_key(k),
                forall|a: int| 0 <= a < i ==> unicode_lowercase(self.stored()[#[trigger] ids@[a]].title)
                    != unicode_lowercase(task@.title),
            decreases ids.len() - i,
        {
            let id = ids[i];
            proof {
                assert(ids@.contains(id));
            }
            let existing = self.tasks.get(&id).unwrap();
            let lower = to_lowercase(existing.title.as_str());
            proof {
                assert(unicode_lowercase(self.stored()[id].title) == lower@);
            }
            if seq_eq(chars_of(lower.as_str()).as_slice(), wanted_chars.as_slice()) {
                proof {
                    assert(self.stored().contains_key(id));
                    assert(self.stored()[id].title == existing.title@);
                    assert(unicode_lowercase(self.stored()[id].title) == unicode_lowercase(task@.title));
                    assert(title_taken(self.stored(), task@.title));
                }
                return Err(TaskError::DuplicateTitle(task.title));
            }
            i += 1;
        }
        proof {
            assert forall|k: u64| self.stored().contains_key(k) implies unicode_lowercase(
                #[trigger] self.stored()[k].title,
            ) != unicode_lowercase(task@.title) by {
                assert(ids@.contains(k));
                let a = choose|a: int| 0 <= a < ids@.len() && ids@[a] == k;
            }
        }
        let ghost before = self.stored();
        let id = task.id;
        let ghost tv = task@;
        let is_new = !self.tasks.contains_key(&id);
        let (mut tasks, mut order, next_id) = self.take_parts();
        let ghost old_order = order@;
        let ghost old_tasks = tasks@;
        proof {
            assert(forall|k: u64| old_order.contains(k) <==> old_tasks.contains_key(k));
            assert(is_new == !old_tasks.contains_key(id));
        }
        tasks.insert(id, task);
        if is_new {
            order.push(id);
        }
        proof {
            assert(forall|k: u64| #[trigger] tasks@.contains_key(k) ==> tasks@[k].id == k);
            assert forall|k: u64| #[trigger] order@.contains(k) <==> tasks@.contains_key(k) by {
                if k == id {
                    if is_new {
                        assert(order@[order@.len() - 1] == id);
                    } else {
                        assert(old_tasks.contains_key(id));
                        assert(old_order.contains(id));
                    }
                } else {
                    if order@.contains(k) {
                        let a = choose|a: int| 0 <= a < order@.len() && order@[a] == k;
                        if is_new {
                            assert(a < old_order.len());
                            assert(old_order[a] == k);
                        }
                        assert(old_order.contains(k));
                        assert(old_tasks.contains_key(k));
                    }
                    if tasks@.contains_key(k) {
                        assert(old_tasks.contains_key(k));
                        assert(old_order.contains(k));
                        let a = choose|a: int| 0 <= a < old_order.len() && old_order[a] == k;
                        assert(order@[a] == k);
                    }
                }
            }
            assert(order@.no_duplicates()) by {
                if is_new {
                    assert(!old_order.contains(id));
                }
            }
        }
        *self = InMemoryTaskRepository { tasks, order, next_id };
        proof {
            assert(self.stored() =~= before.insert(id, tv));
        }
        Ok(())
    }

    fn update(&mut self, task: Task) -> (r: TaskResult<()>) {
        proof {
            use_type_invariant(&*self);
        }
        if !self.tasks.contains_key(&task.id) {
            return Err(TaskError::NotFound(task.id));
        }
        let ghost before = self.stored();
        let id = task.id;
        let ghost tv = task@;
        let (mut tasks, order, next_id) = self.take_parts();
        tasks.insert(id, task);
        proof {
            assert(forall|k: u64| #[trigger] tasks@.contains_key(k) ==> tasks@[k].id == k);
            assert(forall|k: u64| #[trigger] order@.contains(k) <==> tasks@.contains_key(k));
        }
        *self = InMemoryTaskRepository { tasks, order, next_id };
        proof {
            assert(self.stored() =~= before.insert(id, tv));
        }
        Ok(())
    }

    fn remove(&mut self, id: u64) -> (r: TaskResult<Task>) {
        proof {
            use_type_invariant(&*self);
        }
        let ghost before = self.stored();
        let (mut tasks, mut order, next_id) = self.take_parts();
        let ghost old_order = order@;
        let removed = tasks.remove(&id);
        let mut p: usize = 0;
        while p < order.len() && order[p] != id
            invariant
                p <= order@.len(),
                forall|a: int| 0 <= a < p ==> order@[a] != id,
            decreases order@.len() - p,
        {
            p += 1;
        }
        if p < order.len() {
            order.remove(p);
        }
        proof {
            assert(forall|k: u64| #[trigger] tasks@.contains_key(k) ==> tasks@[k].id == k);
            assert forall|k: u64| #[trigger] order@.contains(k) <==> tasks@.contains_key(k) by {
                if order@.contains(k) {
                    let a = choose|a: int| 0 <= a < order@.len() && order@[a] == k;
                    if p < old_order.len() {
                        if a < p {
                            assert(old_order[a] == k);
                        } else {
                            assert(old_order[a + 1] == k);
                            assert(old_order[p as int] == id);
                        }
                    } else {
                        assert(old_order[a] == k);
                    }
                    assert(old_order.contains(k));
                }
                if tasks@.contains_key(k) {
                    assert(old_order.contains(k));
                    let a = choose|a: int| 0 <= a < old_order.len() && old_order[a] == k;
                    if p < old_order.len() {
                        if a < p {
                            assert(order@[a] == k);
                        } else if a > p {
                            assert(order@[a - 1] == k);
                        }
                    } else {
                        assert(order@[a] == k);
                    }
                }
            }
            assert(order@.no_duplicates()) by {
                assert forall|a: int, b: int| 0 <= a < order@.len() && 0 <= b < order@.len() && a != b implies order@[a] != order@[b] by {
                    if p < old_order.len() {
                        let a2 = if a < p { a } else { a + 1 };
                        let b2 = if b < p { b } else { b + 1 };
                        assert(order@[a] == old_order[a2]);
                        assert(order@[b] == old_order[b2]);
                    } else {
                        assert(order@[a] == old_order[a]);
                    }
                }
            }
        }
        *self = InMemoryTaskRepository { tasks, order, next_id };
        match removed {
            Some(t) => {
                proof {
                    assert(self.stored() =~= before.remove(id));
                }
                Ok(t)
            },
            None => {
                proof {
                    assert(self.stored() =~= before);
                }
                Err(TaskError::NotFound(id))
            },
        }
    }

    fn find_by_tag(&self, tag: &str) -> (r: Vec<Task>) {
        proof {
            use_type_invariant(self);
        }
        let wanted = to_lowercase(tag);
        let wanted_chars = chars_of(wanted.as_str());
        let ids = self.ids();
        let mut out: Vec<Task> = Vec::new();
        let mut i: usize = 0;
        while i < ids.len()
            invariant
                i <= ids.len(),
                ids@.no_duplicates(),
                wanted_chars@ == unicode_lowercase(tag@),
                forall|k: u64| ids@.contains(k) <==> self.tasks@.contains_key(k),
                forall|k: u64| #[trigger] self.tasks@.contains_key(k) ==> self.tasks@[k].id == k,
                forall|a: int| 0 <= a < out@.len() ==> {
                    &&& self.stored().contains_key(#[trigger] out@[a].id)
                    &&& self.stored()[out@[a].id] == out@[a]@
                    &&& has_tag(out@[a]@, tag@)
                    &&& exists|b: int| 0 <= b < i && ids@[b] == out@[a].id
                },
                forall|a: int, b: int| 0 <= a < b < out@.len() ==> out@[a].id != out@[b].id,
                forall|b: int| 0 <= b < i && has_tag(self.stored()[#[trigger] ids@[b]], tag@)
                    ==> exists|a: int| 0 <= a < out@.len() && #[trigger] out@[a].id == ids@[b],
            decreases ids.len() - i,
        {
            let id = ids[i];
            proof {
                assert(ids@.contains(id));
            }
            let t = self.tasks.get(&id).unwrap();
            let mut found = false;
            let mut j: usize = 0;
            while j < t.tags.len()
                invariant
                    j <= t.tags.len(),
                    wanted_chars@ == unicode_lowercase(tag@),
                    found == exists|c: int| 0 <= c < j && unicode_lowercase(#[trigger] t.tags@[c]@)
                        == unicode_lowercase(tag@),
                decreases t.tags.len() - j,
            {
                let lower = to_lowercase(t.tags[j].as_str());
                if seq_eq(chars_of(lower.as_str()).as_slice(), wanted_chars.as_slice()) {
                    found = true;
                }
                j += 1;
            }
            proof {
                assert(found == has_tag(t@, tag@)) by {
                    if found {
                        let c = choose|c: int| 0 <= c < j && unicode_lowercase(#[trigger] t.tags@[c]@)
                            == unicode_lowercase(tag@);
                        assert(t@.tags[c] == t.tags@[c]@);
                    }
                    if has_tag(t@, tag@) {
                        let c = choose|c: int| 0 <= c < t@.tags.len() && unicode_lowercase(#[trigger] t@.tags[c]) == unicode_lowercase(tag@);
                        assert(t@.tags[c] == t.tags@[c]@);
                    }
                }
            }
            proof {
                assert(self.stored()[id] == t@);
                assert(self.stored()[ids@[i as int]] == t@);
            }
            let ghost before = out@;
            if found {
                out.push(t.duplicate());
                proof {
                    assert forall|a: int| 0 <= a < before.len() implies before[a].id != id by {
                        let b = choose|b: int| 0 <= b < i && ids@[b] == before[a].id;
                        assert(ids@[b] != ids@[i as int]);
                    }
                    assert(out@[out@.len() - 1].id == ids@[i as int]);
                }
            }
            proof {
                assert forall|b: int| 0 <= b < i + 1 && has_tag(self.stored()[#[trigger] ids@[b]], tag@)
                    implies exists|a: int| 0 <= a < out@.len() && #[trigger] out@[a].id == ids@[b] by {
                    if b < i {
                        let a = choose|a: int| 0 <= a < before.len() && #[trigger] before[a].id == ids@[b];
                        assert(out@[a] == before[a]);
                    } else {
                        assert(found);
                        assert(out@[out@.len() - 1].id == ids@[b]);
                    }
                }
            }
            i += 1;
        }
        proof {
            assert forall|k: u64| self.stored().contains_key(k) && has_tag(self.stored()[k], tag@)
                implies exists|a: int| 0 <= a < out@.len() && #[trigger] out@[a].id == k by {
                assert(ids@.contains(k));
                let b = choose|b: int| 0 <= b < ids@.len() && ids@[b] == k;
                assert(has_tag(self.stored()[ids@[b]], tag@));
            }
        }
        out
    }

    fn count(&self) -> (n: usize) {
        proof {
            assert(self.stored().dom() =~= self.tasks@.dom());
        }
        self.tasks.len()
    }
}

/// Sorts distinct ids into increasing order.
pub fn sort_ids(v: Vec<u64>) -> (r: Vec<u64>)
    requires
        v@.no_duplicates(),
    ensures
        forall|a: int, b: int| 0 <= a < b < r@.len() ==> r@[a] < r@[b],
        forall|k: u64| r@.contains(k) <==> v@.contains(k),
        r@.len() == v@.len(),
{
    let mut out: Vec<u64> = Vec::new();
    let mut i: usize = 0;
    while i < v.len()
        invariant
            i <= v.len(),
            v@.no_duplicates(),
            out@.len() == i,
            forall|a: int, b: int| 0 <= a < b < out@.len() ==> out@[a] < out@[b],
            forall|k: u64| out@.contains(k) <==> v@.take(i as int).contains(k),
        decreases v.len() - i,
    {
        let x = v[i];
        let mut p: usize = 0;
        while p < out.len() && out[p] < x
            invariant
                p <= out@.len(),
                forall|a: int| 0 <= a < p ==> out@[a] < x,
            decreases out@.len() - p,
        {
            p += 1;
        }
        proof {
            assert(!v@.take(i as int).contains(x)) by {
                if v@.take(i as int).contains(x) {
                    let a = choose|a: int| 0 <= a < i && v@.take(i as int)[a] == x;
                    assert(v@[a] == v@[i as int]);
                }
            }
            if p < out@.len() {
                assert(out@[p as int] != x) by {
                    assert(out@.contains(out@[p as int]));
                }
            }
        }
        let ghost before = out@;
        proof {
            assert(forall|k: u64| before.contains(k) <==> v@.take(i as int).contains(k));
        }
        out.insert(p, x);
        proof {
            before.insert_ensures(p as int, x);
            assert(v@.take(i + 1) == v@.take(i as int).push(x));
            assert forall|k: u64| out@.contains(k) <==> v@.take(i + 1).contains(k) by {
                if out@.contains(k) {
                    let a = choose|a: int| 0 <= a < out@.len() && out@[a] == k;
                    if a == p {
                        assert(v@.take(i + 1)[i as int] == k);
                    } else {
                        if a < p {
                            assert(before[a] == k);
                        } else {
                            assert(before[a - 1] == k);
                        }
                        assert(before.contains(k));
                        assert(v@.take(i as int).contains(k));
                        let c = choose|c: int| 0 <= c < i && #[trigger] v@.take(i as int)[c] == k;
                        assert(v@.take(i + 1)[c] == k);
                    }
                }
                if v@.take(i + 1).contains(k) {
                    if k == x {
                        assert(out@[p as int] == x);
                    } else {
                        assert(v@.take(i as int).contains(k)) by {
                            let a = choose|a: int| 0 <= a < i + 1 && #[trigger] v@.take(i + 1)[a] == k;
                            assert(v@.take(i as int)[a] == k);
                        }
                        assert(before.contains(k));
                        let a = choose|a: int| 0 <= a < before.len() && before[a] == k;
                        if a < p {
                            assert(out@[a] == k);
                        } else {
                            assert(out@[a + 1] == k);
                        }
                    }
                }
            }
        }
        i += 1;
    }
    proof {
        assert(v@.take(i as int) == v@);
    }
    out
}

/// Successive calls of `next_id` on a fresh repository hand out 1, 2, 3, and
/// so on, so no id is handed out twice, and leave the stored tasks as they
/// were: `states` are the repository before each call and after the last,
/// `ids` what the calls returned, related as `next_id` promises.
pub proof fn lemma_ids_count_up(states: Seq<InMemoryTaskRepository>, ids: Seq<u64>)
    requires
        states.len() == ids.len() + 1,
        states[0].upcoming_id() == 1,
        forall|i: int|
            0 <= i < ids.len() ==> #[trigger] ids[i] == states[i].upcoming_id() && states[i + 1].upcoming_id()
                == ids[i] + 1 && states[i + 1].stored() == states[i].stored(),
    ensures
        forall|i: int| 0 <= i < ids.len() ==> #[trigger] ids[i] == i + 1,
        forall|i: int, j: int| 0 <= i < j < ids.len() ==> ids[i] != ids[j],
        forall|i: int| 0 <= i < states.len() ==> (#[trigger] states[i]).stored() == states[0].stored(),
    decreases ids.len(),
{
    if ids.len() > 0 {
        let n = ids.len() - 1;
        let s2 = states.drop_last();
        let i2 = ids.drop_last();
        assert forall|i: int| 0 <= i < i2.len() implies #[trigger] i2[i] == s2[i].upcoming_id() && s2[i
            + 1].upcoming_id() == i2[i] + 1 && s2[i + 1].stored() == s2[i].stored() by {
            assert(ids[i] == states[i].upcoming_id());
        }
        lemma_ids_count_up(s2, i2);
        assert(ids[n] == states[n].upcoming_id());
        if n > 0 {
            assert(i2[n - 1] == n);
            assert(states[n].upcoming_id() == ids[n - 1] + 1);
        }
        assert forall|i: int| 0 <= i < ids.len() implies #[trigger] ids[i] == i + 1 by {
            if i < n {
                assert(ids[i] == i2[i]);
            }
        }
        assert(ids[n] == states[n].upcoming_id());
        assert forall|i: int| 0 <= i < states.len() implies (#[trigger] states[i]).stored() == states[0].stored() by {
            if i < states.len() - 1 {
                assert(states[i] == s2[i]);
            } else {
                assert(states[n].stored() == s2[n].stored());
            }
        }
    }
}

} // verus!
