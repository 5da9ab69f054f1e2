//! Use cases: the operations the application performs on a repository.

use vstd::prelude::*;

use crate::tasks::model::{Priority, Task, TaskError, TaskResult, TaskView, string_views};
use crate::tasks::repository::{lists_by_id, title_taken, TaskRepository};
use crate::tasks::validation::{
    sanitize_description, sanitized, tag_problem, title_problem, validate_tag, validate_title,
};

verus! {

/// The problem with the first invalid tag of `tags`, if any.
pub open spec fn first_tag_problem(tags: Seq<Seq<char>>) -> Option<Seq<char>>
    decreases tags.len(),
{
    if tags.len() == 0 {
        None
    } else {
        match tag_problem(tags[0]) {
            Some(m) => Some(m),
            None => first_tag_problem(tags.drop_first()),
        }
    }
}

/// The task `add_task` builds from its arguments.
pub open spec fn new_task_view(
    id: u64,
    title: Seq<char>,
    priority: Priority,
    description: Option<Seq<char>>,
    tags: Seq<Seq<char>>,
) -> TaskView {
    TaskView {
        id,
        title,
        description: match description {
            Some(d) => sanitized(d),
            None => Seq::empty(),
        },
        completed: false,
        priority,
        tags,
    }
}

proof fn lemma_first_tag_problem_step(tags: Seq<Seq<char>>, i: int)
    requires
        0 <= i < tags.len(),
        forall|k: int| 0 <= k < i ==> tag_problem(#[trigger] tags[k]) is None,
    ensures
        first_tag_problem(tags) == (match tag_problem(tags[i]) {
            Some(m) => Some(m),
            None => first_tag_problem(tags.skip(i + 1)),
        }),
    decreases i,
{
    if i > 0 {
        assert(tag_problem(tags[0]) is None);
        lemma_first_tag_problem_step(tags.drop_first(), i - 1);
        assert(tags.drop_first().skip(i) == tags.skip(i + 1));
    } else {
        assert(tags.skip(1) == tags.drop_first());
    }
}

/// Add a new task with validation.
pub fn add_task<R: TaskRepository>(
    repo: &mut R,
    id: u64,
    title: &str,
    priority: Priority,
    description: Option<&str>,
    tags: Vec<String>,
) -> (r: TaskResult<Task>)
    ensures
        ({
            let tv = new_task_view(
                id,
                title@,
                priority,
                match description {
                    Some(d) => Some(d@),
                    None => None,
                },
                string_views(tags@),
            );
            if let Some(m) = title_problem(title@) {
                &&& r matches Err(TaskError::ValidationError(msg)) && msg@ == m
                &&& final(repo).stored() == old(repo).stored()
            } else if let Some(m) = first_tag_problem(string_views(tags@)) {
                &&& r matches Err(TaskError::ValidationError(msg)) && msg@ == m
                &&& final(repo).stored() == old(repo).stored()
            } else if title_taken(old(repo).stored(), title@) {
                &&& r matches Err(TaskError::DuplicateTitle(t)) && t@ == title@
                &&& final(repo).stored() == old(repo).stored()
            } else {
                &&& r matches Ok(t) && t@ == tv
                &&& final(repo).stored() == old(repo).stored().insert(id, tv)
            }
        }),
{
    match validate_title(title) {
        Ok(()) => {},
        Err(e) => {
            return Err(e);
        },
    }
    let ghost views = string_views(tags@);
    let mut i: usize = 0;
    while i < tags.len()
        invariant
            i <= tags.len(),
            views == string_views(tags@),
            title_problem(title@) is None,
            forall|k: int| 0 <= k < i ==> tag_problem(#[trigger] views[k]) is None,
        decreases tags.len() - i,
    {
        let checked = validate_tag(tags[i].as_str());
        proof {
            lemma_first_tag_problem_step(views, i as int);
            assert(views[i as int] == tags@[i as int]@);
        }
        match checked {
            Ok(()) => {},
            Err(e) => {
                return Err(e);
            },
        }
        proof {
            assert(first_tag_problem(views) == first_tag_problem(views.skip(i + 1)));
        }
        i += 1;
    }
    proof {
        if tags.len() > 0 {
            lemma_first_tag_problem_step(views, tags.len() - 1);
            assert(views.skip(tags.len() as int).len() == 0);
        }
    }
    let desc = match description {
        Some(d) => sanitize_description(d),
        None => String::new(),
    };
    let task = Task::new(id, title, priority).with_description(desc.as_str()).with_tags(tags);
    match repo.add(task.duplicate()) {
        Ok(()) => Ok(task),
        Err(e) => Err(e),
    }
}

/// Toggle a task's completion status.
pub fn toggle_task<R: TaskRepository>(repo: &mut R, id: u64) -> (r: TaskResult<Task>)
    ensures
        old(repo).stored().contains_key(id) ==> {
            let tv = TaskView { completed: !old(repo).stored()[id].completed, ..old(repo).stored()[id] };
            &&& r matches Ok(t) && t@ == tv
            &&& final(repo).stored() == old(repo).stored().insert(id, tv)
        },
        !old(repo).stored().contains_key(id) ==> {
            &&& r == Err::<Task, TaskError>(TaskError::NotFound(id))
            &&& final(repo).stored() == old(repo).stored()
        },
{
    let mut task = match repo.get_by_id(id) {
        Ok(t) => t,
        Err(e) => {
            return Err(e);
        },
    };
    task.toggle_completed();
    match repo.update(task.duplicate()) {
        Ok(()) => Ok(task),
        Err(e) => Err(e),
    }
}

/// Remove a task by ID.
pub fn remove_task<R: TaskRepository>(repo: &mut R, id: u64) -> (r: TaskResult<Task>)
    ensures
        match r {
            Ok(t) => {
                &&& old(repo).stored().contains_key(id)
                &&& t@ == old(repo).stored()[id]
                &&& final(repo).stored() == old(repo).stored().remove(id)
            },
            Err(e) => {
                &&& !old(repo).stored().contains_key(id)
                &&& e == TaskError::NotFound(id)
                &&& final(repo).stored() == old(repo).stored()
            },
        },
{
    repo.remove(id)
}

/// The stored tasks satisfying `keep`.
pub open spec fn stored_where(m: Map<u64, TaskView>, keep: spec_fn(TaskView) -> bool) -> Map<u64, TaskView> {
    Map::new(|k: u64| m.contains_key(k) && keep(m[k]), |k: u64| m[k])
}

/// The tasks of `all` whose entry in `keep` is set, in the same order.
fn select(
    all: &Vec<Task>,
    keep: &Vec<bool>,
    Ghost(m): Ghost<Map<u64, TaskView>>,
    Ghost(pred): Ghost<spec_fn(TaskView) -> bool>,
) -> (r: Vec<Task>)
    requires
        lists_by_id(all@, m),
        keep@.len() == all@.len(),
        forall|i: int| 0 <= i < all@.len() ==> keep@[i] == pred(#[trigger] all@[i]@),
    ensures
        lists_by_id(r@, stored_where(m, pred)),
{
    let mut out: Vec<Task> = Vec::new();
    let mut i: usize = 0;
    while i < all.len()
        invariant
            i <= all.len(),
            lists_by_id(all@, m),
            keep@.len() == all@.len(),
            forall|i: int| 0 <= i < all@.len() ==> keep@[i] == pred(#[trigger] all@[i]@),
            forall|a: int, b: int| 0 <= a < b < out@.len() ==> out@[a].id < out@[b].id,
            forall|a: int| 0 <= a < out@.len() ==> stored_where(m, pred).contains_key(
                #[trigger] out@[a].id,
            ) && stored_where(m, pred)[out@[a].id] == out@[a]@,
            forall|a: int| #![trigger out@[a]] 0 <= a < out@.len() ==> exists|b: int| 0 <= b < i && #[trigger] all@[b].id == out@[a].id,
            forall|b: int| 0 <= b < i && pred(#[trigger] all@[b]@) ==> exists|a: int|
                0 <= a < out@.len() && out@[a].id == all@[b].id,
        decreases all.len() - i,
    {
        let ghost before = out@;
        if keep[i] {
            out.push(all[i].duplicate());
            proof {
                assert forall|a: int| 0 <= a < before.len() implies before[a].id < all@[i as int].id by {
                    let b = choose|b: int| 0 <= b < i && #[trigger] all@[b].id == before[a].id;
                }
            }
        }
        proof {
            assert forall|a: int| #![trigger out@[a]] 0 <= a < out@.len() implies exists|b: int| 0 <= b < i + 1 && #[trigger] all@[b].id == out@[a].id by {
                if a < before.len() {
                    let b = choose|b: int| 0 <= b < i && #[trigger] all@[b].id == before[a].id;
                    assert(out@[a] == before[a]);
                } else {
                    assert(all@[i as int].id == out@[a].id);
                }
            }
            assert forall|b: int| 0 <= b < i + 1 && pred(#[trigger] all@[b]@) implies exists|a: int|
                0 <= a < out@.len() && out@[a].id == all@[b].id by {
                if b < i {
                    let a = choose|a: int| 0 <= a < before.len() && before[a].id == all@[b].id;
                    assert(out@[a] == before[a]);
                } else {
                    assert(out@[out@.len() - 1].id == all@[b].id);
                }
            }
        }
        i += 1;
    }
    proof {
        let sw = stored_where(m, pred);
        assert forall|k: u64| sw.contains_key(k) implies exists|a: int| 0 <= a < out@.len() && #[trigger] out@[a].id == k by {
            let b = choose|b: int| 0 <= b < all@.len() && #[trigger] all@[b].id == k;
            assert(pred(all@[b]@));
            let a = choose|a: int| 0 <= a < out@.len() && out@[a].id == all@[b].id;
        }
    }
    out
}

/// Get all tasks, optionally filtered by a search query.
pub fn get_tasks<R: TaskRepository>(repo: &R, query: Option<&str>) -> (r: Vec<Task>)
    ensures
        match query {
            Some(q) if q@.len() > 0 => lists_by_id(r@, stored_where(repo.stored(), |t: TaskView| t.matches(q@))),
            _ => lists_by_id(r@, repo.stored()),
        },
{
    let all = repo.get_all();
    match query {
        Some(q) => {
            if q.is_empty() {
                return all;
            }
            let mut keep: Vec<bool> = Vec::new();
            let mut i: usize = 0;
            while i < all.len()
                invariant
                    i <= all.len(),
                    keep@.len() == i,
                    forall|k: int| 0 <= k < i ==> keep@[k] == (#[trigger] all@[k]@).matches(q@),
                decreases all.len() - i,
            {
                keep.push(all[i].matches_search(q));
                i += 1;
            }
            select(&all, &keep, Ghost(repo.stored()), Ghost(|t: TaskView| t.matches(q@)))
        },
        None => all,
    }
}

/// Critical first, Low last.
pub open spec fn priority_rank(p: Priority) -> int {
    match p {
        Priority::Critical => 0,
        Priority::High => 1,
        Priority::Medium => 2,
        Priority::Low => 3,
    }
}

/// Get tasks grouped by priority.
pub fn get_tasks_by_priority<R: TaskRepository>(repo: &R) -> (r: Vec<(Priority, Vec<Task>)>)
    ensures
        forall|i: int, j: int| 0 <= i < j < r@.len() ==> priority_rank(r@[i].0) < priority_rank(r@[j].0),
        forall|i: int| 0 <= i < r@.len() ==> {
            &&& (#[trigger] r@[i]).1@.len() > 0
            &&& lists_by_id(r@[i].1@, stored_where(repo.stored(), |t: TaskView| t.priority == r@[i].0))
        },
        forall|k: u64| repo.stored().contains_key(k) ==> exists|i: int|
            0 <= i < r@.len() && (#[trigger] r@[i]).0 == repo.stored()[k].priority,
{
    let all = repo.get_all();
    let ghost m = repo.stored();
    let priorities: [Priority; 4] = [Priority::Critical, Priority::High, Priority::Medium, Priority::Low];
    let mut groups: Vec<(Priority, Vec<Task>)> = Vec::new();
    let mut n: usize = 0;
    while n < 4
        invariant
            n <= 4,
            lists_by_id(all@, m),
            m == repo.stored(),
            priorities@ == seq![Priority::Critical, Priority::High, Priority::Medium, Priority::Low],
            forall|i: int| 0 <= i < groups@.len() ==> priority_rank(#[trigger] groups@[i].0) < n,
            forall|i: int, j: int| 0 <= i < j < groups@.len() ==> priority_rank(groups@[i].0) < priority_rank(groups@[j].0),
            forall|i: int| 0 <= i < groups@.len() ==> {
                &&& (#[trigger] groups@[i]).1@.len() > 0
                &&& lists_by_id(groups@[i].1@, stored_where(m, |t: TaskView| t.priority == groups@[i].0))
            },
            forall|k: u64| m.contains_key(k) && priority_rank(m[k].priority) < n ==> exists|i: int|
                0 <= i < groups@.len() && (#[trigger] groups@[i]).0 == m[k].priority,
        decreases 4 - n,
    {
        let p = priorities[n];
        proof {
            assert(priority_rank(p) == n);
        }
        let mut keep: Vec<bool> = Vec::new();
        let mut i: usize = 0;
        while i < all.len()
            invariant
                i <= all.len(),
                keep@.len() == i,
                forall|k: int| 0 <= k < i ==> keep@[k] == ((#[trigger] all@[k]@).priority == p),
            decreases all.len() - i,
        {
            keep.push(all[i].priority == p);
            i += 1;
        }
        let tasks = select(&all, &keep, Ghost(m), Ghost(|t: TaskView| t.priority == p));
        let ghost before = groups@;
        if tasks.len() > 0 {
            groups.push((p, tasks));
        }
        proof {
            assert forall|k: u64| m.contains_key(k) && priority_rank(m[k].priority) < n + 1 implies exists|i: int|
                0 <= i < groups@.len() && (#[trigger] groups@[i]).0 == m[k].priority by {
                if priority_rank(m[k].priority) < n {
                    let i = choose|i: int| 0 <= i < before.len() && (#[trigger] before[i]).0 == m[k].priority;
                    assert(groups@[i] == before[i]);
                } else {
                    assert(m[k].priority == p);
                    let sw = stored_where(m, |t: TaskView| t.priority == p);
                    assert(sw.contains_key(k));
                    if tasks.len() == 0 {
                        let a = choose|a: int| 0 <= a < tasks@.len() && #[trigger] tasks@[a].id == k;
                    }
                    assert(groups@[groups@.len() - 1].0 == p);
                }
            }
        }
        n += 1;
    }
    groups
}

/// Summary counts over the stored tasks.
#[derive(Debug, Clone, PartialEq)]
pub struct TaskStats {
    pub total: usize,
    pub completed: usize,
    pub pending: usize,
    pub actionable: usize,
}

/// How many tasks of `s` satisfy `keep`.
pub open spec fn count_where(s: Seq<Task>, keep: spec_fn(TaskView) -> bool) -> nat
    decreases s.len(),
{
    if s.len() == 0 {
        0
    } else {
        count_where(s.drop_last(), keep) + if keep(s.last()@) { 1nat } else { 0nat }
    }
}

proof fn lemma_count_where_le(s: Seq<Task>, keep: spec_fn(TaskView) -> bool)
    ensures
        count_where(s, keep) <= s.len(),
    decreases s.len(),
{
    if s.len() > 0 {
        lemma_count_where_le(s.drop_last(), keep);
    }
}

/// Get summary statistics.
pub fn get_stats<R: TaskRepository>(repo: &R) -> (r: TaskStats)
    ensures
        exists|l: Seq<Task>| {
            &&& lists_by_id(l, repo.stored())
            &&& r.total == l.len()
            &&& r.completed == count_where(l, |t: TaskView| t.completed)
            &&& r.actionable == count_where(l, |t: TaskView| t.actionable())
        },
        r.pending == r.total - r.completed,
{
    let all = repo.get_all();
    let ghost done_pred = |t: TaskView| t.completed;
    let ghost act_pred = |t: TaskView| t.actionable();
    let mut completed: usize = 0;
    let mut actionable: usize = 0;
    let mut i: usize = 0;
    while i < all.len()
        invariant
            i <= all.len(),
            done_pred == (|t: TaskView| t.completed),
            act_pred == (|t: TaskView| t.actionable()),
            completed == count_where(all@.take(i as int), done_pred),
            actionable == count_where(all@.take(i as int), act_pred),
        decreases all.len() - i,
    {
        proof {
            assert(all@.take(i + 1).drop_last() == all@.take(i as int));
            lemma_count_where_le(all@.take(i as int), done_pred);
            lemma_count_where_le(all@.take(i as int), act_pred);
        }
        if all[i].completed {
            completed += 1;
        }
        if all[i].is_actionable() {
            actionable += 1;
        }
        i += 1;
    }
    proof {
        assert(all@.take(i as int) == all@);
        lemma_count_where_le(all@, done_pred);
    }
    let total = all.len();
    TaskStats { total, completed, pending: total - completed, actionable }
}

} // verus!
