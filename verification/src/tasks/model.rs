//! Tasks, priorities and domain errors.

use vstd::prelude::*;

use crate::text::{
    chars_of, decimal, decimal_digits, has_substring, owned, push_all, push_str,
    string_from_chars, to_lowercase, unicode_lowercase, contains,
};

verus! {

/// Priority level for a task.
#[derive(Debug, Clone, Copy, PartialEq, Eq, Structural)]
pub enum Priority {
    Low,
    Medium,
    High,
    Critical,
}

/// The display label of a priority.
pub open spec fn priority_label(p: Priority) -> Seq<char> {
    match p {
        Priority::Low => "Low"@,
        Priority::Medium => "Medium"@,
        Priority::High => "High"@,
        Priority::Critical => "Critical"@,
    }
}

impl Priority {
    /// High and Critical are the urgent priorities.
    pub open spec fn urgent(self) -> bool {
        self is High || self is Critical
    }

    pub fn is_urgent(&self) -> (b: bool)
        ensures
            b == self.urgent(),
    {
        match self {
            Priority::High | Priority::Critical => true,
            _ => false,
        }
    }

    pub fn label(&self) -> (s: &'static str)
        ensures
            s@ == priority_label(*self),
    {
        match self {
            Priority::Low => "Low",
            Priority::Medium => "Medium",
            Priority::High => "High",
            Priority::Critical => "Critical",
        }
    }
}

/// The mathematical content of a [`Task`].
pub struct TaskView {
    pub id: u64,
    pub title: Seq<char>,
    pub description: Seq<char>,
    pub completed: bool,
    pub priority: Priority,
    pub tags: Seq<Seq<char>>,
}

/// A task in the task management system.
#[derive(Debug, Clone, PartialEq)]
pub struct Task {
    pub id: u64,
    pub title: String,
    pub description: String,
    pub completed: bool,
    pub priority: Priority,
    pub tags: Vec<String>,
}

pub open spec fn string_views(v: Seq<String>) -> Seq<Seq<char>> {
    v.map_values(|s: String| s@)
}

impl View for Task {
    type V = TaskView;

    open spec fn view(&self) -> TaskView {
        TaskView {
            id: self.id,
            title: self.title@,
            description: self.description@,
            completed: self.completed,
            priority: self.priority,
            tags: string_views(self.tags@),
        }
    }
}

impl TaskView {
    /// `query` occurs, ignoring case, in the title, the description or a tag.
    pub open spec fn matches(self, query: Seq<char>) -> bool {
        let q = unicode_lowercase(query);
        ||| has_substring(unicode_lowercase(self.title), q)
        ||| has_substring(unicode_lowercase(self.description), q)
        ||| exists|i: int| 0 <= i < self.tags.len() && has_substring(unicode_lowercase(#[trigger] self.tags[i]), q)
    }

    /// Open and urgent.
    pub open spec fn actionable(self) -> bool {
        !self.completed && self.priority.urgent()
    }
}

/// `t` with its completion flipped.
pub open spec fn toggled(t: TaskView) -> TaskView {
    TaskView { completed: !t.completed, ..t }
}

/// Toggling completion twice gives back the task as it was.
pub proof fn lemma_toggle_twice(t: TaskView)
    ensures
        toggled(toggled(t)) == t,
{
}

/// A copy of the strings of `v`.
pub fn copy_strings(v: &Vec<String>) -> (r: Vec<String>)
    ensures
        r@ == v@,
{
    let mut out: Vec<String> = Vec::new();
    let mut i: usize = 0;
    while i < v.len()
        invariant
            i <= v.len(),
            out@ == v@.take(i as int),
        decreases v.len() - i,
    {
        out.push(v[i].clone());
        proof {
            assert(v@.take(i + 1) == v@.take(i as int).push(v@[i as int]));
        }
        i += 1;
    }
    proof {
        assert(v@.take(i as int) == v@);
    }
    out
}

impl Task {
    pub fn new(id: u64, title: &str, priority: Priority) -> (t: Task)
        ensures
            t@ == (TaskView {
                id,
                title: title@,
                description: Seq::empty(),
                completed: false,
                priority,
                tags: Seq::empty(),
            }),
    {
        let t = Task {
            id,
            title: owned(title),
            description: String::new(),
            completed: false,
            priority,
            tags: Vec::new(),
        };
        proof {
            assert(string_views(t.tags@) == Seq::<Seq<char>>::empty());
        }
        t
    }

    pub fn with_description(self, desc: &str) -> (t: Task)
        ensures
            t@ == (TaskView { description: desc@, ..self@ }),
    {
        let mut t = self;
        t.description = owned(desc);
        t
    }

    pub fn with_tags(self, tags: Vec<String>) -> (t: Task)
        ensures
            t@ == (TaskView { tags: string_views(tags@), ..self@ }),
    {
        let mut t = self;
        t.tags = tags;
        t
    }

    pub fn toggle_completed(&mut self)
        ensures
            final(self)@ == toggled(old(self)@),
    {
        self.completed = !self.completed;
    }

    pub fn matches_search(&self, query: &str) -> (b: bool)
        ensures
            b == self@.matches(query@),
    {
        let q = to_lowercase(query);
        let qc = chars_of(q.as_str());
        let title = to_lowercase(self.title.as_str());
        if contains(chars_of(title.as_str()).as_slice(), qc.as_slice()) {
            return true;
        }
        let desc = to_lowercase(self.description.as_str());
        if contains(chars_of(desc.as_str()).as_slice(), qc.as_slice()) {
            return true;
        }
        let ghost tags = self@.tags;
        let mut i: usize = 0;
        while i < self.tags.len()
            invariant
                i <= self.tags.len(),
                tags == string_views(self.tags@),
                tags == self@.tags,
                !has_substring(unicode_lowercase(self@.title), unicode_lowercase(query@)),
                !has_substring(unicode_lowercase(self@.description), unicode_lowercase(query@)),
                qc@ == unicode_lowercase(query@),
                forall|k: int| 0 <= k < i ==> !has_substring(unicode_lowercase(#[trigger] tags[k]), qc@),
            decreases self.tags.len() - i,
        {
            let t = to_lowercase(self.tags[i].as_str());
            if contains(chars_of(t.as_str()).as_slice(), qc.as_slice()) {
                proof {
                    assert(tags.len() == self.tags@.len());
                    assert(tags[i as int] == self.tags@[i as int]@);
                    assert(has_substring(unicode_lowercase(tags[i as int]), unicode_lowercase(query@)));
                }
                return true;
            }
            i += 1;
        }
        false
    }

    pub fn is_actionable(&self) -> (b: bool)
        ensures
            b == self@.actionable(),
    {
        !self.completed && self.priority.is_urgent()
    }

    /// Duplicates the task, field by field.
    pub fn duplicate(&self) -> (t: Task)
        ensures
            t@ == self@,
    {
        Task {
            id: self.id,
            title: self.title.clone(),
            description: self.description.clone(),
            completed: self.completed,
            priority: self.priority,
            tags: copy_strings(&self.tags),
        }
    }
}

/// Errors of the task domain.
#[derive(Debug, Clone, PartialEq)]
pub enum TaskError {
    NotFound(u64),
    DuplicateTitle(String),
    ValidationError(String),
}

/// Result of an operation that may fail with a domain error.
pub type TaskResult<T> = Result<T, TaskError>;

/// The human-readable text of an error (its `Display` form).
pub open spec fn task_error_text(e: TaskError) -> Seq<char> {
    match e {
        TaskError::NotFound(id) => "Task not found: "@ + decimal(id as nat),
        TaskError::DuplicateTitle(t) => "Duplicate title: "@ + t@,
        TaskError::ValidationError(m) => "Validation error: "@ + m@,
    }
}

impl TaskError {
    /// Renders the error as text.
    pub fn message(&self) -> (s: String)
        ensures
            s@ == task_error_text(*self),
    {
        let mut out: Vec<char> = Vec::new();
        match self {
            TaskError::NotFound(id) => {
                push_str(&mut out, "Task not found: ");
                let d = decimal_digits(*id);
                push_all(&mut out, d.as_slice());
            },
            TaskError::DuplicateTitle(t) => {
                push_str(&mut out, "Duplicate title: ");
                let c = chars_of(t.as_str());
                push_all(&mut out, c.as_slice());
            },
            TaskError::ValidationError(m) => {
                push_str(&mut out, "Validation error: ");
                let c = chars_of(m.as_str());
                push_all(&mut out, c.as_slice());
            },
        }
        string_from_chars(out.as_slice())
    }
}

} // verus!
