//! Plain-text rendering of tasks for the command line.

use vstd::prelude::*;

use crate::tasks::model::{priority_label, string_views, Priority, Task, TaskView};
use crate::text::{chars_of, decimal, decimal_digits, owned, push_all, push_str, string_from_chars};

verus! {

/// The badge shown for a priority.
pub open spec fn priority_badge(p: Priority) -> Seq<char> {
    match p {
        Priority::Critical => "[!!!]"@,
        Priority::High => "[!!]"@,
        Priority::Medium => "[!]"@,
        Priority::Low => "[ ]"@,
    }
}

/// `parts` joined by `sep`.
pub open spec fn joined(parts: Seq<Seq<char>>, sep: Seq<char>) -> Seq<char>
    decreases parts.len(),
{
    if parts.len() == 0 {
        Seq::empty()
    } else if parts.len() == 1 {
        parts[0]
    } else {
        joined(parts.drop_last(), sep) + sep + parts.last()
    }
}

/// A task as one line: status, priority badge, title, and its tags.
pub open spec fn task_line(t: TaskView) -> Seq<char> {
    let status = if t.completed {
        "✓"@
    } else {
        "○"@
    };
    let tags = if t.tags.len() == 0 {
        Seq::empty()
    } else {
        " ("@ + joined(t.tags, ", "@) + ")"@
    };
    status + " "@ + priority_badge(t.priority) + " "@ + t.title + tags
}

fn join_into(out: &mut Vec<char>, parts: &Vec<String>, sep: &str)
    ensures
        final(out)@ == old(out)@ + joined(string_views(parts@), sep@),
{
    let ghost start = out@;
    let ghost v = string_views(parts@);
    let mut i: usize = 0;
    proof {
        assert(v.take(0) =~= Seq::<Seq<char>>::empty());
        assert(out@ == start + joined(v.take(0), sep@));
    }
    while i < parts.len()
        invariant
            i <= parts@.len(),
            v == string_views(parts@),
            out@ == start + joined(v.take(i as int), sep@),
        decreases parts.len() - i,
    {
        proof {
            assert(v.take(i + 1).drop_last() == v.take(i as int));
            assert(v.take(i + 1).last() == parts@[i as int]@);
        }
        if i > 0 {
            push_str(out, sep);
        }
        push_all(out, chars_of(parts[i].as_str()).as_slice());
        proof {
            if i == 0 {
                assert(v.take(1)[0] == parts@[0]@);
            }
        }
        i += 1;
    }
    proof {
        assert(v.take(i as int) == v);
    }
}

/// Format a task as a single-line summary.
pub fn format_task_line(task: &Task) -> (r: String)
    ensures
        r@ == task_line(task@),
{
    let mut out: Vec<char> = Vec::new();
    if task.completed {
        push_str(&mut out, "✓");
    } else {
        push_str(&mut out, "○");
    }
    push_str(&mut out, " ");
    let badge = match task.priority {
        Priority::Critical => "[!!!]",
        Priority::High => "[!!]",
        Priority::Medium => "[!]",
        Priority::Low => "[ ]",
    };
    push_str(&mut out, badge);
    push_str(&mut out, " ");
    push_all(&mut out, chars_of(task.title.as_str()).as_slice());
    if task.tags.len() > 0 {
        push_str(&mut out, " (");
        join_into(&mut out, &task.tags, ", ");
        push_str(&mut out, ")");
    }
    proof {
        reveal_strlit("");
    }
    string_from_chars(out.as_slice())
}

/// Format a list of tasks as a report, one line per task.
pub fn format_task_list(tasks: &[Task]) -> (r: String)
    ensures
        tasks@.len() == 0 ==> r@ == "No tasks found."@,
        tasks@.len() > 0 ==> r@ == joined(tasks@.map_values(|t: Task| task_line(t@)), "\n"@),
{
    if tasks.len() == 0 {
        return owned("No tasks found.");
    }
    let ghost v = tasks@.map_values(|t: Task| task_line(t@));
    let mut out: Vec<char> = Vec::new();
    let mut i: usize = 0;
    proof {
        assert(v.take(0) =~= Seq::<Seq<char>>::empty());
    }
    while i < tasks.len()
        invariant
            i <= tasks@.len(),
            v == tasks@.map_values(|t: Task| task_line(t@)),
            out@ == joined(v.take(i as int), "\n"@),
        decreases tasks.len() - i,
    {
        proof {
            assert(v.take(i + 1).drop_last() == v.take(i as int));
            assert(v.take(i + 1).last() == task_line(tasks@[i as int]@));
        }
        if i > 0 {
            push_str(&mut out, "\n");
        }
        let line = format_task_line(&tasks[i]);
        push_all(&mut out, chars_of(line.as_str()).as_slice());
        proof {
            if i == 0 {
                assert(v.take(1)[0] == task_line(tasks@[0]@));
                assert(out@ == line@);
            }
        }
        i += 1;
    }
    proof {
        assert(v.take(i as int) == v);
    }
    string_from_chars(out.as_slice())
}

/// One line of the priority distribution: the priority and its task count.
pub open spec fn distribution_line(g: (Priority, Seq<Task>)) -> Seq<char> {
    priority_label(g.0) + ": "@ + decimal(g.1.len()) + " task(s)"@
}

/// Format a priority distribution table.
pub fn format_priority_distribution(groups: &[(Priority, Vec<Task>)]) -> (r: String)
    ensures
        groups@.len() == 0 ==> r@ == "No tasks."@,
        groups@.len() > 0 ==> r@ == joined(
            groups@.map_values(|g: (Priority, Vec<Task>)| distribution_line((g.0, g.1@))),
            "\n"@,
        ),
{
    if groups.len() == 0 {
        return owned("No tasks.");
    }
    let ghost v = groups@.map_values(|g: (Priority, Vec<Task>)| distribution_line((g.0, g.1@)));
    let mut out: Vec<char> = Vec::new();
    let mut i: usize = 0;
    proof {
        assert(v.take(0) =~= Seq::<Seq<char>>::empty());
    }
    while i < groups.len()
        invariant
            i <= groups@.len(),
            v == groups@.map_values(|g: (Priority, Vec<Task>)| distribution_line((g.0, g.1@))),
            out@ == joined(v.take(i as int), "\n"@),
        decreases groups.len() - i,
    {
        proof {
            assert(v.take(i + 1).drop_last() == v.take(i as int));
        }
        let ghost before = out@;
        if i > 0 {
            push_str(&mut out, "\n");
        }
        let ghost mid = out@;
        push_str(&mut out, groups[i].0.label());
        push_str(&mut out, ": ");
        push_all(&mut out, decimal_digits(groups[i].1.len() as u64).as_slice());
        push_str(&mut out, " task(s)");
        proof {
            let line = distribution_line((groups@[i as int].0, groups@[i as int].1@));
            assert(out@ == mid + line);
            assert(v.take(i + 1).last() == line);
            if i == 0 {
                assert(v.take(1)[0] == line);
                assert(mid == Seq::<char>::empty());
            }
        }
        i += 1;
    }
    proof {
        assert(v.take(i as int) == v);
    }
    string_from_chars(out.as_slice())
}

} // verus!
