//! The todo-list manager's task logic: the task record, priority parsing,
//! identifier allocation, and the list operations behind the add, done and
//! remove commands. File persistence and printing live outside the library.

use vstd::prelude::*;
use vstd::string::StringExecFns;
use crate::text::{lower_of, lowercase};

verus! {

/// How urgent a task is.
#[derive(Clone, Debug, PartialEq, Eq, Structural)]
pub enum Priority {
    Low,
    Medium,
    High,
}

impl Priority {
    /// The lower-case text of the priority, as it is rendered and stored.
    pub open spec fn spec_label(self) -> Seq<char> {
        match self {
            Priority::Low => "low"@,
            Priority::Medium => "medium"@,
            Priority::High => "high"@,
        }
    }

    /// Renders the priority as its lower-case label.
    pub fn label(&self) -> (r: String)
        ensures
            r@ == self.spec_label(),
    {
        match self {
            Priority::Low => "low".to_owned(),
            Priority::Medium => "medium".to_owned(),
            Priority::High => "high".to_owned(),
        }
    }

    /// Parses a priority, case-insensitively; "med" is accepted for Medium.
    /// Any other text is rejected with a message naming the offending input.
    pub fn from_str(s: &str) -> (r: Result<Priority, String>)
        ensures
            lower_of(s@) == "low"@ ==> r == Result::<Priority, String>::Ok(Priority::Low),
            lower_of(s@) == "medium"@ || lower_of(s@) == "med"@ ==> r == Result::<
                Priority,
                String,
            >::Ok(Priority::Medium),
            lower_of(s@) == "high"@ ==> r == Result::<Priority, String>::Ok(Priority::High),
            r is Err <==> !(lower_of(s@) == "low"@ || lower_of(s@) == "medium"@ || lower_of(s@)
                == "med"@ || lower_of(s@) == "high"@),
            r matches Err(m) ==> m@ == "Invalid priority: '"@ + s@
                + "'. Use low, medium, or high"@,
    {
        proof {
            broadcast use vstd::string::group_string_axioms;

            reveal_strlit("low");
            reveal_strlit("medium");
            reveal_strlit("med");
            reveal_strlit("high");
            assert("low"@.len() == 3);
            assert("med"@.len() == 3);
            assert("medium"@.len() == 6);
            assert("high"@.len() == 4);
            assert("low"@[0] == 'l');
            assert("med"@[0] == 'm');
            assert("low"@ != "medium"@ && "low"@ != "med"@ && "low"@ != "high"@);
            assert("medium"@ != "med"@ && "medium"@ != "high"@);
            assert("med"@ != "high"@);
        }
        let folded = lowercase(s);
        if folded == "low".to_owned() {
            Ok(Priority::Low)
        } else if folded == "medium".to_owned() || folded == "med".to_owned() {
            Ok(Priority::Medium)
        } else if folded == "high".to_owned() {
            Ok(Priority::High)
        } else {
            let mut m = "Invalid priority: '".to_owned();
            m.append(s);
            m.append("'. Use low, medium, or high");
            Err(m)
        }
    }
}

/// One task of the todo list.
#[derive(Clone, Debug)]
pub struct Task {
    pub id: u32,
    pub description: String,
    pub completed: bool,
    pub priority: Priority,
}

impl Task {
    /// Creates a task: fresh tasks start out not completed.
    pub fn new(id: u32, description: String, priority: Priority) -> (t: Task)
        ensures
            t.id == id,
            t.description == description,
            t.completed == false,
            t.priority == priority,
    {
        Task { id, description, completed: false, priority }
    }
}

/// The largest task identifier of the list, 0 when the list is empty.
pub open spec fn max_id(s: Seq<Task>) -> int
    decreases s.len(),
{
    if s.len() == 0 {
        0
    } else {
        let rest = max_id(s.drop_last());
        if s.last().id > rest {
            s.last().id as int
        } else {
            rest
        }
    }
}

/// Allocates the next identifier: one more than the largest in use.
pub fn next_id(tasks: &Vec<Task>) -> (id: u32)
    requires
        max_id(tasks@) < u32::MAX,
    ensures
        id == max_id(tasks@) + 1,
{
    let mut m: u32 = 0;
    let mut i: usize = 0;
    while i < tasks.len()
        invariant
            0 <= i <= tasks@.len(),
            m == max_id(tasks@.take(i as int)),
            max_id(tasks@) < u32::MAX,
        decreases tasks@.len() - i,
    {
        proof {
            assert(tasks@.take(i + 1).drop_last() =~= tasks@.take(i as int));
            assert(tasks@.take(i + 1).last() == tasks@[i as int]);
            lemma_max_id_take_le(tasks@, i + 1);
        }
        if tasks[i].id > m {
            m = tasks[i].id;
        }
        i = i + 1;
    }
    proof {
        assert(tasks@.take(tasks@.len() as int) =~= tasks@);
    }
    m + 1
}

/// A prefix never has a larger maximum identifier than the whole list.
proof fn lemma_max_id_take_le(s: Seq<Task>, k: int)
    requires
        0 <= k <= s.len(),
    ensures
        max_id(s.take(k)) <= max_id(s),
    decreases s.len(),
{
    if k == s.len() {
        assert(s.take(k) =~= s);
    } else {
        assert(s.take(k) =~= s.drop_last().take(k));
        lemma_max_id_take_le(s.drop_last(), k);
    }
}

/// Appends a new task with a fresh identifier, the given description and
/// priority, and reports the identifier it was given.
pub fn add_task(tasks: &mut Vec<Task>, description: String, priority: Priority) -> (id: u32)
    requires
        max_id(old(tasks)@) < u32::MAX,
    ensures
        id == max_id(old(tasks)@) + 1,
        final(tasks)@ == old(tasks)@.push(
            Task { id, description, completed: false, priority },
        ),
{
    let id = next_id(tasks);
    let t = Task::new(id, description, priority);
    tasks.push(t);
    id
}

/// Index `i` holds the first task with identifier `id`.
pub open spec fn first_with_id(s: Seq<Task>, id: u32, i: int) -> bool {
    &&& 0 <= i < s.len()
    &&& s[i].id == id
    &&& forall|j: int| 0 <= j < i ==> (#[trigger] s[j]).id != id
}

/// The task `t` with its completed flag set.
pub open spec fn mark_done(t: Task) -> Task {
    Task { completed: true, ..t }
}

/// What completing a task by identifier came to.
pub enum DoneOutcome {
    /// The first task with that identifier was marked completed; its
    /// description is carried for reporting.
    Completed(String),
    /// That task was already completed; the list is unchanged.
    AlreadyDone(String),
    /// No task has that identifier; the list is unchanged.
    NotFound,
}

/// Marks the first task with the given identifier as completed. A missing
/// identifier or an already-completed task leaves the list unchanged.
pub fn complete_task(tasks: &mut Vec<Task>, id: u32) -> (r: DoneOutcome)
    ensures
        (r is NotFound) <==> (forall|j: int|
            0 <= j < old(tasks)@.len() ==> (#[trigger] old(tasks)@[j]).id != id),
        r is NotFound ==> final(tasks)@ == old(tasks)@,
        forall|i: int|
            first_with_id(old(tasks)@, id, i) ==> {
                &&& (old(tasks)@[i].completed ==> r == DoneOutcome::AlreadyDone(
                    old(tasks)@[i].description,
                ) && final(tasks)@ == old(tasks)@)
                &&& (!old(tasks)@[i].completed ==> r == DoneOutcome::Completed(
                    old(tasks)@[i].description,
                ) && final(tasks)@ == old(tasks)@.update(i, mark_done(old(tasks)@[i])))
            },
{
    let ghost orig = tasks@;
    let mut i: usize = 0;
    while i < tasks.len()
        invariant
            0 <= i <= tasks@.len(),
            orig == old(tasks)@,
            tasks@ == orig,
            forall|j: int| 0 <= j < i ==> (#[trigger] orig[j]).id != id,
        decreases tasks@.len() - i,
    {
        if tasks[i].id == id {
            proof {
                assert(first_with_id(orig, id, i as int));
                assert(forall|k: int| first_with_id(orig, id, k) ==> k == i as int);
            }
            if tasks[i].completed {
                let d = tasks[i].description.clone();
                return DoneOutcome::AlreadyDone(d);
            }
            let d = tasks[i].description.clone();
            let mut t = tasks.remove(i);
            t.completed = true;
            tasks.insert(i, t);
            proof {
                assert(tasks@ =~= orig.update(i as int, mark_done(orig[i as int])));
            }
            return DoneOutcome::Completed(d);
        }
        i = i + 1;
    }
    DoneOutcome::NotFound
}

/// Removes the first task with the given identifier and hands it back; a
/// missing identifier leaves the list unchanged.
pub fn remove_task(tasks: &mut Vec<Task>, id: u32) -> (r: Option<Task>)
    ensures
        (r is None) <==> (forall|j: int|
            0 <= j < old(tasks)@.len() ==> (#[trigger] old(tasks)@[j]).id != id),
        r is None ==> final(tasks)@ == old(tasks)@,
        forall|i: int|
            first_with_id(old(tasks)@, id, i) ==> r == Some(old(tasks)@[i]) && final(tasks)@
                == old(tasks)@.remove(i),
{
    let ghost orig = tasks@;
    let mut i: usize = 0;
    while i < tasks.len()
        invariant
            0 <= i <= tasks@.len(),
            orig == old(tasks)@,
            tasks@ == orig,
            forall|j: int| 0 <= j < i ==> (#[trigger] orig[j]).id != id,
        decreases tasks@.len() - i,
    {
        if tasks[i].id == id {
            proof {
                assert(first_with_id(orig, id, i as int));
                assert(forall|k: int| first_with_id(orig, id, k) ==> k == i as int);
            }
            let t = tasks.remove(i);
            return Some(t);
        }
        i = i + 1;
    }
    None
}

/// Number of tasks not yet completed.
pub open spec fn pending_of(s: Seq<Task>) -> nat
    decreases s.len(),
{
    if s.len() == 0 {
        0
    } else {
        pending_of(s.drop_last()) + if s.last().completed {
            0nat
        } else {
            1nat
        }
    }
}

/// Number of completed tasks.
pub open spec fn done_of(s: Seq<Task>) -> nat
    decreases s.len(),
{
    if s.len() == 0 {
        0
    } else {
        done_of(s.drop_last()) + if s.last().completed {
            1nat
        } else {
            0nat
        }
    }
}

/// Counts the pending and the completed tasks; together they cover the list.
pub fn task_counts(tasks: &Vec<Task>) -> (counts: (usize, usize))
    ensures
        counts.0 == pending_of(tasks@),
        counts.1 == done_of(tasks@),
        counts.0 + counts.1 == tasks@.len(),
{
    let mut p: usize = 0;
    let mut c: usize = 0;
    let mut i: usize = 0;
    while i < tasks.len()
        invariant
            0 <= i <= tasks@.len(),
            p == pending_of(tasks@.take(i as int)),
            c == done_of(tasks@.take(i as int)),
            p + c == i,
        decreases tasks@.len() - i,
    {
        proof {
            assert(tasks@.take(i + 1).drop_last() =~= tasks@.take(i as int));
            assert(tasks@.take(i + 1).last() == tasks@[i as int]);
        }
        if tasks[i].completed {
            c = c + 1;
        } else {
            p = p + 1;
        }
        i = i + 1;
    }
    proof {
        assert(tasks@.take(tasks@.len() as int) =~= tasks@);
    }
    (p, c)
}

} // verus!
