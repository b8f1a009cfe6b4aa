//! The task collection model: the `Todo` entity and the `TodoList`
//! aggregate, with pure in-memory operations to add, complete, delete and
//! edit tasks by identifier.

use vstd::prelude::*;

verus! {

/// A todo item.
#[derive(Debug)]
pub struct Todo {
    /// The identifier of the todo item, unique within its list.
    pub id: u32,
    /// The text of the todo item.
    pub task: String,
    /// Whether the todo item is completed.
    pub completed: bool,
}

/// A collection of todo items, kept in insertion order.
#[derive(Debug)]
pub struct TodoList {
    /// The todo items.
    pub todos: Vec<Todo>,
    /// The identifier the next added todo item will receive.
    pub next_id: u32,
}

/// The mathematical value of a `Todo`.
#[verifier::ext_equal]
pub ghost struct TodoView {
    pub id: u32,
    pub task: Seq<char>,
    pub completed: bool,
}

/// The mathematical value of a `TodoList`.
#[verifier::ext_equal]
pub ghost struct TodoListView {
    pub todos: Seq<TodoView>,
    pub next_id: u32,
}

impl View for Todo {
    type V = TodoView;

    open spec fn view(&self) -> TodoView {
        TodoView { id: self.id, task: self.task@, completed: self.completed }
    }
}

/// The mathematical value of a sequence of `Todo`s.
pub open spec fn todos_view(v: Seq<Todo>) -> Seq<TodoView> {
    Seq::new(v.len(), |i: int| v[i]@)
}

impl View for TodoList {
    type V = TodoListView;

    open spec fn view(&self) -> TodoListView {
        TodoListView { todos: todos_view(self.todos@), next_id: self.next_id }
    }
}

impl TodoListView {
    /// The invariant of a list: the next identifier is at least 1 and
    /// strictly greater than every identifier in the list, and identifiers
    /// are pairwise distinct.
    pub open spec fn wf(self) -> bool {
        &&& 1 <= self.next_id
        &&& forall|i: int|
            0 <= i < self.todos.len() ==> #[trigger] self.todos[i].id < self.next_id
        &&& forall|i: int, j: int|
            0 <= i < j < self.todos.len() ==> self.todos[i].id != self.todos[j].id
    }
}

/// Whether some task in `s` carries identifier `id`.
pub open spec fn has_id(s: Seq<TodoView>, id: u32) -> bool {
    exists|i: int| 0 <= i < s.len() && (#[trigger] s[i].id) == id
}

/// The index of the first task in `s` with identifier `id`
/// (`s.len()` when there is none).
pub open spec fn first_idx(s: Seq<TodoView>, id: u32) -> int
    decreases s.len(),
{
    if s.len() == 0 {
        0
    } else if s[0].id == id {
        0
    } else {
        1 + first_idx(s.skip(1), id)
    }
}

/// What `first_idx` returns: the first match when there is one,
/// the length when there is none.
pub proof fn lemma_first_idx(s: Seq<TodoView>, id: u32)
    ensures
        has_id(s, id) ==> {
            let k = first_idx(s, id);
            &&& 0 <= k < s.len()
            &&& s[k].id == id
            &&& forall|j: int| 0 <= j < k ==> (#[trigger] s[j].id) != id
        },
        !has_id(s, id) ==> first_idx(s, id) == s.len(),
    decreases s.len(),
{
    if s.len() == 0 {
    } else if s[0].id == id {
    } else {
        lemma_first_idx(s.skip(1), id);
        assert forall|i: int| 0 <= i < s.len() && (#[trigger] s[i].id) == id implies has_id(
            s.skip(1),
            id,
        ) by {
            assert(s.skip(1)[i - 1].id == id);
        }
        if has_id(s.skip(1), id) {
            let k1 = first_idx(s.skip(1), id);
            assert(s[1 + k1].id == s.skip(1)[k1].id);
            assert forall|j: int| 0 <= j < 1 + k1 implies (#[trigger] s[j].id) != id by {
                if j > 0 {
                    assert(s.skip(1)[j - 1].id == s[j].id);
                }
            }
            assert(has_id(s, id));
        }
    }
}

/// The list after `add`: the new task, with the next free identifier and
/// not completed, is appended, and the identifier counter moves on by one.
pub open spec fn spec_add(l: TodoListView, task: Seq<char>) -> TodoListView {
    TodoListView {
        todos: l.todos.push(TodoView { id: l.next_id, task: task, completed: false }),
        next_id: (l.next_id + 1) as u32,
    }
}

/// The list after `mark_done`: the first task with identifier `id`, if any,
/// becomes completed; otherwise the list is unchanged.
pub open spec fn spec_mark_done(l: TodoListView, id: u32) -> TodoListView {
    if has_id(l.todos, id) {
        let k = first_idx(l.todos, id);
        let t = l.todos[k];
        TodoListView {
            todos: l.todos.update(k, TodoView { id: t.id, task: t.task, completed: true }),
            next_id: l.next_id,
        }
    } else {
        l
    }
}

/// The list after `delete`: the first task with identifier `id`, if any,
/// is removed and the rest keep their order; otherwise the list is
/// unchanged. The identifier counter never moves back.
pub open spec fn spec_delete(l: TodoListView, id: u32) -> TodoListView {
    if has_id(l.todos, id) {
        TodoListView { todos: l.todos.remove(first_idx(l.todos, id)), next_id: l.next_id }
    } else {
        l
    }
}

/// The list after `edit`: the first task with identifier `id`, if any,
/// gets the new text and keeps its identifier and completion flag;
/// otherwise the list is unchanged.
pub open spec fn spec_edit(l: TodoListView, id: u32, task: Seq<char>) -> TodoListView {
    if has_id(l.todos, id) {
        let k = first_idx(l.todos, id);
        let t = l.todos[k];
        TodoListView {
            todos: l.todos.update(k, TodoView { id: t.id, task: task, completed: t.completed }),
            next_id: l.next_id,
        }
    } else {
        l
    }
}

/// Finds the index of the first todo with the given identifier.
fn find_index(todos: &Vec<Todo>, id: u32) -> (r: Option<usize>)
    ensures
        match r {
            Some(i) => {
                &&& i < todos@.len()
                &&& todos_view(todos@)[i as int].id == id
                &&& first_idx(todos_view(todos@), id) == i
                &&& has_id(todos_view(todos@), id)
            },
            None => !has_id(todos_view(todos@), id),
        },
{
    let ghost s = todos_view(todos@);
    let mut i: usize = 0;
    while i < todos.len()
        invariant
            i <= todos@.len(),
            s == todos_view(todos@),
            forall|j: int| 0 <= j < i ==> (#[trigger] s[j].id) != id,
        decreases todos@.len() - i,
    {
        if todos[i].id == id {
            proof {
                assert(s[i as int].id == id);
                lemma_first_idx(s, id);
                let k = first_idx(s, id);
                assert(s[k].id == id);
                assert(!(k < i) && !(i < k));
            }
            return Some(i);
        }
        i += 1;
    }
    None
}

impl TodoList {
    /// Creates a new `TodoList` with no todos and a next identifier of 1.
    pub fn new() -> (r: TodoList)
        ensures
            r@.todos == Seq::<TodoView>::empty(),
            r@.next_id == 1,
            r@.wf(),
    {
        let r = TodoList { todos: Vec::new(), next_id: 1 };
        proof {
            assert(r@.todos =~= Seq::<TodoView>::empty());
        }
        r
    }

    /// Appends a new todo item carrying the next free identifier, the given
    /// text and a cleared completion flag, and moves the identifier counter
    /// on by one.
    pub fn add_task(&mut self, task: String)
        requires
            old(self)@.next_id < u32::MAX,
        ensures
            final(self)@ == spec_add(old(self)@, task@),
    {
        let ghost pre = self@;
        let ghost tv = task@;
        let id = self.next_id;
        self.todos.push(Todo { id, task, completed: false });
        self.next_id = id + 1;
        proof {
            assert(self@.todos =~= pre.todos.push(
                TodoView { id: pre.next_id, task: tv, completed: false },
            ));
            assert(self@ =~= spec_add(pre, tv));
        }
    }

    /// Marks the first todo item with the given identifier as completed.
    /// Returns whether such an item was found; when none is, the list is
    /// unchanged.
    pub fn mark_done(&mut self, id: u32) -> (found: bool)
        ensures
            found == has_id(old(self)@.todos, id),
            final(self)@ == spec_mark_done(old(self)@, id),
    {
        let ghost pre = self@;
        match find_index(&self.todos, id) {
            Some(i) => {
                let ghost raw = self.todos@;
                let mut t = self.todos.remove(i);
                t.completed = true;
                self.todos.insert(i, t);
                proof {
                    assert(self.todos@ =~= raw.update(i as int, t));
                    let k = first_idx(pre.todos, id);
                    assert(k == i);
                    assert(self@.todos =~= spec_mark_done(pre, id).todos);
                    assert(self@ =~= spec_mark_done(pre, id));
                }
                true
            },
            None => {
                false
            },
        }
    }

    /// Removes the first todo item with the given identifier, keeping the
    /// order of the rest. Returns whether such an item was found; when none
    /// is, the list is unchanged. The identifier counter is not moved back.
    pub fn delete_task(&mut self, id: u32) -> (found: bool)
        ensures
            found == has_id(old(self)@.todos, id),
            final(self)@ == spec_delete(old(self)@, id),
    {
        let ghost pre = self@;
        match find_index(&self.todos, id) {
            Some(i) => {
                self.todos.remove(i);
                proof {
                    assert(self@.todos =~= spec_delete(pre, id).todos);
                    assert(self@ =~= spec_delete(pre, id));
                }
                true
            },
            None => {
                false
            },
        }
    }

    /// Replaces the text of the first todo item with the given identifier,
    /// keeping its identifier and completion flag. Returns whether such an
    /// item was found; when none is, the list is unchanged.
    pub fn edit_task(&mut self, id: u32, task: String) -> (found: bool)
        ensures
            found == has_id(old(self)@.todos, id),
            final(self)@ == spec_edit(old(self)@, id, task@),
    {
        let ghost pre = self@;
        let ghost tv = task@;
        match find_index(&self.todos, id) {
            Some(i) => {
                let ghost raw = self.todos@;
                let mut t = self.todos.remove(i);
                t.task = task;
                self.todos.insert(i, t);
                proof {
                    assert(self.todos@ =~= raw.update(i as int, t));
                    assert(self@.todos =~= spec_edit(pre, id, tv).todos);
                    assert(self@ =~= spec_edit(pre, id, tv));
                }
                true
            },
            None => {
                false
            },
        }
    }
}

/// Law: `add` assigns a fresh identifier. The appended task carries the
/// current identifier counter, which is strictly greater than the
/// identifier of every task already in a well-formed list, every earlier
/// task is kept unchanged, the counter moves on by one, and the list stays
/// well formed — so identifiers assigned by successive `add`s are strictly
/// increasing and are never reused, even after deletions.
pub proof fn lemma_add_assigns_fresh_id(l: TodoListView, task: Seq<char>)
    requires
        l.wf(),
        l.next_id < u32::MAX,
    ensures
        ({
            let l2 = spec_add(l, task);
            &&& l2.wf()
            &&& l2.todos.len() == l.todos.len() + 1
            &&& l2.todos.last() == (TodoView { id: l.next_id, task: task, completed: false })
            &&& forall|i: int| 0 <= i < l.todos.len() ==> #[trigger] l2.todos[i] == l.todos[i]
            &&& forall|i: int|
                0 <= i < l.todos.len() ==> (#[trigger] l.todos[i].id) < l2.todos.last().id
            &&& l2.next_id == l.next_id + 1
        }),
{
}

/// Law: a `TodoList` starts with no tasks and an identifier counter of 1,
/// and the first `add` on it yields exactly one task, carrying identifier
/// 1, the given text, and a cleared completion flag.
pub proof fn lemma_add_to_empty(task: Seq<char>)
    ensures
        ({
            let l2 = spec_add(TodoListView { todos: Seq::<TodoView>::empty(), next_id: 1 }, task);
            &&& l2.todos =~= seq![TodoView { id: 1, task: task, completed: false }]
            &&& l2.next_id == 2
        }),
{
}

/// Law: `mark_done` on an identifier present in the list sets exactly the
/// completion flag of the first task carrying it, keeps every other task
/// and the identifier counter unchanged, and preserves well-formedness; on
/// an absent identifier it changes nothing.
pub proof fn lemma_mark_done(l: TodoListView, id: u32)
    ensures
        !has_id(l.todos, id) ==> spec_mark_done(l, id) == l,
        has_id(l.todos, id) ==> ({
            let k = first_idx(l.todos, id);
            let l2 = spec_mark_done(l, id);
            &&& 0 <= k < l.todos.len()
            &&& l.todos[k].id == id
            &&& l2.todos.len() == l.todos.len()
            &&& l2.todos[k].id == id
            &&& l2.todos[k].task == l.todos[k].task
            &&& l2.todos[k].completed == true
            &&& forall|j: int|
                0 <= j < l.todos.len() && j != k ==> #[trigger] l2.todos[j] == l.todos[j]
            &&& l2.next_id == l.next_id
        }),
        l.wf() ==> spec_mark_done(l, id).wf(),
{
    lemma_first_idx(l.todos, id);
    if has_id(l.todos, id) && l.wf() {
        let l2 = spec_mark_done(l, id);
        assert(forall|j: int|
            0 <= j < l2.todos.len() ==> (#[trigger] l2.todos[j].id) == l.todos[j].id);
    }
}

/// Law: `delete` on an identifier present in the list removes exactly the
/// first task carrying it, keeps the order of the rest, keeps the
/// identifier counter, and preserves well-formedness; on an absent
/// identifier it changes nothing.
pub proof fn lemma_delete(l: TodoListView, id: u32)
    ensures
        !has_id(l.todos, id) ==> spec_delete(l, id) == l,
        has_id(l.todos, id) ==> ({
            let k = first_idx(l.todos, id);
            let l2 = spec_delete(l, id);
            &&& 0 <= k < l.todos.len()
            &&& l.todos[k].id == id
            &&& l2.todos.len() == l.todos.len() - 1
            &&& forall|j: int| 0 <= j < k ==> #[trigger] l2.todos[j] == l.todos[j]
            &&& forall|j: int| k <= j < l2.todos.len() ==> #[trigger] l2.todos[j] == l.todos[j + 1]
            &&& l2.next_id == l.next_id
        }),
        l.wf() ==> spec_delete(l, id).wf(),
{
    lemma_first_idx(l.todos, id);
    if has_id(l.todos, id) {
        let k = first_idx(l.todos, id);
        let l2 = spec_delete(l, id);
        assert(forall|j: int|
            0 <= j < l2.todos.len() ==> #[trigger] l2.todos[j] == (if j < k {
                l.todos[j]
            } else {
                l.todos[j + 1]
            }));
        if l.wf() {
            assert forall|i: int, j: int|
                0 <= i < j < l2.todos.len() implies l2.todos[i].id != l2.todos[j].id by {
                let i0 = if i < k { i } else { i + 1 };
                let j0 = if j < k { j } else { j + 1 };
                assert(l2.todos[i] == l.todos[i0]);
                assert(l2.todos[j] == l.todos[j0]);
            }
        }
    }
}

/// Law: `edit` on an identifier present in the list replaces exactly the
/// text of the first task carrying it, keeps its identifier and completion
/// flag, keeps every other task and the identifier counter unchanged, and
/// preserves well-formedness; on an absent identifier it changes nothing.
pub proof fn lemma_edit(l: TodoListView, id: u32, task: Seq<char>)
    ensures
        !has_id(l.todos, id) ==> spec_edit(l, id, task) == l,
        has_id(l.todos, id) ==> ({
            let k = first_idx(l.todos, id);
            let l2 = spec_edit(l, id, task);
            &&& 0 <= k < l.todos.len()
            &&& l.todos[k].id == id
            &&& l2.todos.len() == l.todos.len()
            &&& l2.todos[k].id == id
            &&& l2.todos[k].task == task
            &&& l2.todos[k].completed == l.todos[k].completed
            &&& forall|j: int|
                0 <= j < l.todos.len() && j != k ==> #[trigger] l2.todos[j] == l.todos[j]
            &&& l2.next_id == l.next_id
        }),
        l.wf() ==> spec_edit(l, id, task).wf(),
{
    lemma_first_idx(l.todos, id);
    if has_id(l.todos, id) && l.wf() {
        let l2 = spec_edit(l, id, task);
        assert(forall|j: int|
            0 <= j < l2.todos.len() ==> (#[trigger] l2.todos[j].id) == l.todos[j].id);
    }
}

} // verus!
