//! The rules a project scope obeys: which task lists are accepted, what the
//! scope costs, and how tasks are looked up.
use vstd::prelude::*;

use crate::account::Balance;
use crate::projects::{
    input_view, inputs_view, Error, Task, TaskComplexity, TaskInput, TaskView, tasks_view,
};

verus! {

/// The ids of `ts`, in order.
pub open spec fn task_ids(ts: Seq<TaskView>) -> Seq<u8> {
    ts.map_values(|t: TaskView| t.id)
}

/// Why the first bad dependency among `deps` of task `id` is refused, if
/// one is: a dependency must be the id of a task of the scope, and lower than
/// `id` so that no dependency cycle can arise.
pub open spec fn dependency_error(id: u8, deps: Seq<u8>, ids: Seq<u8>) -> Option<Error>
    decreases deps.len(),
{
    if deps.len() == 0 {
        None
    } else {
        match dependency_error(id, deps.drop_last(), ids) {
            Some(e) => Some(e),
            None => {
                let d = deps.last();
                if !ids.contains(d) {
                    Some(Error::InvalidTaskId)
                } else if d >= id {
                    Some(Error::CircularDependency)
                } else {
                    None
                }
            },
        }
    }
}

/// Why the first task of `ts` with a bad dependency is refused, if one is.
pub open spec fn dependencies_error(ts: Seq<TaskView>, ids: Seq<u8>) -> Option<Error>
    decreases ts.len(),
{
    if ts.len() == 0 {
        None
    } else {
        match dependencies_error(ts.drop_last(), ids) {
            Some(e) => Some(e),
            None => dependency_error(ts.last().id, ts.last().dependencies, ids),
        }
    }
}

/// Why a list of tasks cannot form a scope, if it cannot: two tasks share an
/// id, a dependency is bad, or there are more tasks than a task count can
/// hold.
pub open spec fn tasks_error(ts: Seq<TaskView>) -> Option<Error> {
    if !task_ids(ts).no_duplicates() {
        Some(Error::DuplicateTaskId)
    } else {
        match dependencies_error(ts, task_ids(ts)) {
            Some(e) => Some(e),
            None => if ts.len() > 255 {
                Some(Error::ConversionType)
            } else {
                None
            },
        }
    }
}

/// Ids are unique, every dependency is the id of a lower task of the list,
/// and the tasks can be counted in a `u8`.
pub open spec fn well_formed_tasks(ts: Seq<TaskView>) -> bool {
    &&& task_ids(ts).no_duplicates()
    &&& forall|i: int, j: int|
        0 <= i < ts.len() && 0 <= j < ts[i].dependencies.len() ==> task_ids(ts).contains(
            #[trigger] ts[i].dependencies[j],
        ) && ts[i].dependencies[j] < ts[i].id
    &&& ts.len() <= 255
}

/// A dependency list without a bad dependency holds only good ones.
pub proof fn lemma_no_dependency_error(id: u8, deps: Seq<u8>, ids: Seq<u8>)
    requires
        dependency_error(id, deps, ids) is None,
    ensures
        forall|j: int| 0 <= j < deps.len() ==> ids.contains(#[trigger] deps[j]) && deps[j] < id,
    decreases deps.len(),
{
    if deps.len() > 0 {
        lemma_no_dependency_error(id, deps.drop_last(), ids);
        assert forall|j: int| 0 <= j < deps.len() implies ids.contains(#[trigger] deps[j]) && deps[j] < id by {
            if j < deps.len() - 1 {
                assert(deps[j] == deps.drop_last()[j]);
            }
        }
    }
}

/// Tasks without a bad dependency have only good ones.
pub proof fn lemma_no_dependencies_error(ts: Seq<TaskView>, ids: Seq<u8>)
    requires
        dependencies_error(ts, ids) is None,
    ensures
        forall|i: int, j: int|
            0 <= i < ts.len() && 0 <= j < ts[i].dependencies.len() ==> ids.contains(
                #[trigger] ts[i].dependencies[j],
            ) && ts[i].dependencies[j] < ts[i].id,
    decreases ts.len(),
{
    if ts.len() > 0 {
        lemma_no_dependencies_error(ts.drop_last(), ids);
        lemma_no_dependency_error(ts.last().id, ts.last().dependencies, ids);
        assert forall|i: int, j: int|
            0 <= i < ts.len() && 0 <= j < ts[i].dependencies.len() implies ids.contains(
                #[trigger] ts[i].dependencies[j],
            ) && ts[i].dependencies[j] < ts[i].id by {
            if i < ts.len() - 1 {
                assert(ts[i] == ts.drop_last()[i]);
            }
        }
    }
}

/// A list of tasks that forms a scope is well formed.
pub proof fn lemma_no_tasks_error(ts: Seq<TaskView>)
    requires
        tasks_error(ts) is None,
    ensures
        well_formed_tasks(ts),
{
    lemma_no_dependencies_error(ts, task_ids(ts));
}

/// A dependency list is refused only for a missing or a circular dependency.
pub proof fn lemma_dependency_error_kinds(id: u8, deps: Seq<u8>, ids: Seq<u8>)
    ensures
        dependency_error(id, deps, ids) is None || dependency_error(id, deps, ids) == Some(
            Error::InvalidTaskId,
        ) || dependency_error(id, deps, ids) == Some(Error::CircularDependency),
    decreases deps.len(),
{
    if deps.len() > 0 {
        lemma_dependency_error_kinds(id, deps.drop_last(), ids);
    }
}

/// A list of tasks is refused only for a duplicate id, a missing or circular
/// dependency, or too many tasks.
pub proof fn lemma_tasks_error_kinds(ts: Seq<TaskView>)
    ensures
        tasks_error(ts) is None || tasks_error(ts) == Some(Error::DuplicateTaskId) || tasks_error(ts)
            == Some(Error::InvalidTaskId) || tasks_error(ts) == Some(Error::CircularDependency)
            || tasks_error(ts) == Some(Error::ConversionType),
{
    lemma_dependencies_error_kinds(ts, task_ids(ts));
}

/// Tasks are refused only for a missing or a circular dependency.
pub proof fn lemma_dependencies_error_kinds(ts: Seq<TaskView>, ids: Seq<u8>)
    ensures
        dependencies_error(ts, ids) is None || dependencies_error(ts, ids) == Some(
            Error::InvalidTaskId,
        ) || dependencies_error(ts, ids) == Some(Error::CircularDependency),
    decreases ts.len(),
{
    if ts.len() > 0 {
        lemma_dependencies_error_kinds(ts.drop_last(), ids);
        lemma_dependency_error_kinds(ts.last().id, ts.last().dependencies, ids);
    }
}

/// Good dependencies are not refused.
pub proof fn lemma_good_dependencies(id: u8, deps: Seq<u8>, ids: Seq<u8>)
    requires
        forall|j: int| 0 <= j < deps.len() ==> ids.contains(#[trigger] deps[j]) && deps[j] < id,
    ensures
        dependency_error(id, deps, ids) is None,
    decreases deps.len(),
{
    if deps.len() > 0 {
        let d = deps.drop_last();
        assert forall|j: int| 0 <= j < d.len() implies ids.contains(#[trigger] d[j]) && d[j] < id by {
            assert(d[j] == deps[j]);
        }
        lemma_good_dependencies(id, d, ids);
        assert(deps[deps.len() - 1] == deps.last());
    }
}

/// A well-formed list of tasks forms a scope.
pub proof fn lemma_well_formed_tasks_accepted(ts: Seq<TaskView>)
    requires
        well_formed_tasks(ts),
    ensures
        tasks_error(ts) is None,
{
    lemma_good_tasks(ts, task_ids(ts));
}

/// Tasks with good dependencies are not refused.
pub proof fn lemma_good_tasks(ts: Seq<TaskView>, ids: Seq<u8>)
    requires
        forall|i: int, j: int|
            0 <= i < ts.len() && 0 <= j < ts[i].dependencies.len() ==> ids.contains(
                #[trigger] ts[i].dependencies[j],
            ) && ts[i].dependencies[j] < ts[i].id,
    ensures
        dependencies_error(ts, ids) is None,
    decreases ts.len(),
{
    if ts.len() > 0 {
        let d = ts.drop_last();
        assert forall|i: int, j: int|
            0 <= i < d.len() && 0 <= j < d[i].dependencies.len() implies ids.contains(
                #[trigger] d[i].dependencies[j],
            ) && d[i].dependencies[j] < d[i].id by {
            assert(d[i] == ts[i]);
        }
        lemma_good_tasks(d, ids);
        let k = ts.len() - 1;
        assert(ts[k] == ts.last());
        assert forall|j: int| 0 <= j < ts.last().dependencies.len() implies ids.contains(
            #[trigger] ts.last().dependencies[j],
        ) && ts.last().dependencies[j] < ts.last().id by {
            assert(ts[k].dependencies[j] == ts.last().dependencies[j]);
        }
        lemma_good_dependencies(ts.last().id, ts.last().dependencies, ids);
    }
}

/// The sum of the costs of `ts`.
pub open spec fn cost_sum(ts: Seq<TaskView>) -> int
    decreases ts.len(),
{
    if ts.len() == 0 {
        0
    } else {
        cost_sum(ts.drop_last()) + ts.last().cost
    }
}

/// A sum of costs is never negative.
pub proof fn lemma_cost_sum_nonnegative(ts: Seq<TaskView>)
    ensures
        cost_sum(ts) >= 0,
    decreases ts.len(),
{
    if ts.len() > 0 {
        lemma_cost_sum_nonnegative(ts.drop_last());
    }
}

/// The total cost of `ts`: their sum, or the largest balance when the sum
/// does not fit.
pub open spec fn capped_total(ts: Seq<TaskView>) -> Balance {
    if cost_sum(ts) > u128::MAX {
        u128::MAX
    } else {
        cost_sum(ts) as u128
    }
}

/// Tasks with the same costs have the same total cost.
pub proof fn lemma_capped_total_same_costs(a: Seq<TaskView>, b: Seq<TaskView>)
    requires
        a.len() == b.len(),
        forall|i: int| 0 <= i < a.len() ==> #[trigger] a[i].cost == b[i].cost,
    ensures
        cost_sum(a) == cost_sum(b),
        capped_total(a) == capped_total(b),
    decreases a.len(),
{
    if a.len() > 0 {
        lemma_capped_total_same_costs(a.drop_last(), b.drop_last());
    }
}

/// The position of the first task of `ts` with id `id`, if any.
pub open spec fn task_position(ts: Seq<TaskView>, id: u8) -> Option<int>
    decreases ts.len(),
{
    if ts.len() == 0 {
        None
    } else {
        match task_position(ts.drop_last(), id) {
            Some(i) => Some(i),
            None => if ts.last().id == id {
                Some(ts.len() - 1)
            } else {
                None
            },
        }
    }
}

/// What `task_position` finds.
pub proof fn lemma_task_position(ts: Seq<TaskView>, id: u8)
    ensures
        match task_position(ts, id) {
            Some(i) => 0 <= i < ts.len() && ts[i].id == id && forall|k: int|
                0 <= k < i ==> #[trigger] ts[k].id != id,
            None => forall|k: int| 0 <= k < ts.len() ==> #[trigger] ts[k].id != id,
        },
    decreases ts.len(),
{
    if ts.len() > 0 {
        lemma_task_position(ts.drop_last(), id);
        assert forall|k: int| 0 <= k < ts.len() - 1 implies #[trigger] ts[k] == ts.drop_last()[k] by {}
    }
}

/// A bad dependency among the first `k` of `deps` is the first bad one of all.
pub proof fn lemma_dependency_error_prefix(id: u8, deps: Seq<u8>, ids: Seq<u8>, k: int)
    requires
        0 <= k <= deps.len(),
        dependency_error(id, deps.take(k), ids) is Some,
    ensures
        dependency_error(id, deps, ids) == dependency_error(id, deps.take(k), ids),
    decreases deps.len(),
{
    if k < deps.len() {
        assert(deps.drop_last().take(k) =~= deps.take(k));
        lemma_dependency_error_prefix(id, deps.drop_last(), ids, k);
    } else {
        assert(deps.take(k) =~= deps);
    }
}

/// A bad task among the first `k` of `ts` is the first bad one of all.
pub proof fn lemma_dependencies_error_prefix(ts: Seq<TaskView>, ids: Seq<u8>, k: int)
    requires
        0 <= k <= ts.len(),
        dependencies_error(ts.take(k), ids) is Some,
    ensures
        dependencies_error(ts, ids) == dependencies_error(ts.take(k), ids),
    decreases ts.len(),
{
    if k < ts.len() {
        assert(ts.drop_last().take(k) =~= ts.take(k));
        lemma_dependencies_error_prefix(ts.drop_last(), ids, k);
    } else {
        assert(ts.take(k) =~= ts);
    }
}

/// A list of strictly increasing ids.
pub open spec fn strictly_increasing(s: Seq<u8>) -> bool {
    forall|i: int, j: int| 0 <= i < j < s.len() ==> s[i] < s[j]
}

/// Looks `x` up in the strictly increasing `v`: its position if it is there,
/// else the position where it would go.
pub fn search_sorted(v: &Vec<u8>, x: u8) -> (r: core::result::Result<usize, usize>)
    requires
        strictly_increasing(v@),
    ensures
        match r {
            Ok(i) => i < v@.len() && v@[i as int] == x,
            Err(p) => p <= v@.len() && (forall|k: int| 0 <= k < p ==> v@[k] < x) && (forall|k: int|
                p <= k < v@.len() ==> v@[k] > x),
        },
{
    let mut lo: usize = 0;
    let mut hi: usize = v.len();
    while lo < hi
        invariant
            lo <= hi <= v@.len(),
            strictly_increasing(v@),
            forall|k: int| 0 <= k < lo ==> v@[k] < x,
            forall|k: int| hi <= k < v@.len() ==> v@[k] > x,
        decreases hi - lo,
    {
        let mid = lo + (hi - lo) / 2;
        if v[mid] == x {
            return Ok(mid);
        } else if v[mid] < x {
            lo = mid + 1;
        } else {
            hi = mid;
        }
    }
    Err(lo)
}

/// Why `tasks` cannot form a scope, if it cannot.
pub fn check_tasks(tasks: &Vec<TaskInput>) -> (r: Option<Error>)
    ensures
        r == tasks_error(inputs_view(tasks@)),
{
    let ghost ts = inputs_view(tasks@);
    let ghost ids = task_ids(ts);
    let mut sorted: Vec<u8> = Vec::with_capacity(tasks.len());
    let mut i: usize = 0;
    while i < tasks.len()
        invariant
            0 <= i <= tasks@.len(),
            ts == inputs_view(tasks@),
            ids == task_ids(ts),
            strictly_increasing(sorted@),
            ids.take(i as int).no_duplicates(),
            forall|x: u8| #[trigger] sorted@.contains(x) <==> ids.take(i as int).contains(x),
        decreases tasks.len() - i,
    {
        let id = tasks[i].0;
        assert(ids[i as int] == id);
        match search_sorted(&sorted, id) {
            Ok(pos) => {
                proof {
                    assert(sorted@.contains(id));
                    assert(ids.take(i as int).contains(id));
                    let k = choose|k: int| 0 <= k < i && ids.take(i as int)[k] == id;
                    assert(ids[k] == ids[i as int]);
                }
                return Some(Error::DuplicateTaskId);
            },
            Err(pos) => {
                let ghost before = sorted@;
                sorted.insert(pos, id);
                assert(ids.take(i + 1) =~= ids.take(i as int).push(id));
                assert(!ids.take(i as int).contains(id)) by {
                    if ids.take(i as int).contains(id) {
                        assert(before.contains(id));
                        let k = choose|k: int| 0 <= k < before.len() && before[k] == id;
                    }
                }
                assert(strictly_increasing(sorted@)) by {
                    assert forall|a: int, b: int| 0 <= a < b < sorted@.len() implies sorted@[a] < sorted@[b] by {
                        if b < pos {
                        } else if b == pos {
                        } else if a < pos {
                            assert(sorted@[b] == before[b - 1]);
                        } else if a == pos {
                            assert(sorted@[b] == before[b - 1]);
                        } else {
                            assert(sorted@[a] == before[a - 1]);
                            assert(sorted@[b] == before[b - 1]);
                        }
                    }
                }
                assert forall|x: u8| #[trigger] sorted@.contains(x) <==> ids.take(i + 1).contains(x) by {
                    if sorted@.contains(x) {
                        let k = choose|k: int| 0 <= k < sorted@.len() && sorted@[k] == x;
                        if k < pos {
                            assert(before[k] == x);
                            assert(before.contains(x));
                        } else if k > pos {
                            assert(before[k - 1] == x);
                            assert(before.contains(x));
                        }
                        if x != id {
                            let m = choose|m: int| 0 <= m < i && ids.take(i as int)[m] == x;
                            assert(ids.take(i + 1)[m] == x);
                        } else {
                            assert(ids.take(i + 1)[i as int] == x);
                        }
                    }
                    let t1 = ids.take(i + 1);
                    if t1.contains(x) {
                        let m = choose|m: int| 0 <= m < t1.len() && t1[m] == x;
                        if m < i {
                            assert(ids.take(i as int)[m] == x);
                            assert(before.contains(x));
                            let k = choose|k: int| 0 <= k < before.len() && before[k] == x;
                            if k < pos {
                                assert(sorted@[k] == x);
                            } else {
                                assert(sorted@[k + 1] == x);
                            }
                        } else {
                            assert(sorted@[pos as int] == x);
                        }
                    }
                }
                assert(ids.take(i + 1).no_duplicates()) by {
                    let t = ids.take(i + 1);
                    assert forall|a: int, b: int| 0 <= a < t.len() && 0 <= b < t.len() && a != b
                        implies t[a] != t[b] by {
                        if a == i {
                            assert(ids.take(i as int)[b] == t[b]);
                        } else if b == i {
                            assert(ids.take(i as int)[a] == t[a]);
                        } else {
                            assert(ids.take(i as int)[a] == t[a]);
                            assert(ids.take(i as int)[b] == t[b]);
                        }
                    }
                }
            },
        }
        i = i + 1;
    }
    assert(ids.take(tasks.len() as int) =~= ids);
    let mut t: usize = 0;
    while t < tasks.len()
        invariant
            0 <= t <= tasks@.len(),
            ts == inputs_view(tasks@),
            ids == task_ids(ts),
            ids.no_duplicates(),
            strictly_increasing(sorted@),
            forall|x: u8| #[trigger] sorted@.contains(x) <==> ids.contains(x),
            dependencies_error(ts.take(t as int), ids) == None::<Error>,
        decreases tasks.len() - t,
    {
        let id = tasks[t].0;
        let deps = &tasks[t].3;
        assert(ts[t as int] == input_view(tasks@[t as int]));
        assert(ts.take(t + 1).drop_last() =~= ts.take(t as int));
        assert(ts.take(t + 1).last() == ts[t as int]);
        assert(ts[t as int].dependencies == deps@);
        let mut j: usize = 0;
        while j < deps.len()
            invariant
                0 <= j <= deps@.len(),
                t < tasks@.len(),
                ts == inputs_view(tasks@),
                ids == task_ids(ts),
                ids.no_duplicates(),
                dependencies_error(ts.take(t as int), ids) == None::<Error>,
                ts.take(t + 1).drop_last() == ts.take(t as int),
                ts.take(t + 1).last() == ts[t as int],
                ts[t as int].dependencies == deps@,
                ts[t as int].id == id,
                strictly_increasing(sorted@),
                forall|x: u8| #[trigger] sorted@.contains(x) <==> ids.contains(x),
                dependency_error(id, deps@.take(j as int), ids) == None::<Error>,
            decreases deps.len() - j,
        {
            let dep = deps[j];
            assert(deps@.take(j + 1).drop_last() =~= deps@.take(j as int));
            assert(deps@.take(j + 1).last() == dep);
            let found = search_sorted(&sorted, dep);
            let bad = match found {
                Err(_) => Some(Error::InvalidTaskId),
                Ok(_) => if dep == id {
                    Some(Error::CircularDependency)
                } else if dep > id {
                    Some(Error::CircularDependency)
                } else {
                    None
                },
            };
            proof {
                if found is Err {
                    assert(!sorted@.contains(dep));
                } else {
                    assert(sorted@.contains(dep));
                }
                assert(dependency_error(id, deps@.take(j + 1), ids) == bad);
            }
            if bad.is_some() {
                proof {
                    lemma_dependency_error_prefix(id, deps@, ids, j + 1);
                    assert(dependencies_error(ts.take(t + 1), ids) == bad);
                    lemma_dependencies_error_prefix(ts, ids, t + 1);
                }
                return bad;
            }
            j = j + 1;
        }
        assert(deps@.take(deps.len() as int) =~= deps@);
        t = t + 1;
    }
    assert(ts.take(tasks.len() as int) =~= ts);
    if tasks.len() > 255 {
        return Some(Error::ConversionType);
    }
    None
}

/// The total cost of `tasks`, summed without overflow: the largest balance
/// stands for any sum that does not fit.
pub fn total_cost_of(tasks: &Vec<TaskInput>) -> (r: Balance)
    ensures
        r == capped_total(inputs_view(tasks@)),
{
    let ghost ts = inputs_view(tasks@);
    let mut total: Balance = 0;
    let mut i: usize = 0;
    while i < tasks.len()
        invariant
            0 <= i <= tasks@.len(),
            ts == inputs_view(tasks@),
            total == capped_total(ts.take(i as int)),
        decreases tasks.len() - i,
    {
        assert(ts.take(i + 1).drop_last() =~= ts.take(i as int));
        assert(ts.take(i + 1).last().cost == tasks@[i as int].2);
        assert(cost_sum(ts.take(i + 1)) == cost_sum(ts.take(i as int)) + tasks@[i as int].2);
        let c = tasks[i].2;
        let next = total.saturating_add(c);
        assert(next == capped_total(ts.take(i + 1))) by {
            lemma_cost_sum_nonnegative(ts.take(i as int));
            if cost_sum(ts.take(i as int)) > u128::MAX {
                assert(total == u128::MAX);
            } else {
                assert(total == cost_sum(ts.take(i as int)));
            }
        }
        total = next;
        i = i + 1;
    }
    assert(ts.take(tasks.len() as int) =~= ts);
    total
}

/// Copies a list of ids.
pub fn copy_ids(v: &Vec<u8>) -> (r: Vec<u8>)
    ensures
        r@ == v@,
{
    let mut r: Vec<u8> = Vec::new();
    let mut i: usize = 0;
    while i < v.len()
        invariant
            0 <= i <= v.len(),
            r@ == v@.take(i as int),
        decreases v.len() - i,
    {
        r.push(v[i]);
        assert(v@.take(i as int).push(v@[i as int]) =~= v@.take(i + 1));
        i = i + 1;
    }
    assert(v@.take(v.len() as int) =~= v@);
    r
}

/// The tasks that `tasks` become, none completed.
pub fn build_tasks(tasks: &Vec<TaskInput>) -> (r: Vec<Task>)
    ensures
        tasks_view(r@) == inputs_view(tasks@),
{
    let mut r: Vec<Task> = Vec::new();
    let mut i: usize = 0;
    while i < tasks.len()
        invariant
            0 <= i <= tasks@.len(),
            r@.len() == i,
            tasks_view(r@) == inputs_view(tasks@).take(i as int),
        decreases tasks.len() - i,
    {
        let t = &tasks[i];
        let task = Task {
            id: t.0,
            complexity: t.1,
            cost: t.2,
            dependencies: copy_ids(&t.3),
            completed: false,
        };
        assert(task@ == input_view(tasks@[i as int]));
        let ghost before = r@;
        r.push(task);
        assert forall|k: int| 0 <= k < i + 1 implies #[trigger] tasks_view(r@)[k] == inputs_view(tasks@).take(i + 1)[k] by {
            if k < i {
                assert(r@[k] == before[k]);
                assert(tasks_view(before)[k] == inputs_view(tasks@).take(i as int)[k]);
            }
        }
        assert(tasks_view(r@) =~= inputs_view(tasks@).take(i + 1));
        i = i + 1;
    }
    assert(inputs_view(tasks@).take(tasks.len() as int) =~= inputs_view(tasks@));
    r
}

/// Copies a task.
pub fn copy_task(t: &Task) -> (r: Task)
    ensures
        r@ == t@,
{
    Task {
        id: t.id,
        complexity: t.complexity,
        cost: t.cost,
        dependencies: copy_ids(&t.dependencies),
        completed: t.completed,
    }
}

/// Copies a list of tasks.
pub fn copy_tasks(v: &Vec<Task>) -> (r: Vec<Task>)
    ensures
        tasks_view(r@) == tasks_view(v@),
{
    let mut r: Vec<Task> = Vec::new();
    let mut i: usize = 0;
    while i < v.len()
        invariant
            0 <= i <= v.len(),
            r@.len() == i,
            tasks_view(r@) == tasks_view(v@).take(i as int),
        decreases v.len() - i,
    {
        let task = copy_task(&v[i]);
        let ghost before = r@;
        r.push(task);
        assert forall|k: int| 0 <= k < i + 1 implies #[trigger] tasks_view(r@)[k] == tasks_view(v@).take(i + 1)[k] by {
            if k < i {
                assert(r@[k] == before[k]);
                assert(tasks_view(before)[k] == tasks_view(v@).take(i as int)[k]);
            }
        }
        assert(tasks_view(r@) =~= tasks_view(v@).take(i + 1));
        i = i + 1;
    }
    assert(tasks_view(v@).take(v.len() as int) =~= tasks_view(v@));
    r
}

/// The ids of a list of tasks.
pub fn ids_of(v: &Vec<Task>) -> (r: Vec<u8>)
    ensures
        r@ == task_ids(tasks_view(v@)),
{
    let mut r: Vec<u8> = Vec::new();
    let mut i: usize = 0;
    while i < v.len()
        invariant
            0 <= i <= v.len(),
            r@ == task_ids(tasks_view(v@)).take(i as int),
        decreases v.len() - i,
    {
        r.push(v[i].id);
        assert(r@ =~= task_ids(tasks_view(v@)).take(i + 1));
        i = i + 1;
    }
    assert(task_ids(tasks_view(v@)).take(v.len() as int) =~= task_ids(tasks_view(v@)));
    r
}

/// The position of the first of `tasks` with id `task_id`, if any.
pub fn position_of(tasks: &[Task], task_id: u8) -> (r: Option<usize>)
    ensures
        match r {
            Some(i) => task_position(tasks_view(tasks@), task_id) == Some(i as int),
            None => task_position(tasks_view(tasks@), task_id) == None::<int>,
        },
{
    let ghost ts = tasks_view(tasks@);
    proof {
        lemma_task_position(ts, task_id);
    }
    let mut i: usize = 0;
    while i < tasks.len()
        invariant
            0 <= i <= tasks@.len(),
            ts == tasks_view(tasks@),
            forall|k: int| 0 <= k < i ==> #[trigger] ts[k].id != task_id,
        decreases tasks.len() - i,
    {
        if tasks[i].id == task_id {
            proof {
                lemma_task_position(ts, task_id);
                assert(ts[i as int].id == task_id);
                match task_position(ts, task_id) {
                    Some(j) => {
                        if j > i {
                            assert(ts[i as int].id != task_id);
                        } else if j < i {
                            assert(ts[j].id != task_id);
                        }
                    },
                    None => {
                        assert(ts[i as int].id != task_id);
                    },
                }
            }
            return Some(i);
        }
        i = i + 1;
    }
    None
}

} // verus!
