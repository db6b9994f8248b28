//! The project lifecycle contract.
//!
//! A client creates a project; the DAO assigns it a coordinator; the
//! coordinator assigns a team and defines the scope, a set of tasks with
//! costs and dependencies; the client accepts the scope, paying an advance,
//! completes the tasks in dependency order, and finally marks the project
//! completed, rating each team member and paying the rest.
use vstd::prelude::*;

use crate::account::{AccountId, Balance, DocumentHash};
use crate::scope::{
    build_tasks, capped_total, cost_sum, check_tasks, copy_tasks, ids_of, position_of, task_ids,
    task_position, tasks_error, total_cost_of, well_formed_tasks,
};
use crate::team::{apply_ratings, copy_team, first_refused, form_team, rated, rating_error, selected_team, team_accounts};

verus! {

/// A member of a project team.
#[derive(Clone, Debug, PartialEq)]
pub struct TeamMember {
    pub account_id: AccountId,
    pub role: String,
    pub rating: Option<u8>,
}

/// The abstract value of a team member.
pub ghost struct TeamMemberView {
    pub account_id: AccountId,
    pub role: Seq<char>,
    pub rating: Option<u8>,
}

impl View for TeamMember {
    type V = TeamMemberView;

    open spec fn view(&self) -> TeamMemberView {
        TeamMemberView { account_id: self.account_id, role: self.role@, rating: self.rating }
    }
}

/// The abstract value of a team.
pub open spec fn team_view(team: Seq<TeamMember>) -> Seq<TeamMemberView> {
    team.map_values(|m: TeamMember| m@)
}

/// How much work a task takes.
#[derive(Clone, Copy, Debug, PartialEq, Eq, Structural)]
pub enum TaskComplexity {
    Abstract(u8),
    Days(u8),
    Weeks(u8),
}

/// A task of a project scope.
#[derive(Clone, Debug, PartialEq)]
pub struct Task {
    pub id: u8,
    pub complexity: TaskComplexity,
    pub cost: Balance,
    pub dependencies: Vec<u8>,
    pub completed: bool,
}

/// The abstract value of a task.
pub ghost struct TaskView {
    pub id: u8,
    pub complexity: TaskComplexity,
    pub cost: Balance,
    pub dependencies: Seq<u8>,
    pub completed: bool,
}

impl View for Task {
    type V = TaskView;

    open spec fn view(&self) -> TaskView {
        TaskView {
            id: self.id,
            complexity: self.complexity,
            cost: self.cost,
            dependencies: self.dependencies@,
            completed: self.completed,
        }
    }
}

/// The abstract value of a list of tasks.
pub open spec fn tasks_view(tasks: Seq<Task>) -> Seq<TaskView> {
    tasks.map_values(|t: Task| t@)
}

/// A task as the coordinator submits it: id, complexity, cost, dependencies.
pub type TaskInput = (u8, TaskComplexity, Balance, Vec<u8>);

/// The task that a submitted one becomes: not completed yet.
pub open spec fn input_view(t: TaskInput) -> TaskView {
    TaskView { id: t.0, complexity: t.1, cost: t.2, dependencies: t.3@, completed: false }
}

/// The tasks that submitted ones become.
pub open spec fn inputs_view(tasks: Seq<TaskInput>) -> Seq<TaskView> {
    tasks.map_values(|t: TaskInput| input_view(t))
}

/// The agreed scope of a project.
#[derive(Clone, Debug, PartialEq)]
pub struct ProjectScope {
    pub tasks: Vec<Task>,
    pub advance_payment_percentage: u8,
    pub document_hash: DocumentHash,
}

/// Where a project stands.
#[derive(Clone, Copy, Debug, PartialEq, Eq, Structural)]
pub enum ProjectStatus {
    /// Initial state when the project is created.
    Created,
    /// A coordinator has been assigned to the project.
    CoordinatorAssigned,
    /// Team members have been assigned.
    TeamAssigned,
    /// The scope has been defined but not accepted by the client.
    ScopeDefinedPendingApproval,
    /// The client has accepted the scope and made the advance payment.
    ScopeAccepted,
    /// All tasks are completed and the project is finalized.
    Completed,
}

/// Why the project contract refused a message.
#[derive(Clone, Copy, Debug, PartialEq, Eq, Structural)]
pub enum Error {
    NameTooLong,
    NotAuthorized,
    CoordinatorNotAssigned,
    TeamMemberNotFound,
    InvalidRatingValue,
    RatingsCountMismatch,
    ProjectAlreadyCompleted,
    CalendarContractNotSet,
    NoAvailableCoordinators,
    NoAvailableTeamMembers,
    ScopeNotDefined,
    ScopeAlreadyDefined,
    InvalidAdvancePaymentPercentage,
    TaskNotFound,
    DependenciesNotCompleted,
    InvalidTaskId,
    DuplicateTaskId,
    TaskAlreadyCompleted,
    CircularDependency,
    TasksNotCompleted,
    InvalidProjectState,
    ConversionType,
    ArithmeticFailure,
}

pub type Result<T> = core::result::Result<T, Error>;

/// The interface through which a project queries a calendar.
pub trait Calendar {
    /// Whether `account_id` is available for `project_id`.
    fn is_available(&self, account_id: AccountId, project_id: AccountId) -> bool;

    /// The workers available for `project_id`.
    fn get_available_workers(&self, project_id: AccountId) -> Vec<AccountId>;
}

/// Recorded when a coordinator is assigned.
#[derive(Clone, Debug, PartialEq)]
pub struct CoordinatorAssigned {
    pub project: String,
    pub coordinator: AccountId,
}

/// Recorded when a team is assigned.
#[derive(Clone, Debug, PartialEq)]
pub struct TeamAssigned {
    pub project: String,
    pub team_size: u32,
}

/// Recorded when a project is completed.
#[derive(Clone, Debug, PartialEq)]
pub struct ProjectCompleted {
    pub project: String,
    pub client: AccountId,
    pub final_payment: Balance,
}

/// Recorded when the coordinator defines the scope.
#[derive(Clone, Copy, Debug, PartialEq)]
pub struct ScopeDefined {
    pub project: AccountId,
    pub coordinator: AccountId,
    pub tasks_count: u8,
    pub total_cost: Balance,
}

/// Recorded when the client accepts the scope.
#[derive(Clone, Copy, Debug, PartialEq)]
pub struct ScopeAccepted {
    pub project: AccountId,
    pub client: AccountId,
    pub advance_payment: Balance,
}

/// Recorded when the client marks a task completed.
#[derive(Clone, Copy, Debug, PartialEq)]
pub struct TaskCompleted {
    pub project: AccountId,
    pub client: AccountId,
    pub task_id: u8,
}

/// An event recorded by a project, to be emitted by its host.
#[derive(Clone, Debug, PartialEq)]
pub enum ProjectEvent {
    CoordinatorAssigned(CoordinatorAssigned),
    TeamAssigned(TeamAssigned),
    ProjectCompleted(ProjectCompleted),
    ScopeDefined(ScopeDefined),
    ScopeAccepted(ScopeAccepted),
    TaskCompleted(TaskCompleted),
}

/// The abstract value of an event: names are taken by their characters.
pub ghost enum ProjectEventView {
    CoordinatorAssigned { project: Seq<char>, coordinator: AccountId },
    TeamAssigned { project: Seq<char>, team_size: u32 },
    ProjectCompleted { project: Seq<char>, client: AccountId, final_payment: Balance },
    ScopeDefined { project: AccountId, coordinator: AccountId, tasks_count: u8, total_cost: Balance },
    ScopeAccepted { project: AccountId, client: AccountId, advance_payment: Balance },
    TaskCompleted { project: AccountId, client: AccountId, task_id: u8 },
}

impl View for ProjectEvent {
    type V = ProjectEventView;

    open spec fn view(&self) -> ProjectEventView {
        match self {
            ProjectEvent::CoordinatorAssigned(e) => ProjectEventView::CoordinatorAssigned {
                project: e.project@,
                coordinator: e.coordinator,
            },
            ProjectEvent::TeamAssigned(e) => ProjectEventView::TeamAssigned {
                project: e.project@,
                team_size: e.team_size,
            },
            ProjectEvent::ProjectCompleted(e) => ProjectEventView::ProjectCompleted {
                project: e.project@,
                client: e.client,
                final_payment: e.final_payment,
            },
            ProjectEvent::ScopeDefined(e) => ProjectEventView::ScopeDefined {
                project: e.project,
                coordinator: e.coordinator,
                tasks_count: e.tasks_count,
                total_cost: e.total_cost,
            },
            ProjectEvent::ScopeAccepted(e) => ProjectEventView::ScopeAccepted {
                project: e.project,
                client: e.client,
                advance_payment: e.advance_payment,
            },
            ProjectEvent::TaskCompleted(e) => ProjectEventView::TaskCompleted {
                project: e.project,
                client: e.client,
                task_id: e.task_id,
            },
        }
    }
}

/// The abstract value of a list of events.
pub open spec fn events_view(events: Seq<ProjectEvent>) -> Seq<ProjectEventView> {
    events.map_values(|e: ProjectEvent| e@)
}

/// The longest project name, in bytes of its UTF-8 encoding.
pub const MAX_NAME_LENGTH: usize = 50;

/// Whether `name` is short enough to name a project.
pub open spec fn name_fits(name: Seq<char>) -> bool {
    vstd::utf8::encode_utf8(name).len() <= MAX_NAME_LENGTH
}

/// Every task of `ts` is completed.
pub open spec fn all_completed(ts: Seq<TaskView>) -> bool {
    forall|i: int| 0 <= i < ts.len() ==> #[trigger] ts[i].completed
}

/// No task of `ts` is completed.
pub open spec fn none_completed(ts: Seq<TaskView>) -> bool {
    forall|i: int| 0 <= i < ts.len() ==> !#[trigger] ts[i].completed
}

/// Every completed task of `ts` has all its dependencies completed.
pub open spec fn dependencies_respected(ts: Seq<TaskView>) -> bool {
    forall|i: int, j: int|
        0 <= i < ts.len() && ts[i].completed && 0 <= j < ts[i].dependencies.len() ==> (
        task_position(ts, #[trigger] ts[i].dependencies[j]) matches Some(k) && ts[k].completed)
}

/// Why the first dependency among `deps` that blocks a completion blocks it,
/// if one does: it names no task, or a task not yet completed.
pub open spec fn pending_dependency(ts: Seq<TaskView>, deps: Seq<u8>) -> Option<Error>
    decreases deps.len(),
{
    if deps.len() == 0 {
        None
    } else {
        match pending_dependency(ts, deps.drop_last()) {
            Some(e) => Some(e),
            None => match task_position(ts, deps.last()) {
                None => Some(Error::TaskNotFound),
                Some(k) => if !ts[k].completed {
                    Some(Error::DependenciesNotCompleted)
                } else {
                    None
                },
            },
        }
    }
}

/// Every rating given to a member of `team` is at most 10.
pub open spec fn ratings_valid(team: Seq<TeamMemberView>) -> bool {
    forall|i: int| 0 <= i < team.len() ==> (#[trigger] team[i].rating matches Some(r) ==> r <= 10)
}

/// The advance payment due on accepting a scope: the percentage of the total
/// cost, the product capped at the largest balance, divided by 100.
pub open spec fn advance_payment(total_cost: Balance, percentage: u8) -> Balance {
    let product = total_cost * percentage;
    (if product > u128::MAX {
        u128::MAX
    } else {
        product as u128
    }) / 100
}

/// A dependency blocking a completion among the first `k` is the first one of all.
pub proof fn lemma_pending_dependency_prefix(ts: Seq<TaskView>, deps: Seq<u8>, k: int)
    requires
        0 <= k <= deps.len(),
        pending_dependency(ts, deps.take(k)) is Some,
    ensures
        pending_dependency(ts, deps) == pending_dependency(ts, deps.take(k)),
    decreases deps.len(),
{
    if k < deps.len() {
        assert(deps.drop_last().take(k) =~= deps.take(k));
        lemma_pending_dependency_prefix(ts, deps.drop_last(), k);
    } else {
        assert(deps.take(k) =~= deps);
    }
}

/// When no dependency blocks a completion, each names a completed task.
pub proof fn lemma_pending_dependency_none(ts: Seq<TaskView>, deps: Seq<u8>)
    requires
        pending_dependency(ts, deps) is None,
    ensures
        forall|j: int| 0 <= j < deps.len() ==> (task_position(ts, #[trigger] deps[j]) matches Some(k)
            && ts[k].completed),
    decreases deps.len(),
{
    if deps.len() > 0 {
        lemma_pending_dependency_none(ts, deps.drop_last());
        assert forall|j: int| 0 <= j < deps.len() implies (task_position(ts, #[trigger] deps[j]) matches Some(k)
            && ts[k].completed) by {
            if j < deps.len() - 1 {
                assert(deps[j] == deps.drop_last()[j]);
            }
        }
    }
}

/// Tasks with the same ids are found at the same positions.
pub proof fn lemma_task_position_same_ids(a: Seq<TaskView>, b: Seq<TaskView>, id: u8)
    requires
        task_ids(a) == task_ids(b),
    ensures
        task_position(a, id) == task_position(b, id),
    decreases a.len(),
{
    assert(a.len() == task_ids(a).len());
    assert(b.len() == task_ids(b).len());
    if a.len() > 0 {
        assert(task_ids(a.drop_last()) =~= task_ids(a).drop_last());
        assert(task_ids(b.drop_last()) =~= task_ids(b).drop_last());
        lemma_task_position_same_ids(a.drop_last(), b.drop_last(), id);
        assert(a.last().id == task_ids(a)[a.len() - 1]);
        assert(b.last().id == task_ids(b)[b.len() - 1]);
    }
}

/// Marking a task completed keeps a well-formed task list well formed: ids
/// and dependencies stay as they were.
pub proof fn lemma_completion_keeps_tasks_well_formed(a: Seq<TaskView>, index: int)
    requires
        well_formed_tasks(a),
        0 <= index < a.len(),
    ensures
        well_formed_tasks(a.update(index, TaskView { completed: true, ..a[index] })),
{
    let b = a.update(index, TaskView { completed: true, ..a[index] });
    assert(task_ids(a) =~= task_ids(b));
    assert forall|i: int, j: int| 0 <= i < b.len() && 0 <= j < b[i].dependencies.len()
        implies task_ids(b).contains(#[trigger] b[i].dependencies[j]) && b[i].dependencies[j]
        < b[i].id by {
        assert(b[i].dependencies == a[i].dependencies);
        assert(a[i].dependencies[j] == b[i].dependencies[j]);
    }
}

/// Completing a task whose dependencies are completed keeps a reachable
/// state reachable.
proof fn lemma_completion_keeps_wf(p: Project, q: Project, index: int)
    requires
        p.wf(),
        p.status == ProjectStatus::ScopeAccepted,
        p.scope is Some,
        q.scope is Some,
        0 <= index < p.tasks().len(),
        q.tasks() == p.tasks().update(index, TaskView { completed: true, ..p.tasks()[index] }),
        forall|j: int| 0 <= j < p.tasks()[index].dependencies.len() ==> (task_position(
            p.tasks(),
            #[trigger] p.tasks()[index].dependencies[j],
        ) matches Some(k) && p.tasks()[k].completed),
        q.scope->Some_0.advance_payment_percentage == p.scope->Some_0.advance_payment_percentage,
        q.team_members == p.team_members,
        q.status == p.status,
        q.total_cost == p.total_cost,
        q.paid_amount == p.paid_amount,
    ensures
        q.wf(),
{
    let a = p.tasks();
    let b = q.tasks();
    assert(task_ids(a) =~= task_ids(b));
    assert(b.len() == a.len());
    lemma_completion_keeps_tasks_well_formed(a, index);
    assert(capped_total(b) == capped_total(a)) by {
        crate::scope::lemma_capped_total_same_costs(a, b);
    }
    assert(dependencies_respected(b)) by {
        assert forall|i: int, j: int|
            0 <= i < b.len() && b[i].completed && 0 <= j < b[i].dependencies.len() implies (task_position(
                b,
                #[trigger] b[i].dependencies[j],
            ) matches Some(k) && b[k].completed) by {
            let d = b[i].dependencies[j];
            assert(b[i].dependencies == a[i].dependencies);
            assert(d == a[i].dependencies[j]);
            lemma_task_position_same_ids(a, b, d);
            crate::scope::lemma_task_position(a, d);
            if i != index {
                assert(a[i].completed);
            }
            match task_position(a, d) {
                Some(k) => {
                    assert(a[k].completed);
                    assert(b[k].completed);
                },
                None => {},
            }
        }
    }
}

/// The advance paid on accepting a scope never exceeds its total cost.
pub proof fn lemma_advance_within_total(total_cost: Balance, percentage: u8)
    requires
        percentage <= 100,
    ensures
        advance_payment(total_cost, percentage) <= total_cost,
{
    let t = total_cost;
    let pct = percentage;
    if t * pct <= u128::MAX {
        assert((t * pct) / 100 <= t) by (nonlinear_arith)
            requires
                pct <= 100,
                t >= 0,
        ;
    } else {
        assert(u128::MAX / 100 <= t) by (nonlinear_arith)
            requires
                pct <= 100,
                t * pct > u128::MAX,
                t >= 0,
        ;
    }
}

/// The total cost of a scope is the sum of its task costs whenever that sum
/// fits in a balance, and the largest balance otherwise.
pub proof fn lemma_total_cost_is_sum(ts: Seq<TaskView>)
    ensures
        cost_sum(ts) <= u128::MAX ==> capped_total(ts) == cost_sum(ts),
        cost_sum(ts) > u128::MAX ==> capped_total(ts) == u128::MAX,
{
    crate::scope::lemma_cost_sum_nonnegative(ts);
}

/// A team formed from available workers has one to three members: the
/// first of the available workers, in order, none of them rated.
pub proof fn lemma_team_size(available: Seq<AccountId>)
    requires
        available.len() > 0,
    ensures
        1 <= selected_team(available).len() <= 3,
        forall|i: int| 0 <= i < selected_team(available).len() ==> #[trigger] selected_team(available)[i].account_id
            == available[i] && selected_team(available)[i].rating is None,
{
}

/// The advance is the given percentage of the total cost, rounded down:
/// `total_cost * percentage / 100`, the product taken as the largest balance
/// when it does not fit in one.
pub proof fn lemma_advance_payment_is_percentage(total_cost: Balance, percentage: u8)
    ensures
        total_cost * percentage <= u128::MAX ==> advance_payment(total_cost, percentage) == (
        total_cost * percentage) / 100,
        total_cost * percentage > u128::MAX ==> advance_payment(total_cost, percentage) == u128::MAX
            / 100,
        percentage == 0 ==> advance_payment(total_cost, percentage) == 0,
        percentage == 100 && total_cost * 100 <= u128::MAX ==> advance_payment(total_cost, percentage)
            == total_cost,
{
    if percentage == 100 {
        assert((total_cost * 100) / 100 == total_cost) by (nonlinear_arith);
    }
}

/// The client completes a task whenever the scope is accepted, the task
/// exists and is open, and every id on its own dependency list names a
/// completed task; nothing else about the other tasks matters.
pub proof fn lemma_complete_task_succeeds(p: Project, caller: AccountId, task_id: u8, i: int)
    requires
        caller == p.client,
        p.status == ProjectStatus::ScopeAccepted,
        p.scope is Some,
        task_ids(p.tasks()).no_duplicates(),
        0 <= i < p.tasks().len(),
        p.tasks()[i].id == task_id,
        !p.tasks()[i].completed,
        forall|j: int|
            #![trigger p.tasks()[i].dependencies[j]]
            0 <= j < p.tasks()[i].dependencies.len() ==> exists|k: int|
                #![trigger p.tasks()[k]]
                0 <= k < p.tasks().len() && p.tasks()[k].id == p.tasks()[i].dependencies[j]
                    && p.tasks()[k].completed,
    ensures
        p.complete_task_error(caller, task_id) is None,
{
    let ts = p.tasks();
    lemma_unique_id_position(ts, i);
    lemma_no_pending_dependency(ts, ts[i].dependencies);
}

/// In tasks with distinct ids, the task at `i` is the one found for its id.
proof fn lemma_unique_id_position(ts: Seq<TaskView>, i: int)
    requires
        task_ids(ts).no_duplicates(),
        0 <= i < ts.len(),
    ensures
        task_position(ts, ts[i].id) == Some(i),
{
    crate::scope::lemma_task_position(ts, ts[i].id);
    match task_position(ts, ts[i].id) {
        Some(k) => {
            assert(task_ids(ts)[k] == ts[k].id);
            assert(task_ids(ts)[i] == ts[i].id);
        },
        None => {
            assert(ts[i].id != ts[i].id);
        },
    }
}

/// Dependencies that each name a completed task block nothing.
proof fn lemma_no_pending_dependency(ts: Seq<TaskView>, deps: Seq<u8>)
    requires
        task_ids(ts).no_duplicates(),
        forall|j: int|
            #![trigger deps[j]]
            0 <= j < deps.len() ==> exists|k: int|
                #![trigger ts[k]]
                0 <= k < ts.len() && ts[k].id == deps[j] && ts[k].completed,
    ensures
        pending_dependency(ts, deps) is None,
    decreases deps.len(),
{
    if deps.len() > 0 {
        let d = deps.drop_last();
        assert forall|j: int| #![trigger d[j]] 0 <= j < d.len() implies exists|k: int|
            #![trigger ts[k]]
            0 <= k < ts.len() && ts[k].id == d[j] && ts[k].completed by {
            assert(d[j] == deps[j]);
        }
        lemma_no_pending_dependency(ts, d);
        let last = deps.len() - 1;
        assert(deps[last] == deps.last());
        let k = choose|k: int| #![trigger ts[k]] 0 <= k < ts.len() && ts[k].id == deps[last] && ts[k].completed;
        lemma_unique_id_position(ts, k);
    }
}

/// With the coordinator calling in the right state, the advance percentage
/// is refused exactly when it exceeds 100; any percentage from 0 to 100 with
/// well-formed tasks defines the scope.
pub proof fn lemma_define_scope_percentage(p: Project, caller: AccountId, ts: Seq<TaskView>, pct: u8)
    requires
        p.coordinator == Some(caller),
        p.status == ProjectStatus::TeamAssigned || p.status == ProjectStatus::CoordinatorAssigned,
        p.scope is None,
    ensures
        (p.define_scope_error(caller, ts, pct) == Some(Error::InvalidAdvancePaymentPercentage)) <==> pct
            > 100,
        pct <= 100 && well_formed_tasks(ts) ==> p.define_scope_error(caller, ts, pct) is None,
{
    crate::scope::lemma_tasks_error_kinds(ts);
    if well_formed_tasks(ts) {
        crate::scope::lemma_well_formed_tasks_accepted(ts);
    }
}

/// When the project is in a state to be completed and there is one rating
/// per member, each naming a member, the client completes it exactly when
/// every rating is at most 10; otherwise the refusal is for the rating value.
pub proof fn lemma_mark_completed_succeeds(p: Project, caller: AccountId, ratings: Seq<(AccountId, u8)>)
    requires
        caller == p.client,
        p.status != ProjectStatus::Completed,
        p.scope is Some ==> p.status == ProjectStatus::ScopeAccepted && all_completed(p.tasks())
            && p.paid_amount <= p.total_cost,
        ratings.len() == p.team_members@.len(),
        forall|j: int|
            0 <= j < ratings.len() ==> exists|i: int|
                0 <= i < p.team_members@.len() && #[trigger] p.team_members@[i].account_id == (
                #[trigger] ratings[j]).0,
    ensures
        p.mark_completed_error(caller, ratings) is None <==> forall|j: int|
            0 <= j < ratings.len() ==> (#[trigger] ratings[j]).1 <= 10,
        p.mark_completed_error(caller, ratings) is Some ==> p.mark_completed_error(caller, ratings)
            == Some(Error::InvalidRatingValue),
{
    let team = team_view(p.team_members@);
    assert forall|j: int| 0 <= j < ratings.len() implies exists|i: int|
        0 <= i < team.len() && #[trigger] team[i].account_id == (#[trigger] ratings[j]).0 by {
        let i = choose|i: int|
            0 <= i < p.team_members@.len() && #[trigger] p.team_members@[i].account_id == (
            #[trigger] ratings[j]).0;
        assert(team[i].account_id == p.team_members@[i].account_id);
    }
    crate::team::lemma_ratings_accepted_up_to_ten(team, ratings);
}

/// In a reachable state, a completed project with a scope has every task
/// completed and its total cost paid; every completed task has its
/// dependencies completed; no rating exceeds 10; nothing is paid while no
/// scope is defined.
pub proof fn lemma_reachable_state_facts(p: Project)
    requires
        p.wf(),
    ensures
        p.status == ProjectStatus::Completed && p.scope is Some ==> all_completed(p.tasks())
            && p.paid_amount == p.total_cost,
        dependencies_respected(p.tasks()),
        ratings_valid(team_view(p.team_members@)),
        p.paid_amount <= p.total_cost,
        p.scope is None ==> p.paid_amount == 0,
{
}

/// A project contract's state.
pub struct Project {
    pub name: String,
    pub client: AccountId,
    pub dao_address: AccountId,
    pub coordinator: Option<AccountId>,
    pub team_members: Vec<TeamMember>,
    pub status: ProjectStatus,
    pub calendar_contract: Option<AccountId>,
    pub scope: Option<ProjectScope>,
    pub total_cost: Balance,
    pub paid_amount: Balance,
    /// The account of the project contract itself.
    pub contract_account: AccountId,
    /// The events recorded and not yet taken.
    pub events: Vec<ProjectEvent>,
}

impl Project {
    /// Why `caller` may not define a scope of tasks `ts` with advance
    /// percentage `pct`, if they may not.
    pub open spec fn define_scope_error(&self, caller: AccountId, ts: Seq<TaskView>, pct: u8) -> Option<Error> {
        match self.coordinator {
            None => Some(Error::CoordinatorNotAssigned),
            Some(c) => if caller != c {
                Some(Error::NotAuthorized)
            } else if self.status != ProjectStatus::TeamAssigned && self.status
                != ProjectStatus::CoordinatorAssigned {
                Some(Error::InvalidProjectState)
            } else if self.scope is Some {
                Some(Error::ScopeAlreadyDefined)
            } else if pct > 100 {
                Some(Error::InvalidAdvancePaymentPercentage)
            } else {
                tasks_error(ts)
            },
        }
    }

    /// Why `caller` may not accept the scope, if they may not.
    pub open spec fn accept_scope_error(&self, caller: AccountId) -> Option<Error> {
        if caller != self.client {
            Some(Error::NotAuthorized)
        } else if self.scope is None {
            Some(Error::ScopeNotDefined)
        } else if self.status != ProjectStatus::ScopeDefinedPendingApproval {
            Some(Error::InvalidProjectState)
        } else {
            None
        }
    }

    /// Why `caller` may not complete the task with id `task_id`, if they may not.
    pub open spec fn complete_task_error(&self, caller: AccountId, task_id: u8) -> Option<Error> {
        let ts = self.tasks();
        if caller != self.client {
            Some(Error::NotAuthorized)
        } else if self.status != ProjectStatus::ScopeAccepted {
            Some(Error::InvalidProjectState)
        } else if self.scope is None {
            Some(Error::ScopeNotDefined)
        } else {
            match task_position(ts, task_id) {
                None => Some(Error::TaskNotFound),
                Some(i) => if ts[i].completed {
                    Some(Error::TaskAlreadyCompleted)
                } else {
                    pending_dependency(ts, ts[i].dependencies)
                },
            }
        }
    }

    /// Why `caller` may not mark the project completed with `ratings`, if
    /// they may not.
    pub open spec fn mark_completed_error(&self, caller: AccountId, ratings: Seq<(AccountId, u8)>) -> Option<Error> {
        let team = team_view(self.team_members@);
        if caller != self.client {
            Some(Error::NotAuthorized)
        } else if self.status == ProjectStatus::Completed {
            Some(Error::ProjectAlreadyCompleted)
        } else if self.scope is Some && self.status != ProjectStatus::ScopeAccepted {
            Some(Error::InvalidProjectState)
        } else if self.scope is Some && !all_completed(self.tasks()) {
            Some(Error::TasksNotCompleted)
        } else if ratings.len() != team.len() {
            Some(Error::RatingsCountMismatch)
        } else if rating_error(team, ratings) is Some {
            rating_error(team, ratings)
        } else if self.scope is Some && self.total_cost < self.paid_amount {
            Some(Error::ArithmeticFailure)
        } else {
            None
        }
    }

    /// How many of `ratings` are applied when `caller` is refused marking the
    /// project completed: those before the refused rating when a rating is
    /// refused, all of them when the payment cannot be computed, none
    /// otherwise.
    pub open spec fn ratings_applied_on_refusal(&self, caller: AccountId, ratings: Seq<(AccountId, u8)>) -> int {
        match self.mark_completed_error(caller, ratings) {
            Some(Error::ArithmeticFailure) => ratings.len() as int,
            Some(Error::InvalidRatingValue) => first_refused(team_view(self.team_members@), ratings),
            Some(Error::TeamMemberNotFound) => first_refused(team_view(self.team_members@), ratings),
            _ => 0,
        }
    }

    /// The tasks of the scope, none while no scope is defined.
    pub open spec fn tasks(&self) -> Seq<TaskView> {
        match self.scope {
            Some(s) => tasks_view(s.tasks@),
            None => Seq::empty(),
        }
    }

    /// The state is one that the messages of a project can reach.
    pub open spec fn wf(&self) -> bool {
        &&& ratings_valid(team_view(self.team_members@))
        &&& match self.scope {
            None => {
                &&& self.total_cost == 0
                &&& self.paid_amount == 0
                &&& self.status != ProjectStatus::ScopeDefinedPendingApproval
                &&& self.status != ProjectStatus::ScopeAccepted
            },
            Some(s) => {
                let ts = tasks_view(s.tasks@);
                &&& well_formed_tasks(ts)
                &&& s.advance_payment_percentage <= 100
                &&& self.total_cost == capped_total(ts)
                &&& self.paid_amount <= self.total_cost
                &&& dependencies_respected(ts)
                &&& self.status == ProjectStatus::ScopeDefinedPendingApproval ==> self.paid_amount == 0
                    && none_completed(ts)
                &&& self.status == ProjectStatus::Completed ==> all_completed(ts) && self.paid_amount
                    == self.total_cost
            },
        }
    }

    /// A project named `name`, with `caller` as its client, `dao_address` as
    /// the DAO that assigns its coordinator, and `calendar_contract` as the
    /// calendar it draws workers from. `contract_account` is the account of
    /// the project contract itself.
    pub fn new(
        caller: AccountId,
        contract_account: AccountId,
        name: String,
        dao_address: AccountId,
        calendar_contract: Option<AccountId>,
    ) -> (r: Project)
        requires
            name_fits(name@),
        ensures
            r.name == name,
            r.client == caller,
            r.dao_address == dao_address,
            r.coordinator == None::<AccountId>,
            r.team_members@ == Seq::<TeamMember>::empty(),
            r.status == ProjectStatus::Created,
            r.calendar_contract == calendar_contract,
            r.scope == None::<ProjectScope>,
            r.total_cost == 0,
            r.paid_amount == 0,
            r.contract_account == contract_account,
            r.events@ == Seq::<ProjectEvent>::empty(),
            r.wf(),
    {
        let r = Project {
            name,
            client: caller,
            dao_address,
            coordinator: None,
            team_members: Vec::new(),
            status: ProjectStatus::Created,
            calendar_contract,
            scope: None,
            total_cost: 0,
            paid_amount: 0,
            contract_account,
            events: Vec::new(),
        };
        assert(team_view(r.team_members@) =~= Seq::<TeamMemberView>::empty());
        r
    }

    /// The calendar to query for coordinators, once `caller` is allowed to
    /// assign one: the DAO may, provided a calendar is set.
    pub fn coordinator_query(&self, caller: AccountId) -> (r: Result<AccountId>)
        ensures
            caller != self.dao_address ==> r == Err::<AccountId, Error>(Error::NotAuthorized),
            caller == self.dao_address && self.calendar_contract is None ==> r == Err::<
                AccountId,
                Error,
            >(Error::CalendarContractNotSet),
            caller == self.dao_address && self.calendar_contract is Some ==> r == Ok::<
                AccountId,
                Error,
            >(self.calendar_contract->Some_0),
    {
        if caller != self.dao_address {
            return Err(Error::NotAuthorized);
        }
        match self.calendar_contract {
            Some(c) => Ok(c),
            None => Err(Error::CalendarContractNotSet),
        }
    }

    /// Picks the coordinator among the workers that the calendar reports
    /// available: the first of them.
    pub fn select_coordinator(&self, available_workers: &Vec<AccountId>) -> (r: Result<AccountId>)
        ensures
            self.calendar_contract is None ==> r == Err::<AccountId, Error>(Error::CalendarContractNotSet),
            self.calendar_contract is Some && available_workers@.len() == 0 ==> r == Err::<
                AccountId,
                Error,
            >(Error::NoAvailableCoordinators),
            self.calendar_contract is Some && available_workers@.len() > 0 ==> r == Ok::<
                AccountId,
                Error,
            >(available_workers@[0]),
    {
        if self.calendar_contract.is_none() {
            return Err(Error::CalendarContractNotSet);
        }
        if available_workers.len() == 0 {
            return Err(Error::NoAvailableCoordinators);
        }
        Ok(available_workers[0])
    }

    /// The DAO assigns the coordinator, picked from `available_workers`, the
    /// workers that the project's calendar reports available.
    pub fn assign_coordinator(&mut self, caller: AccountId, available_workers: &Vec<AccountId>) -> (r: Result<AccountId>)
        ensures
            caller != old(self).dao_address ==> r == Err::<AccountId, Error>(Error::NotAuthorized)
                && *final(self) == *old(self),
            caller == old(self).dao_address && old(self).calendar_contract is None ==> r == Err::<
                AccountId,
                Error,
            >(Error::CalendarContractNotSet) && *final(self) == *old(self),
            caller == old(self).dao_address && old(self).calendar_contract is Some
                && available_workers@.len() == 0 ==> r == Err::<AccountId, Error>(
                Error::NoAvailableCoordinators,
            ) && *final(self) == *old(self),
            caller == old(self).dao_address && old(self).calendar_contract is Some
                && available_workers@.len() > 0 ==> {
                let c = available_workers@[0];
                &&& r == Ok::<AccountId, Error>(c)
                &&& *final(self) == (Project {
                    coordinator: Some(c),
                    status: ProjectStatus::CoordinatorAssigned,
                    events: final(self).events,
                    ..*old(self)
                })
                &&& events_view(final(self).events@) == events_view(old(self).events@).push(
                    ProjectEventView::CoordinatorAssigned { project: old(self).name@, coordinator: c },
                )
            },
            old(self).wf() ==> final(self).wf(),
            old(self).scope is Some && well_formed_tasks(old(self).tasks()) ==> final(self).scope is Some
                && well_formed_tasks(final(self).tasks()),
    {
        if caller != self.dao_address {
            return Err(Error::NotAuthorized);
        }
        let coordinator = match self.select_coordinator(available_workers) {
            Ok(c) => c,
            Err(e) => return Err(e),
        };
        self.coordinator = Some(coordinator);
        self.status = ProjectStatus::CoordinatorAssigned;
        let ghost before = self.events@;
        let event = ProjectEvent::CoordinatorAssigned(
            CoordinatorAssigned { project: self.name.clone(), coordinator },
        );
        self.events.push(event);
        assert(events_view(self.events@) =~= events_view(before).push(event@));
        Ok(coordinator)
    }

    /// The calendar to query for team members, once `caller` is allowed to
    /// assign the team: the coordinator may, provided a calendar is set.
    pub fn team_query(&self, caller: AccountId) -> (r: Result<AccountId>)
        ensures
            self.coordinator is None ==> r == Err::<AccountId, Error>(Error::CoordinatorNotAssigned),
            self.coordinator is Some && caller != self.coordinator->Some_0 ==> r == Err::<
                AccountId,
                Error,
            >(Error::NotAuthorized),
            self.coordinator == Some(caller) && self.calendar_contract is None ==> r == Err::<
                AccountId,
                Error,
            >(Error::CalendarContractNotSet),
            self.coordinator == Some(caller) && self.calendar_contract is Some ==> r == Ok::<
                AccountId,
                Error,
            >(self.calendar_contract->Some_0),
    {
        match self.coordinator {
            Some(c) => {
                if caller != c {
                    return Err(Error::NotAuthorized);
                }
            },
            None => return Err(Error::CoordinatorNotAssigned),
        }
        match self.calendar_contract {
            Some(c) => Ok(c),
            None => Err(Error::CalendarContractNotSet),
        }
    }

    /// Forms the team from the workers that the calendar reports available:
    /// the first three at most, as designer, developer and tester.
    pub fn select_team_members(&self, available_workers: &Vec<AccountId>) -> (r: Result<Vec<TeamMember>>)
        ensures
            self.calendar_contract is None ==> r is Err && r->Err_0 == Error::CalendarContractNotSet,
            self.calendar_contract is Some && available_workers@.len() == 0 ==> r is Err && r->Err_0
                == Error::NoAvailableTeamMembers,
            self.calendar_contract is Some && available_workers@.len() > 0 ==> r is Ok && team_view(
                r->Ok_0@,
            ) == selected_team(available_workers@),
    {
        if self.calendar_contract.is_none() {
            return Err(Error::CalendarContractNotSet);
        }
        if available_workers.len() == 0 {
            return Err(Error::NoAvailableTeamMembers);
        }
        Ok(form_team(available_workers))
    }

    /// The coordinator assigns the team, formed from `available_workers`,
    /// the workers that the project's calendar reports available.
    pub fn assign_team(&mut self, caller: AccountId, _team_size: u8, available_workers: &Vec<AccountId>) -> (r: Result<Vec<TeamMember>>)
        ensures
            old(self).coordinator is None ==> r is Err && r->Err_0 == Error::CoordinatorNotAssigned
                && *final(self) == *old(self),
            old(self).coordinator is Some && caller != old(self).coordinator->Some_0 ==> r is Err
                && r->Err_0 == Error::NotAuthorized && *final(self) == *old(self),
            old(self).coordinator == Some(caller) && old(self).calendar_contract is None ==> r is Err
                && r->Err_0 == Error::CalendarContractNotSet && *final(self) == *old(self),
            old(self).coordinator == Some(caller) && old(self).calendar_contract is Some
                && available_workers@.len() == 0 ==> r is Err && r->Err_0
                == Error::NoAvailableTeamMembers && *final(self) == *old(self),
            old(self).coordinator == Some(caller) && old(self).calendar_contract is Some
                && available_workers@.len() > 0 ==> {
                let team = selected_team(available_workers@);
                &&& r is Ok
                &&& team_view(r->Ok_0@) == team
                &&& team_view(final(self).team_members@) == team
                &&& *final(self) == (Project {
                    team_members: final(self).team_members,
                    status: ProjectStatus::TeamAssigned,
                    events: final(self).events,
                    ..*old(self)
                })
                &&& events_view(final(self).events@) == events_view(old(self).events@).push(
                    ProjectEventView::TeamAssigned {
                        project: old(self).name@,
                        team_size: team.len() as u32,
                    },
                )
            },
            old(self).coordinator == Some(caller) && old(self).calendar_contract is Some
                && available_workers@.len() > 0 ==> {
                let n = if available_workers@.len() < 3 {
                    available_workers@.len()
                } else {
                    3
                };
                &&& r is Ok
                &&& r->Ok_0@.len() == n
                &&& final(self).team_members@.len() == n
                &&& forall|i: int|
                    0 <= i < n ==> #[trigger] final(self).team_members@[i].account_id
                        == available_workers@[i] && r->Ok_0@[i].account_id == available_workers@[i]
            },
            old(self).wf() ==> final(self).wf(),
            old(self).scope is Some && well_formed_tasks(old(self).tasks()) ==> final(self).scope is Some
                && well_formed_tasks(final(self).tasks()),
    {
        match self.coordinator {
            Some(c) => {
                if caller != c {
                    return Err(Error::NotAuthorized);
                }
            },
            None => return Err(Error::CoordinatorNotAssigned),
        }
        let team = match self.select_team_members(available_workers) {
            Ok(t) => t,
            Err(e) => return Err(e),
        };
        let team_size = team.len() as u32;
        self.team_members = copy_team(&team);
        proof {
            crate::team::lemma_team_takes_first_three(available_workers@);
            assert forall|i: int| 0 <= i < team@.len() implies #[trigger] self.team_members@[i].account_id
                == available_workers@[i] && team@[i].account_id == available_workers@[i] by {
                assert(team_view(team@)[i] == team@[i]@);
                assert(team_view(self.team_members@)[i] == self.team_members@[i]@);
            }
        }
        self.status = ProjectStatus::TeamAssigned;
        let ghost before = self.events@;
        let event = ProjectEvent::TeamAssigned(TeamAssigned { project: self.name.clone(), team_size });
        self.events.push(event);
        assert(events_view(self.events@) =~= events_view(before).push(event@));
        proof {
            let tv = team_view(self.team_members@);
            assert forall|i: int| 0 <= i < tv.len() implies (#[trigger] tv[i].rating matches Some(
                r,
            ) ==> r <= 10) by {
                assert(tv[i] == selected_team(available_workers@)[i]);
            }
        }
        Ok(team)
    }

    /// The client sets the calendar that the project draws workers from.
    pub fn set_calendar_contract(&mut self, caller: AccountId, calendar_contract: AccountId) -> (r: Result<()>)
        ensures
            caller != old(self).client ==> r == Err::<(), Error>(Error::NotAuthorized) && *final(self)
                == *old(self),
            caller == old(self).client ==> r == Ok::<(), Error>(()) && *final(self) == (Project {
                calendar_contract: Some(calendar_contract),
                ..*old(self)
            }),
            old(self).wf() ==> final(self).wf(),
            old(self).scope is Some && well_formed_tasks(old(self).tasks()) ==> final(self).scope is Some
                && well_formed_tasks(final(self).tasks()),
    {
        if caller != self.client {
            return Err(Error::NotAuthorized);
        }
        self.calendar_contract = Some(calendar_contract);
        Ok(())
    }

    /// Name, client, DAO, coordinator, status, total cost and amount paid.
    pub fn get_project_info(&self) -> (r: (String, AccountId, AccountId, Option<AccountId>, ProjectStatus, Balance, Balance))
        ensures
            r.0@ == self.name@,
            r.1 == self.client,
            r.2 == self.dao_address,
            r.3 == self.coordinator,
            r.4 == self.status,
            r.5 == self.total_cost,
            r.6 == self.paid_amount,
    {
        (
            self.name.clone(),
            self.client,
            self.dao_address,
            self.coordinator,
            self.status,
            self.total_cost,
            self.paid_amount,
        )
    }

    /// The team members.
    pub fn get_team(&self) -> (r: Vec<TeamMember>)
        ensures
            team_view(r@) == team_view(self.team_members@),
    {
        copy_team(&self.team_members)
    }

    /// The task ids, advance percentage, document hash, total cost and amount
    /// paid, once a scope is defined.
    pub fn get_scope_info(&self) -> (r: Option<(Vec<u8>, u8, DocumentHash, Balance, Balance)>)
        ensures
            self.scope is None ==> r is None,
            self.scope matches Some(s) ==> r matches Some(info) && info.0@ == task_ids(
                tasks_view(s.tasks@),
            ) && info.1 == s.advance_payment_percentage && info.2 == s.document_hash && info.3
                == self.total_cost && info.4 == self.paid_amount,
    {
        match &self.scope {
            Some(scope) => Some(
                (
                    ids_of(&scope.tasks),
                    scope.advance_payment_percentage,
                    scope.document_hash,
                    self.total_cost,
                    self.paid_amount,
                ),
            ),
            None => None,
        }
    }

    /// The first task of `tasks` with id `task_id`, with its position.
    fn find_task_by_id<'a>(&self, tasks: &'a [Task], task_id: u8) -> (r: Option<(usize, &'a Task)>)
        ensures
            match r {
                Some((i, t)) => task_position(tasks_view(tasks@), task_id) == Some(i as int) && *t
                    == tasks@[i as int],
                None => task_position(tasks_view(tasks@), task_id) is None,
            },
    {
        match position_of(tasks, task_id) {
            Some(i) => {
                proof {
                    crate::scope::lemma_task_position(tasks_view(tasks@), task_id);
                }
                Some((i, &tasks[i]))
            },
            None => None,
        }
    }

    /// The task with id `task_id`, if the scope has one.
    pub fn get_task(&self, task_id: u8) -> (r: Option<Task>)
        ensures
            match task_position(self.tasks(), task_id) {
                Some(i) => r matches Some(t) && t@ == self.tasks()[i],
                None => r is None,
            },
    {
        proof {
            crate::scope::lemma_task_position(self.tasks(), task_id);
        }
        match &self.scope {
            Some(scope) => match self.find_task_by_id(scope.tasks.as_slice(), task_id) {
                Some((_, task)) => Some(crate::scope::copy_task(task)),
                None => None,
            },
            None => None,
        }
    }

    /// Whether the task with id `task_id` is completed.
    pub fn get_task_completion_status(&self, task_id: u8) -> (r: Result<bool>)
        ensures
            self.scope is None ==> r == Err::<bool, Error>(Error::ScopeNotDefined),
            self.scope is Some ==> match task_position(self.tasks(), task_id) {
                Some(i) => r == Ok::<bool, Error>(self.tasks()[i].completed),
                None => r == Err::<bool, Error>(Error::TaskNotFound),
            },
    {
        proof {
            crate::scope::lemma_task_position(self.tasks(), task_id);
        }
        match &self.scope {
            Some(scope) => match self.find_task_by_id(scope.tasks.as_slice(), task_id) {
                Some((_, task)) => Ok(task.completed),
                None => Err(Error::TaskNotFound),
            },
            None => Err(Error::ScopeNotDefined),
        }
    }

    /// All tasks of the scope.
    pub fn get_all_tasks(&self) -> (r: Result<Vec<Task>>)
        ensures
            self.scope is None ==> r == Err::<Vec<Task>, Error>(Error::ScopeNotDefined),
            self.scope is Some ==> r is Ok && tasks_view(r->Ok_0@) == self.tasks(),
    {
        match &self.scope {
            Some(scope) => Ok(copy_tasks(&scope.tasks)),
            None => Err(Error::ScopeNotDefined),
        }
    }

    /// The coordinator defines the scope: the tasks, the share of the total
    /// cost paid in advance, in percent, and the hash of the scope document.
    pub fn define_scope(
        &mut self,
        caller: AccountId,
        tasks: Vec<TaskInput>,
        advance_payment_percentage: u8,
        document_hash: DocumentHash,
    ) -> (r: Result<()>)
        ensures
            ({
                let ts = inputs_view(tasks@);
                match old(self).define_scope_error(caller, ts, advance_payment_percentage) {
                    Some(e) => r == Err::<(), Error>(e) && *final(self) == *old(self),
                    None => {
                        &&& r == Ok::<(), Error>(())
                        &&& final(self).scope is Some
                        &&& tasks_view(final(self).scope->Some_0.tasks@) == ts
                        &&& final(self).scope->Some_0.advance_payment_percentage
                            == advance_payment_percentage
                        &&& final(self).scope->Some_0.document_hash == document_hash
                        &&& *final(self) == (Project {
                            scope: final(self).scope,
                            total_cost: capped_total(ts),
                            status: ProjectStatus::ScopeDefinedPendingApproval,
                            events: final(self).events,
                            ..*old(self)
                        })
                        &&& events_view(final(self).events@) == events_view(old(self).events@).push(
                            ProjectEventView::ScopeDefined {
                                project: old(self).contract_account,
                                coordinator: caller,
                                tasks_count: ts.len() as u8,
                                total_cost: capped_total(ts),
                            },
                        )
                    },
                }
            }),
            old(self).coordinator == Some(caller) && (old(self).status == ProjectStatus::TeamAssigned
                || old(self).status == ProjectStatus::CoordinatorAssigned) && old(self).scope is None ==> {
                &&& (r == Err::<(), Error>(Error::InvalidAdvancePaymentPercentage)
                    <==> advance_payment_percentage > 100)
                &&& advance_payment_percentage <= 100 && well_formed_tasks(inputs_view(tasks@)) ==> r is Ok
            },
            r is Ok ==> advance_payment_percentage <= 100 && well_formed_tasks(inputs_view(tasks@)),
            old(self).wf() ==> final(self).wf(),
            old(self).scope is Some && well_formed_tasks(old(self).tasks()) ==> final(self).scope is Some
                && well_formed_tasks(final(self).tasks()),
    {
        proof {
            if self.coordinator == Some(caller) && (self.status == ProjectStatus::TeamAssigned
                || self.status == ProjectStatus::CoordinatorAssigned) && self.scope is None {
                lemma_define_scope_percentage(*self, caller, inputs_view(tasks@), advance_payment_percentage);
            }
        }
        match self.coordinator {
            Some(c) => {
                if caller != c {
                    return Err(Error::NotAuthorized);
                }
            },
            None => return Err(Error::CoordinatorNotAssigned),
        }
        if self.status != ProjectStatus::TeamAssigned && self.status != ProjectStatus::CoordinatorAssigned {
            return Err(Error::InvalidProjectState);
        }
        if self.scope.is_some() {
            return Err(Error::ScopeAlreadyDefined);
        }
        if advance_payment_percentage > 100 {
            return Err(Error::InvalidAdvancePaymentPercentage);
        }
        match check_tasks(&tasks) {
            Some(e) => return Err(e),
            None => {},
        }
        let total_cost = total_cost_of(&tasks);
        let tasks_vec = build_tasks(&tasks);
        let tasks_count = tasks_vec.len() as u8;
        proof {
            crate::scope::lemma_no_tasks_error(inputs_view(tasks@));
        }
        self.scope = Some(ProjectScope { tasks: tasks_vec, advance_payment_percentage, document_hash });
        self.total_cost = total_cost;
        self.status = ProjectStatus::ScopeDefinedPendingApproval;
        let ghost before = self.events@;
        let event = ProjectEvent::ScopeDefined(
            ScopeDefined { project: self.contract_account, coordinator: caller, tasks_count, total_cost },
        );
        self.events.push(event);
        assert(events_view(self.events@) =~= events_view(before).push(event@));
        proof {
            let ts = inputs_view(tasks@);
            assert(none_completed(ts));
        }
        Ok(())
    }

    /// The client accepts the scope, paying the advance.
    pub fn accept_scope(&mut self, caller: AccountId) -> (r: Result<()>)
        ensures
            match old(self).accept_scope_error(caller) {
                Some(e) => r == Err::<(), Error>(e) && *final(self) == *old(self),
                None => {
                    let advance = advance_payment(
                        old(self).total_cost,
                        old(self).scope->Some_0.advance_payment_percentage,
                    );
                    &&& r == Ok::<(), Error>(())
                    &&& *final(self) == (Project {
                        paid_amount: advance,
                        status: ProjectStatus::ScopeAccepted,
                        events: final(self).events,
                        ..*old(self)
                    })
                    &&& events_view(final(self).events@) == events_view(old(self).events@).push(
                        ProjectEventView::ScopeAccepted {
                            project: old(self).contract_account,
                            client: caller,
                            advance_payment: advance,
                        },
                    )
                },
            },
            ({
                let total = old(self).total_cost;
                let pct = old(self).scope->Some_0.advance_payment_percentage;
                &&& r is Ok && total * pct <= u128::MAX ==> final(self).paid_amount == (total * pct) / 100
                &&& r is Ok && total * pct > u128::MAX ==> final(self).paid_amount == u128::MAX / 100
            }),
            old(self).wf() ==> final(self).wf(),
            old(self).scope is Some && well_formed_tasks(old(self).tasks()) ==> final(self).scope is Some
                && well_formed_tasks(final(self).tasks()),
    {
        if caller != self.client {
            return Err(Error::NotAuthorized);
        }
        let percentage = match &self.scope {
            Some(s) => s.advance_payment_percentage,
            None => return Err(Error::ScopeNotDefined),
        };
        if self.status != ProjectStatus::ScopeDefinedPendingApproval {
            return Err(Error::InvalidProjectState);
        }
        let product = match self.total_cost.checked_mul(percentage as u128) {
            Some(p) => p,
            None => u128::MAX,
        };
        let advance = product / 100;
        proof {
            lemma_advance_payment_is_percentage(self.total_cost, percentage);
            if percentage <= 100 {
                lemma_advance_within_total(self.total_cost, percentage);
            }
        }
        self.paid_amount = advance;
        self.status = ProjectStatus::ScopeAccepted;
        let ghost before = self.events@;
        let event = ProjectEvent::ScopeAccepted(
            ScopeAccepted { project: self.contract_account, client: caller, advance_payment: advance },
        );
        self.events.push(event);
        assert(events_view(self.events@) =~= events_view(before).push(event@));
        Ok(())
    }

    /// The client marks the task with id `task_id` completed; its
    /// dependencies must be completed first.
    pub fn complete_task(&mut self, caller: AccountId, task_id: u8) -> (r: Result<()>)
        ensures
            match old(self).complete_task_error(caller, task_id) {
                Some(e) => r == Err::<(), Error>(e) && *final(self) == *old(self),
                None => {
                    let ts = old(self).tasks();
                    let i = task_position(ts, task_id)->Some_0;
                    &&& r == Ok::<(), Error>(())
                    &&& final(self).scope is Some
                    &&& final(self).tasks() == ts.update(i, TaskView { completed: true, ..ts[i] })
                    &&& final(self).scope->Some_0.advance_payment_percentage
                        == old(self).scope->Some_0.advance_payment_percentage
                    &&& final(self).scope->Some_0.document_hash == old(
                        self,
                    ).scope->Some_0.document_hash
                    &&& *final(self) == (Project {
                        scope: final(self).scope,
                        events: final(self).events,
                        ..*old(self)
                    })
                    &&& events_view(final(self).events@) == events_view(old(self).events@).push(
                        ProjectEventView::TaskCompleted {
                            project: old(self).contract_account,
                            client: caller,
                            task_id,
                        },
                    )
                },
            },
            forall|i: int|
                #![trigger old(self).tasks()[i]]
                caller == old(self).client && old(self).status == ProjectStatus::ScopeAccepted
                    && old(self).scope is Some && task_ids(old(self).tasks()).no_duplicates() && 0 <= i
                    < old(self).tasks().len() && old(self).tasks()[i].id == task_id
                    && !old(self).tasks()[i].completed && (forall|j: int|
                    #![trigger old(self).tasks()[i].dependencies[j]]
                    0 <= j < old(self).tasks()[i].dependencies.len() ==> exists|k: int|
                        #![trigger old(self).tasks()[k]]
                        0 <= k < old(self).tasks().len() && old(self).tasks()[k].id == old(
                            self,
                        ).tasks()[i].dependencies[j] && old(self).tasks()[k].completed) ==> r is Ok,
            r is Ok ==> exists|i: int|
                #![trigger old(self).tasks()[i]]
                0 <= i < old(self).tasks().len() && old(self).tasks()[i].id == task_id && !old(
                    self,
                ).tasks()[i].completed && final(self).tasks()[i].completed && (forall|j: int|
                    #![trigger old(self).tasks()[i].dependencies[j]]
                    0 <= j < old(self).tasks()[i].dependencies.len() ==> exists|k: int|
                        #![trigger old(self).tasks()[k]]
                        0 <= k < old(self).tasks().len() && old(self).tasks()[k].id == old(
                            self,
                        ).tasks()[i].dependencies[j] && old(self).tasks()[k].completed),
            old(self).wf() ==> final(self).wf(),
            old(self).scope is Some && well_formed_tasks(old(self).tasks()) ==> final(self).scope is Some
                && well_formed_tasks(final(self).tasks()),
    {
        proof {
            let s0 = *self;
            assert forall|i: int|
                #![trigger s0.tasks()[i]]
                caller == s0.client && s0.status == ProjectStatus::ScopeAccepted && s0.scope is Some
                    && task_ids(s0.tasks()).no_duplicates() && 0 <= i < s0.tasks().len()
                    && s0.tasks()[i].id == task_id && !s0.tasks()[i].completed && (forall|j: int|
                    #![trigger s0.tasks()[i].dependencies[j]]
                    0 <= j < s0.tasks()[i].dependencies.len() ==> exists|k: int|
                        #![trigger s0.tasks()[k]]
                        0 <= k < s0.tasks().len() && s0.tasks()[k].id == s0.tasks()[i].dependencies[j]
                            && s0.tasks()[k].completed) implies s0.complete_task_error(caller, task_id)
                is None by {
                lemma_complete_task_succeeds(s0, caller, task_id, i);
            }
        }
        if caller != self.client {
            return Err(Error::NotAuthorized);
        }
        if self.status != ProjectStatus::ScopeAccepted {
            return Err(Error::InvalidProjectState);
        }
        let ghost ts = self.tasks();
        let index = match &self.scope {
            Some(scope) => {
                let index = match position_of(scope.tasks.as_slice(), task_id) {
                    Some(i) => i,
                    None => return Err(Error::TaskNotFound),
                };
                proof {
                    crate::scope::lemma_task_position(ts, task_id);
                }
                if scope.tasks[index].completed {
                    return Err(Error::TaskAlreadyCompleted);
                }
                let deps = &scope.tasks[index].dependencies;
                assert(deps@ == ts[index as int].dependencies);
                let mut j: usize = 0;
                #[verifier::loop_isolation(false)]
                while j < deps.len()
                    invariant
                        0 <= j <= deps@.len(),
                        ts == tasks_view(scope.tasks@),
                        pending_dependency(ts, deps@.take(j as int)) == None::<Error>,
                    decreases deps.len() - j,
                {
                    let dep = deps[j];
                    proof {
                        assert(deps@.take(j + 1).drop_last() =~= deps@.take(j as int));
                        assert(deps@.take(j + 1).last() == dep);
                        crate::scope::lemma_task_position(ts, dep);
                    }
                    match position_of(scope.tasks.as_slice(), dep) {
                        None => {
                            proof {
                                assert(pending_dependency(ts, deps@.take(j + 1)) == Some(Error::TaskNotFound));
                                lemma_pending_dependency_prefix(ts, deps@, j + 1);
                            }
                            return Err(Error::TaskNotFound);
                        },
                        Some(k) => {
                            if !scope.tasks[k].completed {
                                proof {
                                    assert(ts[k as int].completed == scope.tasks@[k as int].completed);
                                    assert(pending_dependency(ts, deps@.take(j + 1)) == Some(Error::DependenciesNotCompleted));
                                    lemma_pending_dependency_prefix(ts, deps@, j + 1);
                                }
                                return Err(Error::DependenciesNotCompleted);
                            }
                        },
                    }
                    j = j + 1;
                }
                assert(deps@.take(deps.len() as int) =~= deps@);
                index
            },
            None => return Err(Error::ScopeNotDefined),
        };
        proof {
            let deps = ts[index as int].dependencies;
            lemma_pending_dependency_none(ts, deps);
            assert forall|j: int| #![trigger deps[j]] 0 <= j < deps.len() implies exists|k: int|
                #![trigger ts[k]]
                0 <= k < ts.len() && ts[k].id == deps[j] && ts[k].completed by {
                crate::scope::lemma_task_position(ts, deps[j]);
                let k = task_position(ts, deps[j])->Some_0;
                assert(ts[k].id == deps[j] && ts[k].completed);
            }
        }
        let ghost old_self = *self;
        if let Some(scope) = &mut self.scope {
            let mut task = crate::scope::copy_task(&scope.tasks[index]);
            task.completed = true;
            scope.tasks.set(index, task);
        }
        proof {
            let nts = self.tasks();
            assert(nts =~= ts.update(index as int, TaskView { completed: true, ..ts[index as int] }));
            if old_self.wf() {
                lemma_completion_keeps_wf(old_self, *self, index as int);
            }
            if well_formed_tasks(ts) {
                lemma_completion_keeps_tasks_well_formed(ts, index as int);
            }
        }
        let ghost before = self.events@;
        let event = ProjectEvent::TaskCompleted(
            TaskCompleted { project: self.contract_account, client: caller, task_id },
        );
        self.events.push(event);
        assert(events_view(self.events@) =~= events_view(before).push(event@));
        Ok(())
    }

    /// The client marks the project completed, rating each team member and
    /// paying what remains of the total cost. A refused rating, or a payment
    /// that cannot be computed, is refused with the ratings before it applied.
    pub fn mark_completed(&mut self, caller: AccountId, ratings: Vec<(AccountId, u8)>) -> (r: Result<()>)
        ensures
            match old(self).mark_completed_error(caller, ratings@) {
                Some(e) => {
                    &&& r == Err::<(), Error>(e)
                    &&& *final(self) == (Project { team_members: final(self).team_members, ..*old(self) })
                    &&& team_view(final(self).team_members@) == rated(
                        team_view(old(self).team_members@),
                        ratings@.take(old(self).ratings_applied_on_refusal(caller, ratings@)),
                    )
                    &&& e != Error::InvalidRatingValue && e != Error::TeamMemberNotFound && e
                        != Error::ArithmeticFailure ==> *final(self) == *old(self)
                },
                None => {
                    let paid = if old(self).scope is Some {
                        old(self).total_cost
                    } else {
                        old(self).paid_amount
                    };
                    let remaining = if old(self).scope is Some {
                        (old(self).total_cost - old(self).paid_amount) as u128
                    } else {
                        0
                    };
                    &&& r == Ok::<(), Error>(())
                    &&& team_view(final(self).team_members@) == rated(
                        team_view(old(self).team_members@),
                        ratings@,
                    )
                    &&& *final(self) == (Project {
                        team_members: final(self).team_members,
                        paid_amount: paid,
                        status: ProjectStatus::Completed,
                        events: final(self).events,
                        ..*old(self)
                    })
                    &&& events_view(final(self).events@) == events_view(old(self).events@).push(
                        ProjectEventView::ProjectCompleted {
                            project: old(self).name@,
                            client: old(self).client,
                            final_payment: remaining,
                        },
                    )
                },
            },
            caller == old(self).client && old(self).status != ProjectStatus::Completed && (old(
                self,
            ).scope is Some ==> old(self).status == ProjectStatus::ScopeAccepted && all_completed(
                old(self).tasks(),
            ) && old(self).paid_amount <= old(self).total_cost) && ratings@.len()
                == old(self).team_members@.len() && (forall|j: int|
                0 <= j < ratings@.len() ==> exists|i: int|
                    0 <= i < old(self).team_members@.len() && #[trigger] old(
                        self,
                    ).team_members@[i].account_id == (#[trigger] ratings@[j]).0) ==> {
                &&& (r is Ok <==> forall|j: int| 0 <= j < ratings@.len() ==> (#[trigger] ratings@[j]).1 <= 10)
                &&& r is Err ==> r == Err::<(), Error>(Error::InvalidRatingValue)
            },
            r is Ok && team_accounts(team_view(old(self).team_members@)).no_duplicates() ==> forall|
                i: int,
                j: int,
            |
                #![trigger final(self).team_members@[i], ratings@[j]]
                0 <= i < old(self).team_members@.len() && 0 <= j < ratings@.len() && ratings@[j].0 == old(
                    self,
                ).team_members@[i].account_id && (forall|l: int|
                    #![trigger ratings@[l]]
                    j < l < ratings@.len() ==> ratings@[l].0 != old(self).team_members@[i].account_id)
                    ==> final(self).team_members@[i].rating == Some(ratings@[j].1),
            old(self).wf() ==> r != Err::<(), Error>(Error::ArithmeticFailure),
            old(self).wf() ==> final(self).wf(),
            old(self).scope is Some && well_formed_tasks(old(self).tasks()) ==> final(self).scope is Some
                && well_formed_tasks(final(self).tasks()),
    {
        proof {
            let s0 = *self;
            if caller == s0.client && s0.status != ProjectStatus::Completed && (s0.scope is Some
                ==> s0.status == ProjectStatus::ScopeAccepted && all_completed(s0.tasks())
                && s0.paid_amount <= s0.total_cost) && ratings@.len() == s0.team_members@.len() && (
            forall|j: int|
                0 <= j < ratings@.len() ==> exists|i: int|
                    0 <= i < s0.team_members@.len() && #[trigger] s0.team_members@[i].account_id == (
                    #[trigger] ratings@[j]).0) {
                lemma_mark_completed_succeeds(s0, caller, ratings@);
            }
        }
        if caller != self.client {
            return Err(Error::NotAuthorized);
        }
        if self.status == ProjectStatus::Completed {
            return Err(Error::ProjectAlreadyCompleted);
        }
        if let Some(scope) = &self.scope {
            if self.status != ProjectStatus::ScopeAccepted {
                return Err(Error::InvalidProjectState);
            }
            let mut i: usize = 0;
            #[verifier::loop_isolation(false)]
            while i < scope.tasks.len()
                invariant
                    0 <= i <= scope.tasks@.len(),
                    self.scope == Some(*scope),
                    forall|k: int| 0 <= k < i ==> #[trigger] self.tasks()[k].completed,
                decreases scope.tasks.len() - i,
            {
                if !scope.tasks[i].completed {
                    assert(!self.tasks()[i as int].completed);
                    return Err(Error::TasksNotCompleted);
                }
                assert(self.tasks()[i as int].completed);
                i = i + 1;
            }
        }
        if ratings.len() != self.team_members.len() {
            return Err(Error::RatingsCountMismatch);
        }
        proof {
            crate::team::lemma_rating_error_kinds(team_view(self.team_members@), ratings@);
        }
        let ghost old_self = *self;
        let ghost old_team = team_view(self.team_members@);
        proof {
            crate::team::lemma_first_refused_prefix(old_team, ratings@);
        }
        let applied = apply_ratings(&mut self.team_members, &ratings);
        proof {
            if old_self.wf() {
                if rating_error(old_team, ratings@) is Some {
                    crate::team::lemma_rated_valid(old_team, ratings@.take(first_refused(old_team, ratings@)));
                } else {
                    crate::team::lemma_rated_valid(old_team, ratings@);
                }
            }
        }
        match applied {
            Ok(()) => {},
            Err(e) => return Err(e),
        }
        let mut remaining: Balance = 0;
        if self.scope.is_some() {
            remaining = match self.total_cost.checked_sub(self.paid_amount) {
                Some(x) => x,
                None => {
                    assert(ratings@.take(ratings@.len() as int) =~= ratings@);
                    return Err(Error::ArithmeticFailure);
                },
            };
        }
        if self.scope.is_some() {
            self.paid_amount = self.total_cost;
        }
        self.status = ProjectStatus::Completed;
        let ghost before = self.events@;
        let event = ProjectEvent::ProjectCompleted(
            ProjectCompleted { project: self.name.clone(), client: self.client, final_payment: remaining },
        );
        self.events.push(event);
        assert(events_view(self.events@) =~= events_view(before).push(event@));
        Ok(())
    }

    /// Hands over the events recorded since the last call, oldest first.
    pub fn take_events(&mut self) -> (r: Vec<ProjectEvent>)
        ensures
            r@ == old(self).events@,
            *final(self) == (Project { events: final(self).events, ..*old(self) }),
            final(self).events@ == Seq::<ProjectEvent>::empty(),
            old(self).wf() ==> final(self).wf(),
            old(self).scope is Some && well_formed_tasks(old(self).tasks()) ==> final(self).scope is Some
                && well_formed_tasks(final(self).tasks()),
    {
        let mut taken: Vec<ProjectEvent> = Vec::new();
        std::mem::swap(&mut taken, &mut self.events);
        taken
    }
}

} // verus!
