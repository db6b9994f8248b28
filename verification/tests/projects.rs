use dao_projects::projects::{
    Error, Project, ProjectEvent, ProjectStatus, ScopeAccepted, ScopeDefined, TaskCompleted,
    TaskComplexity, TaskInput, TeamMember,
};
use dao_projects::{AccountId, Balance, DocumentHash};

struct Accounts {
    alice: AccountId,
    bob: AccountId,
    charlie: AccountId,
    django: AccountId,
    eve: AccountId,
    frank: AccountId,
}

fn default_accounts() -> Accounts {
    Accounts {
        alice: AccountId([1u8; 32]),
        bob: AccountId([2u8; 32]),
        charlie: AccountId([3u8; 32]),
        django: AccountId([4u8; 32]),
        eve: AccountId([5u8; 32]),
        frank: AccountId([6u8; 32]),
    }
}

fn contract_account() -> AccountId {
    AccountId([9u8; 32])
}

fn setup_project() -> Project {
    let accounts = default_accounts();
    let mut project = Project::new(
        accounts.alice,
        contract_account(),
        String::from("Test Project"),
        accounts.django,
        Some(accounts.eve),
    );
    project.coordinator = Some(accounts.charlie);
    project.status = ProjectStatus::TeamAssigned;
    project.team_members = vec![];
    project
}

fn setup_test_tasks() -> Vec<TaskInput> {
    vec![
        (1, TaskComplexity::Days(3), 1000, vec![]),
        (2, TaskComplexity::Days(5), 2000, vec![1]),
        (3, TaskComplexity::Weeks(1), 3000, vec![1, 2]),
    ]
}

fn team_of(accounts: &Accounts) -> Vec<TeamMember> {
    vec![
        TeamMember { account_id: accounts.django, role: String::from("Designer"), rating: None },
        TeamMember { account_id: accounts.frank, role: String::from("Developer"), rating: None },
    ]
}

#[test]
fn define_scope_works() {
    let mut project = setup_project();
    let accounts = default_accounts();

    let tasks = setup_test_tasks();
    let result = project.define_scope(accounts.charlie, tasks, 30, DocumentHash([1u8; 32]));
    assert!(result.is_ok());
    assert_eq!(project.status, ProjectStatus::ScopeDefinedPendingApproval);
    assert_eq!(project.total_cost, 6000);

    let result = project.accept_scope(accounts.alice);
    assert!(result.is_ok());
    assert_eq!(project.status, ProjectStatus::ScopeAccepted);
    assert_eq!(project.paid_amount, 1800);

    let result = project.complete_task(accounts.alice, 1);
    assert!(result.is_ok());

    let result = project.complete_task(accounts.alice, 3);
    assert!(result.is_err());
    assert_eq!(result.unwrap_err(), Error::DependenciesNotCompleted);

    let result = project.complete_task(accounts.alice, 2);
    assert!(result.is_ok());

    let result = project.complete_task(accounts.alice, 3);
    assert!(result.is_ok());

    if project.team_members.is_empty() {
        project.team_members = team_of(&accounts);
    }

    let team = project.get_team();
    let mut ratings = Vec::new();
    for member in &team {
        ratings.push((member.account_id, 9));
    }

    let result = project.mark_completed(accounts.alice, ratings);
    assert!(result.is_ok());
    assert_eq!(project.status, ProjectStatus::Completed);
    assert_eq!(project.paid_amount, 6000);
}

#[test]
fn task_completion_validation_works() {
    let mut project = setup_project();
    let accounts = default_accounts();

    let tasks = vec![
        (1, TaskComplexity::Abstract(3), 1000, vec![]),
        (2, TaskComplexity::Abstract(5), 2000, vec![1]),
        (3, TaskComplexity::Abstract(7), 3000, vec![1, 2]),
        (4, TaskComplexity::Abstract(4), 1500, vec![2]),
    ];

    let result = project.define_scope(accounts.charlie, tasks, 20, DocumentHash([1u8; 32]));
    assert!(result.is_ok());

    let result = project.accept_scope(accounts.alice);
    assert!(result.is_ok());

    let result = project.complete_task(accounts.alice, 2);
    assert!(result.is_err());
    assert_eq!(result.unwrap_err(), Error::DependenciesNotCompleted);

    let result = project.complete_task(accounts.alice, 1);
    assert!(result.is_ok());

    let result = project.complete_task(accounts.alice, 2);
    assert!(result.is_ok());

    let result = project.complete_task(accounts.alice, 2);
    assert!(result.is_err());
    assert_eq!(result.unwrap_err(), Error::TaskAlreadyCompleted);

    let result = project.complete_task(accounts.alice, 3);
    assert!(result.is_ok());
    let result = project.complete_task(accounts.alice, 4);
    assert!(result.is_ok());

    let tasks = project.get_all_tasks().unwrap();
    assert!(tasks.iter().all(|task| task.completed));

    let result = project.complete_task(accounts.alice, 10);
    assert!(result.is_err());
    assert_eq!(result.unwrap_err(), Error::TaskNotFound);
}

#[test]
fn project_completion_validation_works() {
    let mut project = setup_project();
    let accounts = default_accounts();

    let tasks = vec![
        (1, TaskComplexity::Abstract(3), 1000, vec![]),
        (2, TaskComplexity::Abstract(5), 2000, vec![]),
        (3, TaskComplexity::Abstract(7), 3000, vec![]),
    ];

    let result = project.define_scope(accounts.charlie, tasks, 20, DocumentHash([1u8; 32]));
    assert!(result.is_ok());

    let result = project.accept_scope(accounts.alice);
    assert!(result.is_ok());

    project.complete_task(accounts.alice, 1).unwrap();
    project.complete_task(accounts.alice, 2).unwrap();

    let team = project.get_team();
    let mut ratings = Vec::new();
    for member in &team {
        ratings.push((member.account_id, 8));
    }

    let result = project.mark_completed(accounts.alice, ratings.clone());
    assert!(result.is_err());

    project.complete_task(accounts.alice, 3).unwrap();

    let result = project.mark_completed(accounts.alice, ratings);
    assert!(result.is_ok());
    assert_eq!(project.status, ProjectStatus::Completed);

    assert_eq!(project.paid_amount, 6000);
}

#[test]
fn assign_coordinator_works() {
    let accounts = default_accounts();

    let calendar_contract = Some(accounts.eve);
    let mut project = Project::new(
        accounts.alice,
        contract_account(),
        String::from("Website Development"),
        accounts.bob,
        calendar_contract,
    );

    assert_eq!(project.status, ProjectStatus::Created);
    assert_eq!(project.coordinator, None);

    // The calendar reports charlie as the available coordinator.
    let result = project.assign_coordinator(accounts.bob, &vec![accounts.charlie]);
    assert!(result.is_ok());
    assert_eq!(result.unwrap(), accounts.charlie);
    assert_eq!(project.coordinator, Some(accounts.charlie));
    assert_eq!(project.status, ProjectStatus::CoordinatorAssigned);
}

#[test]
fn define_scope_validation_works() {
    let mut project = setup_project();
    let accounts = default_accounts();

    let tasks: Vec<TaskInput> = vec![(1, TaskComplexity::Days(3), 1000, vec![])];
    let result = project.define_scope(accounts.eve, tasks.clone(), 30, DocumentHash([1u8; 32]));
    assert!(result.is_err());
    assert_eq!(result.unwrap_err(), Error::NotAuthorized);

    let tasks = vec![
        (1, TaskComplexity::Days(3), 1000, vec![]),
        (1, TaskComplexity::Days(5), 2000, vec![]),
    ];
    let result = project.define_scope(accounts.charlie, tasks, 30, DocumentHash([1u8; 32]));
    assert!(result.is_err());
    assert_eq!(result.unwrap_err(), Error::DuplicateTaskId);

    let tasks = vec![
        (1, TaskComplexity::Days(3), 1000, vec![]),
        (2, TaskComplexity::Days(5), 2000, vec![3]),
    ];
    let result = project.define_scope(accounts.charlie, tasks, 30, DocumentHash([1u8; 32]));
    assert!(result.is_err());
    assert_eq!(result.unwrap_err(), Error::InvalidTaskId);

    let tasks = vec![
        (1, TaskComplexity::Days(3), 1000, vec![2]),
        (2, TaskComplexity::Days(5), 2000, vec![1]),
    ];
    let result = project.define_scope(accounts.charlie, tasks, 30, DocumentHash([1u8; 32]));
    assert!(result.is_err());
    assert_eq!(result.unwrap_err(), Error::CircularDependency);

    let tasks = vec![(1, TaskComplexity::Days(3), 1000, vec![])];
    let result = project.define_scope(accounts.charlie, tasks, 101, DocumentHash([1u8; 32]));
    assert!(result.is_err());
    assert_eq!(result.unwrap_err(), Error::InvalidAdvancePaymentPercentage);
}

#[test]
fn assign_team_works() {
    let accounts = default_accounts();

    let mut project = Project::new(
        accounts.charlie,
        contract_account(),
        String::from("Test Project"),
        accounts.django,
        Some(accounts.eve),
    );

    project.coordinator = Some(accounts.charlie);
    project.status = ProjectStatus::CoordinatorAssigned;

    // The calendar reports django, frank and eve as available.
    let result = project.assign_team(accounts.charlie, 2, &vec![accounts.django, accounts.frank, accounts.eve]);
    assert!(result.is_ok());

    let team = result.unwrap();
    assert_eq!(team.len(), 3);
    assert!(team.iter().any(|member| member.account_id == accounts.django));
    assert!(team.iter().any(|member| member.account_id == accounts.frank));
    assert!(team.iter().any(|member| member.account_id == accounts.eve));

    assert_eq!(project.status, ProjectStatus::TeamAssigned);
}

#[test]
fn mark_completed_works() {
    let accounts = default_accounts();

    let calendar_contract = Some(accounts.eve);
    let mut project = Project::new(
        accounts.alice,
        contract_account(),
        String::from("Website Development"),
        accounts.bob,
        calendar_contract,
    );

    project.coordinator = Some(accounts.charlie);
    project.status = ProjectStatus::TeamAssigned;
    project.team_members = team_of(&accounts);

    assert_eq!(project.team_members[0].rating, None);
    assert_eq!(project.team_members[1].rating, None);

    let ratings = vec![(accounts.django, 8), (accounts.frank, 9)];

    let result = project.mark_completed(accounts.alice, ratings);
    assert!(result.is_ok());
    assert_eq!(project.status, ProjectStatus::Completed);

    assert_eq!(project.team_members[0].rating, Some(8));
    assert_eq!(project.team_members[1].rating, Some(9));
}

fn accepted_project(tasks: Vec<TaskInput>, percentage: u8) -> Project {
    let accounts = default_accounts();
    let mut project = setup_project();
    project.define_scope(accounts.charlie, tasks, percentage, DocumentHash([7u8; 32])).unwrap();
    project.accept_scope(accounts.alice).unwrap();
    project
}

#[test]
fn assign_coordinator_refusals() {
    let accounts = default_accounts();
    let mut project = Project::new(accounts.alice, contract_account(), String::from("P"), accounts.bob, None);
    assert_eq!(project.assign_coordinator(accounts.alice, &vec![accounts.charlie]), Err(Error::NotAuthorized));
    assert_eq!(project.coordinator_query(accounts.alice), Err(Error::NotAuthorized));
    assert_eq!(project.assign_coordinator(accounts.bob, &vec![accounts.charlie]), Err(Error::CalendarContractNotSet));
    assert_eq!(project.coordinator_query(accounts.bob), Err(Error::CalendarContractNotSet));
    assert_eq!(project.set_calendar_contract(accounts.bob, accounts.eve), Err(Error::NotAuthorized));
    project.set_calendar_contract(accounts.alice, accounts.eve).unwrap();
    assert_eq!(project.coordinator_query(accounts.bob), Ok(accounts.eve));
    assert_eq!(project.assign_coordinator(accounts.bob, &vec![]), Err(Error::NoAvailableCoordinators));
    assert_eq!(project.coordinator, None);
    assert_eq!(project.status, ProjectStatus::Created);
    assert!(project.take_events().is_empty());
    assert_eq!(project.assign_coordinator(accounts.bob, &vec![accounts.frank, accounts.charlie]), Ok(accounts.frank));
    assert_eq!(project.take_events().len(), 1);
}

#[test]
fn assign_team_refusals_and_roles() {
    let accounts = default_accounts();
    let mut project = Project::new(accounts.alice, contract_account(), String::from("P"), accounts.bob, None);
    assert_eq!(project.assign_team(accounts.charlie, 3, &vec![accounts.eve]), Err(Error::CoordinatorNotAssigned));
    assert_eq!(project.team_query(accounts.charlie), Err(Error::CoordinatorNotAssigned));
    project.coordinator = Some(accounts.charlie);
    assert_eq!(project.assign_team(accounts.eve, 3, &vec![accounts.eve]), Err(Error::NotAuthorized));
    assert_eq!(project.assign_team(accounts.charlie, 3, &vec![accounts.eve]), Err(Error::CalendarContractNotSet));
    project.calendar_contract = Some(accounts.eve);
    assert_eq!(project.team_query(accounts.charlie), Ok(accounts.eve));
    assert_eq!(project.assign_team(accounts.charlie, 3, &vec![]), Err(Error::NoAvailableTeamMembers));
    let team = project
        .assign_team(accounts.charlie, 3, &vec![accounts.django, accounts.frank, accounts.eve, accounts.bob])
        .unwrap();
    let roles: Vec<&str> = team.iter().map(|m| m.role.as_str()).collect();
    assert_eq!(roles, vec!["Designer", "Developer", "Tester"]);
    assert_eq!(team.len(), 3);
    assert!(team.iter().all(|m| m.rating.is_none()));
    let team = project.assign_team(accounts.charlie, 3, &vec![accounts.bob]).unwrap();
    assert_eq!(team.len(), 1);
    assert_eq!(team[0].account_id, accounts.bob);
    assert_eq!(team[0].role, "Designer");
    assert_eq!(project.get_team(), team);
}

#[test]
fn define_scope_state_refusals() {
    let accounts = default_accounts();
    let mut project = Project::new(accounts.alice, contract_account(), String::from("P"), accounts.bob, None);
    let tasks: Vec<TaskInput> = vec![(1, TaskComplexity::Days(1), 10, vec![])];
    assert_eq!(
        project.define_scope(accounts.charlie, tasks.clone(), 10, DocumentHash([0u8; 32])),
        Err(Error::CoordinatorNotAssigned)
    );
    project.coordinator = Some(accounts.charlie);
    assert_eq!(
        project.define_scope(accounts.charlie, tasks.clone(), 10, DocumentHash([0u8; 32])),
        Err(Error::InvalidProjectState)
    );
    project.status = ProjectStatus::CoordinatorAssigned;
    project.define_scope(accounts.charlie, tasks.clone(), 10, DocumentHash([0u8; 32])).unwrap();
    project.status = ProjectStatus::CoordinatorAssigned;
    assert_eq!(
        project.define_scope(accounts.charlie, tasks, 10, DocumentHash([0u8; 32])),
        Err(Error::ScopeAlreadyDefined)
    );
}

#[test]
fn define_scope_records_scope_and_event() {
    let accounts = default_accounts();
    let mut project = setup_project();
    project
        .define_scope(accounts.charlie, setup_test_tasks(), 30, DocumentHash([1u8; 32]))
        .unwrap();
    let (ids, percentage, hash, total, paid) = project.get_scope_info().unwrap();
    assert_eq!(ids, vec![1, 2, 3]);
    assert_eq!(percentage, 30);
    assert_eq!(hash, DocumentHash([1u8; 32]));
    assert_eq!(total, 6000);
    assert_eq!(paid, 0);
    let task = project.get_task(2).unwrap();
    assert_eq!(task.dependencies, vec![1]);
    assert_eq!(task.cost, 2000);
    assert_eq!(task.complexity, TaskComplexity::Days(5));
    assert!(!task.completed);
    assert!(project.get_task(9).is_none());
    assert_eq!(project.get_task_completion_status(2), Ok(false));
    assert_eq!(project.get_task_completion_status(9), Err(Error::TaskNotFound));
    assert_eq!(
        project.take_events(),
        vec![ProjectEvent::ScopeDefined(ScopeDefined {
            project: contract_account(),
            coordinator: accounts.charlie,
            tasks_count: 3,
            total_cost: 6000,
        })]
    );
}

#[test]
fn dependency_on_same_task_is_circular() {
    let accounts = default_accounts();
    let mut project = setup_project();
    let tasks = vec![(1, TaskComplexity::Days(1), 10, vec![1])];
    assert_eq!(
        project.define_scope(accounts.charlie, tasks, 10, DocumentHash([0u8; 32])),
        Err(Error::CircularDependency)
    );
    assert!(project.scope.is_none());
    assert_eq!(project.status, ProjectStatus::TeamAssigned);
}

#[test]
fn first_bad_dependency_decides_error() {
    let accounts = default_accounts();
    let mut project = setup_project();
    let tasks = vec![
        (1, TaskComplexity::Days(1), 10, vec![]),
        (2, TaskComplexity::Days(1), 10, vec![2, 7]),
    ];
    assert_eq!(
        project.define_scope(accounts.charlie, tasks, 10, DocumentHash([0u8; 32])),
        Err(Error::CircularDependency)
    );
    let tasks = vec![
        (1, TaskComplexity::Days(1), 10, vec![]),
        (2, TaskComplexity::Days(1), 10, vec![7, 2]),
    ];
    assert_eq!(
        project.define_scope(accounts.charlie, tasks, 10, DocumentHash([0u8; 32])),
        Err(Error::InvalidTaskId)
    );
}

#[test]
fn too_many_tasks_cannot_be_counted() {
    let accounts = default_accounts();
    let mut project = setup_project();
    let tasks: Vec<TaskInput> = (0..=255u8).map(|id| (id, TaskComplexity::Abstract(1), 1, vec![])).collect();
    assert_eq!(
        project.define_scope(accounts.charlie, tasks, 10, DocumentHash([0u8; 32])),
        Err(Error::ConversionType)
    );
    let tasks: Vec<TaskInput> = (0..255u8).map(|id| (id, TaskComplexity::Abstract(1), 1, vec![])).collect();
    project.define_scope(accounts.charlie, tasks, 10, DocumentHash([0u8; 32])).unwrap();
    assert_eq!(project.total_cost, 255);
}

#[test]
fn total_cost_saturates_and_advance_is_capped() {
    let tasks = vec![
        (1, TaskComplexity::Days(1), Balance::MAX, vec![]),
        (2, TaskComplexity::Days(1), 5, vec![]),
    ];
    let project = accepted_project(tasks, 50);
    assert_eq!(project.total_cost, Balance::MAX);
    assert_eq!(project.paid_amount, Balance::MAX / 100);
}

#[test]
fn accept_scope_refusals() {
    let accounts = default_accounts();
    let mut project = setup_project();
    assert_eq!(project.accept_scope(accounts.bob), Err(Error::NotAuthorized));
    assert_eq!(project.accept_scope(accounts.alice), Err(Error::ScopeNotDefined));
    project.define_scope(accounts.charlie, setup_test_tasks(), 30, DocumentHash([1u8; 32])).unwrap();
    project.accept_scope(accounts.alice).unwrap();
    assert_eq!(project.accept_scope(accounts.alice), Err(Error::InvalidProjectState));
    assert_eq!(project.paid_amount, 1800);
}

#[test]
fn complete_task_refusals() {
    let accounts = default_accounts();
    let mut project = setup_project();
    assert_eq!(project.complete_task(accounts.bob, 1), Err(Error::NotAuthorized));
    assert_eq!(project.complete_task(accounts.alice, 1), Err(Error::InvalidProjectState));
    project.status = ProjectStatus::ScopeAccepted;
    assert_eq!(project.complete_task(accounts.alice, 1), Err(Error::ScopeNotDefined));
    assert_eq!(project.get_task_completion_status(1), Err(Error::ScopeNotDefined));
    assert_eq!(project.get_all_tasks(), Err(Error::ScopeNotDefined));
    assert!(project.get_scope_info().is_none());
}

#[test]
fn completing_a_task_records_event() {
    let accounts = default_accounts();
    let mut project = accepted_project(setup_test_tasks(), 30);
    project.take_events();
    project.complete_task(accounts.alice, 1).unwrap();
    assert_eq!(project.get_task_completion_status(1), Ok(true));
    assert_eq!(
        project.take_events(),
        vec![ProjectEvent::TaskCompleted(TaskCompleted {
            project: contract_account(),
            client: accounts.alice,
            task_id: 1,
        })]
    );
}

#[test]
fn accept_scope_records_event() {
    let accounts = default_accounts();
    let mut project = setup_project();
    project.define_scope(accounts.charlie, setup_test_tasks(), 30, DocumentHash([1u8; 32])).unwrap();
    project.take_events();
    project.accept_scope(accounts.alice).unwrap();
    assert_eq!(
        project.take_events(),
        vec![ProjectEvent::ScopeAccepted(ScopeAccepted {
            project: contract_account(),
            client: accounts.alice,
            advance_payment: 1800,
        })]
    );
}

#[test]
fn mark_completed_refusals() {
    let accounts = default_accounts();
    let mut project = accepted_project(vec![(1, TaskComplexity::Days(1), 100, vec![])], 10);
    project.team_members = team_of(&accounts);
    assert_eq!(project.mark_completed(accounts.bob, vec![]), Err(Error::NotAuthorized));
    assert_eq!(
        project.mark_completed(accounts.alice, vec![(accounts.django, 1), (accounts.frank, 1)]),
        Err(Error::TasksNotCompleted)
    );
    project.complete_task(accounts.alice, 1).unwrap();
    assert_eq!(project.mark_completed(accounts.alice, vec![(accounts.django, 1)]), Err(Error::RatingsCountMismatch));
    assert_eq!(
        project.mark_completed(accounts.alice, vec![(accounts.django, 3), (accounts.frank, 11)]),
        Err(Error::InvalidRatingValue)
    );
    assert_eq!(
        project.mark_completed(accounts.alice, vec![(accounts.django, 3), (accounts.eve, 4)]),
        Err(Error::TeamMemberNotFound)
    );
    assert_eq!(
        project.mark_completed(accounts.alice, vec![(accounts.eve, 4), (accounts.django, 11)]),
        Err(Error::TeamMemberNotFound)
    );
    // Ratings before a refused one are applied.
    assert_eq!(project.team_members[0].rating, Some(3));
    assert_eq!(project.team_members[1].rating, None);
    assert_eq!(project.status, ProjectStatus::ScopeAccepted);
    assert_eq!(project.paid_amount, 10);
    project.status = ProjectStatus::CoordinatorAssigned;
    assert_eq!(
        project.mark_completed(accounts.alice, vec![(accounts.django, 1), (accounts.frank, 1)]),
        Err(Error::InvalidProjectState)
    );
    project.status = ProjectStatus::ScopeAccepted;
    project.mark_completed(accounts.alice, vec![(accounts.django, 1), (accounts.django, 2)]).unwrap();
    assert_eq!(project.team_members[0].rating, Some(2));
    assert_eq!(project.team_members[1].rating, None);
    assert_eq!(project.paid_amount, 100);
    assert_eq!(
        project.mark_completed(accounts.alice, vec![(accounts.django, 1), (accounts.frank, 1)]),
        Err(Error::ProjectAlreadyCompleted)
    );
}

#[test]
fn mark_completed_reports_remaining_payment() {
    let accounts = default_accounts();
    let mut project = accepted_project(vec![(1, TaskComplexity::Days(1), 1000, vec![])], 25);
    project.complete_task(accounts.alice, 1).unwrap();
    project.take_events();
    project.mark_completed(accounts.alice, vec![]).unwrap();
    let events = project.take_events();
    assert_eq!(events.len(), 1);
    match &events[0] {
        ProjectEvent::ProjectCompleted(e) => {
            assert_eq!(e.project, "Test Project");
            assert_eq!(e.client, accounts.alice);
            assert_eq!(e.final_payment, 750);
        }
        _ => panic!("expected a completion event"),
    }
}

#[test]
fn overpaid_project_cannot_complete() {
    let accounts = default_accounts();
    let mut project = accepted_project(vec![(1, TaskComplexity::Days(1), 1000, vec![])], 25);
    project.complete_task(accounts.alice, 1).unwrap();
    project.team_members = vec![TeamMember {
        account_id: accounts.django,
        role: String::from("Designer"),
        rating: None,
    }];
    project.paid_amount = 2000;
    assert_eq!(project.mark_completed(accounts.alice, vec![(accounts.django, 5)]), Err(Error::ArithmeticFailure));
    assert_eq!(project.status, ProjectStatus::ScopeAccepted);
    assert_eq!(project.paid_amount, 2000);
    assert_eq!(project.team_members[0].rating, Some(5));
}

#[test]
fn project_without_scope_completes_without_payment() {
    let accounts = default_accounts();
    let mut project = Project::new(accounts.alice, contract_account(), String::from("P"), accounts.bob, None);
    project.mark_completed(accounts.alice, vec![]).unwrap();
    assert_eq!(project.status, ProjectStatus::Completed);
    assert_eq!(project.paid_amount, 0);
    let info = project.get_project_info();
    assert_eq!(info.0, "P");
    assert_eq!(info.1, accounts.alice);
    assert_eq!(info.2, accounts.bob);
    assert_eq!(info.3, None);
    assert_eq!(info.4, ProjectStatus::Completed);
}
