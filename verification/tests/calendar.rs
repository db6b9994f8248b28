use dao_projects::calendar::{AvailabilityUpdated, Calendar, CalendarEvent, Error, WorkerRegistered};
use dao_projects::AccountId;

struct Accounts {
    alice: AccountId,
    bob: AccountId,
    charlie: AccountId,
    django: AccountId,
    eve: AccountId,
    frank: AccountId,
}

fn default_accounts() -> Accounts {
    Accounts {
        alice: AccountId([1u8; 32]),
        bob: AccountId([2u8; 32]),
        charlie: AccountId([3u8; 32]),
        django: AccountId([4u8; 32]),
        eve: AccountId([5u8; 32]),
        frank: AccountId([6u8; 32]),
    }
}

#[test]
fn register_worker_works() {
    let accounts = default_accounts();
    let mut calendar = Calendar::new(accounts.alice);

    let result = calendar.register_worker(accounts.alice, accounts.bob);
    assert!(result.is_ok());

    let registered = calendar.get_registered_workers();
    assert_eq!(registered.len(), 1);
    assert_eq!(registered[0], accounts.bob);
}

#[test]
fn set_availability_works() {
    let accounts = default_accounts();
    let mut calendar = Calendar::new(accounts.alice);
    calendar.register_worker(accounts.alice, accounts.bob).unwrap();

    let project_id = accounts.django;
    let result = calendar.set_availability(accounts.bob, project_id, true);
    assert!(result.is_ok());

    assert!(calendar.is_available(accounts.bob, project_id));

    let available = calendar.get_available_workers(project_id);
    assert_eq!(available.len(), 1);
    assert_eq!(available[0], accounts.bob);
}

#[test]
fn availability_removal_works() {
    let accounts = default_accounts();
    let mut calendar = Calendar::new(accounts.alice);
    calendar.register_worker(accounts.alice, accounts.bob).unwrap();

    let project_id = accounts.django;
    calendar.set_availability(accounts.bob, project_id, true).unwrap();
    assert!(calendar.is_available(accounts.bob, project_id));

    calendar.set_availability(accounts.bob, project_id, false).unwrap();
    assert!(!calendar.is_available(accounts.bob, project_id));

    let available = calendar.get_available_workers(project_id);
    assert_eq!(available.len(), 0);
}

#[test]
fn only_owner_registers_workers() {
    let accounts = default_accounts();
    let mut calendar = Calendar::new(accounts.alice);
    assert_eq!(calendar.register_worker(accounts.bob, accounts.bob), Err(Error::NotAuthorized));
    assert_eq!(calendar.register_workers(accounts.bob, vec![accounts.charlie]), Err(Error::NotAuthorized));
    assert_eq!(
        calendar.add_workers_to_project(accounts.bob, accounts.django, vec![accounts.charlie]),
        Err(Error::NotAuthorized)
    );
    assert!(calendar.get_registered_workers().is_empty());
    assert!(calendar.take_events().is_empty());
}

#[test]
fn unregistered_worker_cannot_set_availability() {
    let accounts = default_accounts();
    let mut calendar = Calendar::new(accounts.alice);
    assert_eq!(
        calendar.set_availability(accounts.bob, accounts.django, true),
        Err(Error::WorkerNotRegistered)
    );
    assert!(!calendar.is_available(accounts.bob, accounts.django));
    assert!(calendar.get_available_workers(accounts.django).is_empty());
}

#[test]
fn registering_twice_changes_nothing() {
    let accounts = default_accounts();
    let mut calendar = Calendar::new(accounts.alice);
    calendar.register_worker(accounts.alice, accounts.bob).unwrap();
    calendar.set_availability(accounts.bob, accounts.django, true).unwrap();
    calendar.register_worker(accounts.alice, accounts.bob).unwrap();
    assert_eq!(calendar.get_registered_workers(), vec![accounts.bob]);
    assert!(calendar.is_available(accounts.bob, accounts.django));
    let events = calendar.take_events();
    assert_eq!(
        events,
        vec![
            CalendarEvent::WorkerRegistered(WorkerRegistered { worker: accounts.bob }),
            CalendarEvent::AvailabilityUpdated(AvailabilityUpdated {
                worker: accounts.bob,
                project: accounts.django,
                is_available: true,
            }),
        ]
    );
    assert!(calendar.take_events().is_empty());
}

#[test]
fn register_workers_registers_each_once() {
    let accounts = default_accounts();
    let mut calendar = Calendar::new(accounts.alice);
    calendar
        .register_workers(accounts.alice, vec![accounts.bob, accounts.charlie, accounts.bob, accounts.eve])
        .unwrap();
    assert_eq!(
        calendar.get_registered_workers(),
        vec![accounts.bob, accounts.charlie, accounts.eve]
    );
    assert_eq!(calendar.take_events().len(), 3);
}

#[test]
fn add_workers_to_project_indexes_both_ways() {
    let accounts = default_accounts();
    let mut calendar = Calendar::new(accounts.alice);
    calendar
        .register_workers(accounts.alice, vec![accounts.bob, accounts.charlie, accounts.eve])
        .unwrap();
    calendar.set_availability(accounts.eve, accounts.django, true).unwrap();
    calendar.take_events();

    calendar
        .add_workers_to_project(accounts.alice, accounts.django, vec![accounts.bob, accounts.eve, accounts.charlie, accounts.bob])
        .unwrap();
    assert_eq!(
        calendar.get_available_workers(accounts.django),
        vec![accounts.eve, accounts.bob, accounts.charlie]
    );
    assert!(calendar.is_available(accounts.bob, accounts.django));
    assert!(calendar.is_available(accounts.charlie, accounts.django));
    assert!(calendar.is_available(accounts.eve, accounts.django));
    assert!(!calendar.is_available(accounts.bob, accounts.frank));
    let events = calendar.take_events();
    assert_eq!(
        events,
        vec![
            CalendarEvent::AvailabilityUpdated(AvailabilityUpdated {
                worker: accounts.bob,
                project: accounts.django,
                is_available: true,
            }),
            CalendarEvent::AvailabilityUpdated(AvailabilityUpdated {
                worker: accounts.charlie,
                project: accounts.django,
                is_available: true,
            }),
        ]
    );
}

#[test]
fn add_workers_to_project_stops_at_unregistered_worker() {
    let accounts = default_accounts();
    let mut calendar = Calendar::new(accounts.alice);
    calendar.register_worker(accounts.alice, accounts.bob).unwrap();
    calendar.take_events();
    assert_eq!(
        calendar.add_workers_to_project(accounts.alice, accounts.django, vec![accounts.bob, accounts.frank, accounts.bob]),
        Err(Error::WorkerNotRegistered)
    );
    // The workers before the unregistered one have the project on their list;
    // the project's own list is not updated.
    assert!(calendar.is_available(accounts.bob, accounts.django));
    assert!(calendar.get_available_workers(accounts.django).is_empty());
    assert_eq!(
        calendar.take_events(),
        vec![CalendarEvent::AvailabilityUpdated(AvailabilityUpdated {
            worker: accounts.bob,
            project: accounts.django,
            is_available: true,
        })]
    );
}

#[test]
fn availability_round_trip_restores_queries() {
    let accounts = default_accounts();
    let mut calendar = Calendar::new(accounts.alice);
    calendar.register_workers(accounts.alice, vec![accounts.bob, accounts.charlie]).unwrap();
    calendar.set_availability(accounts.charlie, accounts.django, true).unwrap();
    calendar.set_availability(accounts.bob, accounts.eve, true).unwrap();
    calendar.set_availability(accounts.bob, accounts.django, true).unwrap();
    calendar.set_availability(accounts.bob, accounts.django, false).unwrap();
    assert_eq!(calendar.get_available_workers(accounts.django), vec![accounts.charlie]);
    assert_eq!(calendar.get_available_workers(accounts.eve), vec![accounts.bob]);
    assert!(!calendar.is_available(accounts.bob, accounts.django));
    assert!(calendar.is_available(accounts.bob, accounts.eve));
}

#[test]
fn register_workers_matches_registering_each() {
    let accounts = default_accounts();
    let workers = vec![accounts.bob, accounts.charlie, accounts.bob];
    let mut bulk = Calendar::new(accounts.alice);
    bulk.register_workers(accounts.alice, workers.clone()).unwrap();
    let mut each = Calendar::new(accounts.alice);
    for w in &workers {
        each.register_worker(accounts.alice, *w).unwrap();
    }
    assert_eq!(bulk.get_registered_workers(), each.get_registered_workers());
    assert_eq!(bulk.take_events(), each.take_events());
}

#[test]
fn removal_leaves_other_availability() {
    let accounts = default_accounts();
    let mut calendar = Calendar::new(accounts.alice);
    calendar.register_workers(accounts.alice, vec![accounts.bob, accounts.charlie]).unwrap();
    calendar.set_availability(accounts.bob, accounts.django, true).unwrap();
    calendar.set_availability(accounts.bob, accounts.eve, true).unwrap();
    calendar.set_availability(accounts.charlie, accounts.django, true).unwrap();
    calendar.set_availability(accounts.bob, accounts.django, false).unwrap();
    assert!(!calendar.is_available(accounts.bob, accounts.django));
    assert!(calendar.is_available(accounts.bob, accounts.eve));
    assert_eq!(calendar.get_available_workers(accounts.django), vec![accounts.charlie]);
    assert_eq!(calendar.get_available_workers(accounts.eve), vec![accounts.bob]);
}

#[test]
fn declaring_availability_twice_lists_once() {
    let accounts = default_accounts();
    let mut calendar = Calendar::new(accounts.alice);
    calendar.register_worker(accounts.alice, accounts.bob).unwrap();
    calendar.set_availability(accounts.bob, accounts.django, true).unwrap();
    calendar.set_availability(accounts.bob, accounts.django, true).unwrap();
    assert_eq!(calendar.get_available_workers(accounts.django), vec![accounts.bob]);
    assert_eq!(calendar.take_events().len(), 3);
}

#[test]
fn parts_round_trip_keeps_state() {
    let accounts = default_accounts();
    let mut calendar = Calendar::new(accounts.alice);
    calendar.register_workers(accounts.alice, vec![accounts.bob, accounts.charlie]).unwrap();
    calendar.set_availability(accounts.bob, accounts.django, true).unwrap();
    calendar.add_workers_to_project(accounts.alice, accounts.eve, vec![accounts.charlie]).unwrap();
    let restored = Calendar::from_parts(calendar.to_parts());
    assert_eq!(restored.get_registered_workers(), vec![accounts.bob, accounts.charlie]);
    assert!(restored.is_available(accounts.bob, accounts.django));
    assert!(restored.is_available(accounts.charlie, accounts.eve));
    assert_eq!(restored.get_available_workers(accounts.eve), vec![accounts.charlie]);
    let mut restored = restored;
    assert!(restored.take_events().is_empty());
    assert_eq!(restored.register_worker(accounts.bob, accounts.frank), Err(Error::NotAuthorized));
}
