# dao_projects

A verified core for two cooperating DAO contracts:

* **calendar** — workers register with the calendar's owner and declare which
  projects they are available for; the calendar keeps, for every worker, the
  projects they are available for and, for every project, the workers
  available for it, and the two indexes always agree.
* **projects** — a project goes from creation through coordinator and team
  assignment, scope definition (tasks with costs and dependencies), scope
  acceptance with an advance payment, task completion in dependency order,
  to completion with ratings for the team and payment of the rest.

`src/` is the library, verified with Verus. Every message of both contracts is
an executable function whose contract states exactly which error it returns
and when, how the state changes otherwise, and which event it records. A
refused message changes nothing, except `add_workers_to_project` and
`mark_completed`, which keep what they wrote before reaching the refused
worker or rating; their contracts say exactly what that is. The host drops
such writes, since the chain reverts a refused message. The invariants that every accepted message
keeps, and the other laws of the two contracts, are proved as `ensures`
clauses and as public proof functions.

| file | contents |
|------|----------|
| `src/account.rs` | account ids, document hashes, balances |
| `src/account_map.rs` | the map from accounts to lists of accounts behind the calendar |
| `src/calendar.rs` | the calendar: state, messages, laws |
| `src/projects.rs` | the project: types, state, messages, laws |
| `src/scope.rs` | which task lists form a scope, total cost, task lookup |
| `src/team.rs` | team formation and ratings |

The library takes the caller of each message, and the answers of the queries
a project makes to its calendar, as arguments; it records events instead of
emitting them. `app/` hosts the two contracts on an ink! chain: it stores the
state, supplies the caller, makes the cross-contract queries and emits the
recorded events. `tests/` exercises the library.
