//! The worker availability calendar.
//!
//! The owner registers workers; a registered worker declares for which
//! projects they are available; the owner may also put several workers on a
//! project at once. The calendar keeps two indexes that always agree: the
//! projects of each worker, and the workers of each project.
use vstd::prelude::*;

use crate::account::AccountId;
use crate::account_map::{contains_account, copy_accounts, map_of, pairs_view, AccountListMap};

verus! {

/// Recorded when a worker is registered.
#[derive(Clone, Copy, Debug, PartialEq, Eq)]
pub struct WorkerRegistered {
    pub worker: AccountId,
}

/// Recorded when a worker's availability for a project is declared or set.
#[derive(Clone, Copy, Debug, PartialEq, Eq)]
pub struct AvailabilityUpdated {
    pub worker: AccountId,
    pub project: AccountId,
    pub is_available: bool,
}

/// An event recorded by the calendar, to be emitted by its host.
#[derive(Clone, Copy, Debug, PartialEq, Eq)]
pub enum CalendarEvent {
    WorkerRegistered(WorkerRegistered),
    AvailabilityUpdated(AvailabilityUpdated),
}

/// Why the calendar refused a message.
#[derive(Clone, Copy, Debug, PartialEq, Eq, Structural)]
pub enum Error {
    WorkerNotRegistered,
    NotAuthorized,
}

pub type Result<T> = core::result::Result<T, Error>;

/// The list stored under `k`, or the empty list when there is none.
pub open spec fn list_of(m: Map<AccountId, Seq<AccountId>>, k: AccountId) -> Seq<AccountId> {
    if m.contains_key(k) {
        m[k]
    } else {
        Seq::empty()
    }
}

/// The predicate that holds of every account but `a`.
pub open spec fn other_than(a: AccountId) -> spec_fn(AccountId) -> bool {
    |x: AccountId| x != a
}

/// `l` followed by those of `ws` that are not yet in it, each once, in order.
pub open spec fn appended_missing(l: Seq<AccountId>, ws: Seq<AccountId>) -> Seq<AccountId>
    decreases ws.len(),
{
    if ws.len() == 0 {
        l
    } else {
        let r = appended_missing(l, ws.drop_last());
        if r.contains(ws.last()) {
            r
        } else {
            r.push(ws.last())
        }
    }
}

/// The abstract state of a calendar.
pub ghost struct CalendarView {
    /// The projects each worker is available for.
    pub availability: Map<AccountId, Seq<AccountId>>,
    /// The workers available for each project.
    pub project_workers: Map<AccountId, Seq<AccountId>>,
    /// The registered workers, in order of registration.
    pub registered: Seq<AccountId>,
    /// The account with admin rights.
    pub owner: AccountId,
    /// The events recorded and not yet taken.
    pub events: Seq<CalendarEvent>,
}

impl CalendarView {
    /// Whether worker `w` has declared availability for project `p`.
    pub open spec fn offers(self, w: AccountId, p: AccountId) -> bool {
        list_of(self.availability, w).contains(p)
    }

    /// Whether project `p` lists worker `w` as available.
    pub open spec fn lists(self, p: AccountId, w: AccountId) -> bool {
        list_of(self.project_workers, p).contains(w)
    }

    /// The two indexes agree, every worker a project lists is registered,
    /// and no list holds an account twice.
    pub open spec fn mirrored(self) -> bool {
        &&& self.registered.no_duplicates()
        &&& forall|w: AccountId| #[trigger]
            self.availability.contains_key(w) ==> self.availability[w].no_duplicates()
        &&& forall|p: AccountId| #[trigger]
            self.project_workers.contains_key(p) ==> self.project_workers[p].no_duplicates()
        &&& forall|w: AccountId, p: AccountId| #[trigger] self.offers(w, p) <==> #[trigger] self.lists(p, w)
        &&& forall|w: AccountId, p: AccountId| #[trigger] self.lists(p, w) ==> self.registered.contains(w)
    }

    /// The state after registering `w`.
    pub open spec fn registered_one(self, w: AccountId) -> CalendarView {
        if self.registered.contains(w) {
            self
        } else {
            CalendarView {
                registered: self.registered.push(w),
                availability: self.availability.insert(w, Seq::empty()),
                events: self.events.push(CalendarEvent::WorkerRegistered(WorkerRegistered { worker: w })),
                ..self
            }
        }
    }

    /// The state after registering each of `ws` in turn.
    pub open spec fn registered_all(self, ws: Seq<AccountId>) -> CalendarView
        decreases ws.len(),
    {
        if ws.len() == 0 {
            self
        } else {
            self.registered_all(ws.drop_last()).registered_one(ws.last())
        }
    }

    /// The state after worker `w` declares whether they are available for project `p`.
    pub open spec fn with_availability(self, w: AccountId, p: AccountId, available: bool) -> CalendarView {
        let wp = list_of(self.availability, w);
        let pw = list_of(self.project_workers, p);
        let ev = CalendarEvent::AvailabilityUpdated(
            AvailabilityUpdated { worker: w, project: p, is_available: available },
        );
        if available {
            if wp.contains(p) {
                CalendarView { events: self.events.push(ev), ..self }
            } else {
                CalendarView {
                    availability: self.availability.insert(w, wp.push(p)),
                    project_workers: if pw.contains(w) {
                        self.project_workers
                    } else {
                        self.project_workers.insert(p, pw.push(w))
                    },
                    events: self.events.push(ev),
                    ..self
                }
            }
        } else {
            CalendarView {
                availability: self.availability.insert(w, wp.filter(other_than(p))),
                project_workers: self.project_workers.insert(p, pw.filter(other_than(w))),
                events: self.events.push(ev),
                ..self
            }
        }
    }

    /// The state after putting project `p` on the list of worker `w`.
    pub open spec fn project_on_worker(self, p: AccountId, w: AccountId) -> CalendarView {
        let wp = list_of(self.availability, w);
        if wp.contains(p) {
            self
        } else {
            CalendarView {
                availability: self.availability.insert(w, wp.push(p)),
                events: self.events.push(
                    CalendarEvent::AvailabilityUpdated(
                        AvailabilityUpdated { worker: w, project: p, is_available: true },
                    ),
                ),
                ..self
            }
        }
    }

    /// The state after putting project `p` on the list of each of `ws` in turn.
    pub open spec fn project_on_workers(self, p: AccountId, ws: Seq<AccountId>) -> CalendarView
        decreases ws.len(),
    {
        if ws.len() == 0 {
            self
        } else {
            self.project_on_workers(p, ws.drop_last()).project_on_worker(p, ws.last())
        }
    }

    /// The state after the owner adds the workers `ws` to project `p`.
    pub open spec fn with_workers_added(self, p: AccountId, ws: Seq<AccountId>) -> CalendarView {
        let v = self.project_on_workers(p, ws);
        CalendarView {
            project_workers: v.project_workers.insert(
                p,
                appended_missing(list_of(self.project_workers, p), ws),
            ),
            ..v
        }
    }
}

/// What `s` without `a` holds, and that it stays free of repeats.
pub proof fn lemma_without(s: Seq<AccountId>, a: AccountId)
    ensures
        forall|x: AccountId| #[trigger] s.filter(other_than(a)).contains(x) <==> s.contains(x) && x != a,
        s.no_duplicates() ==> s.filter(other_than(a)).no_duplicates(),
    decreases s.len(),
{
    reveal(Seq::filter);
    if s.len() > 0 {
        let d = s.drop_last();
        let l = s.last();
        lemma_without(d, a);
        let f0 = d.filter(other_than(a));
        let f = s.filter(other_than(a));
        assert(f == if other_than(a)(l) { f0.push(l) } else { f0 });
        assert(s =~= d.push(l));
        assert forall|x: AccountId| #[trigger] f.contains(x) <==> s.contains(x) && x != a by {
            if f.contains(x) {
                let i = choose|i: int| 0 <= i < f.len() && f[i] == x;
                if i < f0.len() {
                    assert(f0[i] == x);
                    assert(f0.contains(x));
                    let j = choose|j: int| 0 <= j < d.len() && d[j] == x;
                    assert(s[j] == x);
                } else {
                    assert(s[s.len() - 1] == x);
                }
            }
            if s.contains(x) && x != a {
                let j = choose|j: int| 0 <= j < s.len() && s[j] == x;
                if j < d.len() {
                    assert(d[j] == x);
                    assert(f0.contains(x));
                    let i = choose|i: int| 0 <= i < f0.len() && f0[i] == x;
                    assert(f[i] == x);
                } else {
                    assert(f[f.len() - 1] == x);
                }
            }
        }
        if s.no_duplicates() {
            assert(d.no_duplicates()) by {
                assert forall|i: int, j: int| 0 <= i < d.len() && 0 <= j < d.len() && i != j
                    implies d[i] != d[j] by {
                    assert(s[i] == d[i] && s[j] == d[j]);
                }
            }
            if other_than(a)(l) {
                assert(!d.contains(l)) by {
                    if d.contains(l) {
                        let j = choose|j: int| 0 <= j < d.len() && d[j] == l;
                        assert(s[j] == s[s.len() - 1]);
                    }
                }
                assert(!f0.contains(l));
                lemma_push_no_duplicates(f0, l);
            }
        }
    }
}

/// Appending an element that is not yet there keeps a sequence free of repeats.
pub proof fn lemma_push_no_duplicates(s: Seq<AccountId>, x: AccountId)
    requires
        s.no_duplicates(),
        !s.contains(x),
    ensures
        s.push(x).no_duplicates(),
{
    let t = s.push(x);
    assert forall|i: int, j: int| 0 <= i < t.len() && 0 <= j < t.len() && i != j implies t[i] != t[j] by {
        if i == s.len() {
            assert(s[j] != x);
        } else if j == s.len() {
            assert(s[i] != x);
        } else {
            assert(t[i] == s[i] && t[j] == s[j]);
        }
    }
}

/// What a sequence holds after a push.
pub proof fn lemma_push_contains(s: Seq<AccountId>, y: AccountId, x: AccountId)
    ensures
        s.push(y).contains(x) <==> s.contains(x) || x == y,
{
    let t = s.push(y);
    if s.contains(x) {
        let i = choose|i: int| 0 <= i < s.len() && s[i] == x;
        assert(t[i] == x);
    }
    if t.contains(x) && x != y {
        let i = choose|i: int| 0 <= i < t.len() && t[i] == x;
        assert(i < s.len());
        assert(s[i] == x);
    }
    if x == y {
        assert(t[s.len() as int] == y);
    }
}

/// What putting project `p` on the lists of `ws` changes.
pub proof fn lemma_project_on_workers(v: CalendarView, p: AccountId, ws: Seq<AccountId>)
    ensures
        v.project_on_workers(p, ws).registered == v.registered,
        v.project_on_workers(p, ws).project_workers == v.project_workers,
        v.project_on_workers(p, ws).owner == v.owner,
        forall|x: AccountId, q: AccountId| #[trigger] v.project_on_workers(p, ws).offers(x, q)
            <==> v.offers(x, q) || (q == p && ws.contains(x)),
        forall|x: AccountId| #[trigger] v.project_on_workers(p, ws).availability.contains_key(x)
            ==> v.availability.contains_key(x) || ws.contains(x),
        (forall|x: AccountId| #[trigger] v.availability.contains_key(x) ==> v.availability[x].no_duplicates())
            ==> (forall|x: AccountId| #[trigger] v.project_on_workers(p, ws).availability.contains_key(x)
            ==> v.project_on_workers(p, ws).availability[x].no_duplicates()),
    decreases ws.len(),
{
    if ws.len() > 0 {
        let d = ws.drop_last();
        let w = ws.last();
        lemma_project_on_workers(v, p, d);
        let u = v.project_on_workers(p, d);
        let n = v.project_on_workers(p, ws);
        assert(n == u.project_on_worker(p, w));
        let wp = list_of(u.availability, w);
        assert forall|x: AccountId| #[trigger] ws.contains(x) <==> d.contains(x) || x == w by {
            assert(ws =~= d.push(w));
            lemma_push_contains(d, w, x);
        }
        assert forall|x: AccountId, q: AccountId| #[trigger] n.offers(x, q)
            <==> v.offers(x, q) || (q == p && ws.contains(x)) by {
            assert(u.offers(x, q) <==> v.offers(x, q) || (q == p && d.contains(x)));
            if x == w && !wp.contains(p) {
                assert(list_of(n.availability, x) == wp.push(p));
                lemma_push_contains(wp, p, q);
            } else {
                assert(n.offers(x, q) == u.offers(x, q));
            }
        }
        assert forall|x: AccountId| #[trigger] n.availability.contains_key(x)
            implies v.availability.contains_key(x) || ws.contains(x) by {
            if x != w {
                assert(u.availability.contains_key(x));
            }
        }
        if forall|x: AccountId| #[trigger] v.availability.contains_key(x) ==> v.availability[x].no_duplicates() {
            assert forall|x: AccountId| #[trigger] n.availability.contains_key(x)
                implies n.availability[x].no_duplicates() by {
                if x == w && !wp.contains(p) {
                    if u.availability.contains_key(w) {
                        assert(wp.no_duplicates());
                    } else {
                        assert(wp =~= Seq::<AccountId>::empty());
                    }
                    lemma_push_no_duplicates(wp, p);
                } else {
                    assert(u.availability.contains_key(x));
                }
            }
        }
    }
}

/// What `l` holds once the missing ones of `ws` are appended.
pub proof fn lemma_appended_missing(l: Seq<AccountId>, ws: Seq<AccountId>)
    ensures
        forall|x: AccountId| #[trigger] appended_missing(l, ws).contains(x) <==> l.contains(x) || ws.contains(x),
        l.no_duplicates() ==> appended_missing(l, ws).no_duplicates(),
    decreases ws.len(),
{
    if ws.len() > 0 {
        let d = ws.drop_last();
        let w = ws.last();
        lemma_appended_missing(l, d);
        let r = appended_missing(l, d);
        assert forall|x: AccountId| #[trigger] appended_missing(l, ws).contains(x)
            <==> l.contains(x) || ws.contains(x) by {
            assert(ws =~= d.push(w));
            lemma_push_contains(d, w, x);
            lemma_push_contains(r, w, x);
        }
        if l.no_duplicates() && !r.contains(w) {
            lemma_push_no_duplicates(r, w);
        }
    }
}

/// A worker is reported available for a project exactly when the project
/// lists that worker among its available workers.
pub proof fn lemma_availability_agrees(v: CalendarView, w: AccountId, p: AccountId)
    requires
        v.mirrored(),
    ensures
        v.offers(w, p) == v.lists(p, w),
{
}

/// Once a registered worker declares availability for a project, the
/// calendar reports exactly that declaration, from both sides.
pub proof fn lemma_availability_read_after_write(v: CalendarView, w: AccountId, p: AccountId, available: bool)
    requires
        v.mirrored(),
        v.registered.contains(w),
    ensures
        v.with_availability(w, p, available).offers(w, p) == available,
        v.with_availability(w, p, available).lists(p, w) == available,
{
    let n = v.with_availability(w, p, available);
    lemma_with_availability_mirrored(v, w, p, available);
    let wp = list_of(v.availability, w);
    if available {
        if !wp.contains(p) {
            assert(list_of(n.availability, w) == wp.push(p));
            lemma_push_contains(wp, p, p);
        }
    } else {
        lemma_without(wp, p);
        assert(list_of(n.availability, w) == wp.filter(other_than(p)));
    }
    assert(n.offers(w, p) == n.lists(p, w));
}

/// A declaration of availability touches no other worker and project pair.
pub proof fn lemma_availability_elsewhere_unchanged(
    v: CalendarView,
    w: AccountId,
    p: AccountId,
    available: bool,
    x: AccountId,
    q: AccountId,
)
    requires
        x != w || q != p,
    ensures
        v.with_availability(w, p, available).offers(x, q) == v.offers(x, q),
        v.with_availability(w, p, available).lists(q, x) == v.lists(q, x),
{
    let n = v.with_availability(w, p, available);
    let wp = list_of(v.availability, w);
    let pw = list_of(v.project_workers, p);
    if available {
        if !wp.contains(p) {
            if x == w {
                assert(list_of(n.availability, x) == wp.push(p));
                lemma_push_contains(wp, p, q);
            }
            if q == p && !pw.contains(w) {
                assert(list_of(n.project_workers, q) == pw.push(w));
                lemma_push_contains(pw, w, x);
            }
        }
    } else {
        if x == w {
            lemma_without(wp, p);
            assert(list_of(n.availability, x) == wp.filter(other_than(p)));
        }
        if q == p {
            lemma_without(pw, w);
            assert(list_of(n.project_workers, q) == pw.filter(other_than(w)));
        }
    }
}

/// Registering a worker twice is the same as registering it once.
pub proof fn lemma_register_idempotent(v: CalendarView, w: AccountId)
    ensures
        v.registered_one(w).registered_one(w) == v.registered_one(w),
{
    if !v.registered.contains(w) {
        lemma_push_contains(v.registered, w, w);
    }
}

/// Once a list of workers is registered, each of them is registered, those
/// registered before still are, and nobody else is.
pub proof fn lemma_registered_all(v: CalendarView, ws: Seq<AccountId>)
    ensures
        forall|x: AccountId| #[trigger] v.registered_all(ws).registered.contains(x) <==> v.registered.contains(x)
            || ws.contains(x),
    decreases ws.len(),
{
    if ws.len() > 0 {
        let d = ws.drop_last();
        let w = ws.last();
        lemma_registered_all(v, d);
        let u = v.registered_all(d);
        assert forall|x: AccountId| #[trigger] v.registered_all(ws).registered.contains(x)
            <==> v.registered.contains(x) || ws.contains(x) by {
            assert(ws =~= d.push(w));
            lemma_push_contains(d, w, x);
            lemma_push_contains(u.registered, w, x);
        }
    }
}

/// Once the owner adds workers to a project, each of them is available for
/// it, from both sides, and every other pair is as it was.
pub proof fn lemma_workers_added_available(v: CalendarView, p: AccountId, ws: Seq<AccountId>, x: AccountId, q: AccountId)
    ensures
        ws.contains(x) ==> v.with_workers_added(p, ws).offers(x, p) && v.with_workers_added(
            p,
            ws,
        ).lists(p, x),
        !(ws.contains(x) && q == p) ==> v.with_workers_added(p, ws).offers(x, q) == v.offers(x, q)
            && v.with_workers_added(p, ws).lists(q, x) == v.lists(q, x),
{
    lemma_project_on_workers(v, p, ws);
    let pw = list_of(v.project_workers, p);
    lemma_appended_missing(pw, ws);
    let n = v.with_workers_added(p, ws);
    assert(list_of(n.project_workers, p) == appended_missing(pw, ws));
    assert(n.offers(x, q) == v.project_on_workers(p, ws).offers(x, q));
    assert(n.offers(x, p) == v.project_on_workers(p, ws).offers(x, p));
    assert(v.project_on_workers(p, ws).offers(x, p) <==> v.offers(x, p) || (p == p && ws.contains(x)));
}

/// Registering a worker keeps mirrored indexes mirrored.
pub proof fn lemma_registered_one_mirrored(v: CalendarView, w: AccountId)
    requires
        v.mirrored(),
    ensures
        v.registered_one(w).mirrored(),
{
    if !v.registered.contains(w) {
        let n = v.registered_one(w);
        lemma_push_no_duplicates(v.registered, w);
        assert forall|x: AccountId, q: AccountId| #[trigger] n.offers(x, q) <==> #[trigger] n.lists(q, x) by {
            assert(v.offers(x, q) <==> v.lists(q, x));
            assert(n.lists(q, x) == v.lists(q, x));
            if x == w {
                assert(!v.lists(q, x));
                assert(list_of(n.availability, x) =~= Seq::<AccountId>::empty());
                assert(!n.offers(x, q));
            } else {
                assert(n.offers(x, q) == v.offers(x, q));
            }
        }
        assert forall|x: AccountId, q: AccountId| #[trigger] n.lists(q, x) implies n.registered.contains(x) by {
            assert(n.lists(q, x) == v.lists(q, x));
            lemma_push_contains(v.registered, w, x);
        }
        assert forall|x: AccountId| #[trigger] n.availability.contains_key(x) implies n.availability[x].no_duplicates() by {
            if x == w {
                assert(n.availability[x] =~= Seq::<AccountId>::empty());
            }
        }
    }
}

/// Registering a list of workers keeps mirrored indexes mirrored.
pub proof fn lemma_registered_all_mirrored(v: CalendarView, ws: Seq<AccountId>)
    requires
        v.mirrored(),
    ensures
        v.registered_all(ws).mirrored(),
    decreases ws.len(),
{
    if ws.len() > 0 {
        lemma_registered_all_mirrored(v, ws.drop_last());
        lemma_registered_one_mirrored(v.registered_all(ws.drop_last()), ws.last());
    }
}

/// A registered worker's declaration of availability keeps mirrored indexes
/// mirrored.
pub proof fn lemma_with_availability_mirrored(v: CalendarView, w: AccountId, p: AccountId, available: bool)
    requires
        v.mirrored(),
        v.registered.contains(w),
    ensures
        v.with_availability(w, p, available).mirrored(),
{
    let n = v.with_availability(w, p, available);
    let wp = list_of(v.availability, w);
    let pw = list_of(v.project_workers, p);
    assert(wp.no_duplicates());
    assert(pw.no_duplicates());
    assert(wp.contains(p) == v.offers(w, p));
    assert(pw.contains(w) == v.lists(p, w));
    if available {
        if !wp.contains(p) {
            assert(!pw.contains(w));
            lemma_push_no_duplicates(wp, p);
            lemma_push_no_duplicates(pw, w);
            assert forall|x: AccountId, q: AccountId| #[trigger] n.offers(x, q) <==> #[trigger] n.lists(q, x) by {
                assert(v.offers(x, q) <==> v.lists(q, x));
                if x == w {
                    assert(list_of(n.availability, x) == wp.push(p));
                    lemma_push_contains(wp, p, q);
                } else {
                    assert(n.offers(x, q) == v.offers(x, q));
                }
                if q == p {
                    assert(list_of(n.project_workers, q) == pw.push(w));
                    lemma_push_contains(pw, w, x);
                } else {
                    assert(n.lists(q, x) == v.lists(q, x));
                }
            }
            assert forall|x: AccountId, q: AccountId| #[trigger] n.lists(q, x) implies n.registered.contains(x) by {
                if q == p {
                    assert(list_of(n.project_workers, q) == pw.push(w));
                    lemma_push_contains(pw, w, x);
                    if x != w {
                        assert(v.lists(q, x));
                    }
                } else {
                    assert(n.lists(q, x) == v.lists(q, x));
                }
            }
        } else {
            assert forall|x: AccountId, q: AccountId| #[trigger] n.offers(x, q) <==> #[trigger] n.lists(q, x) by {
                assert(v.offers(x, q) <==> v.lists(q, x));
                assert(n.offers(x, q) == v.offers(x, q));
                assert(n.lists(q, x) == v.lists(q, x));
            }
            assert forall|x: AccountId, q: AccountId| #[trigger] n.lists(q, x) implies n.registered.contains(x) by {
                assert(n.lists(q, x) == v.lists(q, x));
            }
        }
    } else {
        lemma_without(wp, p);
        lemma_without(pw, w);
        assert forall|x: AccountId, q: AccountId| #[trigger] n.offers(x, q) <==> #[trigger] n.lists(q, x) by {
            assert(v.offers(x, q) <==> v.lists(q, x));
            if x == w {
                assert(list_of(n.availability, x) == wp.filter(other_than(p)));
                assert(n.offers(x, q) == (wp.contains(q) && q != p));
            } else {
                assert(n.offers(x, q) == v.offers(x, q));
            }
            if q == p {
                assert(list_of(n.project_workers, q) == pw.filter(other_than(w)));
                assert(n.lists(q, x) == (pw.contains(x) && x != w));
            } else {
                assert(n.lists(q, x) == v.lists(q, x));
            }
        }
        assert forall|x: AccountId, q: AccountId| #[trigger] n.lists(q, x) implies n.registered.contains(x) by {
            if q == p {
                assert(list_of(n.project_workers, q) == pw.filter(other_than(w)));
                assert(v.lists(q, x));
            } else {
                assert(n.lists(q, x) == v.lists(q, x));
            }
        }
    }
}

/// Adding registered workers to a project keeps mirrored indexes mirrored.
pub proof fn lemma_with_workers_added_mirrored(v: CalendarView, p: AccountId, ws: Seq<AccountId>)
    requires
        v.mirrored(),
        forall|x: AccountId| #[trigger] ws.contains(x) ==> v.registered.contains(x),
    ensures
        v.with_workers_added(p, ws).mirrored(),
{
    lemma_project_on_workers(v, p, ws);
    let pw = list_of(v.project_workers, p);
    lemma_appended_missing(pw, ws);
    let n = v.with_workers_added(p, ws);
    let u = v.project_on_workers(p, ws);
    assert(pw.no_duplicates());
    assert forall|x: AccountId, q: AccountId| #[trigger] n.offers(x, q) <==> #[trigger] n.lists(q, x) by {
        assert(v.offers(x, q) <==> v.lists(q, x));
        assert(n.offers(x, q) == u.offers(x, q));
        if q == p {
            assert(list_of(n.project_workers, q) == appended_missing(pw, ws));
        } else {
            assert(n.lists(q, x) == v.lists(q, x));
        }
    }
    assert forall|x: AccountId, q: AccountId| #[trigger] n.lists(q, x) implies n.registered.contains(x) by {
        if q == p {
            assert(list_of(n.project_workers, q) == appended_missing(pw, ws));
            if !ws.contains(x) {
                assert(v.lists(q, x));
            }
        } else {
            assert(n.lists(q, x) == v.lists(q, x));
        }
    }
}

/// Every one of `ws` is registered.
pub open spec fn all_registered(registered: Seq<AccountId>, ws: Seq<AccountId>) -> bool {
    forall|i: int| 0 <= i < ws.len() ==> registered.contains(#[trigger] ws[i])
}

/// The position of the first of `ws` that is not registered, or their
/// number when all are.
pub open spec fn first_unregistered(registered: Seq<AccountId>, ws: Seq<AccountId>) -> int
    decreases ws.len(),
{
    if ws.len() == 0 {
        0
    } else if !all_registered(registered, ws.drop_last()) {
        first_unregistered(registered, ws.drop_last())
    } else if registered.contains(ws.last()) {
        ws.len() as int
    } else {
        ws.len() - 1
    }
}

/// When the workers before position `i` are registered and the one at `i`
/// is not, `i` is the first unregistered position.
pub proof fn lemma_first_unregistered(registered: Seq<AccountId>, ws: Seq<AccountId>, i: int)
    requires
        0 <= i < ws.len(),
        all_registered(registered, ws.take(i)),
        !registered.contains(ws[i]),
    ensures
        first_unregistered(registered, ws) == i,
        !all_registered(registered, ws),
    decreases ws.len(),
{
    if i == ws.len() - 1 {
        assert(ws.drop_last() =~= ws.take(i));
    } else {
        let d = ws.drop_last();
        assert(d.take(i) =~= ws.take(i));
        assert(d[i] == ws[i]);
        lemma_first_unregistered(registered, d, i);
        assert(!registered.contains(d[i]));
    }
}

/// Registering the workers of `a` and then those of `b` is registering the
/// workers of `a + b`; registering a list of one worker is registering that
/// worker. So registering a list is registering each of its workers in turn.
pub proof fn lemma_registered_all_in_turn(v: CalendarView, a: Seq<AccountId>, b: Seq<AccountId>, w: AccountId)
    ensures
        v.registered_all(a + b) == v.registered_all(a).registered_all(b),
        v.registered_all(seq![w]) == v.registered_one(w),
    decreases b.len(),
{
    if b.len() == 0 {
        assert(a + b =~= a);
    } else {
        lemma_registered_all_in_turn(v, a, b.drop_last(), w);
        assert((a + b).drop_last() =~= a + b.drop_last());
        assert((a + b).last() == b.last());
    }
    let one = seq![w];
    assert(one.drop_last() =~= Seq::<AccountId>::empty());
    assert(v.registered_all(one.drop_last()) == v);
    assert(one.last() == w);
}

/// Removing an account that a list does not hold leaves the list as it is.
pub proof fn lemma_without_absent(s: Seq<AccountId>, a: AccountId)
    requires
        !s.contains(a),
    ensures
        s.filter(other_than(a)) == s,
    decreases s.len(),
{
    reveal(Seq::filter);
    if s.len() > 0 {
        let d = s.drop_last();
        assert(!d.contains(a)) by {
            if d.contains(a) {
                let j = choose|j: int| 0 <= j < d.len() && d[j] == a;
                assert(s[j] == a);
            }
        }
        lemma_without_absent(d, a);
        assert(s.last() != a) by {
            assert(s[s.len() - 1] == s.last());
        }
        assert(s =~= d.push(s.last()));
    }
}

/// Removing an account from a list it was just appended to removes it from
/// the list as it was.
pub proof fn lemma_without_pushed(s: Seq<AccountId>, a: AccountId)
    ensures
        s.push(a).filter(other_than(a)) == s.filter(other_than(a)),
{
    reveal(Seq::filter);
    assert(s.push(a).drop_last() =~= s);
}

/// A registered worker who declares availability for a project they were
/// not available for, then withdraws it, leaves every query as it was: each
/// worker's projects and each project's workers, in the same order.
pub proof fn lemma_availability_round_trip(v: CalendarView, w: AccountId, p: AccountId)
    requires
        v.mirrored(),
        !v.offers(w, p),
    ensures
        forall|x: AccountId| #[trigger] list_of(
            v.with_availability(w, p, true).with_availability(w, p, false).availability,
            x,
        ) == list_of(v.availability, x),
        forall|q: AccountId| #[trigger] list_of(
            v.with_availability(w, p, true).with_availability(w, p, false).project_workers,
            q,
        ) == list_of(v.project_workers, q),
{
    let u = v.with_availability(w, p, true);
    let n = u.with_availability(w, p, false);
    let wp = list_of(v.availability, w);
    let pw = list_of(v.project_workers, p);
    assert(!wp.contains(p));
    assert(v.offers(w, p) <==> v.lists(p, w));
    assert(!pw.contains(w));
    assert(list_of(u.availability, w) == wp.push(p));
    assert(list_of(u.project_workers, p) == pw.push(w));
    lemma_without_pushed(wp, p);
    lemma_without_absent(wp, p);
    lemma_without_pushed(pw, w);
    lemma_without_absent(pw, w);
    assert forall|x: AccountId| #[trigger] list_of(n.availability, x) == list_of(v.availability, x) by {
        if x == w {
            assert(list_of(n.availability, x) == wp.push(p).filter(other_than(p)));
        }
    }
    assert forall|q: AccountId| #[trigger] list_of(n.project_workers, q) == list_of(v.project_workers, q) by {
        if q == p {
            assert(list_of(n.project_workers, q) == pw.push(w).filter(other_than(w)));
        }
    }
}

/// Declaring the same availability twice leaves the calendar's indexes,
/// its registered workers and its owner as declaring it once does.
pub proof fn lemma_availability_idempotent(v: CalendarView, w: AccountId, p: AccountId, available: bool)
    ensures
        v.with_availability(w, p, available).with_availability(w, p, available).availability
            == v.with_availability(w, p, available).availability,
        v.with_availability(w, p, available).with_availability(w, p, available).project_workers
            == v.with_availability(w, p, available).project_workers,
        v.with_availability(w, p, available).with_availability(w, p, available).registered
            == v.with_availability(w, p, available).registered,
        v.with_availability(w, p, available).with_availability(w, p, available).owner
            == v.with_availability(w, p, available).owner,
{
    let once = v.with_availability(w, p, available);
    let twice = once.with_availability(w, p, available);
    let wp = list_of(v.availability, w);
    let pw = list_of(v.project_workers, p);
    if available {
        if !wp.contains(p) {
            assert(list_of(once.availability, w) == wp.push(p));
            lemma_push_contains(wp, p, p);
        }
        assert(list_of(once.availability, w).contains(p));
    } else {
        lemma_without(wp, p);
        lemma_without(pw, w);
        let wp1 = wp.filter(other_than(p));
        let pw1 = pw.filter(other_than(w));
        assert(list_of(once.availability, w) == wp1);
        assert(list_of(once.project_workers, p) == pw1);
        lemma_without_absent(wp1, p);
        lemma_without_absent(pw1, w);
        assert(twice.availability =~= once.availability);
        assert(twice.project_workers =~= once.project_workers);
    }
}

/// `v` without the account `a`, order kept.
pub fn without_account(v: &Vec<AccountId>, a: &AccountId) -> (r: Vec<AccountId>)
    ensures
        r@ == v@.filter(other_than(*a)),
{
    let mut r: Vec<AccountId> = Vec::new();
    let mut i: usize = 0;
    while i < v.len()
        invariant
            0 <= i <= v.len(),
            r@ == v@.take(i as int).filter(other_than(*a)),
        decreases v.len() - i,
    {
        let x = v[i];
        proof {
            reveal(Seq::filter);
            assert(v@.take(i + 1).drop_last() =~= v@.take(i as int));
            assert(v@.take(i + 1).last() == x);
        }
        if x != *a {
            r.push(x);
        }
        i = i + 1;
    }
    assert(v@.take(v.len() as int) =~= v@);
    r
}

/// A calendar's state in plain lists, as its host stores it between
/// messages. Recorded events are not part of it.
pub struct CalendarParts {
    pub owner: AccountId,
    pub registered_workers: Vec<AccountId>,
    pub worker_availability: Vec<(AccountId, Vec<AccountId>)>,
    pub project_workers: Vec<(AccountId, Vec<AccountId>)>,
}

/// The calendar contract's state.
pub struct Calendar {
    worker_availability: AccountListMap,
    project_workers: AccountListMap,
    registered_workers: Vec<AccountId>,
    owner: AccountId,
    events: Vec<CalendarEvent>,
}

impl View for Calendar {
    type V = CalendarView;

    closed spec fn view(&self) -> CalendarView {
        CalendarView {
            availability: self.worker_availability@,
            project_workers: self.project_workers@,
            registered: self.registered_workers@,
            owner: self.owner,
            events: self.events@,
        }
    }
}

impl Calendar {
    /// A calendar owned by `caller`, the account that instantiates it.
    pub fn new(caller: AccountId) -> (r: Calendar)
        ensures
            r@ == (CalendarView {
                availability: Map::empty(),
                project_workers: Map::empty(),
                registered: Seq::empty(),
                owner: caller,
                events: Seq::empty(),
            }),
            r@.mirrored(),
    {
        Calendar {
            worker_availability: AccountListMap::new(),
            project_workers: AccountListMap::new(),
            registered_workers: Vec::new(),
            owner: caller,
            events: Vec::new(),
        }
    }

    /// Registers `worker`; only the owner may. Registering a worker twice
    /// changes nothing.
    pub fn register_worker(&mut self, caller: AccountId, worker: AccountId) -> (r: Result<()>)
        ensures
            caller != old(self)@.owner ==> r == Err::<(), Error>(Error::NotAuthorized) && *final(self)
                == *old(self),
            caller == old(self)@.owner ==> r == Ok::<(), Error>(()) && final(self)@ == old(
                self,
            )@.registered_one(worker),
            old(self)@.mirrored() ==> final(self)@.mirrored(),
    {
        if caller != self.owner {
            return Err(Error::NotAuthorized);
        }
        self.register_one(worker);
        Ok(())
    }

    fn register_one(&mut self, worker: AccountId)
        ensures
            final(self)@ == old(self)@.registered_one(worker),
            old(self)@.mirrored() ==> final(self)@.mirrored(),
    {
        if !contains_account(&self.registered_workers, &worker) {
            let ghost v = self@;
            self.registered_workers.push(worker);
            self.worker_availability.insert(worker, Vec::new());
            self.events.push(CalendarEvent::WorkerRegistered(WorkerRegistered { worker }));
            proof {
                let n = self@;
                assert(n == v.registered_one(worker));
                if v.mirrored() {
                    lemma_registered_one_mirrored(v, worker);
                }
            }
        }
    }

    /// The calling worker declares whether they are available for
    /// `project_id`; only registered workers may.
    pub fn set_availability(&mut self, caller: AccountId, project_id: AccountId, is_available: bool) -> (r: Result<()>)
        ensures
            !old(self)@.registered.contains(caller) ==> r == Err::<(), Error>(Error::WorkerNotRegistered)
                && *final(self) == *old(self),
            old(self)@.registered.contains(caller) ==> r == Ok::<(), Error>(()) && final(self)@ == old(
                self,
            )@.with_availability(caller, project_id, is_available),
            old(self)@.mirrored() ==> final(self)@.mirrored(),
    {
        if !contains_account(&self.registered_workers, &caller) {
            return Err(Error::WorkerNotRegistered);
        }
        let ghost v = self@;
        let mut worker_projects = match self.worker_availability.get(&caller) {
            Some(projects) => projects,
            None => Vec::new(),
        };
        if is_available && !contains_account(&worker_projects, &project_id) {
            worker_projects.push(project_id);
            self.worker_availability.insert(caller, worker_projects);
            let mut available_workers = match self.project_workers.get(&project_id) {
                Some(workers) => workers,
                None => Vec::new(),
            };
            if !contains_account(&available_workers, &caller) {
                available_workers.push(caller);
                self.project_workers.insert(project_id, available_workers);
            }
        } else if !is_available {
            let kept_projects = without_account(&worker_projects, &project_id);
            self.worker_availability.insert(caller, kept_projects);
            let available_workers = match self.project_workers.get(&project_id) {
                Some(workers) => workers,
                None => Vec::new(),
            };
            let kept_workers = without_account(&available_workers, &caller);
            self.project_workers.insert(project_id, kept_workers);
        }
        self.events.push(
            CalendarEvent::AvailabilityUpdated(
                AvailabilityUpdated { worker: caller, project: project_id, is_available },
            ),
        );
        proof {
            assert(self@ == v.with_availability(caller, project_id, is_available));
            if v.mirrored() {
                lemma_with_availability_mirrored(v, caller, project_id, is_available);
            }
        }
        Ok(())
    }

    /// Registers each of `workers` in turn; only the owner may.
    pub fn register_workers(&mut self, caller: AccountId, workers: Vec<AccountId>) -> (r: Result<()>)
        ensures
            caller != old(self)@.owner ==> r == Err::<(), Error>(Error::NotAuthorized) && *final(self)
                == *old(self),
            caller == old(self)@.owner ==> r == Ok::<(), Error>(()) && final(self)@ == old(
                self,
            )@.registered_all(workers@),
            old(self)@.mirrored() ==> final(self)@.mirrored(),
    {
        if caller != self.owner {
            return Err(Error::NotAuthorized);
        }
        let ghost v = self@;
        let mut i: usize = 0;
        while i < workers.len()
            invariant
                0 <= i <= workers@.len(),
                self@ == v.registered_all(workers@.take(i as int)),
                v.mirrored() ==> self@.mirrored(),
            decreases workers.len() - i,
        {
            proof {
                assert(workers@.take(i + 1).drop_last() =~= workers@.take(i as int));
            }
            self.register_one(workers[i]);
            i = i + 1;
        }
        assert(workers@.take(workers.len() as int) =~= workers@);
        Ok(())
    }

    fn project_on_worker(&mut self, project_id: AccountId, worker: AccountId)
        ensures
            final(self)@ == old(self)@.project_on_worker(project_id, worker),
    {
        let mut worker_projects = match self.worker_availability.get(&worker) {
            Some(projects) => projects,
            None => Vec::new(),
        };
        if !contains_account(&worker_projects, &project_id) {
            worker_projects.push(project_id);
            self.worker_availability.insert(worker, worker_projects);
            self.events.push(
                CalendarEvent::AvailabilityUpdated(
                    AvailabilityUpdated { worker, project: project_id, is_available: true },
                ),
            );
        }
    }

    /// Makes each of `workers` available for `project_id`; only the owner
    /// may, and only registered workers can be added. At the first
    /// unregistered worker it refuses, the workers before it having the
    /// project on their lists, and the project's list not yet updated.
    pub fn add_workers_to_project(&mut self, caller: AccountId, project_id: AccountId, workers: Vec<AccountId>) -> (r: Result<()>)
        ensures
            caller != old(self)@.owner ==> r == Err::<(), Error>(Error::NotAuthorized) && *final(self)
                == *old(self),
            caller == old(self)@.owner && !all_registered(old(self)@.registered, workers@) ==> r
                == Err::<(), Error>(Error::WorkerNotRegistered) && final(self)@ == old(self)@.project_on_workers(
                project_id,
                workers@.take(first_unregistered(old(self)@.registered, workers@)),
            ),
            caller == old(self)@.owner && all_registered(old(self)@.registered, workers@) ==> r
                == Ok::<(), Error>(()) && final(self)@ == old(self)@.with_workers_added(
                project_id,
                workers@,
            ),
            old(self)@.mirrored() && r != Err::<(), Error>(Error::WorkerNotRegistered)
                ==> final(self)@.mirrored(),
    {
        if caller != self.owner {
            return Err(Error::NotAuthorized);
        }
        let ghost v = self@;
        let mut i: usize = 0;
        while i < workers.len()
            invariant
                0 <= i <= workers@.len(),
                v == old(self)@,
                caller == v.owner,
                self@ == v.project_on_workers(project_id, workers@.take(i as int)),
                self@.registered == v.registered,
                all_registered(v.registered, workers@.take(i as int)),
            decreases workers.len() - i,
        {
            proof {
                assert(workers@.take(i + 1).drop_last() =~= workers@.take(i as int));
            }
            if !contains_account(&self.registered_workers, &workers[i]) {
                proof {
                    lemma_first_unregistered(v.registered, workers@, i as int);
                }
                return Err(Error::WorkerNotRegistered);
            }
            self.project_on_worker(project_id, workers[i]);
            proof {
                lemma_project_on_workers(v, project_id, workers@.take(i + 1));
                assert forall|k: int| 0 <= k < i + 1 implies v.registered.contains(
                    #[trigger] workers@.take(i + 1)[k],
                ) by {
                    if k < i {
                        assert(workers@.take(i + 1)[k] == workers@.take(i as int)[k]);
                    }
                }
            }
            i = i + 1;
        }
        assert(workers@.take(workers.len() as int) =~= workers@);
        let mut listed = match self.project_workers.get(&project_id) {
            Some(listed) => listed,
            None => Vec::new(),
        };
        proof {
            lemma_project_on_workers(v, project_id, workers@);
        }
        let ghost start = listed@;
        assert(start == list_of(v.project_workers, project_id));
        let mut j: usize = 0;
        while j < workers.len()
            invariant
                0 <= j <= workers@.len(),
                listed@ == appended_missing(start, workers@.take(j as int)),
            decreases workers.len() - j,
        {
            proof {
                assert(workers@.take(j + 1).drop_last() =~= workers@.take(j as int));
            }
            if !contains_account(&listed, &workers[j]) {
                listed.push(workers[j]);
            }
            j = j + 1;
        }
        self.project_workers.insert(project_id, listed);
        proof {
            assert(self@ == v.with_workers_added(project_id, workers@));
            assert forall|x: AccountId| #[trigger] workers@.contains(x) implies v.registered.contains(x) by {
                let j = choose|j: int| 0 <= j < workers@.len() && workers@[j] == x;
                assert(workers@.take(workers.len() as int)[j] == x);
            }
            assert(all_registered(v.registered, workers@)) by {
                assert(workers@.take(workers.len() as int) =~= workers@);
            }
            if v.mirrored() {
                lemma_with_workers_added_mirrored(v, project_id, workers@);
            }
        }
        Ok(())
    }

    /// Whether `account_id` has declared availability for `project_id`.
    pub fn is_available(&self, account_id: AccountId, project_id: AccountId) -> (r: bool)
        ensures
            r == self@.offers(account_id, project_id),
    {
        match self.worker_availability.get(&account_id) {
            Some(projects) => contains_account(&projects, &project_id),
            None => false,
        }
    }

    /// The workers available for `project_id`, in the order they became so.
    pub fn get_available_workers(&self, project_id: AccountId) -> (r: Vec<AccountId>)
        ensures
            r@ == list_of(self@.project_workers, project_id),
    {
        match self.project_workers.get(&project_id) {
            Some(workers) => workers,
            None => Vec::new(),
        }
    }

    /// The registered workers, in order of registration.
    pub fn get_registered_workers(&self) -> (r: Vec<AccountId>)
        ensures
            r@ == self@.registered,
    {
        copy_accounts(&self.registered_workers)
    }

    /// The state in plain lists; `from_parts` builds the same state back,
    /// without the recorded events.
    pub fn to_parts(&self) -> (r: CalendarParts)
        ensures
            r.owner == self@.owner,
            r.registered_workers@ == self@.registered,
            map_of(pairs_view(r.worker_availability@)) == self@.availability,
            map_of(pairs_view(r.project_workers@)) == self@.project_workers,
    {
        CalendarParts {
            owner: self.owner,
            registered_workers: copy_accounts(&self.registered_workers),
            worker_availability: self.worker_availability.to_entries(),
            project_workers: self.project_workers.to_entries(),
        }
    }

    /// The calendar whose state `parts` holds, with no recorded event.
    pub fn from_parts(parts: CalendarParts) -> (r: Calendar)
        ensures
            r@ == (CalendarView {
                availability: map_of(pairs_view(parts.worker_availability@)),
                project_workers: map_of(pairs_view(parts.project_workers@)),
                registered: parts.registered_workers@,
                owner: parts.owner,
                events: Seq::empty(),
            }),
    {
        Calendar {
            worker_availability: AccountListMap::from_entries(parts.worker_availability),
            project_workers: AccountListMap::from_entries(parts.project_workers),
            registered_workers: parts.registered_workers,
            owner: parts.owner,
            events: Vec::new(),
        }
    }

    /// Hands over the events recorded since the last call, oldest first.
    pub fn take_events(&mut self) -> (r: Vec<CalendarEvent>)
        ensures
            r@ == old(self)@.events,
            final(self)@ == (CalendarView { events: Seq::empty(), ..old(self)@ }),
            old(self)@.mirrored() ==> final(self)@.mirrored(),
    {
        let mut taken: Vec<CalendarEvent> = Vec::new();
        std::mem::swap(&mut taken, &mut self.events);
        proof {
            let (v, n) = (old(self)@, self@);
            if v.mirrored() {
                assert forall|w: AccountId, p: AccountId| #[trigger] n.offers(w, p) <==> #[trigger] n.lists(p, w) by {
                    assert(n.offers(w, p) == v.offers(w, p));
                    assert(n.lists(p, w) == v.lists(p, w));
                }
            }
            if v.mirrored() {
                assert forall|w: AccountId, p: AccountId| #[trigger] n.lists(p, w) implies n.registered.contains(w) by {
                    assert(n.lists(p, w) == v.lists(p, w));
                }
            }
        }
        taken
    }
}

impl crate::projects::Calendar for Calendar {
    fn is_available(&self, account_id: AccountId, project_id: AccountId) -> (r: bool)
        ensures
            r == self@.offers(account_id, project_id),
    {
        Calendar::is_available(self, account_id, project_id)
    }

    fn get_available_workers(&self, project_id: AccountId) -> (r: Vec<AccountId>)
        ensures
            r@ == list_of(self@.project_workers, project_id),
    {
        Calendar::get_available_workers(self, project_id)
    }
}

} // verus!
