//! How a project team is formed from the available workers, and how the
//! client's ratings are applied to it.
use vstd::prelude::*;

use crate::account::AccountId;
use crate::projects::{team_view, Error, TeamMember, TeamMemberView};

verus! {

/// The role given to the `i`-th selected worker.
pub open spec fn role_for(i: int) -> Seq<char> {
    if i == 0 {
        "Designer"@
    } else if i == 1 {
        "Developer"@
    } else {
        "Tester"@
    }
}

/// The team formed from the available workers: the first three at most, as
/// designer, developer and tester, none rated yet.
pub open spec fn selected_team(available: Seq<AccountId>) -> Seq<TeamMemberView> {
    let n = if available.len() < 3 {
        available.len()
    } else {
        3
    };
    Seq::new(
        n,
        |i: int| TeamMemberView { account_id: available[i], role: role_for(i), rating: None },
    )
}

/// The accounts of a team, in order.
pub open spec fn team_accounts(team: Seq<TeamMemberView>) -> Seq<AccountId> {
    team.map_values(|m: TeamMemberView| m.account_id)
}

/// The position of the first occurrence of `a` in `accounts`, if any.
pub open spec fn account_position(accounts: Seq<AccountId>, a: AccountId) -> Option<int>
    decreases accounts.len(),
{
    if accounts.len() == 0 {
        None
    } else {
        match account_position(accounts.drop_last(), a) {
            Some(i) => Some(i),
            None => if accounts.last() == a {
                Some(accounts.len() - 1)
            } else {
                None
            },
        }
    }
}

/// What `account_position` finds.
pub proof fn lemma_account_position(accounts: Seq<AccountId>, a: AccountId)
    ensures
        match account_position(accounts, a) {
            Some(i) => 0 <= i < accounts.len() && accounts[i] == a && forall|k: int|
                0 <= k < i ==> #[trigger] accounts[k] != a,
            None => forall|k: int| 0 <= k < accounts.len() ==> #[trigger] accounts[k] != a,
        },
    decreases accounts.len(),
{
    if accounts.len() > 0 {
        lemma_account_position(accounts.drop_last(), a);
        assert forall|k: int| 0 <= k < accounts.len() - 1 implies #[trigger] accounts[k]
            == accounts.drop_last()[k] by {}
    }
}

/// Why the first refused rating of `ratings` is refused, if one is: a
/// rating is at most 10, and rates a member of `team`.
pub open spec fn rating_error(team: Seq<TeamMemberView>, ratings: Seq<(AccountId, u8)>) -> Option<Error>
    decreases ratings.len(),
{
    if ratings.len() == 0 {
        None
    } else {
        match rating_error(team, ratings.drop_last()) {
            Some(e) => Some(e),
            None => {
                let (a, r) = ratings.last();
                if r > 10 {
                    Some(Error::InvalidRatingValue)
                } else if account_position(team_accounts(team), a) is None {
                    Some(Error::TeamMemberNotFound)
                } else {
                    None
                }
            },
        }
    }
}

/// `team` once the first member with account `a` is rated `r`.
pub open spec fn rate_one(team: Seq<TeamMemberView>, a: AccountId, r: u8) -> Seq<TeamMemberView> {
    match account_position(team_accounts(team), a) {
        Some(i) => team.update(i, TeamMemberView { rating: Some(r), ..team[i] }),
        None => team,
    }
}

/// `team` once each of `ratings` is applied in turn.
pub open spec fn rated(team: Seq<TeamMemberView>, ratings: Seq<(AccountId, u8)>) -> Seq<TeamMemberView>
    decreases ratings.len(),
{
    if ratings.len() == 0 {
        team
    } else {
        let t = rated(team, ratings.drop_last());
        rate_one(t, ratings.last().0, ratings.last().1)
    }
}

/// Rating members leaves the accounts of a team as they were.
pub proof fn lemma_rated_accounts(team: Seq<TeamMemberView>, ratings: Seq<(AccountId, u8)>)
    ensures
        team_accounts(rated(team, ratings)) == team_accounts(team),
        rated(team, ratings).len() == team.len(),
    decreases ratings.len(),
{
    if ratings.len() > 0 {
        lemma_rated_accounts(team, ratings.drop_last());
        let t = rated(team, ratings.drop_last());
        lemma_account_position(team_accounts(t), ratings.last().0);
        assert(team_accounts(rate_one(t, ratings.last().0, ratings.last().1)) =~= team_accounts(t));
    }
}

/// With distinct member accounts, applying ratings gives each member the last
/// rating that names its account, keeps its account and role, and leaves a
/// member that no rating names as it was.
pub proof fn lemma_rated_members(team: Seq<TeamMemberView>, ratings: Seq<(AccountId, u8)>)
    requires
        team_accounts(team).no_duplicates(),
    ensures
        rated(team, ratings).len() == team.len(),
        forall|i: int|
            0 <= i < team.len() ==> (#[trigger] rated(team, ratings)[i]).account_id == team[i].account_id
                && rated(team, ratings)[i].role == team[i].role,
        forall|i: int, j: int|
            #![trigger rated(team, ratings)[i], ratings[j]]
            0 <= i < team.len() && 0 <= j < ratings.len() && ratings[j].0 == team[i].account_id && (
            forall|l: int| #![trigger ratings[l]] j < l < ratings.len() ==> ratings[l].0 != team[i].account_id)
                ==> rated(team, ratings)[i].rating == Some(ratings[j].1),
        forall|i: int|
            0 <= i < team.len() && (forall|l: int|
                #![trigger ratings[l]]
                0 <= l < ratings.len() ==> ratings[l].0 != team[i].account_id) ==> #[trigger] rated(
                team,
                ratings,
            )[i] == team[i],
    decreases ratings.len(),
{
    if ratings.len() > 0 {
        let d = ratings.drop_last();
        let n = ratings.len() - 1;
        let (a, r) = ratings.last();
        assert(ratings[n] == ratings.last());
        lemma_rated_members(team, d);
        lemma_rated_accounts(team, d);
        let t = rated(team, d);
        lemma_account_position(team_accounts(t), a);
        let res = rated(team, ratings);
        assert(res == rate_one(t, a, r));
        assert forall|i: int| 0 <= i < team.len() implies (#[trigger] res[i]).account_id
            == team[i].account_id && res[i].role == team[i].role by {
            assert(team_accounts(t)[i] == t[i].account_id);
        }
        assert forall|i: int, j: int|
            #![trigger res[i], ratings[j]]
            0 <= i < team.len() && 0 <= j < ratings.len() && ratings[j].0 == team[i].account_id && (
            forall|l: int| #![trigger ratings[l]] j < l < ratings.len() ==> ratings[l].0 != team[i].account_id)
                implies res[i].rating == Some(ratings[j].1) by {
            assert(team_accounts(t)[i] == t[i].account_id);
            assert(team_accounts(team)[i] == team[i].account_id);
            if team[i].account_id == a {
                if j < n {
                    assert(ratings[n].0 != team[i].account_id);
                }
                let p = account_position(team_accounts(t), a)->Some_0;
                assert(team_accounts(team)[p] == team[p].account_id);
            } else {
                if j == n {
                    assert(false);
                }
                assert(d[j] == ratings[j]);
                assert forall|l: int| #![trigger d[l]] j < l < d.len() implies d[l].0 != team[i].account_id by {
                    assert(d[l] == ratings[l]);
                }
                assert(t[i].rating == Some(d[j].1));
            }
        }
        assert forall|i: int|
            0 <= i < team.len() && (forall|l: int|
                #![trigger ratings[l]]
                0 <= l < ratings.len() ==> ratings[l].0 != team[i].account_id) implies #[trigger] res[i]
            == team[i] by {
            assert(team_accounts(t)[i] == t[i].account_id);
            assert(ratings[n].0 != team[i].account_id);
            assert forall|l: int| #![trigger d[l]] 0 <= l < d.len() implies d[l].0 != team[i].account_id by {
                assert(d[l] == ratings[l]);
            }
            assert(t[i] == team[i]);
        }
    }
}

/// Applying ratings that are all accepted keeps every rating at most 10.
pub proof fn lemma_rated_valid(team: Seq<TeamMemberView>, ratings: Seq<(AccountId, u8)>)
    requires
        rating_error(team, ratings) is None,
        forall|i: int| 0 <= i < team.len() ==> (#[trigger] team[i].rating matches Some(r) ==> r <= 10),
    ensures
        forall|i: int| 0 <= i < rated(team, ratings).len() ==> (#[trigger] rated(team, ratings)[i].rating matches Some(r)
            ==> r <= 10),
    decreases ratings.len(),
{
    if ratings.len() > 0 {
        lemma_rated_valid(team, ratings.drop_last());
        let t = rated(team, ratings.drop_last());
        lemma_account_position(team_accounts(t), ratings.last().0);
        let n = rated(team, ratings);
        assert forall|i: int| 0 <= i < n.len() implies (#[trigger] n[i].rating matches Some(r) ==> r <= 10) by {
            assert(n == rate_one(t, ratings.last().0, ratings.last().1));
            assert(0 <= i < t.len());
        }
    }
}

/// A rating is refused only for its value or for naming no member.
pub proof fn lemma_rating_error_kinds(team: Seq<TeamMemberView>, ratings: Seq<(AccountId, u8)>)
    ensures
        rating_error(team, ratings) is None || rating_error(team, ratings) == Some(
            Error::InvalidRatingValue,
        ) || rating_error(team, ratings) == Some(Error::TeamMemberNotFound),
    decreases ratings.len(),
{
    if ratings.len() > 0 {
        lemma_rating_error_kinds(team, ratings.drop_last());
    }
}

/// The position of the first refused rating of `ratings`, or their number
/// when none is refused.
pub open spec fn first_refused(team: Seq<TeamMemberView>, ratings: Seq<(AccountId, u8)>) -> int
    decreases ratings.len(),
{
    if ratings.len() == 0 {
        0
    } else if rating_error(team, ratings.drop_last()) is Some {
        first_refused(team, ratings.drop_last())
    } else if rating_error(team, ratings) is Some {
        ratings.len() - 1
    } else {
        ratings.len() as int
    }
}

/// When the ratings before position `i` are accepted and the one at `i` is
/// refused, `i` is the first refused position.
pub proof fn lemma_first_refused(team: Seq<TeamMemberView>, ratings: Seq<(AccountId, u8)>, i: int)
    requires
        0 <= i < ratings.len(),
        rating_error(team, ratings.take(i)) is None,
        rating_error(team, ratings.take(i + 1)) is Some,
    ensures
        first_refused(team, ratings) == i,
        rating_error(team, ratings) is Some,
    decreases ratings.len(),
{
    if i == ratings.len() - 1 {
        assert(ratings.drop_last() =~= ratings.take(i));
        assert(ratings.take(i + 1) =~= ratings);
    } else {
        let d = ratings.drop_last();
        assert(d.take(i) =~= ratings.take(i));
        assert(d.take(i + 1) =~= ratings.take(i + 1));
        lemma_first_refused(team, d, i);
    }
}

/// The ratings before the first refused one are all accepted.
pub proof fn lemma_first_refused_prefix(team: Seq<TeamMemberView>, ratings: Seq<(AccountId, u8)>)
    ensures
        0 <= first_refused(team, ratings) <= ratings.len(),
        rating_error(team, ratings.take(first_refused(team, ratings))) is None,
    decreases ratings.len(),
{
    if ratings.len() > 0 {
        let d = ratings.drop_last();
        lemma_first_refused_prefix(team, d);
        if rating_error(team, d) is Some {
            assert(d.take(first_refused(team, d)) =~= ratings.take(first_refused(team, ratings)));
        } else if rating_error(team, ratings) is Some {
            assert(ratings.take(ratings.len() - 1) =~= d);
        } else {
            assert(ratings.take(ratings.len() as int) =~= ratings);
        }
    } else {
        assert(ratings.take(0) =~= ratings);
    }
}

/// The team formed from the available workers holds the first three of them,
/// or all of them when fewer are available, in order, as designer, developer
/// and tester, none rated.
pub proof fn lemma_team_takes_first_three(available: Seq<AccountId>)
    ensures
        selected_team(available).len() <= 3,
        selected_team(available).len() <= available.len(),
        forall|i: int|
            0 <= i < available.len() && i < 3 ==> i < selected_team(available).len()
                && #[trigger] selected_team(available)[i].account_id == available[i]
                && selected_team(available)[i].rating is None,
        available.len() >= 1 ==> selected_team(available)[0].role == "Designer"@,
        available.len() >= 2 ==> selected_team(available)[1].role == "Developer"@,
        available.len() >= 3 ==> selected_team(available)[2].role == "Tester"@,
{
}

/// When every rating names a member of the team, the ratings are accepted
/// exactly when none exceeds 10, and a refusal is for a rating above 10.
pub proof fn lemma_ratings_accepted_up_to_ten(team: Seq<TeamMemberView>, ratings: Seq<(AccountId, u8)>)
    requires
        forall|j: int|
            0 <= j < ratings.len() ==> exists|i: int|
                0 <= i < team.len() && #[trigger] team[i].account_id == (#[trigger] ratings[j]).0,
    ensures
        rating_error(team, ratings) is None <==> forall|j: int|
            0 <= j < ratings.len() ==> (#[trigger] ratings[j]).1 <= 10,
        rating_error(team, ratings) is Some ==> rating_error(team, ratings) == Some(
            Error::InvalidRatingValue,
        ),
    decreases ratings.len(),
{
    if ratings.len() > 0 {
        let d = ratings.drop_last();
        assert forall|j: int| 0 <= j < d.len() implies exists|i: int|
            0 <= i < team.len() && #[trigger] team[i].account_id == (#[trigger] d[j]).0 by {
            assert(d[j] == ratings[j]);
        }
        lemma_ratings_accepted_up_to_ten(team, d);
        let (a, r) = ratings.last();
        let k = ratings.len() - 1;
        assert(ratings[k] == ratings.last());
        let i = choose|i: int| 0 <= i < team.len() && #[trigger] team[i].account_id == (#[trigger] ratings[k]).0;
        lemma_account_position(team_accounts(team), a);
        assert(team_accounts(team)[i] == a);
        assert(account_position(team_accounts(team), a) is Some);
        if forall|j: int| 0 <= j < ratings.len() ==> (#[trigger] ratings[j]).1 <= 10 {
            assert forall|j: int| 0 <= j < d.len() implies (#[trigger] d[j]).1 <= 10 by {
                assert(d[j] == ratings[j]);
            }
        } else {
            let j = choose|j: int| 0 <= j < ratings.len() && !((#[trigger] ratings[j]).1 <= 10);
            if j < d.len() {
                assert(d[j] == ratings[j]);
            }
        }
    }
}

/// A refused rating among the first `k` is the first refused one of all.
pub proof fn lemma_rating_error_prefix(team: Seq<TeamMemberView>, ratings: Seq<(AccountId, u8)>, k: int)
    requires
        0 <= k <= ratings.len(),
        rating_error(team, ratings.take(k)) is Some,
    ensures
        rating_error(team, ratings) == rating_error(team, ratings.take(k)),
    decreases ratings.len(),
{
    if k < ratings.len() {
        assert(ratings.drop_last().take(k) =~= ratings.take(k));
        lemma_rating_error_prefix(team, ratings.drop_last(), k);
    } else {
        assert(ratings.take(k) =~= ratings);
    }
}

/// Copies a team member.
pub fn copy_member(m: &TeamMember) -> (r: TeamMember)
    ensures
        r@ == m@,
{
    TeamMember { account_id: m.account_id, role: m.role.clone(), rating: m.rating }
}

/// Copies a team.
pub fn copy_team(v: &Vec<TeamMember>) -> (r: Vec<TeamMember>)
    ensures
        team_view(r@) == team_view(v@),
{
    let mut r: Vec<TeamMember> = Vec::new();
    let mut i: usize = 0;
    while i < v.len()
        invariant
            0 <= i <= v.len(),
            r@.len() == i,
            team_view(r@) == team_view(v@).take(i as int),
        decreases v.len() - i,
    {
        let m = copy_member(&v[i]);
        let ghost before = r@;
        r.push(m);
        assert forall|k: int| 0 <= k < i + 1 implies #[trigger] team_view(r@)[k] == team_view(v@).take(i + 1)[k] by {
            if k < i {
                assert(r@[k] == before[k]);
                assert(team_view(before)[k] == team_view(v@).take(i as int)[k]);
            }
        }
        assert(team_view(r@) =~= team_view(v@).take(i + 1));
        i = i + 1;
    }
    assert(team_view(v@).take(v.len() as int) =~= team_view(v@));
    r
}

/// The team formed from `available`; see `selected_team`.
pub fn form_team(available: &Vec<AccountId>) -> (r: Vec<TeamMember>)
    ensures
        team_view(r@) == selected_team(available@),
        r@.len() == (if available@.len() < 3 {
            available@.len()
        } else {
            3
        }),
        forall|i: int|
            0 <= i < r@.len() ==> #[trigger] r@[i].account_id == available@[i] && r@[i].rating is None,
{
    let mut team: Vec<TeamMember> = Vec::new();
    if available.len() >= 1 {
        team.push(TeamMember { account_id: available[0], role: "Designer".to_owned(), rating: None });
    }
    if available.len() >= 2 {
        team.push(TeamMember { account_id: available[1], role: "Developer".to_owned(), rating: None });
    }
    if available.len() >= 3 {
        team.push(TeamMember { account_id: available[2], role: "Tester".to_owned(), rating: None });
    }
    assert(team_view(team@) =~= selected_team(available@));
    proof {
        lemma_team_takes_first_three(available@);
        assert forall|i: int| 0 <= i < team@.len() implies #[trigger] team@[i].account_id == available@[i]
            && team@[i].rating is None by {
            assert(team_view(team@)[i] == team@[i]@);
        }
    }
    team
}

/// The position of the first member of `team` with account `a`, if any.
pub fn member_index(team: &Vec<TeamMember>, a: &AccountId) -> (r: Option<usize>)
    ensures
        match r {
            Some(i) => account_position(team_accounts(team_view(team@)), *a) == Some(i as int),
            None => account_position(team_accounts(team_view(team@)), *a) == None::<int>,
        },
{
    let ghost accounts = team_accounts(team_view(team@));
    let mut i: usize = 0;
    while i < team.len()
        invariant
            0 <= i <= team@.len(),
            accounts == team_accounts(team_view(team@)),
            forall|k: int| 0 <= k < i ==> #[trigger] accounts[k] != *a,
        decreases team.len() - i,
    {
        if team[i].account_id == *a {
            proof {
                lemma_account_position(accounts, *a);
                assert(accounts[i as int] == *a);
                match account_position(accounts, *a) {
                    Some(j) => {
                        if j > i {
                            assert(accounts[i as int] != *a);
                        } else if j < i {
                            assert(accounts[j] != *a);
                        }
                    },
                    None => {
                        assert(accounts[i as int] != *a);
                    },
                }
            }
            return Some(i);
        }
        assert(accounts[i as int] == team@[i as int].account_id);
        i = i + 1;
    }
    proof {
        lemma_account_position(accounts, *a);
        match account_position(accounts, *a) {
            Some(j) => {
                assert(accounts[j] != *a);
            },
            None => {},
        }
    }
    None
}

/// Applies `ratings` in turn to `team`. At the first refused rating it stops,
/// the ratings before it applied, and says why that one is refused.
pub fn apply_ratings(team: &mut Vec<TeamMember>, ratings: &Vec<(AccountId, u8)>) -> (r: Result<(), Error>)
    ensures
        match rating_error(team_view(old(team)@), ratings@) {
            Some(e) => r == Err::<(), Error>(e) && team_view(final(team)@) == rated(
                team_view(old(team)@),
                ratings@.take(first_refused(team_view(old(team)@), ratings@)),
            ),
            None => r == Ok::<(), Error>(()) && team_view(final(team)@) == rated(
                team_view(old(team)@),
                ratings@,
            ),
        },
        (forall|j: int|
            0 <= j < ratings@.len() ==> exists|i: int|
                0 <= i < old(team)@.len() && #[trigger] old(team)@[i].account_id == (
                #[trigger] ratings@[j]).0) ==> {
            &&& (r is Ok <==> forall|j: int| 0 <= j < ratings@.len() ==> (#[trigger] ratings@[j]).1 <= 10)
            &&& r is Err ==> r == Err::<(), Error>(Error::InvalidRatingValue)
        },
        r is Ok && team_accounts(team_view(old(team)@)).no_duplicates() ==> {
            &&& final(team)@.len() == old(team)@.len()
            &&& forall|i: int, j: int|
                #![trigger final(team)@[i], ratings@[j]]
                0 <= i < old(team)@.len() && 0 <= j < ratings@.len() && ratings@[j].0 == old(
                    team,
                )@[i].account_id && (forall|l: int|
                    #![trigger ratings@[l]]
                    j < l < ratings@.len() ==> ratings@[l].0 != old(team)@[i].account_id)
                    ==> final(team)@[i].rating == Some(ratings@[j].1)
                    && final(team)@[i].account_id == old(team)@[i].account_id
            &&& forall|i: int|
                0 <= i < old(team)@.len() && (forall|l: int|
                    #![trigger ratings@[l]]
                    0 <= l < ratings@.len() ==> ratings@[l].0 != old(team)@[i].account_id)
                    ==> #[trigger] final(team)@[i]@ == old(team)@[i]@
        },
{
    let ghost start = team_view(team@);
    proof {
        if forall|j: int|
            0 <= j < ratings@.len() ==> exists|i: int|
                0 <= i < team@.len() && #[trigger] team@[i].account_id == (#[trigger] ratings@[j]).0 {
            assert forall|j: int| 0 <= j < ratings@.len() implies exists|i: int|
                0 <= i < start.len() && #[trigger] start[i].account_id == (#[trigger] ratings@[j]).0 by {
                let i = choose|i: int|
                    0 <= i < team@.len() && #[trigger] team@[i].account_id == (#[trigger] ratings@[j]).0;
                assert(start[i].account_id == team@[i].account_id);
            }
            lemma_ratings_accepted_up_to_ten(start, ratings@);
        }
    }
    let mut i: usize = 0;
    #[verifier::loop_isolation(false)]
    while i < ratings.len()
        invariant
            0 <= i <= ratings@.len(),
            start == team_view(old(team)@),
            team_view(team@) == rated(start, ratings@.take(i as int)),
            rating_error(start, ratings@.take(i as int)) == None::<Error>,
        decreases ratings.len() - i,
    {
        let (account, rating) = ratings[i];
        let ghost cur = team_view(team@);
        proof {
            assert(ratings@.take(i + 1).drop_last() =~= ratings@.take(i as int));
            assert(ratings@.take(i + 1).last() == (account, rating));
            lemma_rated_accounts(start, ratings@.take(i as int));
            lemma_account_position(team_accounts(cur), account);
        }
        if rating > 10 {
            proof {
                assert(rating_error(start, ratings@.take(i + 1)) == Some(Error::InvalidRatingValue));
                lemma_rating_error_prefix(start, ratings@, i + 1);
                lemma_first_refused(start, ratings@, i as int);
            }
            return Err(Error::InvalidRatingValue);
        }
        let found = member_index(team, &account);
        if found.is_none() {
            proof {
                assert(account_position(team_accounts(cur), account) is None);
                assert(rating_error(start, ratings@.take(i + 1)) == Some(Error::TeamMemberNotFound));
                lemma_rating_error_prefix(start, ratings@, i + 1);
                lemma_first_refused(start, ratings@, i as int);
            }
            return Err(Error::TeamMemberNotFound);
        }
        let j = found.unwrap();
        let mut member = copy_member(&team[j]);
        member.rating = Some(rating);
        team.set(j, member);
        assert(team_view(team@) =~= rate_one(cur, account, rating));
        i = i + 1;
    }
    assert(ratings@.take(ratings.len() as int) =~= ratings@);
    proof {
        if team_accounts(start).no_duplicates() {
            lemma_rated_members(start, ratings@);
            let res = rated(start, ratings@);
            assert forall|i: int, j: int|
                #![trigger team@[i], ratings@[j]]
                0 <= i < old(team)@.len() && 0 <= j < ratings@.len() && ratings@[j].0 == old(
                    team,
                )@[i].account_id && (forall|l: int|
                    #![trigger ratings@[l]]
                    j < l < ratings@.len() ==> ratings@[l].0 != old(team)@[i].account_id)
                    implies team@[i].rating == Some(ratings@[j].1)
                    && team@[i].account_id == old(team)@[i].account_id by {
                assert(start[i] == old(team)@[i]@);
                assert(res[i] == team@[i]@);
            }
            assert forall|i: int|
                0 <= i < old(team)@.len() && (forall|l: int|
                    #![trigger ratings@[l]]
                    0 <= l < ratings@.len() ==> ratings@[l].0 != old(team)@[i].account_id)
                    implies #[trigger] team@[i]@ == old(team)@[i]@ by {
                assert(start[i] == old(team)@[i]@);
                assert(res[i] == team@[i]@);
            }
        }
    }
    Ok(())
}

} // verus!
