//! Matchmaking on the store: which lobbies the queue yields, and the store
//! after they have formed.

use vstd::prelude::*;
use rand::TryRngCore;
use crate::data::UserData;
use crate::entity::{Entity, EntityId};
use crate::grouping::{acceptance, form_groups, groups, groups_are_disjoint, groups_are_lobbies, groups_view, referred};
use crate::order::{as_ints, priority_order, priority_order_is_sorted, sort_by_priority};
use crate::send::{QueueSignal, ReconnectSignal};
use crate::state::{SharedState, StateView, UserState};
use crate::model::{position_below, position_below_is_first, session_below, session_below_is_first};
use crate::model::{Model, Place, SessionView, User};
use crate::store::Store;

verus! {

/// The places of the queued ones among the first `n` users, ascending.
pub open spec fn queued_below<U, C>(users: Seq<User<U, C>>, n: int) -> Seq<int>
    decreases n,
{
    if n <= 0 {
        Seq::empty()
    } else {
        let rest = queued_below(users, n - 1);
        if users[n - 1].place is Queue {
            rest.push(n - 1)
        } else {
            rest
        }
    }
}

/// The states that sessions start from, given their seeds.
pub open spec fn seeded_all<S: SharedState>(seeds: Seq<[u8; 32]>) -> Seq<S> {
    seeds.map_values(|seed: [u8; 32]| S::seeded(seed))
}

/// Lists of entities as values.
pub open spec fn lobbies_view(lobbies: Seq<Vec<Entity>>) -> Seq<Seq<Entity>> {
    lobbies.map_values(|l: Vec<Entity>| l@)
}

impl<U: UserData, S, P, C> Model<U, S, P, C> {
    /// The places of the queued users, in the order in which they joined.
    pub open spec fn queued(self) -> Seq<int> {
        queued_below(self.users, self.users.len() as int)
    }

    /// The priorities of the queued users.
    pub open spec fn keys(self) -> Seq<u64> {
        self.queued().map_values(|i: int| self.users[i].user_data.priority())
    }

    /// The places of the queued users in priority order.
    pub open spec fn ranked(self) -> Seq<int> {
        priority_order(self.keys(), self.keys().len()).map_values(|r: int| self.queued()[r])
    }

    /// The data of the queued users in priority order.
    pub open spec fn ranked_data(self) -> Seq<U> {
        self.ranked().map_values(|i: int| self.users[i].user_data)
    }

    /// The lobbies that the queue yields, each as the entities of its
    /// members, the anchor first.
    pub open spec fn plan(self) -> Seq<Seq<Entity>> {
        groups(acceptance(self.ranked_data()), self.ranked().len() as int, self.size as int).map_values(
            |g: Seq<int>| g.map_values(|r: int| self.users[self.ranked()[r]].entity),
        )
    }

    /// How many of the planned lobbies form when `seeds` seeds are at hand:
    /// one for each seed, as long as entities are left.
    pub open spec fn formable(self, seeds: int) -> int {
        let most = if self.plan().len() <= seeds { self.plan().len() as int } else { seeds };
        if most <= u64::MAX - self.next {
            most
        } else {
            u64::MAX - self.next
        }
    }
}

impl<U, S, P, C> Model<U, S, P, C> {
    /// The store after `members` have been placed in the lobby of a new
    /// session that starts from `shared`: the session awaits its members'
    /// consent, and each member refers to it.
    pub open spec fn with_lobby(self, members: Seq<Entity>, shared: S) -> Self {
        let id = Entity { bits: self.next };
        Model {
            next: (self.next + 1) as u64,
            users: self.users.map_values(
                |u: User<U, C>|
                    if members.contains(u.entity) {
                        User { place: Place::Lobby { session: EntityId(id), accepted: false }, ..u }
                    } else {
                        u
                    },
            ),
            sessions: self.sessions.push(
                SessionView {
                    entity: id,
                    lobby: members,
                    accepted: false,
                    state: StateView { shared, users: Seq::empty() },
                },
            ),
            ..self
        }
    }

    /// The store after each of `lobbies` has formed in turn, the session of
    /// each starting from the state at its place in `shareds`.
    pub open spec fn with_lobbies(self, lobbies: Seq<Seq<Entity>>, shareds: Seq<S>) -> Self
        decreases lobbies.len(),
    {
        if lobbies.len() == 0 {
            self
        } else {
            self.with_lobbies(lobbies.drop_last(), shareds.drop_last()).with_lobby(lobbies.last(), shareds.last())
        }
    }

    /// Whether each of `members` is the entity of a queued user.
    pub open spec fn all_queued(self, members: Seq<Entity>) -> bool {
        forall|m: int|
            0 <= m < members.len() ==> self.position(#[trigger] members[m]).is_some() && self.users[self.position(
                members[m],
            ).unwrap()].place is Queue
    }
}

/// A session is found among more sessions where it was found among fewer.
pub proof fn session_below_grows<S, P>(
    sessions: Seq<SessionView<S, P>>,
    more: Seq<SessionView<S, P>>,
    e: Entity,
    n: int,
)
    requires
        0 <= n <= sessions.len() <= more.len(),
        forall|k: int| 0 <= k < sessions.len() ==> #[trigger] more[k] == sessions[k],
    ensures
        session_below(more, e, n) == session_below(sessions, e, n),
    decreases n,
{
    if n > 0 {
        session_below_grows(sessions, more, e, n - 1);
    }
}

impl<U, S, P, C> Model<U, S, P, C> {
    /// Whom a new lobby finds where: each old session where it was, and the
    /// new session, which no user referred to before, at the end.
    pub proof fn with_lobby_sessions(self, members: Seq<Entity>, shared: S, e: Entity)
        requires
            self.wf(),
            self.next < u64::MAX,
        ensures
            self.session(e).is_some() ==> self.with_lobby(members, shared).session(e) == self.session(e),
            e.bits == self.next ==> self.with_lobby(members, shared).session(e) == Some(
                self.sessions.len() as int,
            ),
            self.session(e).is_none() && e.bits != self.next ==> self.with_lobby(members, shared).session(
                e,
            ).is_none(),
    {
        let after = self.with_lobby(members, shared);
        let n = self.sessions.len() as int;
        session_below_grows(self.sessions, after.sessions, e, n);
        session_below_is_first(self.sessions, e, n);
        session_below_is_first(after.sessions, e, n + 1);
        if e.bits == self.next {
            if self.session(e).is_some() {
                assert(self.sessions[self.session(e).unwrap()].entity.bits < self.next);
            }
        }
    }

    /// Forming a lobby of queued users keeps the invariant.
    pub proof fn with_lobby_keeps_wf(self, members: Seq<Entity>, shared: S)
        requires
            self.wf(),
            self.next < u64::MAX,
            members.len() == self.size,
            members.no_duplicates(),
            self.all_queued(members),
        ensures
            self.with_lobby(members, shared).wf(),
    {
        let after = self.with_lobby(members, shared);
        let n = self.sessions.len() as int;
        let id = Entity { bits: self.next };
        assert forall|i: int| 0 <= i < self.users.len() implies (#[trigger] after.users[i]).entity
            == self.users[i].entity && after.users[i].account == self.users[i].account by {}
        assert forall|k: int| 0 <= k < n implies #[trigger] after.sessions[k] == self.sessions[k] by {}
        assert forall|k: int, l: int| 0 <= k < l < after.sessions.len() implies (#[trigger] after.sessions[k]).entity
            != (#[trigger] after.sessions[l]).entity by {
            if l == n {
                assert(self.sessions[k].entity.bits < self.next);
            } else {
                assert(self.sessions[k].entity != self.sessions[l].entity);
            }
        }
        assert forall|k: int, m: int|
            0 <= k < after.sessions.len() && 0 <= m < after.sessions[k].lobby.len() implies (
        #[trigger] after.sessions[k].lobby[m]).bits < after.next by {
            if k == n {
                let at = self.position(members[m]).unwrap();
                position_below_is_first(self.users, members[m], self.users.len() as int);
                assert(self.users[at].entity.bits < self.next);
            } else {
                assert(self.sessions[k].lobby[m].bits < self.next);
            }
        }
        assert forall|i: int| 0 <= i < after.users.len() implies ((#[trigger] after.users[i]).place matches Place::Lobby {
            session,
            ..
        } ==> after.session(session.0).is_some() && after.sessions[after.session(
            session.0,
        ).unwrap()].lobby.contains(after.users[i].entity)) by {
            if after.users[i].place is Lobby {
                let session = after.users[i].place->session;
                self.with_lobby_sessions(members, shared, session.0);
                if members.contains(self.users[i].entity) {
                    assert(session.0 == id);
                } else {
                    assert(after.users[i] == self.users[i]);
                    session_below_is_first(self.sessions, session.0, n);
                    let k = self.session(session.0).unwrap();
                    assert(after.sessions[k] == self.sessions[k]);
                }
            }
        }
        assert forall|k: int, m: int, i: int|
            0 <= k < after.sessions.len() && 0 <= m < after.sessions[k].lobby.len() && 0 <= i
                < after.users.len() && #[trigger] after.sessions[k].lobby[m] == (
            #[trigger] after.users[i]).entity implies after.users[i].place is Lobby
            && after.users[i].place->session == EntityId(after.sessions[k].entity) by {
            if k == n {
                assert(members.contains(self.users[i].entity));
            } else {
                assert(self.sessions[k].lobby[m] == self.users[i].entity);
                assert(self.users[i].place is Lobby);
                if members.contains(self.users[i].entity) {
                    let w = choose|w: int| 0 <= w < members.len() && members[w] == self.users[i].entity;
                    let at = self.position(members[w]).unwrap();
                    position_below_is_first(self.users, members[w], self.users.len() as int);
                    assert(self.users[at].place is Queue);
                    if at < i {
                        assert(self.users[at].entity != self.users[i].entity);
                    } else if i < at {
                        assert(self.users[i].entity != self.users[at].entity);
                    }
                }
            }
        }
    }
}

impl<U: UserData, S: SharedState, P, C> Model<U, S, P, C> {
    /// The store after matchmaking with `seeds` at hand: the first lobbies of
    /// the plan have formed, as many as can, each session seeded in turn.
    pub open spec fn matched(self, seeds: Seq<[u8; 32]>) -> Self {
        let k = self.formable(seeds.len() as int);
        self.with_lobbies(self.plan().take(k), seeded_all::<S>(seeds.take(k)))
    }
}

/// The queued places among the first `n` are places of queued users, in
/// ascending order.
pub proof fn queued_below_is_sound<U, C>(users: Seq<User<U, C>>, n: int)
    requires
        n <= users.len(),
    ensures
        forall|j: int|
            0 <= j < queued_below(users, n).len() ==> 0 <= #[trigger] queued_below(users, n)[j] < n && users[queued_below(
                users,
                n,
            )[j]].place is Queue,
        forall|j: int, l: int|
            0 <= j < l < queued_below(users, n).len() ==> #[trigger] queued_below(users, n)[j] < #[trigger] queued_below(
                users,
                n,
            )[l],
    decreases n,
{
    if n > 0 {
        queued_below_is_sound(users, n - 1);
    }
}

/// Where the entities are distinct, each user is found under its entity.
pub proof fn position_finds<U, C>(users: Seq<User<U, C>>, i: int)
    requires
        0 <= i < users.len(),
        forall|i: int, j: int|
            0 <= i < j < users.len() ==> (#[trigger] users[i]).entity != (#[trigger] users[j]).entity,
    ensures
        position_below(users, users[i].entity, users.len() as int) == Some(i),
{
    position_below_is_first(users, users[i].entity, users.len() as int);
}

/// Users are found where they were as long as their entities are what they
/// were.
pub proof fn position_below_same<U, C>(users: Seq<User<U, C>>, others: Seq<User<U, C>>, e: Entity, n: int)
    requires
        0 <= n <= users.len() == others.len(),
        forall|i: int| 0 <= i < users.len() ==> (#[trigger] others[i]).entity == users[i].entity,
    ensures
        position_below(others, e, n) == position_below(users, e, n),
    decreases n,
{
    if n > 0 {
        position_below_same(users, others, e, n - 1);
    }
}

impl<U: UserData, S, P, C> Model<U, S, P, C> {
    /// The ranked places are places of queued users, each once.
    pub proof fn ranked_is_sound(self)
        ensures
            self.ranked().len() == self.queued().len(),
            forall|r: int|
                0 <= r < self.ranked().len() ==> 0 <= #[trigger] self.ranked()[r] < self.users.len()
                    && self.users[self.ranked()[r]].place is Queue,
            forall|r: int, t: int|
                0 <= r < t < self.ranked().len() ==> #[trigger] self.ranked()[r] != #[trigger] self.ranked()[t],
    {
        let keys = self.keys();
        let order = priority_order(keys, keys.len());
        let queued = self.queued();
        priority_order_is_sorted(keys, keys.len());
        queued_below_is_sound(self.users, self.users.len() as int);
        assert forall|r: int, t: int| 0 <= r < t < self.ranked().len() implies #[trigger] self.ranked()[r]
            != #[trigger] self.ranked()[t] by {
            assert(crate::order::goes_before(keys, order[r], order[t]));
            assert(order[r] != order[t]);
            if order[r] < order[t] {
                assert(queued[order[r]] < queued[order[t]]);
            } else {
                assert(queued[order[t]] < queued[order[r]]);
            }
        }
    }

    /// The planned lobbies have `size` members each, queued users all, and
    /// no entity is a member twice, in one lobby or in two.
    pub proof fn plan_is_sound(self)
        requires
            self.wf(),
        ensures
            forall|l: int|
                0 <= l < self.plan().len() ==> (#[trigger] self.plan()[l]).len() == self.size
                    && self.plan()[l].no_duplicates() && self.all_queued(self.plan()[l]),
            forall|l: int, t: int, m: int, w: int|
                0 <= l < t < self.plan().len() && 0 <= m < self.size && 0 <= w < self.size
                    ==> #[trigger] self.plan()[l][m] != #[trigger] self.plan()[t][w],
    {
        let ranked = self.ranked();
        let n = ranked.len() as int;
        let accepts = acceptance(self.ranked_data());
        let gs = groups(accepts, n, self.size as int);
        let plan = self.plan();
        self.ranked_is_sound();
        groups_are_lobbies(accepts, n, self.size as int, 0, Set::empty());
        groups_are_disjoint(accepts, n, self.size as int, 0, Set::empty());
        assert forall|l: int, m: int| 0 <= l < plan.len() && 0 <= m < self.size implies #[trigger] plan[l][m]
            == self.users[ranked[gs[l][m]]].entity && 0 <= gs[l][m] < n by {
            assert(crate::grouping::is_lobby(accepts, n, self.size as int, gs[l]));
        }
        assert forall|l: int| 0 <= l < plan.len() implies (#[trigger] plan[l]).len() == self.size
            && plan[l].no_duplicates() && self.all_queued(plan[l]) by {
            assert(crate::grouping::is_lobby(accepts, n, self.size as int, gs[l]));
            assert forall|m: int, w: int| 0 <= m < w < plan[l].len() implies plan[l][m] != plan[l][w] by {
                self.rank_entities_differ(gs[l][m], gs[l][w]);
                assert(plan[l][m] == self.users[ranked[gs[l][m]]].entity);
                assert(plan[l][w] == self.users[ranked[gs[l][w]]].entity);
            }
            assert forall|m: int| 0 <= m < plan[l].len() implies self.position(#[trigger] plan[l][m]).is_some()
                && self.users[self.position(plan[l][m]).unwrap()].place is Queue by {
                assert(plan[l][m] == self.users[ranked[gs[l][m]]].entity);
                position_finds(self.users, ranked[gs[l][m]]);
            }
        }
        assert forall|l: int, t: int, m: int, w: int|
            0 <= l < t < plan.len() && 0 <= m < self.size && 0 <= w < self.size implies #[trigger] plan[l][m]
            != #[trigger] plan[t][w] by {
            assert(gs[l][m] != gs[t][w]);
            assert(plan[l][m] == self.users[ranked[gs[l][m]]].entity);
            assert(plan[t][w] == self.users[ranked[gs[t][w]]].entity);
            self.rank_entities_differ(gs[l][m], gs[t][w]);
        }
    }

    /// Users of different rank have different entities.
    pub proof fn rank_entities_differ(self, r: int, t: int)
        requires
            self.wf(),
            0 <= r < self.ranked().len(),
            0 <= t < self.ranked().len(),
            r != t,
        ensures
            self.users[self.ranked()[r]].entity != self.users[self.ranked()[t]].entity,
    {
        self.ranked_is_sound();
        let a = self.ranked()[r];
        let b = self.ranked()[t];
        if r < t {
            assert(self.ranked()[r] != self.ranked()[t]);
        } else {
            assert(self.ranked()[t] != self.ranked()[r]);
        }
        if a < b {
            assert(self.users[a].entity != self.users[b].entity);
        } else {
            assert(self.users[b].entity != self.users[a].entity);
        }
    }
}

impl<U, S, P, C> Model<U, S, P, C> {
    /// Users that are no members of a new lobby are queued after it has
    /// formed if they were before.
    pub proof fn with_lobby_leaves_queued(self, members: Seq<Entity>, shared: S, others: Seq<Entity>)
        requires
            self.all_queued(others),
            forall|m: int, w: int| 0 <= m < members.len() && 0 <= w < others.len() ==> members[m] != others[w],
        ensures
            self.with_lobby(members, shared).all_queued(others),
    {
        let after = self.with_lobby(members, shared);
        assert forall|w: int| 0 <= w < others.len() implies after.position(#[trigger] others[w]).is_some()
            && after.users[after.position(others[w]).unwrap()].place is Queue by {
            position_below_same(self.users, after.users, others[w], self.users.len() as int);
            position_below_is_first(self.users, others[w], self.users.len() as int);
            let at = self.position(others[w]).unwrap();
            if members.contains(self.users[at].entity) {
                let m = choose|m: int| 0 <= m < members.len() && members[m] == self.users[at].entity;
                assert(members[m] != others[w]);
            }
        }
    }
}

/// The lobbies that the queue of `store` yields now, each as the entities of
/// its members, the anchor first.
pub fn plan<U: UserData, S, P, C>(store: &Store<U, S, P, C>) -> (lobbies: Vec<Vec<Entity>>)
    requires
        store.wf(),
    ensures
        lobbies_view(lobbies@) == store@.plan(),
{
    let users = store.users();
    let ghost model = store@;
    let mut queued: Vec<usize> = Vec::new();
    let mut keys: Vec<u64> = Vec::new();
    let mut i: usize = 0;
    assert(as_ints(queued@) =~= queued_below(users@, 0));
    while i < users.len()
        invariant
            i <= users.len(),
            users@ == model.users,
            keys.len() == queued.len(),
            as_ints(queued@) == queued_below(users@, i as int),
            forall|j: int| 0 <= j < queued.len() ==> #[trigger] queued@[j] < i,
            forall|j: int| 0 <= j < keys.len() ==> #[trigger] keys@[j] == users@[queued@[j] as int].user_data.priority(),
        decreases users.len() - i,
    {
        let ghost before = as_ints(queued@);
        match users[i].place {
            Place::Queue => {
                queued.push(i);
                keys.push(users[i].user_data.matchmake_priority());
                assert(as_ints(queued@) =~= before.push(i as int));
            },
            Place::Lobby { .. } => {},
        }
        i = i + 1;
    }
    assert(as_ints(queued@) == model.queued());
    assert(keys@ =~= model.keys()) by {
        assert forall|j: int| 0 <= j < keys.len() implies keys@[j] == model.keys()[j] by {
            assert(as_ints(queued@)[j] == queued@[j] as int);
        }
    }
    let order = sort_by_priority(&keys);
    proof {
        priority_order_is_sorted(keys@, keys@.len());
        model.ranked_is_sound();
    }
    let mut ranked: Vec<usize> = Vec::new();
    let mut data: Vec<&U> = Vec::new();
    let mut r: usize = 0;
    while r < order.len()
        invariant
            r <= order.len(),
            order.len() == queued.len(),
            users@ == model.users,
            ranked.len() == r,
            data.len() == r,
            as_ints(queued@) == model.queued(),
            as_ints(order@) == priority_order(model.keys(), model.keys().len()),
            forall|j: int| 0 <= j < order.len() ==> 0 <= #[trigger] as_ints(order@)[j] < queued.len(),
            forall|j: int| 0 <= j < queued.len() ==> #[trigger] queued@[j] < users.len(),
            forall|j: int| 0 <= j < r ==> #[trigger] ranked@[j] as int == model.ranked()[j],
            forall|j: int| 0 <= j < r ==> *(#[trigger] data@[j]) == model.ranked_data()[j],
        decreases order.len() - r,
    {
        assert(as_ints(order@)[r as int] == order@[r as int] as int);
        let at: usize = queued[order[r]];
        assert(as_ints(queued@)[order@[r as int] as int] == at as int);
        ranked.push(at);
        data.push(&users[at].user_data);
        r = r + 1;
    }
    assert(as_ints(ranked@) =~= model.ranked());
    assert(referred(data@) =~= model.ranked_data());
    let formed = form_groups(&data, store.lobby_size());
    let ghost gs = groups(acceptance(model.ranked_data()), model.ranked().len() as int, model.size as int);
    assert(groups_view(formed@) == gs);
    proof {
        groups_are_lobbies(
            acceptance(model.ranked_data()),
            model.ranked().len() as int,
            model.size as int,
            0,
            Set::empty(),
        );
    }
    let mut lobbies: Vec<Vec<Entity>> = Vec::new();
    let mut l: usize = 0;
    while l < formed.len()
        invariant
            l <= formed.len(),
            users@ == model.users,
            lobbies.len() == l,
            groups_view(formed@) == gs,
            gs == groups(acceptance(model.ranked_data()), model.ranked().len() as int, model.size as int),
            as_ints(ranked@) == model.ranked(),
            forall|j: int| 0 <= j < ranked.len() ==> #[trigger] ranked@[j] < users.len(),
            forall|k: int|
                0 <= k < gs.len() ==> crate::grouping::is_lobby(
                    acceptance(model.ranked_data()),
                    model.ranked().len() as int,
                    model.size as int,
                    #[trigger] gs[k],
                ),
            forall|j: int| 0 <= j < l ==> (#[trigger] lobbies@[j])@ == model.plan()[j],
        decreases formed.len() - l,
    {
        let group = &formed[l];
        assert(gs[l as int] == as_ints(group@));
        let mut members: Vec<Entity> = Vec::new();
        let mut m: usize = 0;
        while m < group.len()
            invariant
                m <= group.len(),
                users@ == model.users,
                members.len() == m,
                gs[l as int] == as_ints(group@),
                l < gs.len(),
                gs == groups(acceptance(model.ranked_data()), model.ranked().len() as int, model.size as int),
                as_ints(ranked@) == model.ranked(),
                forall|j: int| 0 <= j < ranked.len() ==> #[trigger] ranked@[j] < users.len(),
                forall|j: int| 0 <= j < group.len() ==> 0 <= #[trigger] gs[l as int][j] < ranked.len(),
                forall|j: int| 0 <= j < m ==> #[trigger] members@[j] == model.plan()[l as int][j],
            decreases group.len() - m,
        {
            assert(gs[l as int][m as int] == group@[m as int] as int);
            let rank: usize = group[m];
            assert(as_ints(ranked@)[rank as int] == ranked@[rank as int] as int);
            members.push(users[ranked[rank]].entity);
            assert(model.plan()[l as int][m as int] == model.users[model.ranked()[gs[l as int][m as int]]].entity);
            m = m + 1;
        }
        assert(members@ =~= model.plan()[l as int]);
        lobbies.push(members);
        l = l + 1;
    }
    assert(lobbies_view(lobbies@) =~= model.plan());
    lobbies
}

impl<U, S, P, C> Model<U, S, P, C> {
    /// The store after one signal to the queue.
    pub open spec fn after_signal(self, signal: QueueSignal<U, C>) -> Self {
        match signal {
            QueueSignal::Join { connection, user_data, account } => self.joined(account, user_data, connection),
            QueueSignal::Accept { account } => self.accepted(account),
            QueueSignal::Leave { account } => self.left(account),
        }
    }

    /// The store after `signals`, taken in turn.
    pub open spec fn after_signals(self, signals: Seq<QueueSignal<U, C>>) -> Self
        decreases signals.len(),
    {
        if signals.len() == 0 {
            self
        } else {
            self.after_signals(signals.drop_last()).after_signal(signals.last())
        }
    }

    /// The entities of the participants that `signals` add, in turn.
    pub open spec fn admitted(self, signals: Seq<QueueSignal<U, C>>) -> Seq<Entity>
        decreases signals.len(),
    {
        if signals.len() == 0 {
            Seq::empty()
        } else {
            let before = self.after_signals(signals.drop_last());
            let rest = self.admitted(signals.drop_last());
            match signals.last() {
                QueueSignal::Join { account, .. } => if before.admits(account) {
                    rest.push(Entity { bits: before.next })
                } else {
                    rest
                },
                _ => rest,
            }
        }
    }

    /// The store after the reconnects `signals`, taken in turn.
    pub open spec fn after_reconnects(self, signals: Seq<ReconnectSignal<C>>) -> Self
        decreases signals.len(),
    {
        if signals.len() == 0 {
            self
        } else {
            self.after_reconnects(signals.drop_last()).reconnected(signals.last().account, signals.last().connection)
        }
    }

    /// Signals to the queue keep the invariant.
    pub proof fn after_signals_keeps_wf(self, signals: Seq<QueueSignal<U, C>>)
        requires
            self.wf(),
        ensures
            self.after_signals(signals).wf(),
        decreases signals.len(),
    {
        if signals.len() > 0 {
            self.after_signals_keeps_wf(signals.drop_last());
            let before = self.after_signals(signals.drop_last());
            match signals.last() {
                QueueSignal::Join { connection, user_data, account } => {
                    before.joined_keeps_wf(account, user_data, connection);
                },
                QueueSignal::Accept { account } => {
                    before.accepted_keeps_wf(account);
                },
                QueueSignal::Leave { account } => {
                    before.left_keeps_wf(account);
                },
            }
        }
    }
}

impl<U, S, P: UserState<Shared = S>, C> Model<U, S, P, C> {
    /// The store after the session at place `k` has been started, if it
    /// starts now.
    pub open spec fn initiated(self, k: int) -> Self {
        if self.starts(k) {
            let started = P::started(self.sessions[k].state.shared, self.size);
            self.begun(k, started.shared, started.states)
        } else {
            self
        }
    }

    /// The store after each of the first `n` sessions that starts now has
    /// been started.
    pub open spec fn initiated_below(self, n: int) -> Self
        decreases n,
    {
        if n <= 0 {
            self
        } else {
            self.initiated_below(n - 1).initiated(n - 1)
        }
    }

    /// The sessions among the first `n` that start now.
    pub open spec fn starting_below(self, n: int) -> Seq<Entity>
        decreases n,
    {
        if n <= 0 {
            Seq::empty()
        } else {
            let rest = self.starting_below(n - 1);
            if self.initiated_below(n - 1).starts(n - 1) {
                rest.push(self.sessions[n - 1].entity)
            } else {
                rest
            }
        }
    }
}

impl<U, S, P: UserState<Shared = S>, C> Model<U, S, P, C> {
    /// A session becomes active once: starting the sessions again right away
    /// changes nothing.
    pub proof fn session_starts_once(self, k: int)
        requires
            0 <= k < self.sessions.len(),
        ensures
            self.initiated(k).initiated(k) == self.initiated(k),
            self.starts(k) ==> self.initiated(k).sessions[k].accepted,
            self.same_frame(self.initiated(k)),
    {
        if self.starts(k) {
            let started = P::started(self.sessions[k].state.shared, self.size);
            self.begun_session_is_active(k, started.shared, started.states);
        }
    }
}

/// Applies the signals to the queue in turn: a join adds a participant
/// unless the account participates already, a consent is recorded, a leave
/// removes the participant unless its session is active. The result lists
/// the new participants, so that they can be told that they are queued.
pub fn process_queue<U, S, P, C>(store: &mut Store<U, S, P, C>, signals: Vec<QueueSignal<U, C>>) -> (joined: Vec<
    Entity,
>)
    requires
        old(store).wf(),
    ensures
        final(store).wf(),
        final(store)@ == old(store)@.after_signals(signals@),
        joined@ == old(store)@.admitted(signals@),
{
    let ghost start = store@;
    let mut joined: Vec<Entity> = Vec::new();
    for signal in it: signals
        invariant
            it.seq() == signals@,
            store.wf(),
            store@ == start.after_signals(signals@.take(it.index() as int)),
            joined@ == start.admitted(signals@.take(it.index() as int)),
    {
        proof {
            let longer = signals@.take(it.index() + 1);
            assert(longer.drop_last() =~= signals@.take(it.index() as int));
            assert(longer.last() == signal);
        }
        match signal {
            QueueSignal::Join { connection, user_data, account } => {
                match store.join(account, user_data, connection) {
                    Some(entity) => {
                        joined.push(entity);
                    },
                    None => {},
                }
            },
            QueueSignal::Accept { account } => {
                let _ = store.accept(&account);
            },
            QueueSignal::Leave { account } => {
                let _ = store.leave(&account);
            },
        }
    }
    assert(signals@.take(signals@.len() as int) =~= signals@);
    joined
}

/// Applies the reconnects in turn: the participant of a known account that is
/// placed in a lobby gets the new connection; nothing else changes.
pub fn reconnect<U, S, P, C>(store: &mut Store<U, S, P, C>, signals: Vec<ReconnectSignal<C>>)
    requires
        old(store).wf(),
    ensures
        final(store).wf(),
        final(store)@ == old(store)@.after_reconnects(signals@),
{
    let ghost start = store@;
    for signal in it: signals
        invariant
            it.seq() == signals@,
            store.wf(),
            store@ == start.after_reconnects(signals@.take(it.index() as int)),
    {
        proof {
            let longer = signals@.take(it.index() + 1);
            assert(longer.drop_last() =~= signals@.take(it.index() as int));
            assert(longer.last() == signal);
        }
        let ReconnectSignal { connection, account } = signal;
        let _ = store.reconnect(&account, connection);
    }
    assert(signals@.take(signals@.len() as int) =~= signals@);
}

/// Initializes a new session from each lobby whose members have all
/// consented: the session becomes active, once, and every member gets its
/// state. The result lists the sessions that became active.
pub fn init_session<U, S, P: UserState<Shared = S>, C>(store: &mut Store<U, S, P, C>) -> (started: Vec<Entity>)
    requires
        old(store).wf(),
    ensures
        final(store).wf(),
        final(store)@ == old(store)@.initiated_below(old(store)@.sessions.len() as int),
        started@ == old(store)@.starting_below(old(store)@.sessions.len() as int),
{
    let ghost start = store@;
    let n: usize = store.sessions().len();
    let mut started: Vec<Entity> = Vec::new();
    let mut k: usize = 0;
    while k < n
        invariant
            k <= n,
            n == start.sessions.len(),
            store.wf(),
            store@.sessions.len() == n,
            forall|j: int| 0 <= j < n ==> (#[trigger] store@.sessions[j]).entity == start.sessions[j].entity,
            store@ == start.initiated_below(k as int),
            started@ == start.starting_below(k as int),
        decreases n - k,
    {
        if store.activate(k) {
            started.push(store.sessions()[k].entity);
        }
        k = k + 1;
    }
    started
}

/// Why matchmaking formed no lobby.
#[derive(Clone, Copy, Debug, PartialEq, Eq, Structural)]
pub enum MatchmakeError {
    /// The operating system gave no random seed.
    NoSeed,
}

/// `rand::rand_core::OsError`, the error of the operating system's random
/// source. Nothing is known of what it holds.
#[verifier::external_type_specification]
#[verifier::external_body]
pub struct ExOsError(rand::rand_core::OsError);

/// `rand::rngs::OsRng::try_fill_bytes` on 32 bytes: the bytes that the
/// operating system's random source gave, or its error. Nothing is claimed of
/// the bytes.
#[verifier::external_body]
fn os_seed() -> Result<[u8; 32], rand::rand_core::OsError> {
    let mut seed = [0u8; 32];
    match rand::rngs::OsRng.try_fill_bytes(&mut seed) {
        Ok(()) => Ok(seed),
        Err(e) => Err(e),
    }
}

/// Forms the first of the planned `lobbies`, one for each of `seeds`, as long
/// as entities are left, and returns those that formed.
fn form_planned<U: UserData, S: SharedState, P, C>(
    store: &mut Store<U, S, P, C>,
    lobbies: Vec<Vec<Entity>>,
    seeds: &Vec<[u8; 32]>,
) -> (formed: Vec<Vec<Entity>>)
    requires
        old(store).wf(),
        lobbies_view(lobbies@) == old(store)@.plan(),
    ensures
        final(store).wf(),
        final(store)@ == old(store)@.matched(seeds@),
        lobbies_view(formed@) == old(store)@.plan().take(old(store)@.formable(seeds@.len() as int)),
{
    let ghost start = store@;
    let ghost plan = start.plan();
    let mut lobbies = lobbies;
    let mut j: usize = 0;
    proof {
        start.plan_is_sound();
        assert(plan.take(0) =~= Seq::<Seq<Entity>>::empty());
        assert forall|l: int| 0 <= l < lobbies.len() implies (#[trigger] lobbies@[l])@ == plan[l] by {
            assert(lobbies_view(lobbies@)[l] == plan[l]);
        }
    }
    while j < lobbies.len() && j < seeds.len() && store.entities_left() > 0
        invariant
            j <= lobbies.len(),
            j <= seeds.len(),
            store.wf(),
            start.wf(),
            plan == start.plan(),
            plan.len() == lobbies.len(),
            forall|l: int| 0 <= l < lobbies.len() ==> (#[trigger] lobbies@[l])@ == plan[l],
            store@.size == start.size,
            store@.next == start.next + j,
            store@ == start.with_lobbies(plan.take(j as int), seeded_all::<S>(seeds@.take(j as int))),
            forall|l: int|
                0 <= l < plan.len() ==> (#[trigger] plan[l]).len() == start.size && plan[l].no_duplicates(),
            forall|l: int, t: int, m: int, w: int|
                0 <= l < t < plan.len() && 0 <= m < start.size && 0 <= w < start.size ==> #[trigger] plan[l][m]
                    != #[trigger] plan[t][w],
            forall|l: int| j <= l < plan.len() ==> store@.all_queued(#[trigger] plan[l]),
        decreases lobbies.len() - j,
    {
        let ghost before = store@;
        let shared = S::init(seeds[j]);
        let _ = store.form(&lobbies[j], shared);
        proof {
            let members = plan[j as int];
            assert forall|l: int| j + 1 <= l < plan.len() implies store@.all_queued(#[trigger] plan[l]) by {
                before.with_lobby_leaves_queued(members, shared, plan[l]);
            }
            let longer = plan.take(j + 1);
            let seeded = seeded_all::<S>(seeds@.take(j + 1));
            assert(longer.drop_last() =~= plan.take(j as int));
            assert(seeded.drop_last() =~= seeded_all::<S>(seeds@.take(j as int)));
            assert(longer.last() == members);
            assert(seeded.last() == shared);
        }
        j = j + 1;
    }
    lobbies.truncate(j);
    proof {
        assert(j == start.formable(seeds@.len() as int));
        assert(lobbies_view(lobbies@) =~= plan.take(j as int));
    }
    lobbies
}

/// Matchmaking with the seeds given: the queue is grouped, and the first
/// lobbies of the plan form, one for each seed, as long as entities are left.
/// The result lists the lobbies that formed, so that their members can be
/// told.
pub fn matchmake_with<U: UserData, S: SharedState, P, C>(store: &mut Store<U, S, P, C>, seeds: &Vec<[u8; 32]>) -> (formed:
    Vec<Vec<Entity>>)
    requires
        old(store).wf(),
    ensures
        final(store).wf(),
        final(store)@ == old(store)@.matched(seeds@),
        lobbies_view(formed@) == old(store)@.plan().take(old(store)@.formable(seeds@.len() as int)),
{
    let lobbies = plan(store);
    form_planned(store, lobbies, seeds)
}

/// Given a queue, matchmakes users into lobbies. Each session starts from a
/// state seeded with 32 bytes of the operating system's random source, which
/// is asked once for each lobby of the plan. If that source fails, no lobby
/// forms and the store is as before. Where the queue yields no lobby, the
/// source is not asked: matchmaking succeeds and leaves the store as it is.
pub fn matchmake<U: UserData, S: SharedState, P, C>(store: &mut Store<U, S, P, C>) -> (formed: Result<
    Vec<Vec<Entity>>,
    MatchmakeError,
>)
    requires
        old(store).wf(),
    ensures
        final(store).wf(),
        old(store)@.plan().len() == 0 ==> formed is Ok && final(store)@ == old(store)@,
        formed is Err ==> final(store)@ == old(store)@,
        formed matches Ok(lobbies) ==> lobbies_view(lobbies@) == old(store)@.plan().take(
            old(store)@.formable(old(store)@.plan().len() as int),
        ) && exists|seeds: Seq<[u8; 32]>|
            seeds.len() == old(store)@.plan().len() && final(store)@ == #[trigger] old(store)@.matched(seeds),
{
    let lobbies = plan(store);
    let mut seeds: Vec<[u8; 32]> = Vec::new();
    while seeds.len() < lobbies.len()
        invariant
            seeds.len() <= lobbies.len(),
            store.wf(),
            store@ == old(store)@,
            lobbies_view(lobbies@) == store@.plan(),
        decreases lobbies.len() - seeds.len(),
    {
        match os_seed() {
            Ok(seed) => {
                seeds.push(seed);
            },
            Err(_) => {
                return Err(MatchmakeError::NoSeed);
            },
        }
    }
    let formed = form_planned(store, lobbies, &seeds);
    proof {
        if old(store)@.plan().len() == 0 {
            assert(old(store)@.plan().take(old(store)@.formable(seeds@.len() as int)).len() == 0);
        }
    }
    Ok(formed)
}

} // verus!
