//! Grouping a queue into lobbies. The queue is given in priority order; each
//! user in turn anchors a lobby of the first users after its own choice, if
//! enough of them are left.

use vstd::prelude::*;
use crate::data::UserData;
use crate::order::as_ints;

verus! {

/// The positions below `n`, in ascending order, that the anchor at position
/// `c` may take into its lobby: not `c` itself, not claimed, and accepted by
/// the anchor.
pub open spec fn candidates(accepts: spec_fn(int, int) -> bool, claimed: Set<int>, c: int, n: int) -> Seq<int>
    decreases n,
{
    if n <= 0 {
        Seq::empty()
    } else {
        let rest = candidates(accepts, claimed, c, n - 1);
        if n - 1 != c && !claimed.contains(n - 1) && accepts(c, n - 1) {
            rest.push(n - 1)
        } else {
            rest
        }
    }
}

/// The lobby that the anchor at position `c` forms from a queue of `n`
/// users: itself and the first `size - 1` of its candidates. There is none
/// if the anchor is claimed already or has too few candidates.
pub open spec fn group_of(
    accepts: spec_fn(int, int) -> bool,
    n: int,
    size: int,
    claimed: Set<int>,
    c: int,
) -> Option<Seq<int>> {
    let found = candidates(accepts, claimed, c, n);
    if size >= 1 && !claimed.contains(c) && found.len() >= size - 1 {
        Some(seq![c] + found.take(size - 1))
    } else {
        None
    }
}

/// The lobbies formed by the anchors from position `c` on, in the order in
/// which they form, when `claimed` are the positions that earlier lobbies
/// took.
pub open spec fn groups_from(
    accepts: spec_fn(int, int) -> bool,
    n: int,
    size: int,
    c: int,
    claimed: Set<int>,
) -> Seq<Seq<int>>
    decreases n - c,
{
    if c < 0 || c >= n {
        Seq::empty()
    } else {
        match group_of(accepts, n, size, claimed, c) {
            Some(g) => seq![g] + groups_from(accepts, n, size, c + 1, claimed.union(g.to_set())),
            None => groups_from(accepts, n, size, c + 1, claimed),
        }
    }
}

/// The lobbies formed from a queue of `n` users.
pub open spec fn groups(accepts: spec_fn(int, int) -> bool, n: int, size: int) -> Seq<Seq<int>> {
    groups_from(accepts, n, size, 0, Set::empty())
}

/// Whom each user of `queue` accepts, by position.
pub open spec fn acceptance<U: UserData>(queue: Seq<U>) -> spec_fn(int, int) -> bool {
    |a: int, b: int| queue[a].accepts(&queue[b])
}

/// The users that a list refers to.
pub open spec fn referred<U>(queue: Seq<&U>) -> Seq<U> {
    queue.map_values(|u: &U| *u)
}

/// Lobbies of positions as the numbers they are.
pub open spec fn groups_view(formed: Seq<Vec<usize>>) -> Seq<Seq<int>> {
    formed.map_values(|g: Vec<usize>| as_ints(g@))
}

/// Whether `g` is a lobby of `size` members of a queue of `n` users: the
/// members are positions of the queue, no position occurs twice, and the
/// anchor, which comes first, accepts every other member.
pub open spec fn is_lobby(accepts: spec_fn(int, int) -> bool, n: int, size: int, g: Seq<int>) -> bool {
    &&& g.len() == size
    &&& size >= 1
    &&& forall|i: int| 0 <= i < g.len() ==> 0 <= #[trigger] g[i] < n
    &&& forall|i: int, j: int| 0 <= i < j < g.len() ==> #[trigger] g[i] != #[trigger] g[j]
    &&& forall|i: int| 1 <= i < g.len() ==> accepts(g[0], #[trigger] g[i])
}

/// Whether position `x` is a member of one of the lobbies `gs`.
pub open spec fn is_grouped(gs: Seq<Seq<int>>, x: int) -> bool {
    exists|k: int, i: int| 0 <= k < gs.len() && 0 <= i < gs[k].len() && #[trigger] gs[k][i] == x
}

/// The candidates of an anchor are positions of the queue other than the
/// anchor, unclaimed and accepted by it, in ascending order.
pub proof fn candidates_are_sound(accepts: spec_fn(int, int) -> bool, claimed: Set<int>, c: int, n: int)
    ensures
        candidates(accepts, claimed, c, n).len() <= (if n < 0 { 0 } else { n }),
        forall|i: int|
            0 <= i < candidates(accepts, claimed, c, n).len() ==> {
                let x = #[trigger] candidates(accepts, claimed, c, n)[i];
                0 <= x < n && x != c && !claimed.contains(x) && accepts(c, x)
            },
        forall|i: int, j: int|
            0 <= i < j < candidates(accepts, claimed, c, n).len() ==> #[trigger] candidates(
                accepts,
                claimed,
                c,
                n,
            )[i] < #[trigger] candidates(accepts, claimed, c, n)[j],
    decreases n,
{
    if n > 0 {
        candidates_are_sound(accepts, claimed, c, n - 1);
    }
}

/// What an anchor forms is a lobby, and none of its members was claimed.
pub proof fn group_is_lobby(accepts: spec_fn(int, int) -> bool, n: int, size: int, claimed: Set<int>, c: int)
    requires
        0 <= c < n,
        group_of(accepts, n, size, claimed, c).is_some(),
    ensures
        is_lobby(accepts, n, size, group_of(accepts, n, size, claimed, c).unwrap()),
        group_of(accepts, n, size, claimed, c).unwrap()[0] == c,
        forall|i: int|
            0 <= i < size ==> !claimed.contains(#[trigger] group_of(accepts, n, size, claimed, c).unwrap()[i]),
{
    let found = candidates(accepts, claimed, c, n);
    let g = group_of(accepts, n, size, claimed, c).unwrap();
    candidates_are_sound(accepts, claimed, c, n);
    assert forall|i: int| 1 <= i < g.len() implies #[trigger] g[i] == found[i - 1] by {}
    assert forall|i: int, j: int| 0 <= i < j < g.len() implies #[trigger] g[i] != #[trigger] g[j] by {
        if i > 0 {
            assert(found[i - 1] < found[j - 1]);
        } else {
            assert(g[j] == found[j - 1]);
        }
    }
}

/// Every lobby that forms is a lobby: it has `size` distinct members, and its
/// anchor accepts each of the others. No member of it was claimed before.
pub proof fn groups_are_lobbies(accepts: spec_fn(int, int) -> bool, n: int, size: int, c: int, claimed: Set<int>)
    requires
        0 <= c,
    ensures
        forall|k: int|
            0 <= k < groups_from(accepts, n, size, c, claimed).len() ==> is_lobby(
                accepts,
                n,
                size,
                #[trigger] groups_from(accepts, n, size, c, claimed)[k],
            ),
        forall|k: int, i: int|
            0 <= k < groups_from(accepts, n, size, c, claimed).len() && 0 <= i < size ==> !claimed.contains(
                #[trigger] groups_from(accepts, n, size, c, claimed)[k][i],
            ),
    decreases n - c,
{
    if c < n {
        let all = groups_from(accepts, n, size, c, claimed);
        match group_of(accepts, n, size, claimed, c) {
            Some(g) => {
                let after = claimed.union(g.to_set());
                let rest = groups_from(accepts, n, size, c + 1, after);
                group_is_lobby(accepts, n, size, claimed, c);
                groups_are_lobbies(accepts, n, size, c + 1, after);
                assert(all == seq![g] + rest);
                assert forall|k: int| 0 <= k < all.len() implies is_lobby(accepts, n, size, #[trigger] all[k]) by {
                    if k > 0 {
                        assert(all[k] == rest[k - 1]);
                    }
                }
                assert forall|k: int, i: int| 0 <= k < all.len() && 0 <= i < size implies !claimed.contains(
                    #[trigger] all[k][i],
                ) by {
                    if k > 0 {
                        assert(all[k] == rest[k - 1]);
                        assert(!after.contains(rest[k - 1][i]));
                    }
                }
            },
            None => {
                groups_are_lobbies(accepts, n, size, c + 1, claimed);
                assert(all == groups_from(accepts, n, size, c + 1, claimed));
            },
        }
    }
}

/// No position is a member of two lobbies.
pub proof fn groups_are_disjoint(accepts: spec_fn(int, int) -> bool, n: int, size: int, c: int, claimed: Set<int>)
    requires
        0 <= c,
    ensures
        forall|k: int, l: int, i: int, j: int|
            0 <= k < l < groups_from(accepts, n, size, c, claimed).len() && 0 <= i < size && 0 <= j < size
                ==> #[trigger] groups_from(accepts, n, size, c, claimed)[k][i] != #[trigger] groups_from(
                accepts,
                n,
                size,
                c,
                claimed,
            )[l][j],
    decreases n - c,
{
    if c < n {
        let all = groups_from(accepts, n, size, c, claimed);
        match group_of(accepts, n, size, claimed, c) {
            Some(g) => {
                let after = claimed.union(g.to_set());
                let rest = groups_from(accepts, n, size, c + 1, after);
                group_is_lobby(accepts, n, size, claimed, c);
                groups_are_lobbies(accepts, n, size, c + 1, after);
                groups_are_disjoint(accepts, n, size, c + 1, after);
                assert(all == seq![g] + rest);
                assert forall|k: int, l: int, i: int, j: int|
                    0 <= k < l < all.len() && 0 <= i < size && 0 <= j < size implies #[trigger] all[k][i]
                    != #[trigger] all[l][j] by {
                    assert(all[l] == rest[l - 1]);
                    if k > 0 {
                        assert(all[k] == rest[k - 1]);
                    } else {
                        assert(all[0] == g);
                        assert(g.contains(g[i]));
                        assert(after.contains(g[i]));
                        assert(!after.contains(rest[l - 1][j]));
                    }
                }
            },
            None => {
                groups_are_disjoint(accepts, n, size, c + 1, claimed);
                assert(all == groups_from(accepts, n, size, c + 1, claimed));
            },
        }
    }
}

/// If an unclaimed anchor at or behind position `c` has candidates enough
/// for a lobby, a lobby forms.
pub proof fn some_group_forms(
    accepts: spec_fn(int, int) -> bool,
    n: int,
    size: int,
    c: int,
    claimed: Set<int>,
    anchor: int,
)
    requires
        0 <= c <= anchor < n,
        size >= 1,
        !claimed.contains(anchor),
        candidates(accepts, claimed, anchor, n).len() >= size - 1,
    ensures
        groups_from(accepts, n, size, c, claimed).len() >= 1,
    decreases n - c,
{
    if group_of(accepts, n, size, claimed, c).is_none() {
        some_group_forms(accepts, n, size, c + 1, claimed, anchor);
    }
}

/// The positions that are claimed once the anchors from position `c` on
/// have had their turn.
pub open spec fn claimed_after(
    accepts: spec_fn(int, int) -> bool,
    n: int,
    size: int,
    c: int,
    claimed: Set<int>,
) -> Set<int>
    decreases n - c,
{
    if c < 0 || c >= n {
        claimed
    } else {
        match group_of(accepts, n, size, claimed, c) {
            Some(g) => claimed_after(accepts, n, size, c + 1, claimed.union(g.to_set())),
            None => claimed_after(accepts, n, size, c + 1, claimed),
        }
    }
}

/// What is claimed stays claimed.
pub proof fn claimed_stays(accepts: spec_fn(int, int) -> bool, n: int, size: int, c: int, claimed: Set<int>)
    requires
        0 <= c,
    ensures
        claimed.subset_of(claimed_after(accepts, n, size, c, claimed)),
    decreases n - c,
{
    if c < n {
        match group_of(accepts, n, size, claimed, c) {
            Some(g) => {
                claimed_stays(accepts, n, size, c + 1, claimed.union(g.to_set()));
            },
            None => {
                claimed_stays(accepts, n, size, c + 1, claimed);
            },
        }
    }
}

/// The claimed positions are those that were claimed before and the members
/// of the lobbies that formed.
pub proof fn claimed_are_grouped(accepts: spec_fn(int, int) -> bool, n: int, size: int, c: int, claimed: Set<int>)
    requires
        0 <= c,
    ensures
        forall|x: int|
            #[trigger] claimed_after(accepts, n, size, c, claimed).contains(x) <==> (claimed.contains(x)
                || is_grouped(groups_from(accepts, n, size, c, claimed), x)),
    decreases n - c,
{
    let all = groups_from(accepts, n, size, c, claimed);
    if c < n {
        match group_of(accepts, n, size, claimed, c) {
            Some(g) => {
                let after = claimed.union(g.to_set());
                let rest = groups_from(accepts, n, size, c + 1, after);
                claimed_are_grouped(accepts, n, size, c + 1, after);
                assert(all == seq![g] + rest);
                assert(claimed_after(accepts, n, size, c, claimed) == claimed_after(accepts, n, size, c + 1, after));
                assert(all[0] == g);
                assert forall|x: int| #[trigger]
                    claimed_after(accepts, n, size, c, claimed).contains(x) <==> (claimed.contains(x)
                        || is_grouped(all, x)) by {
                    let end = claimed_after(accepts, n, size, c + 1, after);
                    assert(end.contains(x) <==> (after.contains(x) || is_grouped(rest, x)));
                    assert(after.contains(x) <==> (claimed.contains(x) || g.contains(x)));
                    if g.contains(x) {
                        let i = choose|i: int| 0 <= i < g.len() && g[i] == x;
                        assert(0 <= 0 < all.len() && 0 <= i < all[0].len() && all[0][i] == x);
                        assert(is_grouped(all, x));
                    }
                    if is_grouped(rest, x) {
                        let (k, i) = choose|k: int, i: int|
                            0 <= k < rest.len() && 0 <= i < rest[k].len() && #[trigger] rest[k][i] == x;
                        assert(all[k + 1] == rest[k]);
                        assert(0 <= k + 1 < all.len() && 0 <= i < all[k + 1].len() && all[k + 1][i] == x);
                        assert(is_grouped(all, x));
                    }
                    if is_grouped(all, x) {
                        let (k, i) = choose|k: int, i: int|
                            0 <= k < all.len() && 0 <= i < all[k].len() && #[trigger] all[k][i] == x;
                        if k == 0 {
                            assert(g[i] == x);
                            assert(g.contains(x));
                        } else {
                            assert(all[k] == rest[k - 1]);
                            assert(0 <= k - 1 < rest.len() && 0 <= i < rest[k - 1].len() && rest[k - 1][i] == x);
                            assert(is_grouped(rest, x));
                        }
                    }
                }
            },
            None => {
                claimed_are_grouped(accepts, n, size, c + 1, claimed);
                assert(all == groups_from(accepts, n, size, c + 1, claimed));
                assert(claimed_after(accepts, n, size, c, claimed) == claimed_after(
                    accepts,
                    n,
                    size,
                    c + 1,
                    claimed,
                ));
            },
        }
    } else {
        assert forall|x: int| !is_grouped(all, x) by {}
    }
}

/// The more positions are claimed, the fewer candidates an anchor has.
pub proof fn candidates_shrink(
    accepts: spec_fn(int, int) -> bool,
    claimed: Set<int>,
    more: Set<int>,
    c: int,
    n: int,
)
    requires
        claimed.subset_of(more),
    ensures
        candidates(accepts, more, c, n).len() <= candidates(accepts, claimed, c, n).len(),
    decreases n,
{
    if n > 0 {
        candidates_shrink(accepts, claimed, more, c, n - 1);
    }
}

/// Once the anchors from position `c` on have had their turn, none of them
/// that is unclaimed has candidates enough for a lobby among the unclaimed.
pub proof fn no_lobby_is_left_from(
    accepts: spec_fn(int, int) -> bool,
    n: int,
    size: int,
    c: int,
    claimed: Set<int>,
    anchor: int,
)
    requires
        0 <= c <= anchor < n,
        size >= 1,
        !claimed_after(accepts, n, size, c, claimed).contains(anchor),
    ensures
        candidates(accepts, claimed_after(accepts, n, size, c, claimed), anchor, n).len() < size - 1,
    decreases n - c,
{
    let end = claimed_after(accepts, n, size, c, claimed);
    match group_of(accepts, n, size, claimed, c) {
        Some(g) => {
            let after = claimed.union(g.to_set());
            claimed_stays(accepts, n, size, c + 1, after);
            if anchor == c {
                assert(g[0] == c);
                assert(g.contains(c));
                assert(after.contains(c));
            } else {
                no_lobby_is_left_from(accepts, n, size, c + 1, after, anchor);
            }
        },
        None => {
            claimed_stays(accepts, n, size, c + 1, claimed);
            if anchor == c {
                candidates_shrink(accepts, claimed, end, c, n);
            } else {
                no_lobby_is_left_from(accepts, n, size, c + 1, claimed, anchor);
            }
        },
    }
}

/// After grouping no lobby is left to form: a user that is in no lobby has
/// not candidates enough among the users that are in none.
pub proof fn no_lobby_is_left(accepts: spec_fn(int, int) -> bool, n: int, size: int, anchor: int)
    requires
        0 <= anchor < n,
        size >= 1,
        !is_grouped(groups(accepts, n, size), anchor),
    ensures
        candidates(accepts, Set::new(|x: int| is_grouped(groups(accepts, n, size), x)), anchor, n).len() < size
            - 1,
{
    let end = claimed_after(accepts, n, size, 0, Set::empty());
    let grouped = Set::new(|x: int| is_grouped(groups(accepts, n, size), x));
    claimed_are_grouped(accepts, n, size, 0, Set::empty());
    assert(end =~= grouped);
    no_lobby_is_left_from(accepts, n, size, 0, Set::empty(), anchor);
}

/// An anchor has at least as many candidates as there are unclaimed
/// positions that it accepts: `others` lists some of them in ascending
/// order.
pub proof fn candidates_are_all(
    accepts: spec_fn(int, int) -> bool,
    claimed: Set<int>,
    c: int,
    n: int,
    others: Seq<int>,
)
    requires
        forall|i: int|
            0 <= i < others.len() ==> 0 <= #[trigger] others[i] < n && others[i] != c && !claimed.contains(
                others[i],
            ) && accepts(c, others[i]),
        forall|i: int, j: int| 0 <= i < j < others.len() ==> #[trigger] others[i] < #[trigger] others[j],
    ensures
        candidates(accepts, claimed, c, n).len() >= others.len(),
    decreases n,
{
    if others.len() > 0 {
        let last = others[others.len() - 1];
        if last == n - 1 {
            let fewer = others.drop_last();
            assert forall|i: int| 0 <= i < fewer.len() implies 0 <= #[trigger] fewer[i] < n - 1 && fewer[i] != c
                && !claimed.contains(fewer[i]) && accepts(c, fewer[i]) by {
                assert(fewer[i] == others[i]);
                assert(others[i] < others[others.len() - 1]);
            }
            assert forall|i: int, j: int| 0 <= i < j < fewer.len() implies #[trigger] fewer[i] < #[trigger] fewer[j] by {
                assert(others[i] < others[j]);
            }
            candidates_are_all(accepts, claimed, c, n - 1, fewer);
        } else {
            assert forall|i: int| 0 <= i < others.len() implies 0 <= #[trigger] others[i] < n - 1 by {
                if i < others.len() - 1 {
                    assert(others[i] < others[others.len() - 1]);
                }
            }
            candidates_are_all(accepts, claimed, c, n - 1, others);
        }
    }
}

/// Where some user accepts enough others for a lobby, a lobby forms:
/// `others` lists, in ascending order, `size - 1` positions other than
/// `anchor` that `anchor` accepts.
pub proof fn a_full_lobby_forms(accepts: spec_fn(int, int) -> bool, n: int, size: int, anchor: int, others: Seq<int>)
    requires
        size >= 1,
        0 <= anchor < n,
        others.len() == size - 1,
        forall|i: int|
            0 <= i < others.len() ==> 0 <= #[trigger] others[i] < n && others[i] != anchor && accepts(
                anchor,
                others[i],
            ),
        forall|i: int, j: int| 0 <= i < j < others.len() ==> #[trigger] others[i] < #[trigger] others[j],
    ensures
        groups(accepts, n, size).len() >= 1,
        is_lobby(accepts, n, size, groups(accepts, n, size)[0]),
{
    candidates_are_all(accepts, Set::empty(), anchor, n, others);
    some_group_forms(accepts, n, size, 0, Set::empty(), anchor);
    groups_are_lobbies(accepts, n, size, 0, Set::empty());
}

/// The lobbies formed from a queue: each is a lobby that its anchor accepts,
/// no user is in two of them, and where some user has candidates enough for
/// a lobby, at least one lobby forms.
pub proof fn grouping_law(accepts: spec_fn(int, int) -> bool, n: int, size: int)
    ensures
        forall|k: int|
            0 <= k < groups(accepts, n, size).len() ==> is_lobby(accepts, n, size, #[trigger] groups(
                accepts,
                n,
                size,
            )[k]),
        forall|k: int, l: int, i: int, j: int|
            0 <= k < l < groups(accepts, n, size).len() && 0 <= i < size && 0 <= j < size ==> #[trigger] groups(
                accepts,
                n,
                size,
            )[k][i] != #[trigger] groups(accepts, n, size)[l][j],
        forall|anchor: int|
            0 <= anchor < n && size >= 1 && #[trigger] candidates(accepts, Set::empty(), anchor, n).len() >= size
                - 1 ==> groups(accepts, n, size).len() >= 1,
{
    groups_are_lobbies(accepts, n, size, 0, Set::empty());
    groups_are_disjoint(accepts, n, size, 0, Set::empty());
    assert forall|anchor: int|
        0 <= anchor < n && size >= 1 && #[trigger] candidates(accepts, Set::empty(), anchor, n).len() >= size
            - 1 implies groups(accepts, n, size).len() >= 1 by {
        some_group_forms(accepts, n, size, 0, Set::empty(), anchor);
    }
}

/// The positions that lobbies have claimed so far, in a
/// `hashbrown::HashSet`. The set is taken on trust: of what it holds only
/// `taken_members` speaks, and only the three functions below that call it
/// say anything of that.
#[verifier::external_body]
pub struct Taken {
    inner: hashbrown::HashSet<usize>,
}

/// What the set holds.
pub uninterp spec fn taken_members(t: Taken) -> Set<usize>;

impl Taken {
    /// The claimed positions as numbers.
    pub open spec fn view(&self) -> Set<int> {
        Set::new(|x: int| 0 <= x <= usize::MAX && taken_members(*self).contains(x as usize))
    }

    /// `hashbrown::HashSet::new`: a set that holds nothing.
    #[verifier::external_body]
    pub(crate) fn none() -> (made: Taken)
        ensures
            taken_members(made) == Set::<usize>::empty(),
    {
        Taken { inner: hashbrown::HashSet::new() }
    }

    /// `hashbrown::HashSet::insert`: afterwards the set holds `x` besides what it
    /// held; the result says whether `x` is new to it.
    #[verifier::external_body]
    pub(crate) fn mark(&mut self, x: usize) -> (fresh: bool)
        ensures
            taken_members(*final(self)) == taken_members(*old(self)).insert(x),
            fresh == !taken_members(*old(self)).contains(x),
    {
        self.inner.insert(x)
    }

    /// `hashbrown::HashSet::contains`: whether the set holds `x`.
    #[verifier::external_body]
    pub(crate) fn holds(&self, x: &usize) -> (held: bool)
        ensures
            held == taken_members(*self).contains(*x),
    {
        self.inner.contains(x)
    }
}

/// The candidates of the anchor at position `c` of `queue`.
fn find_candidates<U: UserData>(queue: &Vec<&U>, taken: &Taken, c: usize) -> (found: Vec<usize>)
    requires
        c < queue.len(),
    ensures
        as_ints(found@) == candidates(acceptance(referred(queue@)), taken@, c as int, queue.len() as int),
{
    let ghost accepts = acceptance(referred(queue@));
    let mut found: Vec<usize> = Vec::new();
    let mut x: usize = 0;
    assert(as_ints(found@) =~= candidates(accepts, taken@, c as int, 0));
    while x < queue.len()
        invariant
            x <= queue.len(),
            c < queue.len(),
            accepts == acceptance(referred(queue@)),
            as_ints(found@) == candidates(accepts, taken@, c as int, x as int),
        decreases queue.len() - x,
    {
        let ghost before = as_ints(found@);
        if x != c && !taken.holds(&x) && queue[c].matchmake_valid(queue[x]) {
            found.push(x);
            assert(as_ints(found@) =~= before.push(x as int));
        }
        x = x + 1;
    }
    found
}

/// Marks the members of `group` as claimed.
fn claim(taken: &mut Taken, group: &Vec<usize>)
    ensures
        final(taken)@ == old(taken)@.union(as_ints(group@).to_set()),
{
    let mut k: usize = 0;
    assert(taken@ =~= old(taken)@.union(as_ints(group@).take(0).to_set()));
    while k < group.len()
        invariant
            k <= group.len(),
            taken@ == old(taken)@.union(as_ints(group@).take(k as int).to_set()),
        decreases group.len() - k,
    {
        let ghost before = taken@;
        let _ = taken.mark(group[k]);
        proof {
            let members = as_ints(group@);
            assert(members.take(k + 1) =~= members.take(k as int).push(group@[k as int] as int));
            let longer = members.take(k + 1);
            let shorter = members.take(k as int);
            assert forall|y: int| #[trigger]
                taken@.contains(y) <==> old(taken)@.union(longer.to_set()).contains(y) by {
                if 0 <= y <= usize::MAX {
                    assert((y as usize) as int == y);
                }
                assert(before.contains(y) <==> old(taken)@.contains(y) || shorter.to_set().contains(y));
                if shorter.contains(y) {
                    let i = choose|i: int| 0 <= i < shorter.len() && shorter[i] == y;
                    assert(longer[i] == y);
                }
                if y == group@[k as int] as int {
                    assert(longer[k as int] == y);
                }
                if longer.contains(y) {
                    let i = choose|i: int| 0 <= i < longer.len() && longer[i] == y;
                    if i < k {
                        assert(shorter[i] == y);
                    }
                }
            }
            assert(taken@ =~= old(taken)@.union(members.take(k + 1).to_set()));
        }
        k = k + 1;
    }
    assert(as_ints(group@).take(group.len() as int) =~= as_ints(group@));
}

/// Groups `queue`, which is in priority order, into lobbies of `size` users.
/// Each lobby lists positions of `queue`, the anchor first; the lobbies come
/// in the order of their anchors.
pub fn form_groups<U: UserData>(queue: &Vec<&U>, size: usize) -> (formed: Vec<Vec<usize>>)
    ensures
        groups_view(formed@) == groups(acceptance(referred(queue@)), queue.len() as int, size as int),
{
    let ghost accepts = acceptance(referred(queue@));
    let ghost n = queue.len() as int;
    let mut formed: Vec<Vec<usize>> = Vec::new();
    let mut taken = Taken::none();
    let mut c: usize = 0;
    assert(taken@ =~= Set::<int>::empty());
    assert(groups_view(formed@) + groups_from(accepts, n, size as int, 0, taken@) =~= groups(
        accepts,
        n,
        size as int,
    ));
    while c < queue.len()
        invariant
            c <= queue.len(),
            n == queue.len(),
            accepts == acceptance(referred(queue@)),
            groups_view(formed@) + groups_from(accepts, n, size as int, c as int, taken@) == groups(
                accepts,
                n,
                size as int,
            ),
        decreases queue.len() - c,
    {
        let ghost before = groups_view(formed@);
        let ghost claimed = taken@;
        if size >= 1 && !taken.holds(&c) {
            let found = find_candidates(queue, &taken, c);
            if found.len() >= size - 1 {
                let mut group: Vec<usize> = Vec::new();
                group.push(c);
                let mut k: usize = 0;
                while k < size - 1
                    invariant
                        size >= 1,
                        k <= size - 1,
                        found.len() >= size - 1,
                        as_ints(group@) == seq![c as int] + as_ints(found@).take(k as int),
                    decreases size - 1 - k,
                {
                    let ghost so_far = as_ints(group@);
                    group.push(found[k]);
                    assert(as_ints(group@) =~= so_far.push(found@[k as int] as int));
                    assert(as_ints(found@).take(k + 1) =~= as_ints(found@).take(k as int).push(
                        found@[k as int] as int,
                    ));
                    k = k + 1;
                }
                claim(&mut taken, &group);
                assert(group_of(accepts, n, size as int, claimed, c as int) == Some(as_ints(group@)));
                formed.push(group);
                assert(groups_view(formed@) =~= before.push(as_ints(group@)));
                assert(before.push(as_ints(group@)) + groups_from(accepts, n, size as int, c + 1, taken@)
                    =~= before + (seq![as_ints(group@)] + groups_from(
                    accepts,
                    n,
                    size as int,
                    c + 1,
                    taken@,
                )));
            } else {
                assert(group_of(accepts, n, size as int, claimed, c as int).is_none());
            }
        } else {
            assert(group_of(accepts, n, size as int, claimed, c as int).is_none());
        }
        c = c + 1;
    }
    assert(groups_view(formed@) + Seq::<Seq<int>>::empty() =~= groups_view(formed@));
    formed
}

} // verus!
