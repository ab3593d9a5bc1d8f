//! Container membership on one page: who contains whom, transitively and upwards.
use vstd::prelude::*;

use crate::model::{EditError, EditResult};
use crate::text::{decimal, owned, push_decimal, push_str, str_eq};

verus! {

/// Strictly increasing: sorted with no repeats.
pub open spec fn increasing(s: Seq<u32>) -> bool {
    forall|i: int, j: int| 0 <= i < j < s.len() ==> s[i] < s[j]
}

/// The keys of an association list, in order.
pub open spec fn keys_of<V>(entries: Seq<(u32, V)>) -> Seq<u32> {
    entries.map_values(|entry: (u32, V)| entry.0)
}

/// Shapes of one page by source ID, which of them are containers, and their direct members.
pub struct Membership {
    /// Session shape ID of each source ID, by increasing source ID.
    pub by_source: Vec<(u32, String)>,
    /// Direct members of each container, by increasing container ID; members increase too.
    pub containers: Vec<(u32, Vec<u32>)>,
    /// The structure type each shape declares, by increasing source ID.
    pub structures: Vec<(u32, String)>,
}

impl Membership {
    /// Keys increase in each list and every member list increases.
    pub open spec fn wf(&self) -> bool {
        &&& increasing(keys_of(self.by_source@))
        &&& increasing(keys_of(self.containers@))
        &&& increasing(keys_of(self.structures@))
        &&& forall|i: int| 0 <= i < self.containers@.len() ==> increasing(
            #[trigger] self.containers@[i].1@,
        )
    }

    /// `member` is a direct member of `container`.
    pub open spec fn edge(&self, container: u32, member: u32) -> bool {
        exists|i: int|
            0 <= i < self.containers@.len() && #[trigger] self.containers@[i].0 == container
                && self.containers@[i].1@.contains(member)
    }

    /// `to` lies `n >= 1` membership steps below `from`.
    pub open spec fn reach(&self, from: u32, to: u32, n: nat) -> bool
        decreases n,
    {
        if n <= 1 {
            n == 1 && self.edge(from, to)
        } else {
            exists|mid: u32| self.reach(from, mid, (n - 1) as nat) && #[trigger] self.edge(mid, to)
        }
    }

    /// `to` is a member of `from`, directly or through nested containers.
    pub open spec fn below(&self, from: u32, to: u32) -> bool {
        exists|n: nat| n >= 1 && #[trigger] self.reach(from, to, n)
    }
}

proof fn lemma_reach_step(m: &Membership, from: u32, mid: u32, to: u32, n: nat)
    requires
        n >= 1,
        m.reach(from, mid, n),
        m.edge(mid, to),
    ensures
        m.reach(from, to, n + 1),
{
    assert(m.reach(from, to, n + 1) == exists|z: u32| m.reach(from, z, n) && #[trigger] m.edge(
        z,
        to,
    ));
}

proof fn lemma_reach_closed(m: &Membership, from: u32, closed: Set<u32>, to: u32, n: nat)
    requires
        n >= 1,
        m.reach(from, to, n),
        forall|a: u32, b: u32| (a == from || closed.contains(a)) && #[trigger] m.edge(a, b)
            ==> closed.contains(b),
    ensures
        closed.contains(to),
    decreases n,
{
    if n > 1 {
        let mid = choose|mid: u32| m.reach(from, mid, (n - 1) as nat) && #[trigger] m.edge(mid, to);
        lemma_reach_closed(m, from, closed, mid, (n - 1) as nat);
    }
}

/// Position of `key` in a strictly increasing association list, if it is a key.
fn find_key<V>(entries: &Vec<(u32, V)>, key: u32) -> (result: Option<usize>)
    ensures
        match result {
            Some(i) => i < entries@.len() && entries@[i as int].0 == key,
            None => forall|i: int| 0 <= i < entries@.len() ==> #[trigger] entries@[i].0 != key,
        },
{
    let mut i: usize = 0;
    while i < entries.len()
        invariant
            i <= entries@.len(),
            forall|t: int| 0 <= t < i ==> #[trigger] entries@[t].0 != key,
        decreases entries.len() - i,
    {
        if entries[i].0 == key {
            return Some(i);
        }
        i = i + 1;
    }
    None
}

/// Inserts `x` into a strictly increasing list; says whether it was new.
fn insert_sorted(list: &mut Vec<u32>, x: u32) -> (inserted: bool)
    requires
        increasing(old(list)@),
    ensures
        increasing(final(list)@),
        final(list)@.to_set() == old(list)@.to_set().insert(x),
        inserted == !old(list)@.contains(x),
        inserted ==> final(list)@.len() == old(list)@.len() + 1,
        !inserted ==> final(list)@ == old(list)@,
{
    let mut i: usize = 0;
    while i < list.len() && list[i] < x
        invariant
            i <= list@.len(),
            increasing(list@),
            list@ == old(list)@,
            forall|t: int| 0 <= t < i ==> list@[t] < x,
        decreases list.len() - i,
    {
        i = i + 1;
    }
    if i < list.len() && list[i] == x {
        assert(list@.to_set().insert(x) =~= list@.to_set());
        return false;
    }
    let ghost before = list@;
    list.insert(i, x);
    assert(!before.contains(x)) by {
        if before.contains(x) {
            let k = choose|k: int| 0 <= k < before.len() && before[k] == x;
            if k >= i {
                assert(before[i as int] <= before[k]);
            }
        }
    }
    assert(list@.to_set() =~= before.to_set().insert(x)) by {
        assert forall|y: u32| list@.to_set().contains(y) <==> before.to_set().insert(x).contains(
            y,
        ) by {
            if list@.contains(y) {
                let k = choose|k: int| 0 <= k < list@.len() && list@[k] == y;
                if k < i {
                    assert(before[k] == y);
                } else if k > i {
                    assert(before[k - 1] == y);
                }
            }
            if before.contains(y) {
                let k = choose|k: int| 0 <= k < before.len() && before[k] == y;
                if k < i {
                    assert(list@[k] == y);
                } else {
                    assert(list@[k + 1] == y);
                }
            }
            if y == x {
                assert(list@[i as int] == x);
            }
        }
    }
    true
}

proof fn lemma_increasing_len(s: Seq<u32>)
    requires
        increasing(s),
    ensures
        s.len() <= 4294967296,
{
    if s.len() > 0 {
        assert forall|i: int| 0 <= i < s.len() implies #[trigger] s[i] >= i by {
            lemma_increasing_at_least_index(s, i);
        }
        assert(s[s.len() - 1] >= s.len() - 1);
    }
}

proof fn lemma_increasing_at_least_index(s: Seq<u32>, i: int)
    requires
        increasing(s),
        0 <= i < s.len(),
    ensures
        s[i] >= i,
    decreases i,
{
    if i > 0 {
        lemma_increasing_at_least_index(s, i - 1);
    }
}

/// The entry of `container` is the only one with that key.
proof fn lemma_unique_key(m: &Membership, i: int, j: int)
    requires
        m.wf(),
        0 <= i < m.containers@.len(),
        0 <= j < m.containers@.len(),
        m.containers@[i].0 == m.containers@[j].0,
    ensures
        i == j,
{
    let keys = keys_of(m.containers@);
    if i < j {
        assert(keys[i] < keys[j]);
    } else if j < i {
        assert(keys[j] < keys[i]);
    }
}

/// Every shape the container holds, directly or through nested containers, by increasing
/// source ID. The container itself is listed only when membership cycles back to it.
pub fn transitive_members(membership: &Membership, container: u32) -> (result: Vec<u32>)
    requires
        membership.wf(),
    ensures
        increasing(result@),
        forall|member: u32| result@.contains(member) <==> membership.below(container, member),
{
    let mut seen: Vec<u32> = Vec::new();
    let mut pending: Vec<u32> = Vec::new();
    pending.push(container);
    assert(pending@[0] == container);
    while pending.len() > 0
        invariant
            membership.wf(),
            increasing(seen@),
            forall|member: u32| #[trigger] seen@.contains(member) ==> membership.below(
                container,
                member,
            ),
            forall|x: u32| #[trigger] pending@.contains(x) ==> x == container || seen@.contains(x),
            forall|x: u32, y: u32|
                (x == container || seen@.contains(x)) && #[trigger] membership.edge(x, y)
                    ==> pending@.contains(x) || seen@.contains(y),
        decreases 4294967297 - seen@.len(), pending@.len(),
    {
        proof {
            lemma_increasing_len(seen@);
        }
        let ghost seen0 = seen@;
        let ghost pending0 = pending@;
        let current = pending.pop().unwrap();
        assert(pending0.contains(current));
        assert(pending0 == pending@.push(current));
        assert forall|x: u32| #[trigger] pending@.contains(x) implies pending0.contains(x) by {
            let k = choose|k: int| 0 <= k < pending@.len() && pending@[k] == x;
            assert(pending0[k] == x);
        }
        match find_key(&membership.containers, current) {
            Some(i) => {
                let direct = &membership.containers[i].1;
                assert(increasing(membership.containers@[i as int].1@));
                for j in 0..direct.len()
                    invariant
                        membership.wf(),
                        i < membership.containers@.len(),
                        membership.containers@[i as int].0 == current,
                        direct@ == membership.containers@[i as int].1@,
                        increasing(seen@),
                        current == container || seen@.contains(current),
                        seen0.subrange(0, 0).len() == 0,
                        seen@.len() >= seen0.len(),
                        seen@.len() == seen0.len() ==> pending@.len() < pending0.len(),
                        forall|y: u32| #[trigger] seen0.contains(y) ==> seen@.contains(y),
                        forall|t: int| 0 <= t < j ==> seen@.contains(#[trigger] direct@[t]),
                        forall|member: u32| #[trigger] seen@.contains(member)
                            ==> membership.below(container, member),
                        forall|x: u32| #[trigger] pending@.contains(x) ==> x == container
                            || seen@.contains(x),
                        forall|x: u32, y: u32|
                            (x == container || seen@.contains(x)) && #[trigger] membership.edge(
                                x,
                                y,
                            ) ==> x == current || pending@.contains(x) || seen@.contains(y),
                {
                    let member = direct[j];
                    let ghost seen1 = seen@;
                    let ghost pending1 = pending@;
                    assert(membership.edge(current, member));
                    proof {
                        if current == container {
                            assert(membership.reach(container, member, 1));
                        } else {
                            assert(seen1.contains(current));
                            let n = choose|n: nat| n >= 1 && #[trigger] membership.reach(
                                container,
                                current,
                                n,
                            );
                            lemma_reach_step(membership, container, current, member, n);
                        }
                        assert(membership.below(container, member));
                    }
                    if insert_sorted(&mut seen, member) {
                        pending.push(member);
                        assert forall|x: u32| #[trigger] pending@.contains(x) implies x
                            == container || seen@.contains(x) by {
                            if x != member && x != container {
                                let k = choose|k: int| 0 <= k < pending@.len() && pending@[k] == x;
                                assert(pending1[k] == x);
                                assert(pending1.contains(x));
                                assert(seen1.contains(x));
                                assert(seen1.to_set().contains(x));
                                assert(seen@.to_set().contains(x));
                            } else if x == member {
                                assert(seen@.to_set().contains(member));
                            }
                        }
                    }
                    assert forall|y: u32| seen1.contains(y) implies #[trigger] seen@.contains(y) by {
                        assert(seen1.to_set().contains(y));
                        assert(seen@.to_set().contains(y));
                    }
                    assert forall|member2: u32| #[trigger] seen@.contains(member2)
                        implies membership.below(container, member2) by {
                        assert(seen@.to_set().contains(member2));
                    }
                    assert(seen@.to_set().contains(member));
                    assert forall|x: u32| #[trigger] pending1.contains(x) implies pending@.contains(
                        x,
                    ) by {
                        let k = choose|k: int| 0 <= k < pending1.len() && pending1[k] == x;
                        assert(pending@[k] == x);
                    }
                    assert forall|x: u32, y: u32|
                        (x == container || seen@.contains(x)) && #[trigger] membership.edge(x, y)
                            implies x == current || pending@.contains(x) || seen@.contains(y) by {
                        if x != container && !seen1.contains(x) {
                            assert(seen@.to_set().contains(x));
                            assert(x == member);
                            assert(pending@.last() == member);
                            assert(pending@.contains(x));
                        } else {
                            if !(x == current || pending1.contains(x)) {
                                assert(seen1.contains(y));
                            }
                        }
                    }
                }
                assert forall|y: u32| #[trigger] membership.edge(current, y) implies seen@.contains(
                    y,
                ) by {
                    let k = choose|k: int|
                        0 <= k < membership.containers@.len() && #[trigger] membership.containers@[k].0
                            == current && membership.containers@[k].1@.contains(y);
                    lemma_unique_key(membership, k, i as int);
                    let t = choose|t: int| 0 <= t < direct@.len() && direct@[t] == y;
                }
            },
            None => {
                assert forall|y: u32| !#[trigger] membership.edge(current, y) by {
                }
            },
        }
        proof {
            lemma_increasing_len(seen@);
        }
    }
    proof {
        let closed = seen@.to_set();
        assert forall|a: u32, b: u32| (a == container || closed.contains(a)) && #[trigger] membership.edge(
            a,
            b,
        ) implies closed.contains(b) by {
            assert(seen@.contains(b));
        }
        assert forall|member: u32| membership.below(container, member) implies seen@.contains(
            member,
        ) by {
            let n = choose|n: nat| n >= 1 && #[trigger] membership.reach(container, member, n);
            lemma_reach_closed(membership, container, closed, member, n);
        }
    }
    seen
}

/// `a` sorts before `b` by depth, then by container ID.
pub open spec fn depth_before(a: (usize, u32), b: (usize, u32)) -> bool {
    a.0 < b.0 || (a.0 == b.0 && a.1 < b.1)
}

pub open spec fn sorted_by_depth(s: Seq<(usize, u32)>) -> bool {
    forall|i: int, j: int| 0 <= i < j < s.len() ==> depth_before(s[i], s[j])
}

/// No container is listed twice.
pub open spec fn distinct_ids(s: Seq<(usize, u32)>) -> bool {
    forall|i: int, j: int| 0 <= i < j < s.len() ==> s[i].1 != s[j].1
}

/// Some entry names container `c`.
pub open spec fn is_owner(s: Seq<(usize, u32)>, c: u32) -> bool {
    exists|t: int| 0 <= t < s.len() && #[trigger] s[t].1 == c
}

/// Some pending entry is for shape `x`.
pub open spec fn is_pending(s: Seq<(u32, usize)>, x: u32) -> bool {
    exists|t: int| 0 <= t < s.len() && #[trigger] s[t].0 == x
}

/// The entry `e` (of depth above one) holds a shape listed one level shallower.
pub open spec fn linked(m: &Membership, s: Seq<(usize, u32)>, e: (usize, u32)) -> bool {
    exists|y: u32| #[trigger] s.contains(((e.0 - 1) as usize, y)) && m.edge(e.1, y)
}

/// Inserts `x` into a list sorted by depth then ID, at the returned position.
fn insert_by_depth(list: &mut Vec<(usize, u32)>, x: (usize, u32)) -> (pos: usize)
    requires
        sorted_by_depth(old(list)@),
        forall|i: int| 0 <= i < old(list)@.len() ==> #[trigger] old(list)@[i].1 != x.1,
    ensures
        pos <= old(list)@.len(),
        final(list)@ == old(list)@.insert(pos as int, x),
        sorted_by_depth(final(list)@),
        final(list)@.len() == old(list)@.len() + 1,
        forall|y: (usize, u32)| #[trigger] final(list)@.contains(y) <==> (old(list)@.contains(y)
            || y == x),
{
    let mut i: usize = 0;
    while i < list.len() && depth_before_exec(list[i], x)
        invariant
            i <= list@.len(),
            list@ == old(list)@,
            forall|t: int| 0 <= t < i ==> depth_before(list@[t], x),
        decreases list.len() - i,
    {
        i = i + 1;
    }
    let ghost before = list@;
    assert(forall|t: int| i <= t < before.len() ==> depth_before(x, #[trigger] before[t])) by {
        assert forall|t: int| i <= t < before.len() implies depth_before(x, #[trigger] before[t]) by {
            if t > i {
                assert(depth_before(before[i as int], before[t]));
            }
            assert(before[t].1 != x.1);
        }
    }
    list.insert(i, x);
    proof {
        before.insert_ensures(i as int, x);
    }
    assert forall|y: (usize, u32)| #[trigger] list@.contains(y) <==> (before.contains(y) || y
        == x) by {
        if list@.contains(y) {
            let k = choose|k: int| 0 <= k < list@.len() && list@[k] == y;
            if k < i {
                assert(before[k] == y);
            } else if k > i {
                assert(before[k - 1] == y);
            }
        }
        if before.contains(y) {
            let k = choose|k: int| 0 <= k < before.len() && before[k] == y;
            if k < i {
                assert(list@[k] == y);
            } else {
                assert(list@[k + 1] == y);
            }
        }
        if y == x {
            assert(list@[i as int] == x);
        }
    }
    assert forall|a: int, b: int| 0 <= a < b < list@.len() implies depth_before(
        list@[a],
        list@[b],
    ) by {
        if b < i {
        } else if b == i {
        } else if a < i {
            assert(list@[b] == before[b - 1]);
        } else if a == i {
            assert(list@[b] == before[b - 1]);
        } else {
            assert(list@[b] == before[b - 1]);
            assert(list@[a] == before[a - 1]);
        }
    }
    i
}

fn depth_before_exec(a: (usize, u32), b: (usize, u32)) -> (result: bool)
    ensures
        result == depth_before(a, b),
{
    a.0 < b.0 || (a.0 == b.0 && a.1 < b.1)
}

/// Whether a list holds `x`.
fn contains_sorted(list: &Vec<u32>, x: u32) -> (result: bool)
    ensures
        result == list@.contains(x),
{
    let mut i: usize = 0;
    while i < list.len()
        invariant
            i <= list@.len(),
            forall|t: int| 0 <= t < i ==> list@[t] != x,
        decreases list.len() - i,
    {
        if list[i] == x {
            return true;
        }
        i = i + 1;
    }
    false
}

/// Whether some entry names container `c`.
fn owns_entry(owners: &Vec<(usize, u32)>, c: u32) -> (result: bool)
    ensures
        result == is_owner(owners@, c),
{
    let mut i: usize = 0;
    while i < owners.len()
        invariant
            i <= owners@.len(),
            forall|t: int| 0 <= t < i ==> #[trigger] owners@[t].1 != c,
        decreases owners.len() - i,
    {
        if owners[i].1 == c {
            return true;
        }
        i = i + 1;
    }
    false
}

proof fn lemma_reach_prepend(m: &Membership, from: u32, mid: u32, to: u32, n: nat)
    requires
        n >= 1,
        m.edge(from, mid),
        m.reach(mid, to, n),
    ensures
        m.reach(from, to, n + 1),
    decreases n,
{
    if n == 1 {
        assert(m.reach(from, mid, 1));
        lemma_reach_step(m, from, mid, to, 1);
    } else {
        let z = choose|z: u32| m.reach(mid, z, (n - 1) as nat) && #[trigger] m.edge(z, to);
        lemma_reach_prepend(m, from, mid, z, (n - 1) as nat);
        lemma_reach_step(m, from, z, to, n);
    }
}

proof fn lemma_reach_closed_up(
    m: &Membership,
    target: u32,
    closed: Set<u32>,
    from: u32,
    x: u32,
    n: nat,
)
    requires
        n >= 1,
        m.reach(from, x, n),
        x == target || closed.contains(x),
        forall|a: u32, b: u32| (b == target || closed.contains(b)) && #[trigger] m.edge(a, b)
            ==> closed.contains(a),
    ensures
        closed.contains(from),
    decreases n,
{
    if n > 1 {
        let mid = choose|mid: u32| m.reach(from, mid, (n - 1) as nat) && #[trigger] m.edge(mid, x);
        lemma_reach_closed_up(m, target, closed, from, mid, (n - 1) as nat);
    }
}

/// A sequence without repeats, drawn from `keys`, is no longer than `keys`.
proof fn lemma_distinct_within(ids: Seq<u32>, keys: Seq<u32>)
    requires
        ids.no_duplicates(),
        forall|i: int| 0 <= i < ids.len() ==> keys.contains(#[trigger] ids[i]),
    ensures
        ids.len() <= keys.len(),
{
    broadcast use vstd::seq_lib::seq_to_set_is_finite;

    ids.unique_seq_to_set();
    keys.lemma_cardinality_of_set();
    assert forall|x: u32| ids.to_set().contains(x) implies keys.to_set().contains(x) by {
        let k = choose|k: int| 0 <= k < ids.len() && ids[k] == x;
        assert(keys.contains(ids[k]));
    }
    vstd::set_lib::lemma_len_subset(ids.to_set(), keys.to_set());
}

/// One more container fits among the owners only while some container is not yet one.
proof fn lemma_room_for_owner(owners: Seq<(usize, u32)>, keys: Seq<u32>, c: u32)
    requires
        distinct_ids(owners),
        forall|e: (usize, u32)| #[trigger] owners.contains(e) ==> keys.contains(e.1),
        keys.contains(c),
        !is_owner(owners, c),
    ensures
        owners.len() < keys.len(),
{
    let ids = Seq::new(owners.len(), |t: int| owners[t].1).push(c);
    assert forall|i: int, j: int| 0 <= i < ids.len() && 0 <= j < ids.len() && i != j implies ids[i]
        != ids[j] by {
        if i < j {
            if j == owners.len() {
                assert(owners[i].1 == ids[i]);
            }
        } else {
            if i == owners.len() {
                assert(owners[j].1 == ids[j]);
            }
        }
    }
    assert forall|i: int| 0 <= i < ids.len() implies keys.contains(#[trigger] ids[i]) by {
        if i < owners.len() {
            assert(owners.contains(owners[i]));
        }
    }
    lemma_distinct_within(ids, keys);
}

/// What holds of the owners found so far: each is a container above `member`, listed
/// once, sorted by depth then ID, depth one exactly for direct owners, and every deeper
/// one holding an owner one level shallower.
#[verifier::opaque]
pub open spec fn owners_ok(m: &Membership, member: u32, owners: Seq<(usize, u32)>) -> bool {
    &&& sorted_by_depth(owners)
    &&& distinct_ids(owners)
    &&& owners.len() <= m.containers@.len()
    &&& forall|e: (usize, u32)| #[trigger] owners.contains(e) ==> entry_ok(m, member, owners, e)
}

/// One owner entry: a container above `member`, at a depth within the list, direct exactly
/// at depth one, and holding an owner one level shallower when deeper.
#[verifier::opaque]
pub open spec fn entry_ok(m: &Membership, member: u32, owners: Seq<(usize, u32)>, e: (usize, u32)) -> bool {
    &&& keys_of(m.containers@).contains(e.1)
    &&& 1 <= e.0 <= owners.len()
    &&& m.below(e.1, member)
    &&& (e.0 == 1 ==> m.edge(e.1, member))
    &&& (e.0 > 1 ==> linked(m, owners, e))
}

/// Each pending entry is the member itself at depth zero, or an owner at its depth.
#[verifier::opaque]
pub open spec fn pending_ok(member: u32, owners: Seq<(usize, u32)>, pending: Seq<(u32, usize)>) -> bool {
    forall|t: int| 0 <= t < pending.len() ==> #[trigger] pending[t] == (member, 0usize)
        || owners.contains((pending[t].1, pending[t].0))
}

/// Every container of the member or of an owner is an owner already, or its member waits in
/// `pending`, or (when given) that member is the one being scanned.
#[verifier::opaque]
pub open spec fn frontier_ok(
    m: &Membership,
    member: u32,
    owners: Seq<(usize, u32)>,
    pending: Seq<(u32, usize)>,
    scanning: Option<u32>,
) -> bool {
    forall|c: u32, x: u32|
        (x == member || is_owner(owners, x)) && #[trigger] m.edge(c, x) ==> scanning == Some(x)
            || is_pending(pending, x) || is_owner(owners, c)
}

proof fn lemma_owner_facts(m: &Membership, member: u32, owners: Seq<(usize, u32)>, e: (usize, u32))
    requires
        owners_ok(m, member, owners),
        owners.contains(e),
    ensures
        keys_of(m.containers@).contains(e.1),
        1 <= e.0 <= owners.len(),
        m.below(e.1, member),
        e.0 == 1 ==> m.edge(e.1, member),
        e.0 > 1 ==> linked(m, owners, e),
        sorted_by_depth(owners),
        distinct_ids(owners),
        owners.len() <= m.containers@.len(),
{
    reveal(owners_ok);
    reveal(entry_ok);
}

proof fn lemma_start(m: &Membership, member: u32)
    ensures
        owners_ok(m, member, Seq::empty()),
        pending_ok(member, Seq::empty(), seq![(member, 0usize)]),
        frontier_ok(m, member, Seq::empty(), seq![(member, 0usize)], None),
{
    reveal(owners_ok);
    reveal(pending_ok);
    reveal(frontier_ok);
    assert(seq![(member, 0usize)][0].0 == member);
}

/// Taking the last pending entry leaves it as the one being scanned.
proof fn lemma_pop(
    m: &Membership,
    member: u32,
    owners: Seq<(usize, u32)>,
    pending: Seq<(u32, usize)>,
    current: u32,
    depth: usize,
)
    requires
        owners_ok(m, member, owners),
        pending_ok(member, owners, pending.push((current, depth))),
        frontier_ok(m, member, owners, pending.push((current, depth)), None),
    ensures
        pending_ok(member, owners, pending),
        frontier_ok(m, member, owners, pending, Some(current)),
        current == member && depth == 0 || owners.contains((depth, current)),
        depth <= owners.len(),
{
    reveal(pending_ok);
    reveal(frontier_ok);
    let full = pending.push((current, depth));
    assert(full[pending.len() as int] == (current, depth));
    assert forall|t: int| 0 <= t < pending.len() implies #[trigger] pending[t] == (member, 0usize)
        || owners.contains((pending[t].1, pending[t].0)) by {
        assert(full[t] == pending[t]);
    }
    assert forall|c: u32, x: u32|
        (x == member || is_owner(owners, x)) && #[trigger] m.edge(c, x) implies Some(current) == Some(
        x,
    ) || is_pending(pending, x) || is_owner(owners, c) by {
        if is_pending(full, x) && x != current {
            let t = choose|t: int| 0 <= t < full.len() && #[trigger] full[t].0 == x;
            assert(pending[t].0 == x);
        }
    }
    if !(current == member && depth == 0) {
        lemma_owner_facts(m, member, owners, (depth, current));
    }
}

/// Room for one more owner: a container that is not an owner yet.
proof fn lemma_room(m: &Membership, member: u32, owners: Seq<(usize, u32)>, k: int)
    requires
        owners_ok(m, member, owners),
        0 <= k < m.containers@.len(),
        !is_owner(owners, m.containers@[k].0),
    ensures
        owners.len() < m.containers@.len(),
{
    reveal(owners_ok);
    reveal(entry_ok);
    let keys = keys_of(m.containers@);
    assert(keys[k] == m.containers@[k].0);
    lemma_room_for_owner(owners, keys, m.containers@[k].0);
}

/// What inserting a new entry at `pos` does to membership, to owner IDs and to distinctness.
proof fn lemma_insert_entry(owners: Seq<(usize, u32)>, pos: int, entry: (usize, u32))
    requires
        0 <= pos <= owners.len(),
        distinct_ids(owners),
        !is_owner(owners, entry.1),
    ensures
        forall|y: (usize, u32)| #[trigger] owners.insert(pos, entry).contains(y) <==> (
        owners.contains(y) || y == entry),
        forall|x: u32| #[trigger] is_owner(owners.insert(pos, entry), x) <==> (is_owner(owners, x)
            || x == entry.1),
        distinct_ids(owners.insert(pos, entry)),
{
    let owners2 = owners.insert(pos, entry);
    owners.insert_ensures(pos, entry);
    assert forall|y: (usize, u32)| #[trigger] owners2.contains(y) <==> (owners.contains(y) || y
        == entry) by {
        if owners2.contains(y) {
            let t = choose|t: int| 0 <= t < owners2.len() && owners2[t] == y;
            if t < pos {
                assert(owners[t] == y);
            } else if t > pos {
                assert(owners[t - 1] == y);
            }
        }
        if owners.contains(y) {
            let t = choose|t: int| 0 <= t < owners.len() && owners[t] == y;
            if t < pos {
                assert(owners2[t] == y);
            } else {
                assert(owners2[t + 1] == y);
            }
        }
        if y == entry {
            assert(owners2[pos] == entry);
        }
    }
    assert forall|x: u32| #[trigger] is_owner(owners2, x) <==> (is_owner(owners, x) || x
        == entry.1) by {
        if is_owner(owners2, x) {
            let u = choose|u: int| 0 <= u < owners2.len() && #[trigger] owners2[u].1 == x;
            if u < pos {
                assert(owners[u].1 == x);
            } else if u > pos {
                assert(owners[u - 1].1 == x);
            }
        }
        if is_owner(owners, x) {
            let t = choose|t: int| 0 <= t < owners.len() && #[trigger] owners[t].1 == x;
            if t < pos {
                assert(owners2[t].1 == x);
            } else {
                assert(owners2[t + 1].1 == x);
            }
        }
        if x == entry.1 {
            assert(owners2[pos].1 == x);
        }
    }
    assert forall|a: int, b: int| 0 <= a < b < owners2.len() implies owners2[a].1 != owners2[b].1 by {
        if a < pos && b < pos {
        } else if a < pos && b == pos {
            assert(owners2[a] == owners[a]);
        } else if a < pos {
            assert(owners2[b] == owners[b - 1]);
        } else if a == pos {
            assert(owners2[b] == owners[b - 1]);
        } else {
            assert(owners2[b] == owners[b - 1]);
            assert(owners2[a] == owners[a - 1]);
        }
    }
}

/// The shape of the owner list: sorted, each container once, no more than there are containers.
proof fn lemma_owners_shape(m: &Membership, member: u32, owners: Seq<(usize, u32)>)
    requires
        owners_ok(m, member, owners),
    ensures
        sorted_by_depth(owners),
        distinct_ids(owners),
        owners.len() <= m.containers@.len(),
{
    reveal(owners_ok);
}

/// Recording container `c` of the scanned shape `current` as a new owner one level deeper.
proof fn lemma_add_owner(
    m: &Membership,
    member: u32,
    owners: Seq<(usize, u32)>,
    pending: Seq<(u32, usize)>,
    current: u32,
    depth: usize,
    k: int,
    pos: int,
)
    requires
        m.wf(),
        owners_ok(m, member, owners),
        pending_ok(member, owners, pending),
        frontier_ok(m, member, owners, pending, Some(current)),
        current == member && depth == 0 || owners.contains((depth, current)),
        0 <= k < m.containers@.len(),
        m.containers@[k].1@.contains(current),
        !is_owner(owners, m.containers@[k].0),
        depth < owners.len() + 1,
        depth + 1 <= usize::MAX,
        owners.len() < m.containers@.len(),
        0 <= pos <= owners.len(),
        sorted_by_depth(owners.insert(pos, ((depth + 1) as usize, m.containers@[k].0))),
    ensures
        ({
            let c = m.containers@[k].0;
            let entry = ((depth + 1) as usize, c);
            let owners2 = owners.insert(pos, entry);
            let pending2 = pending.push((c, (depth + 1) as usize));
            &&& owners_ok(m, member, owners2)
            &&& pending_ok(member, owners2, pending2)
            &&& frontier_ok(m, member, owners2, pending2, Some(current))
            &&& is_owner(owners2, c)
            &&& forall|x: u32| is_owner(owners, x) ==> is_owner(owners2, x)
            &&& forall|y: (usize, u32)| #[trigger] owners2.contains(y) <==> (owners.contains(y)
                || y == entry)
        }),
{
    let c = m.containers@[k].0;
    let entry = ((depth + 1) as usize, c);
    lemma_owners_shape(m, member, owners);
    lemma_insert_entry(owners, pos, entry);
    lemma_add_owners_ok(m, member, owners, current, depth, k, pos);
    lemma_add_pending(member, owners, pending, entry, pos);
    lemma_add_frontier(m, member, owners, pending, current, entry, pos);
}

proof fn lemma_add_owners_ok(
    m: &Membership,
    member: u32,
    owners: Seq<(usize, u32)>,
    current: u32,
    depth: usize,
    k: int,
    pos: int,
)
    requires
        owners_ok(m, member, owners),
        current == member && depth == 0 || owners.contains((depth, current)),
        0 <= k < m.containers@.len(),
        m.containers@[k].1@.contains(current),
        !is_owner(owners, m.containers@[k].0),
        depth < owners.len() + 1,
        depth + 1 <= usize::MAX,
        owners.len() < m.containers@.len(),
        0 <= pos <= owners.len(),
        sorted_by_depth(owners.insert(pos, ((depth + 1) as usize, m.containers@[k].0))),
    ensures
        owners_ok(m, member, owners.insert(pos, ((depth + 1) as usize, m.containers@[k].0))),
{
    reveal(owners_ok);
    let c = m.containers@[k].0;
    let entry = ((depth + 1) as usize, c);
    let owners2 = owners.insert(pos, entry);
    lemma_insert_entry(owners, pos, entry);
    lemma_new_entry(m, member, owners, current, depth, k, pos);
    assert forall|e: (usize, u32)| #[trigger] owners2.contains(e) implies entry_ok(
        m,
        member,
        owners2,
        e,
    ) by {
        if e != entry {
            lemma_entry_grows(m, member, owners, owners2, e);
        }
    }
}

/// An entry stays valid when the list only grows.
proof fn lemma_entry_grows(
    m: &Membership,
    member: u32,
    owners: Seq<(usize, u32)>,
    owners2: Seq<(usize, u32)>,
    e: (usize, u32),
)
    requires
        entry_ok(m, member, owners, e),
        owners.len() <= owners2.len(),
        forall|y: (usize, u32)| owners.contains(y) ==> #[trigger] owners2.contains(y),
    ensures
        entry_ok(m, member, owners2, e),
{
    reveal(entry_ok);
    if e.0 > 1 {
        let y = choose|y: u32| #[trigger] owners.contains(((e.0 - 1) as usize, y)) && m.edge(e.1, y);
        assert(owners2.contains(((e.0 - 1) as usize, y)));
    }
}

/// The entry for a container of the scanned shape, one level deeper, is valid.
proof fn lemma_new_entry(
    m: &Membership,
    member: u32,
    owners: Seq<(usize, u32)>,
    current: u32,
    depth: usize,
    k: int,
    pos: int,
)
    requires
        owners_ok(m, member, owners),
        current == member && depth == 0 || owners.contains((depth, current)),
        0 <= k < m.containers@.len(),
        m.containers@[k].1@.contains(current),
        !is_owner(owners, m.containers@[k].0),
        depth < owners.len() + 1,
        depth + 1 <= usize::MAX,
        owners.len() < m.containers@.len(),
        0 <= pos <= owners.len(),
    ensures
        entry_ok(
            m,
            member,
            owners.insert(pos, ((depth + 1) as usize, m.containers@[k].0)),
            ((depth + 1) as usize, m.containers@[k].0),
        ),
{
    let c = m.containers@[k].0;
    let entry = ((depth + 1) as usize, c);
    let owners2 = owners.insert(pos, entry);
    lemma_owners_shape(m, member, owners);
    lemma_insert_entry(owners, pos, entry);
    reveal(entry_ok);
    assert(entry.0 == depth + 1);
    assert(m.edge(c, current));
    if depth == 0 && current == member {
        assert(m.reach(c, member, 1));
    } else {
        lemma_owner_facts(m, member, owners, (depth, current));
        let n = choose|n: nat| n >= 1 && #[trigger] m.reach(current, member, n);
        lemma_reach_prepend(m, c, current, member, n);
        assert(owners2.contains(((entry.0 - 1) as usize, current)));
    }
    assert(keys_of(m.containers@)[k] == c);
}

proof fn lemma_add_pending(
    member: u32,
    owners: Seq<(usize, u32)>,
    pending: Seq<(u32, usize)>,
    entry: (usize, u32),
    pos: int,
)
    requires
        pending_ok(member, owners, pending),
        0 <= pos <= owners.len(),
        distinct_ids(owners),
        !is_owner(owners, entry.1),
    ensures
        pending_ok(member, owners.insert(pos, entry), pending.push((entry.1, entry.0))),
{
    reveal(pending_ok);
    let owners2 = owners.insert(pos, entry);
    let pending2 = pending.push((entry.1, entry.0));
    lemma_insert_entry(owners, pos, entry);
    assert forall|t: int| 0 <= t < pending2.len() implies #[trigger] pending2[t] == (member, 0usize)
        || owners2.contains((pending2[t].1, pending2[t].0)) by {
        if t < pending.len() {
            assert(pending2[t] == pending[t]);
        }
    }
}

proof fn lemma_add_frontier(
    m: &Membership,
    member: u32,
    owners: Seq<(usize, u32)>,
    pending: Seq<(u32, usize)>,
    current: u32,
    entry: (usize, u32),
    pos: int,
)
    requires
        frontier_ok(m, member, owners, pending, Some(current)),
        0 <= pos <= owners.len(),
        distinct_ids(owners),
        !is_owner(owners, entry.1),
    ensures
        frontier_ok(m, member, owners.insert(pos, entry), pending.push((entry.1, entry.0)), Some(current)),
{
    reveal(frontier_ok);
    let owners2 = owners.insert(pos, entry);
    let pending2 = pending.push((entry.1, entry.0));
    lemma_insert_entry(owners, pos, entry);
    assert(is_pending(pending2, entry.1)) by {
        assert(pending2[pending.len() as int].0 == entry.1);
    }
    assert forall|x: u32| is_pending(pending, x) implies is_pending(pending2, x) by {
        let t = choose|t: int| 0 <= t < pending.len() && #[trigger] pending[t].0 == x;
        assert(pending2[t] == pending[t]);
    }
    assert forall|c: u32, x: u32|
        (x == member || is_owner(owners2, x)) && #[trigger] m.edge(c, x) implies Some(current) == Some(
        x,
    ) || is_pending(pending2, x) || is_owner(owners2, c) by {
        if x != entry.1 {
            assert(x == member || is_owner(owners, x));
        }
    }
}

/// Once every container of the scanned shape is an owner, the scan is no longer an exception.
proof fn lemma_scanned(
    m: &Membership,
    member: u32,
    owners: Seq<(usize, u32)>,
    pending: Seq<(u32, usize)>,
    current: u32,
)
    requires
        frontier_ok(m, member, owners, pending, Some(current)),
        forall|t: int|
            0 <= t < m.containers@.len() && (#[trigger] m.containers@[t]).1@.contains(current)
                ==> is_owner(owners, m.containers@[t].0),
    ensures
        frontier_ok(m, member, owners, pending, None),
{
    reveal(frontier_ok);
    assert forall|c: u32, x: u32|
        (x == member || is_owner(owners, x)) && #[trigger] m.edge(c, x) implies None::<u32> == Some(
        x,
    ) || is_pending(pending, x) || is_owner(owners, c) by {
        if x == current {
            let i = choose|i: int|
                0 <= i < m.containers@.len() && #[trigger] m.containers@[i].0 == c
                    && m.containers@[i].1@.contains(x);
            assert(m.containers@[i].1@.contains(current));
        }
    }
}

/// Containers of `keys` without a depth in `found`.
pub open spec fn unfound(keys: Seq<u32>, found: Map<u32, nat>) -> nat
    decreases keys.len(),
{
    if keys.len() == 0 {
        0
    } else {
        unfound(keys.drop_last(), found) + if found.contains_key(keys.last()) {
            0nat
        } else {
            1nat
        }
    }
}

/// Scanning the containers from the `k`-th on for those holding `current`: each such
/// container without a depth yet gets depth `depth + 1` and waits to be scanned in turn.
pub open spec fn scan_from(
    m: &Membership,
    current: u32,
    depth: nat,
    found: Map<u32, nat>,
    pending: Seq<(u32, nat)>,
    k: int,
) -> (Map<u32, nat>, Seq<(u32, nat)>)
    decreases m.containers@.len() - k,
{
    if k < 0 || k >= m.containers@.len() {
        (found, pending)
    } else {
        let c = m.containers@[k].0;
        if m.containers@[k].1@.contains(current) && !found.contains_key(c) {
            scan_from(m, current, depth, found.insert(c, depth + 1), pending.push((c, depth + 1)), k + 1)
        } else {
            scan_from(m, current, depth, found, pending, k + 1)
        }
    }
}

/// Giving a container a depth never adds to the containers without one, and takes one away
/// when that container had none.
pub proof fn lemma_unfound_insert(keys: Seq<u32>, found: Map<u32, nat>, c: u32, v: nat)
    ensures
        unfound(keys, found.insert(c, v)) <= unfound(keys, found),
        keys.contains(c) && !found.contains_key(c) ==> unfound(keys, found.insert(c, v)) < unfound(
            keys,
            found,
        ),
    decreases keys.len(),
{
    if keys.len() > 0 {
        lemma_unfound_insert(keys.drop_last(), found, c, v);
        if keys.contains(c) && keys.last() != c {
            let t = choose|t: int| 0 <= t < keys.len() && keys[t] == c;
            assert(keys.drop_last()[t] == c);
        }
    }
}

/// A scan either finds new containers or leaves the state as it was; this is what makes the
/// discovery end.
pub proof fn lemma_scan_grows(
    m: &Membership,
    current: u32,
    depth: nat,
    found: Map<u32, nat>,
    pending: Seq<(u32, nat)>,
    k: int,
)
    ensures
        ({
            let r = scan_from(m, current, depth, found, pending, k);
            &&& unfound(keys_of(m.containers@), r.0) <= unfound(keys_of(m.containers@), found)
            &&& unfound(keys_of(m.containers@), r.0) == unfound(keys_of(m.containers@), found) ==> r
                == (found, pending)
        }),
    decreases m.containers@.len() - k,
{
    if 0 <= k < m.containers@.len() {
        let c = m.containers@[k].0;
        if m.containers@[k].1@.contains(current) && !found.contains_key(c) {
            assert(keys_of(m.containers@)[k] == c);
            lemma_unfound_insert(keys_of(m.containers@), found, c, depth + 1);
            lemma_scan_grows(
                m,
                current,
                depth,
                found.insert(c, depth + 1),
                pending.push((c, depth + 1)),
                k + 1,
            );
        } else {
            lemma_scan_grows(m, current, depth, found, pending, k + 1);
        }
    }
}

/// The discovery from a state: the containers found so far with their depths, and the shapes
/// waiting to be scanned (the last first). Yields every container's depth at discovery.
pub open spec fn discover(m: &Membership, found: Map<u32, nat>, pending: Seq<(u32, nat)>) -> Map<
    u32,
    nat,
>
    decreases unfound(keys_of(m.containers@), found), pending.len(),
{
    if pending.len() == 0 {
        found
    } else {
        let current = pending.last();
        let r = scan_from(m, current.0, current.1, found, pending.drop_last(), 0);
        proof {
            lemma_scan_grows(m, current.0, current.1, found, pending.drop_last(), 0);
        }
        discover(m, r.0, r.1)
    }
}

/// The depth at which each container above `member` is discovered.
pub open spec fn discovery_depths(m: &Membership, member: u32) -> Map<u32, nat> {
    discover(m, Map::empty(), seq![(member, 0nat)])
}

/// `a` comes before `b` by depth, then by ID.
pub open spec fn ranked_before(a: (nat, u32), b: (nat, u32)) -> bool {
    a.0 < b.0 || (a.0 == b.0 && a.1 < b.1)
}

/// The waiting shapes with their depths as plain numbers.
pub open spec fn pending_view(pending: Seq<(u32, usize)>) -> Seq<(u32, nat)> {
    pending.map_values(|p: (u32, usize)| (p.0, p.1 as nat))
}

/// The owner list records exactly the depths of `found`.
pub open spec fn records(owners: Seq<(usize, u32)>, found: Map<u32, nat>) -> bool {
    &&& forall|c: u32| found.contains_key(c) <==> is_owner(owners, c)
    &&& forall|c: u32|
        #[trigger] found.contains_key(c) ==> found[c] <= owners.len() && owners.contains(
            (found[c] as usize, c),
        )
}

proof fn lemma_ranked(owners: Seq<(usize, u32)>, found: Map<u32, nat>, result: Seq<u32>)
    requires
        owners.len() <= usize::MAX,
        records(owners, found),
        sorted_by_depth(owners),
        distinct_ids(owners),
        result.len() == owners.len(),
        forall|t: int| 0 <= t < owners.len() ==> result[t] == #[trigger] owners[t].1,
    ensures
        forall|c: u32| result.contains(c) <==> found.contains_key(c),
        forall|i: int, j: int|
            0 <= i < j < result.len() ==> ranked_before(
                (found[result[i]], result[i]),
                (found[result[j]], result[j]),
            ),
{
    assert forall|t: int| 0 <= t < owners.len() implies found.contains_key(#[trigger] result[t])
        && found[result[t]] == owners[t].0 as nat by {
        let c = owners[t].1;
        assert(is_owner(owners, c));
        assert(found.contains_key(c));
        assert(owners.contains((found[c] as usize, c)));
        let u = choose|u: int| 0 <= u < owners.len() && owners[u] == (found[c] as usize, c);
        assert(owners[u].1 == c);
        if u != t {
            if u < t {
                assert(owners[u].1 != owners[t].1);
            } else {
                assert(owners[t].1 != owners[u].1);
            }
        }
    }
    assert forall|c: u32| result.contains(c) <==> found.contains_key(c) by {
        if found.contains_key(c) {
            assert(is_owner(owners, c));
            let t = choose|t: int| 0 <= t < owners.len() && #[trigger] owners[t].1 == c;
            assert(result[t] == owners[t].1);
            assert(result[t] == c);
        }
        if result.contains(c) {
            let t = choose|t: int| 0 <= t < result.len() && result[t] == c;
            assert(found.contains_key(result[t]));
        }
    }
    assert forall|i: int, j: int| 0 <= i < j < result.len() implies ranked_before(
        (found[result[i]], result[i]),
        (found[result[j]], result[j]),
    ) by {
        assert(found.contains_key(result[i]));
        assert(found.contains_key(result[j]));
        assert(depth_before(owners[i], owners[j]));
    }
}

/// With nothing pending, the owners, read in order, meet the contract of `ancestors`.
#[verifier::spinoff_prover]
proof fn lemma_finish(m: &Membership, member: u32, owners: Seq<(usize, u32)>, result: Seq<u32>)
    requires
        owners_ok(m, member, owners),
        frontier_ok(m, member, owners, Seq::empty(), None),
        forall|c: u32| #[trigger] m.edge(c, member) ==> owners.contains((1usize, c)),
        result.len() == owners.len(),
        forall|t: int| 0 <= t < owners.len() ==> result[t] == #[trigger] owners[t].1,
    ensures
        forall|i: int, j: int| 0 <= i < j < result.len() ==> result[i] != result[j],
        forall|c: u32| result.contains(c) <==> m.below(c, member),
        forall|i: int, j: int|
            0 <= i < j < result.len() && m.edge(result[j], member) ==> m.edge(result[i], member)
                && result[i] < result[j],
        forall|j: int|
            0 <= j < result.len() && !m.edge(#[trigger] result[j], member) ==> exists|i: int|
                0 <= i < j && m.edge(result[j], #[trigger] result[i]),
{
    reveal(owners_ok);
    reveal(entry_ok);
    reveal(frontier_ok);
    assert forall|i: int, j: int| 0 <= i < j < result.len() implies result[i] != result[j] by {
        assert(result[i] == owners[i].1);
        assert(result[j] == owners[j].1);
    }
    let closed = Set::new(|c: u32| is_owner(owners, c));
    assert forall|a: u32, b: u32| (b == member || closed.contains(b)) && #[trigger] m.edge(a, b)
        implies closed.contains(a) by {
    }
    assert forall|c: u32| result.contains(c) <==> m.below(c, member) by {
        if result.contains(c) {
            let t = choose|t: int| 0 <= t < result.len() && result[t] == c;
            assert(result[t] == owners[t].1);
            assert(owners.contains(owners[t]));
        }
        if m.below(c, member) {
            let n = choose|n: nat| n >= 1 && #[trigger] m.reach(c, member, n);
            lemma_reach_closed_up(m, member, closed, c, member, n);
            let t = choose|t: int| 0 <= t < owners.len() && #[trigger] owners[t].1 == c;
            assert(result[t] == c);
        }
    }
    assert forall|a: int, b: int|
        0 <= a < b < result.len() && m.edge(result[b], member) implies m.edge(result[a], member)
        && result[a] < result[b] by {
        assert(result[a] == owners[a].1);
        assert(result[b] == owners[b].1);
        assert(owners.contains((1usize, owners[b].1)));
        let u = choose|u: int| 0 <= u < owners.len() && owners[u] == (1usize, owners[b].1);
        assert(owners.contains(owners[a]));
        assert(owners.contains(owners[b]));
        assert(depth_before(owners[a], owners[b]));
    }
    assert forall|j: int|
        0 <= j < result.len() && !m.edge(#[trigger] result[j], member) implies exists|i: int|
        0 <= i < j && m.edge(result[j], #[trigger] result[i]) by {
        let e = owners[j];
        assert(result[j] == e.1);
        assert(owners.contains(e));
        let y = choose|y: u32| #[trigger] owners.contains(((e.0 - 1) as usize, y)) && m.edge(e.1, y);
        let u = choose|u: int| 0 <= u < owners.len() && owners[u] == ((e.0 - 1) as usize, y);
        if u > j {
            assert(depth_before(owners[j], owners[u]));
        }
        assert(result[u] == owners[u].1);
    }
}

/// The containers holding `member`, directly or through nested containers, each once: the
/// direct ones first by increasing ID, and every later one after one of its own members. The
/// order is by the depth at which the discovery first reaches each container (scanning the
/// most recently found shape first), then by ID.
pub fn ancestors(membership: &Membership, member: u32) -> (result: Vec<u32>)
    requires
        membership.wf(),
    ensures
        forall|i: int, j: int| 0 <= i < j < result@.len() ==> result@[i] != result@[j],
        forall|c: u32| result@.contains(c) <==> membership.below(c, member),
        forall|i: int, j: int|
            0 <= i < j < result@.len() && membership.edge(result@[j], member) ==> membership.edge(
                result@[i],
                member,
            ) && result@[i] < result@[j],
        forall|j: int|
            0 <= j < result@.len() && !membership.edge(#[trigger] result@[j], member) ==> exists|
                i: int,
            |
                0 <= i < j && membership.edge(result@[j], #[trigger] result@[i]),
        forall|c: u32| result@.contains(c) <==> discovery_depths(membership, member).contains_key(c),
        forall|i: int, j: int|
            0 <= i < j < result@.len() ==> ranked_before(
                (discovery_depths(membership, member)[result@[i]], result@[i]),
                (discovery_depths(membership, member)[result@[j]], result@[j]),
            ),
{
    let ghost target = discovery_depths(membership, member);
    let ghost mut found: Map<u32, nat> = Map::empty();
    let mut owners: Vec<(usize, u32)> = Vec::new();
    let mut pending: Vec<(u32, usize)> = Vec::new();
    pending.push((member, 0));
    let ghost mut first_done = false;
    proof {
        lemma_start(membership, member);
        assert(pending@ == seq![(member, 0usize)]);
        assert(pending_view(pending@) =~= seq![(member, 0nat)]);
    }
    while pending.len() > 0
        invariant
            membership.wf(),
            owners_ok(membership, member, owners@),
            pending_ok(member, owners@, pending@),
            frontier_ok(membership, member, owners@, pending@, None),
            owners@.len() <= membership.containers@.len(),
            !first_done ==> pending@ == seq![(member, 0usize)] && owners@.len() == 0,
            first_done ==> forall|c: u32| #[trigger] membership.edge(c, member) ==> owners@.contains(
                (1usize, c),
            ),
            target == discovery_depths(membership, member),
            discover(membership, found, pending_view(pending@)) == target,
            records(owners@, found),
        decreases membership.containers@.len() - owners@.len(), pending@.len(),
    {
        let ghost pending_full = pending@;
        let (current, depth) = pending.pop().unwrap();
        let ghost pending0 = pending@;
        let ghost owners0 = owners@;
        proof {
            assert(pending_full == pending0.push((current, depth)));
            assert(pending_view(pending_full).last() == (current, depth as nat));
            assert(pending_view(pending_full).drop_last() =~= pending_view(pending0));
            lemma_pop(membership, member, owners@, pending0, current, depth);
            if !first_done {
                assert(pending_full[0] == (member, 0usize));
            }
        }
        let mut k: usize = 0;
        while k < membership.containers.len()
            invariant
                membership.wf(),
                k <= membership.containers@.len(),
                owners_ok(membership, member, owners@),
                pending_ok(member, owners@, pending@),
                frontier_ok(membership, member, owners@, pending@, Some(current)),
                owners@.len() <= membership.containers@.len(),
                current == member && depth == 0 || owners@.contains((depth, current)),
                depth <= owners@.len(),
                owners@.len() >= owners0.len(),
                owners@.len() == owners0.len() ==> pending@.len() == pending0.len(),
                !first_done ==> current == member && depth == 0,
                !first_done ==> forall|e: (usize, u32)| #[trigger] owners@.contains(e) ==> e.0 == 1,
                !first_done ==> forall|t: int|
                    0 <= t < k && (#[trigger] membership.containers@[t]).1@.contains(member)
                        ==> owners@.contains((1usize, membership.containers@[t].0)),
                first_done ==> forall|c: u32| #[trigger] membership.edge(c, member)
                    ==> owners@.contains((1usize, c)),
                forall|t: int|
                    0 <= t < k && (#[trigger] membership.containers@[t]).1@.contains(current)
                        ==> is_owner(owners@, membership.containers@[t].0),
                target == ({
                    let r = scan_from(
                        membership,
                        current,
                        depth as nat,
                        found,
                        pending_view(pending@),
                        k as int,
                    );
                    discover(membership, r.0, r.1)
                }),
                records(owners@, found),
            decreases membership.containers@.len() - k,
        {
            let c = membership.containers[k].0;
            if contains_sorted(&membership.containers[k].1, current) && !owns_entry(&owners, c) {
                let ghost owners1 = owners@;
                let ghost pending1 = pending@;
                proof {
                    lemma_room(membership, member, owners1, k as int);
                    lemma_owners_shape(membership, member, owners1);
                }
                let ghost found1 = found;
                let pos = insert_by_depth(&mut owners, (depth + 1, c));
                pending.push((c, depth + 1));
                proof {
                    found = found.insert(c, depth as nat + 1);
                    assert(pending_view(pending@) =~= pending_view(pending1).push(
                        (c, depth as nat + 1),
                    ));
                    lemma_add_owner(
                        membership,
                        member,
                        owners1,
                        pending1,
                        current,
                        depth,
                        k as int,
                        pos as int,
                    );
                    lemma_owner_facts(membership, member, owners@, ((depth + 1) as usize, c));
                    assert(!found1.contains_key(c));
                    assert(records(owners@, found)) by {
                        assert forall|x: u32| found.contains_key(x) <==> is_owner(owners@, x) by {
                            if is_owner(owners@, x) && x != c {
                                let u = choose|u: int|
                                    0 <= u < owners@.len() && #[trigger] owners@[u].1 == x;
                                assert(owners@.contains(owners@[u]));
                                assert(owners1.contains(owners@[u]));
                                let v = choose|v: int| 0 <= v < owners1.len() && owners1[v] == owners@[u];
                                assert(owners1[v].1 == x);
                                assert(is_owner(owners1, x));
                                assert(found1.contains_key(x));
                            }
                            if found1.contains_key(x) {
                                assert(is_owner(owners1, x));
                                assert(is_owner(owners@, x));
                            }
                            if x == c {
                                assert(is_owner(owners@, c));
                            }
                        }
                        assert forall|x: u32| #[trigger] found.contains_key(x) implies found[x]
                            <= owners@.len() && owners@.contains((found[x] as usize, x)) by {
                            if x != c {
                                assert(found1.contains_key(x));
                                assert(owners1.contains((found1[x] as usize, x)));
                            }
                        }
                    }
                    if !(current == member && depth == 0) {
                        assert(owners1.contains((depth, current)));
                    }
                    assert forall|t: int|
                        0 <= t < k + 1 && (#[trigger] membership.containers@[t]).1@.contains(current)
                            implies is_owner(owners@, membership.containers@[t].0) by {
                        if t < k {
                            assert(is_owner(owners1, membership.containers@[t].0));
                        }
                    }
                    if !first_done {
                        assert forall|t: int|
                            0 <= t < k + 1 && (#[trigger] membership.containers@[t]).1@.contains(member)
                                implies owners@.contains((1usize, membership.containers@[t].0)) by {
                            if t < k {
                                assert(owners1.contains((1usize, membership.containers@[t].0)));
                            }
                        }
                    }
                }
            } else {
                proof {
                    if membership.containers@[k as int].1@.contains(current) {
                        assert(is_owner(owners@, c));
                        assert(found.contains_key(c));
                        if !first_done {
                            let u = choose|u: int| 0 <= u < owners@.len() && #[trigger] owners@[u].1 == c;
                            assert(owners@.contains(owners@[u]));
                        }
                    }
                }
            }
            k = k + 1;
        }
        proof {
            lemma_scanned(membership, member, owners@, pending@, current);
            if !first_done {
                assert forall|c: u32| #[trigger] membership.edge(c, member) implies owners@.contains(
                    (1usize, c),
                ) by {
                    let i = choose|i: int|
                        0 <= i < membership.containers@.len() && #[trigger] membership.containers@[i].0
                            == c && membership.containers@[i].1@.contains(member);
                }
            }
            first_done = true;
        }
    }
    let mut result: Vec<u32> = Vec::new();
    let mut i: usize = 0;
    while i < owners.len()
        invariant
            i <= owners@.len(),
            result@.len() == i,
            forall|t: int| 0 <= t < i ==> result@[t] == #[trigger] owners@[t].1,
        decreases owners.len() - i,
    {
        result.push(owners[i].1);
        i = i + 1;
    }
    proof {
        assert(pending@ =~= Seq::<(u32, usize)>::empty());
        lemma_finish(membership, member, owners@, result@);
        assert(pending_view(pending@) =~= Seq::<(u32, nat)>::empty());
        assert(found == target);
        lemma_owners_shape(membership, member, owners@);
        lemma_ranked(owners@, found, result@);
    }
    result
}

/// The message of a lookup that found no shape: the shape ID, " on ", and the page ID.
pub open spec fn not_found_message(page_id: Seq<char>, shape_id: Seq<char>) -> Seq<char> {
    shape_id + " on "@ + page_id
}

/// The source ID of the page's shape with session ID `shape_id`: the first in source order.
pub fn source_of(membership: &Membership, page_id: &str, shape_id: &str) -> (result: EditResult<u32>)
    ensures
        match result {
            Ok(source) => exists|i: int|
                0 <= i < membership.by_source@.len() && #[trigger] membership.by_source@[i].0 == source
                    && membership.by_source@[i].1@ == shape_id@ && forall|j: int|
                    0 <= j < i ==> (#[trigger] membership.by_source@[j]).1@ != shape_id@,
            Err(error) => {
                &&& forall|i: int|
                    0 <= i < membership.by_source@.len() ==> (#[trigger] membership.by_source@[i]).1@
                        != shape_id@
                &&& error matches EditError::ShapeNotFound(message) && message@ == not_found_message(
                    page_id@,
                    shape_id@,
                )
            },
        },
{
    let mut i: usize = 0;
    while i < membership.by_source.len()
        invariant
            i <= membership.by_source@.len(),
            forall|j: int| 0 <= j < i ==> (#[trigger] membership.by_source@[j]).1@ != shape_id@,
        decreases membership.by_source.len() - i,
    {
        if str_eq(membership.by_source[i].1.as_str(), shape_id) {
            return Ok(membership.by_source[i].0);
        }
        i = i + 1;
    }
    let mut message = owned(shape_id);
    push_str(&mut message, " on ");
    push_str(&mut message, page_id);
    Err(EditError::ShapeNotFound(message))
}

/// The message refusing a shape that does not declare itself a container.
pub open spec fn not_container_message(source: u32) -> Seq<char> {
    "shape "@ + decimal(source as nat) + " is not a container"@
}

/// The page's shape `source` declares the structure type "Container".
pub open spec fn declares_container(membership: &Membership, source: u32) -> bool {
    exists|i: int|
        0 <= i < membership.structures@.len() && #[trigger] membership.structures@[i].0 == source
            && membership.structures@[i].1@ == "Container"@
}

/// Succeeds exactly when shape `source` declares itself a container.
pub fn require_container(membership: &Membership, source: u32) -> (result: EditResult<()>)
    ensures
        result is Ok <==> declares_container(membership, source),
        result matches Err(error) ==> (error matches EditError::InvalidState(message)
            && message@ == not_container_message(source)),
{
    let mut i: usize = 0;
    while i < membership.structures.len()
        invariant
            i <= membership.structures@.len(),
            forall|j: int|
                0 <= j < i && #[trigger] membership.structures@[j].0 == source
                    ==> membership.structures@[j].1@ != "Container"@,
        decreases membership.structures.len() - i,
    {
        if membership.structures[i].0 == source && str_eq(membership.structures[i].1.as_str(), "Container") {
            return Ok(());
        }
        i = i + 1;
    }
    let mut message = owned("shape ");
    push_decimal(&mut message, source as u64);
    push_str(&mut message, " is not a container");
    Err(EditError::InvalidState(message))
}

} // verus!
