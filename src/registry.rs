//! Which connections watch which path, and the fan-out of edits among them.
use tokio::sync::mpsc::UnboundedSender;
use vstd::prelude::*;

verus! {

/// tokio's sending half of an unbounded channel, held opaque: each
/// connection's outbound queue.
#[verifier::external_type_specification]
#[verifier::external_body]
#[verifier::reject_recursive_types(T)]
pub struct ExUnboundedSender<T>(UnboundedSender<T>);

/// A connection's outbound queue, with the messages handed to it so far.
pub type Outbound = (UnboundedSender<String>, Seq<Seq<char>>);

/// One live connection: the path it watches, its id, its outbound queue and
/// the messages that have been handed to that queue.
pub struct Member {
    path: String,
    id: usize,
    outbound: UnboundedSender<String>,
    handed: Ghost<Seq<Seq<char>>>,
}

/// Relies on tokio's `UnboundedSender::send`: it hands `message` to the
/// member's queue without blocking; the queue drops it if its receiving half
/// is gone, which is not known here, so nothing is promised of the outcome.
/// The member's log of handed messages gains `message`; nothing else changes.
#[verifier::external_body]
fn enqueue(member: &mut Member, message: String) -> (delivered: bool)
    ensures
        final(member).key() == old(member).key(),
        final(member).outbound == old(member).outbound,
        final(member).handed@ == old(member).handed@.push(message@),
{
    member.outbound.send(message).is_ok()
}

/// The rooms of all live connections. A room is the set of connections that
/// watch one path; it exists exactly while it has a member.
pub struct Registry {
    members: Vec<Member>,
}

impl Member {
    pub closed spec fn key(&self) -> (Seq<char>, usize) {
        (self.path@, self.id)
    }

    pub closed spec fn entry(&self) -> Outbound {
        (self.outbound, self.handed@)
    }
}

/// The memberships held by a list of members.
pub closed spec fn keys_of(members: Seq<Member>) -> Set<(Seq<char>, usize)> {
    Set::new(
        |k: (Seq<char>, usize)| exists|i: int| 0 <= i < members.len() && #[trigger] members[i].key() == k,
    )
}

/// No membership is held twice.
pub closed spec fn distinct_keys(members: Seq<Member>) -> bool {
    forall|i: int, j: int|
        0 <= i < members.len() && 0 <= j < members.len() && i != j ==> #[trigger] members[i].key()
            != #[trigger] members[j].key()
}

/// Removing the member at `i` takes exactly its membership away.
proof fn lemma_remove_key(members: Seq<Member>, i: int)
    requires
        distinct_keys(members),
        0 <= i < members.len(),
    ensures
        distinct_keys(members.remove(i)),
        keys_of(members.remove(i)) == keys_of(members).remove(members[i].key()),
{
    let rest = members.remove(i);
    assert forall|a: int, b: int|
        0 <= a < rest.len() && 0 <= b < rest.len() && a != b implies #[trigger] rest[a].key()
        != #[trigger] rest[b].key() by {
        let a0 = if a < i { a } else { a + 1 };
        let b0 = if b < i { b } else { b + 1 };
        assert(rest[a] == members[a0]);
        assert(rest[b] == members[b0]);
    };
    assert forall|k: (Seq<char>, usize)|
        #[trigger] keys_of(rest).contains(k) <==> keys_of(members).remove(members[i].key()).contains(
            k,
        ) by {
        if keys_of(rest).contains(k) {
            let j = choose|j: int| 0 <= j < rest.len() && #[trigger] rest[j].key() == k;
            let j0 = if j < i { j } else { j + 1 };
            assert(rest[j] == members[j0]);
        }
        if keys_of(members).contains(k) && k != members[i].key() {
            let j = choose|j: int| 0 <= j < members.len() && #[trigger] members[j].key() == k;
            if j < i {
                assert(rest[j] == members[j]);
            } else {
                assert(rest[j - 1] == members[j]);
            }
        }
    };
    assert(keys_of(rest) =~= keys_of(members).remove(members[i].key()));
}

/// Appending a member with a new membership adds exactly that membership.
proof fn lemma_push_key(members: Seq<Member>, m: Member)
    requires
        distinct_keys(members),
        !keys_of(members).contains(m.key()),
    ensures
        distinct_keys(members.push(m)),
        keys_of(members.push(m)) == keys_of(members).insert(m.key()),
{
    let more = members.push(m);
    assert forall|a: int, b: int|
        0 <= a < more.len() && 0 <= b < more.len() && a != b implies #[trigger] more[a].key()
        != #[trigger] more[b].key() by {
        if a < members.len() {
            assert(more[a] == members[a]);
        }
        if b < members.len() {
            assert(more[b] == members[b]);
        }
    };
    assert forall|k: (Seq<char>, usize)|
        #[trigger] keys_of(more).contains(k) <==> keys_of(members).insert(m.key()).contains(k) by {
        if keys_of(more).contains(k) {
            let j = choose|j: int| 0 <= j < more.len() && #[trigger] more[j].key() == k;
            if j < members.len() {
                assert(more[j] == members[j]);
            }
        }
        if keys_of(members).contains(k) {
            let j = choose|j: int| 0 <= j < members.len() && #[trigger] members[j].key() == k;
            assert(more[j] == members[j]);
        }
        if k == m.key() {
            assert(more[members.len() as int] == m);
        }
    };
    assert(keys_of(more) =~= keys_of(members).insert(m.key()));
}

/// The position of the member that holds membership `k`.
spec fn index_of(members: Seq<Member>, k: (Seq<char>, usize)) -> int {
    choose|i: int| 0 <= i < members.len() && #[trigger] members[i].key() == k
}

/// Each membership held by a list of members, with its queue and log.
pub closed spec fn map_of(members: Seq<Member>) -> Map<(Seq<char>, usize), Outbound> {
    keys_of(members).mk_map(|k: (Seq<char>, usize)| members[index_of(members, k)].entry())
}

/// The member at `i` is what the map holds under its membership.
proof fn lemma_entry_at(members: Seq<Member>, i: int)
    requires
        distinct_keys(members),
        0 <= i < members.len(),
    ensures
        map_of(members).contains_key(members[i].key()),
        map_of(members)[members[i].key()] == members[i].entry(),
{
    let k = members[i].key();
    assert(keys_of(members).contains(k));
    let j = index_of(members, k);
    assert(0 <= j < members.len() && members[j].key() == k);
    assert(j == i);
}

/// A list of members with distinct memberships stands for `target` when it
/// holds exactly its memberships, each with the queue and log given there.
proof fn lemma_map_of_is(members: Seq<Member>, target: Map<(Seq<char>, usize), Outbound>)
    requires
        distinct_keys(members),
        keys_of(members) == target.dom(),
        forall|i: int| 0 <= i < members.len() ==> target[#[trigger] members[i].key()] == members[i].entry(),
    ensures
        map_of(members) == target,
{
    assert forall|k: (Seq<char>, usize)| #[trigger] target.contains_key(k) implies map_of(members)[k]
        == target[k] by {
        let j = choose|j: int| 0 <= j < members.len() && #[trigger] members[j].key() == k;
        lemma_entry_at(members, j);
    };
    assert(map_of(members) =~= target);
}

/// Two lists whose members hold the same memberships, place by place, hold
/// the same set of memberships.
proof fn lemma_same_keys(a: Seq<Member>, b: Seq<Member>)
    requires
        a.len() == b.len(),
        forall|i: int| 0 <= i < a.len() ==> #[trigger] a[i].key() == b[i].key(),
    ensures
        keys_of(a) == keys_of(b),
        distinct_keys(a) ==> distinct_keys(b),
{
    assert forall|k: (Seq<char>, usize)| #[trigger] keys_of(a).contains(k) == keys_of(b).contains(k) by {
        if keys_of(a).contains(k) {
            let j = choose|j: int| 0 <= j < a.len() && #[trigger] a[j].key() == k;
            assert(b[j].key() == k);
        }
        if keys_of(b).contains(k) {
            let j = choose|j: int| 0 <= j < b.len() && #[trigger] b[j].key() == k;
            assert(a[j].key() == k);
        }
    };
    assert(keys_of(a) =~= keys_of(b));
    if distinct_keys(a) {
        assert forall|i: int, j: int|
            0 <= i < b.len() && 0 <= j < b.len() && i != j implies #[trigger] b[i].key()
            != #[trigger] b[j].key() by {
            assert(a[i].key() == b[i].key());
            assert(a[j].key() == b[j].key());
        };
    }
}

/// What one membership holds after a relay of `message` by `sender` on
/// `path`: the message is added to its log if it watches `path` and is not
/// the sender; otherwise it is unchanged.
pub open spec fn relayed_entry(
    k: (Seq<char>, usize),
    v: Outbound,
    path: Seq<char>,
    sender: usize,
    message: Seq<char>,
) -> Outbound {
    if k.0 == path && k.1 != sender {
        (v.0, v.1.push(message))
    } else {
        v
    }
}

/// The registry after a relay of `message` by `sender` on `path`.
pub open spec fn relayed(
    before: Map<(Seq<char>, usize), Outbound>,
    path: Seq<char>,
    sender: usize,
    message: Seq<char>,
) -> Map<(Seq<char>, usize), Outbound> {
    before.dom().mk_map(|k: (Seq<char>, usize)| relayed_entry(k, before[k], path, sender, message))
}

impl View for Registry {
    type V = Map<(Seq<char>, usize), Outbound>;

    /// Each (path, connection id) membership, with the connection's queue and
    /// the messages handed to it.
    closed spec fn view(&self) -> Map<(Seq<char>, usize), Outbound> {
        map_of(self.members@)
    }
}

impl Registry {
    pub closed spec fn wf(&self) -> bool {
        distinct_keys(self.members@)
    }

    /// The ids of the connections that watch `path`.
    pub open spec fn room(&self, path: Seq<char>) -> Set<usize> {
        Set::new(|id: usize| self@.contains_key((path, id)))
    }

    /// The paths that have a room: those with at least one member.
    pub open spec fn rooms(&self) -> Set<Seq<char>> {
        Set::new(|p: Seq<char>| exists|id: usize| self@.contains_key((p, id)))
    }

    pub fn new() -> (r: Registry)
        ensures
            r.wf(),
            r@ == Map::<(Seq<char>, usize), Outbound>::empty(),
    {
        let r = Registry { members: Vec::new() };
        assert(keys_of(r.members@) =~= Set::<(Seq<char>, usize)>::empty());
        assert(r@ =~= Map::<(Seq<char>, usize), Outbound>::empty());
        r
    }

    /// The position of the membership (`path`, `id`), if it is held.
    fn find(&self, path: &String, id: usize) -> (r: Option<usize>)
        ensures
            match r {
                Some(i) => i < self.members@.len() && self.members@[i as int].key() == (path@, id),
                None => !self@.contains_key((path@, id)),
            },
    {
        let mut i: usize = 0;
        while i < self.members.len()
            invariant
                i <= self.members@.len(),
                forall|j: int| 0 <= j < i ==> #[trigger] self.members@[j].key() != (path@, id),
            decreases self.members@.len() - i,
        {
            let m = &self.members[i];
            if m.id == id && m.path == *path {
                return Some(i);
            }
            i = i + 1;
        }
        None
    }

    /// Puts the connection `id` into the room of `path` with its outbound
    /// queue, creating the room if there is none. Joining again under the same
    /// path replaces the queue. Nothing has been handed to the queue yet.
    pub fn join(&mut self, path: String, id: usize, outbound: UnboundedSender<String>)
        requires
            old(self).wf(),
        ensures
            final(self).wf(),
            final(self)@ == old(self)@.insert((path@, id), (outbound, Seq::<Seq<char>>::empty())),
    {
        let ghost before = self.members@;
        let ghost target = self@.insert((path@, id), (outbound, Seq::<Seq<char>>::empty()));
        let m = Member { path, id, outbound, handed: Ghost(Seq::empty()) };
        match self.find(&m.path, id) {
            Some(i) => {
                self.members[i] = m;
                proof {
                    let after = self.members@;
                    lemma_same_keys(before, after);
                    lemma_entry_at(before, i as int);
                    assert(target.dom() =~= keys_of(before));
                    assert forall|j: int| 0 <= j < after.len() implies target[#[trigger] after[j].key()]
                        == after[j].entry() by {
                        if j != i {
                            lemma_entry_at(before, j);
                        }
                    };
                    lemma_map_of_is(after, target);
                }
            },
            None => {
                proof {
                    lemma_push_key(before, m);
                }
                self.members.push(m);
                proof {
                    let after = self.members@;
                    assert(target.dom() =~= keys_of(before).insert(m.key()));
                    assert forall|j: int| 0 <= j < after.len() implies target[#[trigger] after[j].key()]
                        == after[j].entry() by {
                        if j < before.len() {
                            assert(after[j] == before[j]);
                            lemma_entry_at(before, j);
                        }
                    };
                    lemma_map_of_is(after, target);
                }
            },
        }
    }

    /// Takes the connection `id` out of the room of `path`; the room goes with
    /// its last member.
    pub fn leave(&mut self, path: &String, id: usize)
        requires
            old(self).wf(),
        ensures
            final(self).wf(),
            final(self)@ == old(self)@.remove((path@, id)),
    {
        let ghost before = self.members@;
        let ghost target = self@.remove((path@, id));
        match self.find(path, id) {
            Some(i) => {
                proof {
                    lemma_remove_key(before, i as int);
                }
                self.members.remove(i);
                proof {
                    let after = self.members@;
                    assert(target.dom() =~= keys_of(before).remove((path@, id)));
                    assert forall|j: int| 0 <= j < after.len() implies target[#[trigger] after[j].key()]
                        == after[j].entry() by {
                        let j0 = if j < i { j } else { j + 1 };
                        assert(after[j] == before[j0]);
                        lemma_entry_at(before, j0);
                    };
                    lemma_map_of_is(after, target);
                }
            },
            None => {
                assert(self@ =~= target);
            },
        }
    }

    /// The ids of the connections that watch `path`, each once.
    pub fn peers(&self, path: &String) -> (ids: Vec<usize>)
        requires
            self.wf(),
        ensures
            ids@.no_duplicates(),
            forall|id: usize| #[trigger] ids@.contains(id) <==> self.room(path@).contains(id),
    {
        let mut ids: Vec<usize> = Vec::new();
        let mut i: usize = 0;
        while i < self.members.len()
            invariant
                self.wf(),
                i <= self.members@.len(),
                ids@.no_duplicates(),
                forall|id: usize| #[trigger]
                    ids@.contains(id) <==> exists|j: int|
                        0 <= j < i && #[trigger] self.members@[j].key() == (path@, id),
            decreases self.members@.len() - i,
        {
            let m = &self.members[i];
            if m.path == *path {
                proof {
                    if ids@.contains(m.id) {
                        let j = choose|j: int| 0 <= j < i && #[trigger] self.members@[j].key() == (path@, m.id);
                        assert(self.members@[i as int].key() == self.members@[j].key());
                    }
                }
                let ghost prev = ids@;
                ids.push(m.id);
                proof {
                    assert forall|id: usize| #[trigger] ids@.contains(id) <==> exists|j: int|
                        0 <= j < i + 1 && #[trigger] self.members@[j].key() == (path@, id) by {
                        assert(ids@ == prev.push(m.id));
                        if id == m.id {
                            assert(self.members@[i as int].key() == (path@, id));
                            assert(ids@[ids@.len() - 1] == id);
                        } else {
                            if ids@.contains(id) {
                                let k = choose|k: int| 0 <= k < ids@.len() && ids@[k] == id;
                                assert(prev[k] == id);
                                assert(prev.contains(id));
                            }
                            if prev.contains(id) {
                                let k = choose|k: int| 0 <= k < prev.len() && prev[k] == id;
                                assert(ids@[k] == id);
                            }
                        }
                    };
                }
            }
            i = i + 1;
        }
        proof {
            assert forall|id: usize| #[trigger] ids@.contains(id) <==> self.room(path@).contains(id) by {
                if self.room(path@).contains(id) {
                    let j = choose|j: int| 0 <= j < self.members@.len() && #[trigger] self.members@[j].key() == (path@, id);
                }
            };
        }
        ids
    }

    /// Hands `message` to the queue of every connection that watches `path`,
    /// and to no other queue: not to `sender` itself, nor to a connection of
    /// another path. A queue whose connection is already gone drops it
    /// silently; the others still get it.
    pub fn relay(&mut self, path: &String, sender: usize, message: &String)
        requires
            old(self).wf(),
        ensures
            final(self).wf(),
            final(self)@ == relayed(old(self)@, path@, sender, message@),
    {
        let ghost before = self.members@;
        let ghost target = relayed(self@, path@, sender, message@);
        let mut i: usize = 0;
        while i < self.members.len()
            invariant
                distinct_keys(before),
                target == relayed(map_of(before), path@, sender, message@),
                i <= self.members@.len(),
                self.members@.len() == before.len(),
                forall|j: int|
                    0 <= j < before.len() ==> #[trigger] self.members@[j].key() == before[j].key()
                        && self.members@[j].outbound == before[j].outbound,
                forall|j: int|
                    0 <= j < i ==> #[trigger] self.members@[j].entry() == relayed_entry(
                        before[j].key(),
                        before[j].entry(),
                        path@,
                        sender,
                        message@,
                    ),
                forall|j: int| i <= j < before.len() ==> #[trigger] self.members@[j].entry() == before[j].entry(),
            decreases self.members@.len() - i,
        {
            let ghost pre = self.members@;
            assert(pre[i as int].key() == before[i as int].key());
            assert(pre[i as int].entry() == before[i as int].entry());
            if self.members[i].id != sender && self.members[i].path == *path {
                enqueue(&mut self.members[i], message.clone());
                assert(self.members@ == pre.update(i as int, self.members@[i as int]));
            }
            assert(self.members@[i as int].entry() == relayed_entry(
                before[i as int].key(),
                before[i as int].entry(),
                path@,
                sender,
                message@,
            ));
            assert forall|j: int| 0 <= j < before.len() && j != i implies #[trigger] self.members@[j]
                == pre[j] by {};
            i = i + 1;
        }
        proof {
            let after = self.members@;
            lemma_same_keys(before, after);
            assert(target.dom() =~= keys_of(before));
            assert forall|j: int| 0 <= j < after.len() implies target[#[trigger] after[j].key()]
                == after[j].entry() by {
                lemma_entry_at(before, j);
            };
            lemma_map_of_is(after, target);
        }
    }

    /// Whether no room is left.
    pub fn is_empty(&self) -> (r: bool)
        requires
            self.wf(),
        ensures
            r == (self.rooms() == Set::<Seq<char>>::empty()),
    {
        if self.members.len() == 0 {
            assert(keys_of(self.members@) =~= Set::<(Seq<char>, usize)>::empty());
            assert(self.rooms() =~= Set::<Seq<char>>::empty());
            true
        } else {
            let m = &self.members[0];
            proof {
                lemma_entry_at(self.members@, 0);
            }
            assert(self@.contains_key(self.members@[0].key()));
            assert(self.rooms().contains(m.path@));
            false
        }
    }
}

/// Once two distinct connections have joined the same path, a message that
/// one of them relays is handed to the other's queue exactly once and never
/// to the sender's own queue.
pub proof fn relay_reaches_peer_not_sender(
    before: Registry,
    joined: Registry,
    after: Registry,
    path: Seq<char>,
    a: usize,
    b: usize,
    queue_a: UnboundedSender<String>,
    queue_b: UnboundedSender<String>,
    message: Seq<char>,
)
    requires
        a != b,
        joined@ == before@.insert((path, a), (queue_a, Seq::<Seq<char>>::empty())).insert(
            (path, b),
            (queue_b, Seq::<Seq<char>>::empty()),
        ),
        after@ == relayed(joined@, path, a, message),
    ensures
        after@[(path, b)] == (queue_b, seq![message]),
        after@[(path, a)] == (queue_a, Seq::<Seq<char>>::empty()),
{
    assert(joined@.contains_key((path, a)));
    assert(joined@.contains_key((path, b)));
    assert(Seq::<Seq<char>>::empty().push(message) =~= seq![message]);
}

/// Joining a path that has no members and leaving it at once puts the
/// registry back as it was: no empty room stays behind, and a registry
/// without rooms is left without rooms.
pub proof fn join_then_leave_leaves_no_room(
    before: Registry,
    joined: Registry,
    left: Registry,
    path: Seq<char>,
    id: usize,
    queue: UnboundedSender<String>,
)
    requires
        before.room(path) == Set::<usize>::empty(),
        joined@ == before@.insert((path, id), (queue, Seq::<Seq<char>>::empty())),
        left@ == joined@.remove((path, id)),
    ensures
        left@ == before@,
        left.rooms() == before.rooms(),
        !left.rooms().contains(path),
        before.rooms() == Set::<Seq<char>>::empty() ==> left.rooms() == Set::<Seq<char>>::empty(),
{
    assert(!before@.contains_key((path, id))) by {
        if before@.contains_key((path, id)) {
            assert(before.room(path).contains(id));
        }
    };
    assert(left@ =~= before@);
    assert(left.rooms() =~= before.rooms());
    if left.rooms().contains(path) {
        let other = choose|other: usize| left@.contains_key((path, other));
        assert(before.room(path).contains(other));
    }
}

} // verus!
