use crate::models::{
    fresh_id,
    dup_opt_string, dup_string_vec, opt_view, MessageV, OnlineUser, OnlineUserV, ServerMessage,
    UserAuth,
};
use vstd::prelude::*;

verus! {

/// Bound on a room's retained message history.
pub const ROOM_HISTORY_CAPACITY: usize = 100;

/// Bound on a session's private mailbox.
pub const MAILBOX_CAPACITY: usize = 128;

/// Bound on the global fan-out channel.
pub const GLOBAL_CHANNEL_CAPACITY: usize = 1000;

/// Name of the room that exists from process start and is never deleted.
pub open spec fn default_room() -> Seq<char> {
    "general"@
}

/// The default room's name as a string.
pub fn default_room_name() -> (r: String)
    ensures
        r@ == default_room(),
{
    String::from_str("general")
}

// ---------------------------------------------------------------------------
// Sequence helpers over string vectors
// ---------------------------------------------------------------------------

/// The mathematical values of a vector of messages.
pub open spec fn msg_views(s: Seq<ServerMessage>) -> Seq<MessageV> {
    s.map_values(|m: ServerMessage| m@)
}

/// The character sequences of a vector of strings.
pub open spec fn str_views(s: Seq<String>) -> Seq<Seq<char>> {
    s.map_values(|x: String| x@)
}

/// All elements pairwise distinct.
pub open spec fn distinct_seq<A>(s: Seq<A>) -> bool {
    forall|i: int, j: int| 0 <= i < j < s.len() ==> s[i] != s[j]
}

/// The sequence with the first occurrence of `x` removed (unchanged when
/// `x` does not occur).
pub open spec fn remove_first(s: Seq<Seq<char>>, x: Seq<char>) -> Seq<Seq<char>>
    decreases s.len(),
{
    if s.len() == 0 {
        s
    } else if s.first() == x {
        s.drop_first()
    } else {
        seq![s.first()] + remove_first(s.drop_first(), x)
    }
}

pub proof fn lemma_remove_first_at(s: Seq<Seq<char>>, x: Seq<char>, i: int)
    requires
        0 <= i < s.len(),
        s[i] == x,
        forall|j: int| 0 <= j < i ==> s[j] != x,
    ensures
        remove_first(s, x) == s.remove(i),
    decreases i,
{
    if i == 0 {
        assert(remove_first(s, x) == s.drop_first());
        assert(s.drop_first() =~= s.remove(0));
    } else {
        lemma_remove_first_at(s.drop_first(), x, i - 1);
        assert(remove_first(s, x) == seq![s.first()] + s.drop_first().remove(i - 1));
        assert(seq![s.first()] + s.drop_first().remove(i - 1) =~= s.remove(i));
    }
}

pub proof fn lemma_remove_first_absent(s: Seq<Seq<char>>, x: Seq<char>)
    requires
        !s.contains(x),
    ensures
        remove_first(s, x) == s,
    decreases s.len(),
{
    if s.len() > 0 {
        assert(s[0] != x);
        assert(forall|j: int| 0 <= j < s.drop_first().len() ==> s.drop_first()[j] == s[j + 1]);
        assert(!s.drop_first().contains(x)) by {
            if s.drop_first().contains(x) {
                let j = choose|j: int|
                    0 <= j < s.drop_first().len() && s.drop_first()[j] == x;
                assert(s[j + 1] == x);
            }
        }
        lemma_remove_first_absent(s.drop_first(), x);
        assert(seq![s.first()] + s.drop_first() =~= s);
    }
}

/// Whether `x` occurs among the strings of `v`.
pub fn contains_str(v: &Vec<String>, x: &String) -> (r: bool)
    ensures
        r == str_views(v@).contains(x@),
{
    let n = v.len();
    for i in 0..n
        invariant
            n == v@.len(),
            forall|j: int| 0 <= j < i ==> str_views(v@)[j] != x@,
    {
        if v[i].eq(x) {
            assert(str_views(v@)[i as int] == x@);
            return true;
        }
    }
    assert(!str_views(v@).contains(x@));
    false
}

/// Removes the first occurrence of `x`, reporting whether one was found.
pub fn remove_str(v: &mut Vec<String>, x: &String) -> (found: bool)
    ensures
        str_views(final(v)@) == remove_first(str_views(old(v)@), x@),
        found == str_views(old(v)@).contains(x@),
        final(v)@.len() == if found {
            old(v)@.len() - 1
        } else {
            old(v)@.len() as int
        },
{
    let n = v.len();
    for i in 0..n
        invariant
            n == v@.len(),
            *v == *old(v),
            forall|j: int| 0 <= j < i ==> str_views(v@)[j] != x@,
    {
        if v[i].eq(x) {
            assert(str_views(v@)[i as int] == x@);
            v.remove(i);
            proof {
                lemma_remove_first_at(str_views(old(v)@), x@, i as int);
                assert(str_views(v@) =~= str_views(old(v)@).remove(i as int));
            }
            return true;
        }
    }
    proof {
        assert(!str_views(v@).contains(x@));
        lemma_remove_first_absent(str_views(v@), x@);
    }
    false
}

// ---------------------------------------------------------------------------
// Mailbox
// ---------------------------------------------------------------------------

/// Appending to a bounded queue: past capacity the oldest entry is dropped.
pub open spec fn bounded_push(q: Seq<MessageV>, cap: nat, m: MessageV) -> Seq<MessageV> {
    if q.len() < cap {
        q.push(m)
    } else {
        q.drop_first().push(m)
    }
}

/// A bounded per-subscriber delivery queue with drop-oldest overflow and a
/// lag counter recording how many entries the subscriber has missed.
#[derive(Debug)]
pub struct Mailbox {
    pub items: Vec<ServerMessage>,
    pub capacity: usize,
    pub lagged: u64,
}

impl View for Mailbox {
    type V = Seq<MessageV>;

    open spec fn view(&self) -> Seq<MessageV> {
        msg_views(self.items@)
    }
}

impl Mailbox {
    pub open spec fn wf(&self) -> bool {
        &&& self@.len() <= self.capacity
        &&& self.capacity >= 1
    }

    pub fn new(capacity: usize) -> (r: Self)
        requires
            capacity >= 1,
        ensures
            r.wf(),
            r@ == Seq::<MessageV>::empty(),
            r.capacity == capacity,
            r.lagged == 0,
    {
        let r = Mailbox { items: Vec::new(), capacity, lagged: 0 };
        proof {
            assert(r@ =~= Seq::<MessageV>::empty());
        }
        r
    }

    /// Appends a message; at capacity the oldest entry is dropped and the
    /// lag counter advances.  The publisher is never blocked.
    pub fn push(&mut self, m: ServerMessage)
        requires
            old(self).wf(),
        ensures
            final(self).wf(),
            final(self)@ == bounded_push(old(self)@, old(self).capacity as nat, m@),
            final(self).capacity == old(self).capacity,
            final(self).lagged == if old(self)@.len() < old(self).capacity {
                old(self).lagged as int
            } else if old(self).lagged < u64::MAX {
                old(self).lagged + 1
            } else {
                old(self).lagged as int
            },
    {
        if self.items.len() >= self.capacity {
            self.items.remove(0);
            if self.lagged < u64::MAX {
                self.lagged = self.lagged + 1;
            }
            proof {
                assert(msg_views(self.items@) =~= old(self)@.drop_first());
            }
        }
        let ghost before = self@;
        self.items.push(m);
        proof {
            assert(self@ =~= before.push(m@));
        }
    }

    /// Takes the oldest undelivered message, if any.
    pub fn take_next(&mut self) -> (r: Option<ServerMessage>)
        requires
            old(self).wf(),
        ensures
            final(self).wf(),
            final(self).capacity == old(self).capacity,
            final(self).lagged == old(self).lagged,
            old(self)@.len() == 0 ==> r is None && final(self)@ == old(self)@,
            old(self)@.len() > 0 ==> (r matches Some(m) && m@ == old(self)@.first()
                && final(self)@ == old(self)@.drop_first()),
    {
        if self.items.len() == 0 {
            None
        } else {
            let m = self.items.remove(0);
            proof {
                assert(self@ =~= old(self)@.drop_first());
            }
            Some(m)
        }
    }

    /// Reads and clears the lag counter; the subscriber reports the lag.
    pub fn take_lag(&mut self) -> (r: u64)
        ensures
            r == old(self).lagged,
            final(self).lagged == 0,
            final(self)@ == old(self)@,
            final(self).capacity == old(self).capacity,
    {
        let r = self.lagged;
        self.lagged = 0;
        r
    }
}

// ---------------------------------------------------------------------------
// Room
// ---------------------------------------------------------------------------

/// A named room: a member set and a bounded ordered message history.
#[derive(Debug)]
pub struct Room {
    pub name: String,
    pub users: Vec<String>,
    pub message_history: Vec<ServerMessage>,
    pub max_history: usize,
}

impl Room {
    pub open spec fn users_view(&self) -> Seq<Seq<char>> {
        str_views(self.users@)
    }

    pub open spec fn history_view(&self) -> Seq<MessageV> {
        msg_views(self.message_history@)
    }

    pub open spec fn wf(&self) -> bool {
        &&& self.max_history == ROOM_HISTORY_CAPACITY
        &&& self.history_view().len() <= self.max_history
        &&& distinct_seq(self.users_view())
    }

    /// An empty room of the standard history capacity.
    pub fn new(name: String) -> (r: Self)
        ensures
            r.wf(),
            r.name == name,
            r.users_view() == Seq::<Seq<char>>::empty(),
            r.history_view() == Seq::<MessageV>::empty(),
    {
        let r = Room {
            name,
            users: Vec::new(),
            message_history: Vec::new(),
            max_history: ROOM_HISTORY_CAPACITY,
        };
        proof {
            assert(r.users_view() =~= Seq::<Seq<char>>::empty());
            assert(r.history_view() =~= Seq::<MessageV>::empty());
        }
        r
    }

    /// Appends to the history, evicting the oldest entry past capacity.
    pub fn push_history(&mut self, m: ServerMessage)
        requires
            old(self).wf(),
        ensures
            final(self).wf(),
            final(self).history_view() == bounded_push(
                old(self).history_view(),
                ROOM_HISTORY_CAPACITY as nat,
                m@,
            ),
            final(self).name == old(self).name,
            final(self).users == old(self).users,
            final(self).max_history == old(self).max_history,
    {
        if self.message_history.len() >= self.max_history {
            self.message_history.remove(0);
            proof {
                assert(self.history_view() =~= old(self).history_view().drop_first());
            }
        }
        let ghost before = self.history_view();
        self.message_history.push(m);
        proof {
            assert(self.history_view() =~= before.push(m@));
        }
    }

    /// The most recent `limit` history entries, oldest first.
    pub fn get_recent_messages(&self, limit: usize) -> (r: Vec<ServerMessage>)
        ensures
            msg_views(r@) == self.history_view().skip(
                if self.history_view().len() > limit {
                    self.history_view().len() - limit
                } else {
                    0
                },
            ),
    {
        let n = self.message_history.len();
        let start = if n > limit {
            n - limit
        } else {
            0
        };
        let mut r: Vec<ServerMessage> = Vec::new();
        for i in start..n
            invariant
                n == self.message_history@.len(),
                start <= i <= n,
                msg_views(r@) =~= self.history_view().subrange(start as int, i as int),
        {
            let d = self.message_history[i].duplicate();
            let ghost r0 = r@;
            proof {
                assert(d@ == self.history_view()[i as int]);
            }
            r.push(d);
            proof {
                assert(r@ == r0.push(d));
                assert(msg_views(r@) =~= msg_views(r0).push(d@));
                assert(msg_views(r@) =~= self.history_view().subrange(start as int, i + 1));
            }
        }
        proof {
            assert(self.history_view().subrange(start as int, n as int) =~= self.history_view()
                .skip(start as int));
        }
        r
    }
}

// ---------------------------------------------------------------------------
// Client
// ---------------------------------------------------------------------------

/// A live authenticated session: its identity, joined rooms, and private
/// mailbox.
#[derive(Debug)]
pub struct Client {
    pub id: String,
    pub user_address: String,
    pub ens_name: Option<String>,
    pub current_rooms: Vec<String>,
    pub mailbox: Mailbox,
}

impl Client {
    pub open spec fn rooms_view(&self) -> Seq<Seq<char>> {
        str_views(self.current_rooms@)
    }

    pub open spec fn wf(&self) -> bool {
        &&& distinct_seq(self.rooms_view())
        &&& self.mailbox.wf()
        &&& self.mailbox.capacity == MAILBOX_CAPACITY
    }
}

// ---------------------------------------------------------------------------
// AppState: the shared registry
// ---------------------------------------------------------------------------

/// The shared registry: sessions keyed by address, rooms keyed by name, a
/// cache of verified identities, and the global fan-out channel.
#[derive(Debug)]
pub struct AppState {
    pub clients: Vec<Client>,
    pub rooms: Vec<Room>,
    pub user_auth_cache: Vec<UserAuth>,
    pub global: Mailbox,
}

impl AppState {
    pub open spec fn client_addrs(&self) -> Seq<Seq<char>> {
        self.clients@.map_values(|c: Client| c.user_address@)
    }

    pub open spec fn room_names(&self) -> Seq<Seq<char>> {
        self.rooms@.map_values(|r: Room| r.name@)
    }

    pub open spec fn has_client(&self, a: Seq<char>) -> bool {
        exists|i: int|
            0 <= i < self.clients@.len() && (#[trigger] self.clients@[i]).user_address@ == a
    }

    pub open spec fn client_idx(&self, a: Seq<char>) -> int {
        choose|i: int|
            0 <= i < self.clients@.len() && (#[trigger] self.clients@[i]).user_address@ == a
    }

    /// The session with the given address (meaningful when `has_client`).
    pub open spec fn the_client(&self, a: Seq<char>) -> Client {
        self.clients@[self.client_idx(a)]
    }

    pub open spec fn has_room(&self, n: Seq<char>) -> bool {
        exists|j: int| 0 <= j < self.rooms@.len() && (#[trigger] self.rooms@[j]).name@ == n
    }

    pub open spec fn room_idx(&self, n: Seq<char>) -> int {
        choose|j: int| 0 <= j < self.rooms@.len() && (#[trigger] self.rooms@[j]).name@ == n
    }

    /// The room with the given name (meaningful when `has_room`).
    pub open spec fn the_room(&self, n: Seq<char>) -> Room {
        self.rooms@[self.room_idx(n)]
    }

    /// The room named `n` lists `a` as a member.
    pub open spec fn member_of(&self, a: Seq<char>, n: Seq<char>) -> bool {
        self.has_room(n) && self.the_room(n).users_view().contains(a)
    }

    /// The session with address `a` lists room `n` as joined.
    pub open spec fn joined(&self, a: Seq<char>, n: Seq<char>) -> bool {
        self.has_client(a) && self.the_client(a).rooms_view().contains(n)
    }

    /// Mutual consistency of the two registries: every room a session lists
    /// lists the session, and every member a room lists lists the room.
    pub open spec fn consistent(&self) -> bool {
        &&& forall|i: int, k: int|
            #![trigger self.clients@[i].rooms_view()[k]]
            0 <= i < self.clients@.len() && 0 <= k < self.clients@[i].rooms_view().len()
                ==> self.member_of(
                    self.clients@[i].user_address@,
                    self.clients@[i].rooms_view()[k],
                )
        &&& forall|j: int, u: int|
            #![trigger self.rooms@[j].users_view()[u]]
            0 <= j < self.rooms@.len() && 0 <= u < self.rooms@[j].users_view().len()
                ==> self.joined(self.rooms@[j].users_view()[u], self.rooms@[j].name@)
    }

    pub open spec fn cache_addrs(&self) -> Seq<Seq<char>> {
        self.user_auth_cache@.map_values(|u: UserAuth| u.address@)
    }

    pub open spec fn wf(&self) -> bool {
        &&& distinct_seq(self.client_addrs())
        &&& distinct_seq(self.room_names())
        &&& forall|i: int| 0 <= i < self.clients@.len() ==> (#[trigger] self.clients@[i]).wf()
        &&& forall|j: int| 0 <= j < self.rooms@.len() ==> (#[trigger] self.rooms@[j]).wf()
        &&& self.global.wf()
        &&& self.global.capacity == GLOBAL_CHANNEL_CAPACITY
        &&& self.consistent()
        &&& self.has_room(default_room())
        &&& distinct_seq(self.cache_addrs())
    }

    /// With distinct addresses, any index holding address `a` is the index
    /// `client_idx(a)` denotes.
    pub proof fn lemma_client_idx_is(&self, i: int)
        requires
            distinct_seq(self.client_addrs()),
            0 <= i < self.clients@.len(),
        ensures
            self.has_client(self.clients@[i].user_address@),
            self.client_idx(self.clients@[i].user_address@) == i,
            self.the_client(self.clients@[i].user_address@) == self.clients@[i],
    {
        let a = self.clients@[i].user_address@;
        assert(self.has_client(a));
        let j = self.client_idx(a);
        assert(0 <= j < self.clients@.len() && self.clients@[j].user_address@ == a);
        assert(self.client_addrs()[i] == a && self.client_addrs()[j] == a);
        if i != j {
            assert(false);
        }
    }

    /// With distinct names, any index holding name `n` is the index
    /// `room_idx(n)` denotes.
    pub proof fn lemma_room_idx_is(&self, j: int)
        requires
            distinct_seq(self.room_names()),
            0 <= j < self.rooms@.len(),
        ensures
            self.has_room(self.rooms@[j].name@),
            self.room_idx(self.rooms@[j].name@) == j,
            self.the_room(self.rooms@[j].name@) == self.rooms@[j],
    {
        let n = self.rooms@[j].name@;
        assert(self.has_room(n));
        let k = self.room_idx(n);
        assert(0 <= k < self.rooms@.len() && self.rooms@[k].name@ == n);
        assert(self.room_names()[j] == n && self.room_names()[k] == n);
        if j != k {
            assert(false);
        }
    }

    /// A session's room set and the rooms' member sets agree.
    pub proof fn lemma_membership_consistent(&self, a: Seq<char>, n: Seq<char>)
        requires
            self.wf(),
        ensures
            self.joined(a, n) <==> self.member_of(a, n),
    {
        if self.joined(a, n) {
            let i = self.client_idx(a);
            let k = choose|k: int|
                0 <= k < self.clients@[i].rooms_view().len() && self.clients@[i].rooms_view()[k]
                    == n;
            assert(self.member_of(self.clients@[i].user_address@, self.clients@[i].rooms_view()[k]));
        }
        if self.member_of(a, n) {
            let j = self.room_idx(n);
            let u = choose|u: int|
                0 <= u < self.rooms@[j].users_view().len() && self.rooms@[j].users_view()[u] == a;
            assert(self.joined(self.rooms@[j].users_view()[u], self.rooms@[j].name@));
        }
    }

    /// Index of the session with the given address, if connected.
    fn find_client(&self, user_address: &String) -> (r: Option<usize>)
        requires
            distinct_seq(self.client_addrs()),
        ensures
            r matches Some(i) ==> i < self.clients@.len() && self.clients@[
                i as int
            ].user_address@ == user_address@ && self.client_idx(user_address@) == i
                && self.has_client(user_address@),
            r is None ==> !self.has_client(user_address@),
    {
        let n = self.clients.len();
        for i in 0..n
            invariant
                n == self.clients@.len(),
                distinct_seq(self.client_addrs()),
                forall|j: int| 0 <= j < i ==> (#[trigger] self.clients@[j]).user_address@
                    != user_address@,
        {
            if self.clients[i].user_address.eq(user_address) {
                proof {
                    self.lemma_client_idx_is(i as int);
                }
                return Some(i);
            }
        }
        None
    }

    /// Index of the room with the given name, if it exists.
    fn find_room(&self, room_name: &String) -> (r: Option<usize>)
        requires
            distinct_seq(self.room_names()),
        ensures
            r matches Some(j) ==> j < self.rooms@.len() && self.rooms@[j as int].name@
                == room_name@ && self.room_idx(room_name@) == j && self.has_room(room_name@),
            r is None ==> !self.has_room(room_name@),
    {
        let n = self.rooms.len();
        for j in 0..n
            invariant
                n == self.rooms@.len(),
                distinct_seq(self.room_names()),
                forall|k: int| 0 <= k < j ==> (#[trigger] self.rooms@[k]).name@ != room_name@,
        {
            if self.rooms[j].name.eq(room_name) {
                proof {
                    self.lemma_room_idx_is(j as int);
                }
                return Some(j);
            }
        }
        None
    }
}

/// Distinctness survives dropping the first element.
pub proof fn lemma_distinct_drop_first(s: Seq<Seq<char>>)
    requires
        distinct_seq(s),
        s.len() > 0,
    ensures
        distinct_seq(s.drop_first()),
{
    assert forall|i: int, j: int|
        0 <= i < j < s.drop_first().len() implies s.drop_first()[i] != s.drop_first()[j] by {
        assert(s.drop_first()[i] == s[i + 1]);
        assert(s.drop_first()[j] == s[j + 1]);
    }
}

/// Removing the sole occurrence of a value keeps the rest intact: the
/// result is still duplicate-free, no longer holds the value, and holds
/// exactly the other values.
pub proof fn lemma_remove_first_props(s: Seq<Seq<char>>, x: Seq<char>)
    requires
        distinct_seq(s),
    ensures
        distinct_seq(remove_first(s, x)),
        !remove_first(s, x).contains(x),
        forall|y: Seq<char>| y != x ==> remove_first(s, x).contains(y) == s.contains(y),
        s.contains(x) ==> remove_first(s, x).len() == s.len() - 1,
        !s.contains(x) ==> remove_first(s, x) == s,
    decreases s.len(),
{
    if s.len() == 0 {
        assert(!s.contains(x));
        lemma_remove_first_absent(s, x);
    } else if s.first() == x {
        let d = s.drop_first();
        assert(remove_first(s, x) == d);
        lemma_distinct_drop_first(s);
        assert(!d.contains(x)) by {
            if d.contains(x) {
                let j = choose|j: int| 0 <= j < d.len() && d[j] == x;
                assert(s[j + 1] == x && s[0] == x);
            }
        }
        assert(s.contains(x));
        assert forall|y: Seq<char>| y != x implies d.contains(y) == s.contains(y) by {
            if d.contains(y) {
                let j = choose|j: int| 0 <= j < d.len() && d[j] == y;
                assert(s[j + 1] == y);
            }
            if s.contains(y) {
                let j = choose|j: int| 0 <= j < s.len() && s[j] == y;
                assert(j != 0);
                assert(d[j - 1] == y);
            }
        }
    } else {
        let d = s.drop_first();
        lemma_distinct_drop_first(s);
        lemma_remove_first_props(d, x);
        let r = remove_first(s, x);
        assert(r == seq![s.first()] + remove_first(d, x));
        assert(r[0] == s.first());
        assert forall|k: int| 0 <= k < remove_first(d, x).len() implies r[k + 1] == remove_first(
            d,
            x,
        )[k] by {}
        assert(!d.contains(s.first())) by {
            if d.contains(s.first()) {
                let j = choose|j: int| 0 <= j < d.len() && d[j] == s.first();
                assert(s[j + 1] == s[0]);
            }
        }
        assert(!remove_first(d, x).contains(s.first()));
        assert forall|i: int, j: int| 0 <= i < j < r.len() implies r[i] != r[j] by {
            if i == 0 {
                assert(r[j] == remove_first(d, x)[j - 1]);
                assert(remove_first(d, x).contains(r[j]));
            } else {
                assert(r[i] == remove_first(d, x)[i - 1]);
                assert(r[j] == remove_first(d, x)[j - 1]);
            }
        }
        assert(!r.contains(x)) by {
            if r.contains(x) {
                let j = choose|j: int| 0 <= j < r.len() && r[j] == x;
                if j == 0 {
                    assert(s.first() == x);
                } else {
                    assert(remove_first(d, x)[j - 1] == x);
                    assert(remove_first(d, x).contains(x));
                }
            }
        }
        assert forall|y: Seq<char>| y != x implies r.contains(y) == s.contains(y) by {
            if r.contains(y) {
                let j = choose|j: int| 0 <= j < r.len() && r[j] == y;
                if j == 0 {
                    assert(s[0] == y);
                } else {
                    assert(remove_first(d, x).contains(y));
                    assert(d.contains(y));
                    let k = choose|k: int| 0 <= k < d.len() && d[k] == y;
                    assert(s[k + 1] == y);
                }
            }
            if s.contains(y) {
                let j = choose|j: int| 0 <= j < s.len() && s[j] == y;
                if j == 0 {
                    assert(r[0] == y);
                } else {
                    assert(d[j - 1] == y);
                    assert(d.contains(y));
                    assert(remove_first(d, x).contains(y));
                    let k = choose|k: int|
                        0 <= k < remove_first(d, x).len() && remove_first(d, x)[k] == y;
                    assert(r[k + 1] == y);
                }
            }
        }
        if s.contains(x) {
            assert(d.contains(x)) by {
                let j = choose|j: int| 0 <= j < s.len() && s[j] == x;
                assert(j != 0);
                assert(d[j - 1] == x);
            }
        }
        if d.contains(x) {
            let k = choose|k: int| 0 <= k < d.len() && d[k] == x;
            assert(s[k + 1] == x);
        }
    }
}

/// Appending a fresh value keeps a sequence duplicate-free.
pub proof fn lemma_distinct_push(s: Seq<Seq<char>>, x: Seq<char>)
    requires
        distinct_seq(s),
        !s.contains(x),
    ensures
        distinct_seq(s.push(x)),
{
    assert forall|i: int, j: int| 0 <= i < j < s.push(x).len() implies s.push(x)[i] != s.push(
        x,
    )[j] by {
        if j == s.len() {
            assert(s.push(x)[i] == s[i]);
            if s[i] == x {
                assert(s.contains(x));
            }
        }
    }
}

impl Room {
    /// Adds a member; no effect when already present.
    pub fn add_user(&mut self, addr: &String)
        requires
            old(self).wf(),
        ensures
            final(self).wf(),
            final(self).name == old(self).name,
            final(self).message_history == old(self).message_history,
            final(self).max_history == old(self).max_history,
            final(self).users_view() == if old(self).users_view().contains(addr@) {
                old(self).users_view()
            } else {
                old(self).users_view().push(addr@)
            },
            final(self).users_view().contains(addr@),
            forall|y: Seq<char>| final(self).users_view().contains(y) == (old(
                self,
            ).users_view().contains(y) || y == addr@),
    {
        if !contains_str(&self.users, addr) {
            self.users.push(addr.clone());
            proof {
                assert(str_views(self.users@) =~= str_views(old(self).users@).push(addr@));
                lemma_distinct_push(str_views(old(self).users@), addr@);
                assert(self.users_view()[self.users_view().len() - 1] == addr@);
                assert forall|y: Seq<char>|
                    self.users_view().contains(y) == (old(self).users_view().contains(y) || y
                        == addr@) by {
                    let nv = self.users_view();
                    let ov = old(self).users_view();
                    if nv.contains(y) {
                        let j = choose|j: int| 0 <= j < nv.len() && nv[j] == y;
                        if j < ov.len() {
                            assert(ov[j] == y);
                        }
                    }
                    if ov.contains(y) {
                        let j = choose|j: int| 0 <= j < ov.len() && ov[j] == y;
                        assert(nv[j] == y);
                    }
                }
            }
        }
    }

    /// Removes a member; no effect when absent.
    pub fn remove_user(&mut self, addr: &String)
        requires
            old(self).wf(),
        ensures
            final(self).wf(),
            final(self).name == old(self).name,
            final(self).message_history == old(self).message_history,
            final(self).max_history == old(self).max_history,
            final(self).users_view() == remove_first(old(self).users_view(), addr@),
            !final(self).users_view().contains(addr@),
            forall|y: Seq<char>| y != addr@ ==> final(self).users_view().contains(y) == old(
                self,
            ).users_view().contains(y),
    {
        proof {
            lemma_remove_first_props(str_views(old(self).users@), addr@);
        }
        remove_str(&mut self.users, addr);
    }
}

impl Client {
    /// Records a joined room; no effect when already recorded.
    pub fn add_room(&mut self, room_name: &String)
        requires
            old(self).wf(),
        ensures
            final(self).wf(),
            final(self).id == old(self).id,
            final(self).user_address == old(self).user_address,
            final(self).ens_name == old(self).ens_name,
            final(self).mailbox == old(self).mailbox,
            final(self).rooms_view() == if old(self).rooms_view().contains(room_name@) {
                old(self).rooms_view()
            } else {
                old(self).rooms_view().push(room_name@)
            },
            final(self).rooms_view().contains(room_name@),
            forall|y: Seq<char>| final(self).rooms_view().contains(y) == (old(
                self,
            ).rooms_view().contains(y) || y == room_name@),
    {
        if !contains_str(&self.current_rooms, room_name) {
            self.current_rooms.push(room_name.clone());
            proof {
                assert(str_views(self.current_rooms@) =~= str_views(
                    old(self).current_rooms@,
                ).push(room_name@));
                lemma_distinct_push(str_views(old(self).current_rooms@), room_name@);
                assert(self.rooms_view()[self.rooms_view().len() - 1] == room_name@);
                assert forall|y: Seq<char>|
                    self.rooms_view().contains(y) == (old(self).rooms_view().contains(y) || y
                        == room_name@) by {
                    let nv = self.rooms_view();
                    let ov = old(self).rooms_view();
                    if nv.contains(y) {
                        let j = choose|j: int| 0 <= j < nv.len() && nv[j] == y;
                        if j < ov.len() {
                            assert(ov[j] == y);
                        }
                    }
                    if ov.contains(y) {
                        let j = choose|j: int| 0 <= j < ov.len() && ov[j] == y;
                        assert(nv[j] == y);
                    }
                }
            }
        }
    }

    /// Forgets a joined room; no effect when absent.
    pub fn remove_room(&mut self, room_name: &String)
        requires
            old(self).wf(),
        ensures
            final(self).wf(),
            final(self).id == old(self).id,
            final(self).user_address == old(self).user_address,
            final(self).ens_name == old(self).ens_name,
            final(self).mailbox == old(self).mailbox,
            final(self).rooms_view() == remove_first(old(self).rooms_view(), room_name@),
            !final(self).rooms_view().contains(room_name@),
            forall|y: Seq<char>| y != room_name@ ==> final(self).rooms_view().contains(y) == old(
                self,
            ).rooms_view().contains(y),
    {
        proof {
            lemma_remove_first_props(str_views(old(self).current_rooms@), room_name@);
        }
        remove_str(&mut self.current_rooms, room_name);
    }
}

/// Mutable access to one room of the vector.
fn room_at_mut(rooms: &mut Vec<Room>, i: usize) -> (r: &mut Room)
    requires
        i < old(rooms)@.len(),
    ensures
        *r == old(rooms)@[i as int],
        final(rooms)@ == old(rooms)@.update(i as int, *final(r)),
{
    &mut rooms[i]
}

/// Mutable access to one client of the vector.
fn client_at_mut(clients: &mut Vec<Client>, i: usize) -> (r: &mut Client)
    requires
        i < old(clients)@.len(),
    ensures
        *r == old(clients)@[i as int],
        final(clients)@ == old(clients)@.update(i as int, *final(r)),
{
    &mut clients[i]
}

impl AppState {
    /// A fresh registry holding only the default room.
    pub fn new() -> (s: Self)
        ensures
            s.wf(),
            s.clients@.len() == 0,
            s.rooms@.len() == 1,
            s.the_room(default_room()).history_view() == Seq::<MessageV>::empty(),
            s.the_room(default_room()).users_view() == Seq::<Seq<char>>::empty(),
            s.user_auth_cache@.len() == 0,
            s.global@ == Seq::<MessageV>::empty(),
            s.global.capacity == GLOBAL_CHANNEL_CAPACITY,
    {
        let mut rooms: Vec<Room> = Vec::new();
        rooms.push(Room::new(default_room_name()));
        let s = AppState {
            clients: Vec::new(),
            rooms,
            user_auth_cache: Vec::new(),
            global: Mailbox::new(GLOBAL_CHANNEL_CAPACITY),
        };
        proof {
            assert(s.rooms@[0].name@ == default_room());
            assert(s.has_room(default_room()));
            assert(distinct_seq(s.client_addrs()));
            assert(distinct_seq(s.room_names()));
            assert(distinct_seq(s.cache_addrs()));
            s.lemma_room_idx_is(0);
        }
        s
    }
}

/// `joined` depends only on the clients vector.
pub proof fn lemma_joined_same_clients(s1: AppState, s2: AppState, a: Seq<char>, n: Seq<char>)
    requires
        s1.clients@ == s2.clients@,
        distinct_seq(s1.client_addrs()),
    ensures
        s1.joined(a, n) == s2.joined(a, n),
{
    assert(s2.client_addrs() =~= s1.client_addrs());
    if s1.joined(a, n) {
        let i = s1.client_idx(a);
        s2.lemma_client_idx_is(i);
    }
    if s2.joined(a, n) {
        let i = s2.client_idx(a);
        s1.lemma_client_idx_is(i);
    }
}

/// `member_of` depends only on the rooms vector.
pub proof fn lemma_member_same_rooms(s1: AppState, s2: AppState, a: Seq<char>, n: Seq<char>)
    requires
        s1.rooms@ == s2.rooms@,
        distinct_seq(s1.room_names()),
    ensures
        s1.member_of(a, n) == s2.member_of(a, n),
{
    assert(s2.room_names() =~= s1.room_names());
    if s1.member_of(a, n) {
        let j = s1.room_idx(n);
        s2.lemma_room_idx_is(j);
    }
    if s2.member_of(a, n) {
        let j = s2.room_idx(n);
        s1.lemma_room_idx_is(j);
    }
}

impl AppState {
    /// Removes the address from the room's member set and the room from the
    /// session's joined set; idempotent when either is already absent.
    pub fn leave_room(&mut self, user_address: &String, room_name: &String)
        requires
            old(self).wf(),
        ensures
            final(self).wf(),
            forall|a: Seq<char>, n: Seq<char>|
                #![trigger final(self).joined(a, n)]
                final(self).joined(a, n) == (old(self).joined(a, n) && !(a == user_address@ && n
                    == room_name@)),
            !final(self).member_of(user_address@, room_name@),
            final(self).client_addrs() == old(self).client_addrs(),
            final(self).room_names() == old(self).room_names(),
            forall|j: int|
                0 <= j < old(self).rooms@.len() ==> {
                    let orm = old(self).rooms@[j];
                    let nrm = #[trigger] final(self).rooms@[j];
                    nrm.name == orm.name && nrm.message_history == orm.message_history
                        && nrm.max_history == orm.max_history && nrm.users_view()
                        == if orm.name@ == room_name@ {
                        remove_first(orm.users_view(), user_address@)
                    } else {
                        orm.users_view()
                    }
                },
            forall|i: int|
                0 <= i < old(self).clients@.len() ==> {
                    let oc = old(self).clients@[i];
                    let nc = #[trigger] final(self).clients@[i];
                    nc.id == oc.id && nc.user_address == oc.user_address && nc.ens_name
                        == oc.ens_name && nc.mailbox == oc.mailbox && nc.rooms_view()
                        == if oc.user_address@ == user_address@ {
                        remove_first(oc.rooms_view(), room_name@)
                    } else {
                        oc.rooms_view()
                    }
                },
            final(self).user_auth_cache == old(self).user_auth_cache,
            final(self).global == old(self).global,
    {
        let ghost s0 = *old(self);
        let ri = match self.find_room(room_name) {
            Some(ri) => ri,
            None => {
                proof {
                    assert forall|a: Seq<char>, n: Seq<char>|
                        #![trigger s0.joined(a, n)]
                        s0.joined(a, n) == (s0.joined(a, n) && !(a == user_address@ && n
                            == room_name@)) by {
                        if s0.joined(a, n) && a == user_address@ && n == room_name@ {
                            s0.lemma_membership_consistent(a, n);
                            assert(s0.member_of(a, n));
                        }
                    }
                    assert forall|i: int| 0 <= i < s0.clients@.len() implies !(
                    #[trigger] s0.clients@[i]).rooms_view().contains(room_name@) by {
                        if s0.clients@[i].rooms_view().contains(room_name@) {
                            let k = choose|k: int|
                                0 <= k < s0.clients@[i].rooms_view().len()
                                    && s0.clients@[i].rooms_view()[k] == room_name@;
                            assert(s0.member_of(
                                s0.clients@[i].user_address@,
                                s0.clients@[i].rooms_view()[k],
                            ));
                        }
                    }
                    assert forall|i: int|
                        #![trigger s0.clients@[i]]
                        0 <= i < s0.clients@.len() implies {
                        let oc = s0.clients@[i];
                        oc.rooms_view() == if oc.user_address@ == user_address@ {
                            remove_first(oc.rooms_view(), room_name@)
                        } else {
                            oc.rooms_view()
                        }
                    } by {
                        let oc = s0.clients@[i];
                        assert(oc.wf());
                        lemma_remove_first_props(oc.rooms_view(), room_name@);
                    }
                }
                return ;
            },
        };
        let ghost orm = self.rooms@[ri as int];
        let ci_opt = self.find_client(user_address);
        let room = room_at_mut(&mut self.rooms, ri);
        room.remove_user(user_address);
        let ghost s2 = *self;
        proof {
            assert(s2.clients@ == s0.clients@);
            assert(s2.room_names() =~= s0.room_names());
        }
        if let Some(ci) = ci_opt {
            let client = client_at_mut(&mut self.clients, ci);
            client.remove_room(room_name);
            proof {
                assert(self.client_addrs() =~= s0.client_addrs());
            }
        } else {
            proof {
                // no session: consistency says the room cannot list the address
                if orm.users_view().contains(user_address@) {
                    let u = choose|u: int|
                        0 <= u < s0.rooms@[ri as int].users_view().len() && s0.rooms@[
                            ri as int
                        ].users_view()[u] == user_address@;
                    assert(s0.joined(
                        s0.rooms@[ri as int].users_view()[u],
                        s0.rooms@[ri as int].name@,
                    ));
                }
                lemma_remove_first_props(orm.users_view(), user_address@);
                assert forall|i: int|
                    #![trigger s0.clients@[i]]
                    0 <= i < s0.clients@.len() implies {
                    let oc = s0.clients@[i];
                    oc.rooms_view() == remove_first(oc.rooms_view(), room_name@) || oc.user_address@
                        != user_address@
                } by {
                    assert(s0.clients@[i].wf());
                }
            }
        }
        proof {
            let s3 = *self;
            let ua = user_address@;
            let rn = room_name@;
            // rooms pointwise
            assert forall|j: int| 0 <= j < s0.rooms@.len() implies {
                let orj = s0.rooms@[j];
                let nrj = #[trigger] s3.rooms@[j];
                nrj.name == orj.name && nrj.message_history == orj.message_history
                    && nrj.max_history == orj.max_history && nrj.users_view() == if orj.name@
                    == rn {
                    remove_first(orj.users_view(), ua)
                } else {
                    orj.users_view()
                }
            } by {
                if j != ri {
                    assert(s3.rooms@[j] == s0.rooms@[j]);
                    assert(s0.rooms@[j].wf());
                    if s0.rooms@[j].name@ == rn {
                        assert(s0.room_names()[j] == rn && s0.room_names()[ri as int] == rn);
                        assert(false);
                    }
                }
            }
            // clients pointwise
            assert forall|i: int| 0 <= i < s0.clients@.len() implies {
                let oc = s0.clients@[i];
                let nc = #[trigger] s3.clients@[i];
                nc.id == oc.id && nc.user_address == oc.user_address && nc.ens_name == oc.ens_name
                    && nc.mailbox == oc.mailbox && nc.rooms_view() == if oc.user_address@ == ua {
                    remove_first(oc.rooms_view(), rn)
                } else {
                    oc.rooms_view()
                }
            } by {
                if ci_opt is Some {
                    let ci = ci_opt.unwrap() as int;
                    if i != ci {
                        assert(s3.clients@[i] == s0.clients@[i]);
                        if s0.clients@[i].user_address@ == ua {
                            assert(s0.client_addrs()[i] == ua && s0.client_addrs()[ci] == ua);
                            assert(false);
                        }
                    }
                } else {
                    assert(s3.clients@[i] == s0.clients@[i]);
                    assert(s0.clients@[i].wf());
                    if s0.clients@[i].user_address@ == ua {
                        assert(s0.has_client(ua));
                        assert(false);
                    }
                }
            }
            // joined relation
            assert forall|a: Seq<char>, n: Seq<char>|
                #![trigger s3.joined(a, n)]
                s3.joined(a, n) == (s0.joined(a, n) && !(a == ua && n == rn)) by {
                assert(s3.client_addrs() =~= s0.client_addrs());
                if s3.joined(a, n) {
                    let i = s3.client_idx(a);
                    s0.lemma_client_idx_is(i);
                    assert(s3.clients@[i].rooms_view().contains(n));
                    if s0.clients@[i].user_address@ == ua {
                        lemma_remove_first_props(s0.clients@[i].rooms_view(), rn);
                        assert(s0.clients@[i].rooms_view().contains(n));
                        assert(n != rn);
                    }
                    assert(s0.joined(a, n));
                }
                if s0.joined(a, n) && !(a == ua && n == rn) {
                    let i = s0.client_idx(a);
                    s3.lemma_client_idx_is(i);
                    if s0.clients@[i].user_address@ == ua {
                        lemma_remove_first_props(s0.clients@[i].rooms_view(), rn);
                    }
                    assert(s3.clients@[i].rooms_view().contains(n));
                    assert(s3.joined(a, n));
                }
            }
            // well-formedness
            assert forall|i: int| 0 <= i < s3.clients@.len() implies (
            #[trigger] s3.clients@[i]).wf() by {
                assert(s0.clients@[i].wf());
                if s0.clients@[i].user_address@ == ua {
                    lemma_remove_first_props(s0.clients@[i].rooms_view(), rn);
                }
            }
            assert forall|j: int| 0 <= j < s3.rooms@.len() implies (#[trigger] s3.rooms@[j]).wf()
                by {
                assert(s0.rooms@[j].wf());
                if s0.rooms@[j].name@ == rn {
                    lemma_remove_first_props(s0.rooms@[j].users_view(), ua);
                }
            }
            assert(s3.room_names() =~= s0.room_names());
            assert(s3.client_addrs() =~= s0.client_addrs());
            // consistency
            assert forall|i: int, k: int|
                #![trigger s3.clients@[i].rooms_view()[k]]
                0 <= i < s3.clients@.len() && 0 <= k < s3.clients@[i].rooms_view().len()
                    implies s3.member_of(
                    s3.clients@[i].user_address@,
                    s3.clients@[i].rooms_view()[k],
                ) by {
                let a = s3.clients@[i].user_address@;
                let n = s3.clients@[i].rooms_view()[k];
                assert(s3.clients@[i].rooms_view().contains(n));
                s3.lemma_client_idx_is(i);
                assert(s3.joined(a, n));
                assert(s0.joined(a, n) && !(a == ua && n == rn));
                s0.lemma_membership_consistent(a, n);
                assert(s0.member_of(a, n));
                let j = s0.room_idx(n);
                s3.lemma_room_idx_is(j);
                if s0.rooms@[j].name@ == rn {
                    lemma_remove_first_props(s0.rooms@[j].users_view(), ua);
                    assert(a != ua || n == rn);
                    assert(s3.rooms@[j].users_view().contains(a));
                } else {
                    assert(s3.rooms@[j].users_view().contains(a));
                }
                assert(s3.member_of(a, n));
            }
            assert forall|j: int, u: int|
                #![trigger s3.rooms@[j].users_view()[u]]
                0 <= j < s3.rooms@.len() && 0 <= u < s3.rooms@[j].users_view().len()
                    implies s3.joined(s3.rooms@[j].users_view()[u], s3.rooms@[j].name@) by {
                let a = s3.rooms@[j].users_view()[u];
                let n = s3.rooms@[j].name@;
                assert(s3.rooms@[j].users_view().contains(a));
                if s0.rooms@[j].name@ == rn {
                    lemma_remove_first_props(s0.rooms@[j].users_view(), ua);
                    assert(a != ua);
                    assert(s0.rooms@[j].users_view().contains(a));
                } else {
                    assert(s0.rooms@[j].users_view().contains(a));
                }
                s0.lemma_room_idx_is(j);
                let u0 = choose|u0: int|
                    0 <= u0 < s0.rooms@[j].users_view().len() && s0.rooms@[j].users_view()[u0]
                        == a;
                assert(s0.joined(s0.rooms@[j].users_view()[u0], s0.rooms@[j].name@));
                assert(s0.joined(a, n));
                if a == ua && n == rn {
                    assert(false);
                }
                assert(s3.joined(a, n));
            }
            // default room untouched, caches untouched
            let j0 = s0.room_idx(default_room());
            assert(0 <= j0 < s0.rooms@.len() && s0.rooms@[j0].name@ == default_room());
            assert(s3.rooms@[j0].name == s0.rooms@[j0].name);
            assert(s3.has_room(default_room()));
            assert(s3.cache_addrs() =~= s0.cache_addrs());
            assert(s3.wf());
            // the leaver is out of the room
            s3.lemma_membership_consistent(ua, rn);
            assert(!s3.joined(ua, rn));
        }
    }
}

impl AppState {
    /// Joins the session to a room, creating the room on first reference.
    /// Returns whether a session with that address exists; membership is
    /// recorded only for an existing session, keeping the two registries
    /// consistent.
    pub fn join_room(&mut self, user_address: &String, room_name: &String) -> (r: bool)
        requires
            old(self).wf(),
        ensures
            final(self).wf(),
            r == old(self).has_client(user_address@),
            final(self).has_room(room_name@),
            r ==> final(self).joined(user_address@, room_name@),
            forall|a: Seq<char>, n: Seq<char>|
                #![trigger final(self).joined(a, n)]
                final(self).joined(a, n) == (old(self).joined(a, n) || (r && a == user_address@
                    && n == room_name@)),
            final(self).client_addrs() == old(self).client_addrs(),
            old(self).has_room(room_name@) ==> final(self).room_names() == old(self).room_names(),
            !old(self).has_room(room_name@) ==> final(self).room_names() == old(
                self,
            ).room_names().push(room_name@),
            forall|j: int|
                0 <= j < old(self).rooms@.len() ==> {
                    let orm = old(self).rooms@[j];
                    let nrm = #[trigger] final(self).rooms@[j];
                    nrm.name == orm.name && nrm.message_history == orm.message_history
                        && nrm.max_history == orm.max_history && nrm.users_view()
                        == if r && orm.name@ == room_name@ && !orm.users_view().contains(
                        user_address@,
                    ) {
                        orm.users_view().push(user_address@)
                    } else {
                        orm.users_view()
                    }
                },
            forall|i: int|
                0 <= i < old(self).clients@.len() ==> {
                    let oc = old(self).clients@[i];
                    let nc = #[trigger] final(self).clients@[i];
                    nc.id == oc.id && nc.user_address == oc.user_address && nc.ens_name
                        == oc.ens_name && nc.mailbox == oc.mailbox && nc.rooms_view()
                        == if oc.user_address@ == user_address@ && r
                        && !oc.rooms_view().contains(room_name@) {
                        oc.rooms_view().push(room_name@)
                    } else {
                        oc.rooms_view()
                    }
                },
            final(self).user_auth_cache == old(self).user_auth_cache,
            final(self).global == old(self).global,
            // a room created on first reference starts with an empty
            // history and only the joiner (if any) as member
            !old(self).has_room(room_name@) ==> ({
                &&& final(self).the_room(room_name@).history_view() == Seq::<MessageV>::empty()
                &&& final(self).the_room(room_name@).users_view() == if r {
                    seq![user_address@]
                } else {
                    Seq::<Seq<char>>::empty()
                }
            }),
    {
        let ghost s0 = *old(self);
        let ci_opt = self.find_client(user_address);
        let ri = match self.find_room(room_name) {
            Some(ri) => ri,
            None => {
                self.rooms.push(Room::new(room_name.clone()));
                proof {
                    let s1 = *self;
                    assert(s1.rooms@ =~= s0.rooms@.push(s1.rooms@[s1.rooms@.len() - 1]));
                    assert(s1.room_names() =~= s0.room_names().push(room_name@));
                    assert(distinct_seq(s1.room_names())) by {
                        lemma_distinct_push(s0.room_names(), room_name@);
                        assert(!s0.room_names().contains(room_name@)) by {
                            if s0.room_names().contains(room_name@) {
                                let j = choose|j: int|
                                    0 <= j < s0.room_names().len() && s0.room_names()[j]
                                        == room_name@;
                                assert(s0.rooms@[j].name@ == room_name@);
                                assert(s0.has_room(room_name@));
                            }
                        }
                    }
                    s1.lemma_room_idx_is(s1.rooms@.len() - 1);
                }
                self.rooms.len() - 1
            },
        };
        let ghost s1 = *self;
        proof {
            assert(s1.clients@ == s0.clients@);
            assert(s1.client_addrs() =~= s0.client_addrs());
            assert(0 <= ri < s1.rooms@.len() && s1.rooms@[ri as int].name@ == room_name@);
            s1.lemma_room_idx_is(ri as int);
            assert forall|j: int| 0 <= j < s0.rooms@.len() implies #[trigger] s1.rooms@[j]
                == s0.rooms@[j] by {}
            // membership and consistency carry over from s0 to s1
            assert forall|a: Seq<char>, n: Seq<char>|
                #![trigger s1.member_of(a, n)]
                s0.member_of(a, n) ==> s1.member_of(a, n) by {
                if s0.member_of(a, n) {
                    let j = s0.room_idx(n);
                    s1.lemma_room_idx_is(j);
                }
            }
        }
        let ci = match ci_opt {
            Some(ci) => ci,
            None => {
                proof {
                    let s1 = *self;
                    assert forall|a: Seq<char>, n: Seq<char>|
                        #![trigger s1.joined(a, n)]
                        s1.joined(a, n) == s0.joined(a, n) by {
                        lemma_joined_same_clients(s0, s1, a, n);
                    }
                    // consistency of the grown state
                    assert forall|i: int, k: int|
                        #![trigger s1.clients@[i].rooms_view()[k]]
                        0 <= i < s1.clients@.len() && 0 <= k < s1.clients@[i].rooms_view().len()
                            implies s1.member_of(
                            s1.clients@[i].user_address@,
                            s1.clients@[i].rooms_view()[k],
                        ) by {
                        assert(s0.member_of(
                            s0.clients@[i].user_address@,
                            s0.clients@[i].rooms_view()[k],
                        ));
                    }
                    assert forall|j: int, u: int|
                        #![trigger s1.rooms@[j].users_view()[u]]
                        0 <= j < s1.rooms@.len() && 0 <= u < s1.rooms@[j].users_view().len()
                            implies s1.joined(s1.rooms@[j].users_view()[u], s1.rooms@[j].name@)
                        by {
                        if j < s0.rooms@.len() {
                            assert(s0.joined(s0.rooms@[j].users_view()[u], s0.rooms@[j].name@));
                            lemma_joined_same_clients(
                                s0,
                                s1,
                                s1.rooms@[j].users_view()[u],
                                s1.rooms@[j].name@,
                            );
                        }
                    }
                    let j0 = s0.room_idx(default_room());
                    assert(s1.rooms@[j0].name@ == default_room());
                    assert(s1.has_room(default_room()));
                    assert(s1.cache_addrs() =~= s0.cache_addrs());
                    assert(s1.wf());
                }
                return false;
            },
        };
        let room = room_at_mut(&mut self.rooms, ri);
        room.add_user(user_address);
        let client = client_at_mut(&mut self.clients, ci);
        client.add_room(room_name);
        proof {
            let s3 = *self;
            let ua = user_address@;
            let rn = room_name@;
            assert(s3.client_addrs() =~= s0.client_addrs());
            assert(s3.room_names() =~= s1.room_names());
            assert(0 <= ci < s0.clients@.len() && s0.clients@[ci as int].user_address@ == ua);
            // rooms pointwise against s0
            assert forall|j: int| 0 <= j < s0.rooms@.len() implies {
                let orj = s0.rooms@[j];
                let nrj = #[trigger] s3.rooms@[j];
                nrj.name == orj.name && nrj.message_history == orj.message_history
                    && nrj.max_history == orj.max_history && nrj.users_view() == if orj.name@
                    == rn && !orj.users_view().contains(ua) {
                    orj.users_view().push(ua)
                } else {
                    orj.users_view()
                }
            } by {
                if j != ri {
                    assert(s3.rooms@[j] == s0.rooms@[j]);
                    if s0.rooms@[j].name@ == rn {
                        assert(s1.room_names()[j] == rn && s1.room_names()[ri as int] == rn);
                        assert(false);
                    }
                }
            }
            // clients pointwise against s0
            assert forall|i: int| 0 <= i < s0.clients@.len() implies {
                let oc = s0.clients@[i];
                let nc = #[trigger] s3.clients@[i];
                nc.id == oc.id && nc.user_address == oc.user_address && nc.ens_name == oc.ens_name
                    && nc.mailbox == oc.mailbox && nc.rooms_view() == if oc.user_address@ == ua
                    && !oc.rooms_view().contains(rn) {
                    oc.rooms_view().push(rn)
                } else {
                    oc.rooms_view()
                }
            } by {
                if i != ci {
                    assert(s3.clients@[i] == s0.clients@[i]);
                    if s0.clients@[i].user_address@ == ua {
                        assert(s0.client_addrs()[i] == ua && s0.client_addrs()[ci as int] == ua);
                        assert(false);
                    }
                }
            }
            // joined relation
            assert forall|a: Seq<char>, n: Seq<char>|
                #![trigger s3.joined(a, n)]
                s3.joined(a, n) == (s0.joined(a, n) || (a == ua && n == rn)) by {
                if s3.joined(a, n) {
                    let i = s3.client_idx(a);
                    s0.lemma_client_idx_is(i);
                    assert(s3.clients@[i].rooms_view().contains(n));
                    if i == ci && !s0.clients@[i].rooms_view().contains(rn) {
                        let k = choose|k: int|
                            0 <= k < s3.clients@[i].rooms_view().len() && s3.clients@[
                                i
                            ].rooms_view()[k] == n;
                        if k < s0.clients@[i].rooms_view().len() {
                            assert(s0.clients@[i].rooms_view()[k] == n);
                            assert(s0.joined(a, n));
                        } else {
                            assert(n == rn);
                        }
                    } else {
                        assert(s0.joined(a, n));
                    }
                }
                if s0.joined(a, n) {
                    let i = s0.client_idx(a);
                    s3.lemma_client_idx_is(i);
                    assert(s0.clients@[i].rooms_view().contains(n));
                    let k = choose|k: int|
                        0 <= k < s0.clients@[i].rooms_view().len() && s0.clients@[i].rooms_view()[k]
                            == n;
                    assert(s3.clients@[i].rooms_view()[k] == n);
                    assert(s3.joined(a, n));
                }
                if a == ua && n == rn {
                    s3.lemma_client_idx_is(ci as int);
                    assert(s3.clients@[ci as int].rooms_view().contains(rn));
                    assert(s3.joined(ua, rn));
                }
            }
            // well-formedness
            assert forall|i: int| 0 <= i < s3.clients@.len() implies (
            #[trigger] s3.clients@[i]).wf() by {
                assert(s0.clients@[i].wf());
            }
            assert forall|j: int| 0 <= j < s3.rooms@.len() implies (#[trigger] s3.rooms@[j]).wf()
                by {
                if j < s0.rooms@.len() {
                    assert(s0.rooms@[j].wf());
                }
                if j == ri {
                    assert(s3.rooms@[j].wf());
                }
            }
            // consistency
            assert forall|i: int, k: int|
                #![trigger s3.clients@[i].rooms_view()[k]]
                0 <= i < s3.clients@.len() && 0 <= k < s3.clients@[i].rooms_view().len()
                    implies s3.member_of(
                    s3.clients@[i].user_address@,
                    s3.clients@[i].rooms_view()[k],
                ) by {
                let a = s3.clients@[i].user_address@;
                let n = s3.clients@[i].rooms_view()[k];
                s3.lemma_client_idx_is(i);
                assert(s3.clients@[i].rooms_view().contains(n));
                assert(s3.joined(a, n));
                if s0.joined(a, n) {
                    s0.lemma_membership_consistent(a, n);
                    let j = s0.room_idx(n);
                    s3.lemma_room_idx_is(j);
                    assert(s0.rooms@[j].users_view().contains(n) || true);
                    let u = choose|u: int|
                        0 <= u < s0.rooms@[j].users_view().len() && s0.rooms@[j].users_view()[u]
                            == a;
                    if j == ri && !s0.rooms@[j].users_view().contains(ua) {
                        assert(s3.rooms@[j].users_view()[u] == a);
                    } else {
                        assert(s3.rooms@[j].users_view()[u] == a);
                    }
                    assert(s3.rooms@[j].users_view().contains(a));
                    assert(s3.member_of(a, n));
                } else {
                    assert(a == ua && n == rn);
                    s3.lemma_room_idx_is(ri as int);
                    assert(s3.rooms@[ri as int].users_view().contains(ua));
                    assert(s3.member_of(ua, rn));
                }
            }
            assert forall|j: int, u: int|
                #![trigger s3.rooms@[j].users_view()[u]]
                0 <= j < s3.rooms@.len() && 0 <= u < s3.rooms@[j].users_view().len()
                    implies s3.joined(s3.rooms@[j].users_view()[u], s3.rooms@[j].name@) by {
                let a = s3.rooms@[j].users_view()[u];
                let n = s3.rooms@[j].name@;
                if j == ri && u == s3.rooms@[j].users_view().len() - 1 && !s1.rooms@[
                    ri as int
                ].users_view().contains(ua) {
                    assert(s3.joined(a, n) || a != ua || true);
                }
                if s1.rooms@[j].users_view().contains(a) {
                    if j < s0.rooms@.len() {
                        let u0 = choose|u0: int|
                            0 <= u0 < s0.rooms@[j].users_view().len() && s0.rooms@[
                                j
                            ].users_view()[u0] == a;
                        assert(s0.joined(s0.rooms@[j].users_view()[u0], s0.rooms@[j].name@));
                        assert(s0.joined(a, n));
                        assert(s3.joined(a, n));
                    } else {
                        // the freshly created room had no members
                        assert(s1.rooms@[j].users_view().len() == 0);
                        assert(false);
                    }
                } else {
                    // the one new member is the joining session
                    assert(j == ri && a == ua && n == rn);
                    assert(s3.joined(ua, rn));
                }
            }
            let j0 = s0.room_idx(default_room());
            assert(s3.rooms@[j0].name == s0.rooms@[j0].name);
            assert(s3.has_room(default_room()));
            assert(s3.cache_addrs() =~= s0.cache_addrs());
            assert(s3.wf());
            assert(s3.rooms@[ri as int].name@ == rn);
            s3.lemma_room_idx_is(ri as int);
            assert(s3.has_room(rn));
            if !s0.has_room(rn) {
                assert(s1.rooms@[ri as int].history_view() == Seq::<MessageV>::empty());
                assert(s1.rooms@[ri as int].users_view() == Seq::<Seq<char>>::empty());
                assert(s3.the_room(rn).history_view() == Seq::<MessageV>::empty());
                assert(s3.the_room(rn).users_view() =~= seq![ua]);
            }
        }
        true
    }
}

/// `joined` is untouched by changes that keep every session's address and
/// room list.
pub proof fn lemma_joined_pointwise(s1: AppState, s2: AppState, a: Seq<char>, n: Seq<char>)
    requires
        s1.clients@.len() == s2.clients@.len(),
        forall|i: int|
            0 <= i < s1.clients@.len() ==> (#[trigger] s2.clients@[i]).user_address
                == s1.clients@[i].user_address && s2.clients@[i].current_rooms == s1.clients@[
                i
            ].current_rooms,
        distinct_seq(s1.client_addrs()),
    ensures
        s1.joined(a, n) == s2.joined(a, n),
{
    assert(s2.client_addrs() =~= s1.client_addrs());
    if s1.joined(a, n) {
        let i = s1.client_idx(a);
        s2.lemma_client_idx_is(i);
        assert(s2.clients@[i].rooms_view() == s1.clients@[i].rooms_view());
    }
    if s2.joined(a, n) {
        let i = s2.client_idx(a);
        s1.lemma_client_idx_is(i);
        assert(s2.clients@[i].rooms_view() == s1.clients@[i].rooms_view());
    }
}

/// `member_of` is untouched by changes that keep every room's name and
/// member list.
pub proof fn lemma_member_pointwise(s1: AppState, s2: AppState, a: Seq<char>, n: Seq<char>)
    requires
        s1.rooms@.len() == s2.rooms@.len(),
        forall|j: int|
            0 <= j < s1.rooms@.len() ==> (#[trigger] s2.rooms@[j]).name == s1.rooms@[j].name
                && s2.rooms@[j].users == s1.rooms@[j].users,
        distinct_seq(s1.room_names()),
    ensures
        s1.member_of(a, n) == s2.member_of(a, n),
{
    assert(s2.room_names() =~= s1.room_names());
    if s1.member_of(a, n) {
        let j = s1.room_idx(n);
        s2.lemma_room_idx_is(j);
        assert(s2.rooms@[j].users_view() == s1.rooms@[j].users_view());
    }
    if s2.member_of(a, n) {
        let j = s2.room_idx(n);
        s1.lemma_room_idx_is(j);
        assert(s2.rooms@[j].users_view() == s1.rooms@[j].users_view());
    }
}

impl AppState {
    /// Appends the message to the room's history (evicting the oldest entry
    /// past capacity) and delivers a copy to each current member's mailbox
    /// with drop-on-lag semantics.  A missing room is a no-op.
    pub fn broadcast_to_room(&mut self, room_name: &String, message: ServerMessage)
        requires
            old(self).wf(),
        ensures
            final(self).wf(),
            !old(self).has_room(room_name@) ==> *final(self) == *old(self),
            old(self).has_room(room_name@) ==> ({
                &&& final(self).room_names() == old(self).room_names()
                &&& final(self).client_addrs() == old(self).client_addrs()
                &&& forall|j: int|
                    0 <= j < old(self).rooms@.len() ==> ({
                        let orm = old(self).rooms@[j];
                        let nrm = #[trigger] final(self).rooms@[j];
                        &&& nrm.name == orm.name
                        &&& nrm.users == orm.users
                        &&& nrm.max_history == orm.max_history
                        &&& nrm.history_view() == if orm.name@ == room_name@ {
                            bounded_push(
                                orm.history_view(),
                                ROOM_HISTORY_CAPACITY as nat,
                                message@,
                            )
                        } else {
                            orm.history_view()
                        }
                    })
                &&& forall|i: int|
                    0 <= i < old(self).clients@.len() ==> ({
                        let oc = old(self).clients@[i];
                        let nc = #[trigger] final(self).clients@[i];
                        &&& nc.id == oc.id
                        &&& nc.user_address == oc.user_address
                        &&& nc.ens_name == oc.ens_name
                        &&& nc.current_rooms == oc.current_rooms
                        &&& nc.mailbox.capacity == oc.mailbox.capacity
                        &&& nc.mailbox@ == if old(self).the_room(
                            room_name@,
                        ).users_view().contains(oc.user_address@) {
                            bounded_push(oc.mailbox@, MAILBOX_CAPACITY as nat, message@)
                        } else {
                            oc.mailbox@
                        }
                    })
                &&& final(self).user_auth_cache == old(self).user_auth_cache
                &&& final(self).global == old(self).global
            }),
    {
        let ghost s0 = *old(self);
        let ri = match self.find_room(room_name) {
            Some(ri) => ri,
            None => {
                return ;
            },
        };
        let users = dup_string_vec(&self.rooms[ri].users);
        proof {
            assert(str_views(users@) == s0.the_room(room_name@).users_view());
        }
        let n = self.clients.len();
        for i in 0..n
            invariant
                s0.wf(),
                n == self.clients@.len(),
                n == s0.clients@.len(),
                self.rooms@ == s0.rooms@,
                self.user_auth_cache == s0.user_auth_cache,
                self.global == s0.global,
                str_views(users@) == s0.the_room(room_name@).users_view(),
                forall|k: int|
                    0 <= k < i ==> ({
                        let oc = s0.clients@[k];
                        let nc = #[trigger] self.clients@[k];
                        &&& nc.id == oc.id
                        &&& nc.user_address == oc.user_address
                        &&& nc.ens_name == oc.ens_name
                        &&& nc.current_rooms == oc.current_rooms
                        &&& nc.mailbox.capacity == oc.mailbox.capacity
                        &&& nc.mailbox.wf()
                        &&& nc.mailbox@ == if s0.the_room(room_name@).users_view().contains(
                            oc.user_address@,
                        ) {
                            bounded_push(oc.mailbox@, MAILBOX_CAPACITY as nat, message@)
                        } else {
                            oc.mailbox@
                        }
                    }),
                forall|k: int| i <= k < n ==> #[trigger] self.clients@[k] == s0.clients@[k],
        {
            let is_member = contains_str(&users, &self.clients[i].user_address);
            if is_member {
                let c = client_at_mut(&mut self.clients, i);
                c.mailbox.push(message.duplicate());
            }
        }
        let ghost s2 = *self;
        let room = room_at_mut(&mut self.rooms, ri);
        room.push_history(message);
        proof {
            let s3 = *self;
            let rn = room_name@;
            assert(s3.client_addrs() =~= s0.client_addrs());
            assert(s3.room_names() =~= s0.room_names());
            assert forall|j: int| 0 <= j < s0.rooms@.len() implies ({
                let orm = s0.rooms@[j];
                let nrm = #[trigger] s3.rooms@[j];
                &&& nrm.name == orm.name
                &&& nrm.users == orm.users
                &&& nrm.max_history == orm.max_history
                &&& nrm.history_view() == if orm.name@ == rn {
                    bounded_push(orm.history_view(), ROOM_HISTORY_CAPACITY as nat, message@)
                } else {
                    orm.history_view()
                }
            }) by {
                if j != ri {
                    assert(s3.rooms@[j] == s0.rooms@[j]);
                    if s0.rooms@[j].name@ == rn {
                        assert(s0.room_names()[j] == rn && s0.room_names()[ri as int] == rn);
                        assert(false);
                    }
                }
            }
            assert forall|i: int| 0 <= i < s3.clients@.len() implies (
            #[trigger] s3.clients@[i]).wf() by {
                assert(s0.clients@[i].wf());
            }
            assert forall|j: int| 0 <= j < s3.rooms@.len() implies (#[trigger] s3.rooms@[j]).wf()
                by {
                assert(s0.rooms@[j].wf());
            }
            assert forall|i: int, k: int|
                #![trigger s3.clients@[i].rooms_view()[k]]
                0 <= i < s3.clients@.len() && 0 <= k < s3.clients@[i].rooms_view().len()
                    implies s3.member_of(
                    s3.clients@[i].user_address@,
                    s3.clients@[i].rooms_view()[k],
                ) by {
                assert(s3.clients@[i].rooms_view() == s0.clients@[i].rooms_view());
                assert(s0.member_of(s0.clients@[i].user_address@, s0.clients@[i].rooms_view()[k]));
                lemma_member_pointwise(
                    s0,
                    s3,
                    s0.clients@[i].user_address@,
                    s0.clients@[i].rooms_view()[k],
                );
            }
            assert forall|j: int, u: int|
                #![trigger s3.rooms@[j].users_view()[u]]
                0 <= j < s3.rooms@.len() && 0 <= u < s3.rooms@[j].users_view().len()
                    implies s3.joined(s3.rooms@[j].users_view()[u], s3.rooms@[j].name@) by {
                assert(s3.rooms@[j].users_view() == s0.rooms@[j].users_view());
                assert(s0.joined(s0.rooms@[j].users_view()[u], s0.rooms@[j].name@));
                lemma_joined_pointwise(s0, s3, s0.rooms@[j].users_view()[u], s0.rooms@[j].name@);
            }
            let j0 = s0.room_idx(default_room());
            assert(s3.rooms@[j0].name == s0.rooms@[j0].name);
            assert(s3.has_room(default_room()));
            assert(s3.cache_addrs() =~= s0.cache_addrs());
            assert(s3.wf());
        }
    }

    /// Publishes to the global fan-out channel; a lagging subscriber drops
    /// its oldest unread entries, the publisher never blocks.
    pub fn broadcast_global(&mut self, message: ServerMessage)
        requires
            old(self).wf(),
        ensures
            final(self).wf(),
            final(self).global@ == bounded_push(
                old(self).global@,
                GLOBAL_CHANNEL_CAPACITY as nat,
                message@,
            ),
            final(self).clients == old(self).clients,
            final(self).rooms == old(self).rooms,
            final(self).user_auth_cache == old(self).user_auth_cache,
    {
        let ghost s0 = *old(self);
        self.global.push(message);
        proof {
            let s3 = *self;
            assert(s3.client_addrs() =~= s0.client_addrs());
            assert(s3.room_names() =~= s0.room_names());
            assert(s3.cache_addrs() =~= s0.cache_addrs());
            assert forall|a: Seq<char>, n: Seq<char>|
                #![trigger s3.joined(a, n)]
                s3.joined(a, n) == s0.joined(a, n) by {
                lemma_joined_same_clients(s0, s3, a, n);
            }
            assert forall|i: int, k: int|
                #![trigger s3.clients@[i].rooms_view()[k]]
                0 <= i < s3.clients@.len() && 0 <= k < s3.clients@[i].rooms_view().len()
                    implies s3.member_of(
                    s3.clients@[i].user_address@,
                    s3.clients@[i].rooms_view()[k],
                ) by {
                assert(s0.member_of(s0.clients@[i].user_address@, s0.clients@[i].rooms_view()[k]));
                lemma_member_same_rooms(
                    s0,
                    s3,
                    s0.clients@[i].user_address@,
                    s0.clients@[i].rooms_view()[k],
                );
            }
            assert forall|j: int, u: int|
                #![trigger s3.rooms@[j].users_view()[u]]
                0 <= j < s3.rooms@.len() && 0 <= u < s3.rooms@[j].users_view().len()
                    implies s3.joined(s3.rooms@[j].users_view()[u], s3.rooms@[j].name@) by {
                assert(s0.joined(s0.rooms@[j].users_view()[u], s0.rooms@[j].name@));
                lemma_joined_same_clients(s0, s3, s0.rooms@[j].users_view()[u], s0.rooms@[j].name@);
            }
            assert(s3.wf());
        }
    }
}

/// The leave notice recorded in a room when a departing session is scrubbed.
pub open spec fn leave_notice(
    a: Seq<char>,
    n: Seq<char>,
    now: i64,
    ens: Option<Seq<char>>,
) -> MessageV {
    MessageV::UserLeft { user: a, room: n, timestamp: now, ens_name: ens }
}

impl AppState {
    /// Detaches the session from every joined room (optionally broadcasting
    /// one leave notice per room) and removes the session entry.  Returns
    /// the names of the rooms that were left, in join order.
    #[verifier::rlimit(100)]
    fn excise_session(&mut self, user_address: &String, now: i64, notify: bool) -> (left: Vec<
        String,
    >)
        requires
            old(self).wf(),
        ensures
            final(self).wf(),
            !final(self).has_client(user_address@),
            !old(self).has_client(user_address@) ==> (*final(self) == *old(self) && left@.len()
                == 0),
            old(self).has_client(user_address@) ==> ({
                &&& str_views(left@) == old(self).the_client(user_address@).rooms_view()
                &&& distinct_seq(str_views(left@))
            }),
            forall|a: Seq<char>| #[trigger]
                final(self).has_client(a) == (old(self).has_client(a) && a != user_address@),
            forall|a: Seq<char>, n: Seq<char>|
                #![trigger final(self).joined(a, n)]
                final(self).joined(a, n) == (old(self).joined(a, n) && a != user_address@),
            forall|a: Seq<char>|
                a != user_address@ && old(self).has_client(a) ==> ({
                    let oc = old(self).the_client(a);
                    let nc = #[trigger] final(self).the_client(a);
                    &&& nc.id == oc.id
                    &&& nc.user_address == oc.user_address
                    &&& nc.ens_name == oc.ens_name
                    &&& nc.rooms_view() == oc.rooms_view()
                    &&& (notify || nc.mailbox == oc.mailbox)
                }),
            final(self).room_names() == old(self).room_names(),
            forall|j: int|
                0 <= j < old(self).rooms@.len() ==> ({
                    let orm = old(self).rooms@[j];
                    let nrm = #[trigger] final(self).rooms@[j];
                    let was_joined = old(self).has_client(user_address@) && old(self).the_client(
                        user_address@,
                    ).rooms_view().contains(orm.name@);
                    &&& nrm.name == orm.name
                    &&& nrm.max_history == orm.max_history
                    &&& nrm.users_view() == if was_joined {
                        remove_first(orm.users_view(), user_address@)
                    } else {
                        orm.users_view()
                    }
                    &&& nrm.history_view() == if notify && was_joined {
                        bounded_push(
                            orm.history_view(),
                            ROOM_HISTORY_CAPACITY as nat,
                            leave_notice(
                                user_address@,
                                orm.name@,
                                now,
                                opt_view(old(self).the_client(user_address@).ens_name),
                            ),
                        )
                    } else {
                        orm.history_view()
                    }
                }),
            final(self).user_auth_cache == old(self).user_auth_cache,
            notify || final(self).global == old(self).global,
            final(self).global.capacity == old(self).global.capacity,
    {
        let ghost s0 = *old(self);
        let (prior, ens0) = match self.find_client(user_address) {
            Some(ci) => (
                dup_string_vec(&self.clients[ci].current_rooms),
                dup_opt_string(&self.clients[ci].ens_name),
            ),
            None => {
                proof {
                    assert forall|a: Seq<char>, n: Seq<char>|
                        #![trigger s0.joined(a, n)]
                        s0.joined(a, n) == (s0.joined(a, n) && a != user_address@) by {
                        if a == user_address@ && s0.joined(a, n) {
                            assert(s0.has_client(a));
                        }
                    }
                }
                return Vec::new();
            },
        };
        let ghost ua = user_address@;
        let ghost pv = s0.the_client(ua).rooms_view();
        let ghost ensv = opt_view(s0.the_client(ua).ens_name);
        proof {
            assert(str_views(prior@) == pv);
            assert(distinct_seq(pv)) by {
                let ci0 = s0.client_idx(ua);
                assert(s0.clients@[ci0].wf());
            }
            assert(ensv == opt_view(ens0));
            assert(pv.skip(0) =~= pv);
            assert(pv.take(0) =~= Seq::<Seq<char>>::empty());
        }
        let k = prior.len();
        for idx in 0..k
            invariant
                s0.wf(),
                self.wf(),
                k == prior@.len(),
                str_views(prior@) == pv,
                pv == s0.the_client(ua).rooms_view(),
                distinct_seq(pv),
                ua == user_address@,
                ensv == opt_view(ens0),
                s0.has_client(ua),
                self.client_addrs() == s0.client_addrs(),
                self.room_names() == s0.room_names(),
                self.user_auth_cache == s0.user_auth_cache,
                notify || self.global == s0.global,
                self.global.capacity == s0.global.capacity,
                self.has_client(ua),
                self.the_client(ua).rooms_view() == pv.skip(idx as int),
                forall|a: Seq<char>|
                    a != ua && s0.has_client(a) ==> ({
                        let oc = s0.the_client(a);
                        let nc = #[trigger] self.the_client(a);
                        &&& nc.id == oc.id
                        &&& nc.user_address == oc.user_address
                        &&& nc.ens_name == oc.ens_name
                        &&& nc.rooms_view() == oc.rooms_view()
                        &&& (notify || nc.mailbox == oc.mailbox)
                    }),
                forall|a: Seq<char>| #[trigger] self.has_client(a) == s0.has_client(a),
                forall|j: int|
                    0 <= j < s0.rooms@.len() ==> ({
                        let orm = s0.rooms@[j];
                        let nrm = #[trigger] self.rooms@[j];
                        let done = pv.take(idx as int).contains(orm.name@);
                        &&& nrm.name == orm.name
                        &&& nrm.max_history == orm.max_history
                        &&& nrm.users_view() == if done {
                            remove_first(orm.users_view(), ua)
                        } else {
                            orm.users_view()
                        }
                        &&& nrm.history_view() == if notify && done {
                            bounded_push(
                                orm.history_view(),
                                ROOM_HISTORY_CAPACITY as nat,
                                leave_notice(ua, orm.name@, now, ensv),
                            )
                        } else {
                            orm.history_view()
                        }
                    }),
                forall|a: Seq<char>, n: Seq<char>|
                    #![trigger self.joined(a, n)]
                    self.joined(a, n) == (s0.joined(a, n) && !(a == ua && pv.take(
                        idx as int,
                    ).contains(n))),
        {
            let ghost spre = *self;
            let room_name = &prior[idx];
            proof {
                assert(str_views(prior@)[idx as int] == room_name@);
                assert(room_name@ == pv[idx as int]);
                assert(pv.skip(idx as int)[0] == pv[idx as int]);
                assert(spre.the_client(ua).rooms_view().contains(room_name@));
                assert(spre.joined(ua, room_name@)) by {
                    let ci0 = spre.client_idx(ua);
                }
                assert(!pv.take(idx as int).contains(room_name@)) by {
                    if pv.take(idx as int).contains(room_name@) {
                        let t = choose|t: int|
                            0 <= t < idx && #[trigger] pv.take(idx as int)[t] == room_name@;
                        assert(pv[t] == pv[idx as int]);
                    }
                }
            }
            self.leave_room(user_address, room_name);
            let ghost smid = *self;
            if notify {
                let notice = ServerMessage::UserLeft {
                    user: user_address.clone(),
                    room: room_name.clone(),
                    timestamp: now,
                    ens_name: dup_opt_string(&ens0),
                };
                proof {
                    assert(notice@ == leave_notice(ua, room_name@, now, ensv));
                    // the room exists: it was joined in s0
                    spre.lemma_membership_consistent(ua, room_name@);
                    assert(spre.member_of(ua, room_name@));
                    assert(spre.has_room(room_name@));
                    let j = spre.room_idx(room_name@);
                    assert(0 <= j < spre.rooms@.len() && spre.rooms@[j].name@ == room_name@);
                    assert(smid.rooms@.len() == spre.rooms@.len()) by {
                        assert(smid.room_names().len() == spre.room_names().len());
                    }
                    smid.lemma_room_idx_is(j);
                    assert(smid.has_room(room_name@));
                }
                self.broadcast_to_room(room_name, notice);
            }
            proof {
                let snow = *self;
                let rn = room_name@;
                assert(snow.client_addrs() =~= s0.client_addrs());
                assert(spre.clients@.len() == s0.clients@.len()) by {
                    assert(spre.client_addrs().len() == s0.client_addrs().len());
                }
                assert(spre.rooms@.len() == s0.rooms@.len()) by {
                    assert(spre.room_names().len() == s0.room_names().len());
                }
                assert(smid.rooms@.len() == spre.rooms@.len()) by {
                    assert(smid.room_names().len() == spre.room_names().len());
                }
                assert(snow.rooms@.len() == smid.rooms@.len()) by {
                    assert(snow.room_names().len() == smid.room_names().len());
                }
                assert forall|i: int|
                    0 <= i < s0.clients@.len() implies (#[trigger] spre.clients@[i]).user_address@
                        == s0.clients@[i].user_address@ by {
                    assert(spre.client_addrs()[i] == s0.client_addrs()[i]);
                    assert(spre.client_addrs()[i] == spre.clients@[i].user_address@);
                    assert(s0.client_addrs()[i] == s0.clients@[i].user_address@);
                }
                // joined relation advance
                assert forall|a: Seq<char>, n: Seq<char>|
                    #![trigger snow.joined(a, n)]
                    snow.joined(a, n) == (s0.joined(a, n) && !(a == ua && pv.take(
                        idx + 1,
                    ).contains(n))) by {
                    if notify {
                        lemma_joined_pointwise(smid, snow, a, n);
                    }
                    assert(smid.joined(a, n) == (spre.joined(a, n) && !(a == ua && n == rn)));
                    assert(pv.take(idx + 1) =~= pv.take(idx as int).push(rn));
                    if pv.take(idx + 1).contains(n) {
                        let t = choose|t: int| 0 <= t < idx + 1 && #[trigger] pv.take(idx + 1)[t] == n;
                        if t < idx {
                            assert(pv.take(idx as int)[t] == n);
                        } else {
                            assert(n == rn);
                        }
                    }
                    if pv.take(idx as int).contains(n) {
                        let t = choose|t: int| 0 <= t < idx && #[trigger] pv.take(idx as int)[t] == n;
                        assert(pv.take(idx + 1)[t] == n);
                    }
                    if n == rn {
                        assert(pv.take(idx + 1)[idx as int] == rn);
                    }
                }
                // the ua client's remaining rooms
                assert(snow.clients@.len() == s0.clients@.len()) by {
                    assert(snow.client_addrs().len() == s0.client_addrs().len());
                }
                assert(smid.clients@.len() == spre.clients@.len()) by {
                    assert(smid.client_addrs().len() == spre.client_addrs().len());
                }
                assert(snow.clients@.len() == smid.clients@.len()) by {
                    assert(snow.client_addrs().len() == smid.client_addrs().len());
                }
                assert(snow.has_client(ua)) by {
                    let i = spre.client_idx(ua);
                    assert(0 <= i < spre.clients@.len() && spre.clients@[i].user_address@ == ua);
                    assert(smid.clients@[i].user_address == spre.clients@[i].user_address);
                    assert(snow.clients@[i].user_address == smid.clients@[i].user_address);
                }
                let ci_now = snow.client_idx(ua);
                let ci_pre = spre.client_idx(ua);
                assert(snow.the_client(ua).rooms_view() =~= pv.skip(idx + 1)) by {
                    assert(spre.the_client(ua).rooms_view() == pv.skip(idx as int));
                    assert(smid.clients@[ci_pre].rooms_view() == remove_first(
                        pv.skip(idx as int),
                        rn,
                    ));
                    assert(pv.skip(idx as int)[0] == rn);
                    assert(remove_first(pv.skip(idx as int), rn) == pv.skip(idx as int)
                        .drop_first());
                    assert(pv.skip(idx as int).drop_first() =~= pv.skip(idx + 1));
                    smid.lemma_client_idx_is(ci_pre);
                    if notify {
                        assert(snow.clients@[ci_pre].current_rooms == smid.clients@[
                            ci_pre
                        ].current_rooms);
                        snow.lemma_client_idx_is(ci_pre);
                    }
                }
                // other clients keep their fields
                assert forall|a: Seq<char>| a != ua && s0.has_client(a) implies ({
                    let oc = s0.the_client(a);
                    let nc = #[trigger] snow.the_client(a);
                    &&& nc.id == oc.id
                    &&& nc.user_address == oc.user_address
                    &&& nc.ens_name == oc.ens_name
                    &&& nc.rooms_view() == oc.rooms_view()
                    &&& (notify || nc.mailbox == oc.mailbox)
                }) by {
                    assert(spre.has_client(a));
                    let i0 = spre.client_idx(a);
                    assert(0 <= i0 < spre.clients@.len() && spre.clients@[i0].user_address@ == a);
                    assert(spre.the_client(a) == spre.clients@[i0]);
                    assert(smid.clients@[i0].user_address == spre.clients@[i0].user_address);
                    smid.lemma_client_idx_is(i0);
                    snow.lemma_client_idx_is(i0);
                }
                assert forall|a: Seq<char>| #[trigger]
                    snow.has_client(a) == s0.has_client(a) by {
                    if snow.has_client(a) {
                        let i = snow.client_idx(a);
                        assert(0 <= i < snow.clients@.len() && snow.clients@[i].user_address@
                            == a);
                        assert(snow.clients@[i].user_address == smid.clients@[i].user_address);
                        assert(smid.clients@[i].user_address == spre.clients@[i].user_address);
                        assert(s0.clients@[i].user_address@ == a);
                    }
                    if s0.has_client(a) {
                        let i = s0.client_idx(a);
                        assert(0 <= i < s0.clients@.len() && s0.clients@[i].user_address@ == a);
                        assert(smid.clients@[i].user_address == spre.clients@[i].user_address);
                        assert(snow.clients@[i].user_address == smid.clients@[i].user_address);
                        assert(snow.clients@[i].user_address@ == a);
                    }
                }
                // rooms advance
                assert forall|j: int| 0 <= j < s0.rooms@.len() implies ({
                    let orm = s0.rooms@[j];
                    let nrm = #[trigger] snow.rooms@[j];
                    let done = pv.take(idx + 1).contains(orm.name@);
                    &&& nrm.name == orm.name
                    &&& nrm.max_history == orm.max_history
                    &&& nrm.users_view() == if done {
                        remove_first(orm.users_view(), ua)
                    } else {
                        orm.users_view()
                    }
                    &&& nrm.history_view() == if notify && done {
                        bounded_push(
                            orm.history_view(),
                            ROOM_HISTORY_CAPACITY as nat,
                            leave_notice(ua, orm.name@, now, ensv),
                        )
                    } else {
                        orm.history_view()
                    }
                }) by {
                    let orm = s0.rooms@[j];
                    assert(pv.take(idx + 1) =~= pv.take(idx as int).push(rn));
                    if pv.take(idx + 1).contains(orm.name@) {
                        let t = choose|t: int|
                            0 <= t < idx + 1 && #[trigger] pv.take(idx + 1)[t] == orm.name@;
                        if t < idx {
                            assert(pv.take(idx as int)[t] == orm.name@);
                        }
                    }
                    if pv.take(idx as int).contains(orm.name@) {
                        let t = choose|t: int|
                            0 <= t < idx && #[trigger] pv.take(idx as int)[t] == orm.name@;
                        assert(pv.take(idx + 1)[t] == orm.name@);
                    }
                    if orm.name@ == rn {
                        assert(pv.take(idx + 1)[idx as int] == rn);
                        assert(!pv.take(idx as int).contains(rn));
                        // this room was untouched before this step
                        assert(spre.rooms@[j].users_view() == orm.users_view());
                        assert(spre.rooms@[j].history_view() == orm.history_view());
                        if notify {
                            let jx = spre.room_idx(rn);
                            assert(spre.rooms@[j].name@ == rn);
                            spre.lemma_room_idx_is(j);
                            assert(jx == j);
                            assert(smid.the_room(rn) == smid.rooms@[j]) by {
                                smid.lemma_room_idx_is(j);
                            }
                        }
                    } else {
                        assert(spre.rooms@[j].name@ != rn);
                    }
                }
            }
        }
        // the session now lists no rooms; drop its entry
        let ghost sd = *self;
        proof {
            assert(pv.take(k as int) =~= pv);
            assert(pv.skip(k as int) =~= Seq::<Seq<char>>::empty());
        }
        let ci = match self.find_client(user_address) {
            Some(ci) => ci,
            None => {
                proof {
                    assert(false);
                }
                return prior;
            },
        };
        self.clients.remove(ci);
        proof {
            let s3 = *self;
            assert(s3.clients@ =~= sd.clients@.remove(ci as int));
            assert(s3.client_addrs() =~= sd.client_addrs().remove(ci as int));
            assert forall|i: int, j: int|
                0 <= i < j < s3.client_addrs().len() implies s3.client_addrs()[i]
                    != s3.client_addrs()[j] by {
                if j < ci {
                    assert(sd.client_addrs()[i] == s3.client_addrs()[i]);
                } else if i < ci {
                    assert(s3.client_addrs()[j] == sd.client_addrs()[j + 1]);
                } else {
                    assert(s3.client_addrs()[i] == sd.client_addrs()[i + 1]);
                    assert(s3.client_addrs()[j] == sd.client_addrs()[j + 1]);
                }
            }
            // no room lists ua
            assert forall|j: int, u: int|
                #![trigger s3.rooms@[j].users_view()[u]]
                0 <= j < s3.rooms@.len() && 0 <= u < s3.rooms@[j].users_view().len()
                    implies s3.joined(s3.rooms@[j].users_view()[u], s3.rooms@[j].name@) by {
                let a = s3.rooms@[j].users_view()[u];
                let n = s3.rooms@[j].name@;
                assert(sd.rooms@[j] == s3.rooms@[j]);
                assert(sd.joined(a, n));
                assert(a != ua) by {
                    if a == ua {
                        assert(sd.joined(ua, n));
                        assert(sd.the_client(ua).rooms_view().contains(n));
                    }
                }
                let i0 = sd.client_idx(a);
                assert(sd.clients@[i0].user_address@ == a);
                assert(i0 != ci);
                let i3: int = if i0 < ci {
                    i0
                } else {
                    i0 - 1
                };
                assert(s3.clients@[i3] == sd.clients@[i0]);
                s3.lemma_client_idx_is(i3);
            }
            assert forall|i: int, k2: int|
                #![trigger s3.clients@[i].rooms_view()[k2]]
                0 <= i < s3.clients@.len() && 0 <= k2 < s3.clients@[i].rooms_view().len()
                    implies s3.member_of(
                    s3.clients@[i].user_address@,
                    s3.clients@[i].rooms_view()[k2],
                ) by {
                let iold: int = if i < ci {
                    i
                } else {
                    i + 1
                };
                assert(s3.clients@[i] == sd.clients@[iold]);
                assert(sd.member_of(
                    sd.clients@[iold].user_address@,
                    sd.clients@[iold].rooms_view()[k2],
                ));
                lemma_member_same_rooms(
                    sd,
                    s3,
                    sd.clients@[iold].user_address@,
                    sd.clients@[iold].rooms_view()[k2],
                );
            }
            assert forall|i: int| 0 <= i < s3.clients@.len() implies (
            #[trigger] s3.clients@[i]).wf() by {
                let iold: int = if i < ci {
                    i
                } else {
                    i + 1
                };
                assert(s3.clients@[i] == sd.clients@[iold]);
                assert(sd.clients@[iold].wf());
            }
            assert forall|j: int| 0 <= j < s3.rooms@.len() implies (#[trigger] s3.rooms@[j]).wf()
                by {
                assert(sd.rooms@[j].wf());
            }
            assert(s3.room_names() =~= sd.room_names());
            assert(s3.cache_addrs() =~= sd.cache_addrs());
            // membership of other sessions
            assert forall|a: Seq<char>| #[trigger]
                s3.has_client(a) == (s0.has_client(a) && a != ua) by {
                if s3.has_client(a) {
                    let i = s3.client_idx(a);
                    let iold: int = if i < ci {
                        i
                    } else {
                        i + 1
                    };
                    assert(s3.clients@[i] == sd.clients@[iold]);
                    assert(sd.has_client(a));
                    if a == ua {
                        sd.lemma_client_idx_is(iold);
                        assert(iold == ci);
                        assert(false);
                    }
                }
                if s0.has_client(a) && a != ua {
                    assert(sd.has_client(a));
                    let i = sd.client_idx(a);
                    sd.lemma_client_idx_is(i);
                    assert(i != ci) by {
                        if i == ci {
                            assert(sd.clients@[ci as int].user_address@ == ua);
                        }
                    }
                    let i3: int = if i < ci {
                        i
                    } else {
                        i - 1
                    };
                    assert(s3.clients@[i3] == sd.clients@[i]);
                }
            }
            assert(sd.clients@[ci as int].user_address@ == ua);
            assert forall|a: Seq<char>, n: Seq<char>|
                #![trigger s3.joined(a, n)]
                s3.joined(a, n) == (s0.joined(a, n) && a != ua) by {
                if s3.joined(a, n) {
                    let i = s3.client_idx(a);
                    let iold: int = if i < ci {
                        i
                    } else {
                        i + 1
                    };
                    assert(s3.clients@[i] == sd.clients@[iold]);
                    sd.lemma_client_idx_is(iold);
                    assert(sd.joined(a, n));
                    assert(a != ua);
                }
                if s0.joined(a, n) && a != ua {
                    assert(sd.joined(a, n));
                    let i = sd.client_idx(a);
                    assert(i != ci) by {
                        if i == ci {
                            assert(sd.clients@[ci as int].user_address@ == ua);
                        }
                    }
                    let i3: int = if i < ci {
                        i
                    } else {
                        i - 1
                    };
                    assert(s3.clients@[i3] == sd.clients@[i]);
                    s3.lemma_client_idx_is(i3);
                }
            }
            assert forall|a: Seq<char>| a != ua && s0.has_client(a) implies ({
                let oc = s0.the_client(a);
                let nc = #[trigger] s3.the_client(a);
                &&& nc.id == oc.id
                &&& nc.user_address == oc.user_address
                &&& nc.ens_name == oc.ens_name
                &&& nc.rooms_view() == oc.rooms_view()
                &&& (notify || nc.mailbox == oc.mailbox)
            }) by {
                assert(sd.has_client(a));
                let i = sd.client_idx(a);
                sd.lemma_client_idx_is(i);
                assert(i != ci) by {
                    if i == ci {
                        assert(sd.clients@[ci as int].user_address@ == ua);
                    }
                }
                let i3: int = if i < ci {
                    i
                } else {
                    i - 1
                };
                assert(s3.clients@[i3] == sd.clients@[i]);
                s3.lemma_client_idx_is(i3);
            }
            let j0 = s0.room_idx(default_room());
            assert(s3.rooms@[j0].name == s0.rooms@[j0].name);
            assert(s3.has_room(default_room()));
            assert(s3.wf());
        }
        prior
    }

    /// Creates a session with an empty room set and a fresh mailbox,
    /// overwriting any prior session for the same address (last-writer-wins;
    /// the prior session's memberships are detached first, keeping the two
    /// registries consistent).  Returns the session identifier.
    pub fn add_client(&mut self, user_address: String, ens_name: Option<String>) -> (client_id:
        String)
        requires
            old(self).wf(),
        ensures
            final(self).wf(),
            client_id@.len() == 36,
            final(self).has_client(user_address@),
            ({
                let nc = final(self).the_client(user_address@);
                &&& nc.id == client_id
                &&& nc.user_address@ == user_address@
                &&& nc.ens_name == ens_name
                &&& nc.rooms_view() == Seq::<Seq<char>>::empty()
                &&& nc.mailbox@ == Seq::<MessageV>::empty()
            }),
            forall|a: Seq<char>| #[trigger]
                final(self).has_client(a) == (old(self).has_client(a) || a == user_address@),
            forall|a: Seq<char>, n: Seq<char>|
                #![trigger final(self).joined(a, n)]
                final(self).joined(a, n) == (old(self).joined(a, n) && a != user_address@),
            final(self).room_names() == old(self).room_names(),
            forall|j: int|
                0 <= j < old(self).rooms@.len() ==> ({
                    let orm = old(self).rooms@[j];
                    let nrm = #[trigger] final(self).rooms@[j];
                    &&& nrm.name == orm.name
                    &&& nrm.history_view() == orm.history_view()
                    &&& !nrm.users_view().contains(user_address@)
                }),
            final(self).user_auth_cache == old(self).user_auth_cache,
            final(self).global == old(self).global,
    {
        let ghost s0 = *old(self);
        self.excise_session(&user_address, 0, false);
        let ghost sd = *self;
        let client_id = fresh_id();
        let client = Client {
            id: client_id.clone(),
            user_address,
            ens_name,
            current_rooms: Vec::new(),
            mailbox: Mailbox::new(MAILBOX_CAPACITY),
        };
        let ghost ua = client.user_address@;
        self.clients.push(client);
        proof {
            let s3 = *self;
            let newi = s3.clients@.len() - 1;
            assert(s3.clients@ =~= sd.clients@.push(client));
            assert(s3.client_addrs() =~= sd.client_addrs().push(ua));
            assert(!sd.client_addrs().contains(ua)) by {
                if sd.client_addrs().contains(ua) {
                    let i = choose|i: int|
                        0 <= i < sd.client_addrs().len() && sd.client_addrs()[i] == ua;
                    assert(sd.clients@[i].user_address@ == ua);
                    assert(sd.has_client(ua));
                }
            }
            lemma_distinct_push(sd.client_addrs(), ua);
            assert(client.rooms_view() =~= Seq::<Seq<char>>::empty());
            assert(client.wf());
            s3.lemma_client_idx_is(newi);
            assert(s3.the_client(ua) == client);
            assert forall|a: Seq<char>| #[trigger]
                s3.has_client(a) == (sd.has_client(a) || a == ua) by {
                if s3.has_client(a) {
                    let i = s3.client_idx(a);
                    if i < newi {
                        assert(sd.clients@[i].user_address@ == a);
                    } else {
                        assert(a == ua);
                    }
                }
                if sd.has_client(a) {
                    let i = sd.client_idx(a);
                    assert(s3.clients@[i].user_address@ == a);
                }
            }
            assert forall|a: Seq<char>, n: Seq<char>|
                #![trigger s3.joined(a, n)]
                s3.joined(a, n) == (sd.joined(a, n)) by {
                if s3.joined(a, n) {
                    let i = s3.client_idx(a);
                    if i == newi {
                        assert(s3.clients@[i].rooms_view().len() == 0);
                        assert(false);
                    }
                    sd.lemma_client_idx_is(i);
                }
                if sd.joined(a, n) {
                    let i = sd.client_idx(a);
                    s3.lemma_client_idx_is(i);
                }
            }
            assert forall|i: int, k2: int|
                #![trigger s3.clients@[i].rooms_view()[k2]]
                0 <= i < s3.clients@.len() && 0 <= k2 < s3.clients@[i].rooms_view().len()
                    implies s3.member_of(
                    s3.clients@[i].user_address@,
                    s3.clients@[i].rooms_view()[k2],
                ) by {
                assert(i != newi);
                assert(s3.clients@[i] == sd.clients@[i]);
                assert(sd.member_of(sd.clients@[i].user_address@, sd.clients@[i].rooms_view()[k2]));
                lemma_member_same_rooms(
                    sd,
                    s3,
                    sd.clients@[i].user_address@,
                    sd.clients@[i].rooms_view()[k2],
                );
            }
            assert forall|j: int, u: int|
                #![trigger s3.rooms@[j].users_view()[u]]
                0 <= j < s3.rooms@.len() && 0 <= u < s3.rooms@[j].users_view().len()
                    implies s3.joined(s3.rooms@[j].users_view()[u], s3.rooms@[j].name@) by {
                assert(sd.joined(sd.rooms@[j].users_view()[u], sd.rooms@[j].name@));
            }
            assert forall|i: int| 0 <= i < s3.clients@.len() implies (
            #[trigger] s3.clients@[i]).wf() by {
                if i < newi {
                    assert(sd.clients@[i].wf());
                }
            }
            assert forall|j: int| 0 <= j < s3.rooms@.len() implies (#[trigger] s3.rooms@[j]).wf()
                by {
                assert(sd.rooms@[j].wf());
            }
            assert(s3.room_names() =~= sd.room_names());
            assert(s3.cache_addrs() =~= sd.cache_addrs());
            assert(s3.wf());
            // rooms do not list the (re)connecting address
            assert forall|j: int| 0 <= j < s0.rooms@.len() implies !(
            #[trigger] s3.rooms@[j]).users_view().contains(ua) by {
                if s3.rooms@[j].users_view().contains(ua) {
                    let u = choose|u: int|
                        0 <= u < s3.rooms@[j].users_view().len() && s3.rooms@[j].users_view()[u]
                            == ua;
                    assert(s3.joined(s3.rooms@[j].users_view()[u], s3.rooms@[j].name@));
                    assert(s3.joined(ua, s3.rooms@[j].name@));
                    assert(sd.joined(ua, s3.rooms@[j].name@));
                    assert(s0.joined(ua, s3.rooms@[j].name@) && ua != ua);
                }
            }
        }
        client_id
    }

    /// Removes the session and cascades: for every room it had joined, the
    /// membership is removed and one leave notice is broadcast to that room.
    /// Returns the rooms that were left, each exactly once.
    pub fn remove_client(&mut self, user_address: &String, now: i64) -> (left_rooms: Vec<String>)
        requires
            old(self).wf(),
        ensures
            final(self).wf(),
            !final(self).has_client(user_address@),
            !old(self).has_client(user_address@) ==> (*final(self) == *old(self) && left_rooms@.len()
                == 0),
            old(self).has_client(user_address@) ==> ({
                &&& str_views(left_rooms@) == old(self).the_client(user_address@).rooms_view()
                &&& distinct_seq(str_views(left_rooms@))
            }),
            forall|a: Seq<char>| #[trigger]
                final(self).has_client(a) == (old(self).has_client(a) && a != user_address@),
            forall|a: Seq<char>, n: Seq<char>|
                #![trigger final(self).joined(a, n)]
                final(self).joined(a, n) == (old(self).joined(a, n) && a != user_address@),
            final(self).room_names() == old(self).room_names(),
            forall|j: int|
                0 <= j < old(self).rooms@.len() ==> ({
                    let orm = old(self).rooms@[j];
                    let nrm = #[trigger] final(self).rooms@[j];
                    let was_joined = old(self).has_client(user_address@) && old(self).the_client(
                        user_address@,
                    ).rooms_view().contains(orm.name@);
                    &&& nrm.name == orm.name
                    &&& nrm.users_view() == if was_joined {
                        remove_first(orm.users_view(), user_address@)
                    } else {
                        orm.users_view()
                    }
                    &&& !nrm.users_view().contains(user_address@) || !was_joined
                    &&& nrm.history_view() == if was_joined {
                        bounded_push(
                            orm.history_view(),
                            ROOM_HISTORY_CAPACITY as nat,
                            leave_notice(
                                user_address@,
                                orm.name@,
                                now,
                                opt_view(old(self).the_client(user_address@).ens_name),
                            ),
                        )
                    } else {
                        orm.history_view()
                    }
                }),
            final(self).user_auth_cache == old(self).user_auth_cache,
    {
        let left = self.excise_session(user_address, now, true);
        proof {
            if old(self).has_client(user_address@) {
                assert forall|j: int| 0 <= j < old(self).rooms@.len() implies {
                    let orm = old(self).rooms@[j];
                    let was_joined = old(self).the_client(user_address@).rooms_view().contains(
                        orm.name@,
                    );
                    !(#[trigger] final(self).rooms@[j]).users_view().contains(user_address@)
                        || !was_joined
                } by {
                    let orm = old(self).rooms@[j];
                    if old(self).the_client(user_address@).rooms_view().contains(orm.name@) {
                        assert(old(self).rooms@[j].wf());
                        lemma_remove_first_props(orm.users_view(), user_address@);
                    }
                }
            }
        }
        left
    }
}

/// The mathematical values of a vector of online-user records.
pub open spec fn online_views(s: Seq<OnlineUser>) -> Seq<OnlineUserV> {
    s.map_values(|u: OnlineUser| u@)
}

/// Everything `wf` says about sessions, rooms and their consistency holds
/// of any state sharing the same clients and rooms vectors.
pub proof fn lemma_wf_core_transfer(s1: AppState, s2: AppState)
    requires
        s1.wf(),
        s2.clients@ == s1.clients@,
        s2.rooms@ == s1.rooms@,
    ensures
        distinct_seq(s2.client_addrs()),
        distinct_seq(s2.room_names()),
        s2.consistent(),
        s2.has_room(default_room()),
        forall|i: int| 0 <= i < s2.clients@.len() ==> (#[trigger] s2.clients@[i]).wf(),
        forall|j: int| 0 <= j < s2.rooms@.len() ==> (#[trigger] s2.rooms@[j]).wf(),
{
    assert(s2.client_addrs() =~= s1.client_addrs());
    assert(s2.room_names() =~= s1.room_names());
    assert forall|i: int, k: int|
        #![trigger s2.clients@[i].rooms_view()[k]]
        0 <= i < s2.clients@.len() && 0 <= k < s2.clients@[i].rooms_view().len()
            implies s2.member_of(s2.clients@[i].user_address@, s2.clients@[i].rooms_view()[k]) by {
        assert(s1.member_of(s1.clients@[i].user_address@, s1.clients@[i].rooms_view()[k]));
        lemma_member_same_rooms(s1, s2, s1.clients@[i].user_address@, s1.clients@[i].rooms_view()[k]);
    }
    assert forall|j: int, u: int|
        #![trigger s2.rooms@[j].users_view()[u]]
        0 <= j < s2.rooms@.len() && 0 <= u < s2.rooms@[j].users_view().len() implies s2.joined(
        s2.rooms@[j].users_view()[u],
        s2.rooms@[j].name@,
    ) by {
        assert(s1.joined(s1.rooms@[j].users_view()[u], s1.rooms@[j].name@));
        lemma_joined_same_clients(s1, s2, s1.rooms@[j].users_view()[u], s1.rooms@[j].name@);
    }
    let j0 = s1.room_idx(default_room());
    assert(s2.rooms@[j0].name@ == default_room());
}

impl AppState {
    /// The roster the given room shows when each member is resolved to a
    /// connected session: unknown addresses are dropped, known ones carry
    /// their display name.
    pub open spec fn spec_online(&self, users: Seq<Seq<char>>) -> Seq<OnlineUserV>
        decreases users.len(),
    {
        if users.len() == 0 {
            Seq::<OnlineUserV>::empty()
        } else {
            let rest = self.spec_online(users.drop_last());
            if self.has_client(users.last()) {
                rest.push(
                    OnlineUserV {
                        address: users.last(),
                        ens_name: opt_view(self.the_client(users.last()).ens_name),
                    },
                )
            } else {
                rest
            }
        }
    }

    /// Kept for interface parity: connection liveness carries no registry
    /// state here, so recording activity changes nothing.
    pub fn update_client_activity(&self, user_address: &String) -> (r: bool)
        requires
            self.wf(),
        ensures
            r == self.has_client(user_address@),
    {
        match self.find_client(user_address) {
            Some(_) => true,
            None => false,
        }
    }

    /// The member addresses of a room; empty when the room does not exist.
    pub fn get_room_users(&self, room_name: &String) -> (r: Vec<String>)
        requires
            self.wf(),
        ensures
            str_views(r@) == if self.has_room(room_name@) {
                self.the_room(room_name@).users_view()
            } else {
                Seq::<Seq<char>>::empty()
            },
    {
        match self.find_room(room_name) {
            Some(ri) => dup_string_vec(&self.rooms[ri].users),
            None => {
                let r: Vec<String> = Vec::new();
                proof {
                    assert(str_views(r@) =~= Seq::<Seq<char>>::empty());
                }
                r
            },
        }
    }

    /// The connected session with the given address, if any.
    pub fn get_client(&self, user_address: &String) -> (r: Option<&Client>)
        requires
            self.wf(),
        ensures
            r matches Some(c) ==> self.has_client(user_address@) && *c == self.the_client(
                user_address@,
            ),
            r is None ==> !self.has_client(user_address@),
    {
        match self.find_client(user_address) {
            Some(ci) => Some(&self.clients[ci]),
            None => None,
        }
    }

    /// The room's current roster with display names resolved.
    pub fn get_online_users(&self, room_name: &String) -> (r: Vec<OnlineUser>)
        requires
            self.wf(),
        ensures
            online_views(r@) == if self.has_room(room_name@) {
                self.spec_online(self.the_room(room_name@).users_view())
            } else {
                Seq::<OnlineUserV>::empty()
            },
    {
        let ri = match self.find_room(room_name) {
            Some(ri) => ri,
            None => {
                let r: Vec<OnlineUser> = Vec::new();
                proof {
                    assert(online_views(r@) =~= Seq::<OnlineUserV>::empty());
                }
                return r;
            },
        };
        let ghost uv = self.the_room(room_name@).users_view();
        let mut r: Vec<OnlineUser> = Vec::new();
        let n = self.rooms[ri].users.len();
        proof {
            assert(uv.take(0) =~= Seq::<Seq<char>>::empty());
        }
        for u in 0..n
            invariant
                self.wf(),
                ri < self.rooms@.len(),
                self.rooms@[ri as int].name@ == room_name@,
                self.room_idx(room_name@) == ri,
                n == self.rooms@[ri as int].users@.len(),
                uv == self.the_room(room_name@).users_view(),
                online_views(r@) == self.spec_online(uv.take(u as int)),
        {
            let addr = &self.rooms[ri].users[u];
            proof {
                assert(uv[u as int] == addr@);
                assert(uv.take(u + 1).drop_last() =~= uv.take(u as int));
                assert(uv.take(u + 1).last() == uv[u as int]);
            }
            let ghost before = online_views(r@);
            match self.find_client(addr) {
                Some(ci) => {
                    let rec = OnlineUser {
                        address: addr.clone(),
                        ens_name: dup_opt_string(&self.clients[ci].ens_name),
                    };
                    proof {
                        assert(rec@ == (OnlineUserV {
                            address: addr@,
                            ens_name: opt_view(self.the_client(addr@).ens_name),
                        }));
                    }
                    r.push(rec);
                    proof {
                        assert(online_views(r@) =~= before.push(rec@));
                    }
                },
                None => {},
            }
        }
        proof {
            assert(uv.take(n as int) =~= uv);
        }
        r
    }

    pub open spec fn has_cached(&self, a: Seq<char>) -> bool {
        exists|i: int|
            0 <= i < self.user_auth_cache@.len() && (#[trigger] self.user_auth_cache@[i]).address@
                == a
    }

    pub open spec fn cache_idx(&self, a: Seq<char>) -> int {
        choose|i: int|
            0 <= i < self.user_auth_cache@.len() && (#[trigger] self.user_auth_cache@[i]).address@
                == a
    }

    /// The cached identity for an address (meaningful when `has_cached`).
    pub open spec fn the_cached(&self, a: Seq<char>) -> UserAuth {
        self.user_auth_cache@[self.cache_idx(a)]
    }

    /// With distinct cached addresses, any index holding address `a` is the
    /// index `cache_idx(a)` denotes.
    pub proof fn lemma_cache_idx_is(&self, i: int)
        requires
            distinct_seq(self.cache_addrs()),
            0 <= i < self.user_auth_cache@.len(),
        ensures
            self.has_cached(self.user_auth_cache@[i].address@),
            self.cache_idx(self.user_auth_cache@[i].address@) == i,
    {
        let a = self.user_auth_cache@[i].address@;
        assert(self.cache_addrs()[i] == a);
        let j = self.cache_idx(a);
        assert(self.cache_addrs()[j] == a);
        if i != j {
            assert(false);
        }
    }

    /// Index of the cached identity for an address, if present.
    fn find_cached(&self, user_address: &String) -> (r: Option<usize>)
        requires
            distinct_seq(self.cache_addrs()),
        ensures
            r matches Some(i) ==> i < self.user_auth_cache@.len() && self.user_auth_cache@[
                i as int
            ].address@ == user_address@,
            r is None ==> !self.has_cached(user_address@),
    {
        let n = self.user_auth_cache.len();
        for i in 0..n
            invariant
                n == self.user_auth_cache@.len(),
                forall|j: int| 0 <= j < i ==> (#[trigger] self.user_auth_cache@[j]).address@
                    != user_address@,
        {
            if self.user_auth_cache[i].address.eq(user_address) {
                return Some(i);
            }
        }
        None
    }

    /// Stores a verified identity, overwriting any prior entry for the same
    /// address.
    pub fn cache_user_auth(&mut self, auth: UserAuth)
        requires
            old(self).wf(),
        ensures
            final(self).wf(),
            final(self).has_cached(auth.address@),
            final(self).the_cached(auth.address@) == auth,
            forall|a: Seq<char>| #[trigger]
                final(self).has_cached(a) == (old(self).has_cached(a) || a == auth.address@),
            final(self).clients == old(self).clients,
            final(self).rooms == old(self).rooms,
            final(self).global == old(self).global,
    {
        let ghost s0 = *old(self);
        let found = self.find_cached(&auth.address);
        let ghost prev = self.user_auth_cache@;
        match found {
            Some(i) => {
                self.user_auth_cache.remove(i);
                self.user_auth_cache.insert(i, auth);
                proof {
                    assert(self.user_auth_cache@ =~= prev.update(i as int, auth));
                }
            },
            None => {
                self.user_auth_cache.push(auth);
            },
        }
        proof {
            let s3 = *self;
            lemma_wf_core_transfer(s0, s3);
            assert(s3.global == s0.global);
            match found {
                Some(i) => {
                    assert(s3.user_auth_cache@ == prev.update(i as int, auth));
                    assert(s0.user_auth_cache@[i as int].address@ == auth.address@);
                    assert(s3.cache_addrs() =~= s0.cache_addrs());
                    s3.lemma_cache_idx_is(i as int);
                    assert forall|a: Seq<char>| #[trigger]
                        s3.has_cached(a) == (s0.has_cached(a) || a == auth.address@) by {
                        if s3.has_cached(a) {
                            let j = s3.cache_idx(a);
                            if j != i {
                                assert(s0.user_auth_cache@[j].address@ == a);
                            }
                        }
                        if s0.has_cached(a) {
                            let j = s0.cache_idx(a);
                            assert(s3.user_auth_cache@[j].address@ == s0.user_auth_cache@[
                                j
                            ].address@);
                        }
                    }
                    assert(s3.wf());
                },
                None => {
                    assert(s3.user_auth_cache@ =~= prev.push(auth));
                    assert(s3.cache_addrs() =~= s0.cache_addrs().push(auth.address@));
                    assert(!s0.cache_addrs().contains(auth.address@)) by {
                        if s0.cache_addrs().contains(auth.address@) {
                            let j = choose|j: int|
                                0 <= j < s0.cache_addrs().len() && #[trigger] s0.cache_addrs()[j]
                                    == auth.address@;
                            assert(s0.user_auth_cache@[j].address@ == auth.address@);
                            assert(s0.has_cached(auth.address@));
                        }
                    }
                    lemma_distinct_push(s0.cache_addrs(), auth.address@);
                    let newi = s3.user_auth_cache@.len() - 1;
                    s3.lemma_cache_idx_is(newi);
                    assert forall|a: Seq<char>| #[trigger]
                        s3.has_cached(a) == (s0.has_cached(a) || a == auth.address@) by {
                        if s3.has_cached(a) {
                            let j = s3.cache_idx(a);
                            if j < newi {
                                assert(s0.user_auth_cache@[j].address@ == a);
                            }
                        }
                        if s0.has_cached(a) {
                            let j = s0.cache_idx(a);
                            assert(s3.user_auth_cache@[j].address@ == a);
                        }
                    }
                    assert(s3.wf());
                },
            }
        }
    }

    /// Looks up a cached identity by address.
    pub fn get_cached_user_auth(&self, user_address: &String) -> (r: Option<&UserAuth>)
        requires
            self.wf(),
        ensures
            r matches Some(u) ==> self.has_cached(user_address@) && *u == self.the_cached(
                user_address@,
            ),
            r is None ==> !self.has_cached(user_address@),
    {
        let n = self.user_auth_cache.len();
        for i in 0..n
            invariant
                n == self.user_auth_cache@.len(),
                distinct_seq(self.cache_addrs()),
                forall|j: int| 0 <= j < i ==> (#[trigger] self.user_auth_cache@[j]).address@
                    != user_address@,
        {
            if self.user_auth_cache[i].address.eq(user_address) {
                proof {
                    self.lemma_cache_idx_is(i as int);
                }
                return Some(&self.user_auth_cache[i]);
            }
        }
        None
    }
}

// ---------------------------------------------------------------------------
// Folded history law
// ---------------------------------------------------------------------------

/// The history a bounded queue holds after a sequence of pushes.
pub open spec fn fold_bounded_push(q0: Seq<MessageV>, cap: nat, ms: Seq<MessageV>) -> Seq<
    MessageV,
>
    decreases ms.len(),
{
    if ms.len() == 0 {
        q0
    } else {
        bounded_push(fold_bounded_push(q0, cap, ms.drop_last()), cap, ms.last())
    }
}

/// Law: a bounded queue filled from empty never exceeds its capacity and
/// retains exactly the most recent entries, in publish order.
pub proof fn lemma_bounded_history(cap: nat, ms: Seq<MessageV>)
    requires
        cap >= 1,
    ensures
        fold_bounded_push(Seq::<MessageV>::empty(), cap, ms).len() <= cap,
        fold_bounded_push(Seq::<MessageV>::empty(), cap, ms) == if ms.len() <= cap {
            ms
        } else {
            ms.skip(ms.len() - cap)
        },
    decreases ms.len(),
{
    if ms.len() == 0 {
        assert(fold_bounded_push(Seq::<MessageV>::empty(), cap, ms) =~= ms);
    } else {
        lemma_bounded_history(cap, ms.drop_last());
        let prev = fold_bounded_push(Seq::<MessageV>::empty(), cap, ms.drop_last());
        let cur = fold_bounded_push(Seq::<MessageV>::empty(), cap, ms);
        assert(cur == bounded_push(prev, cap, ms.last()));
        if ms.drop_last().len() <= cap {
            assert(prev == ms.drop_last());
            if prev.len() < cap {
                assert(cur =~= if ms.len() <= cap {
                    ms
                } else {
                    ms.skip(ms.len() - cap)
                });
            } else {
                assert(ms.len() == cap + 1);
                assert(cur == prev.drop_first().push(ms.last()));
                assert(cur =~= ms.skip(1));
            }
        } else {
            assert(prev == ms.drop_last().skip(ms.len() - 1 - cap));
            assert(prev.len() == cap);
            assert(cur == prev.drop_first().push(ms.last()));
            assert(cur =~= ms.skip(ms.len() - cap));
        }
    }
}

/// The resolved roster is untouched by changes that keep every session's
/// address and display name.
pub proof fn lemma_spec_online_same(s1: AppState, s2: AppState, users: Seq<Seq<char>>)
    requires
        s1.clients@.len() == s2.clients@.len(),
        forall|i: int|
            0 <= i < s1.clients@.len() ==> (#[trigger] s2.clients@[i]).user_address
                == s1.clients@[i].user_address && s2.clients@[i].ens_name == s1.clients@[
                i
            ].ens_name,
        distinct_seq(s1.client_addrs()),
    ensures
        s1.spec_online(users) == s2.spec_online(users),
    decreases users.len(),
{
    assert(s2.client_addrs() =~= s1.client_addrs());
    if users.len() > 0 {
        lemma_spec_online_same(s1, s2, users.drop_last());
        let a = users.last();
        if s1.has_client(a) {
            let i = s1.client_idx(a);
            s2.lemma_client_idx_is(i);
            assert(s2.the_client(a).ens_name == s1.the_client(a).ens_name);
        }
        if s2.has_client(a) {
            let i = s2.client_idx(a);
            s1.lemma_client_idx_is(i);
        }
    }
}

impl AppState {
    /// Broadcasts the room's current resolved roster into the room.
    pub fn broadcast_online_users(&mut self, room_name: &String)
        requires
            old(self).wf(),
        ensures
            final(self).wf(),
            !old(self).has_room(room_name@) ==> *final(self) == *old(self),
            old(self).has_room(room_name@) ==> ({
                let mv = MessageV::OnlineUsers {
                    users: old(self).spec_online(old(self).the_room(room_name@).users_view()),
                    room: room_name@,
                };
                &&& final(self).room_names() == old(self).room_names()
                &&& final(self).client_addrs() == old(self).client_addrs()
                &&& forall|j: int|
                    0 <= j < old(self).rooms@.len() ==> ({
                        let orm = old(self).rooms@[j];
                        let nrm = #[trigger] final(self).rooms@[j];
                        &&& nrm.name == orm.name
                        &&& nrm.users == orm.users
                        &&& nrm.max_history == orm.max_history
                        &&& nrm.history_view() == if orm.name@ == room_name@ {
                            bounded_push(orm.history_view(), ROOM_HISTORY_CAPACITY as nat, mv)
                        } else {
                            orm.history_view()
                        }
                    })
                &&& forall|i: int|
                    0 <= i < old(self).clients@.len() ==> ({
                        let oc = old(self).clients@[i];
                        let nc = #[trigger] final(self).clients@[i];
                        &&& nc.id == oc.id
                        &&& nc.user_address == oc.user_address
                        &&& nc.ens_name == oc.ens_name
                        &&& nc.current_rooms == oc.current_rooms
                        &&& nc.mailbox@ == if old(self).the_room(
                            room_name@,
                        ).users_view().contains(oc.user_address@) {
                            bounded_push(oc.mailbox@, MAILBOX_CAPACITY as nat, mv)
                        } else {
                            oc.mailbox@
                        }
                    })
                &&& final(self).user_auth_cache == old(self).user_auth_cache
                &&& final(self).global == old(self).global
            }),
    {
        let users = self.get_online_users(room_name);
        let msg = ServerMessage::OnlineUsers { users, room: room_name.clone() };
        self.broadcast_to_room(room_name, msg);
    }

    /// Announces a user's arrival in a room, then rebroadcasts the roster.
    pub fn broadcast_user_joined(&mut self, room_name: &String, user_address: &String, now: i64)
        requires
            old(self).wf(),
        ensures
            final(self).wf(),
            !old(self).has_room(room_name@) ==> *final(self) == *old(self),
            old(self).has_room(room_name@) ==> ({
                let ens0 = if old(self).has_client(user_address@) {
                    opt_view(old(self).the_client(user_address@).ens_name)
                } else {
                    None
                };
                let mv1 = MessageV::UserJoined {
                    user: user_address@,
                    room: room_name@,
                    timestamp: now,
                    ens_name: ens0,
                };
                let mv2 = MessageV::OnlineUsers {
                    users: old(self).spec_online(old(self).the_room(room_name@).users_view()),
                    room: room_name@,
                };
                &&& final(self).room_names() == old(self).room_names()
                &&& final(self).client_addrs() == old(self).client_addrs()
                &&& forall|i: int|
                    0 <= i < old(self).clients@.len() ==> ({
                        let oc = old(self).clients@[i];
                        let nc = #[trigger] final(self).clients@[i];
                        &&& nc.id == oc.id
                        &&& nc.user_address == oc.user_address
                        &&& nc.ens_name == oc.ens_name
                        &&& nc.current_rooms == oc.current_rooms
                        &&& nc.mailbox@ == if old(self).the_room(
                            room_name@,
                        ).users_view().contains(oc.user_address@) {
                            bounded_push(
                                bounded_push(oc.mailbox@, MAILBOX_CAPACITY as nat, mv1),
                                MAILBOX_CAPACITY as nat,
                                mv2,
                            )
                        } else {
                            oc.mailbox@
                        }
                    })
                &&& forall|j: int|
                    0 <= j < old(self).rooms@.len() ==> ({
                        let orm = old(self).rooms@[j];
                        let nrm = #[trigger] final(self).rooms@[j];
                        &&& nrm.name == orm.name
                        &&& nrm.users == orm.users
                        &&& nrm.history_view() == if orm.name@ == room_name@ {
                            bounded_push(
                                bounded_push(
                                    orm.history_view(),
                                    ROOM_HISTORY_CAPACITY as nat,
                                    mv1,
                                ),
                                ROOM_HISTORY_CAPACITY as nat,
                                mv2,
                            )
                        } else {
                            orm.history_view()
                        }
                    })
                &&& final(self).user_auth_cache == old(self).user_auth_cache
                &&& final(self).global == old(self).global
            }),
    {
        let ghost s0 = *old(self);
        let ens = match self.get_client(user_address) {
            Some(c) => dup_opt_string(&c.ens_name),
            None => None,
        };
        let msg = ServerMessage::UserJoined {
            user: user_address.clone(),
            room: room_name.clone(),
            timestamp: now,
            ens_name: ens,
        };
        self.broadcast_to_room(room_name, msg);
        let ghost s1 = *self;
        proof {
            if s0.has_room(room_name@) {
                assert(s1.has_room(room_name@)) by {
                    let j = s0.room_idx(room_name@);
                    assert(s1.rooms@[j].name == s0.rooms@[j].name);
                }
                let j = s0.room_idx(room_name@);
                s1.lemma_room_idx_is(j);
                assert(s1.the_room(room_name@).users == s0.the_room(room_name@).users);
                assert(s1.clients@.len() == s0.clients@.len()) by {
                    assert(s1.client_addrs().len() == s0.client_addrs().len());
                }
                lemma_spec_online_same(s0, s1, s0.the_room(room_name@).users_view());
            } else {
                assert(*self == s0);
            }
        }
        self.broadcast_online_users(room_name);
        proof {
            if s0.has_room(room_name@) {
                let s2 = *self;
                let j = s0.room_idx(room_name@);
                assert(s1.rooms@[j].name@ == room_name@);
                s1.lemma_room_idx_is(j);
                assert forall|j2: int| 0 <= j2 < s0.rooms@.len() implies (
                #[trigger] s2.rooms@[j2]).users == s0.rooms@[j2].users by {
                    assert(s1.rooms@[j2].users == s0.rooms@[j2].users);
                }
                // the two deliveries compose on each member's mailbox
                assert(s1.the_room(room_name@).users_view() == s0.the_room(
                    room_name@,
                ).users_view());
                assert(s2.clients@.len() == s1.clients@.len()) by {
                    assert(s2.client_addrs().len() == s1.client_addrs().len());
                }
                assert forall|i: int| 0 <= i < s0.clients@.len() implies ({
                    let oc = s0.clients@[i];
                    let nc = #[trigger] s2.clients@[i];
                    &&& nc.id == oc.id
                    &&& nc.user_address == oc.user_address
                    &&& nc.ens_name == oc.ens_name
                    &&& nc.current_rooms == oc.current_rooms
                }) by {
                    assert(s1.clients@[i].id == s0.clients@[i].id);
                    assert(s2.clients@[i].id == s1.clients@[i].id);
                    assert(s1.clients@[i].user_address == s0.clients@[i].user_address);
                    assert(s2.clients@[i].user_address == s1.clients@[i].user_address);
                    assert(s1.clients@[i].ens_name == s0.clients@[i].ens_name);
                    assert(s2.clients@[i].ens_name == s1.clients@[i].ens_name);
                    assert(s1.clients@[i].current_rooms == s0.clients@[i].current_rooms);
                    assert(s2.clients@[i].current_rooms == s1.clients@[i].current_rooms);
                }
            }
        }
    }

    /// Announces a user's departure from a room, then rebroadcasts the
    /// roster.
    pub fn broadcast_user_left(&mut self, room_name: &String, user_address: &String, now: i64)
        requires
            old(self).wf(),
        ensures
            final(self).wf(),
            !old(self).has_room(room_name@) ==> *final(self) == *old(self),
            old(self).has_room(room_name@) ==> ({
                let ens0 = if old(self).has_client(user_address@) {
                    opt_view(old(self).the_client(user_address@).ens_name)
                } else {
                    None
                };
                let mv1 = MessageV::UserLeft {
                    user: user_address@,
                    room: room_name@,
                    timestamp: now,
                    ens_name: ens0,
                };
                let mv2 = MessageV::OnlineUsers {
                    users: old(self).spec_online(old(self).the_room(room_name@).users_view()),
                    room: room_name@,
                };
                &&& final(self).room_names() == old(self).room_names()
                &&& final(self).client_addrs() == old(self).client_addrs()
                &&& forall|i: int|
                    0 <= i < old(self).clients@.len() ==> ({
                        let oc = old(self).clients@[i];
                        let nc = #[trigger] final(self).clients@[i];
                        &&& nc.id == oc.id
                        &&& nc.user_address == oc.user_address
                        &&& nc.ens_name == oc.ens_name
                        &&& nc.current_rooms == oc.current_rooms
                        &&& nc.mailbox@ == if old(self).the_room(
                            room_name@,
                        ).users_view().contains(oc.user_address@) {
                            bounded_push(
                                bounded_push(oc.mailbox@, MAILBOX_CAPACITY as nat, mv1),
                                MAILBOX_CAPACITY as nat,
                                mv2,
                            )
                        } else {
                            oc.mailbox@
                        }
                    })
                &&& forall|j: int|
                    0 <= j < old(self).rooms@.len() ==> ({
                        let orm = old(self).rooms@[j];
                        let nrm = #[trigger] final(self).rooms@[j];
                        &&& nrm.name == orm.name
                        &&& nrm.users == orm.users
                        &&& nrm.history_view() == if orm.name@ == room_name@ {
                            bounded_push(
                                bounded_push(
                                    orm.history_view(),
                                    ROOM_HISTORY_CAPACITY as nat,
                                    mv1,
                                ),
                                ROOM_HISTORY_CAPACITY as nat,
                                mv2,
                            )
                        } else {
                            orm.history_view()
                        }
                    })
                &&& final(self).user_auth_cache == old(self).user_auth_cache
                &&& final(self).global == old(self).global
            }),
    {
        let ghost s0 = *old(self);
        let ens = match self.get_client(user_address) {
            Some(c) => dup_opt_string(&c.ens_name),
            None => None,
        };
        let msg = ServerMessage::UserLeft {
            user: user_address.clone(),
            room: room_name.clone(),
            timestamp: now,
            ens_name: ens,
        };
        self.broadcast_to_room(room_name, msg);
        let ghost s1 = *self;
        proof {
            if s0.has_room(room_name@) {
                assert(s1.has_room(room_name@)) by {
                    let j = s0.room_idx(room_name@);
                    assert(s1.rooms@[j].name == s0.rooms@[j].name);
                }
                let j = s0.room_idx(room_name@);
                s1.lemma_room_idx_is(j);
                assert(s1.the_room(room_name@).users == s0.the_room(room_name@).users);
                assert(s1.clients@.len() == s0.clients@.len()) by {
                    assert(s1.client_addrs().len() == s0.client_addrs().len());
                }
                lemma_spec_online_same(s0, s1, s0.the_room(room_name@).users_view());
            } else {
                assert(*self == s0);
            }
        }
        self.broadcast_online_users(room_name);
        proof {
            if s0.has_room(room_name@) {
                let s2 = *self;
                let j = s0.room_idx(room_name@);
                assert(s1.rooms@[j].name@ == room_name@);
                s1.lemma_room_idx_is(j);
                assert forall|j2: int| 0 <= j2 < s0.rooms@.len() implies (
                #[trigger] s2.rooms@[j2]).users == s0.rooms@[j2].users by {
                    assert(s1.rooms@[j2].users == s0.rooms@[j2].users);
                }
                // the two deliveries compose on each member's mailbox
                assert(s1.the_room(room_name@).users_view() == s0.the_room(
                    room_name@,
                ).users_view());
                assert(s2.clients@.len() == s1.clients@.len()) by {
                    assert(s2.client_addrs().len() == s1.client_addrs().len());
                }
                assert forall|i: int| 0 <= i < s0.clients@.len() implies ({
                    let oc = s0.clients@[i];
                    let nc = #[trigger] s2.clients@[i];
                    &&& nc.id == oc.id
                    &&& nc.user_address == oc.user_address
                    &&& nc.ens_name == oc.ens_name
                    &&& nc.current_rooms == oc.current_rooms
                }) by {
                    assert(s1.clients@[i].id == s0.clients@[i].id);
                    assert(s2.clients@[i].id == s1.clients@[i].id);
                    assert(s1.clients@[i].user_address == s0.clients@[i].user_address);
                    assert(s2.clients@[i].user_address == s1.clients@[i].user_address);
                    assert(s1.clients@[i].ens_name == s0.clients@[i].ens_name);
                    assert(s2.clients@[i].ens_name == s1.clients@[i].ens_name);
                    assert(s1.clients@[i].current_rooms == s0.clients@[i].current_rooms);
                    assert(s2.clients@[i].current_rooms == s1.clients@[i].current_rooms);
                }
            }
        }
    }
}

impl AppState {
    /// Direct single-recipient delivery into the session's mailbox; a no-op
    /// when the session has disconnected.
    pub fn deliver_to_session(&mut self, user_address: &String, message: ServerMessage)
        requires
            old(self).wf(),
        ensures
            final(self).wf(),
            !old(self).has_client(user_address@) ==> *final(self) == *old(self),
            old(self).has_client(user_address@) ==> ({
                &&& final(self).client_addrs() == old(self).client_addrs()
                &&& forall|i: int|
                    0 <= i < old(self).clients@.len() ==> ({
                        let oc = old(self).clients@[i];
                        let nc = #[trigger] final(self).clients@[i];
                        &&& nc.id == oc.id
                        &&& nc.user_address == oc.user_address
                        &&& nc.ens_name == oc.ens_name
                        &&& nc.current_rooms == oc.current_rooms
                        &&& nc.mailbox@ == if oc.user_address@ == user_address@ {
                            bounded_push(oc.mailbox@, MAILBOX_CAPACITY as nat, message@)
                        } else {
                            oc.mailbox@
                        }
                    })
                &&& final(self).rooms == old(self).rooms
                &&& final(self).user_auth_cache == old(self).user_auth_cache
                &&& final(self).global == old(self).global
            }),
    {
        let ghost s0 = *old(self);
        let ci = match self.find_client(user_address) {
            Some(ci) => ci,
            None => {
                return ;
            },
        };
        let c = client_at_mut(&mut self.clients, ci);
        c.mailbox.push(message);
        proof {
            let s3 = *self;
            assert(s3.client_addrs() =~= s0.client_addrs());
            assert forall|i: int| 0 <= i < s3.clients@.len() implies (
            #[trigger] s3.clients@[i]).wf() by {
                assert(s0.clients@[i].wf());
            }
            assert forall|i: int, k: int|
                #![trigger s3.clients@[i].rooms_view()[k]]
                0 <= i < s3.clients@.len() && 0 <= k < s3.clients@[i].rooms_view().len()
                    implies s3.member_of(
                    s3.clients@[i].user_address@,
                    s3.clients@[i].rooms_view()[k],
                ) by {
                assert(s3.clients@[i].rooms_view() == s0.clients@[i].rooms_view());
                assert(s0.member_of(s0.clients@[i].user_address@, s0.clients@[i].rooms_view()[k]));
                lemma_member_same_rooms(
                    s0,
                    s3,
                    s0.clients@[i].user_address@,
                    s0.clients@[i].rooms_view()[k],
                );
            }
            assert forall|j: int, u: int|
                #![trigger s3.rooms@[j].users_view()[u]]
                0 <= j < s3.rooms@.len() && 0 <= u < s3.rooms@[j].users_view().len()
                    implies s3.joined(s3.rooms@[j].users_view()[u], s3.rooms@[j].name@) by {
                assert(s0.joined(s0.rooms@[j].users_view()[u], s0.rooms@[j].name@));
                lemma_joined_pointwise(s0, s3, s0.rooms@[j].users_view()[u], s0.rooms@[j].name@);
            }
            let j0 = s0.room_idx(default_room());
            assert(s3.rooms@[j0].name@ == default_room());
            assert(s3.cache_addrs() =~= s0.cache_addrs());
            assert(s3.wf());
            assert forall|i: int| 0 <= i < s0.clients@.len() implies ({
                let oc = s0.clients@[i];
                let nc = #[trigger] s3.clients@[i];
                &&& nc.id == oc.id
                &&& nc.user_address == oc.user_address
                &&& nc.ens_name == oc.ens_name
                &&& nc.current_rooms == oc.current_rooms
                &&& nc.mailbox@ == if oc.user_address@ == user_address@ {
                    bounded_push(oc.mailbox@, MAILBOX_CAPACITY as nat, message@)
                } else {
                    oc.mailbox@
                }
            }) by {
                if i == ci {
                    assert(s0.clients@[i].wf());
                    assert(s0.clients@[i].mailbox.capacity == MAILBOX_CAPACITY);
                } else {
                    assert(s3.clients@[i] == s0.clients@[i]);
                    if s0.clients@[i].user_address@ == user_address@ {
                        assert(s0.client_addrs()[i] == user_address@ && s0.client_addrs()[
                            ci as int
                        ] == user_address@);
                        assert(false);
                    }
                }
            }
        }
    }
}

/// Session existence is untouched by changes that keep every address.
pub proof fn lemma_same_addrs_has_client(s1: AppState, s2: AppState, a: Seq<char>)
    requires
        s1.clients@.len() == s2.clients@.len(),
        forall|i: int|
            0 <= i < s1.clients@.len() ==> (#[trigger] s2.clients@[i]).user_address
                == s1.clients@[i].user_address,
    ensures
        s1.has_client(a) == s2.has_client(a),
{
    if s1.has_client(a) {
        let i = s1.client_idx(a);
        assert(s2.clients@[i].user_address@ == a);
    }
    if s2.has_client(a) {
        let i = s2.client_idx(a);
        assert(s2.clients@[i].user_address == s1.clients@[i].user_address);
        assert(s1.clients@[i].user_address@ == a);
    }
}

impl AppState {
    /// Every room with its member count.
    pub fn list_rooms(&self) -> (r: Vec<(String, usize)>)
        ensures
            r@.len() == self.rooms@.len(),
            forall|j: int|
                0 <= j < r@.len() ==> (#[trigger] r@[j]).0@ == self.rooms@[j].name@ && r@[j].1
                    == self.rooms@[j].users@.len(),
    {
        let mut r: Vec<(String, usize)> = Vec::new();
        let n = self.rooms.len();
        for j in 0..n
            invariant
                n == self.rooms@.len(),
                r@.len() == j,
                forall|k: int|
                    0 <= k < j ==> (#[trigger] r@[k]).0@ == self.rooms@[k].name@ && r@[k].1
                        == self.rooms@[k].users@.len(),
        {
            r.push((self.rooms[j].name.clone(), self.rooms[j].users.len()));
        }
        r
    }
}

} // verus!
