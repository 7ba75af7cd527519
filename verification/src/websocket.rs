use crate::error::AppError;
use crate::models::{dup_opt_string, opt_view, ClientMessage, MessageV, ServerMessage, UserAuth};
use crate::state::{bounded_push, default_room, default_room_name, AppState, MAILBOX_CAPACITY, ROOM_HISTORY_CAPACITY};
use crate::text::{chars_of, is_space, space_char, string_from_chars};
use vstd::prelude::*;

verus! {

/// Upper bound on the length of one text message, in characters.
pub const MAX_TEXT_LENGTH: usize = 1000;

/// One connection's authentication state: unauthenticated at first, then
/// authenticated with an attached session address for the rest of its life.
#[derive(Debug)]
pub struct ConnState {
    pub authenticated: bool,
    pub user_address: Option<String>,
}

impl ConnState {
    pub open spec fn wf(&self) -> bool {
        self.authenticated == (self.user_address is Some)
    }

    /// A fresh, unauthenticated connection.
    pub fn new() -> (c: Self)
        ensures
            c.wf(),
            !c.authenticated,
            c.user_address is None,
    {
        ConnState { authenticated: false, user_address: None }
    }
}

/// What the command dispatcher decides before any handler runs.
#[derive(Debug)]
pub enum DispatchOutcome {
    /// Run the structured authentication scheme on these inputs.
    RunSiweAuth { message: String, signature: String },
    /// Run the simple authentication scheme on these inputs.
    RunSimpleAuth { address: String, message: String, signature: String, nonce: String },
    /// The session is authenticated; handle the command.
    Proceed(ClientMessage),
    /// Refused without any other effect; the connection stays open.
    Reject(AppError),
}

/// Routes one inbound command by the connection's authentication state:
/// only the two authentication commands are accepted before
/// authentication, and neither is accepted a second time afterwards.
pub fn dispatch_command(conn: &ConnState, cmd: ClientMessage) -> (r: DispatchOutcome)
    ensures
        cmd matches ClientMessage::Authenticate { message, signature } ==> if conn.authenticated {
            r matches DispatchOutcome::Reject(e) && e matches AppError::AuthenticationFailed(m)
                && m@ == "Already authenticated"@
        } else {
            r matches DispatchOutcome::RunSiweAuth { message: m, signature: s } && m == message
                && s == signature
        },
        cmd matches ClientMessage::SimpleAuth { address, message, signature, nonce }
            ==> if conn.authenticated {
            r matches DispatchOutcome::Reject(e) && e matches AppError::AuthenticationFailed(m)
                && m@ == "Already authenticated"@
        } else {
            r matches DispatchOutcome::RunSimpleAuth { address: a, message: m, signature: s, nonce: n }
                && a == address && m == message && s == signature && n == nonce
        },
        !(cmd matches ClientMessage::Authenticate { .. }) && !(cmd
            matches ClientMessage::SimpleAuth { .. }) ==> if conn.authenticated {
            r matches DispatchOutcome::Proceed(c) && c == cmd
        } else {
            r matches DispatchOutcome::Reject(e) && e matches AppError::AuthenticationFailed(m)
                && m@ == "Not authenticated"@
        },
{
    match cmd {
        ClientMessage::Authenticate { message, signature } => {
            if conn.authenticated {
                DispatchOutcome::Reject(
                    AppError::AuthenticationFailed(String::from_str("Already authenticated")),
                )
            } else {
                DispatchOutcome::RunSiweAuth { message, signature }
            }
        },
        ClientMessage::SimpleAuth { address, message, signature, nonce } => {
            if conn.authenticated {
                DispatchOutcome::Reject(
                    AppError::AuthenticationFailed(String::from_str("Already authenticated")),
                )
            } else {
                DispatchOutcome::RunSimpleAuth { address, message, signature, nonce }
            }
        },
        other => {
            if conn.authenticated {
                DispatchOutcome::Proceed(other)
            } else {
                DispatchOutcome::Reject(
                    AppError::AuthenticationFailed(String::from_str("Not authenticated")),
                )
            }
        },
    }
}

/// The name a session shows on its messages: its display name, or its
/// address shortened to the first six and last four characters.
pub open spec fn spec_display_name(addr: Seq<char>, ens: Option<Seq<char>>) -> Seq<char> {
    match ens {
        Some(e) => e,
        None => if addr.len() > 10 {
            addr.take(6) + "..."@ + addr.skip(addr.len() - 4)
        } else {
            addr
        },
    }
}

/// Renders the display name for an address and optional name.
pub fn display_name(addr: &String, ens: &Option<String>) -> (r: String)
    ensures
        r@ == spec_display_name(addr@, opt_view(*ens)),
{
    match ens {
        Some(e) => e.clone(),
        None => {
            let v = chars_of(addr.as_str());
            if v.len() > 10 {
                let mut out: Vec<char> = Vec::new();
                for i in 0..6usize
                    invariant
                        v@.len() > 10,
                        out@ =~= v@.take(i as int),
                {
                    out.push(v[i]);
                    assert(out@ =~= v@.take(i + 1));
                }
                out.push('.');
                out.push('.');
                out.push('.');
                proof {
                    assert(out@ =~= v@.take(6) + "..."@) by {
                        reveal_strlit("...");
                    }
                }
                let ghost head = out@;
                let n = v.len();
                let start = n - 4;
                for i in start..n
                    invariant
                        n == v@.len(),
                        n > 10,
                        start == n - 4,
                        out@ =~= head + v@.subrange(start as int, i as int),
                {
                    out.push(v[i]);
                    assert(out@ =~= head + v@.subrange(start as int, i + 1));
                }
                proof {
                    assert(v@.subrange(start as int, n as int) =~= v@.skip(v@.len() - 4));
                }
                string_from_chars(&out)
            } else {
                addr.clone()
            }
        },
    }
}

/// The name a join or leave notice shows: the display name, or else the
/// full address.
pub open spec fn spec_notice_name(addr: Seq<char>, ens: Option<Seq<char>>) -> Seq<char> {
    match ens {
        Some(e) => e,
        None => addr,
    }
}

/// Renders the notice name for an address and optional display name.
pub fn notice_name(addr: &String, ens: &Option<String>) -> (r: String)
    ensures
        r@ == spec_notice_name(addr@, opt_view(*ens)),
{
    match ens {
        Some(e) => e.clone(),
        None => addr.clone(),
    }
}

/// All-whitespace (or empty) text, which a room refuses.
pub open spec fn spec_blank(text: Seq<char>) -> bool {
    forall|k: int| 0 <= k < text.len() ==> is_space(#[trigger] text[k])
}

/// Whether the text trims to nothing.
fn is_blank(text: &String) -> (r: bool)
    ensures
        r == spec_blank(text@),
{
    let v = chars_of(text.as_str());
    let n = v.len();
    for i in 0..n
        invariant
            n == v@.len(),
            v@ == text@,
            forall|k: int| 0 <= k < i ==> is_space(#[trigger] v@[k]),
    {
        if !space_char(v[i]) {
            return false;
        }
    }
    true
}

/// Sends a text message into a room the session has joined.  Blank or
/// over-long text and a room the session is not a member of are refused
/// without closing the connection, and without any broadcast.
pub fn handle_send_text(
    state: &mut AppState,
    user_address: &String,
    room: &String,
    text: &String,
    now: i64,
) -> (r: Result<(), AppError>)
    requires
        old(state).wf(),
    ensures
        final(state).wf(),
        spec_blank(text@) ==> (r matches Err(e) && e matches AppError::InvalidRequest(_)
            && *final(state) == *old(state)),
        !spec_blank(text@) && text@.len() > MAX_TEXT_LENGTH ==> (r matches Err(e) && e matches
            AppError::InvalidRequest(_) && *final(state) == *old(state)),
        !spec_blank(text@) && text@.len() <= MAX_TEXT_LENGTH && !old(state).has_client(
            user_address@,
        ) ==> (r matches Err(e) && e matches AppError::AuthenticationFailed(_) && *final(state)
            == *old(state)),
        !spec_blank(text@) && text@.len() <= MAX_TEXT_LENGTH && old(state).has_client(
            user_address@,
        ) && !old(state).joined(user_address@, room@) ==> (r matches Err(e) && e matches
            AppError::AuthorizationFailed(_) && *final(state) == *old(state)),
        !spec_blank(text@) && text@.len() <= MAX_TEXT_LENGTH && old(state).has_client(
            user_address@,
        ) && old(state).joined(user_address@, room@) ==> (r is Ok && (exists|m: MessageV|
            ({
                &&& #[trigger] final(state).the_room(room@).history_view() == bounded_push(
                    old(state).the_room(room@).history_view(),
                    ROOM_HISTORY_CAPACITY as nat,
                    m,
                )
                &&& m matches MessageV::NewText { id, from, text: t, room: rn, timestamp }
                    && id.len() == 36 && from == spec_display_name(
                    user_address@,
                    opt_view(old(state).the_client(user_address@).ens_name),
                ) && t == text@ && rn == room@ && timestamp == now
                // every current member's mailbox receives the message
                &&& forall|i: int|
                    0 <= i < old(state).clients@.len() ==> ({
                        let oc = old(state).clients@[i];
                        let nc = #[trigger] final(state).clients@[i];
                        nc.mailbox@ == if old(state).the_room(room@).users_view().contains(
                            oc.user_address@,
                        ) {
                            bounded_push(oc.mailbox@, MAILBOX_CAPACITY as nat, m)
                        } else {
                            oc.mailbox@
                        }
                    })
            }))),
        forall|a: Seq<char>, n: Seq<char>|
            #![trigger final(state).joined(a, n)]
            final(state).joined(a, n) == old(state).joined(a, n),
        final(state).room_names() == old(state).room_names(),
        final(state).client_addrs() == old(state).client_addrs(),
{
    let ghost s0 = *old(state);
    if is_blank(text) {
        return Err(AppError::InvalidRequest(String::from_str("Message cannot be empty")));
    }
    if text.as_str().unicode_len() > MAX_TEXT_LENGTH {
        return Err(
            AppError::InvalidRequest(String::from_str("Message too long (max 1000 characters)")),
        );
    }
    let (ens, in_room) = match state.get_client(user_address) {
        Some(c) => (dup_opt_string(&c.ens_name), crate::state::contains_str(&c.current_rooms, room)),
        None => {
            return Err(AppError::AuthenticationFailed(String::from_str("Client not found")));
        },
    };
    if !in_room {
        proof {
            assert(!s0.joined(user_address@, room@));
        }
        return Err(AppError::AuthorizationFailed(String::from_str("User not in room")));
    }
    proof {
        assert(s0.joined(user_address@, room@));
        s0.lemma_membership_consistent(user_address@, room@);
        assert(s0.has_room(room@));
    }
    let from = display_name(user_address, &ens);
    let message = ServerMessage::new_text(from, text.clone(), room.clone(), now);
    let ghost mv = message@;
    state.broadcast_to_room(room, message);
    proof {
        let s3 = *state;
        assert(s3.clients@.len() == s0.clients@.len()) by {
            assert(s3.client_addrs().len() == s0.client_addrs().len());
        }
        assert(s3.rooms@.len() == s0.rooms@.len()) by {
            assert(s3.room_names().len() == s0.room_names().len());
        }
        let j = s0.room_idx(room@);
        assert(0 <= j < s0.rooms@.len() && s0.rooms@[j].name@ == room@);
        assert(s3.rooms@[j].name == s0.rooms@[j].name);
        s3.lemma_room_idx_is(j);
        assert(s3.the_room(room@).history_view() == bounded_push(
            s0.the_room(room@).history_view(),
            ROOM_HISTORY_CAPACITY as nat,
            mv,
        ));
        assert forall|a: Seq<char>, n: Seq<char>|
            #![trigger s3.joined(a, n)]
            s3.joined(a, n) == s0.joined(a, n) by {
            crate::state::lemma_joined_pointwise(s0, s3, a, n);
        }
    }
    Ok(())
}

/// Joins the session to the room, then announces the arrival in the room
/// and hands the fresh roster snapshot to the joiner's own mailbox.  Always
/// succeeds at the protocol level; without an attached session only the
/// room is created.
pub fn handle_join_room(
    state: &mut AppState,
    user_address: &String,
    room: &String,
    now: i64,
) -> (r: Result<(), AppError>)
    requires
        old(state).wf(),
    ensures
        final(state).wf(),
        r is Ok,
        old(state).has_client(user_address@) ==> final(state).joined(user_address@, room@),
        forall|a: Seq<char>, n: Seq<char>|
            #![trigger final(state).joined(a, n)]
            final(state).joined(a, n) == (old(state).joined(a, n) || (old(state).has_client(
                user_address@,
            ) && a == user_address@ && n == room@)),
        // the room's history gains the join notice, and the joiner's
        // mailbox gains the notice followed by the roster snapshot
        old(state).has_client(user_address@) ==> ({
            let jn = MessageV::UserJoined {
                user: spec_notice_name(
                    user_address@,
                    opt_view(old(state).the_client(user_address@).ens_name),
                ),
                room: room@,
                timestamp: now,
                ens_name: None,
            };
            let pre = if old(state).has_room(room@) {
                old(state).the_room(room@).history_view()
            } else {
                Seq::<MessageV>::empty()
            };
            &&& final(state).the_room(room@).history_view() == bounded_push(
                pre,
                ROOM_HISTORY_CAPACITY as nat,
                jn,
            )
            &&& final(state).the_client(user_address@).mailbox@ == bounded_push(
                bounded_push(
                    old(state).the_client(user_address@).mailbox@,
                    MAILBOX_CAPACITY as nat,
                    jn,
                ),
                MAILBOX_CAPACITY as nat,
                MessageV::RoomUsers {
                    room: room@,
                    users: final(state).the_room(room@).users_view(),
                },
            )
        }),
{
    let ghost s0 = *old(state);
    let ghost ua = user_address@;
    let success = state.join_room(user_address, room);
    if success {
        let ghost s1 = *state;
        let ghost i0 = s0.client_idx(ua);
        let ghost j1 = s1.room_idx(room@);
        proof {
            assert(s1.has_room(room@));
            assert(0 <= i0 < s0.clients@.len() && s0.clients@[i0].user_address@ == ua);
            assert(s1.clients@.len() == s0.clients@.len()) by {
                assert(s1.client_addrs().len() == s0.client_addrs().len());
            }
            assert(s1.clients@[i0].ens_name == s0.clients@[i0].ens_name);
            assert(s1.clients@[i0].user_address == s0.clients@[i0].user_address);
            assert(s1.clients@[i0].mailbox == s0.clients@[i0].mailbox);
            s1.lemma_client_idx_is(i0);
            assert(s1.the_client(ua) == s1.clients@[i0]);
            assert(0 <= j1 < s1.rooms@.len() && s1.rooms@[j1].name@ == room@);
            // the history the broadcast lands on
            if s0.has_room(room@) {
                let j0 = s0.room_idx(room@);
                assert(0 <= j0 < s0.rooms@.len() && s0.rooms@[j0].name@ == room@);
                assert(s1.rooms@[j0].name == s0.rooms@[j0].name);
                assert(s1.rooms@[j0].message_history == s0.rooms@[j0].message_history);
                s1.lemma_room_idx_is(j0);
                assert(j1 == j0);
                assert(s1.the_room(room@).history_view() == s0.the_room(room@).history_view());
            } else {
                assert(s1.the_room(room@).history_view() == Seq::<MessageV>::empty());
            }
        }
        let ens = match state.get_client(user_address) {
            Some(c) => dup_opt_string(&c.ens_name),
            None => None,
        };
        proof {
            assert(opt_view(ens) == opt_view(s0.the_client(ua).ens_name));
        }
        let name = notice_name(user_address, &ens);
        let join_msg = ServerMessage::user_joined(name, room.clone(), now);
        let ghost jn = join_msg@;
        proof {
            assert(jn == (MessageV::UserJoined {
                user: spec_notice_name(ua, opt_view(s0.the_client(ua).ens_name)),
                room: room@,
                timestamp: now,
                ens_name: None,
            }));
            // the joiner is a member, so the broadcast reaches its mailbox
            s1.lemma_membership_consistent(ua, room@);
            assert(s1.member_of(ua, room@));
        }
        state.broadcast_to_room(room, join_msg);
        let ghost s2 = *state;
        proof {
            assert(s2.clients@.len() == s1.clients@.len()) by {
                assert(s2.client_addrs().len() == s1.client_addrs().len());
            }
            assert forall|a: Seq<char>, n: Seq<char>|
                #![trigger s2.joined(a, n)]
                s2.joined(a, n) == s1.joined(a, n) by {
                crate::state::lemma_joined_pointwise(s1, s2, a, n);
            }
            crate::state::lemma_same_addrs_has_client(s1, s2, ua);
            // history push and mailbox push
            assert(s2.rooms@.len() == s1.rooms@.len()) by {
                assert(s2.room_names().len() == s1.room_names().len());
            }
            assert(s2.rooms@[j1].name == s1.rooms@[j1].name);
            s2.lemma_room_idx_is(j1);
            assert(s2.the_room(room@).history_view() == bounded_push(
                s1.the_room(room@).history_view(),
                ROOM_HISTORY_CAPACITY as nat,
                jn,
            ));
            assert(s1.the_room(room@).users_view().contains(s1.clients@[i0].user_address@));
            assert(s2.clients@[i0].mailbox@ == bounded_push(
                s1.clients@[i0].mailbox@,
                MAILBOX_CAPACITY as nat,
                jn,
            ));
            assert(s2.clients@[i0].user_address == s1.clients@[i0].user_address);
            s2.lemma_client_idx_is(i0);
        }
        let users = state.get_room_users(room);
        proof {
            assert(crate::state::str_views(users@) == s2.the_room(room@).users_view());
        }
        let users_msg = ServerMessage::RoomUsers { room: room.clone(), users };
        let ghost rs = users_msg@;
        state.deliver_to_session(user_address, users_msg);
        proof {
            let s3 = *state;
            assert(s2.has_client(ua));
            assert(s3.clients@.len() == s2.clients@.len()) by {
                assert(s3.client_addrs().len() == s2.client_addrs().len());
            }
            assert forall|a: Seq<char>, n: Seq<char>|
                #![trigger s3.joined(a, n)]
                s3.joined(a, n) == s2.joined(a, n) by {
                crate::state::lemma_joined_pointwise(s2, s3, a, n);
            }
            assert(s3.joined(ua, room@));
            // the roster snapshot reached the joiner's mailbox
            assert(s3.clients@[i0].mailbox@ == bounded_push(
                s2.clients@[i0].mailbox@,
                MAILBOX_CAPACITY as nat,
                rs,
            ));
            assert(s3.clients@[i0].user_address == s2.clients@[i0].user_address);
            s3.lemma_client_idx_is(i0);
            assert(s3.the_client(ua) == s3.clients@[i0]);
            // delivering touches no room
            assert(s3.rooms == s2.rooms);
            assert(s3.rooms@[j1].name@ == room@);
            s3.lemma_room_idx_is(j1);
            assert(s3.the_room(room@) == s2.the_room(room@));
            assert(rs == (MessageV::RoomUsers {
                room: room@,
                users: s3.the_room(room@).users_view(),
            }));
        }
    }
    Ok(())
}

/// Removes the session from the room (idempotently) and announces the
/// departure in the room.  Fails only when no session is attached to the
/// address.
pub fn handle_leave_room(
    state: &mut AppState,
    user_address: &String,
    room: &String,
    now: i64,
) -> (r: Result<(), AppError>)
    requires
        old(state).wf(),
    ensures
        final(state).wf(),
        !old(state).has_client(user_address@) ==> (r matches Err(e) && e matches
            AppError::AuthenticationFailed(_) && *final(state) == *old(state)),
        old(state).has_client(user_address@) ==> (r is Ok && !final(state).joined(
            user_address@,
            room@,
        )),
        old(state).has_client(user_address@) ==> forall|a: Seq<char>, n: Seq<char>|
            #![trigger final(state).joined(a, n)]
            final(state).joined(a, n) == (old(state).joined(a, n) && !(a == user_address@ && n
                == room@)),
        // the room's history gains exactly the leave notice
        old(state).has_client(user_address@) && old(state).has_room(room@)
            ==> final(state).the_room(room@).history_view() == bounded_push(
            old(state).the_room(room@).history_view(),
            ROOM_HISTORY_CAPACITY as nat,
            MessageV::UserLeft {
                user: spec_notice_name(
                    user_address@,
                    opt_view(old(state).the_client(user_address@).ens_name),
                ),
                room: room@,
                timestamp: now,
                ens_name: None,
            },
        ),
{
    let ghost s0 = *old(state);
    let ghost ua = user_address@;
    let ens = match state.get_client(user_address) {
        Some(c) => dup_opt_string(&c.ens_name),
        None => {
            return Err(AppError::AuthenticationFailed(String::from_str("Client not found")));
        },
    };
    let name = notice_name(user_address, &ens);
    state.leave_room(user_address, room);
    let leave_msg = ServerMessage::user_left(name, room.clone(), now);
    let ghost ln = leave_msg@;
    let ghost s1 = *state;
    proof {
        if s0.has_room(room@) {
            let j0 = s0.room_idx(room@);
            assert(0 <= j0 < s0.rooms@.len() && s0.rooms@[j0].name@ == room@);
            assert(s1.rooms@.len() == s0.rooms@.len()) by {
                assert(s1.room_names().len() == s0.room_names().len());
            }
            assert(s1.rooms@[j0].name == s0.rooms@[j0].name);
            assert(s1.rooms@[j0].message_history == s0.rooms@[j0].message_history);
            s1.lemma_room_idx_is(j0);
            assert(s1.has_room(room@));
            assert(s1.the_room(room@).history_view() == s0.the_room(room@).history_view());
            s0.lemma_room_idx_is(j0);
        }
    }
    state.broadcast_to_room(room, leave_msg);
    proof {
        let s2 = *state;
        if s1.has_room(room@) {
            assert(s2.clients@.len() == s1.clients@.len()) by {
                assert(s2.client_addrs().len() == s1.client_addrs().len());
            }
        }
        assert forall|a: Seq<char>, n: Seq<char>|
            #![trigger s2.joined(a, n)]
            s2.joined(a, n) == s1.joined(a, n) by {
            if s1.has_room(room@) {
                crate::state::lemma_joined_pointwise(s1, s2, a, n);
            }
        }
        if s0.has_room(room@) {
            let j0 = s0.room_idx(room@);
            assert(s2.rooms@.len() == s1.rooms@.len()) by {
                assert(s2.room_names().len() == s1.room_names().len());
            }
            assert(s2.rooms@[j0].name == s1.rooms@[j0].name);
            assert(s2.rooms@[j0].history_view() == bounded_push(
                s1.rooms@[j0].history_view(),
                ROOM_HISTORY_CAPACITY as nat,
                ln,
            ));
            s1.lemma_room_idx_is(j0);
            s2.lemma_room_idx_is(j0);
            assert(s2.the_room(room@).history_view() == bounded_push(
                s0.the_room(room@).history_view(),
                ROOM_HISTORY_CAPACITY as nat,
                ln,
            ));
        }
    }
    Ok(())
}

/// Answers a ping with a pong into the sender's own mailbox; nothing is
/// broadcast to any room or globally.
pub fn handle_ping(state: &mut AppState, user_address: &String) -> (r: Result<(), AppError>)
    requires
        old(state).wf(),
    ensures
        final(state).wf(),
        r is Ok,
        !old(state).has_client(user_address@) ==> *final(state) == *old(state),
        old(state).has_client(user_address@) ==> ({
            &&& final(state).the_client(user_address@).mailbox@ == bounded_push(
                old(state).the_client(user_address@).mailbox@,
                MAILBOX_CAPACITY as nat,
                MessageV::Pong,
            )
            &&& final(state).rooms == old(state).rooms
            &&& final(state).global == old(state).global
            &&& final(state).client_addrs() == old(state).client_addrs()
        }),
        forall|a: Seq<char>, n: Seq<char>|
            #![trigger final(state).joined(a, n)]
            final(state).joined(a, n) == old(state).joined(a, n),
{
    let ghost s0 = *old(state);
    let ghost ua = user_address@;
    state.deliver_to_session(user_address, ServerMessage::Pong);
    proof {
        let s3 = *state;
        if s0.has_client(ua) {
            let i0 = s0.client_idx(ua);
            assert(0 <= i0 < s0.clients@.len() && s0.clients@[i0].user_address@ == ua);
            assert(s3.clients@.len() == s0.clients@.len()) by {
                assert(s3.client_addrs().len() == s0.client_addrs().len());
            }
            assert(s3.clients@[i0].mailbox@ == bounded_push(
                s0.clients@[i0].mailbox@,
                MAILBOX_CAPACITY as nat,
                MessageV::Pong,
            ));
            assert(s3.clients@[i0].user_address == s0.clients@[i0].user_address);
            s3.lemma_client_idx_is(i0);
            assert(s0.the_client(ua) == s0.clients@[i0]);
            assert(s3.the_client(ua) == s3.clients@[i0]);
        }
        assert forall|a: Seq<char>, n: Seq<char>|
            #![trigger s3.joined(a, n)]
            s3.joined(a, n) == s0.joined(a, n) by {
            if s0.has_client(ua) {
                crate::state::lemma_joined_pointwise(s0, s3, a, n);
            }
        }
    }
    Ok(())
}

/// Handles one already-dispatched, non-authentication command for an
/// authenticated session.  A failure is reported to this connection only
/// and leaves it open.
pub fn handle_client_message(
    state: &mut AppState,
    user_address: &String,
    cmd: ClientMessage,
    now: i64,
) -> (r: Result<bool, AppError>)
    requires
        old(state).wf(),
        !(cmd matches ClientMessage::Authenticate { .. }),
        !(cmd matches ClientMessage::SimpleAuth { .. }),
    ensures
        final(state).wf(),
        (cmd matches ClientMessage::JoinRoom { .. }) ==> r is Ok,
        (cmd matches ClientMessage::Ping) ==> r is Ok,
        r is Ok ==> r.unwrap(),
        // a text into a room the session has not joined is refused with an
        // authorization failure and produces no broadcast; a well-formed
        // text into a joined room is broadcast to the room
        cmd matches ClientMessage::SendText { room, text } ==> ({
            &&& (!spec_blank(text@) && text@.len() <= MAX_TEXT_LENGTH && old(state).has_client(
                user_address@,
            ) && !old(state).joined(user_address@, room@)) ==> (r matches Err(e) && e matches
                AppError::AuthorizationFailed(_) && *final(state) == *old(state))
            &&& spec_blank(text@) ==> (r matches Err(e) && e matches AppError::InvalidRequest(_)
                && *final(state) == *old(state))
            &&& (!spec_blank(text@) && text@.len() > MAX_TEXT_LENGTH) ==> (r matches Err(e)
                && e matches AppError::InvalidRequest(_) && *final(state) == *old(state))
            &&& (!spec_blank(text@) && text@.len() <= MAX_TEXT_LENGTH && old(state).has_client(
                user_address@,
            ) && old(state).joined(user_address@, room@)) ==> (r is Ok && (exists|m: MessageV|
                ({
                    &&& #[trigger] final(state).the_room(room@).history_view() == bounded_push(
                        old(state).the_room(room@).history_view(),
                        ROOM_HISTORY_CAPACITY as nat,
                        m,
                    )
                    &&& m matches MessageV::NewText { id, from, text: t, room: rn, timestamp }
                        && id.len() == 36 && from == spec_display_name(
                        user_address@,
                        opt_view(old(state).the_client(user_address@).ens_name),
                    ) && t == text@ && rn == room@ && timestamp == now
                })))
        }),
        // a ping answers with exactly one pong into the sender's own
        // mailbox, touching no room and no global channel
        (cmd matches ClientMessage::Ping && old(state).has_client(user_address@)) ==> ({
            &&& final(state).the_client(user_address@).mailbox@ == bounded_push(
                old(state).the_client(user_address@).mailbox@,
                MAILBOX_CAPACITY as nat,
                MessageV::Pong,
            )
            &&& final(state).rooms == old(state).rooms
            &&& final(state).global == old(state).global
        }),
        (cmd matches ClientMessage::Ping && !old(state).has_client(user_address@))
            ==> *final(state) == *old(state),
        // joining a room attaches the membership for an existing session
        cmd matches ClientMessage::JoinRoom { room } ==> (old(state).has_client(user_address@)
            ==> final(state).joined(user_address@, room@)),
        // leaving a room detaches the membership
        cmd matches ClientMessage::LeaveRoom { room } ==> (old(state).has_client(user_address@)
            ==> (r is Ok && !final(state).joined(user_address@, room@))),
{
    match cmd {
        ClientMessage::SendText { room, text } => {
            match handle_send_text(state, user_address, &room, &text, now) {
                Ok(_) => Ok(true),
                Err(e) => Err(e),
            }
        },
        ClientMessage::JoinRoom { room } => {
            match handle_join_room(state, user_address, &room, now) {
                Ok(_) => Ok(true),
                Err(e) => Err(e),
            }
        },
        ClientMessage::LeaveRoom { room } => {
            match handle_leave_room(state, user_address, &room, now) {
                Ok(_) => Ok(true),
                Err(e) => Err(e),
            }
        },
        _ => {
            match handle_ping(state, user_address) {
                Ok(_) => Ok(true),
                Err(e) => Err(e),
            }
        },
    }
}

/// Attaches a verified identity to the connection: registers the session,
/// confirms to its own mailbox, auto-joins the default room, announces the
/// arrival there and rebroadcasts the room's roster.  Returns the new
/// session identifier.
pub fn complete_authentication(
    state: &mut AppState,
    conn: &mut ConnState,
    user_auth: &UserAuth,
    now: i64,
) -> (client_id: String)
    requires
        old(state).wf(),
    ensures
        final(state).wf(),
        final(conn).wf(),
        final(conn).authenticated,
        (final(conn).user_address matches Some(a) && a@ == user_auth.address@),
        final(state).has_client(user_auth.address@),
        final(state).joined(user_auth.address@, default_room()),
        client_id@.len() == 36,
        // the fresh session's mailbox holds exactly the confirmation, the
        // join notice, and the updated roster, in that order
        final(state).the_client(user_auth.address@).mailbox@ == seq![
            MessageV::AuthSuccess {
                user_address: user_auth.address@,
                ens_name: opt_view(user_auth.ens_name),
            },
            MessageV::UserJoined {
                user: user_auth.address@,
                room: default_room(),
                timestamp: now,
                ens_name: None,
            },
            MessageV::OnlineUsers {
                users: final(state).spec_online(
                    final(state).the_room(default_room()).users_view(),
                ),
                room: default_room(),
            },
        ],
        // the default room's history ends with the join notice followed by
        // the updated roster
        final(state).the_room(default_room()).history_view() == bounded_push(
            bounded_push(
                old(state).the_room(default_room()).history_view(),
                ROOM_HISTORY_CAPACITY as nat,
                MessageV::UserJoined {
                    user: user_auth.address@,
                    room: default_room(),
                    timestamp: now,
                    ens_name: None,
                },
            ),
            ROOM_HISTORY_CAPACITY as nat,
            MessageV::OnlineUsers {
                users: final(state).spec_online(
                    final(state).the_room(default_room()).users_view(),
                ),
                room: default_room(),
            },
        ),
{
    let ghost s0 = *old(state);
    let client_id = state.add_client(user_auth.address.clone(), dup_opt_string(&user_auth.ens_name));
    conn.authenticated = true;
    conn.user_address = Some(user_auth.address.clone());
    let success_msg = ServerMessage::AuthSuccess {
        user_address: user_auth.address.clone(),
        ens_name: dup_opt_string(&user_auth.ens_name),
    };
    let ghost sa = *state;
    state.deliver_to_session(&user_auth.address, success_msg);
    let ghost s1 = *state;
    proof {
        assert(s1.clients@.len() == sa.clients@.len()) by {
            assert(s1.client_addrs().len() == sa.client_addrs().len());
        }
        crate::state::lemma_same_addrs_has_client(sa, s1, user_auth.address@);
        assert(s1.has_client(user_auth.address@));
    }
    let room = default_room_name();
    let joined_ok = state.join_room(&user_auth.address, &room);
    proof {
        assert(joined_ok);
        assert(state.joined(user_auth.address@, default_room()));
    }
    let join_msg = ServerMessage::user_joined(user_auth.address.clone(), room.clone(), now);
    let ghost s2 = *state;
    let ghost ua = user_auth.address@;
    proof {
        // the session's mailbox so far holds only the confirmation
        let sa1 = sa;
        assert(sa1.the_client(ua).mailbox@ == Seq::<MessageV>::empty());
        let i1 = sa1.client_idx(ua);
        assert(0 <= i1 < sa1.clients@.len() && sa1.clients@[i1].user_address@ == ua);
        assert(s1.clients@[i1].mailbox@ == bounded_push(
            sa1.clients@[i1].mailbox@,
            crate::state::MAILBOX_CAPACITY as nat,
            MessageV::AuthSuccess { user_address: ua, ens_name: opt_view(user_auth.ens_name) },
        ));
        assert(sa1.the_client(ua) == sa1.clients@[i1]);
        // joining does not touch the mailbox
        assert(s2.clients@.len() == s1.clients@.len()) by {
            assert(s2.client_addrs().len() == s1.client_addrs().len());
        }
        assert(s2.clients@[i1].mailbox == s1.clients@[i1].mailbox);
        assert(s2.clients@[i1].user_address == s1.clients@[i1].user_address);
        s2.lemma_client_idx_is(i1);
        assert(s2.the_client(ua) == s2.clients@[i1]);
        assert(s2.the_client(ua).mailbox@ =~= seq![
            MessageV::AuthSuccess {
                user_address: ua,
                ens_name: opt_view(user_auth.ens_name),
            },
        ]);
        assert(s2.joined(ua, default_room()));
        s2.lemma_membership_consistent(ua, default_room());
        assert(s2.member_of(ua, default_room()));
    }
    state.broadcast_to_room(&room, join_msg);
    proof {
        let s3 = *state;
        assert(s2.has_room(default_room()));
        assert(s3.clients@.len() == s2.clients@.len()) by {
            assert(s3.client_addrs().len() == s2.client_addrs().len());
        }
        assert forall|a: Seq<char>, n: Seq<char>|
            #![trigger s3.joined(a, n)]
            s3.joined(a, n) == s2.joined(a, n) by {
            crate::state::lemma_joined_pointwise(s2, s3, a, n);
        }
        assert(s3.joined(user_auth.address@, default_room()));
        crate::state::lemma_same_addrs_has_client(s2, s3, user_auth.address@);
        // the broadcast appended the join notice to the session's mailbox
        let jn = MessageV::UserJoined {
            user: ua,
            room: default_room(),
            timestamp: now,
            ens_name: None,
        };
        let i1 = s2.client_idx(ua);
        assert(0 <= i1 < s2.clients@.len() && s2.clients@[i1].user_address@ == ua);
        assert(s2.the_room(default_room()).users_view().contains(ua));
        assert(s3.clients@[i1].mailbox@ == bounded_push(
            s2.clients@[i1].mailbox@,
            crate::state::MAILBOX_CAPACITY as nat,
            jn,
        ));
        assert(s3.clients@[i1].user_address == s2.clients@[i1].user_address);
        s3.lemma_client_idx_is(i1);
        assert(s3.the_client(ua).mailbox@ =~= seq![
            MessageV::AuthSuccess {
                user_address: ua,
                ens_name: opt_view(user_auth.ens_name),
            },
            jn,
        ]);
        // and to the default room's history; joining left histories alone
        let j0 = s0.room_idx(default_room());
        assert(0 <= j0 < s0.rooms@.len() && s0.rooms@[j0].name@ == default_room());
        assert(sa.rooms@.len() == s0.rooms@.len()) by {
            assert(sa.room_names().len() == s0.room_names().len());
        }
        assert(sa.rooms@[j0].name == s0.rooms@[j0].name);
        assert(sa.rooms@[j0].history_view() == s0.rooms@[j0].history_view());
        assert(s1.rooms == sa.rooms);
        assert(s2.rooms@[j0].name == s1.rooms@[j0].name);
        assert(s2.rooms@[j0].message_history == s1.rooms@[j0].message_history);
        sa.lemma_room_idx_is(j0);
        s2.lemma_room_idx_is(j0);
        assert(s2.room_idx(default_room()) == j0);
        assert(s3.rooms@[j0].history_view() == bounded_push(
            s2.rooms@[j0].history_view(),
            ROOM_HISTORY_CAPACITY as nat,
            jn,
        ));
        s3.lemma_room_idx_is(j0);
        assert(s3.the_room(default_room()).history_view() == bounded_push(
            s0.the_room(default_room()).history_view(),
            ROOM_HISTORY_CAPACITY as nat,
            jn,
        ));
        s0.lemma_room_idx_is(j0);
    }
    let ghost s3 = *state;
    state.broadcast_online_users(&room);
    proof {
        let s4 = *state;
        let jn = MessageV::UserJoined {
            user: ua,
            room: default_room(),
            timestamp: now,
            ens_name: None,
        };
        assert(s3.has_room(default_room()));
        let mv = MessageV::OnlineUsers {
            users: s3.spec_online(s3.the_room(default_room()).users_view()),
            room: default_room(),
        };
        assert(s4.clients@.len() == s3.clients@.len()) by {
            assert(s4.client_addrs().len() == s3.client_addrs().len());
        }
        assert(s4.rooms@.len() == s3.rooms@.len()) by {
            assert(s4.room_names().len() == s3.room_names().len());
        }
        assert forall|a: Seq<char>, n: Seq<char>|
            #![trigger s4.joined(a, n)]
            s4.joined(a, n) == s3.joined(a, n) by {
            crate::state::lemma_joined_pointwise(s3, s4, a, n);
        }
        assert(s4.joined(ua, default_room()));
        crate::state::lemma_same_addrs_has_client(s3, s4, ua);
        // the roster reached the session's mailbox
        let i1 = s3.client_idx(ua);
        assert(0 <= i1 < s3.clients@.len() && s3.clients@[i1].user_address@ == ua);
        let j0 = s3.room_idx(default_room());
        assert(0 <= j0 < s3.rooms@.len() && s3.rooms@[j0].name@ == default_room());
        assert(s3.the_room(default_room()).users_view().contains(ua)) by {
            s3.lemma_membership_consistent(ua, default_room());
        }
        assert(s4.clients@[i1].mailbox@ == bounded_push(
            s3.clients@[i1].mailbox@,
            crate::state::MAILBOX_CAPACITY as nat,
            mv,
        ));
        assert(s4.clients@[i1].user_address == s3.clients@[i1].user_address);
        s4.lemma_client_idx_is(i1);
        assert(s3.the_client(ua) == s3.clients@[i1]);
        assert(s4.the_client(ua).mailbox@ =~= seq![
            MessageV::AuthSuccess {
                user_address: ua,
                ens_name: opt_view(user_auth.ens_name),
            },
            jn,
            mv,
        ]);
        // and the room's history
        assert(s4.rooms@[j0].history_view() == bounded_push(
            s3.rooms@[j0].history_view(),
            ROOM_HISTORY_CAPACITY as nat,
            mv,
        ));
        assert(s4.rooms@[j0].name == s3.rooms@[j0].name);
        s3.lemma_room_idx_is(j0);
        s4.lemma_room_idx_is(j0);
        assert(s4.the_room(default_room()).history_view() == bounded_push(
            bounded_push(
                s0.the_room(default_room()).history_view(),
                ROOM_HISTORY_CAPACITY as nat,
                jn,
            ),
            ROOM_HISTORY_CAPACITY as nat,
            mv,
        ));
        // the roster the message carries is the final state's own
        assert(s4.rooms@[j0].users == s3.rooms@[j0].users);
        assert(s4.the_room(default_room()).users_view() == s3.the_room(
            default_room(),
        ).users_view());
        crate::state::lemma_spec_online_same(
            s3,
            s4,
            s3.the_room(default_room()).users_view(),
        );
        assert(mv == (MessageV::OnlineUsers {
            users: s4.spec_online(s4.the_room(default_room()).users_view()),
            room: default_room(),
        }));
    }
    client_id
}

/// Tears the connection down: when a session was attached, it is removed
/// exactly once, cascading one departure (and its leave notice) per joined
/// room.
pub fn disconnect(state: &mut AppState, conn: &mut ConnState, now: i64) -> (left_rooms: Vec<
    String,
>)
    requires
        old(state).wf(),
    ensures
        final(state).wf(),
        !final(conn).authenticated,
        final(conn).user_address is None,
        final(conn).wf(),
        old(conn).user_address is None ==> (*final(state) == *old(state) && left_rooms@.len()
            == 0),
        old(conn).user_address matches Some(addr) ==> ({
            &&& !final(state).has_client(addr@)
            &&& forall|n: Seq<char>| !#[trigger] final(state).joined(addr@, n)
            &&& old(state).has_client(addr@) ==> ({
                &&& crate::state::str_views(left_rooms@) == old(state).the_client(
                    addr@,
                ).rooms_view()
                &&& crate::state::distinct_seq(crate::state::str_views(left_rooms@))
                &&& forall|j: int|
                    0 <= j < old(state).rooms@.len() ==> ({
                        let orm = old(state).rooms@[j];
                        let nrm = #[trigger] final(state).rooms@[j];
                        let was_joined = old(state).the_client(addr@).rooms_view().contains(
                            orm.name@,
                        );
                        &&& nrm.name == orm.name
                        &&& nrm.history_view() == if was_joined {
                            bounded_push(
                                orm.history_view(),
                                ROOM_HISTORY_CAPACITY as nat,
                                crate::state::leave_notice(
                                    addr@,
                                    orm.name@,
                                    now,
                                    opt_view(old(state).the_client(addr@).ens_name),
                                ),
                            )
                        } else {
                            orm.history_view()
                        }
                        &&& !nrm.users_view().contains(addr@) || !was_joined
                    })
            })
        }),
{
    let addr = match &conn.user_address {
        Some(a) => Some(a.clone()),
        None => None,
    };
    conn.authenticated = false;
    conn.user_address = None;
    match addr {
        Some(a) => {
            let left = state.remove_client(&a, now);
            proof {
                assert forall|n: Seq<char>| !#[trigger] state.joined(a@, n) by {
                    if state.joined(a@, n) {
                        assert(state.has_client(a@));
                    }
                }
            }
            left
        },
        None => Vec::new(),
    }
}

/// The system welcome sent when a connection opens.
pub fn welcome_message(now: i64) -> (m: ServerMessage)
    ensures
        m@ matches MessageV::NewText { id, from, text, room, timestamp } && id.len() == 36 && from
            == "System"@ && text
            == "Welcome to ChainTalk! Please authenticate to start chatting."@ && room
            == "system"@ && timestamp == now,
{
    ServerMessage::new_text(
        String::from_str("System"),
        String::from_str("Welcome to ChainTalk! Please authenticate to start chatting."),
        String::from_str("system"),
        now,
    )
}

} // verus!
