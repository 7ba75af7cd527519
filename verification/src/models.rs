use vstd::prelude::*;

verus! {

/// Commands a connected client may send, tagged by kind.
#[derive(Debug, Clone, PartialEq, Eq)]
pub enum ClientMessage {
    Authenticate { message: String, signature: String },
    SimpleAuth { address: String, message: String, signature: String, nonce: String },
    SendText { room: String, text: String },
    JoinRoom { room: String },
    LeaveRoom { room: String },
    Ping,
}

/// Messages the server broadcasts or delivers to clients.  Timestamps are
/// Unix seconds.
#[derive(Debug, Clone, PartialEq, Eq)]
pub enum ServerMessage {
    NewText { id: String, from: String, text: String, room: String, timestamp: i64 },
    UserJoined { user: String, room: String, timestamp: i64, ens_name: Option<String> },
    UserLeft { user: String, room: String, timestamp: i64, ens_name: Option<String> },
    RoomUsers { room: String, users: Vec<String> },
    ChainEvent(OnChainEvent),
    Error { message: String },
    AuthSuccess { user_address: String, ens_name: Option<String> },
    AuthFailed { error: String },
    Pong,
    OnlineUsers { users: Vec<OnlineUser>, room: String },
}

#[derive(Debug, Clone, PartialEq, Eq)]
pub struct OnlineUser {
    pub address: String,
    pub ens_name: Option<String>,
}

/// An event observed on the chain, wrapped for rebroadcast.
#[derive(Debug, Clone, PartialEq, Eq)]
pub struct OnChainEvent {
    pub id: String,
    pub event_type: String,
    pub transaction_hash: String,
    pub block_number: u64,
    pub timestamp: i64,
    pub details: UniswapV3SwapDetails,
}

/// Decoded fields of a pool swap event.  Amounts are decimal numerals;
/// the two signed deltas carry a leading minus sign when negative.
#[derive(Debug, Clone, PartialEq, Eq)]
pub struct UniswapV3SwapDetails {
    pub sender: String,
    pub recipient: String,
    pub amount0: String,
    pub amount1: String,
    pub sqrt_price_x96: String,
    pub liquidity: String,
    pub tick: i32,
    pub pool_address: String,
    pub token0: String,
    pub token1: String,
}

/// A verified identity together with its best-effort enrichment.
#[derive(Debug, Clone, PartialEq, Eq)]
pub struct UserAuth {
    pub address: String,
    pub ens_name: Option<String>,
    pub token_holdings: Vec<(String, String)>,
    pub nft_holdings: Vec<String>,
}

/// Claims carried by a session token.  `iat` and `exp` are Unix seconds.
#[derive(Debug, Clone, PartialEq, Eq)]
pub struct Claims {
    pub sub: String,
    pub exp: u64,
    pub iat: u64,
    pub ens: Option<String>,
}

#[derive(Debug, Clone, PartialEq, Eq)]
pub struct LoginRequest {
    pub message: String,
    pub signature: String,
}

#[derive(Debug, Clone, PartialEq, Eq)]
pub struct LoginResponse {
    pub token: String,
    pub user: UserInfo,
}

#[derive(Debug, Clone, PartialEq, Eq)]
pub struct UserInfo {
    pub address: String,
    pub ens_name: Option<String>,
    pub avatar: Option<String>,
}

#[derive(Debug, Clone, PartialEq, Eq)]
pub struct NonceResponse {
    pub nonce: String,
}

#[derive(Debug, Clone, PartialEq, Eq)]
pub struct RoomConfig {
    pub name: String,
    pub description: Option<String>,
    pub token_gate: Option<TokenGate>,
    pub max_users: Option<usize>,
    pub created_at: i64,
    pub created_by: String,
}

#[derive(Debug, Clone, PartialEq, Eq)]
pub struct TokenGate {
    pub gate_type: TokenGateType,
    pub contract_address: String,
    pub minimum_balance: Option<String>,
    pub token_ids: Option<Vec<String>>,
}

#[derive(Debug, Clone, PartialEq, Eq)]
pub enum TokenGateType {
    ERC20,
    ERC721,
    ERC1155,
}

// ---------------------------------------------------------------------------
// Mathematical views
// ---------------------------------------------------------------------------

/// View of an optional string.
pub open spec fn opt_view(o: Option<String>) -> Option<Seq<char>> {
    match o {
        Some(s) => Some(s@),
        None => None,
    }
}

pub struct OnlineUserV {
    pub address: Seq<char>,
    pub ens_name: Option<Seq<char>>,
}

pub struct SwapDetailsV {
    pub sender: Seq<char>,
    pub recipient: Seq<char>,
    pub amount0: Seq<char>,
    pub amount1: Seq<char>,
    pub sqrt_price_x96: Seq<char>,
    pub liquidity: Seq<char>,
    pub tick: i32,
    pub pool_address: Seq<char>,
    pub token0: Seq<char>,
    pub token1: Seq<char>,
}

pub struct OnChainEventV {
    pub id: Seq<char>,
    pub event_type: Seq<char>,
    pub transaction_hash: Seq<char>,
    pub block_number: u64,
    pub timestamp: i64,
    pub details: SwapDetailsV,
}

/// Mathematical value of a `ServerMessage`: the same shape over sequences.
pub enum MessageV {
    NewText { id: Seq<char>, from: Seq<char>, text: Seq<char>, room: Seq<char>, timestamp: i64 },
    UserJoined { user: Seq<char>, room: Seq<char>, timestamp: i64, ens_name: Option<Seq<char>> },
    UserLeft { user: Seq<char>, room: Seq<char>, timestamp: i64, ens_name: Option<Seq<char>> },
    RoomUsers { room: Seq<char>, users: Seq<Seq<char>> },
    ChainEvent(OnChainEventV),
    Error { message: Seq<char> },
    AuthSuccess { user_address: Seq<char>, ens_name: Option<Seq<char>> },
    AuthFailed { error: Seq<char> },
    Pong,
    OnlineUsers { users: Seq<OnlineUserV>, room: Seq<char> },
}

impl View for OnlineUser {
    type V = OnlineUserV;

    open spec fn view(&self) -> OnlineUserV {
        OnlineUserV { address: self.address@, ens_name: opt_view(self.ens_name) }
    }
}

impl View for UniswapV3SwapDetails {
    type V = SwapDetailsV;

    open spec fn view(&self) -> SwapDetailsV {
        SwapDetailsV {
            sender: self.sender@,
            recipient: self.recipient@,
            amount0: self.amount0@,
            amount1: self.amount1@,
            sqrt_price_x96: self.sqrt_price_x96@,
            liquidity: self.liquidity@,
            tick: self.tick,
            pool_address: self.pool_address@,
            token0: self.token0@,
            token1: self.token1@,
        }
    }
}

impl View for OnChainEvent {
    type V = OnChainEventV;

    open spec fn view(&self) -> OnChainEventV {
        OnChainEventV {
            id: self.id@,
            event_type: self.event_type@,
            transaction_hash: self.transaction_hash@,
            block_number: self.block_number,
            timestamp: self.timestamp,
            details: self.details@,
        }
    }
}

impl View for ServerMessage {
    type V = MessageV;

    open spec fn view(&self) -> MessageV {
        match self {
            ServerMessage::NewText { id, from, text, room, timestamp } => MessageV::NewText {
                id: id@,
                from: from@,
                text: text@,
                room: room@,
                timestamp: *timestamp,
            },
            ServerMessage::UserJoined { user, room, timestamp, ens_name } => MessageV::UserJoined {
                user: user@,
                room: room@,
                timestamp: *timestamp,
                ens_name: opt_view(*ens_name),
            },
            ServerMessage::UserLeft { user, room, timestamp, ens_name } => MessageV::UserLeft {
                user: user@,
                room: room@,
                timestamp: *timestamp,
                ens_name: opt_view(*ens_name),
            },
            ServerMessage::RoomUsers { room, users } => MessageV::RoomUsers {
                room: room@,
                users: users@.map_values(|s: String| s@),
            },
            ServerMessage::ChainEvent(e) => MessageV::ChainEvent(e@),
            ServerMessage::Error { message } => MessageV::Error { message: message@ },
            ServerMessage::AuthSuccess { user_address, ens_name } => MessageV::AuthSuccess {
                user_address: user_address@,
                ens_name: opt_view(*ens_name),
            },
            ServerMessage::AuthFailed { error } => MessageV::AuthFailed { error: error@ },
            ServerMessage::Pong => MessageV::Pong,
            ServerMessage::OnlineUsers { users, room } => MessageV::OnlineUsers {
                users: users@.map_values(|u: OnlineUser| u@),
                room: room@,
            },
        }
    }
}

// ---------------------------------------------------------------------------
// Construction and copying
// ---------------------------------------------------------------------------

/// Relies on `uuid::Uuid::new_v4` and its `Display` rendering: a freshly
/// generated identifier in the 36-character hyphenated form.  The value is
/// random; nothing else is assumed of it.
#[verifier::external_body]
pub fn fresh_id() -> (r: String)
    ensures
        r@.len() == 36,
{
    uuid::Uuid::new_v4().to_string()
}

/// Copies an optional string; the copy is spec-equal to the original.
pub fn dup_opt_string(o: &Option<String>) -> (r: Option<String>)
    ensures
        r == *o,
{
    match o {
        Some(s) => Some(s.clone()),
        None => None,
    }
}

/// Copies a string vector; the copy is spec-equal to the original.
pub fn dup_string_vec(v: &Vec<String>) -> (r: Vec<String>)
    ensures
        r@ == v@,
{
    let r = v.clone();
    assert forall|i: int| 0 <= i < v@.len() implies r@[i] == v@[i] by {
        assert(cloned::<String>(v@[i], r@[i]));
    }
    assert(r@ =~= v@);
    r
}

impl OnlineUser {
    /// Copies the value; the copy is spec-equal to the original.
    pub fn duplicate(&self) -> (r: Self)
        ensures
            r == *self,
    {
        OnlineUser { address: self.address.clone(), ens_name: dup_opt_string(&self.ens_name) }
    }
}

impl UniswapV3SwapDetails {
    /// Copies the value; the copy is spec-equal to the original.
    pub fn duplicate(&self) -> (r: Self)
        ensures
            r == *self,
    {
        UniswapV3SwapDetails {
            sender: self.sender.clone(),
            recipient: self.recipient.clone(),
            amount0: self.amount0.clone(),
            amount1: self.amount1.clone(),
            sqrt_price_x96: self.sqrt_price_x96.clone(),
            liquidity: self.liquidity.clone(),
            tick: self.tick,
            pool_address: self.pool_address.clone(),
            token0: self.token0.clone(),
            token1: self.token1.clone(),
        }
    }
}

impl OnChainEvent {
    /// Copies the value; the copy is spec-equal to the original.
    pub fn duplicate(&self) -> (r: Self)
        ensures
            r == *self,
    {
        OnChainEvent {
            id: self.id.clone(),
            event_type: self.event_type.clone(),
            transaction_hash: self.transaction_hash.clone(),
            block_number: self.block_number,
            timestamp: self.timestamp,
            details: self.details.duplicate(),
        }
    }

    /// Wraps decoded fields into an event envelope with a fresh identifier.
    pub fn new(
        event_type: String,
        transaction_hash: String,
        block_number: u64,
        details: UniswapV3SwapDetails,
        now: i64,
    ) -> (e: Self)
        ensures
            e.event_type == event_type,
            e.transaction_hash == transaction_hash,
            e.block_number == block_number,
            e.timestamp == now,
            e.details == details,
            e.id@.len() == 36,
    {
        OnChainEvent {
            id: fresh_id(),
            event_type,
            transaction_hash,
            block_number,
            timestamp: now,
            details,
        }
    }
}

impl UserAuth {
    /// Copies the value; the copy is spec-equal to the original up to the
    /// holdings vectors, which are copied element for element.
    pub fn duplicate(&self) -> (r: Self)
        ensures
            r.address == self.address,
            r.ens_name == self.ens_name,
            r.token_holdings@ == self.token_holdings@,
            r.nft_holdings@ == self.nft_holdings@,
    {
        let mut holdings: Vec<(String, String)> = Vec::new();
        let n = self.token_holdings.len();
        for i in 0..n
            invariant
                n == self.token_holdings@.len(),
                holdings@ =~= self.token_holdings@.take(i as int),
        {
            let k = self.token_holdings[i].0.clone();
            let v = self.token_holdings[i].1.clone();
            holdings.push((k, v));
            assert(holdings@ =~= self.token_holdings@.take(i + 1));
        }
        assert(self.token_holdings@.take(n as int) =~= self.token_holdings@);
        let nfts = dup_string_vec(&self.nft_holdings);
        UserAuth {
            address: self.address.clone(),
            ens_name: dup_opt_string(&self.ens_name),
            token_holdings: holdings,
            nft_holdings: nfts,
        }
    }
}

impl ServerMessage {
    /// Copies the message; the copy has the same mathematical value.
    pub fn duplicate(&self) -> (r: Self)
        ensures
            r@ == self@,
    {
        match self {
            ServerMessage::NewText { id, from, text, room, timestamp } => ServerMessage::NewText {
                id: id.clone(),
                from: from.clone(),
                text: text.clone(),
                room: room.clone(),
                timestamp: *timestamp,
            },
            ServerMessage::UserJoined { user, room, timestamp, ens_name } => ServerMessage::UserJoined {
                user: user.clone(),
                room: room.clone(),
                timestamp: *timestamp,
                ens_name: dup_opt_string(ens_name),
            },
            ServerMessage::UserLeft { user, room, timestamp, ens_name } => ServerMessage::UserLeft {
                user: user.clone(),
                room: room.clone(),
                timestamp: *timestamp,
                ens_name: dup_opt_string(ens_name),
            },
            ServerMessage::RoomUsers { room, users } => {
                let us = dup_string_vec(users);
                let r = ServerMessage::RoomUsers { room: room.clone(), users: us };
                proof {
                    assert(us@.map_values(|s: String| s@) =~= users@.map_values(|s: String| s@));
                }
                r
            },
            ServerMessage::ChainEvent(e) => ServerMessage::ChainEvent(e.duplicate()),
            ServerMessage::Error { message } => ServerMessage::Error { message: message.clone() },
            ServerMessage::AuthSuccess { user_address, ens_name } => ServerMessage::AuthSuccess {
                user_address: user_address.clone(),
                ens_name: dup_opt_string(ens_name),
            },
            ServerMessage::AuthFailed { error } => ServerMessage::AuthFailed { error: error.clone() },
            ServerMessage::Pong => ServerMessage::Pong,
            ServerMessage::OnlineUsers { users, room } => {
                let mut us: Vec<OnlineUser> = Vec::new();
                let n = users.len();
                for i in 0..n
                    invariant
                        n == users@.len(),
                        us@ =~= users@.take(i as int),
                {
                    us.push(users[i].duplicate());
                    assert(us@ =~= users@.take(i + 1));
                }
                assert(users@.take(n as int) =~= users@);
                let r = ServerMessage::OnlineUsers { users: us, room: room.clone() };
                proof {
                    assert(us@.map_values(|u: OnlineUser| u@) =~= users@.map_values(
                        |u: OnlineUser| u@,
                    ));
                }
                r
            },
        }
    }

    /// A text message with a fresh identifier.
    pub fn new_text(from: String, text: String, room: String, now: i64) -> (m: Self)
        ensures
            m@ matches MessageV::NewText { id, from: f, text: t, room: r, timestamp } && f == from@
                && t == text@ && r == room@ && timestamp == now && id.len() == 36,
    {
        ServerMessage::NewText { id: fresh_id(), from, text, room, timestamp: now }
    }

    /// A user-joined notice with no display name attached.
    pub fn user_joined(user: String, room: String, now: i64) -> (m: Self)
        ensures
            m@ == (MessageV::UserJoined {
                user: user@,
                room: room@,
                timestamp: now,
                ens_name: None,
            }),
    {
        ServerMessage::UserJoined { user, room, timestamp: now, ens_name: None }
    }

    /// A user-left notice with no display name attached.
    pub fn user_left(user: String, room: String, now: i64) -> (m: Self)
        ensures
            m@ == (MessageV::UserLeft { user: user@, room: room@, timestamp: now, ens_name: None }),
    {
        ServerMessage::UserLeft { user, room, timestamp: now, ens_name: None }
    }
}

} // verus!
