//! Responses that show users, their access tokens and connected clients.

use vstd::prelude::*;

use crate::error::ResponseError;
use crate::metadata;
use crate::metadata::{
    EncodedOptions, GroupMembership, Memberships, PersonalAccessToken, User, Users,
};
use crate::responses;
use crate::responses::{copied, wire_name, wire_options};

verus! {

broadcast use vstd::std_specs::hash::group_hash_axioms;

// ---------------------------------------------------------------------------
// Users
// ---------------------------------------------------------------------------

/// A user on the wire.
#[derive(Debug, PartialEq, Eq)]
pub struct UserResponse {
    pub id: u32,
    pub created_at: u64,
    pub status: u8,
    pub username: String,
    pub options: Vec<u8>,
}

impl UserResponse {
    /// Whether this shows `user`.
    pub open spec fn shows(self, user: User) -> bool {
        &&& self.id == user.id
        &&& self.created_at == user.created_at
        &&& self.status == user.status
        &&& self.username@ == user.username.text@
        &&& user.options matches EncodedOptions::Encoded(encoded) && self.options@ == encoded@
    }
}

/// Why `user` cannot be shown, if they cannot.
pub open spec fn user_error(user: User) -> Option<ResponseError> {
    if !user.username.fits_wire {
        Some(ResponseError::InvalidFormat)
    } else {
        responses::options_error(user.options)
    }
}

/// `user` on the wire.
pub fn user_response(user: &User) -> (result: Result<UserResponse, ResponseError>)
    ensures
        match result {
            Ok(response) => user_error(*user) is None && response.shows(*user),
            Err(error) => user_error(*user) == Some(error),
        },
{
    let username = wire_name(&user.username)?;
    let options = wire_options(&user.options)?;
    Ok(
        UserResponse {
            id: user.id,
            created_at: user.created_at,
            status: user.status,
            username,
            options,
        },
    )
}

/// Why the first user that cannot be shown cannot.
pub open spec fn users_error(users: Seq<User>) -> Option<ResponseError>
    decreases users.len(),
{
    if users.len() == 0 {
        None
    } else {
        match users_error(users.drop_last()) {
            Some(error) => Some(error),
            None => user_error(users.last()),
        }
    }
}

/// Whether `responses` show `users` in order.
pub open spec fn shows_users(responses: Seq<UserResponse>, users: Seq<User>) -> bool {
    &&& responses.len() == users.len()
    &&& forall|i: int| 0 <= i < responses.len() ==> (#[trigger] responses[i]).shows(users[i])
}

proof fn lemma_first_user_error(slots: Seq<Option<User>>, n: int)
    requires
        0 <= n <= slots.len(),
        users_error(metadata::occupied(slots.take(n))) is Some,
    ensures
        users_error(metadata::occupied(slots)) == users_error(metadata::occupied(slots.take(n))),
    decreases slots.len() - n,
{
    if n < slots.len() {
        let shorter = metadata::occupied(slots.take(n));
        assert(slots.take(n + 1).drop_last() =~= slots.take(n));
        if let Some(user) = slots[n] {
            assert(shorter.push(user).drop_last() =~= shorter);
        }
        lemma_first_user_error(slots, n + 1);
    } else {
        assert(slots.take(n) =~= slots);
    }
}

/// Every user.
#[derive(Debug, PartialEq, Eq)]
pub struct GetUsersResponse {
    pub users: Vec<UserResponse>,
}

/// Every user.
pub fn build_get_users_response(users: &Users) -> (result: Result<GetUsersResponse, ResponseError>)
    ensures
        match result {
            Ok(response) => users_error(users.items.values()) is None && shows_users(
                response.users@,
                users.items.values(),
            ),
            Err(error) => users_error(users.items.values()) == Some(error),
        },
{
    let ghost slots = users.items.slots@;
    let mut shown: Vec<UserResponse> = Vec::new();
    let mut i: usize = 0;
    while i < users.items.slots.len()
        invariant
            i <= slots.len(),
            slots == users.items.slots@,
            users_error(metadata::occupied(slots.take(i as int))) is None,
            shows_users(shown@, metadata::occupied(slots.take(i as int))),
        decreases slots.len() - i,
    {
        let ghost shorter = metadata::occupied(slots.take(i as int));
        assert(slots.take(i + 1).drop_last() =~= slots.take(i as int));
        if let Some(user) = &users.items.slots[i] {
            assert(shorter.push(*user).drop_last() =~= shorter);
            match user_response(user) {
                Ok(response) => shown.push(response),
                Err(error) => {
                    proof {
                        lemma_first_user_error(slots, i + 1);
                    }
                    return Err(error);
                },
            }
        }
        i += 1;
    }
    assert(slots.take(i as int) =~= slots);
    Ok(GetUsersResponse { users: shown })
}

/// A user with their permissions.
#[derive(Debug, PartialEq, Eq)]
pub struct UserDetailsResponse {
    pub user: UserResponse,
    pub permissions: Option<Vec<u8>>,
}

/// What a request for one user is answered with. `user_id` is the slot that
/// the identifier in the request resolves to.
pub open spec fn answers_get_user(
    users: Users,
    user_id: Option<usize>,
    result: Result<Option<UserDetailsResponse>, ResponseError>,
) -> bool {
    match user_id {
        None => result matches Ok(None),
        Some(slot) => match users.items.at(slot as int) {
            None => result == Err::<Option<UserDetailsResponse>, _>(
                ResponseError::InvalidIdentifier,
            ),
            Some(user) => match result {
                Ok(Some(response)) => {
                    &&& user_error(user) is None
                    &&& response.user.shows(user)
                    &&& response.permissions is Some <==> user.permissions is Some
                    &&& response.permissions matches Some(shown) ==> shown@
                        == user.permissions->0@
                },
                Ok(None) => false,
                Err(error) => user_error(user) == Some(error),
            },
        },
    }
}

/// A user with their permissions; `None` when the identifier resolved to
/// nothing.
pub fn build_get_user_response(users: &Users, user_id: Option<usize>) -> (result: Result<
    Option<UserDetailsResponse>,
    ResponseError,
>)
    ensures
        answers_get_user(*users, user_id, result),
{
    let slot = match user_id {
        Some(slot) => slot,
        None => {
            return Ok(None);
        },
    };
    let user = match users.items.get(slot) {
        Some(user) => user,
        None => {
            return Err(ResponseError::InvalidIdentifier);
        },
    };
    let shown = match user_response(user) {
        Ok(shown) => shown,
        Err(error) => {
            return Err(error);
        },
    };
    let permissions = match &user.permissions {
        Some(encoded) => Some(copied(encoded)),
        None => None,
    };
    Ok(Some(UserDetailsResponse { user: shown, permissions }))
}

// ---------------------------------------------------------------------------
// Personal access tokens
// ---------------------------------------------------------------------------

/// An access token on the wire: its name, and when it expires, 0 for never.
#[derive(Debug, PartialEq, Eq)]
pub struct PersonalAccessTokenResponse {
    pub name: String,
    pub expiry_at: u64,
}

impl PersonalAccessTokenResponse {
    /// Whether this shows `token`.
    pub open spec fn shows(self, token: PersonalAccessToken) -> bool {
        &&& self.name@ == token.name.text@
        &&& self.expiry_at == match token.expiry_at {
            Some(micros) => micros,
            None => 0,
        }
    }
}

/// Access tokens on the wire.
#[derive(Debug, PartialEq, Eq)]
pub struct GetPersonalAccessTokensResponse {
    pub tokens: Vec<PersonalAccessTokenResponse>,
}

/// Whether `responses` show `tokens` in order.
pub open spec fn shows_tokens(
    responses: Seq<PersonalAccessTokenResponse>,
    tokens: Seq<PersonalAccessToken>,
) -> bool {
    &&& responses.len() == tokens.len()
    &&& forall|i: int| 0 <= i < responses.len() ==> (#[trigger] responses[i]).shows(tokens[i])
}

/// Whether the wire can carry the name of every token.
pub open spec fn token_names_fit(tokens: Seq<PersonalAccessToken>) -> bool {
    forall|i: int| 0 <= i < tokens.len() ==> (#[trigger] tokens[i]).name.fits_wire
}

/// The tokens whose names the wire can carry, in order.
pub open spec fn sendable(tokens: Seq<PersonalAccessToken>) -> Seq<PersonalAccessToken>
    decreases tokens.len(),
{
    if tokens.len() == 0 {
        Seq::empty()
    } else if tokens.last().name.fits_wire {
        sendable(tokens.drop_last()).push(tokens.last())
    } else {
        sendable(tokens.drop_last())
    }
}

impl Users {
    /// The access tokens of the user `user_id`.
    pub open spec fn tokens_of(self, user_id: u32) -> Seq<PersonalAccessToken> {
        if self.personal_access_tokens@.contains_key(user_id) {
            self.personal_access_tokens@[user_id]@
        } else {
            Seq::empty()
        }
    }
}

/// `tokens` on the wire, in the order they are given.
pub fn personal_access_tokens_response(tokens: &Vec<PersonalAccessToken>) -> (result: Result<
    GetPersonalAccessTokensResponse,
    ResponseError,
>)
    ensures
        match result {
            Ok(response) => token_names_fit(tokens@) && shows_tokens(response.tokens@, tokens@),
            Err(error) => !token_names_fit(tokens@) && error == ResponseError::InvalidFormat,
        },
{
    let mut shown: Vec<PersonalAccessTokenResponse> = Vec::new();
    let mut i: usize = 0;
    while i < tokens.len()
        invariant
            i <= tokens@.len(),
            shown@.len() == i,
            forall|j: int| 0 <= j < i ==> (#[trigger] tokens@[j]).name.fits_wire,
            forall|j: int| 0 <= j < i ==> (#[trigger] shown@[j]).shows(tokens@[j]),
        decreases tokens@.len() - i,
    {
        let token = &tokens[i];
        match wire_name(&token.name) {
            Ok(name) => shown.push(
                PersonalAccessTokenResponse { name, expiry_at: token.expiry_at.unwrap_or(0) },
            ),
            Err(error) => {
                assert(!tokens@[i as int].name.fits_wire);
                return Err(error);
            },
        }
        i += 1;
    }
    Ok(GetPersonalAccessTokensResponse { tokens: shown })
}

/// The access tokens of the user behind a connection. A connection with no
/// user has none, and a token whose name the wire cannot carry is left out.
pub fn build_get_personal_access_tokens_response(users: &Users, user_id: Option<u32>) -> (response:
    GetPersonalAccessTokensResponse)
    ensures
        match user_id {
            Some(id) => shows_tokens(response.tokens@, sendable(users.tokens_of(id))),
            None => response.tokens@.len() == 0,
        },
{
    let mut shown: Vec<PersonalAccessTokenResponse> = Vec::new();
    let id = match user_id {
        Some(id) => id,
        None => {
            return GetPersonalAccessTokensResponse { tokens: shown };
        },
    };
    if let Some(tokens) = users.personal_access_tokens.get(&id) {
        let mut i: usize = 0;
        while i < tokens.len()
            invariant
                i <= tokens@.len(),
                shows_tokens(shown@, sendable(tokens@.take(i as int))),
            decreases tokens@.len() - i,
        {
            let token = &tokens[i];
            assert(tokens@.take(i + 1).drop_last() =~= tokens@.take(i as int));
            if let Ok(name) = wire_name(&token.name) {
                shown.push(
                    PersonalAccessTokenResponse { name, expiry_at: token.expiry_at.unwrap_or(0) },
                );
            }
            i += 1;
        }
        assert(tokens@.take(i as int) =~= tokens@);
    }
    GetPersonalAccessTokensResponse { tokens: shown }
}

// ---------------------------------------------------------------------------
// Clients
// ---------------------------------------------------------------------------

/// The user id reported for a connection with no user.
pub const NO_USER: u32 = u32::MAX;

/// The transport reported for a connection without a session record.
pub const TCP_TRANSPORT: u8 = 1;

/// One connected client.
#[derive(Debug)]
pub struct ConnectedClient {
    /// The transport client id: the shard in the high bits, a sequence number
    /// in the low ones.
    pub client_id: u128,
    pub user_id: Option<u32>,
    /// The code of the transport.
    pub transport: u8,
    /// The peer address as text.
    pub address: String,
    /// The replicated client id that the connection is bound to.
    pub vsr_client_id: Option<u128>,
}

/// A client on the wire.
#[derive(Debug, PartialEq, Eq)]
pub struct ClientResponse {
    pub client_id: u32,
    pub user_id: u32,
    pub transport: u8,
    pub address: String,
    pub consumer_groups_count: u32,
}

/// The low 32 bits of `value`.
pub open spec fn low_bits(value: int) -> int {
    value % 0x1_0000_0000
}

/// The low 32 bits of a client id: its sequence number.
fn sequence_tail(client_id: u128) -> (tail: u32)
    ensures
        tail == low_bits(client_id as int),
{
    let tail = #[verifier::truncate]
    (client_id as u32);
    assert(client_id as u32 == client_id % 0x1_0000_0000) by (bit_vector);
    tail
}

/// The low 32 bits of a count.
fn count_tail(count: usize) -> (tail: u32)
    ensures
        tail == low_bits(count as int),
{
    let wide = count as u64;
    let tail = #[verifier::truncate]
    (wide as u32);
    assert(wide as u32 == wide % 0x1_0000_0000) by (bit_vector);
    tail
}

impl ClientResponse {
    /// Whether this shows the connected client `info`.
    pub open spec fn shows(self, info: ConnectedClient, memberships: Memberships) -> bool {
        &&& self.client_id == low_bits(info.client_id as int)
        &&& self.user_id == match info.user_id {
            Some(id) => id,
            None => NO_USER,
        }
        &&& self.transport == info.transport
        &&& self.address@ == info.address@
        &&& self.consumer_groups_count == match info.vsr_client_id {
            Some(client) => low_bits(memberships.groups_of(client).len() as int),
            None => 0,
        }
    }
}

/// A connected client on the wire. Its consumer groups are counted by the
/// replicated client id it is bound to; one that never bound counts none.
pub fn connected_client_to_response(memberships: &Memberships, info: &ConnectedClient) -> (response:
    ClientResponse)
    ensures
        response.shows(*info, *memberships),
{
    let consumer_groups_count = match info.vsr_client_id {
        Some(client) => count_tail(memberships.of(client).len()),
        None => 0,
    };
    ClientResponse {
        client_id: sequence_tail(info.client_id),
        user_id: info.user_id.unwrap_or(NO_USER),
        transport: info.transport,
        address: info.address.clone(),
        consumer_groups_count,
    }
}

/// A client on the wire, with the consumer groups it is a member of.
#[derive(Debug, PartialEq, Eq)]
pub struct ClientDetailsResponse {
    pub client: ClientResponse,
    pub consumer_groups: Vec<GroupMembership>,
}

impl ClientDetailsResponse {
    /// Whether this shows the connection `client_id`, whose session record is
    /// `record` and whose session is bound to the replicated client `bound`.
    pub open spec fn shows(
        self,
        record: Option<ConnectedClient>,
        client_id: u128,
        bound: Option<u128>,
        memberships: Memberships,
    ) -> bool {
        &&& self.consumer_groups@ == match bound {
            Some(client) => memberships.groups_of(client),
            None => Seq::empty(),
        }
        &&& self.client.consumer_groups_count == low_bits(self.consumer_groups@.len() as int)
        &&& match record {
            Some(info) => {
                &&& self.client.client_id == low_bits(info.client_id as int)
                &&& self.client.user_id == match info.user_id {
                    Some(id) => id,
                    None => NO_USER,
                }
                &&& self.client.transport == info.transport
                &&& self.client.address@ == info.address@
            },
            None => {
                &&& self.client.client_id == low_bits(client_id as int)
                &&& self.client.user_id == NO_USER
                &&& self.client.transport == TCP_TRANSPORT
                &&& self.client.address@.len() == 0
            },
        }
    }
}

/// The requesting connection on the wire. Its identity comes from its session
/// record; its consumer groups are those of the replicated client that its
/// session is bound to.
///
/// Without a session record the connection id is reported with the "no user"
/// sentinel and the default transport rather than as user 0, who is a real
/// user.
pub fn build_get_me_response(
    memberships: &Memberships,
    record: Option<&ConnectedClient>,
    client_id: u128,
    bound: Option<u128>,
) -> (response: ClientDetailsResponse)
    ensures
        response.shows(
            match record {
                Some(info) => Some(*info),
                None => None,
            },
            client_id,
            bound,
            *memberships,
        ),
{
    let identity = match record {
        Some(info) => connected_client_to_response(memberships, info),
        None => ClientResponse {
            client_id: sequence_tail(client_id),
            user_id: NO_USER,
            transport: TCP_TRANSPORT,
            address: String::new(),
            consumer_groups_count: 0,
        },
    };
    let consumer_groups = match bound {
        Some(client) => memberships.of(client),
        None => Vec::new(),
    };
    let client = ClientResponse {
        consumer_groups_count: count_tail(consumer_groups.len()),
        ..identity
    };
    ClientDetailsResponse { client, consumer_groups }
}

} // verus!
