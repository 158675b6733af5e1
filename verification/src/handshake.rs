use vstd::prelude::*;
use crate::credentials::{Credentials, CredentialsRoleV, CredentialsV, Role};
use crate::error::OcpiError;

verus! {

/// The store of registered remote parties after `roles` have been recorded
/// for credentials `c`: each (party id, country code) key named by a role is
/// (re)bound to `c`, last writer wins.
pub open spec fn register_keys(
    m: Map<(Seq<char>, Seq<char>), CredentialsV>,
    roles: Seq<CredentialsRoleV>,
    c: CredentialsV,
) -> Map<(Seq<char>, Seq<char>), CredentialsV>
    decreases roles.len(),
{
    if roles.len() == 0 {
        m
    } else {
        register_keys(m, roles.drop_last(), c).insert(
            (roles.last().party_id, roles.last().country_code),
            c,
        )
    }
}

/// Whether some role in `roles` names the key `k`.
pub open spec fn roles_have_key(roles: Seq<CredentialsRoleV>, k: (Seq<char>, Seq<char>)) -> bool {
    exists|i: int| 0 <= i < roles.len() && roles[i].party_id == k.0 && roles[i].country_code == k.1
}

/// What `register_keys` does, key by key: a key named by some role is bound
/// to `c`; every other key keeps its prior binding.
pub proof fn lemma_register_keys_lookup(
    m: Map<(Seq<char>, Seq<char>), CredentialsV>,
    roles: Seq<CredentialsRoleV>,
    c: CredentialsV,
    k: (Seq<char>, Seq<char>),
)
    ensures
        register_keys(m, roles, c).contains_key(k) == (m.contains_key(k) || roles_have_key(
            roles,
            k,
        )),
        roles_have_key(roles, k) ==> register_keys(m, roles, c)[k] == c,
        !roles_have_key(roles, k) && m.contains_key(k) ==> register_keys(m, roles, c)[k] == m[k],
    decreases roles.len(),
{
    if roles.len() == 0 {
        assert(!roles_have_key(roles, k));
    } else {
        lemma_register_keys_lookup(m, roles.drop_last(), c, k);
        let last = roles.last();
        if last.party_id == k.0 && last.country_code == k.1 {
            assert(roles[roles.len() - 1].party_id == k.0);
            assert(roles_have_key(roles, k));
        } else {
            assert(roles_have_key(roles.drop_last(), k) == roles_have_key(roles, k)) by {
                if roles_have_key(roles, k) {
                    let i = choose|i: int|
                        0 <= i < roles.len() && (#[trigger] roles[i]).party_id == k.0
                            && roles[i].country_code == k.1;
                    assert(i < roles.len() - 1);
                    assert(roles.drop_last()[i] == roles[i]);
                } else {
                    if roles_have_key(roles.drop_last(), k) {
                        let i = choose|i: int|
                            0 <= i < roles.drop_last().len() && (#[trigger] roles.drop_last()[i]).party_id
                                == k.0 && roles.drop_last()[i].country_code == k.1;
                        assert(roles[i] == roles.drop_last()[i]);
                    }
                }
            }
        }
    }
}

/// Recording the same credentials twice leaves the store as after once.
pub proof fn lemma_register_keys_idempotent(
    m: Map<(Seq<char>, Seq<char>), CredentialsV>,
    roles: Seq<CredentialsRoleV>,
    c: CredentialsV,
)
    ensures
        register_keys(register_keys(m, roles, c), roles, c) == register_keys(m, roles, c),
{
    let once = register_keys(m, roles, c);
    let twice = register_keys(once, roles, c);
    assert forall|k: (Seq<char>, Seq<char>)| #[trigger] twice.contains_key(k) implies
        once.contains_key(k) && twice[k] == once[k] by {
        lemma_register_keys_lookup(m, roles, c, k);
        lemma_register_keys_lookup(once, roles, c, k);
    }
    assert forall|k: (Seq<char>, Seq<char>)| #[trigger] once.contains_key(k) implies
        twice.contains_key(k) by {
        lemma_register_keys_lookup(m, roles, c, k);
        lemma_register_keys_lookup(once, roles, c, k);
    }
    assert(twice =~= once);
}

/// Mathematical model of a `StoredCredentials` entry.
#[verifier::ext_equal]
pub ghost struct StoredCredentialsV {
    pub party_id: Seq<char>,
    pub country_code: Seq<char>,
    pub credentials: CredentialsV,
}

/// One registered remote party: the (party id, country code) key under which
/// it registered, and the credentials it registered with.
pub struct StoredCredentials {
    pub party_id: String,
    pub country_code: String,
    pub credentials: Credentials,
}

impl View for StoredCredentials {
    type V = StoredCredentialsV;

    open spec fn view(&self) -> StoredCredentialsV {
        StoredCredentialsV {
            party_id: self.party_id@,
            country_code: self.country_code@,
            credentials: self.credentials@,
        }
    }
}

impl DeepView for StoredCredentials {
    type V = StoredCredentialsV;

    open spec fn deep_view(&self) -> StoredCredentialsV {
        self@
    }
}

/// The map a journal of store entries denotes: later entries override
/// earlier ones with the same key, last writer wins.
pub open spec fn entries_map(s: Seq<StoredCredentialsV>) -> Map<
    (Seq<char>, Seq<char>),
    CredentialsV,
>
    decreases s.len(),
{
    if s.len() == 0 {
        Map::empty()
    } else {
        entries_map(s.drop_last()).insert(
            (s.last().party_id, s.last().country_code),
            s.last().credentials,
        )
    }
}

/// The registered remote parties, keyed by (party id, country code).
/// Replacement is whole-record: registering under an existing key drops the
/// prior credentials entirely, no role merge.
pub struct CredentialsStore {
    pub entries: Vec<StoredCredentials>,
}

impl View for CredentialsStore {
    type V = Map<(Seq<char>, Seq<char>), CredentialsV>;

    open spec fn view(&self) -> Map<(Seq<char>, Seq<char>), CredentialsV> {
        entries_map(self.entries.deep_view())
    }
}

impl CredentialsStore {
    pub fn new() -> (r: CredentialsStore)
        ensures
            r@ == Map::<(Seq<char>, Seq<char>), CredentialsV>::empty(),
    {
        let r = CredentialsStore { entries: Vec::new() };
        proof {
            assert(r.entries.deep_view() =~= Seq::<StoredCredentialsV>::empty());
        }
        r
    }

    /// Record `remote` under every (party id, country code) key its roles
    /// name, replacing any prior credentials under those keys.
    pub fn register(&mut self, remote: &Credentials)
        ensures
            final(self)@ == register_keys(old(self)@, remote@.roles, remote@),
    {
        let mut i: usize = 0;
        while i < remote.roles.len()
            invariant
                i <= remote.roles@.len(),
                self@ == register_keys(old(self)@, remote@.roles.take(i as int), remote@),
            decreases remote.roles@.len() - i,
        {
            let ghost pre = self.entries.deep_view();
            let entry = StoredCredentials {
                party_id: remote.roles[i].party_id.clone(),
                country_code: remote.roles[i].country_code.clone(),
                credentials: remote.duplicate(),
            };
            self.entries.push(entry);
            proof {
                assert(self.entries.deep_view().drop_last() =~= pre);
                assert(self.entries.deep_view().last().credentials == remote@);
                assert(self.entries.deep_view().last().party_id
                    == remote@.roles[i as int].party_id);
                assert(remote@.roles.take(i as int + 1).drop_last() =~= remote@.roles.take(
                    i as int,
                ));
                assert(remote@.roles.take(i as int + 1).last() == remote@.roles[i as int]);
            }
            i = i + 1;
        }
        proof {
            assert(remote@.roles.take(remote.roles@.len() as int) =~= remote@.roles);
        }
    }

    /// Look up the credentials registered under one key.
    #[verifier::loop_isolation(false)]
    pub fn get(&self, party_id: &String, country_code: &String) -> (r: Option<&Credentials>)
        ensures
            match r {
                Some(c) => self@.contains_key((party_id@, country_code@)) && self@[(
                    party_id@,
                    country_code@,
                )] == c@,
                None => !self@.contains_key((party_id@, country_code@)),
            },
    {
        let ghost k = (party_id@, country_code@);
        let mut i: usize = self.entries.len();
        proof {
            assert(self.entries.deep_view().take(i as int) =~= self.entries.deep_view());
        }
        while i > 0
            invariant
                i <= self.entries@.len(),
                self@.contains_key(k) == entries_map(
                    self.entries.deep_view().take(i as int),
                ).contains_key(k),
                self@.contains_key(k) ==> self@[k] == entries_map(
                    self.entries.deep_view().take(i as int),
                )[k],
            decreases i,
        {
            i = i - 1;
            let e = &self.entries[i];
            proof {
                assert(self.entries.deep_view().take(i as int + 1).drop_last()
                    =~= self.entries.deep_view().take(i as int));
                assert(self.entries.deep_view().take(i as int + 1).last()
                    == self.entries.deep_view()[i as int]);
            }
            proof {
                assert(self.entries.deep_view()[i as int] == e@);
            }
            if e.party_id == *party_id && e.country_code == *country_code {
                proof {
                    assert(e@.party_id == k.0 && e@.country_code == k.1);
                    assert((e@.party_id, e@.country_code) =~= k);
                    assert(entries_map(self.entries.deep_view().take(i as int + 1)).contains_key(
                        k,
                    ));
                    assert(entries_map(self.entries.deep_view().take(i as int + 1))[k]
                        == e@.credentials);
                }
                return Some(&e.credentials);
            }
            proof {
                assert((e@.party_id, e@.country_code) != k) by {
                    if (e@.party_id, e@.country_code) =~= k {
                        assert(e@.party_id == k.0 && e@.country_code == k.1);
                    }
                }
            }
        }
        proof {
            assert(self.entries.deep_view().take(0) =~= Seq::<StoredCredentialsV>::empty());
        }
        None
    }
}

/// The four states of the registration handshake.
#[derive(Clone, Copy, Debug, PartialEq, Eq, Structural)]
pub enum HandshakeState {
    /// Nothing sent yet; `initiate` moves on from here.
    Unregistered,
    /// The local credentials went out; `complete` resumes here once the
    /// remote party's credentials come back.
    TokenSent,
    /// Registration succeeded; the remote credentials are stored.
    Registered,
    /// Validation rejected the remote credentials; the rejection reason is
    /// kept in `Handshake::failure`, and the handshake must be restarted from
    /// `Unregistered`, never resumed.
    Failed,
}

/// Why a handshake is rejected, if it is: the first failed check among, in
/// order, an empty token (`MalformedToken`), no role or a role outside the
/// permitted set (`InvalidRole`), and a repeated (party id, country code,
/// role) triple (`DuplicateParty`).
pub open spec fn spec_validate(remote: CredentialsV, permitted: Seq<Role>) -> Option<OcpiError> {
    if remote.token.len() == 0 {
        Some(OcpiError::MalformedToken)
    } else if remote.roles.len() == 0 {
        Some(OcpiError::InvalidRole)
    } else if exists|i: int|
        0 <= i < remote.roles.len() && !permitted.contains((#[trigger] remote.roles[i]).role) {
        Some(OcpiError::InvalidRole)
    } else if exists|i: int, j: int|
        0 <= i < remote.roles.len() && 0 <= j < remote.roles.len() && i != j
            && (#[trigger] remote.roles[i]).party_id == (#[trigger] remote.roles[j]).party_id
            && remote.roles[i].country_code == remote.roles[j].country_code
            && remote.roles[i].role == remote.roles[j].role {
        Some(OcpiError::DuplicateParty)
    } else {
        None
    }
}

/// Mathematical model of a `Handshake`.
#[verifier::ext_equal]
pub ghost struct HandshakeV {
    pub state: HandshakeState,
    pub local: CredentialsV,
    pub permitted_roles: Seq<Role>,
    pub remote: Option<CredentialsV>,
    pub failure: Option<OcpiError>,
    pub store: Map<(Seq<char>, Seq<char>), CredentialsV>,
}

/// The handshake state after `complete` sees `remote`: `Registered` with the
/// remote credentials recorded under each of their role keys when validation
/// passes, `Failed` with everything else untouched when it does not.
pub open spec fn spec_complete(h: HandshakeV, remote: CredentialsV) -> HandshakeV {
    match spec_validate(remote, h.permitted_roles) {
        Some(e) => HandshakeV { state: HandshakeState::Failed, failure: Some(e), ..h },
        None => HandshakeV {
            state: HandshakeState::Registered,
            remote: Some(remote),
            failure: None,
            store: register_keys(h.store, remote.roles, remote),
            ..h
        },
    }
}

/// The OCPI registration handshake for one remote party, together with the
/// store of registered parties it feeds.
pub struct Handshake {
    pub state: HandshakeState,
    pub local: Credentials,
    pub permitted_roles: Vec<Role>,
    pub remote: Option<Credentials>,
    pub failure: Option<OcpiError>,
    pub store: CredentialsStore,
}

impl View for Handshake {
    type V = HandshakeV;

    open spec fn view(&self) -> HandshakeV {
        HandshakeV {
            state: self.state,
            local: self.local@,
            permitted_roles: self.permitted_roles@,
            remote: self.remote.deep_view(),
            failure: self.failure,
            store: self.store@,
        }
    }
}

impl Handshake {
    /// A fresh, unregistered handshake. `permitted_roles` are the roles the
    /// remote party may expose under the negotiated version.
    pub fn new(permitted_roles: Vec<Role>) -> (h: Handshake)
        ensures
            h@.state == HandshakeState::Unregistered,
            h@.permitted_roles == permitted_roles@,
            h@.remote is None,
            h@.failure is None,
            h@.store == Map::<(Seq<char>, Seq<char>), CredentialsV>::empty(),
    {
        Handshake {
            state: HandshakeState::Unregistered,
            local: Credentials::default(),
            permitted_roles,
            remote: None,
            failure: None,
            store: CredentialsStore::new(),
        }
    }

    /// Send out the local credentials: `Unregistered` moves to `TokenSent`.
    pub fn initiate(&mut self, local: Credentials)
        requires
            old(self)@.state == HandshakeState::Unregistered,
        ensures
            final(self)@ == (HandshakeV {
                state: HandshakeState::TokenSent,
                local: local@,
                ..old(self)@
            }),
    {
        self.local = local;
        self.state = HandshakeState::TokenSent;
    }

    /// Resume the handshake with the credentials the remote party returned.
    ///
    /// Validation follows `spec_validate`; on success the remote credentials
    /// replace, whole-record and last-writer-wins, whatever was stored under
    /// their (party id, country code) keys, and they are handed back to the
    /// caller. On failure the handshake moves to `Failed` and the store is
    /// untouched. Calling again from `Registered` with the same credentials
    /// changes nothing (see `lemma_complete_idempotent`).
    pub fn complete(&mut self, remote: Credentials) -> (r: Result<Credentials, OcpiError>)
        requires
            old(self)@.state == HandshakeState::TokenSent || old(self)@.state
                == HandshakeState::Registered,
        ensures
            final(self)@ == spec_complete(old(self)@, remote@),
            match r {
                Ok(c) => c@ == remote@ && spec_validate(remote@, old(self)@.permitted_roles)
                    is None,
                Err(e) => Some(e) == spec_validate(remote@, old(self)@.permitted_roles),
            },
    {
        match self.validate(&remote) {
            Some(e) => {
                self.state = HandshakeState::Failed;
                self.failure = Some(e);
                Err(e)
            },
            None => {
                self.store.register(&remote);
                self.remote = Some(remote.duplicate());
                self.failure = None;
                self.state = HandshakeState::Registered;
                Ok(remote)
            },
        }
    }

    /// Abandon a failed handshake and start over: back to `Unregistered`,
    /// with the store of already-registered parties kept.
    pub fn restart(&mut self)
        requires
            old(self)@.state == HandshakeState::Failed,
        ensures
            final(self)@ == (HandshakeV {
                state: HandshakeState::Unregistered,
                remote: None,
                failure: None,
                ..old(self)@
            }),
    {
        self.state = HandshakeState::Unregistered;
        self.remote = None;
        self.failure = None;
    }

    /// Runtime check of `spec_validate` against the permitted roles.
    #[verifier::loop_isolation(false)]
    fn validate(&self, remote: &Credentials) -> (r: Option<OcpiError>)
        ensures
            r == spec_validate(remote@, self@.permitted_roles),
    {
        if remote.token.as_str().unicode_len() == 0 {
            return Some(OcpiError::MalformedToken);
        }
        if remote.roles.len() == 0 {
            return Some(OcpiError::InvalidRole);
        }
        let n = remote.roles.len();
        let mut i: usize = 0;
        while i < n
            invariant
                i <= n,
                n == remote.roles@.len(),
                forall|k: int| 0 <= k < i ==> self@.permitted_roles.contains(
                    remote@.roles[k].role,
                ),
            decreases n - i,
        {
            if !self.role_permitted(remote.roles[i].role) {
                proof {
                    assert(!self@.permitted_roles.contains(remote@.roles[i as int].role));
                }
                return Some(OcpiError::InvalidRole);
            }
            i = i + 1;
        }
        let mut a: usize = 0;
        while a < n
            invariant
                a <= n,
                n == remote.roles@.len(),
                forall|k: int| 0 <= k < n ==> self@.permitted_roles.contains(
                    remote@.roles[k].role,
                ),
                forall|p: int, q: int|
                    0 <= p < a && p < q < n ==> !(remote@.roles[p].party_id
                        == remote@.roles[q].party_id && remote@.roles[p].country_code
                        == remote@.roles[q].country_code && remote@.roles[p].role
                        == remote@.roles[q].role),
            decreases n - a,
        {
            let mut b: usize = a + 1;
            while b < n
                invariant
                    a < b <= n,
                    n == remote.roles@.len(),
                    forall|q: int|
                        a < q < b ==> !(remote@.roles[a as int].party_id
                            == remote@.roles[q].party_id && remote@.roles[a as int].country_code
                            == remote@.roles[q].country_code && remote@.roles[a as int].role
                            == remote@.roles[q].role),
                decreases n - b,
            {
                if remote.roles[a].party_id == remote.roles[b].party_id
                    && remote.roles[a].country_code == remote.roles[b].country_code
                    && remote.roles[a].role == remote.roles[b].role {
                    proof {
                        assert(remote@.roles[a as int].party_id == remote@.roles[b as int].party_id);
                        assert(remote@.roles[a as int].country_code
                            == remote@.roles[b as int].country_code);
                        assert(remote@.roles[a as int].role == remote@.roles[b as int].role);
                    }
                    return Some(OcpiError::DuplicateParty);
                }
                b = b + 1;
            }
            a = a + 1;
        }
        proof {
            assert forall|p: int, q: int|
                0 <= p < n && 0 <= q < n && p != q implies !(remote@.roles[p].party_id
                == remote@.roles[q].party_id && remote@.roles[p].country_code
                == remote@.roles[q].country_code && remote@.roles[p].role
                == remote@.roles[q].role) by {
                if p < q {
                    assert(0 <= p < n as int && p < q < n as int);
                } else {
                    assert(0 <= q < n as int && q < p < n as int);
                }
            }
        }
        None
    }

    /// Whether `role` is among the roles the remote party may expose.
    fn role_permitted(&self, role: Role) -> (r: bool)
        ensures
            r == self@.permitted_roles.contains(role),
    {
        let mut i: usize = 0;
        while i < self.permitted_roles.len()
            invariant
                i <= self.permitted_roles@.len(),
                forall|k: int| 0 <= k < i ==> self.permitted_roles@[k] != role,
            decreases self.permitted_roles@.len() - i,
        {
            if self.permitted_roles[i] == role {
                return true;
            }
            i = i + 1;
        }
        false
    }
}

/// Handshake idempotence: completing again with the same remote credentials
/// after a successful registration leaves the handshake, its stored remote
/// credentials and the store of registered parties unchanged.
pub proof fn lemma_complete_idempotent(h: HandshakeV, remote: CredentialsV)
    requires
        spec_complete(h, remote).state == HandshakeState::Registered,
    ensures
        spec_complete(spec_complete(h, remote), remote) == spec_complete(h, remote),
{
    let h1 = spec_complete(h, remote);
    lemma_register_keys_idempotent(h.store, remote.roles, remote);
    assert(spec_complete(h1, remote) =~= h1);
}

} // verus!

