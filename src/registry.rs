//! The registry of client credentials, and the check of an auth request.
use vstd::prelude::*;
use crate::frame::{strings_view, AuthPayload};

verus! {

/// A client's credential: its id, its shared secret, and the namespaces it
/// may publish to and fetch from.
#[derive(Clone, Debug)]
pub struct ClientMetadata {
    pub client_id: String,
    pub token: String,
    pub namespaces: Vec<String>,
}

pub struct CredView {
    pub client_id: Seq<char>,
    pub token: Seq<char>,
    pub namespaces: Seq<Seq<char>>,
}

impl View for ClientMetadata {
    type V = CredView;

    open spec fn view(&self) -> CredView {
        CredView {
            client_id: self.client_id@,
            token: self.token@,
            namespaces: strings_view(self.namespaces@),
        }
    }
}

/// The credential registered last under `id`.
pub open spec fn lookup(s: Seq<CredView>, id: Seq<char>) -> Option<CredView>
    decreases s.len(),
{
    if s.len() == 0 {
        None
    } else if s.last().client_id == id {
        Some(s.last())
    } else {
        lookup(s.drop_last(), id)
    }
}

/// Client ids and their credentials.  A later registration of an id stands
/// for it.
pub struct Registry {
    clients: Vec<ClientMetadata>,
}

impl View for Registry {
    type V = Seq<CredView>;

    closed spec fn view(&self) -> Seq<CredView> {
        self.clients@.map_values(|c: ClientMetadata| c@)
    }
}

impl Registry {
    pub fn new() -> (r: Registry)
        ensures
            forall|id: Seq<char>| lookup(r@, id) is None,
    {
        let r = Registry { clients: Vec::new() };
        proof {
            assert(r@.len() == 0);
        }
        r
    }

    /// Registers a credential; it stands for its id from then on.
    pub fn register(&mut self, meta: ClientMetadata)
        ensures
            lookup(final(self)@, meta@.client_id) == Some(meta@),
            forall|id: Seq<char>|
                id != meta@.client_id ==> lookup(final(self)@, id) == lookup(old(self)@, id),
    {
        let ghost m = meta@;
        self.clients.push(meta);
        proof {
            assert(self@.drop_last() =~= old(self)@);
            assert(self@.last() == m);
        }
    }

    /// The credential of `id`, if one is registered.
    pub fn get(&self, id: &String) -> (r: Option<&ClientMetadata>)
        ensures
            match r {
                Some(c) => lookup(self@, id@) == Some(c@),
                None => lookup(self@, id@) is None,
            },
    {
        let mut i = self.clients.len();
        proof {
            assert(self@.take(i as int) =~= self@);
        }
        while i > 0
            invariant
                i <= self.clients@.len(),
                lookup(self@, id@) == lookup(self@.take(i as int), id@),
            decreases i,
        {
            proof {
                assert(self@.take(i as int).drop_last() =~= self@.take(i as int - 1));
                assert(self@.take(i as int).last() == self.clients@[i - 1]@);
            }
            if self.clients[i - 1].client_id == *id {
                return Some(&self.clients[i - 1]);
            }
            i = i - 1;
        }
        None
    }
}

/// The request's client is registered and its token is the stored one.
pub open spec fn auth_valid(reg: Seq<CredView>, client_id: Seq<char>, token: Seq<char>) -> bool {
    lookup(reg, client_id) matches Some(c) && c.token == token
}

/// Checks an auth request against the registry.
pub fn validate_auth(payload: &AuthPayload, registry: &Registry) -> (r: bool)
    ensures
        r == auth_valid(registry@, payload.client_id@, payload.token@),
{
    match registry.get(&payload.client_id) {
        Some(meta) => meta.token == payload.token,
        None => false,
    }
}

} // verus!
