//! The hub: the transport, the source of credentials, and the configuration
//! that every request is made with.

use vstd::prelude::*;

verus! {

/// The central point of the interface. It owns the client that carries the
/// requests and the authenticator that supplies their credentials, and it
/// holds the user agent and the two URLs that requests are built from.
pub struct Firestore<C, A> {
    pub(crate) client: C,
    pub(crate) auth: A,
    pub(crate) _user_agent: String,
    pub(crate) _base_url: String,
    pub(crate) _root_url: String,
}

/// The methods that act on projects; they are reached from the hub.
pub struct ProjectMethods<'a, C, A> {
    pub hub: &'a Firestore<C, A>,
}

impl<'a, C, A> Firestore<C, A> {
    /// The client that carries the requests.
    pub closed spec fn transport(&self) -> C {
        self.client
    }

    /// The authenticator that supplies the credentials.
    pub closed spec fn credentials(&self) -> A {
        self.auth
    }

    /// The user agent that requests are sent with.
    pub closed spec fn agent(&self) -> Seq<char> {
        self._user_agent@
    }

    /// The URL that the paths of requests are appended to.
    pub closed spec fn base(&self) -> Seq<char> {
        self._base_url@
    }

    /// The URL of the service's root.
    pub closed spec fn root(&self) -> Seq<char> {
        self._root_url@
    }

    /// A hub around `client` and `authenticator`, with the default user
    /// agent and the service's own URLs.
    pub fn new(client: C, authenticator: A) -> (hub: Firestore<C, A>)
        ensures
            hub.transport() == client,
            hub.credentials() == authenticator,
            hub.agent() == "google-api-rust-client/1.0.11"@,
            hub.base() == "https://firestore.googleapis.com/"@,
            hub.root() == "https://firestore.googleapis.com/"@,
    {
        Firestore {
            client: client,
            auth: authenticator,
            _user_agent: String::from_str("google-api-rust-client/1.0.11"),
            _base_url: String::from_str("https://firestore.googleapis.com/"),
            _root_url: String::from_str("https://firestore.googleapis.com/"),
        }
    }

    /// The client that carries the requests.
    pub fn client(&self) -> (c: &C)
        ensures
            *c == self.transport(),
    {
        &self.client
    }

    /// The authenticator that supplies the credentials.
    pub fn auth(&self) -> (a: &A)
        ensures
            *a == self.credentials(),
    {
        &self.auth
    }

    /// The client that carries the requests, to be used by the one who holds
    /// the hub alone; the rest of the hub stays as it is.
    pub fn client_mut(&mut self) -> (c: &mut C)
        ensures
            *c == old(self).transport(),
            final(self).transport() == *final(c),
            final(self).credentials() == old(self).credentials(),
            final(self).agent() == old(self).agent(),
            final(self).base() == old(self).base(),
            final(self).root() == old(self).root(),
    {
        &mut self.client
    }

    /// The authenticator that supplies the credentials, to be used by the
    /// one who holds the hub alone; the rest of the hub stays as it is.
    pub fn auth_mut(&mut self) -> (a: &mut A)
        ensures
            *a == old(self).credentials(),
            final(self).credentials() == *final(a),
            final(self).transport() == old(self).transport(),
            final(self).agent() == old(self).agent(),
            final(self).base() == old(self).base(),
            final(self).root() == old(self).root(),
    {
        &mut self.auth
    }

    /// The methods that act on projects, bound to this hub.
    pub fn projects(&'a self) -> (methods: ProjectMethods<'a, C, A>)
        ensures
            methods.hub == self,
    {
        ProjectMethods { hub: &self }
    }

    /// Sets the user agent that requests are sent with, and returns the one
    /// that was set before.
    pub fn user_agent(&mut self, agent_name: String) -> (previous: String)
        ensures
            previous@ == old(self).agent(),
            final(self).agent() == agent_name@,
            final(self).base() == old(self).base(),
            final(self).root() == old(self).root(),
            final(self).transport() == old(self).transport(),
            final(self).credentials() == old(self).credentials(),
    {
        let mut name = agent_name;
        core::mem::swap(&mut self._user_agent, &mut name);
        name
    }

    /// Sets the URL that the paths of requests are appended to, and returns
    /// the one that was set before.
    pub fn base_url(&mut self, new_base_url: String) -> (previous: String)
        ensures
            previous@ == old(self).base(),
            final(self).base() == new_base_url@,
            final(self).agent() == old(self).agent(),
            final(self).root() == old(self).root(),
            final(self).transport() == old(self).transport(),
            final(self).credentials() == old(self).credentials(),
    {
        let mut url = new_base_url;
        core::mem::swap(&mut self._base_url, &mut url);
        url
    }

    /// Sets the URL of the service's root, and returns the one that was set
    /// before.
    pub fn root_url(&mut self, new_root_url: String) -> (previous: String)
        ensures
            previous@ == old(self).root(),
            final(self).root() == new_root_url@,
            final(self).agent() == old(self).agent(),
            final(self).base() == old(self).base(),
            final(self).transport() == old(self).transport(),
            final(self).credentials() == old(self).credentials(),
    {
        let mut url = new_root_url;
        core::mem::swap(&mut self._root_url, &mut url);
        url
    }
}

} // verus!
