pub mod worker;

use crate::text::{decimal, push_decimal, str_eq};
use std::rc::Rc;
use vstd::prelude::*;

verus! {

/// The seconds after which an idle accept call returns, so that a child sees
/// the signal to stop.
pub const ACCEPT_TIMEOUT_SECS: u64 = 2;

/// The name of the endpoint `host:port`.
pub open spec fn spec_endpoint(host: Seq<char>, port: u16) -> Seq<char> {
    host + ":"@ + decimal(port as nat)
}

/// The name of the endpoint `host:port`.
pub fn endpoint(host: &str, port: u16) -> (r: String)
    ensures
        r@ == spec_endpoint(host@, port),
{
    let mut out = host.to_owned();
    out.append(":");
    push_decimal(&mut out, port as u128);
    out
}

/// One endpoint to serve: where to listen, how many children serve it, and
/// what each does with a connection.
pub struct WorkerInfo<P> {
    pub host: String,
    pub port: u16,
    pub worker: u32,
    pub process: Rc<P>,
}

/// The endpoints to serve, and the time in milliseconds that a write on a
/// connection may take.
pub struct ServerArgs<P> {
    pub worker_infos: Vec<WorkerInfo<P>>,
    pub timeout_ms: u64,
}

/// The options that a listening socket gets before it listens.
#[derive(Clone, Copy, Debug, PartialEq, Eq, Structural)]
pub struct ListenerOptions {
    pub reuse_address: bool,
    pub reuse_port: bool,
    pub accept_timeout_secs: u64,
}

/// The listening sockets by the names of their endpoints, as a mathematical value.
pub type Listeners<S> = Seq<(Seq<char>, S)>;

/// The names of `listeners`, in their order.
pub open spec fn names<S>(listeners: Listeners<S>) -> Seq<Seq<char>> {
    listeners.map_values(|l: (Seq<char>, S)| l.0)
}

/// `listeners` with `socket` under `name`: in the place of the socket that the
/// name had, or else at the end.
pub open spec fn registered<S>(listeners: Listeners<S>, name: Seq<char>, socket: S) -> Listeners<
    S,
> {
    match names(listeners).index_of_first(name) {
        Some(i) => listeners.update(i, (name, socket)),
        None => listeners.push((name, socket)),
    }
}

/// Whether a listener does not belong to the endpoint `name`.
pub open spec fn is_other<S>(name: Seq<char>) -> spec_fn((Seq<char>, S)) -> bool {
    |l: (Seq<char>, S)| l.0 != name
}

struct Listener<S> {
    name: String,
    socket: S,
}

/// The listening sockets of a server, each under the name of its endpoint.
pub struct ListenerRegistry<S> {
    entries: Vec<Listener<S>>,
}

impl<S> View for ListenerRegistry<S> {
    type V = Listeners<S>;

    closed spec fn view(&self) -> Listeners<S> {
        Seq::new(self.entries.len() as nat, |i: int| (self.entries[i].name@, self.entries[i].socket))
    }
}

impl<S> ListenerRegistry<S> {
    pub fn new() -> (r: Self)
        ensures
            r@ == Seq::<(Seq<char>, S)>::empty(),
    {
        let r = ListenerRegistry { entries: Vec::new() };
        assert(r@ =~= Seq::<(Seq<char>, S)>::empty());
        r
    }

    pub fn len(&self) -> (r: usize)
        ensures
            r == self@.len(),
    {
        self.entries.len()
    }

    fn position(&self, name: &str) -> (r: Option<usize>)
        ensures
            match r {
                Some(i) => i < self@.len() && names(self@).index_of_first(name@) == Some(i as int),
                None => names(self@).index_of_first(name@) is None,
            },
    {
        let ghost ks = names(self@);
        let mut i: usize = 0;
        while i < self.entries.len()
            invariant
                i <= self.entries.len(),
                ks == names(self@),
                forall|j: int| 0 <= j < i ==> ks[j] != name@,
            decreases self.entries.len() - i,
        {
            if str_eq(self.entries[i].name.as_str(), name) {
                proof {
                    ks.index_of_first_ensures(name@);
                    assert(ks[i as int] == name@);
                }
                return Some(i);
            }
            i = i + 1;
        }
        proof {
            ks.index_of_first_ensures(name@);
            if ks.contains(name@) {
                let k = ks.index_of_first(name@)->0;
                assert(ks[k] == name@);
            }
        }
        None
    }

    /// Puts `socket` under `name`, and hands back the socket that the name had.
    pub fn insert(&mut self, name: String, socket: S) -> (r: Option<S>)
        ensures
            final(self)@ == registered(old(self)@, name@, socket),
            match r {
                Some(before) => names(old(self)@).index_of_first(name@) matches Some(i) && before
                    == old(self)@[i].1,
                None => names(old(self)@).index_of_first(name@) is None,
            },
    {
        match self.position(name.as_str()) {
            Some(i) => {
                proof {
                    names(self@).index_of_first_ensures(name@);
                    assert(names(self@)[i as int] == self@[i as int].0);
                }
                let before = self.entries.remove(i);
                self.entries.insert(i, Listener { name, socket });
                assert(self@ =~= registered(old(self)@, name@, socket));
                Some(before.socket)
            },
            None => {
                self.entries.push(Listener { name, socket });
                assert(self@ =~= registered(old(self)@, name@, socket));
                None
            },
        }
    }

    /// The socket of the endpoint `name`.
    pub fn get(&self, name: &str) -> (r: Option<&S>)
        ensures
            match r {
                Some(socket) => names(self@).index_of_first(name@) matches Some(i) && *socket
                    == self@[i].1,
                None => names(self@).index_of_first(name@) is None,
            },
    {
        match self.position(name) {
            Some(i) => Some(&self.entries[i].socket),
            None => None,
        }
    }

    /// The sockets of all endpoints but `name`, in their order: those that a
    /// child serving `name` has no use for.
    pub fn others(&self, name: &str) -> (r: Vec<&S>)
        ensures
            r@.len() == self@.filter(is_other(name@)).len(),
            forall|i: int|
                0 <= i < r@.len() ==> *(#[trigger] r@[i]) == self@.filter(is_other(name@))[i].1,
    {
        let mut out: Vec<&S> = Vec::new();
        let ghost all = self@;
        let mut i: usize = 0;
        assert(all.take(0).filter(is_other(name@)) =~= Seq::empty()) by {
            reveal(Seq::filter);
        }
        while i < self.entries.len()
            invariant
                i <= self.entries.len(),
                all == self@,
                out@.len() == all.take(i as int).filter(is_other(name@)).len(),
                forall|j: int|
                    0 <= j < out@.len() ==> *(#[trigger] out@[j]) == all.take(i as int).filter(
                        is_other(name@),
                    )[j].1,
            decreases self.entries.len() - i,
        {
            proof {
                assert(all.take(i + 1) =~= all.take(i as int).push(all[i as int]));
                all.take(i as int).lemma_filter_push(all[i as int], is_other(name@));
            }
            if !str_eq(self.entries[i].name.as_str(), name) {
                out.push(&self.entries[i].socket);
            }
            i = i + 1;
        }
        assert(all.take(i as int) == all);
        out
    }
}

/// Holds the configuration of a server.
pub struct Server<P> {
    config: ServerArgs<P>,
}

impl<P> Server<P> {
    pub closed spec fn spec_config(&self) -> ServerArgs<P> {
        self.config
    }

    pub fn new(config: ServerArgs<P>) -> (r: Self)
        ensures
            r.spec_config() == config,
    {
        Self { config }
    }

    pub fn config(&self) -> (r: &ServerArgs<P>)
        ensures
            *r == self.spec_config(),
    {
        &self.config
    }

    /// The options that every listening socket gets before it listens:
    /// address and port may be used again, and an idle accept call returns
    /// after two seconds.
    pub fn listener_options(&self) -> (r: ListenerOptions)
        ensures
            r == (ListenerOptions {
                reuse_address: true,
                reuse_port: true,
                accept_timeout_secs: ACCEPT_TIMEOUT_SECS,
            }),
    {
        ListenerOptions {
            reuse_address: true,
            reuse_port: true,
            accept_timeout_secs: ACCEPT_TIMEOUT_SECS,
        }
    }

    /// The names of the endpoints to bind, one for each entry of the
    /// configuration, in its order.
    pub fn endpoints(&self) -> (r: Vec<String>)
        ensures
            r@.len() == self.spec_config().worker_infos@.len(),
            forall|i: int|
                0 <= i < r@.len() ==> (#[trigger] r@[i])@ == spec_endpoint(
                    self.spec_config().worker_infos@[i].host@,
                    self.spec_config().worker_infos@[i].port,
                ),
    {
        let mut out: Vec<String> = Vec::new();
        let mut i: usize = 0;
        while i < self.config.worker_infos.len()
            invariant
                i <= self.config.worker_infos.len(),
                out@.len() == i,
                forall|j: int|
                    0 <= j < i ==> (#[trigger] out@[j])@ == spec_endpoint(
                        self.config.worker_infos@[j].host@,
                        self.config.worker_infos@[j].port,
                    ),
            decreases self.config.worker_infos.len() - i,
        {
            let info = &self.config.worker_infos[i];
            out.push(endpoint(info.host.as_str(), info.port));
            i = i + 1;
        }
        out
    }
}

} // verus!
