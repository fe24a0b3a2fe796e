//! Start-up of the light-client: where the first peers come from, and how the
//! client is configured.

use vstd::prelude::*;

use crate::net::SocketAddr;
use crate::time::LocalDuration;

verus! {

/// Time that the client waits for an answer.
pub const CLIENT_TIMEOUT: LocalDuration = 30_000;

/// A Bitcoin network, as far as finding peers goes.
#[derive(Debug)]
pub struct Network {
    /// DNS seeds of the network.
    pub seeds: Vec<String>,
    /// Port that its nodes listen on.
    pub port: u16,
}

/// Addresses of peers.
#[derive(Debug)]
pub struct AddressBook {
    pub addrs: Vec<SocketAddr>,
}

impl AddressBook {
    /// Whether there are no addresses in the book.
    pub fn is_empty(&self) -> (empty: bool)
        ensures
            empty == (self.addrs@.len() == 0),
    {
        self.addrs.len() == 0
    }
}

/// Client configuration. `T` holds the settings that start-up leaves alone.
#[derive(Debug)]
pub struct ClientConfig<T> {
    /// Bitcoin network.
    pub network: Network,
    /// Addresses to listen on.
    pub listen: Vec<SocketAddr>,
    /// Addresses of the first peers.
    pub address_book: AddressBook,
    /// Time that the client waits for an answer.
    pub timeout: LocalDuration,
    /// Target number of outbound peer connections.
    pub target_outbound_peers: usize,
    /// All other settings.
    pub rest: T,
}

/// Where the address book comes from.
#[derive(Debug, Clone, Copy, PartialEq, Eq, Structural)]
pub enum BookOrigin {
    /// The peers stored on disk.
    Stored,
    /// The DNS seeds of the network.
    Seeds,
    /// The peers that the user asked to connect to.
    Given,
}

/// A request for an address book.
#[derive(Debug)]
pub enum Request {
    /// Load the address book that is stored under this path.
    Load(String),
    /// Make an address book by asking DNS seeds for nodes with this port.
    Bootstrap(Vec<String>, u16),
    /// Make an address book of these addresses.
    Import(Vec<SocketAddr>),
}

/// Why the client could not be started. `E` is what went wrong outside.
#[derive(Debug)]
pub enum Error<E> {
    /// The stored address book could not be loaded.
    AddressBook(E),
    /// An address book could not be made.
    Other(E),
}

/// A start-up that waits for an address book.
#[derive(Debug)]
pub struct Startup<T> {
    /// Where the address book comes from.
    pub origin: BookOrigin,
    /// The configuration, complete but for the address book.
    pub config: ClientConfig<T>,
}

/// How a start-up goes on.
#[derive(Debug)]
pub enum Next<T, E> {
    /// Another address book is asked for.
    Ask(Startup<T>, Request),
    /// Run the client with this configuration.
    Launch(ClientConfig<T>),
    /// Give up.
    Fail(Error<E>),
}

/// The address that stands for any address and any port.
pub open spec fn unspecified_addr() -> SocketAddr {
    SocketAddr::V4 { ipv4: 0, port: 0 }
}

/// Whether two lists of strings hold the same texts in the same order.
pub open spec fn same_texts(left: Seq<String>, right: Seq<String>) -> bool {
    &&& left.len() == right.len()
    &&& forall|i: int| 0 <= i < left.len() ==> (#[trigger] left[i])@ == right[i]@
}

/// Whether `startup` and `request` are how the client is started with the given
/// peers to connect to, listen addresses, network and default configuration.
///
/// Peers to connect to make up the address book; without any, the stored address
/// book is asked for. The client listens on any address, unless it is told where
/// to listen, and aims at as many connections as there are peers to connect to.
pub open spec fn starts<T>(
    connect: Seq<SocketAddr>,
    listen: Seq<SocketAddr>,
    network: Network,
    defaults: ClientConfig<T>,
    startup: Startup<T>,
    request: Request,
) -> bool {
    &&& if connect.len() == 0 {
        &&& startup.origin is Stored
        &&& request matches Request::Load(path)
        &&& path@ == "peers"@
        &&& startup.config.target_outbound_peers == defaults.target_outbound_peers
    } else {
        &&& startup.origin is Given
        &&& request matches Request::Import(addrs)
        &&& addrs@ == connect
        &&& startup.config.target_outbound_peers == connect.len()
    }
    &&& startup.config.network == network
    &&& startup.config.listen@ == (if listen.len() == 0 {
        seq![unspecified_addr()]
    } else {
        listen
    })
    &&& startup.config.timeout == CLIENT_TIMEOUT
    &&& startup.config.address_book == defaults.address_book
    &&& startup.config.rest == defaults.rest
}

/// Whether `next` is how a start-up goes on with the answer to its request.
///
/// When the stored address book is empty, the DNS seeds of the network are
/// tried. Any other address book is the one that the client is run with. Without
/// an address book the client is not run.
pub open spec fn resumes<T, E>(
    startup: Startup<T>,
    answer: Result<AddressBook, E>,
    next: Next<T, E>,
) -> bool {
    match answer {
        Ok(book) => if startup.origin is Stored && book.addrs@.len() == 0 {
            &&& next matches Next::Ask(again, request)
            &&& again == (Startup { origin: BookOrigin::Seeds, config: startup.config })
            &&& request matches Request::Bootstrap(seeds, port)
            &&& same_texts(seeds@, startup.config.network.seeds@)
            &&& port == startup.config.network.port
        } else {
            next == Next::<T, E>::Launch((ClientConfig { address_book: book, ..startup.config }))
        },
        Err(error) => next == Next::<T, E>::Fail(
            if startup.origin is Stored {
                Error::AddressBook(error)
            } else {
                Error::Other(error)
            },
        ),
    }
}

/// Run the light-client. Takes an initial list of peers to connect to, a list of listen addresses
/// and the Bitcoin network to connect to, together with the default configuration.
pub fn run<T>(
    connect: &[SocketAddr],
    listen: &[SocketAddr],
    network: Network,
    defaults: ClientConfig<T>,
) -> (start: (Startup<T>, Request))
    ensures
        starts(connect@, listen@, network, defaults, start.0, start.1),
{
    let mut addrs = copy_addrs(listen);
    if addrs.len() == 0 {
        addrs.push(SocketAddr::from(([0u8, 0, 0, 0], 0u16)));
        assert(addrs@ =~= seq![unspecified_addr()]);
    }
    let mut config = ClientConfig { network, listen: addrs, timeout: CLIENT_TIMEOUT, ..defaults };
    if connect.len() == 0 {
        (Startup { origin: BookOrigin::Stored, config }, Request::Load("peers".to_owned()))
    } else {
        config.target_outbound_peers = connect.len();
        (Startup { origin: BookOrigin::Given, config }, Request::Import(copy_addrs(connect)))
    }
}

/// Copies addresses.
fn copy_addrs(addrs: &[SocketAddr]) -> (copy: Vec<SocketAddr>)
    ensures
        copy@ == addrs@,
{
    let mut copy: Vec<SocketAddr> = Vec::new();
    let mut i: usize = 0;
    while i < addrs.len()
        invariant
            i <= addrs@.len(),
            copy@ == addrs@.take(i as int),
        decreases addrs@.len() - i,
    {
        copy.push(addrs[i]);
        assert(addrs@.take(i as int).push(addrs@[i as int]) =~= addrs@.take(i + 1));
        i += 1;
    }
    assert(addrs@.take(addrs@.len() as int) =~= addrs@);
    copy
}

/// Copies strings.
fn copy_texts(texts: &Vec<String>) -> (copy: Vec<String>)
    ensures
        same_texts(copy@, texts@),
{
    let mut copy: Vec<String> = Vec::new();
    let mut i: usize = 0;
    while i < texts.len()
        invariant
            i <= texts@.len(),
            copy@.len() == i,
            forall|j: int| 0 <= j < i ==> (#[trigger] copy@[j])@ == texts@[j]@,
        decreases texts@.len() - i,
    {
        copy.push(texts[i].clone());
        i += 1;
    }
    copy
}

impl<T> Startup<T> {
    /// Goes on with the answer to the request for an address book.
    pub fn resume<E>(self, answer: Result<AddressBook, E>) -> (next: Next<T, E>)
        ensures
            resumes(self, answer, next),
    {
        match answer {
            Ok(book) => {
                if matches!(self.origin, BookOrigin::Stored) && book.is_empty() {
                    let seeds = copy_texts(&self.config.network.seeds);
                    let port: u16 = self.config.network.port;
                    Next::Ask(
                        Startup { origin: BookOrigin::Seeds, config: self.config },
                        Request::Bootstrap(seeds, port),
                    )
                } else {
                    Next::Launch(ClientConfig { address_book: book, ..self.config })
                }
            },
            Err(error) => if matches!(self.origin, BookOrigin::Stored) {
                Next::Fail(Error::AddressBook(error))
            } else {
                Next::Fail(Error::Other(error))
            },
        }
    }
}

} // verus!
