//! How this side of a connection is set up.

use internet2::addr::NodeAddr;
use vstd::prelude::*;
use vstd::string::*;

verus! {

/// `internet2::addr::NodeAddr`, the address of a remote node: its identity
/// key and the internet address (IPv4, IPv6 or onion) at which it is reached.
#[verifier::external_type_specification]
#[verifier::external_body]
pub struct ExNodeAddr(internet2::addr::NodeAddr);

/// The text of a node address, as its `Display` writes it.
pub uninterp spec fn node_addr_text(addr: NodeAddr) -> Seq<char>;

/// Calls `to_string` of `internet2::addr::NodeAddr`, that is its `Display`,
/// which writes the identity key, `@`, and the internet address. The
/// contract claims no more than that the text depends on the address alone.
#[verifier::external_body]
fn node_addr_to_string(addr: &NodeAddr) -> (text: String)
    ensures
        text@ == node_addr_text(*addr),
{
    addr.to_string()
}

/// The configuration value that makes a peer listen on the socket address
/// with the text `address`: `--listen=` and the address.
pub fn listen_flag(address: &str) -> (text: String)
    ensures
        text@ == "--listen="@ + address@,
{
    String::from_str("--listen=").concat(address)
}

/// The configuration value that makes a peer connect to the node address
/// with the text `address`: `--connect=` and the address.
pub fn connect_flag(address: &str) -> (text: String)
    ensures
        text@ == "--connect="@ + address@,
{
    String::from_str("--connect=").concat(address)
}

/// How this side of a connection is set up: it either listens for incoming
/// connections or connects to a remote node.
#[derive(PartialEq, Eq, Debug)]
pub enum PeerSocket {
    /// Listen for incoming connections on a local socket address, IPv4 or
    /// IPv6. The address is held as its text, such as `127.0.0.1:9735` or
    /// `[::1]:9735`.
    Listen(String),
    /// Connect to the remote node at this address.
    Connect(NodeAddr),
}

impl Clone for PeerSocket {
    fn clone(&self) -> (copy: Self)
        ensures
            copy == *self,
    {
        match self {
            PeerSocket::Listen(text) => PeerSocket::Listen(text.clone()),
            PeerSocket::Connect(addr) => PeerSocket::Connect(*addr),
        }
    }
}

impl PeerSocket {
    /// The text of the address that the socket holds.
    pub open spec fn address_text(&self) -> Seq<char> {
        match self {
            PeerSocket::Listen(text) => text@,
            PeerSocket::Connect(addr) => node_addr_text(*addr),
        }
    }

    /// The socket as a configuration value: `--listen=` or `--connect=`,
    /// followed by the text of the address.
    pub open spec fn rendering(&self) -> Seq<char> {
        match self {
            PeerSocket::Listen(_) => "--listen="@ + self.address_text(),
            PeerSocket::Connect(_) => "--connect="@ + self.address_text(),
        }
    }

    /// Renders the socket as a configuration value.
    pub fn to_string(&self) -> (text: String)
        ensures
            text@ == self.rendering(),
    {
        match self {
            PeerSocket::Listen(addr) => listen_flag(addr.as_str()),
            PeerSocket::Connect(addr) => connect_flag(node_addr_to_string(addr).as_str()),
        }
    }

    /// Two sockets render alike only if they are of the same kind and their
    /// addresses have the same text: sockets that differ in either render
    /// differently.
    pub proof fn lemma_rendering_tells_sockets_apart(&self, other: &PeerSocket)
        ensures
            self.rendering() == other.rendering() <==> {
                &&& self is Listen <==> other is Listen
                &&& self.address_text() == other.address_text()
            },
    {
        reveal_strlit("--listen=");
        reveal_strlit("--connect=");
        let listen = "--listen="@;
        let connect = "--connect="@;
        let a = self.address_text();
        let b = other.address_text();
        if self.rendering() == other.rendering() {
            if self is Listen && other is Connect {
                assert((listen + a)[2] == 'l');
                assert((connect + b)[2] == 'c');
            } else if self is Connect && other is Listen {
                assert((connect + a)[2] == 'c');
                assert((listen + b)[2] == 'l');
            } else if self is Listen {
                assert(a =~= (listen + a).subrange(listen.len() as int, (listen + a).len() as int));
                assert(b =~= (listen + b).subrange(listen.len() as int, (listen + b).len() as int));
            } else {
                assert(a =~= (connect + a).subrange(
                    connect.len() as int,
                    (connect + a).len() as int,
                ));
                assert(b =~= (connect + b).subrange(
                    connect.len() as int,
                    (connect + b).len() as int,
                ));
            }
        }
    }
}

} // verus!
