//! The address of the notification socket.

use crate::text::copy_of;
use vstd::prelude::*;

verus! {

/// The sign that systemd writes for the NUL of an abstract socket.
pub const AT: u8 = 64;

/// The address of a socket: its path, and the length of the whole address.
#[derive(Debug)]
pub struct SocketAddress {
    pub path: Vec<u8>,
    pub len: usize,
}

/// The name of a socket in the abstract namespace begins with a NUL, which
/// systemd exposes as a leading '@'.
pub open spec fn socket_path(name: Seq<u8>) -> Seq<u8> {
    if name.len() > 0 && name[0] == AT {
        name.update(0, 0)
    } else {
        name
    }
}

/// There is a name, and room for it and a NUL behind it.
pub open spec fn fits(name: Seq<u8>, capacity: usize) -> bool {
    0 < name.len() < capacity
}

fn encode(name: &[u8]) -> (r: Vec<u8>)
    ensures
        r@ == socket_path(name@),
{
    let mut path = copy_of(name);
    if path.len() > 0 && path[0] == AT {
        path.set(0, 0);
    }
    path
}

/// The address of the socket with the given name, if it has one and the name
/// fits: the length counts a trailing NUL unless the socket is abstract.
pub fn notify_address(name: &[u8], capacity: usize, family_len: usize) -> (r: Option<SocketAddress>)
    requires
        family_len + capacity <= usize::MAX,
    ensures
        r is Some <==> fits(name@, capacity),
        r matches Some(a) ==> {
            &&& a.path@ == socket_path(name@)
            &&& a.len == family_len + name@.len() + if name@[0] == AT {
                0int
            } else {
                1
            }
        },
{
    if name.len() == 0 || name.len() >= capacity {
        return None;
    }
    let len = if name[0] == AT {
        family_len + name.len()
    } else {
        family_len + name.len() + 1
    };
    Some(SocketAddress { path: encode(name), len })
}

/// As [`notify_address`], with a length that never counts a trailing NUL.
pub fn bare_address(name: &[u8], capacity: usize, family_len: usize) -> (r: Option<SocketAddress>)
    requires
        family_len + capacity <= usize::MAX,
    ensures
        r is Some <==> fits(name@, capacity),
        r matches Some(a) ==> a.path@ == socket_path(name@) && a.len == family_len + name@.len(),
{
    if name.len() == 0 || name.len() >= capacity {
        return None;
    }
    Some(SocketAddress { path: encode(name), len: family_len + name.len() })
}

/// The path of a socket is its name, but for the sign of an abstract one, in whose place
/// there is a NUL.
pub proof fn only_the_sign_is_replaced(name: Seq<u8>)
    ensures
        socket_path(name).len() == name.len(),
        forall|k: int| 0 < k < name.len() ==> #[trigger] socket_path(name)[k] == name[k],
        name.len() > 0 ==> socket_path(name)[0] == (if name[0] == 64 {
            0u8
        } else {
            name[0]
        }),
{
}

} // verus!
