use crate::err::TribblerError;
use std::collections::hash_map::DefaultHasher;
use std::hash::{Hash, Hasher};
use vstd::prelude::*;
use vstd::string::*;

verus! {

/// The hash that a freshly created `DefaultHasher` yields for a string with
/// these characters.
pub uninterp spec fn default_hash_of(s: Seq<char>) -> u64;

/// Hashes `name` with `std::collections::hash_map::DefaultHasher::new()`
/// (feeding it through `Hash for String`, then `Hasher::finish`).
/// `DefaultHasher::new` is documented to build a hasher in the same initial
/// state every time, so the result depends on the string alone and is given
/// the name `default_hash_of`; which number that is (the hashing algorithm)
/// is left unsaid.
#[verifier::external_body]
fn default_hash(name: &String) -> (h: u64)
    ensures
        h == default_hash_of(name@),
{
    let mut s = DefaultHasher::new();
    name.hash(&mut s);
    s.finish()
}

/// `"http://"` followed by `addr`: the address of a backend's RPC endpoint.
pub open spec fn http_address(addr: Seq<char>) -> Seq<char> {
    seq!['h', 't', 't', 'p', ':', '/', '/'] + addr
}

/// Builds the endpoint address `"http://" + addr`.
pub fn format_http(addr: &String) -> (r: String)
    ensures
        r@ == http_address(addr@),
{
    let mut r = String::from_str("http://");
    proof {
        reveal_strlit("http://");
    }
    r.append(addr.as_str());
    assert(r@ =~= http_address(addr@));
    r
}

/// The remainder of `a / b` as Rust computes it on integers: it takes the sign
/// of `a`.
pub open spec fn rust_rem(a: int, b: int) -> int {
    if a >= 0 {
        a % b
    } else {
        -((-a) % b)
    }
}

/// Position of the backend that follows `start` on a ring of `count`
/// backends, or `None` when the ring is empty.
pub open spec fn successor_of(start: i32, count: i32) -> Option<i32> {
    if count == 1 {
        Some(0)
    } else if count <= 0 {
        None
    } else {
        Some(rust_rem(start as int, count as int) as i32)
    }
}

/// On a ring of `count` backends, the successor of a position `start >= 0`
/// is `start` taken modulo `count`, a position on the ring; an empty ring has
/// no successor.
pub proof fn lemma_successor_position(start: i32, count: i32)
    ensures
        count <= 0 ==> successor_of(start, count) is None,
        count >= 1 && start >= 0 ==> {
            &&& successor_of(start, count) == Some((start % count) as i32)
            &&& 0 <= start % count < count
        },
{
    if count == 1 && start >= 0 {
        vstd::arithmetic::div_mod::lemma_mod_self_0(1);
        assert(start % 1 == 0);
    }
}

/// Hashes a bin name to the number from which its backend is chosen.
pub fn hash_into_bin(name: String) -> (r: usize)
    ensures
        r == default_hash_of(name@) as usize,
{
    default_hash(&name) as usize
}

/// The backend that serves position `start_index` of the ring `addresses`.
pub fn get_successor(start_index: i32, addresses: Vec<String>) -> (r: Result<i32, TribblerError>)
    requires
        addresses.len() as i32 > 1 ==> rust_rem(start_index as int, addresses.len() as i32 as int)
            >= 0,
    ensures
        match r {
            Ok(i) => {
                &&& successor_of(start_index, addresses.len() as i32) == Some(i)
                &&& 0 <= i < addresses.len()
            },
            Err(e) => {
                &&& successor_of(start_index, addresses.len() as i32) is None
                &&& e matches TribblerError::RpcError(m) && m@ == "Could not find successor"@
            },
        },
{
    let n = addresses.len();
    let count = n as i32;
    assert(count > 0 ==> count as usize <= n) by (bit_vector)
        requires
            count == n as i32,
    ;
    if count == 1 {
        return Ok(0);
    }
    if count > 0 {
        let index = start_index % count;
        return Ok(index);
    }
    Err(TribblerError::RpcError(String::from_str("Could not find successor")))
}

/// The client side of the bin storage: the ring of backend addresses over
/// which model bins are spread.
#[derive(Clone)]
pub struct BinStorageClient {
    pub addresses: Vec<String>,
}

/// Where a bin lives: the backend that serves it and the one that holds its
/// replica, with the endpoint addresses to connect to.
pub struct BinRoute {
    pub name: String,
    pub primary_index: i32,
    pub secondary_index: i32,
    pub primary_address: String,
    pub secondary_address: String,
    /// Primary and replica are the same backend.
    pub no_replica: bool,
}

/// The ring position at which the search for the bin `name` starts, on a
/// ring of `n` backends.
pub open spec fn bin_start(name: Seq<char>, n: usize) -> i32 {
    ((default_hash_of(name) as usize) % n) as i32
}

/// Primary and secondary position of the bin `name` on a ring of `n`
/// backends, when both can be found.
pub open spec fn bin_placement(name: Seq<char>, n: usize) -> Option<(i32, i32)> {
    match successor_of(bin_start(name, n), n as i32) {
        None => None,
        Some(p) => if p == -1 {
            None
        } else {
            match successor_of((p + 1) as i32, n as i32) {
                None => None,
                Some(s) => if s == -1 {
                    None
                } else {
                    Some((p, s))
                },
            }
        },
    }
}

/// On a ring of `n` backends, `n` small enough for an `i32`, every bin has a
/// placement: the primary is the bin's hash position and the secondary the
/// next position on the ring.
pub proof fn lemma_bin_placement_on_small_ring(name: Seq<char>, n: usize)
    requires
        0 < n <= i32::MAX,
    ensures
        ({
            let p = (default_hash_of(name) as usize) % n;
            &&& bin_placement(name, n) == Some((p as i32, ((p + 1) % (n as int)) as i32))
            &&& (((p + 1) % (n as int)) == p <==> n == 1)
        }),
{
    let p = (default_hash_of(name) as usize) % n;
    assert(p < n);
    assert(bin_start(name, n) == p as i32);
    assert((p as int) % (n as int) == p) by {
        vstd::arithmetic::div_mod::lemma_small_mod(p as nat, n as nat);
    }
    if n > 1 {
        assert(successor_of(p as i32, n as i32) == Some(p as i32));
        assert(rust_rem((p + 1) as i32 as int, n as int) == (p + 1) % (n as int));
        if p + 1 < n {
            vstd::arithmetic::div_mod::lemma_small_mod((p + 1) as nat, n as nat);
        } else {
            vstd::arithmetic::div_mod::lemma_mod_self_0(n as int);
        }
    }
}

impl BinStorageClient {
    /// Chooses the backends of the bin `name`: the primary is the successor
    /// of the bin's hash position on the ring, the secondary (its replica)
    /// the successor of the primary.
    pub fn bin(&self, name: &str) -> (r: Result<BinRoute, TribblerError>)
        requires
            0 < self.addresses.len() <= u32::MAX,
        ensures
            r is Ok <==> bin_placement(name@, self.addresses.len()) is Some,
            r matches Ok(route) ==> {
                let (p, s) = bin_placement(name@, self.addresses.len())->0;
                &&& route.name@ == name@
                &&& route.primary_index == p
                &&& route.secondary_index == s
                &&& 0 <= p < self.addresses.len()
                &&& 0 <= s < self.addresses.len()
                &&& route.no_replica == (p == s)
                &&& route.primary_address@ == http_address(self.addresses@[p as int]@)
                &&& route.secondary_address@ == http_address(self.addresses@[s as int]@)
            },
            r matches Err(e) ==> e matches TribblerError::RpcError(m) && m@
                == "Could not find successor"@,
            // On any ring that an `i32` can index, every bin is placed: its
            // primary is its hash position, its replica the next backend on
            // the ring, distinct from the primary unless the ring has one
            // backend.
            self.addresses.len() <= i32::MAX ==> {
                let n = self.addresses.len();
                let p = (default_hash_of(name@) as usize) % n;
                &&& r is Ok
                &&& r matches Ok(route) ==> {
                    &&& route.primary_index == p
                    &&& route.secondary_index == (p + 1) % (n as int)
                    &&& route.no_replica <==> n == 1
                }
            },
    {
        let name_string = String::from_str(name);
        let n = self.addresses.len();
        let index = hash_into_bin(name_string) % n;
        let start = index as i32;
        proof {
            let c = n as i32;
            assert(c > 1 ==> (start as int) >= 0) by (bit_vector)
                requires
                    c == n as i32,
                    start == index as i32,
                    index < n,
                    n <= 0xffff_ffff,
            ;
        }
        proof {
            if n <= i32::MAX {
                lemma_bin_placement_on_small_ring(name@, n);
            }
        }
        let primary_index = get_successor(start, self.addresses.clone())?;
        if primary_index == -1 {
            return Err(TribblerError::RpcError(String::from_str("Could not find primary")));
        }
        let secondary_index = get_successor(primary_index + 1, self.addresses.clone())?;
        if secondary_index == -1 {
            return Err(TribblerError::RpcError(String::from_str("Could not find secondary")));
        }
        let no_replica = primary_index == secondary_index;
        if (primary_index as usize) < n && (secondary_index as usize) < n {
            let primary_address = format_http(&self.addresses[primary_index as usize]);
            let secondary_address = format_http(&self.addresses[secondary_index as usize]);
            Ok(
                BinRoute {
                    name: String::from_str(name),
                    primary_index,
                    secondary_index,
                    primary_address,
                    secondary_address,
                    no_replica,
                },
            )
        } else {
            Err(TribblerError::Unknown(String::from_str("failed to get address")))
        }
    }
}

} // verus!
