//! The allocation table: names bound to addresses of a pool, evicted in
//! least-recently-used order, with a cursor that walks the pool.

use crate::addr::{
    be_value, filled, lemma_be_value_all_max, lemma_be_value_bound, lemma_be_value_concat,
    lemma_be_value_zeros, pow256, IpAddr,
};
use crate::table::{
    has_key, index_entries, index_get, index_insert, index_new, index_remove, key_pos,
    lru_bound, lru_capacity, lru_contains, lru_entries, lru_get, lru_insert, lru_len, lru_new,
    lru_remove_lru, to_back,
};
use hashlink::LruCache;
use std::collections::HashMap;
use vstd::prelude::*;
use vstd::set_lib::{lemma_int_range, lemma_len_subset, set_int_range};
use vstd::string::StrSliceExecFns;

verus! {

/// A pool of addresses: every address from `first` to `last`, both included.
#[derive(Clone, Debug)]
pub struct IpRange {
    pub first: IpAddr,
    pub last: IpAddr,
}

impl IpRange {
    /// Both ends are of one family, in order.
    pub open spec fn wf(&self) -> bool {
        &&& self.first.wf()
        &&& self.first.octets@.len() == self.last.octets@.len()
        &&& self.first.value() <= self.last.value()
    }
}

/// The name under which `name` is kept: without one trailing dot, unless
/// trailing dots are kept.
pub open spec fn canonical_name(name: Seq<char>, trailing_dot: bool) -> Seq<char> {
    if !trailing_dot && name.len() > 0 && name.last() == '.' {
        name.drop_last()
    } else {
        name
    }
}

/// How many entries a pool from `network` to `broadcast` can hold: the number
/// of its addresses, or `usize::MAX` where there are more.
pub open spec fn capacity_of(network: u128, broadcast: u128) -> nat {
    if broadcast - network + 1 > usize::MAX {
        usize::MAX as nat
    } else {
        (broadcast - network + 1) as nat
    }
}

/// The state of a table, as values.
pub struct DnsModel {
    /// Address and name of each entry, least recently used first.
    pub entries: Seq<(u128, Seq<char>)>,
    /// The reverse index: the address bound to each name.
    pub names: Map<Seq<char>, u128>,
    pub network: u128,
    pub broadcast: u128,
    /// The next address to probe.
    pub next: u128,
    pub capacity: nat,
    /// Octets in an address of the pool: 4 or 16.
    pub octet_len: nat,
    pub trailing_dot: bool,
}

impl DnsModel {
    /// The invariant of every reachable state: the entries and the reverse
    /// index describe one bijection between live addresses and names, every
    /// address lies in the pool, and the table holds no more than its capacity.
    pub open spec fn inv(self) -> bool {
        &&& self.octet_len == 4 || self.octet_len == 16
        &&& self.network <= self.broadcast
        &&& (self.broadcast as nat) < pow256(self.octet_len)
        &&& self.network <= self.next <= self.broadcast
        &&& self.capacity == capacity_of(self.network, self.broadcast)
        &&& self.entries.len() <= self.capacity
        &&& forall|i: int|
            0 <= i < self.entries.len() ==> self.network <= (#[trigger] self.entries[i]).0
                <= self.broadcast
        &&& forall|i: int, j: int|
            0 <= i < j < self.entries.len() ==> (#[trigger] self.entries[i]).0 != (
            #[trigger] self.entries[j]).0
        &&& forall|i: int|
            0 <= i < self.entries.len() ==> self.names.contains_key((#[trigger] self.entries[i]).1)
                && self.names[self.entries[i].1] == self.entries[i].0
        &&& forall|c: Seq<char>|
            #[trigger] self.names.contains_key(c) ==> exists|i: int|
                0 <= i < self.entries.len() && (#[trigger] self.entries[i]).1 == c
    }

    /// Number of addresses in the pool.
    pub open spec fn pool_size(self) -> int {
        self.broadcast - self.network + 1
    }

    /// The address the cursor moves to after `a`: the next one, and the
    /// network address after the broadcast address.
    pub open spec fn step(self, a: u128) -> u128 {
        if a == self.broadcast {
            self.network
        } else {
            (a + 1) as u128
        }
    }

    /// The `k`-th address probed from the cursor, wrapping at the end of the pool.
    pub open spec fn probe(self, k: int) -> u128 {
        if self.next + k <= self.broadcast {
            (self.next + k) as u128
        } else {
            (self.next + k - self.pool_size()) as u128
        }
    }

    /// The `k`-th probe is the first vacant address from the cursor.
    pub open spec fn first_vacant(self, k: int) -> bool {
        &&& 0 <= k < self.pool_size()
        &&& !has_key(self.entries, self.probe(k))
        &&& forall|j: int| 0 <= j < k ==> has_key(self.entries, #[trigger] self.probe(j))
    }

    /// The name bound to address `a`, if any.
    pub open spec fn name_at(self, a: u128) -> Option<Seq<char>> {
        if has_key(self.entries, a) {
            Some(self.entries[key_pos(self.entries, a)].1)
        } else {
            None
        }
    }

    /// The state after the entry at `a`, if any, becomes the most recently used.
    pub open spec fn touched(self, a: u128) -> DnsModel {
        DnsModel { entries: to_back(self.entries, a), ..self }
    }

    /// The state after `c` is bound to the vacant address `a`.
    pub open spec fn bound(self, c: Seq<char>, a: u128) -> DnsModel {
        DnsModel {
            entries: self.entries.push((a, c)),
            names: self.names.insert(c, a),
            next: self.step(a),
            ..self
        }
    }

    /// The state after the least recently used entry hands its address to `c`.
    pub open spec fn rebound(self, c: Seq<char>) -> DnsModel {
        let a = self.entries[0].0;
        DnsModel {
            entries: self.entries.drop_first().push((a, c)),
            names: self.names.remove(self.entries[0].1).insert(c, a),
            next: self.step(a),
            ..self
        }
    }

    /// `t` and `r` are the state and the address after `name` is looked up or
    /// given an address in state `self`: a known name keeps its address and
    /// becomes the most recently used; below capacity a new name takes the
    /// first vacant address from the cursor; at capacity it takes the address
    /// of the least recently used entry, which leaves.
    pub open spec fn allocated(self, name: Seq<char>, t: DnsModel, r: u128) -> bool {
        let c = canonical_name(name, self.trailing_dot);
        if self.names.contains_key(c) {
            r == self.names[c] && t == self.touched(r)
        } else if self.entries.len() < self.capacity {
            t == self.bound(c, r) && exists|k: int| self.first_vacant(k) && r == self.probe(k)
        } else {
            r == self.entries[0].0 && t == self.rebound(c)
        }
    }
}

/// A virtual DNS table that gives each name an address of a private pool.
/// The table is a least-recently-used cache from address to name, with a
/// reverse index from name to address.
pub struct VirtualDns {
    trailing_dot: bool,
    lru_cache: LruCache<u128, String>,
    name_to_ip: HashMap<String, u128>,
    octet_len: usize,
    network_addr: u128,
    broadcast_addr: u128,
    next_addr: u128,
}

impl View for VirtualDns {
    type V = DnsModel;

    closed spec fn view(&self) -> DnsModel {
        DnsModel {
            entries: lru_entries(self.lru_cache),
            names: index_entries(self.name_to_ip),
            network: self.network_addr,
            broadcast: self.broadcast_addr,
            next: self.next_addr,
            capacity: lru_bound(self.lru_cache),
            octet_len: self.octet_len as nat,
            trailing_dot: self.trailing_dot,
        }
    }
}

/// Keys stay distinct and in their set when an entry moves to the back.
proof fn lemma_to_back(s: Seq<(u128, Seq<char>)>, k: u128)
    requires
        has_key(s, k),
    ensures
        ({
            let p = key_pos(s, k);
            let t = to_back(s, k);
            &&& 0 <= p < s.len()
            &&& s[p].0 == k
            &&& t.len() == s.len()
            &&& forall|j: int| 0 <= j < p ==> #[trigger] t[j] == s[j]
            &&& forall|j: int| p <= j < s.len() - 1 ==> #[trigger] t[j] == s[j + 1]
            &&& t[s.len() - 1] == s[p]
        }),
{
    let p = key_pos(s, k);
    let t = to_back(s, k);
    assert(t == s.remove(p).push(s[p]));
}

/// Keeps the invariant when the entry at `k` moves to the back.
proof fn lemma_touched_inv(s: DnsModel, k: u128)
    requires
        s.inv(),
    ensures
        s.touched(k).inv(),
{
    if has_key(s.entries, k) {
        lemma_to_back(s.entries, k);
        let p = key_pos(s.entries, k);
        let t = s.touched(k);
        let n = s.entries.len();
        let src = |j: int| if j < p { j } else if j < n - 1 { j + 1 } else { p };
        assert forall|j: int| 0 <= j < n implies #[trigger] t.entries[j] == s.entries[src(j)] by {}
        assert forall|i: int, j: int| 0 <= i < j < n implies (#[trigger] t.entries[i]).0 != (
        #[trigger] t.entries[j]).0 by {
            assert(t.entries[i] == s.entries[src(i)]);
            assert(t.entries[j] == s.entries[src(j)]);
            assert(src(i) != src(j));
            if src(i) < src(j) {
            } else {
            }
        }
        assert forall|c: Seq<char>| #[trigger] t.names.contains_key(c) implies exists|i: int|
            0 <= i < n && (#[trigger] t.entries[i]).1 == c by {
            let i = choose|i: int| 0 <= i < n && (#[trigger] s.entries[i]).1 == c;
            let j = if i < p { i } else if i == p { n - 1 } else { i - 1 };
            assert(t.entries[j] == s.entries[src(j)]);
        }
        assert forall|j: int| 0 <= j < n implies t.names.contains_key(
            (#[trigger] t.entries[j]).1,
        ) && t.names[t.entries[j].1] == t.entries[j].0 && t.network <= t.entries[j].0
            <= t.broadcast by {
            assert(t.entries[j] == s.entries[src(j)]);
        }
    } else {
        assert(s.touched(k) == s);
    }
}

/// Under the invariant, distinct entries carry distinct names.
proof fn lemma_names_distinct(s: DnsModel, i: int, j: int)
    requires
        s.inv(),
        0 <= i < s.entries.len(),
        0 <= j < s.entries.len(),
        i != j,
    ensures
        s.entries[i].1 != s.entries[j].1,
{
    if s.entries[i].1 == s.entries[j].1 {
        assert(s.names[s.entries[i].1] == s.entries[i].0);
        assert(s.names[s.entries[j].1] == s.entries[j].0);
        if i < j {
            assert(s.entries[i].0 != s.entries[j].0);
        } else {
            assert(s.entries[j].0 != s.entries[i].0);
        }
    }
}

/// Keeps the invariant when `c` takes the vacant address `a`.
proof fn lemma_bound_inv(s: DnsModel, c: Seq<char>, a: u128)
    requires
        s.inv(),
        !s.names.contains_key(c),
        !has_key(s.entries, a),
        s.network <= a <= s.broadcast,
        s.entries.len() < s.capacity,
    ensures
        s.bound(c, a).inv(),
{
    let t = s.bound(c, a);
    let n = s.entries.len() as int;
    assert forall|i: int| 0 <= i < n implies #[trigger] t.entries[i] == s.entries[i] by {}
    assert(t.entries[n] == (a, c));
    assert forall|i: int, j: int| 0 <= i < j < t.entries.len() implies (
    #[trigger] t.entries[i]).0 != (#[trigger] t.entries[j]).0 by {
        if j == n {
            assert(s.entries[i] == t.entries[i]);
        }
    }
    assert forall|i: int| 0 <= i < t.entries.len() implies t.names.contains_key(
        (#[trigger] t.entries[i]).1,
    ) && t.names[t.entries[i].1] == t.entries[i].0 by {
        if i < n {
            assert(s.names.contains_key(s.entries[i].1));
            assert(s.entries[i].1 != c);
        }
    }
    assert forall|d: Seq<char>| #[trigger] t.names.contains_key(d) implies exists|i: int|
        0 <= i < t.entries.len() && (#[trigger] t.entries[i]).1 == d by {
        if d == c {
            assert(t.entries[n].1 == d);
        } else {
            let i = choose|i: int| 0 <= i < n && (#[trigger] s.entries[i]).1 == d;
            assert(t.entries[i] == s.entries[i]);
        }
    }
}

/// Keeps the invariant when the least recently used entry hands its address to `c`.
proof fn lemma_rebound_inv(s: DnsModel, c: Seq<char>)
    requires
        s.inv(),
        !s.names.contains_key(c),
        s.entries.len() > 0,
    ensures
        s.rebound(c).inv(),
{
    let t = s.rebound(c);
    let n = s.entries.len() as int;
    let a = s.entries[0].0;
    let o = s.entries[0].1;
    assert forall|i: int| 0 <= i < n - 1 implies #[trigger] t.entries[i] == s.entries[i + 1] by {}
    assert(t.entries[n - 1] == (a, c));
    assert forall|i: int, j: int| 0 <= i < j < t.entries.len() implies (
    #[trigger] t.entries[i]).0 != (#[trigger] t.entries[j]).0 by {
        assert(t.entries[i] == s.entries[i + 1]);
        if j == n - 1 {
            assert(s.entries[0].0 != s.entries[i + 1].0);
        } else {
            assert(t.entries[j] == s.entries[j + 1]);
        }
    }
    assert forall|i: int| 0 <= i < t.entries.len() implies t.names.contains_key(
        (#[trigger] t.entries[i]).1,
    ) && t.names[t.entries[i].1] == t.entries[i].0 && t.network <= t.entries[i].0
        <= t.broadcast by {
        if i < n - 1 {
            assert(t.entries[i] == s.entries[i + 1]);
            assert(s.names.contains_key(s.entries[i + 1].1));
            assert(s.entries[i + 1].1 != c);
            lemma_names_distinct(s, 0, i + 1);
        } else {
            assert(s.network <= s.entries[0].0 <= s.broadcast);
        }
    }
    assert forall|d: Seq<char>| #[trigger] t.names.contains_key(d) implies exists|i: int|
        0 <= i < t.entries.len() && (#[trigger] t.entries[i]).1 == d by {
        if d == c {
            assert(t.entries[n - 1].1 == d);
        } else {
            assert(d != o);
            assert(s.names.contains_key(d));
            let i = choose|i: int| 0 <= i < n && (#[trigger] s.entries[i]).1 == d;
            assert(i != 0);
            assert(t.entries[i - 1] == s.entries[i]);
        }
    }
}

/// Probing walks the pool from the cursor and comes back to it after the
/// last address.
proof fn lemma_probe(s: DnsModel, k: int)
    requires
        s.inv(),
        0 <= k < s.pool_size(),
    ensures
        s.network <= s.probe(k) <= s.broadcast,
        k + 1 < s.pool_size() ==> s.step(s.probe(k)) == s.probe(k + 1) && s.probe(k + 1) != s.next,
        k + 1 == s.pool_size() ==> s.step(s.probe(k)) == s.next,
        s.probe(0) == s.next,
{
}

/// `name` as the table keeps it.
fn canonicalize(name: String, trailing_dot: bool) -> (r: String)
    ensures
        r@ == canonical_name(name@, trailing_dot),
{
    let n = name.as_str().unicode_len();
    if !trailing_dot && n > 0 && name.as_str().get_char(n - 1) == '.' {
        let kept = name.as_str().substring_char(0, n - 1);
        let r = kept.to_owned();
        assert(r@ =~= name@.drop_last());
        r
    } else {
        name
    }
}

impl VirtualDns {
    /// The table is in a reachable state.
    pub open spec fn wf(&self) -> bool {
        self@.inv()
    }

    /// An empty table over the addresses of `ip_pool`, with the cursor at its
    /// first address and trailing dots stripped from names.
    pub fn new(ip_pool: IpRange) -> (r: Self)
        requires
            ip_pool.wf(),
        ensures
            r.wf(),
            r@.entries.len() == 0,
            r@.names.dom().len() == 0,
            r@.network == ip_pool.first.value(),
            r@.broadcast == ip_pool.last.value(),
            r@.next == ip_pool.first.value(),
            r@.octet_len == ip_pool.first.octets@.len(),
            r@.capacity == capacity_of(r@.network, r@.broadcast),
            !r@.trailing_dot,
    {
        let network_addr = ip_pool.first.to_u128();
        let broadcast_addr = ip_pool.last.to_u128();
        proof {
            lemma_be_value_bound(ip_pool.last.octets@);
        }
        let span = broadcast_addr - network_addr;
        let capacity: usize = if span >= usize::MAX as u128 {
            usize::MAX
        } else {
            (span + 1) as usize
        };
        let r = VirtualDns {
            trailing_dot: false,
            lru_cache: lru_new(capacity),
            name_to_ip: index_new(),
            octet_len: ip_pool.first.octets.len(),
            network_addr,
            broadcast_addr,
            next_addr: network_addr,
        };
        assert(r@.names.dom() =~= Set::<Seq<char>>::empty());
        r
    }

    /// Whether names keep a trailing dot.
    pub fn set_trailing_dot(&mut self, keep: bool)
        requires
            old(self).wf(),
        ensures
            final(self).wf(),
            final(self)@ == (DnsModel { trailing_dot: keep, ..old(self)@ }),
    {
        self.trailing_dot = keep;
    }

    /// The address after `addr`, counting its octets as one big-endian number:
    /// octets of value 255 at the end become 0 and the one before them goes
    /// up by one; after the all-255 address comes the all-zero one.
    pub fn increment_ip(addr: &IpAddr) -> (r: IpAddr)
        requires
            addr.wf(),
        ensures
            r.octets@.len() == addr.octets@.len(),
            r.value() == (addr.value() + 1) % pow256(addr.octets@.len()),
    {
        let n = addr.octets.len();
        let mut ip_bytes: Vec<u8> = Vec::new();
        let mut c: usize = 0;
        while c < n
            invariant
                n == addr.octets@.len(),
                c <= n,
                ip_bytes@ == addr.octets@.take(c as int),
            decreases n - c,
        {
            ip_bytes.push(addr.octets[c]);
            c = c + 1;
            assert(ip_bytes@ =~= addr.octets@.take(c as int));
        }
        assert(ip_bytes@ =~= addr.octets@);
        let ghost orig = addr.octets@;
        let mut done = false;
        let mut j: usize = 0;
        while j < n && !done
            invariant
                n == orig.len(),
                j <= n,
                ip_bytes@.len() == n,
                !done ==> ip_bytes@ == orig.take(n - j) + filled(j as nat, 0),
                !done ==> orig.skip(n - j) == filled(j as nat, 255),
                done ==> be_value(ip_bytes@) == be_value(orig) + 1,
            decreases n - j + (if done { 0int } else { 1int }),
        {
            let i = n - 1 - j;
            let ghost before = ip_bytes@;
            if ip_bytes[i] != 255 {
                let b = ip_bytes[i];
                ip_bytes.set(i, b + 1);
                done = true;
                proof {
                    let pre = orig.take(i as int);
                    let p = pow256(j as nat);
                    assert(orig[i as int] == b) by {
                        assert(before[i as int] == orig.take(n - j)[i as int]);
                    }
                    assert(ip_bytes@ =~= (pre + seq![(b + 1) as u8]) + filled(j as nat, 0));
                    assert(orig =~= (pre + seq![b]) + filled(j as nat, 255)) by {
                        assert(orig =~= orig.take(n - j) + orig.skip(n - j));
                        assert(orig.take(n - j) =~= pre + seq![b]);
                    }
                    lemma_be_value_concat(pre + seq![(b + 1) as u8], filled(j as nat, 0));
                    lemma_be_value_concat(pre + seq![b], filled(j as nat, 255));
                    assert((pre + seq![(b + 1) as u8]).drop_last() =~= pre);
                    assert((pre + seq![b]).drop_last() =~= pre);
                    lemma_be_value_zeros(j as nat);
                    lemma_be_value_all_max(j as nat);
                    let x = be_value(pre) * 256 + b as nat;
                    assert(be_value(pre + seq![(b + 1) as u8]) == x + 1);
                    assert(be_value(pre + seq![b]) == x);
                    assert((x + 1) * p == x * p + (p - 1) + 1) by (nonlinear_arith);
                }
            } else {
                ip_bytes.set(i, 0);
                proof {
                    assert(orig[i as int] == 255) by {
                        assert(before[i as int] == orig.take(n - j)[i as int]);
                    }
                    assert(ip_bytes@ =~= orig.take(n - (j + 1)) + filled((j + 1) as nat, 0));
                    assert(orig.skip(i as int) =~= seq![orig[i as int]] + orig.skip(n - j));
                    assert(orig.skip(n - (j + 1)) =~= filled((j + 1) as nat, 255));
                }
                j = j + 1;
            }
        }
        proof {
            let p = pow256(n as nat);
            lemma_be_value_bound(ip_bytes@);
            if done {
                vstd::arithmetic::div_mod::lemma_small_mod(
                    (be_value(orig) + 1) as nat,
                    p,
                );
            } else {
                assert(ip_bytes@ =~= filled(n as nat, 0));
                assert(orig =~= filled(n as nat, 255));
                lemma_be_value_zeros(n as nat);
                lemma_be_value_all_max(n as nat);
                vstd::arithmetic::div_mod::lemma_mod_self_0(p as int);
            }
        }
        IpAddr { octets: ip_bytes }
    }

    /// The address the cursor takes after `a`.
    fn advance(&self, a: u128) -> (r: u128)
        requires
            self.octet_len == 4 || self.octet_len == 16,
            (self.broadcast_addr as nat) < pow256(self.octet_len as nat),
            self.network_addr <= a <= self.broadcast_addr,
        ensures
            r == self@.step(a),
    {
        let inc = Self::increment_ip(&IpAddr::from_u128(a, self.octet_len));
        proof {
            lemma_be_value_bound(inc.octets@);
            let p = pow256(self.octet_len as nat);
            if a < self.broadcast_addr {
                vstd::arithmetic::div_mod::lemma_small_mod((a + 1) as nat, p);
            } else if a + 1 < p {
                vstd::arithmetic::div_mod::lemma_small_mod((a + 1) as nat, p);
            } else {
                vstd::arithmetic::div_mod::lemma_mod_self_0(p as int);
            }
        }
        let v = inc.to_u128();
        if v > self.broadcast_addr || v < self.network_addr {
            self.network_addr
        } else {
            v
        }
    }

    /// Binds `name` to the vacant address `a` in both the cache and the index,
    /// and moves the cursor past `a`.
    fn bind(&mut self, a: u128, name: String)
        requires
            old(self).wf(),
            !old(self)@.names.contains_key(name@),
            !has_key(old(self)@.entries, a),
            old(self)@.network <= a <= old(self)@.broadcast,
            old(self)@.entries.len() < old(self)@.capacity,
        ensures
            final(self).wf(),
            final(self)@ == old(self)@.bound(name@, a),
    {
        let ghost s = self@;
        let next = self.advance(a);
        lru_insert(&mut self.lru_cache, a, name.clone());
        index_insert(&mut self.name_to_ip, name, a);
        self.next_addr = next;
        proof {
            lemma_bound_inv(s, name@, a);
        }
    }

    /// Number of live entries.
    pub fn len(&self) -> (r: usize)
        requires
            self.wf(),
        ensures
            r == self@.entries.len(),
    {
        lru_len(&self.lru_cache)
    }

    /// The most entries the table holds at once.
    pub fn capacity(&self) -> (r: usize)
        requires
            self.wf(),
        ensures
            r == self@.capacity,
    {
        lru_capacity(&self.lru_cache)
    }

    /// The address that the reverse index holds for `name` exactly as given
    /// (no trailing dot is stripped), without touching its entry.
    pub fn ip_of_name(&self, name: &String) -> (r: Option<IpAddr>)
        requires
            self.wf(),
        ensures
            r.is_some() == self@.names.contains_key(name@),
            r.is_some() ==> r.unwrap().value() == self@.names[name@] && r.unwrap().octets@.len()
                == self@.octet_len,
    {
        match index_get(&self.name_to_ip, name) {
            Some(ip) => {
                proof {
                    let s = self@;
                    let i = choose|i: int|
                        0 <= i < s.entries.len() && (#[trigger] s.entries[i]).1 == name@;
                    assert(s.names[s.entries[i].1] == s.entries[i].0);
                    assert(s.network <= s.entries[i].0 <= s.broadcast);
                }
                Some(IpAddr::from_u128(ip, self.octet_len))
            },
            None => None,
        }
    }

    /// Takes the least recently used entry out of both the cache and the
    /// index, binds `name` to its address, and moves the cursor past it.
    fn rebind_lru(&mut self, name: String) -> (r: u128)
        requires
            old(self).wf(),
            !old(self)@.names.contains_key(name@),
            old(self)@.entries.len() > 0,
        ensures
            final(self).wf(),
            final(self)@ == old(self)@.rebound(name@),
            r == old(self)@.entries[0].0,
    {
        let ghost s = self@;
        match lru_remove_lru(&mut self.lru_cache) {
            Some((old_ip, old_name)) => {
                index_remove(&mut self.name_to_ip, &old_name);
                proof {
                    let d = s.entries.drop_first();
                    assert forall|i: int| 0 <= i < d.len() implies (#[trigger] d[i]).0 != old_ip by {
                        assert(d[i] == s.entries[i + 1]);
                        assert(s.entries[0].0 != s.entries[i + 1].0);
                    }
                }
                lru_insert(&mut self.lru_cache, old_ip, name.clone());
                index_insert(&mut self.name_to_ip, name, old_ip);
                self.next_addr = self.advance(old_ip);
                proof {
                    lemma_rebound_inv(s, name@);
                }
                old_ip
            },
            None => {
                proof {
                    assert(false);
                }
                self.network_addr
            },
        }
    }

    /// Marks the entry at `addr`, if there is one, as the most recently used.
    /// An address of the other family is never in the table.
    pub fn touch_ip(&mut self, addr: &IpAddr)
        requires
            old(self).wf(),
        ensures
            final(self).wf(),
            addr.octets@.len() == old(self)@.octet_len ==> final(self)@ == old(self)@.touched(
                addr.value() as u128,
            ),
            addr.octets@.len() != old(self)@.octet_len ==> final(self)@ == old(self)@,
    {
        let ghost s = self@;
        if addr.octets.len() == self.octet_len {
            let a = addr.to_u128();
            let _ = lru_get(&mut self.lru_cache, a);
            proof {
                lemma_touched_inv(s, a);
            }
        }
    }

    /// The name bound to `addr`, if any; a hit marks the entry as the most
    /// recently used.
    pub fn resolve_ip(&mut self, addr: &IpAddr) -> (r: Option<String>)
        requires
            old(self).wf(),
        ensures
            final(self).wf(),
            addr.octets@.len() == old(self)@.octet_len ==> final(self)@ == old(self)@.touched(
                addr.value() as u128,
            ),
            addr.octets@.len() != old(self)@.octet_len ==> final(self)@ == old(self)@,
            r.is_some() == (addr.octets@.len() == old(self)@.octet_len && old(self)@.name_at(
                addr.value() as u128,
            ).is_some()),
            r.is_some() ==> old(self)@.name_at(addr.value() as u128) == Some(r.unwrap()@),
    {
        let ghost s = self@;
        if addr.octets.len() == self.octet_len {
            let a = addr.to_u128();
            let r = lru_get(&mut self.lru_cache, a);
            proof {
                lemma_touched_inv(s, a);
            }
            r
        } else {
            None
        }
    }

    /// The address of `name`. A name already in the table keeps its address
    /// and becomes the most recently used. A new name takes, while the table
    /// is below capacity, the first vacant address from the cursor on
    /// (wrapping at the end of the pool); at capacity it takes the address of
    /// the least recently used entry, which leaves the table. The cursor then
    /// moves past the address handed out.
    pub fn find_or_allocate_ip(&mut self, name: String) -> (r: IpAddr)
        requires
            old(self).wf(),
        ensures
            final(self).wf(),
            r.octets@.len() == old(self)@.octet_len,
            old(self)@.allocated(name@, final(self)@, r.value() as u128),
    {
        let ghost name_view = name@;
        let ghost s0 = self@;
        let insert_name = canonicalize(name, self.trailing_dot);
        match index_get(&self.name_to_ip, &insert_name) {
            Some(ip) => {
                let _ = lru_get(&mut self.lru_cache, ip);
                proof {
                    lemma_touched_inv(s0, ip);
                    let i = choose|i: int|
                        0 <= i < s0.entries.len() && (#[trigger] s0.entries[i]).1 == insert_name@;
                    assert(s0.names[s0.entries[i].1] == s0.entries[i].0);
                    assert(s0.network <= s0.entries[i].0 <= s0.broadcast);
                }
                return IpAddr::from_u128(ip, self.octet_len);
            },
            None => {},
        }
        if lru_len(&self.lru_cache) == lru_capacity(&self.lru_cache) {
            let ip = self.rebind_lru(insert_name);
            proof {
                assert(s0.network <= s0.entries[0].0 <= s0.broadcast);
            }
            return IpAddr::from_u128(ip, self.octet_len);
        }
        let started_at = self.next_addr;
        let ghost s = self@;
        let ghost mut k: int = 0;
        loop
            invariant
                self.wf(),
                s == s0,
                s0 == old(self)@,
                name_view == name@,
                s.inv(),
                self@ == (DnsModel { next: s.probe(k), ..s }),
                0 <= k < s.pool_size(),
                forall|j: int| 0 <= j < k ==> has_key(s.entries, #[trigger] s.probe(j)),
                started_at == s.next,
                !s.names.contains_key(insert_name@),
                insert_name@ == canonical_name(name_view, s.trailing_dot),
                s.entries.len() < s.capacity,
            decreases s.pool_size() - k,
        {
            proof {
                lemma_probe(s, k);
            }
            if !lru_contains(&self.lru_cache, self.next_addr) {
                let allocated = self.next_addr;
                proof {
                    assert(s.first_vacant(k));
                    assert((DnsModel { next: s.probe(k), ..s }).bound(insert_name@, allocated)
                        == s.bound(insert_name@, allocated));
                }
                let ghost c = insert_name@;
                self.bind(allocated, insert_name);
                let r = IpAddr::from_u128(allocated, self.octet_len);
                proof {
                    assert(s.allocated(name_view, self@, allocated));
                }
                return r;
            }
            let next = self.advance(self.next_addr);
            self.next_addr = next;
            proof {
                k = k + 1;
            }
            if self.next_addr == started_at {
                // Back at the start with no vacancy: the table is treated as
                // full. Below capacity this cannot happen, as the proof shows.
                proof {
                    assert forall|m: int| !s.first_vacant(m) by {
                        if 0 <= m < s.pool_size() {
                            assert(has_key(s.entries, s.probe(m)));
                        }
                    }
                    lemma_vacancy_below_capacity(s);
                }
                let ip = self.rebind_lru(insert_name);
                return IpAddr::from_u128(ip, self.octet_len);
            }
        }
    }
}

/// In a sequence with distinct keys, the entry found for a key is the one
/// that holds it.
proof fn lemma_key_pos_unique(s: Seq<(u128, Seq<char>)>, i: int)
    requires
        0 <= i < s.len(),
        forall|a: int, b: int| 0 <= a < b < s.len() ==> (#[trigger] s[a]).0 != (#[trigger] s[b]).0,
    ensures
        has_key(s, s[i].0),
        key_pos(s, s[i].0) == i,
{
    assert(s[i] == s[i]);
    let p = key_pos(s, s[i].0);
    if p < i {
        assert(s[p].0 != s[i].0);
    } else if p > i {
        assert(s[i].0 != s[p].0);
    }
}

/// Some entry of `s` binds `a` to `c`.
pub open spec fn has_entry(s: Seq<(u128, Seq<char>)>, a: u128, c: Seq<char>) -> bool {
    exists|i: int| 0 <= i < s.len() && s[i] == (a, c)
}

/// In every reachable state the entries and the reverse index hold the same
/// pairs: an entry binds address `a` to name `c` exactly when the index maps
/// `c` to `a`. No address and no name occurs in two entries.
pub proof fn lemma_bijection(s: DnsModel)
    requires
        s.inv(),
    ensures
        forall|a: u128, c: Seq<char>|
            #[trigger] has_entry(s.entries, a, c) <==> (s.names.contains_key(c) && s.names[c]
                == a),
        forall|i: int, j: int|
            0 <= i < s.entries.len() && 0 <= j < s.entries.len() && i != j ==> (
            #[trigger] s.entries[i]).0 != (#[trigger] s.entries[j]).0 && s.entries[i].1
                != s.entries[j].1,
{
    assert forall|a: u128, c: Seq<char>|
        #[trigger] has_entry(s.entries, a, c) <==> (s.names.contains_key(c) && s.names[c] == a) by {
        if s.names.contains_key(c) && s.names[c] == a {
            let i = choose|i: int| 0 <= i < s.entries.len() && (#[trigger] s.entries[i]).1 == c;
            assert(s.entries[i] == (a, c));
        }
    }
    assert forall|i: int, j: int|
        0 <= i < s.entries.len() && 0 <= j < s.entries.len() && i != j implies (
        #[trigger] s.entries[i]).0 != (#[trigger] s.entries[j]).0 && s.entries[i].1
            != s.entries[j].1 by {
        lemma_names_distinct(s, i, j);
    }
}

/// Asking twice for one name, with nothing in between, gives one address,
/// and the second request binds no name anew.
pub proof fn lemma_repeat_same_address(
    s: DnsModel,
    name: Seq<char>,
    t: DnsModel,
    r: u128,
    u: DnsModel,
    r2: u128,
)
    requires
        s.inv(),
        s.allocated(name, t, r),
        t.allocated(name, u, r2),
    ensures
        r2 == r,
        u.names == t.names,
{
    let c = canonical_name(name, s.trailing_dot);
    assert(t.names.contains_key(c) && t.names[c] == r);
}

/// The table never holds more entries than its capacity, which is at most
/// the number of addresses in the pool.
pub proof fn lemma_capacity_bound(s: DnsModel)
    requires
        s.inv(),
    ensures
        1 <= s.capacity <= s.pool_size(),
        s.entries.len() <= s.capacity,
{
}

/// A new name arriving at capacity takes the address of the least recently
/// used entry: that entry alone leaves, its name leaves the index, and the
/// address now resolves to the new name.
pub proof fn lemma_eviction(s: DnsModel, name: Seq<char>, t: DnsModel, r: u128)
    requires
        s.inv(),
        s.allocated(name, t, r),
        !s.names.contains_key(canonical_name(name, s.trailing_dot)),
        s.entries.len() == s.capacity,
    ensures
        r == s.entries[0].0,
        t.entries == s.entries.drop_first().push((r, canonical_name(name, s.trailing_dot))),
        !t.names.contains_key(s.entries[0].1),
        t.name_at(r) == Some(canonical_name(name, s.trailing_dot)),
{
    let c = canonical_name(name, s.trailing_dot);
    lemma_rebound_inv(s, c);
    assert(s.entries[0].1 != c);
    lemma_key_pos_unique(t.entries, t.entries.len() - 1);
}

/// A touched entry becomes the most recently used; when other entries are
/// present, it is not the next to be evicted.
pub proof fn lemma_touch_most_recent(s: DnsModel, a: u128)
    requires
        s.inv(),
        has_key(s.entries, a),
    ensures
        s.touched(a).entries.last().0 == a,
        s.touched(a).entries.len() >= 2 ==> s.touched(a).entries[0].0 != a,
{
    lemma_to_back(s.entries, a);
    lemma_touched_inv(s, a);
    let t = s.touched(a);
    if t.entries.len() >= 2 {
        assert(t.entries[0].0 != t.entries[t.entries.len() - 1].0);
    }
}

/// Without kept trailing dots, `name.` and `name` are one name and get one
/// address; with them kept, they are two names.
pub proof fn lemma_trailing_dot(name: Seq<char>)
    requires
        !(name.len() > 0 && name.last() == '.'),
    ensures
        canonical_name(name.push('.'), false) == canonical_name(name, false),
        canonical_name(name.push('.'), true) != canonical_name(name, true),
        forall|s: DnsModel, t: DnsModel, r: u128|
            !s.trailing_dot ==> (#[trigger] s.allocated(name.push('.'), t, r) <==> s.allocated(
                name,
                t,
                r,
            )),
{
    assert(name.push('.').drop_last() =~= name);
    assert(name.push('.').len() != name.len());
}

/// After the broadcast address the cursor returns to the network address:
/// counting one past the broadcast address leaves the pool, except where the
/// pool is the whole address space and the count comes back to its first
/// address.
pub proof fn lemma_broadcast_wraps(s: DnsModel)
    requires
        s.inv(),
    ensures
        s.step(s.broadcast) == s.network,
        ({
            let v = (s.broadcast + 1) as nat % pow256(s.octet_len);
            v > s.broadcast || v < s.network || (s.network == 0 && v == 0)
        }),
{
    let p = pow256(s.octet_len);
    if s.broadcast + 1 < p {
        vstd::arithmetic::div_mod::lemma_small_mod((s.broadcast + 1) as nat, p);
    } else {
        vstd::arithmetic::div_mod::lemma_mod_self_0(p as int);
    }
}

/// Some probe before `k`, or `k` itself, is the first vacant one.
proof fn lemma_least_vacant(s: DnsModel, k: int)
    requires
        0 <= k < s.pool_size(),
        !has_key(s.entries, s.probe(k)),
    ensures
        exists|m: int| s.first_vacant(m),
    decreases k,
{
    if forall|j: int| 0 <= j < k ==> has_key(s.entries, #[trigger] s.probe(j)) {
        assert(s.first_vacant(k));
    } else {
        let j = choose|j: int| 0 <= j < k && !has_key(s.entries, #[trigger] s.probe(j));
        lemma_least_vacant(s, j);
    }
}

/// Below capacity, probing from the cursor always meets a vacant address
/// before it comes back to the cursor, so a new name never evicts there.
pub proof fn lemma_vacancy_below_capacity(s: DnsModel)
    requires
        s.inv(),
        s.entries.len() < s.capacity,
    ensures
        exists|k: int| s.first_vacant(k),
{
    if forall|k: int| 0 <= k < s.pool_size() ==> has_key(s.entries, #[trigger] s.probe(k)) {
        let keys = s.entries.map_values(|e: (u128, Seq<char>)| e.0 as int);
        let range = set_int_range(s.network as int, s.broadcast + 1);
        assert forall|a: int| range.contains(a) implies keys.to_set().contains(a) by {
            let k = if a >= s.next {
                a - s.next
            } else {
                a - s.next + s.pool_size()
            };
            assert(s.probe(k) == a);
            assert(has_key(s.entries, s.probe(k)));
            let i = choose|i: int| 0 <= i < s.entries.len() && (#[trigger] s.entries[i]).0 == s.probe(k);
            assert(keys[i] == a);
        }
        lemma_int_range(s.network as int, s.broadcast + 1);
        keys.lemma_cardinality_of_set();
        lemma_len_subset(range, keys.to_set());
    } else {
        let k = choose|k: int| 0 <= k < s.pool_size() && !has_key(s.entries, #[trigger] s.probe(k));
        lemma_least_vacant(s, k);
    }
}

} // verus!
