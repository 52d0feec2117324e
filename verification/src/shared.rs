//! What the server's connections share: the registry of the hosts that
//! clients serve, and the table of the connections that wait for a client.
//!
//! Both are plain values; whoever shares them among tasks puts them behind a
//! lock. A registry maps each host to the handle of the one client session
//! that owns it. The table maps each rendezvous key to the slot through which
//! the waiting connection is handed its counterpart.

use crate::text::{listed, same_bytes, spec_listed};
use vstd::prelude::*;

verus! {

/// The hosts of one client session, and the handle that reaches it.
struct Entry<T> {
    hosts: Vec<String>,
    handle: T,
}

/// The handle of the first entry at or after `from` that holds `host`.
spec fn lookup_from<T>(entries: Seq<Entry<T>>, host: Seq<char>, from: int) -> Option<T>
    decreases entries.len() - from,
{
    if from < 0 || from >= entries.len() {
        None
    } else if spec_listed(entries[from].hosts@, host) {
        Some(entries[from].handle)
    } else {
        lookup_from(entries, host, from + 1)
    }
}

/// A lookup sees only the entries it starts at and those after it.
proof fn lemma_lookup_suffix<T>(
    a: Seq<Entry<T>>,
    from_a: int,
    b: Seq<Entry<T>>,
    from_b: int,
    host: Seq<char>,
)
    requires
        0 <= from_a <= a.len(),
        0 <= from_b <= b.len(),
        a.subrange(from_a, a.len() as int) == b.subrange(from_b, b.len() as int),
    ensures
        lookup_from(a, host, from_a) == lookup_from(b, host, from_b),
    decreases a.len() - from_a,
{
    let sa = a.subrange(from_a, a.len() as int);
    let sb = b.subrange(from_b, b.len() as int);
    assert(sa.len() == sb.len());
    if from_a < a.len() {
        assert(a[from_a] == sa[0]);
        assert(b[from_b] == sb[0]);
        assert(a.subrange(from_a + 1, a.len() as int) == sa.subrange(1, sa.len() as int));
        assert(b.subrange(from_b + 1, b.len() as int) == sb.subrange(1, sb.len() as int));
        lemma_lookup_suffix(a, from_a + 1, b, from_b + 1, host);
    }
}

/// Where no entry from `from` up to `i` holds `host`, the lookup from `from`
/// is the lookup from `i`.
proof fn lemma_lookup_skip<T>(entries: Seq<Entry<T>>, host: Seq<char>, from: int, i: int)
    requires
        0 <= from <= i <= entries.len(),
        forall|j: int| from <= j < i ==> !spec_listed(#[trigger] entries[j].hosts@, host),
    ensures
        lookup_from(entries, host, from) == lookup_from(entries, host, i),
    decreases i - from,
{
    if from < i {
        lemma_lookup_skip(entries, host, from + 1, i);
    }
}

/// The registry: which client session owns which host.
pub struct ClientChannel<T> {
    entries: Vec<Entry<T>>,
}

impl<T> View for ClientChannel<T> {
    type V = Map<Seq<char>, T>;

    /// The handle of the owner of each host that is registered.
    closed spec fn view(&self) -> Map<Seq<char>, T> {
        Map::new(
            |h: Seq<char>| lookup_from(self.entries@, h, 0).is_some(),
            |h: Seq<char>| lookup_from(self.entries@, h, 0).unwrap(),
        )
    }
}

/// Whether one of `domains` is a key of `registry`.
pub open spec fn any_registered<T>(registry: Map<Seq<char>, T>, domains: Seq<String>) -> bool {
    exists|i: int| 0 <= i < domains.len() && registry.contains_key((#[trigger] domains[i])@)
}

/// The hosts that `domains` name.
pub open spec fn host_set(domains: Seq<String>) -> Set<Seq<char>> {
    Set::new(|h: Seq<char>| spec_listed(domains, h))
}

/// A registry in which `handle` owns each of `domains`, and nothing else is
/// owned.
pub open spec fn owned_by<T>(domains: Seq<String>, handle: T) -> Map<Seq<char>, T> {
    Map::new(|h: Seq<char>| spec_listed(domains, h), |h: Seq<char>| handle)
}

impl<T> ClientChannel<T> {
    pub fn new() -> (r: Self)
        ensures
            r@ == Map::<Seq<char>, T>::empty(),
    {
        let r = Self { entries: Vec::new() };
        assert(r@ =~= Map::<Seq<char>, T>::empty());
        r
    }

    /// Whether no host is registered.
    pub fn is_empty(&self) -> (r: bool)
        ensures
            r == (self@ == Map::<Seq<char>, T>::empty()),
    {
        let mut i: usize = 0;
        while i < self.entries.len()
            invariant
                i <= self.entries@.len(),
                forall|j: int| 0 <= j < i ==> (#[trigger] self.entries@[j]).hosts@.len() == 0,
            decreases self.entries@.len() - i,
        {
            if self.entries[i].hosts.len() > 0 {
                proof {
                    let h = self.entries@[i as int].hosts@[0]@;
                    assert(spec_listed(self.entries@[i as int].hosts@, h));
                    assert forall|j: int| 0 <= j < i implies !spec_listed(
                        #[trigger] self.entries@[j].hosts@,
                        h,
                    ) by {}
                    lemma_lookup_skip(self.entries@, h, 0, i as int);
                    assert(self@.contains_key(h));
                }
                return false;
            }
            i += 1;
        }
        proof {
            assert forall|h: Seq<char>| !self@.contains_key(h) by {
                assert forall|j: int| 0 <= j < i implies !spec_listed(
                    #[trigger] self.entries@[j].hosts@,
                    h,
                ) by {}
                lemma_lookup_skip(self.entries@, h, 0, i as int);
            }
            assert(self@ =~= Map::<Seq<char>, T>::empty());
        }
        true
    }

    /// The handle of the session that owns `domain`, if one does.
    pub fn get(&self, domain: &str) -> (r: Option<&T>)
        ensures
            match r {
                Some(handle) => self@.contains_key(domain@) && *handle == self@[domain@],
                None => !self@.contains_key(domain@),
            },
    {
        let mut i: usize = 0;
        while i < self.entries.len()
            invariant
                i <= self.entries@.len(),
                forall|j: int| 0 <= j < i ==> !spec_listed(#[trigger] self.entries@[j].hosts@, domain@),
            decreases self.entries@.len() - i,
        {
            if listed(self.entries[i].hosts.as_slice(), domain) {
                proof {
                    lemma_lookup_skip(self.entries@, domain@, 0, i as int);
                }
                return Some(&self.entries[i].handle);
            }
            i += 1;
        }
        proof {
            lemma_lookup_skip(self.entries@, domain@, 0, i as int);
        }
        None
    }

    /// Whether a session owns any of `domains`.
    pub fn contains_any(&self, domains: &[String]) -> (r: bool)
        ensures
            r == any_registered(self@, domains@),
    {
        let mut i: usize = 0;
        while i < domains.len()
            invariant
                i <= domains@.len(),
                forall|j: int| 0 <= j < i ==> !self@.contains_key((#[trigger] domains@[j])@),
            decreases domains@.len() - i,
        {
            if self.get(domains[i].as_str()).is_some() {
                return true;
            }
            i += 1;
        }
        false
    }

    /// Makes `handle` the owner of all of `domains`, unless one of them is
    /// owned already: then nothing changes and the handle comes back.
    pub fn add(&mut self, domains: Vec<String>, handle: T) -> (r: Result<(), T>)
        ensures
            match r {
                Ok(_) => !any_registered(old(self)@, domains@) && final(self)@ == old(
                    self,
                )@.union_prefer_right(owned_by(domains@, handle)),
                Err(back) => any_registered(old(self)@, domains@) && back == handle && final(self)@
                    == old(self)@,
            },
    {
        if self.contains_any(domains.as_slice()) {
            return Err(handle);
        }
        let ghost before = self.entries@;
        if domains.len() > 0 {
            self.entries.insert(0, Entry { hosts: domains, handle });
            assert forall|h: Seq<char>|
                lookup_from(self.entries@, h, 1) == lookup_from(before, h, 0) by {
                assert(self.entries@.subrange(1, self.entries@.len() as int) == before.subrange(
                    0,
                    before.len() as int,
                ));
                lemma_lookup_suffix(self.entries@, 1, before, 0, h);
            }
        }
        assert(self@ =~= old(self)@.union_prefer_right(owned_by(domains@, handle)));
        Ok(())
    }

    /// Takes every one of `domains` out of the registry, whoever owns it. A
    /// session that is left without a host is forgotten, and its handle
    /// dropped.
    pub fn remove(&mut self, domains: &[String])
        ensures
            final(self)@ == old(self)@.remove_keys(host_set(domains@)),
    {
        let ghost before = self.entries@;
        let mut i: usize = self.entries.len();
        while i > 0
            invariant
                i <= self.entries@.len(),
                i <= before.len(),
                self.entries@.subrange(0, i as int) == before.subrange(0, i as int),
                forall|h: Seq<char>|
                    #[trigger] lookup_from(self.entries@, h, i as int) == if spec_listed(
                        domains@,
                        h,
                    ) {
                        None
                    } else {
                        lookup_from(before, h, i as int)
                    },
            decreases i,
        {
            i -= 1;
            let ghost prev = self.entries@;
            let entry = self.entries.remove(i);
            assert(entry == before[i as int]) by {
                assert(prev.subrange(0, i + 1)[i as int] == before.subrange(0, i + 1)[i as int]);
            }
            let hosts = without(&entry.hosts, domains);
            let ghost kept = hosts@;
            let ghost dropped = self.entries@;
            if hosts.len() > 0 {
                self.entries.insert(i, Entry { hosts, handle: entry.handle });
            }
            proof {
                let now = self.entries@;
                assert(now.subrange(0, i as int) == before.subrange(0, i as int)) by {
                    assert(prev.subrange(0, i + 1).subrange(0, i as int) == prev.subrange(
                        0,
                        i as int,
                    ));
                    assert(before.subrange(0, i + 1).subrange(0, i as int) == before.subrange(
                        0,
                        i as int,
                    ));
                    assert(now.subrange(0, i as int) == prev.subrange(0, i as int));
                }
                assert(dropped.subrange(i as int, dropped.len() as int) == prev.subrange(
                    i + 1,
                    prev.len() as int,
                ));
                assert forall|h: Seq<char>|
                    #[trigger] lookup_from(now, h, i as int) == if spec_listed(domains@, h) {
                        None
                    } else {
                        lookup_from(before, h, i as int)
                    } by {
                    lemma_lookup_suffix(dropped, i as int, prev, i + 1, h);
                    if kept.len() > 0 {
                        assert(now.subrange(i + 1, now.len() as int) == prev.subrange(
                            i + 1,
                            prev.len() as int,
                        ));
                        lemma_lookup_suffix(now, i + 1, prev, i + 1, h);
                    } else {
                        assert(!spec_listed(kept, h));
                    }
                    assert(lookup_from(before, h, i as int) == if spec_listed(
                        before[i as int].hosts@,
                        h,
                    ) {
                        Some(before[i as int].handle)
                    } else {
                        lookup_from(before, h, i + 1)
                    });
                }
            }
        }
        assert(self@ =~= old(self)@.remove_keys(host_set(domains@)));
    }
}

/// The texts of `hosts` that are none of `domains`, in their order.
fn without(hosts: &Vec<String>, domains: &[String]) -> (kept: Vec<String>)
    ensures
        forall|h: Seq<char>|
            #[trigger] spec_listed(kept@, h) <==> spec_listed(hosts@, h) && !spec_listed(domains@, h),
{
    let mut kept: Vec<String> = Vec::new();
    let mut j: usize = 0;
    while j < hosts.len()
        invariant
            j <= hosts@.len(),
            forall|k: int| 0 <= k < kept@.len() ==> spec_listed(hosts@, (#[trigger] kept@[k])@)
                && !spec_listed(domains@, kept@[k]@),
            forall|k: int|
                0 <= k < j && !spec_listed(domains@, (#[trigger] hosts@[k])@) ==> spec_listed(
                    kept@,
                    hosts@[k]@,
                ),
        decreases hosts@.len() - j,
    {
        if !listed(domains, hosts[j].as_str()) {
            let ghost before = kept@;
            kept.push(hosts[j].clone());
            proof {
                assert(kept@[before.len() as int]@ == hosts@[j as int]@);
                assert forall|k: int|
                    0 <= k < j + 1 && !spec_listed(domains@, (#[trigger] hosts@[k])@) implies spec_listed(
                    kept@,
                    hosts@[k]@,
                ) by {
                    if k < j {
                        let w = choose|w: int|
                            0 <= w < before.len() && (#[trigger] before[w])@ == hosts@[k]@;
                        assert(kept@[w]@ == hosts@[k]@);
                    }
                }
            }
        }
        j += 1;
    }
    kept
}

/// A connection that waits: its rendezvous key, and the slot through which
/// it is handed its counterpart.
struct Waiter<S> {
    key: Vec<u8>,
    slot: S,
}

/// The position of the waiter with `key`, where there is one.
spec fn waiter_at<S>(waiters: Seq<Waiter<S>>, key: Seq<u8>, i: int) -> bool {
    0 <= i < waiters.len() && waiters[i].key@ == key
}

/// Whether no two of `waiters` have the same key.
spec fn distinct_keys<S>(waiters: Seq<Waiter<S>>) -> bool {
    forall|i: int, j: int|
        0 <= i < j < waiters.len() ==> (#[trigger] waiters[i]).key@ != (#[trigger] waiters[j]).key@
}

/// The slot of each key that one of `waiters` has.
spec fn table_of<S>(waiters: Seq<Waiter<S>>) -> Map<Seq<u8>, S> {
    Map::new(
        |k: Seq<u8>| exists|i: int| waiter_at(waiters, k, i),
        |k: Seq<u8>| waiters[choose|i: int| waiter_at(waiters, k, i)].slot,
    )
}

/// Where keys are distinct, the slot of a key is that of the one waiter
/// that has it.
proof fn lemma_slot_of<S>(waiters: Seq<Waiter<S>>, key: Seq<u8>, i: int)
    requires
        distinct_keys(waiters),
        waiter_at(waiters, key, i),
    ensures
        table_of(waiters).contains_key(key),
        table_of(waiters)[key] == waiters[i].slot,
{
    let c = choose|c: int| waiter_at(waiters, key, c);
    if c < i {
        assert(waiters[c].key@ != waiters[i].key@);
    } else if i < c {
        assert(waiters[i].key@ != waiters[c].key@);
    }
}

/// What taking `key` out of `table` gives: the table without it, and the
/// slot that waited under it, if one did. This is what both a client that
/// comes for a connection and the clock that gives up on it do.
pub open spec fn spec_take<S>(table: Map<Seq<u8>, S>, key: Seq<u8>) -> (Map<Seq<u8>, S>, Option<S>) {
    (
        table.remove(key),
        if table.contains_key(key) {
            Some(table[key])
        } else {
            None
        },
    )
}

/// The rendezvous table: which connection waits under which key.
pub struct ConnChannel<S> {
    waiters: Vec<Waiter<S>>,
}

impl<S> View for ConnChannel<S> {
    type V = Map<Seq<u8>, S>;

    /// The slot of each key under which a connection waits.
    closed spec fn view(&self) -> Map<Seq<u8>, S> {
        table_of(self.waiters@)
    }
}

impl<S> ConnChannel<S> {
    /// No two waiters have the same key.
    #[verifier::type_invariant]
    spec fn inv(self) -> bool {
        distinct_keys(self.waiters@)
    }

    pub fn new() -> (r: Self)
        ensures
            r@ == Map::<Seq<u8>, S>::empty(),
    {
        let r = Self { waiters: Vec::new() };
        assert(r@ =~= Map::<Seq<u8>, S>::empty());
        r
    }

    /// Whether nothing waits.
    pub fn is_empty(&self) -> (r: bool)
        ensures
            r == (self@ == Map::<Seq<u8>, S>::empty()),
    {
        if self.waiters.len() == 0 {
            assert(self@ =~= Map::<Seq<u8>, S>::empty());
            true
        } else {
            assert(waiter_at(self.waiters@, self.waiters@[0].key@, 0));
            assert(self@.contains_key(self.waiters@[0].key@));
            false
        }
    }

    /// Takes the waiter with `key` out of the table and gives its slot, if
    /// there is one; otherwise the table stays as it is.
    pub fn remove(&mut self, key: &[u8]) -> (r: Option<S>)
        ensures
            (final(self)@, r) == spec_take(old(self)@, key@),
    {
        proof {
            use_type_invariant(&*self);
        }
        let ghost before = self.waiters@;
        let mut i: usize = 0;
        while i < self.waiters.len()
            invariant
                i <= self.waiters@.len(),
                self.waiters@ == before,
                forall|j: int| 0 <= j < i ==> !waiter_at(before, key@, j),
                distinct_keys(before),
                before == old(self).waiters@,
            decreases self.waiters@.len() - i,
        {
            if same_bytes(self.waiters[i].key.as_slice(), key) {
                let mut waiters: Vec<Waiter<S>> = Vec::new();
                core::mem::swap(&mut self.waiters, &mut waiters);
                let waiter = waiters.remove(i);
                proof {
                    let now = waiters@;
                    assert forall|a: int, b: int| 0 <= a < b < now.len() implies (
                    #[trigger] now[a]).key@ != (#[trigger] now[b]).key@ by {
                        let a0 = if a < i { a } else { a + 1 };
                        let b0 = if b < i { b } else { b + 1 };
                        assert(now[a] == before[a0]);
                        assert(now[b] == before[b0]);
                    }
                }
                self.waiters = waiters;
                proof {
                    let now = self.waiters@;
                    assert(waiter_at(before, key@, i as int));
                    assert forall|k: Seq<u8>, j: int| waiter_at(now, k, j) implies waiter_at(
                        before,
                        k,
                        if j < i {
                            j
                        } else {
                            j + 1
                        },
                    ) && k != key@ by {
                        let j0 = if j < i { j } else { j + 1 };
                        assert(now[j] == before[j0]);
                        if j0 < i {
                            assert(before[j0].key@ != before[i as int].key@);
                        } else {
                            assert(before[i as int].key@ != before[j0].key@);
                        }
                    }
                    lemma_slot_of(before, key@, i as int);
                    assert forall|k: Seq<u8>, j: int| waiter_at(before, k, j) && k != key@ implies (
                    exists|w: int| waiter_at(now, k, w)) && table_of(now)[k] == table_of(
                        before,
                    )[k] by {
                        let w = if j < i { j } else { j - 1 };
                        assert(waiter_at(now, k, w));
                        lemma_slot_of(before, k, j);
                        lemma_slot_of(now, k, w);
                    }
                    assert(self@ =~= old(self)@.remove(key@));
                }
                return Some(waiter.slot);
            }
            i += 1;
        }
        assert(self@ =~= old(self)@.remove(key@));
        None
    }

    /// Puts a waiter with `key` and `slot` in the table. Where one waited
    /// under that key already, it gives way, and its slot comes back.
    pub fn add(&mut self, key: Vec<u8>, slot: S) -> (r: Option<S>)
        ensures
            final(self)@ == old(self)@.insert(key@, slot),
            r == spec_take(old(self)@, key@).1,
    {
        let earlier = self.remove(key.as_slice());
        proof {
            use_type_invariant(&*self);
        }
        let ghost before = self.waiters@;
        let ghost mid = self@;
        assert forall|j: int| !waiter_at(before, key@, j) by {
            if waiter_at(before, key@, j) {
                assert(self@.contains_key(key@));
            }
        }
        let mut waiters: Vec<Waiter<S>> = Vec::new();
        core::mem::swap(&mut self.waiters, &mut waiters);
        waiters.push(Waiter { key, slot });
        proof {
            let now = waiters@;
            assert forall|a: int, b: int| 0 <= a < b < now.len() implies (#[trigger] now[a]).key@
                != (#[trigger] now[b]).key@ by {
                if b < before.len() {
                    assert(now[a] == before[a]);
                    assert(now[b] == before[b]);
                } else {
                    assert(now[a] == before[a]);
                    assert(!waiter_at(before, key@, a));
                }
            }
        }
        self.waiters = waiters;
        proof {
            let now = self.waiters@;
            assert(waiter_at(now, key@, before.len() as int));
            lemma_slot_of(now, key@, before.len() as int);
            assert forall|k: Seq<u8>, j: int| waiter_at(before, k, j) implies waiter_at(
                now,
                k,
                j,
            ) && table_of(now)[k] == table_of(before)[k] by {
                assert(waiter_at(now, k, j));
                lemma_slot_of(before, k, j);
                lemma_slot_of(now, k, j);
            }
            assert forall|k: Seq<u8>, j: int| waiter_at(now, k, j) && k != key@ implies waiter_at(
                before,
                k,
                j,
            ) by {}
            assert(self@ =~= mid.insert(key@, slot));
            assert(mid.insert(key@, slot) =~= old(self)@.insert(key@, slot));
        }
        earlier
    }
}

/// What the server's connections share.
pub struct Shared<T, S> {
    pub client: ClientChannel<T>,
    pub conn: ConnChannel<S>,
}

impl<T, S> Shared<T, S> {
    pub fn new() -> (r: Self)
        ensures
            r.client@ == Map::<Seq<char>, T>::empty(),
            r.conn@ == Map::<Seq<u8>, S>::empty(),
    {
        Self { client: ClientChannel::new(), conn: ConnChannel::new() }
    }
}

} // verus!
