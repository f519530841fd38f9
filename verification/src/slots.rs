//! The places that the manifest asks for: one for every replica of a selected app, with the port
//! it has and the fingerprint it should have.

use crate::fingerprint::{fingerprint, spec_hash};
use crate::manifest::{lemma_first_named, App, Manifest};
use crate::order::{lemma_text_lt_irreflexive, lemma_text_lt_transitive, text_lt, NameSet};
use crate::text::str_eq;
use vstd::prelude::*;

verus! {

/// One place that the manifest asks for.
#[derive(Debug)]
pub struct Slot {
    pub app: String,
    pub replica: u32,
    pub port: u16,
    pub hash: u64,
}

/// The ports of places that have left the port they began with.
pub struct SlotPorts {
    entries: Vec<(String, u32, u16)>,
}

/// The entry for a place, from `from` on.
spec fn entry_at(
    entries: Seq<(String, u32, u16)>,
    app: Seq<char>,
    replica: u32,
    from: int,
) -> Option<int>
    decreases entries.len() - from,
{
    if from < 0 || from >= entries.len() {
        None
    } else if entries[from].0@ == app && entries[from].1 == replica {
        Some(from)
    } else {
        entry_at(entries, app, replica, from + 1)
    }
}

proof fn lemma_entry_at(
    entries: Seq<(String, u32, u16)>,
    app: Seq<char>,
    replica: u32,
    from: int,
)
    requires
        0 <= from,
    ensures
        match entry_at(entries, app, replica, from) {
            Some(i) => from <= i < entries.len() && entries[i].0@ == app && entries[i].1
                == replica,
            None => forall|i: int|
                from <= i < entries.len() ==> !((#[trigger] entries[i]).0@ == app && entries[i].1
                    == replica),
        },
    decreases entries.len() - from,
{
    if from < entries.len() && !(entries[from].0@ == app && entries[from].1 == replica) {
        lemma_entry_at(entries, app, replica, from + 1);
    }
}

impl View for SlotPorts {
    type V = Map<(Seq<char>, u32), u16>;

    closed spec fn view(&self) -> Map<(Seq<char>, u32), u16> {
        Map::new(
            |k: (Seq<char>, u32)| entry_at(self.entries@, k.0, k.1, 0) is Some,
            |k: (Seq<char>, u32)| self.entries@[entry_at(self.entries@, k.0, k.1, 0)->0].2,
        )
    }
}

impl SlotPorts {
    /// No place stands twice.
    pub closed spec fn wf(&self) -> bool {
        forall|i: int, j: int|
            0 <= i < j < self.entries@.len() ==> !((#[trigger] self.entries@[i]).0@ == (
            #[trigger] self.entries@[j]).0@ && self.entries@[i].1 == self.entries@[j].1)
    }

    /// What an entry says of its place.
    proof fn lemma_entry(&self, i: int)
        requires
            self.wf(),
            0 <= i < self.entries@.len(),
        ensures
            self@.dom().contains((self.entries@[i].0@, self.entries@[i].1)),
            self@[(self.entries@[i].0@, self.entries@[i].1)] == self.entries@[i].2,
    {
        lemma_entry_at(self.entries@, self.entries@[i].0@, self.entries@[i].1, 0);
    }

    /// A place that was given a port has an entry.
    proof fn lemma_key(&self, key: (Seq<char>, u32))
        requires
            self@.dom().contains(key),
        ensures
            entry_at(self.entries@, key.0, key.1, 0) matches Some(i) && 0 <= i
                < self.entries@.len() && self.entries@[i].2 == self@[key],
    {
        lemma_entry_at(self.entries@, key.0, key.1, 0);
    }

    pub fn new() -> (r: SlotPorts)
        ensures
            r.wf(),
            r@ == Map::<(Seq<char>, u32), u16>::empty(),
    {
        let r = SlotPorts { entries: Vec::new() };
        assert(r@ =~= Map::<(Seq<char>, u32), u16>::empty());
        r
    }

    fn find(&self, app: &str, replica: u32) -> (r: Option<usize>)
        ensures
            match r {
                Some(i) => entry_at(self.entries@, app@, replica, 0) == Some(i as int) && i
                    < self.entries@.len(),
                None => entry_at(self.entries@, app@, replica, 0) is None,
            },
    {
        let mut i: usize = 0;
        while i < self.entries.len()
            invariant
                i <= self.entries@.len(),
                entry_at(self.entries@, app@, replica, 0) == entry_at(
                    self.entries@,
                    app@,
                    replica,
                    i as int,
                ),
            decreases self.entries@.len() - i,
        {
            if str_eq(self.entries[i].0.as_str(), app) && self.entries[i].1 == replica {
                return Some(i);
            }
            i += 1;
        }
        None
    }

    /// The port that a place was given.
    pub fn get(&self, app: &str, replica: u32) -> (r: Option<u16>)
        ensures
            match r {
                Some(p) => self@.dom().contains((app@, replica)) && self@[(app@, replica)] == p,
                None => !self@.dom().contains((app@, replica)),
            },
    {
        match self.find(app, replica) {
            Some(i) => Some(self.entries[i].2),
            None => None,
        }
    }

    /// Gives a place a port.
    pub fn insert(&mut self, app: String, replica: u32, port: u16)
        requires
            old(self).wf(),
        ensures
            final(self).wf(),
            final(self)@ == old(self)@.insert((app@, replica), port),
    {
        let ghost before = self.entries@;
        let ghost key = (app@, replica);
        match self.find(app.as_str(), replica) {
            Some(i) => {
                proof {
                    lemma_entry_at(before, key.0, replica, 0);
                }
                self.entries.set(i, (app, replica, port));
                proof {
                    assert forall|k: (Seq<char>, u32)| #[trigger]
                        entry_at(self.entries@, k.0, k.1, 0) == entry_at(before, k.0, k.1, 0) by {
                        lemma_same_places(before, self.entries@, k.0, k.1, 0);
                    }
                    assert forall|k: (Seq<char>, u32)| self@.dom().contains(k) && k
                        != key implies #[trigger] self@[k] == old(self)@[k] by {
                        lemma_entry_at(before, k.0, k.1, 0);
                    }
                    assert(self@ =~= old(self)@.insert(key, port));
                }
            },
            None => {
                self.entries.push((app, replica, port));
                proof {
                    lemma_entry_at(before, key.0, replica, 0);
                    assert forall|k: (Seq<char>, u32)| k != key implies #[trigger] entry_at(
                        self.entries@,
                        k.0,
                        k.1,
                        0,
                    ) == entry_at(before, k.0, k.1, 0) by {
                        lemma_entry_at_push(before, self.entries@.last(), k.0, k.1, 0);
                        assert(self.entries@ =~= before.push(self.entries@.last()));
                    }
                    lemma_entry_at(self.entries@, key.0, key.1, 0);
                    assert(self.entries@.last().0@ == key.0);
                    assert forall|k: (Seq<char>, u32)| self@.dom().contains(k) && k
                        != key implies #[trigger] self@[k] == old(self)@[k] by {
                        lemma_entry_at(before, k.0, k.1, 0);
                    }
                    assert(self@ =~= old(self)@.insert(key, port));
                }
            },
        }
    }
}

impl SlotPorts {
    /// Appends the ports that places were given to a list.
    pub fn append_to(&self, used: &mut Vec<u16>)
        requires
            self.wf(),
        ensures
            forall|p: u16| #[trigger]
                final(used)@.contains(p) <==> old(used)@.contains(p) || is_given(self@, p),
    {
        let ghost before = used@;
        let mut i: usize = 0;
        while i < self.entries.len()
            invariant
                i <= self.entries@.len(),
                used@.len() == before.len() + i,
                forall|j: int| 0 <= j < before.len() ==> #[trigger] used@[j] == before[j],
                forall|j: int|
                    before.len() <= j < used@.len() ==> #[trigger] used@[j]
                        == self.entries@[j - before.len()].2,
            decreases self.entries@.len() - i,
        {
            used.push(self.entries[i].2);
            i += 1;
        }
        proof {
            assert forall|p: u16| #[trigger]
                used@.contains(p) <==> before.contains(p) || is_given(self@, p) by {
                if used@.contains(p) {
                    let j = choose|j: int| 0 <= j < used@.len() && used@[j] == p;
                    if j < before.len() {
                        assert(before[j] == p);
                    } else {
                        self.lemma_entry(j - before.len());
                        let e = self.entries@[j - before.len()];
                        assert(self@.dom().contains((e.0@, e.1)) && self@[(e.0@, e.1)] == p);
                    }
                }
                if before.contains(p) {
                    let j = choose|j: int| 0 <= j < before.len() && before[j] == p;
                    assert(used@[j] == p);
                }
                if is_given(self@, p) {
                    let key = choose|key: (Seq<char>, u32)| #[trigger]
                        self@.dom().contains(key) && self@[key] == p;
                    self.lemma_key(key);
                    let k = entry_at(self.entries@, key.0, key.1, 0)->0;
                    assert(used@[before.len() + k] == p);
                }
            }
        }
    }
}

/// Whether some place was given a port.
pub open spec fn is_given(ports: Map<(Seq<char>, u32), u16>, p: u16) -> bool {
    exists|k: (Seq<char>, u32)| #[trigger] ports.dom().contains(k) && ports[k] == p
}

/// Entries for the same places are found at the same indices.
proof fn lemma_same_places(
    a: Seq<(String, u32, u16)>,
    b: Seq<(String, u32, u16)>,
    app: Seq<char>,
    replica: u32,
    from: int,
)
    requires
        a.len() == b.len(),
        forall|i: int|
            0 <= i < a.len() ==> (#[trigger] a[i]).0@ == b[i].0@ && a[i].1 == b[i].1,
        0 <= from,
    ensures
        entry_at(a, app, replica, from) == entry_at(b, app, replica, from),
    decreases a.len() - from,
{
    if from < a.len() {
        assert(a[from].0@ == b[from].0@);
        lemma_same_places(a, b, app, replica, from + 1);
    }
}

/// One more entry changes nothing for other places.
proof fn lemma_entry_at_push(
    a: Seq<(String, u32, u16)>,
    e: (String, u32, u16),
    app: Seq<char>,
    replica: u32,
    from: int,
)
    requires
        !(e.0@ == app && e.1 == replica),
        0 <= from <= a.len(),
    ensures
        entry_at(a.push(e), app, replica, from) == entry_at(a, app, replica, from),
    decreases a.len() - from,
{
    if from < a.len() {
        lemma_entry_at_push(a, e, app, replica, from + 1);
    } else {
        assert(entry_at(a.push(e), app, replica, from + 1) is None);
    }
}

/// Whether an app claims a port in the manifest.
pub open spec fn claimed(m: Manifest, p: int) -> bool {
    exists|a: int| 0 <= a < m.apps@.len() && (#[trigger] m.apps@[a]).claims(p)
}

/// The first port from `from` on that no app claims and that is not in use.
pub open spec fn first_free(m: Manifest, used: Set<u16>, from: int) -> Option<int>
    decreases 65536 - from,
{
    if from > 65535 {
        None
    } else if !claimed(m, from) && !used.contains(from as u16) {
        Some(from)
    } else {
        first_free(m, used, from + 1)
    }
}

/// The port for a replacement of an app's instance that still runs: the first free one above the
/// app's own ports, or, where there is none, the one right above them whoever has it.
pub open spec fn surge_port(m: Manifest, app: App, used: Set<u16>) -> u16 {
    match first_free(m, used, app.port_end()) {
        Some(p) => p as u16,
        None => (app.port_end() % 65536) as u16,
    }
}

fn is_claimed(manifest: &Manifest, p: u64) -> (r: bool)
    ensures
        r == claimed(*manifest, p as int),
{
    let mut i: usize = 0;
    while i < manifest.apps.len()
        invariant
            i <= manifest.apps@.len(),
            forall|a: int| 0 <= a < i ==> !(#[trigger] manifest.apps@[a]).claims(p as int),
        decreases manifest.apps@.len() - i,
    {
        let a = &manifest.apps[i];
        if a.port as u64 <= p && p < a.port as u64 + a.replicas as u64 {
            assert(manifest.apps@[i as int].claims(p as int));
            return true;
        }
        i += 1;
    }
    false
}

fn is_used(used: &Vec<u16>, p: u16) -> (r: bool)
    ensures
        r == used@.to_set().contains(p),
{
    let mut i: usize = 0;
    while i < used.len()
        invariant
            i <= used@.len(),
            forall|a: int| 0 <= a < i ==> #[trigger] used@[a] != p,
        decreases used@.len() - i,
    {
        if used[i] == p {
            assert(used@.contains(p));
            return true;
        }
        i += 1;
    }
    assert(!used@.contains(p));
    false
}

/// A port for a replacement of one of the app's instances that is still running, where `used`
/// holds the ports in use.
pub fn surge_port_for(manifest: &Manifest, app: &App, used: &Vec<u16>) -> (r: u16)
    ensures
        r == surge_port(*manifest, *app, used@.to_set()),
{
    let base: u64 = app.port as u64 + app.replicas as u64;
    let mut p: u64 = base;
    while p <= 65535
        invariant
            base == app.port_end(),
            base <= p,
            first_free(*manifest, used@.to_set(), base as int) == first_free(
                *manifest,
                used@.to_set(),
                p as int,
            ),
        decreases 65536 - p,
    {
        if !is_claimed(manifest, p) && !is_used(used, p as u16) {
            return p as u16;
        }
        p += 1;
    }
    (base % 65536) as u16
}

/// Where any port above an app's own is free, the port for its replacement is free: no app claims
/// it, nothing uses it, and it is above the app's own ports.
pub proof fn law_surge_port_is_free(m: Manifest, app: App, used: Set<u16>, p: int)
    requires
        app.port_end() <= p <= 65535,
        !claimed(m, p),
        !used.contains(p as u16),
    ensures
        !claimed(m, surge_port(m, app, used) as int),
        !used.contains(surge_port(m, app, used)),
        app.port_end() <= surge_port(m, app, used) <= p,
{
    lemma_first_free(m, used, app.port_end(), p);
}

proof fn lemma_first_free(m: Manifest, used: Set<u16>, from: int, p: int)
    requires
        from <= p <= 65535,
        !claimed(m, p),
        !used.contains(p as u16),
    ensures
        first_free(m, used, from) matches Some(q) && from <= q <= p && !claimed(m, q)
            && !used.contains(q as u16),
    decreases p - from,
{
    if claimed(m, from) || used.contains(from as u16) {
        lemma_first_free(m, used, from + 1, p);
    }
}

/// Whether the manifest asks for the given replica of its app `a`.
pub open spec fn wanted(m: Manifest, selected: Set<Seq<char>>, a: int, replica: u32) -> bool {
    &&& 0 <= a < m.apps@.len()
    &&& selected.contains(m.apps@[a].name@)
    &&& replica < m.apps@[a].replicas
}

/// The port of a replica: the one it was given, else its own in the manifest.
pub open spec fn replica_port(
    app: App,
    replica: u32,
    ports: Map<(Seq<char>, u32), u16>,
) -> u16 {
    if ports.dom().contains((app.name@, replica)) {
        ports[(app.name@, replica)]
    } else {
        (app.port + replica) as u16
    }
}

/// The place of a replica.
pub open spec fn slot_of(
    m: Manifest,
    a: int,
    replica: u32,
    ports: Map<(Seq<char>, u32), u16>,
) -> Slot {
    let port = replica_port(m.apps@[a], replica, ports);
    Slot {
        app: m.apps@[a].name,
        replica,
        port,
        hash: fingerprint(m, m.apps@[a], replica as nat, port),
    }
}

/// Whether a place is one that the manifest asks for.
pub open spec fn is_desired(
    slot: Slot,
    m: Manifest,
    selected: Set<Seq<char>>,
    ports: Map<(Seq<char>, u32), u16>,
) -> bool {
    exists|a: int| #[trigger]
        wanted(m, selected, a, slot.replica) && slot == slot_of(m, a, slot.replica, ports)
}

/// Whether a name is one of the first `n`.
pub open spec fn among_first(names: Seq<Seq<char>>, n: int, name: Seq<char>) -> bool {
    exists|x: int| 0 <= x < n && #[trigger] names[x] == name
}

/// The order of places: by app, and for one app by replica.
pub open spec fn slot_before(a: Slot, b: Slot) -> bool {
    text_lt(a.app@, b.app@) || (a.app@ == b.app@ && a.replica < b.replica)
}

/// Whether `slots` are the places that the manifest asks for, in order: one for each replica of
/// each selected app, and no other.
pub open spec fn are_desired(
    slots: Seq<Slot>,
    m: Manifest,
    selected: Set<Seq<char>>,
    ports: Map<(Seq<char>, u32), u16>,
) -> bool {
    &&& forall|i: int, j: int|
        0 <= i < j < slots.len() ==> #[trigger] slot_before(slots[i], slots[j])
    &&& forall|k: int|
        0 <= k < slots.len() ==> is_desired(#[trigger] slots[k], m, selected, ports)
    &&& forall|a: int, replica: u32| #[trigger]
        wanted(m, selected, a, replica) ==> slots.contains(slot_of(m, a, replica, ports))
}

/// The places that the manifest asks for.
pub fn desired_slots(manifest: &Manifest, selected: &NameSet, ports: &SlotPorts) -> (slots: Vec<Slot>)
    requires
        manifest.valid(),
        selected.wf(),
    ensures
        are_desired(slots@, *manifest, selected@, ports@),
{
    let mut slots: Vec<Slot> = Vec::new();
    let ghost names = selected.listed();
    let mut i: usize = 0;
    while i < selected.len()
        invariant
            manifest.valid(),
            selected.wf(),
            names == selected.listed(),
            i <= names.len(),
            forall|x: int, y: int|
                0 <= x < y < slots@.len() ==> #[trigger] slot_before(slots@[x], slots@[y]),
            forall|k: int|
                0 <= k < slots@.len() ==> is_desired(
                    #[trigger] slots@[k],
                    *manifest,
                    selected@,
                    ports@,
                ),
            forall|k: int|
                0 <= k < slots@.len() ==> among_first(
                    names,
                    i as int,
                    (#[trigger] slots@[k]).app@,
                ),
            forall|a: int, replica: u32, x: int| #[trigger]
                wanted(*manifest, selected@, a, replica) && 0 <= x < i
                    && manifest.apps@[a].name@ == #[trigger] names[x] ==> slots@.contains(
                    slot_of(*manifest, a, replica, ports@),
                ),
        decreases names.len() - i,
    {
        let name = selected.name(i);
        assert(names[i as int] == name@);
        assert(selected@.contains(name@));
        match manifest.app_index(name) {
            Some(a) => {
                add_slots(&mut slots, manifest, selected, ports, a, Ghost(names), Ghost(i as int));
            },
            None => {
                proof {
                    lemma_first_named(manifest.apps@, name@, 0);
                }
            },
        }
        proof {
            assert forall|a: int, replica: u32, x: int| #[trigger]
                wanted(*manifest, selected@, a, replica) && 0 <= x < i + 1
                    && manifest.apps@[a].name@ == #[trigger] names[x] implies slots@.contains(
                slot_of(*manifest, a, replica, ports@),
            ) by {
                if x == i {
                    lemma_first_named(manifest.apps@, name@, 0);
                }
            }
        }
        i += 1;
    }
    proof {
        assert forall|a: int, replica: u32| #[trigger]
            wanted(*manifest, selected@, a, replica) implies slots@.contains(
            slot_of(*manifest, a, replica, ports@),
        ) by {
            let n = manifest.apps@[a].name@;
            assert(selected@.contains(n));
            let x = choose|x: int| 0 <= x < names.len() && names[x] == n;
            assert(names[x] == n);
        }
    }
    slots
}

/// Appends the places of one app.
fn add_slots(
    slots: &mut Vec<Slot>,
    manifest: &Manifest,
    selected: &NameSet,
    ports: &SlotPorts,
    a: usize,
    Ghost(names): Ghost<Seq<Seq<char>>>,
    Ghost(i): Ghost<int>,
)
    requires
        manifest.valid(),
        selected.wf(),
        names == selected.listed(),
        0 <= i < names.len(),
        a < manifest.apps@.len(),
        manifest.apps@[a as int].name@ == names[i],
        selected@.contains(names[i]),
        forall|x: int, y: int|
            0 <= x < y < old(slots)@.len() ==> #[trigger] slot_before(
                old(slots)@[x],
                old(slots)@[y],
            ),
        forall|k: int|
            0 <= k < old(slots)@.len() ==> is_desired(
                #[trigger] old(slots)@[k],
                *manifest,
                selected@,
                ports@,
            ),
        forall|k: int|
            0 <= k < old(slots)@.len() ==> among_first(
                names,
                i,
                (#[trigger] old(slots)@[k]).app@,
            ),
    ensures
        forall|x: int, y: int|
            0 <= x < y < final(slots)@.len() ==> #[trigger] slot_before(
                final(slots)@[x],
                final(slots)@[y],
            ),
        forall|k: int|
            0 <= k < final(slots)@.len() ==> is_desired(
                #[trigger] final(slots)@[k],
                *manifest,
                selected@,
                ports@,
            ),
        forall|k: int|
            0 <= k < final(slots)@.len() ==> among_first(
                names,
                i + 1,
                (#[trigger] final(slots)@[k]).app@,
            ),
        forall|s: Slot| old(slots)@.contains(s) ==> #[trigger] final(slots)@.contains(s),
        forall|replica: u32| #[trigger]
            wanted(*manifest, selected@, a as int, replica) ==> final(slots)@.contains(
                slot_of(*manifest, a as int, replica, ports@),
            ),
{
    let app = &manifest.apps[a];
    let ghost n = old(slots)@.len() as int;
    let mut r: u32 = 0;
    while r < app.replicas
        invariant
            *app == manifest.apps@[a as int],
            a < manifest.apps@.len(),
            manifest.valid(),
            selected@.contains(app.name@),
            r <= app.replicas,
            n == old(slots)@.len(),
            slots@.len() == n + r,
            forall|k: int| 0 <= k < n ==> #[trigger] slots@[k] == old(slots)@[k],
            forall|k: int|
                n <= k < n + r ==> #[trigger] slots@[k] == slot_of(
                    *manifest,
                    a as int,
                    (k - n) as u32,
                    ports@,
                ),
        decreases app.replicas - r,
    {
        assert(app.port_end() <= 0x1_0000);
        let port = match ports.get(app.name.as_str(), r) {
            Some(p) => p,
            None => app.port + r as u16,
        };
        let hash = spec_hash(manifest, app, r, port);
        slots.push(Slot { app: app.name.clone(), replica: r, port, hash });
        r += 1;
    }
    proof {
        let all = slots@;
        assert forall|k: int| n <= k < all.len() implies #[trigger] all[k].app@ == names[i]
            && all[k].replica == k - n by {
            assert(all[k] == slot_of(*manifest, a as int, (k - n) as u32, ports@));
        }
        assert forall|x: int, y: int| 0 <= x < y < all.len() implies #[trigger] slot_before(
            all[x],
            all[y],
        ) by {
            if y < n {
                assert(slot_before(old(slots)@[x], old(slots)@[y]));
            } else if x < n {
                assert(all[y].app@ == names[i]);
                assert(among_first(names, i, old(slots)@[x].app@));
                let z = choose|z: int| 0 <= z < i && #[trigger] names[z] == old(slots)@[x].app@;
                assert(text_lt(names[z], names[i]));
            } else {
                assert(all[x].app@ == names[i] && all[y].app@ == names[i]);
            }
        }
        assert forall|k: int| 0 <= k < all.len() implies is_desired(
            #[trigger] all[k],
            *manifest,
            selected@,
            ports@,
        ) by {
            if k < n {
                assert(all[k] == old(slots)@[k]);
            } else {
                assert(all[k] == slot_of(*manifest, a as int, (k - n) as u32, ports@));
                assert(wanted(*manifest, selected@, a as int, all[k].replica));
            }
        }
        assert forall|k: int| 0 <= k < all.len() implies among_first(
            names,
            i + 1,
            (#[trigger] all[k]).app@,
        ) by {
            if k < n {
                assert(among_first(names, i, old(slots)@[k].app@));
                let z = choose|z: int| 0 <= z < i && #[trigger] names[z] == old(slots)@[k].app@;
                assert(names[z] == all[k].app@);
            } else {
                assert(names[i] == all[k].app@);
            }
        }
        assert forall|s: Slot| old(slots)@.contains(s) implies #[trigger] all.contains(s) by {
            let k = choose|k: int| 0 <= k < n && old(slots)@[k] == s;
            assert(all[k] == s);
        }
        assert forall|replica: u32| #[trigger]
            wanted(*manifest, selected@, a as int, replica) implies all.contains(
            slot_of(*manifest, a as int, replica, ports@),
        ) by {
            assert(all[n + replica] == slot_of(*manifest, a as int, replica, ports@));
        }
    }
}

/// The place of the given replica of the given app in a list, from `from` on.
pub open spec fn slot_at(slots: Seq<Slot>, app: Seq<char>, replica: u32, from: int) -> Option<int>
    decreases slots.len() - from,
{
    if from < 0 || from >= slots.len() {
        None
    } else if slots[from].app@ == app && slots[from].replica == replica {
        Some(from)
    } else {
        slot_at(slots, app, replica, from + 1)
    }
}

pub proof fn lemma_slot_at(slots: Seq<Slot>, app: Seq<char>, replica: u32, from: int)
    requires
        0 <= from,
    ensures
        match slot_at(slots, app, replica, from) {
            Some(k) => from <= k < slots.len() && slots[k].app@ == app && slots[k].replica
                == replica,
            None => forall|k: int|
                from <= k < slots.len() ==> !((#[trigger] slots[k]).app@ == app
                    && slots[k].replica == replica),
        },
    decreases slots.len() - from,
{
    if from < slots.len() && !(slots[from].app@ == app && slots[from].replica == replica) {
        lemma_slot_at(slots, app, replica, from + 1);
    }
}

/// Finds the place of a replica.
pub fn find_slot(slots: &Vec<Slot>, app: &str, replica: u32) -> (r: Option<usize>)
    ensures
        match r {
            Some(k) => slot_at(slots@, app@, replica, 0) == Some(k as int) && k < slots@.len(),
            None => slot_at(slots@, app@, replica, 0) is None,
        },
{
    let mut i: usize = 0;
    while i < slots.len()
        invariant
            i <= slots@.len(),
            slot_at(slots@, app@, replica, 0) == slot_at(slots@, app@, replica, i as int),
        decreases slots@.len() - i,
    {
        if str_eq(slots[i].app.as_str(), app) && slots[i].replica == replica {
            return Some(i);
        }
        i += 1;
    }
    None
}

/// No place is asked for twice.
pub proof fn lemma_slots_distinct(
    slots: Seq<Slot>,
    m: Manifest,
    selected: Set<Seq<char>>,
    ports: Map<(Seq<char>, u32), u16>,
    i: int,
    j: int,
)
    requires
        are_desired(slots, m, selected, ports),
        0 <= i < slots.len(),
        0 <= j < slots.len(),
        slots[i].app@ == slots[j].app@,
        slots[i].replica == slots[j].replica,
    ensures
        i == j,
{
    lemma_text_lt_irreflexive(slots[i].app@);
    if i < j {
        assert(slot_before(slots[i], slots[j]));
    } else if j < i {
        assert(slot_before(slots[j], slots[i]));
    }
}

proof fn lemma_slot_before(a: Slot, b: Slot, c: Slot)
    ensures
        slot_before(a, b) && slot_before(b, c) ==> slot_before(a, c),
        !slot_before(a, a),
{
    lemma_text_lt_irreflexive(a.app@);
    if text_lt(a.app@, b.app@) && text_lt(b.app@, c.app@) {
        lemma_text_lt_transitive(a.app@, b.app@, c.app@);
    }
}

proof fn lemma_slot_in_both(
    a: Seq<Slot>,
    b: Seq<Slot>,
    m: Manifest,
    selected: Set<Seq<char>>,
    ports: Map<(Seq<char>, u32), u16>,
    k: int,
) -> (j: int)
    requires
        are_desired(a, m, selected, ports),
        are_desired(b, m, selected, ports),
        0 <= k < a.len(),
    ensures
        0 <= j < b.len(),
        b[j] == a[k],
{
    let s = a[k];
    assert(is_desired(s, m, selected, ports));
    let x = choose|x: int| #[trigger]
        wanted(m, selected, x, s.replica) && s == slot_of(m, x, s.replica, ports);
    assert(b.contains(slot_of(m, x, s.replica, ports)));
    choose|j: int| 0 <= j < b.len() && b[j] == s
}

proof fn lemma_desired_alike(
    a: Seq<Slot>,
    b: Seq<Slot>,
    m: Manifest,
    selected: Set<Seq<char>>,
    ports: Map<(Seq<char>, u32), u16>,
    k: int,
)
    requires
        are_desired(a, m, selected, ports),
        are_desired(b, m, selected, ports),
        0 <= k <= a.len(),
    ensures
        k <= b.len(),
        forall|i: int| 0 <= i < k ==> #[trigger] a[i] == b[i],
    decreases k,
{
    if k > 0 {
        let last = k - 1;
        lemma_desired_alike(a, b, m, selected, ports, last);
        let j = lemma_slot_in_both(a, b, m, selected, ports, last);
        if j < last {
            assert(a[j] == b[j]);
            lemma_slots_distinct(a, m, selected, ports, j, last);
        }
        let i = lemma_slot_in_both(b, a, m, selected, ports, last);
        if i < last {
            assert(a[i] == b[i]);
            lemma_slots_distinct(b, m, selected, ports, i, last);
        }
        if j > last {
            assert(slot_before(b[last], b[j]));
            if i > last {
                assert(slot_before(a[last], a[i]));
            }
            lemma_slot_before(b[last], a[last], b[last]);
        }
    }
}

/// What the manifest asks for is settled by the manifest, the selection and the ports given: two
/// lists of it are the same.
pub proof fn law_desired_slots_are_settled(
    a: Seq<Slot>,
    b: Seq<Slot>,
    m: Manifest,
    selected: Set<Seq<char>>,
    ports: Map<(Seq<char>, u32), u16>,
)
    requires
        are_desired(a, m, selected, ports),
        are_desired(b, m, selected, ports),
    ensures
        a == b,
{
    lemma_desired_alike(a, b, m, selected, ports, a.len() as int);
    lemma_desired_alike(b, a, m, selected, ports, b.len() as int);
    assert(a =~= b);
}

/// Whether the ports that places were given are all different, and none is an app's own.
pub open spec fn ports_apart(m: Manifest, ports: Map<(Seq<char>, u32), u16>) -> bool {
    &&& forall|k: (Seq<char>, u32)| #[trigger]
        ports.dom().contains(k) ==> !claimed(m, ports[k] as int)
    &&& forall|j: (Seq<char>, u32), k: (Seq<char>, u32)| #[trigger]
        ports.dom().contains(j) && #[trigger] ports.dom().contains(k) && j != k ==> ports[j]
            != ports[k]
}

/// No two places have one port, as long as the ports that places were given are all different and
/// none is an app's own.
pub proof fn law_places_have_distinct_ports(
    slots: Seq<Slot>,
    m: Manifest,
    selected: Set<Seq<char>>,
    ports: Map<(Seq<char>, u32), u16>,
    i: int,
    j: int,
)
    requires
        m.valid(),
        are_desired(slots, m, selected, ports),
        ports_apart(m, ports),
        0 <= i < j < slots.len(),
    ensures
        slots[i].port != slots[j].port,
{
    let s = slots[i];
    let t = slots[j];
    assert(slot_before(slots[i], slots[j]));
    lemma_slot_before(s, t, s);
    assert(is_desired(s, m, selected, ports) && is_desired(t, m, selected, ports));
    let a = choose|a: int| #[trigger]
        wanted(m, selected, a, s.replica) && s == slot_of(m, a, s.replica, ports);
    let b = choose|b: int| #[trigger]
        wanted(m, selected, b, t.replica) && t == slot_of(m, b, t.replica, ports);
    let x = (s.app@, s.replica);
    let y = (t.app@, t.replica);
    assert(x != y);
    assert(m.apps@[a].port_end() <= 0x1_0000 && m.apps@[b].port_end() <= 0x1_0000);
    if !ports.dom().contains(x) {
        assert(m.apps@[a].claims(s.port as int));
    }
    if !ports.dom().contains(y) {
        assert(m.apps@[b].claims(t.port as int));
    }
    if !ports.dom().contains(x) && !ports.dom().contains(y) {
        if a < b {
            assert(!m.apps@[b].claims(s.port as int));
        } else if b < a {
            assert(!m.apps@[a].claims(t.port as int));
        }
    }
}

} // verus!
