//! Peer registry: an in-memory table from device identity to last-known
//! state. At most one entry exists per device id; entries keep insertion
//! order, merge on every new observation, and are evicted when stale.

use vstd::prelude::*;

use crate::codec::PeerAddr;
use crate::codec::copy_bytes;
use crate::codec::valid_addr;

verus! {

/// Mathematical model of one registry entry.
#[verifier::ext_equal]
pub ghost struct EntryModel {
    pub device_id: Seq<u8>,
    pub device_name: Seq<u8>,
    pub port: u16,
    pub addresses: Seq<Seq<u8>>,
    pub first_seen: u64,
    pub last_seen: u64,
}

/// Last-known state of one peer, keyed by its device id.
pub struct PeerEntry {
    /// The peer's 128-bit identity, as sixteen bytes.
    pub device_id: Vec<u8>,
    /// The peer's display name, as announced most recently.
    pub device_name: Vec<u8>,
    /// The application port the peer announced most recently.
    pub port: u16,
    /// Every address the peer has announced, deduplicated, in first-seen order.
    pub addresses: Vec<PeerAddr>,
    /// When the peer was first observed, on the caller's monotonic clock.
    pub first_seen: u64,
    /// When the peer was last observed; never rewound by stale packets.
    pub last_seen: u64,
}

impl View for PeerEntry {
    type V = EntryModel;

    open spec fn view(&self) -> EntryModel {
        EntryModel {
            device_id: self.device_id@,
            device_name: self.device_name@,
            port: self.port,
            addresses: self.addresses@.map_values(|a: PeerAddr| a@),
            first_seen: self.first_seen,
            last_seen: self.last_seen,
        }
    }
}

/// An address list without duplicates, every element a legal address.
pub open spec fn wf_addrs(addrs: Seq<Seq<u8>>) -> bool {
    &&& forall|i: int| 0 <= i < addrs.len() ==> valid_addr(#[trigger] addrs[i])
    &&& forall|i: int, j: int| 0 <= i < j < addrs.len() ==> addrs[i] != addrs[j]
}

/// A well-formed entry: a full-length id and a deduplicated address list.
pub open spec fn wf_entry(e: EntryModel) -> bool {
    &&& e.device_id.len() == 16
    &&& wf_addrs(e.addresses)
}

/// A well-formed registry: well-formed entries, at most one per device id.
pub open spec fn wf_registry(s: Seq<EntryModel>) -> bool {
    &&& forall|i: int| 0 <= i < s.len() ==> wf_entry(#[trigger] s[i])
    &&& forall|i: int, j: int| 0 <= i < j < s.len() ==> s[i].device_id != s[j].device_id
}

/// Position of the first entry with the given id, or -1 when there is none.
pub open spec fn index_of_id(s: Seq<EntryModel>, id: Seq<u8>) -> int
    decreases s.len(),
{
    if s.len() == 0 {
        -1
    } else if s[0].device_id == id {
        0
    } else {
        let r = index_of_id(s.drop_first(), id);
        if r == -1 {
            -1
        } else {
            r + 1
        }
    }
}

/// Whether some entry carries the given id.
pub open spec fn has_id(s: Seq<EntryModel>, id: Seq<u8>) -> bool {
    index_of_id(s, id) >= 0
}

/// What `index_of_id` finds: the first match, or proof there is none.
pub proof fn lemma_index_of_id(s: Seq<EntryModel>, id: Seq<u8>)
    ensures
        index_of_id(s, id) == -1 || index_of_id(s, id) >= 0,
        index_of_id(s, id) == -1 ==> forall|j: int|
            0 <= j < s.len() ==> (#[trigger] s[j]).device_id != id,
        index_of_id(s, id) >= 0 ==> {
            &&& index_of_id(s, id) < s.len()
            &&& s[index_of_id(s, id)].device_id == id
            &&& forall|j: int| 0 <= j < index_of_id(s, id) ==> (#[trigger] s[j]).device_id != id
        },
    decreases s.len(),
{
    if s.len() == 0 {
    } else if s[0].device_id == id {
    } else {
        let rest = s.drop_first();
        lemma_index_of_id(rest, id);
        let r = index_of_id(rest, id);
        if r == -1 {
            assert forall|j: int| 0 <= j < s.len() implies (#[trigger] s[j]).device_id != id by {
                if j > 0 {
                    assert(s[j] == rest[j - 1]);
                }
            }
        } else {
            assert(s[r + 1] == rest[r]);
            assert forall|j: int| 0 <= j < r + 1 implies (#[trigger] s[j]).device_id != id by {
                if j > 0 {
                    assert(s[j] == rest[j - 1]);
                }
            }
        }
    }
}

/// Under unique ids, a match at `i` pins `index_of_id` to `i`.
pub proof fn lemma_index_of_id_unique(s: Seq<EntryModel>, id: Seq<u8>, i: int)
    requires
        forall|x: int, y: int| 0 <= x < y < s.len() ==> s[x].device_id != s[y].device_id,
        0 <= i < s.len(),
        s[i].device_id == id,
    ensures
        index_of_id(s, id) == i,
{
    lemma_index_of_id(s, id);
    let r = index_of_id(s, id);
    if r == -1 {
        assert(s[i].device_id != id);
    } else if r < i {
        assert(s[r].device_id != s[i].device_id);
    } else if r > i {
        assert(s[i].device_id != id);
    }
}

/// Appends an address unless it is already present.
pub open spec fn add_addr(s: Seq<Seq<u8>>, a: Seq<u8>) -> Seq<Seq<u8>> {
    if s.contains(a) {
        s
    } else {
        s.push(a)
    }
}

/// Unions an incoming address list into an existing one, keeping the
/// existing order and appending genuinely new addresses in arrival order.
pub open spec fn union_addrs(s: Seq<Seq<u8>>, incoming: Seq<Seq<u8>>) -> Seq<Seq<u8>>
    decreases incoming.len(),
{
    if incoming.len() == 0 {
        s
    } else {
        union_addrs(add_addr(s, incoming[0]), incoming.drop_first())
    }
}

/// `union_addrs` distributes over appending one address at the end.
pub proof fn lemma_union_addrs_push(s: Seq<Seq<u8>>, incoming: Seq<Seq<u8>>, a: Seq<u8>)
    ensures
        union_addrs(s, incoming.push(a)) == add_addr(union_addrs(s, incoming), a),
    decreases incoming.len(),
{
    assert(incoming.push(a)[0] == (if incoming.len() == 0 {
        a
    } else {
        incoming[0]
    }));
    if incoming.len() == 0 {
        assert(incoming.push(a).drop_first() =~= Seq::<Seq<u8>>::empty());
        assert(union_addrs(add_addr(s, a), Seq::<Seq<u8>>::empty()) == add_addr(s, a));
        assert(union_addrs(s, incoming) == s);
    } else {
        assert(incoming.push(a).drop_first() =~= incoming.drop_first().push(a));
        lemma_union_addrs_push(add_addr(s, incoming[0]), incoming.drop_first(), a);
        assert(union_addrs(s, incoming) == union_addrs(
            add_addr(s, incoming[0]),
            incoming.drop_first(),
        ));
    }
}

/// The union keeps well-formedness and collects exactly both sides' addresses.
pub proof fn lemma_union_addrs_wf(s: Seq<Seq<u8>>, incoming: Seq<Seq<u8>>)
    requires
        wf_addrs(s),
        forall|i: int| 0 <= i < incoming.len() ==> valid_addr(#[trigger] incoming[i]),
    ensures
        wf_addrs(union_addrs(s, incoming)),
        forall|a: Seq<u8>| s.contains(a) ==> union_addrs(s, incoming).contains(a),
        forall|i: int|
            0 <= i < incoming.len() ==> union_addrs(s, incoming).contains(#[trigger] incoming[i]),
        forall|a: Seq<u8>|
            union_addrs(s, incoming).contains(a) ==> s.contains(a) || incoming.contains(a),
    decreases incoming.len(),
{
    if incoming.len() > 0 {
        let s2 = add_addr(s, incoming[0]);
        assert(wf_addrs(s2) && s2.contains(incoming[0])) by {
            if !s.contains(incoming[0]) {
                assert(forall|i: int| 0 <= i < s.len() ==> s2[i] == #[trigger] s[i]);
                assert(s2[s.len() as int] == incoming[0]);
                assert(forall|i: int, j: int|
                    0 <= i < j < s2.len() ==> s2[i] != s2[j]) by {
                    assert(forall|i: int|
                        0 <= i < s.len() && #[trigger] s[i] == incoming[0] ==> s.contains(
                            incoming[0],
                        ));
                }
            }
        }
        assert(forall|a: Seq<u8>| s2.contains(a) ==> s.contains(a) || a == incoming[0]) by {
            if !s.contains(incoming[0]) {
                assert(forall|i: int| 0 <= i < s2.len() ==> #[trigger] s2[i] == (if i < s.len() {
                    s[i]
                } else {
                    incoming[0]
                }));
            }
        }
        assert forall|a: Seq<u8>| s.contains(a) implies s2.contains(a) by {
            let i = choose|i: int| 0 <= i < s.len() && s[i] == a;
            assert(s2[i] == a);
        }
        lemma_union_addrs_wf(s2, incoming.drop_first());
        assert(union_addrs(s, incoming) == union_addrs(s2, incoming.drop_first()));
        assert(forall|i: int|
            0 <= i < incoming.len() ==> union_addrs(s, incoming).contains(#[trigger] incoming[i]))
            by {
            assert(forall|i: int|
                1 <= i < incoming.len() ==> #[trigger] incoming[i] == incoming.drop_first()[i - 1]);
        }
        assert(forall|a: Seq<u8>|
            union_addrs(s, incoming).contains(a) ==> s.contains(a) || incoming.contains(a)) by {
            assert(forall|i: int|
                0 <= i < incoming.drop_first().len() ==> #[trigger] incoming.drop_first()[i]
                    == incoming[i + 1]);
        }
    }
}

/// Unioning addresses that are all present already changes nothing.
pub proof fn lemma_union_addrs_absorbed(s: Seq<Seq<u8>>, incoming: Seq<Seq<u8>>)
    requires
        forall|i: int| 0 <= i < incoming.len() ==> s.contains(#[trigger] incoming[i]),
    ensures
        union_addrs(s, incoming) == s,
    decreases incoming.len(),
{
    if incoming.len() > 0 {
        assert(s.contains(incoming[0]));
        assert(add_addr(s, incoming[0]) == s);
        assert(forall|i: int|
            0 <= i < incoming.drop_first().len() ==> s.contains(
                #[trigger] incoming.drop_first()[i],
            )) by {
            assert(forall|i: int|
                0 <= i < incoming.drop_first().len() ==> incoming.drop_first()[i] == incoming[i
                    + 1]);
        }
        lemma_union_addrs_absorbed(s, incoming.drop_first());
    }
}

/// The merged entry after observing a peer that is already registered:
/// name and port are overwritten, addresses unioned, `last_seen` advanced
/// to the later of the two times, `first_seen` kept.
pub open spec fn merged_entry(
    e: EntryModel,
    name: Seq<u8>,
    port: u16,
    addrs: Seq<Seq<u8>>,
    observed_at: u64,
) -> EntryModel {
    EntryModel {
        device_id: e.device_id,
        device_name: name,
        port,
        addresses: union_addrs(e.addresses, addrs),
        first_seen: e.first_seen,
        last_seen: if e.last_seen >= observed_at {
            e.last_seen
        } else {
            observed_at
        },
    }
}

/// The entry created on the first observation of an unseen device id.
pub open spec fn new_entry(
    id: Seq<u8>,
    name: Seq<u8>,
    port: u16,
    addrs: Seq<Seq<u8>>,
    observed_at: u64,
) -> EntryModel {
    EntryModel {
        device_id: id,
        device_name: name,
        port,
        addresses: union_addrs(Seq::empty(), addrs),
        first_seen: observed_at,
        last_seen: observed_at,
    }
}

/// What one observation does to the table.
pub open spec fn spec_upsert(
    s: Seq<EntryModel>,
    id: Seq<u8>,
    name: Seq<u8>,
    port: u16,
    addrs: Seq<Seq<u8>>,
    observed_at: u64,
) -> Seq<EntryModel> {
    let i = index_of_id(s, id);
    if i >= 0 {
        s.update(i, merged_entry(s[i], name, port, addrs, observed_at))
    } else {
        s.push(new_entry(id, name, port, addrs, observed_at))
    }
}

/// An observation keeps the registry well formed.
pub proof fn lemma_spec_upsert_wf(
    s: Seq<EntryModel>,
    id: Seq<u8>,
    name: Seq<u8>,
    port: u16,
    addrs: Seq<Seq<u8>>,
    observed_at: u64,
)
    requires
        wf_registry(s),
        id.len() == 16,
        forall|i: int| 0 <= i < addrs.len() ==> valid_addr(#[trigger] addrs[i]),
    ensures
        wf_registry(spec_upsert(s, id, name, port, addrs, observed_at)),
{
    let i = index_of_id(s, id);
    lemma_index_of_id(s, id);
    if i >= 0 {
        lemma_union_addrs_wf(s[i].addresses, addrs);
    } else {
        assert(wf_addrs(Seq::<Seq<u8>>::empty()));
        lemma_union_addrs_wf(Seq::empty(), addrs);
        let s2 = spec_upsert(s, id, name, port, addrs, observed_at);
        assert(forall|x: int, y: int| 0 <= x < y < s2.len() ==> s2[x].device_id != s2[y].device_id)
            by {
            assert(forall|x: int| 0 <= x < s.len() ==> #[trigger] s2[x] == s[x]);
            assert(s2[s.len() as int].device_id == id);
            assert(forall|j: int| 0 <= j < s.len() ==> (#[trigger] s[j]).device_id != id);
        }
    }
}

/// Byte-for-byte equality of two byte vectors.
pub fn bytes_eq(x: &Vec<u8>, y: &Vec<u8>) -> (r: bool)
    ensures
        r == (x@ == y@),
{
    if x.len() != y.len() {
        return false;
    }
    let mut i: usize = 0;
    while i < x.len()
        invariant
            i <= x.len(),
            x@.len() == y@.len(),
            forall|j: int| 0 <= j < i ==> x@[j] == y@[j],
        decreases x.len() - i,
    {
        if x[i] != y[i] {
            return false;
        }
        i += 1;
    }
    proof {
        assert(x@ =~= y@);
    }
    true
}

/// Whether an equal address is already in the list.
fn contains_addr(addrs: &Vec<PeerAddr>, a: &PeerAddr) -> (r: bool)
    ensures
        r == addrs@.map_values(|x: PeerAddr| x@).contains(a@),
{
    let ghost views = addrs@.map_values(|x: PeerAddr| x@);
    let mut i: usize = 0;
    while i < addrs.len()
        invariant
            i <= addrs.len(),
            views == addrs@.map_values(|x: PeerAddr| x@),
            views.len() == addrs@.len(),
            forall|j: int| 0 <= j < i ==> views[j] != a@,
        decreases addrs.len() - i,
    {
        if bytes_eq(&addrs[i].octets, &a.octets) {
            assert(views[i as int] == a@);
            return true;
        }
        i += 1;
    }
    false
}

/// Copies an address list.
fn copy_addrs(addrs: &Vec<PeerAddr>) -> (r: Vec<PeerAddr>)
    ensures
        r@.map_values(|x: PeerAddr| x@) == addrs@.map_values(|x: PeerAddr| x@),
{
    let ghost views = addrs@.map_values(|x: PeerAddr| x@);
    let mut r: Vec<PeerAddr> = Vec::new();
    let mut i: usize = 0;
    while i < addrs.len()
        invariant
            i <= addrs.len(),
            views == addrs@.map_values(|x: PeerAddr| x@),
            views.len() == addrs@.len(),
            r@.map_values(|x: PeerAddr| x@) == views.take(i as int),
        decreases addrs.len() - i,
    {
        let a = addrs[i].duplicate();
        let ghost av = a@;
        let ghost prev = r@;
        r.push(a);
        proof {
            assert(av == views[i as int]);
            assert(prev.map_values(|x: PeerAddr| x@).len() == prev.len());
            assert(prev.len() == i as int);
            assert(forall|j: int| 0 <= j < prev.len() ==> r@[j] == prev[j]);
            assert(r@[i as int]@ == av);
            assert(r@.map_values(|x: PeerAddr| x@) =~= views.take(i as int + 1));
        }
        i += 1;
    }
    proof {
        assert(views.take(addrs@.len() as int) =~= views);
    }
    r
}

/// Unions incoming addresses into a copy of an existing, deduplicated list.
fn union_addrs_exec(base: &Vec<PeerAddr>, incoming: &Vec<PeerAddr>) -> (r: Vec<PeerAddr>)
    ensures
        r@.map_values(|x: PeerAddr| x@) == union_addrs(
            base@.map_values(|x: PeerAddr| x@),
            incoming@.map_values(|x: PeerAddr| x@),
        ),
{
    let ghost base_v = base@.map_values(|x: PeerAddr| x@);
    let ghost inc_v = incoming@.map_values(|x: PeerAddr| x@);
    let mut r = copy_addrs(base);
    let mut i: usize = 0;
    while i < incoming.len()
        invariant
            i <= incoming.len(),
            base_v == base@.map_values(|x: PeerAddr| x@),
            inc_v == incoming@.map_values(|x: PeerAddr| x@),
            inc_v.len() == incoming@.len(),
            r@.map_values(|x: PeerAddr| x@) == union_addrs(base_v, inc_v.take(i as int)),
        decreases incoming.len() - i,
    {
        let ghost before = r@.map_values(|x: PeerAddr| x@);
        let a = &incoming[i];
        assert(inc_v[i as int] == a@);
        if !contains_addr(&r, a) {
            let d = a.duplicate();
            r.push(d);
            proof {
                assert(r@.map_values(|x: PeerAddr| x@) =~= before.push(a@));
            }
        }
        proof {
            assert(r@.map_values(|x: PeerAddr| x@) == add_addr(before, inc_v[i as int]));
            lemma_union_addrs_push(base_v, inc_v.take(i as int), inc_v[i as int]);
            assert(inc_v.take(i as int).push(inc_v[i as int]) =~= inc_v.take(i as int + 1));
        }
        i += 1;
    }
    proof {
        assert(inc_v.take(incoming@.len() as int) =~= inc_v);
    }
    r
}

impl PeerEntry {
    /// A deep copy with an equal model.
    pub fn duplicate(&self) -> (r: PeerEntry)
        ensures
            r@ == self@,
    {
        let r = PeerEntry {
            device_id: copy_bytes(&self.device_id),
            device_name: copy_bytes(&self.device_name),
            port: self.port,
            addresses: copy_addrs(&self.addresses),
            first_seen: self.first_seen,
            last_seen: self.last_seen,
        };
        assert(r@ =~= self@);
        r
    }
}

/// Whether an upsert created a new entry or merged into an existing one.
#[derive(Clone, Copy, PartialEq, Eq, Structural, Debug)]
pub enum UpsertOutcome {
    /// The device id was unseen: a fresh entry was appended.
    Joined,
    /// The device id was present: its entry was merged in place.
    Updated,
}

/// The registry itself: the single shared mutable table of peers.
pub struct PeerRegistry {
    entries: Vec<PeerEntry>,
}

impl View for PeerRegistry {
    type V = Seq<EntryModel>;

    closed spec fn view(&self) -> Seq<EntryModel> {
        self.entries@.map_values(|e: PeerEntry| e@)
    }
}

impl PeerRegistry {
    /// An empty table.
    pub fn new() -> (r: PeerRegistry)
        ensures
            r@ == Seq::<EntryModel>::empty(),
            wf_registry(r@),
    {
        let r = PeerRegistry { entries: Vec::new() };
        assert(r@ =~= Seq::<EntryModel>::empty());
        r
    }

    /// How many peers are known.
    pub fn peer_count(&self) -> (r: usize)
        ensures
            r == self@.len(),
    {
        self.entries.len()
    }

    /// Index of the entry with this id, if any.
    fn find(&self, id: &Vec<u8>) -> (r: Option<usize>)
        ensures
            match r {
                Some(i) => i == index_of_id(self@, id@),
                None => index_of_id(self@, id@) == -1,
            },
    {
        let ghost s = self@;
        let mut i: usize = 0;
        while i < self.entries.len()
            invariant
                i <= self.entries.len(),
                s == self@,
                s.len() == self.entries@.len(),
                forall|j: int| 0 <= j < i ==> (#[trigger] s[j]).device_id != id@,
            decreases self.entries.len() - i,
        {
            if bytes_eq(&self.entries[i].device_id, id) {
                assert(s[i as int].device_id == id@);
                proof {
                    lemma_index_of_id(s, id@);
                    if index_of_id(s, id@) == -1 {
                        assert(s[i as int].device_id != id@);
                    } else if index_of_id(s, id@) < i {
                        assert(s[index_of_id(s, id@)].device_id != id@);
                    }
                }
                return Some(i);
            }
            i += 1;
        }
        proof {
            lemma_index_of_id(s, id@);
            if index_of_id(s, id@) >= 0 {
                assert(s[index_of_id(s, id@)].device_id != id@);
            }
        }
        None
    }

    /// Whether a peer with this id is registered.
    pub fn contains_id(&self, id: &Vec<u8>) -> (r: bool)
        ensures
            r == has_id(self@, id@),
    {
        proof {
            lemma_index_of_id(self@, id@);
        }
        match self.find(id) {
            Some(_) => true,
            None => false,
        }
    }

    /// Read-only view of the entry with this id, if any.
    pub fn get(&self, id: &Vec<u8>) -> (r: Option<&PeerEntry>)
        ensures
            match r {
                Some(e) => has_id(self@, id@) && e@ == self@[index_of_id(self@, id@)],
                None => !has_id(self@, id@),
            },
    {
        proof {
            lemma_index_of_id(self@, id@);
        }
        match self.find(id) {
            Some(i) => Some(&self.entries[i]),
            None => None,
        }
    }

    /// Merges one observation of a peer into the table: creates the entry if
    /// the id is unseen, else overwrites name and port, unions the addresses
    /// and advances `last_seen` to the later of the stored and observed time.
    pub fn upsert(
        &mut self,
        id: &Vec<u8>,
        name: &Vec<u8>,
        port: u16,
        addrs: &Vec<PeerAddr>,
        observed_at: u64,
    ) -> (r: UpsertOutcome)
        requires
            wf_registry(old(self)@),
            id@.len() == 16,
            forall|i: int| 0 <= i < addrs@.len() ==> valid_addr((#[trigger] addrs@[i])@),
        ensures
            final(self)@ == spec_upsert(
                old(self)@,
                id@,
                name@,
                port,
                addrs@.map_values(|x: PeerAddr| x@),
                observed_at,
            ),
            wf_registry(final(self)@),
            r == UpsertOutcome::Joined <==> !has_id(old(self)@, id@),
    {
        let ghost s = self@;
        let ghost addrs_v = addrs@.map_values(|x: PeerAddr| x@);
        assert(forall|i: int| 0 <= i < addrs_v.len() ==> valid_addr(#[trigger] addrs_v[i]));
        proof {
            lemma_index_of_id(s, id@);
            lemma_spec_upsert_wf(s, id@, name@, port, addrs_v, observed_at);
        }
        match self.find(id) {
            Some(i) => {
                let e = &self.entries[i];
                assert(e@ == s[i as int]);
                let merged_addrs = union_addrs_exec(&e.addresses, addrs);
                let last_seen: u64 = if e.last_seen >= observed_at {
                    e.last_seen
                } else {
                    observed_at
                };
                let merged = PeerEntry {
                    device_id: copy_bytes(id),
                    device_name: copy_bytes(name),
                    port,
                    addresses: merged_addrs,
                    first_seen: e.first_seen,
                    last_seen,
                };
                assert(merged@ =~= merged_entry(s[i as int], name@, port, addrs_v, observed_at));
                self.entries.set(i, merged);
                proof {
                    assert(self@ =~= s.update(
                        i as int,
                        merged_entry(s[i as int], name@, port, addrs_v, observed_at),
                    ));
                }
                UpsertOutcome::Updated
            },
            None => {
                let no_addrs: Vec<PeerAddr> = Vec::new();
                let fresh_addrs = union_addrs_exec(&no_addrs, addrs);
                assert(no_addrs@.map_values(|x: PeerAddr| x@) =~= Seq::<Seq<u8>>::empty());
                let fresh = PeerEntry {
                    device_id: copy_bytes(id),
                    device_name: copy_bytes(name),
                    port,
                    addresses: fresh_addrs,
                    first_seen: observed_at,
                    last_seen: observed_at,
                };
                assert(fresh@ =~= new_entry(id@, name@, port, addrs_v, observed_at));
                self.entries.push(fresh);
                proof {
                    assert(self@ =~= s.push(new_entry(id@, name@, port, addrs_v, observed_at)));
                }
                UpsertOutcome::Joined
            },
        }
    }
}

/// An entry is stale once its last observation lies more than the expiry
/// threshold before now.
pub open spec fn expired(e: EntryModel, now: u64, threshold: u64) -> bool {
    e.last_seen + threshold < now
}

/// The entries a sweep keeps, in their original order.
pub open spec fn spec_kept(s: Seq<EntryModel>, now: u64, threshold: u64) -> Seq<EntryModel> {
    s.filter(|e: EntryModel| !expired(e, now, threshold))
}

/// The ids a sweep evicts, in their original order.
pub open spec fn spec_expired_ids(s: Seq<EntryModel>, now: u64, threshold: u64) -> Seq<Seq<u8>> {
    s.filter(|e: EntryModel| expired(e, now, threshold)).map_values(
        |e: EntryModel| e.device_id,
    )
}

/// Filtering a well-formed registry keeps it well formed, and every kept
/// entry is an entry of the original table.
proof fn lemma_filter_wf(s: Seq<EntryModel>, pred: spec_fn(EntryModel) -> bool)
    requires
        wf_registry(s),
    ensures
        wf_registry(s.filter(pred)),
        forall|x: int|
            0 <= x < s.filter(pred).len() ==> exists|j: int|
                0 <= j < s.len() && #[trigger] s.filter(pred)[x] == s[j],
    decreases s.len(),
{
    reveal(Seq::filter);
    if s.len() > 0 {
        let d = s.drop_last();
        assert(wf_registry(d)) by {
            assert(forall|i: int| 0 <= i < d.len() ==> #[trigger] d[i] == s[i]);
        }
        lemma_filter_wf(d, pred);
        let f = d.filter(pred);
        assert(forall|i: int| 0 <= i < d.len() ==> #[trigger] d[i] == s[i]);
        if pred(s.last()) {
            let f2 = s.filter(pred);
            assert(f2 == f.push(s.last()));
            assert forall|x: int| 0 <= x < f2.len() implies exists|j: int|
                0 <= j < s.len() && #[trigger] f2[x] == s[j] by {
                if x < f.len() {
                    let j = choose|j: int| 0 <= j < d.len() && #[trigger] f[x] == d[j];
                    assert(f2[x] == s[j]);
                } else {
                    assert(f2[x] == s[s.len() - 1]);
                }
            }
            assert forall|x: int, y: int| 0 <= x < y < f2.len() implies f2[x].device_id
                != f2[y].device_id by {
                if y < f.len() {
                } else {
                    let j = choose|j: int| 0 <= j < d.len() && #[trigger] f[x] == d[j];
                    assert(s[j].device_id != s[s.len() - 1].device_id);
                }
            }
            assert(forall|x: int| 0 <= x < f2.len() ==> wf_entry(#[trigger] f2[x]));
        }
    }
}

/// Expiry boundary: a sweep at `now` evicts a registered peer exactly when
/// its `last_seen` lies more than `threshold` before `now`; a retained
/// peer's entry is kept unchanged.
pub proof fn lemma_sweep_boundary(s: Seq<EntryModel>, id: Seq<u8>, now: u64, threshold: u64)
    requires
        wf_registry(s),
        has_id(s, id),
    ensures
        expired(s[index_of_id(s, id)], now, threshold) ==> !has_id(
            spec_kept(s, now, threshold),
            id,
        ),
        !expired(s[index_of_id(s, id)], now, threshold) ==> {
            &&& has_id(spec_kept(s, now, threshold), id)
            &&& spec_kept(s, now, threshold)[index_of_id(spec_kept(s, now, threshold), id)]
                == s[index_of_id(s, id)]
        },
{
    let pred = |e: EntryModel| !expired(e, now, threshold);
    let kept = spec_kept(s, now, threshold);
    let i = index_of_id(s, id);
    lemma_index_of_id(s, id);
    lemma_filter_wf(s, pred);
    lemma_index_of_id(kept, id);
    let ik = index_of_id(kept, id);
    if expired(s[i], now, threshold) {
        if ik >= 0 {
            let j = choose|j: int| 0 <= j < s.len() && #[trigger] kept[ik] == s[j];
            assert(!expired(kept[ik], now, threshold)) by {
                Seq::lemma_filter_pred(s, pred, ik);
            }
            assert(j == i);
        }
    } else {
        assert(kept.contains(s[i])) by {
            Seq::lemma_filter_contains(s, pred, i);
        }
        let x = choose|x: int| 0 <= x < kept.len() && kept[x] == s[i];
        assert(kept[x].device_id == id);
        if ik == -1 {
            assert(kept[x].device_id != id);
        }
        assert(ik >= 0);
        let j = choose|j: int| 0 <= j < s.len() && #[trigger] kept[ik] == s[j];
        assert(kept[ik].device_id == id);
        assert(j == i);
    }
}

/// Registry idempotence: observing the very same data again advances
/// `last_seen` at most, and changes nothing else — no field, no order, and
/// not the peer count.
pub proof fn lemma_upsert_idempotent(
    s: Seq<EntryModel>,
    id: Seq<u8>,
    name: Seq<u8>,
    port: u16,
    addrs: Seq<Seq<u8>>,
    t1: u64,
    t2: u64,
)
    requires
        wf_registry(s),
        id.len() == 16,
        forall|i: int| 0 <= i < addrs.len() ==> valid_addr(#[trigger] addrs[i]),
    ensures
        ({
            let s1 = spec_upsert(s, id, name, port, addrs, t1);
            let s2 = spec_upsert(s1, id, name, port, addrs, t2);
            &&& s2.len() == s1.len()
            &&& forall|j: int|
                0 <= j < s1.len() ==> {
                    &&& (#[trigger] s2[j]).device_id == s1[j].device_id
                    &&& s2[j].device_name == s1[j].device_name
                    &&& s2[j].port == s1[j].port
                    &&& s2[j].addresses == s1[j].addresses
                    &&& s2[j].first_seen == s1[j].first_seen
                    &&& s2[j].last_seen == (if s1[j].device_id == id && s1[j].last_seen < t2 {
                        t2
                    } else {
                        s1[j].last_seen
                    })
                }
        }),
{
    let s1 = spec_upsert(s, id, name, port, addrs, t1);
    let s2 = spec_upsert(s1, id, name, port, addrs, t2);
    let i = index_of_id(s, id);
    lemma_index_of_id(s, id);
    lemma_spec_upsert_wf(s, id, name, port, addrs, t1);
    if i >= 0 {
        assert(s1[i].device_id == id);
        lemma_index_of_id_unique(s1, id, i);
        assert(wf_addrs(s[i].addresses));
        lemma_union_addrs_wf(s[i].addresses, addrs);
        lemma_union_addrs_absorbed(union_addrs(s[i].addresses, addrs), addrs);
        assert(s2[i].addresses == s1[i].addresses);
    } else {
        let n = s.len() as int;
        assert(s1[n].device_id == id);
        lemma_index_of_id_unique(s1, id, n);
        assert(wf_addrs(Seq::<Seq<u8>>::empty()));
        lemma_union_addrs_wf(Seq::empty(), addrs);
        lemma_union_addrs_absorbed(union_addrs(Seq::empty(), addrs), addrs);
        assert(s2[n].addresses == s1[n].addresses);
    }
}

/// An id absent from the table stays absent through any observation of a
/// different id.
pub proof fn lemma_upsert_preserves_absence(
    s: Seq<EntryModel>,
    id: Seq<u8>,
    name: Seq<u8>,
    port: u16,
    addrs: Seq<Seq<u8>>,
    observed_at: u64,
    other: Seq<u8>,
)
    requires
        !has_id(s, other),
        other != id,
    ensures
        !has_id(spec_upsert(s, id, name, port, addrs, observed_at), other),
{
    let up = spec_upsert(s, id, name, port, addrs, observed_at);
    let i = index_of_id(s, id);
    lemma_index_of_id(s, id);
    lemma_index_of_id(s, other);
    lemma_index_of_id(up, other);
    if has_id(up, other) {
        let r = index_of_id(up, other);
        assert(up[r].device_id == other);
        if i >= 0 {
            assert(up[r].device_id == s[r].device_id);
            assert(s[r].device_id != other);
        } else {
            if r < s.len() {
                assert(up[r] == s[r]);
                assert(s[r].device_id != other);
            } else {
                assert(up[r].device_id == id);
            }
        }
    }
}

/// An id absent from the table is still absent after any sweep.
pub proof fn lemma_sweep_preserves_absence(
    s: Seq<EntryModel>,
    id: Seq<u8>,
    now: u64,
    threshold: u64,
)
    requires
        wf_registry(s),
        !has_id(s, id),
    ensures
        !has_id(spec_kept(s, now, threshold), id),
{
    let pred = |e: EntryModel| !expired(e, now, threshold);
    let kept = spec_kept(s, now, threshold);
    lemma_filter_wf(s, pred);
    lemma_index_of_id(s, id);
    lemma_index_of_id(kept, id);
    if has_id(kept, id) {
        let ik = index_of_id(kept, id);
        let j = choose|j: int| 0 <= j < s.len() && #[trigger] kept[ik] == s[j];
        assert(s[j].device_id == id);
        assert(s[j].device_id != id);
    }
}

impl PeerRegistry {
    /// Evicts every stale entry and reports the evicted device ids, both
    /// judged against `now` and the expiry threshold; surviving entries
    /// keep their order and their state.
    pub fn remove_expired(&mut self, now: u64, threshold: u64) -> (r: Vec<Vec<u8>>)
        requires
            wf_registry(old(self)@),
        ensures
            final(self)@ == spec_kept(old(self)@, now, threshold),
            r@.map_values(|x: Vec<u8>| x@) == spec_expired_ids(old(self)@, now, threshold),
            wf_registry(final(self)@),
    {
        let ghost s = self@;
        let ghost keep_pred = |e: EntryModel| !expired(e, now, threshold);
        let ghost drop_pred = |e: EntryModel| expired(e, now, threshold);
        let mut kept: Vec<PeerEntry> = Vec::new();
        let mut removed: Vec<Vec<u8>> = Vec::new();
        let mut i: usize = 0;
        proof {
            reveal(Seq::filter);
            assert(kept@.map_values(|e: PeerEntry| e@) =~= s.take(0).filter(keep_pred));
            assert(removed@.map_values(|x: Vec<u8>| x@) =~= s.take(0).filter(
                drop_pred,
            ).map_values(|e: EntryModel| e.device_id));
        }
        while i < self.entries.len()
            invariant
                i <= self.entries.len(),
                s == self@,
                s.len() == self.entries@.len(),
                kept@.map_values(|e: PeerEntry| e@) == s.take(i as int).filter(keep_pred),
                removed@.map_values(|x: Vec<u8>| x@) == s.take(i as int).filter(
                    drop_pred,
                ).map_values(|e: EntryModel| e.device_id),
                keep_pred == (|e: EntryModel| !expired(e, now, threshold)),
                drop_pred == (|e: EntryModel| expired(e, now, threshold)),
            decreases self.entries.len() - i,
        {
            let e = &self.entries[i];
            assert(e@ == s[i as int]);
            let is_stale: bool = threshold < now && e.last_seen < now - threshold;
            assert(is_stale == expired(s[i as int], now, threshold));
            let ghost kept_prev = kept@.map_values(|e: PeerEntry| e@);
            let ghost removed_prev = removed@.map_values(|x: Vec<u8>| x@);
            if is_stale {
                let evicted_id = copy_bytes(&e.device_id);
                removed.push(evicted_id);
                proof {
                    assert(removed@.map_values(|x: Vec<u8>| x@) =~= removed_prev.push(
                        s[i as int].device_id,
                    ));
                }
            } else {
                let copy = e.duplicate();
                kept.push(copy);
                proof {
                    assert(kept@.map_values(|e: PeerEntry| e@) =~= kept_prev.push(s[i as int]));
                }
            }
            proof {
                reveal(Seq::filter);
                assert(s.take(i as int + 1).drop_last() =~= s.take(i as int));
                assert(s.take(i as int + 1).last() == s[i as int]);
                assert(s.take(i as int + 1).filter(keep_pred) == (if keep_pred(s[i as int]) {
                    s.take(i as int).filter(keep_pred).push(s[i as int])
                } else {
                    s.take(i as int).filter(keep_pred)
                }));
                assert(s.take(i as int + 1).filter(drop_pred) == (if drop_pred(s[i as int]) {
                    s.take(i as int).filter(drop_pred).push(s[i as int])
                } else {
                    s.take(i as int).filter(drop_pred)
                }));
                if drop_pred(s[i as int]) {
                    assert(s.take(i as int + 1).filter(drop_pred).map_values(
                        |e: EntryModel| e.device_id,
                    ) =~= s.take(i as int).filter(drop_pred).map_values(
                        |e: EntryModel| e.device_id,
                    ).push(s[i as int].device_id));
                }
            }
            i += 1;
        }
        proof {
            assert(s.take(s.len() as int) =~= s);
            lemma_filter_wf(s, keep_pred);
        }
        self.entries = kept;
        removed
    }

    /// An independent copy of the whole table, in insertion order.
    pub fn snapshot(&self) -> (r: Vec<PeerEntry>)
        ensures
            r@.map_values(|e: PeerEntry| e@) == self@,
    {
        let ghost s = self@;
        let mut r: Vec<PeerEntry> = Vec::new();
        let mut i: usize = 0;
        while i < self.entries.len()
            invariant
                i <= self.entries.len(),
                s == self@,
                s.len() == self.entries@.len(),
                r@.map_values(|e: PeerEntry| e@) == s.take(i as int),
            decreases self.entries.len() - i,
        {
            let ghost prev = r@.map_values(|e: PeerEntry| e@);
            let copy = self.entries[i].duplicate();
            r.push(copy);
            proof {
                assert(r@.map_values(|e: PeerEntry| e@) =~= prev.push(s[i as int]));
                assert(prev.push(s[i as int]) =~= s.take(i as int + 1));
            }
            i += 1;
        }
        proof {
            assert(s.take(s.len() as int) =~= s);
        }
        r
    }
}

} // verus!

