//! Putting together the messages that arrive in parts: the header part of
//! a message lists the hash of each later part; later parts are matched to
//! a pending message by their hash, and the message is read once all its
//! parts are in (see `SyncMessage::from_data`).

use vstd::prelude::*;
use crate::hashing::{hasher_total, hashes_to, read_u64_be, u64_of};
use crate::message::{
    body_bytes, chunk, decoded, is_part_count, lemma_message_type_roundtrip, lemma_parts_roundtrip, mt_bytes, mt_length,
    parse_mt, parts_of, parts_suffice, slot, SyncMessage, SyncMessageType,
};

verus! {

/// A message of which the header part has arrived: the hashes of its
/// later parts in order, the header part, and the later parts received.
#[derive(Debug)]
pub struct PendingMessage {
    pub hashes: Vec<u64>,
    pub header: Vec<u8>,
    pub received: Vec<Option<Vec<u8>>>,
}

/// The messages waiting for parts, in the order their headers arrived.
#[derive(Debug)]
pub struct PartialStore {
    pub pending: Vec<PendingMessage>,
}

/// The hashes a header part lists: `total` of them after its message type
/// (of `k` bytes), number and count.
pub open spec fn listed_hashes(p: Seq<u8>, k: int, total: int) -> Seq<u64> {
    Seq::new(total as nat, |i: int| u64_of(p.subrange(k + 2 + 8 * i, k + 2 + 8 * i + 8)))
}

/// Slot `j` of pending message `m` waits for a part of hash `h`.
pub open spec fn waits_for(m: PendingMessage, j: int, h: u64) -> bool {
    0 <= j < m.hashes@.len() && j < m.received@.len() && m.hashes@[j] == h && m.received@[j] is None
}

/// The first slot of `m`, from `j` on, that waits for a part of hash `h`.
pub open spec fn first_waiting(m: PendingMessage, h: u64, j: nat) -> Option<int>
    decreases m.hashes@.len() - j,
{
    if j >= m.hashes@.len() {
        None
    } else if waits_for(m, j as int, h) {
        Some(j as int)
    } else {
        first_waiting(m, h, j + 1)
    }
}

/// Where a part of hash `h` goes among the first `n` pending messages: the
/// latest one that waits for it, at its first slot that does.
pub open spec fn route(ps: Seq<PendingMessage>, h: u64, n: nat) -> Option<(int, int)>
    decreases n,
{
    if n == 0 {
        None
    } else {
        match first_waiting(ps[n - 1], h, 0) {
            Some(j) => Some(((n - 1) as int, j)),
            None => route(ps, h, (n - 1) as nat),
        }
    }
}

/// The parts of a pending message in order, where all have arrived.
pub open spec fn parts_in(header: Seq<u8>, received: Seq<Option<Vec<u8>>>) -> Seq<Seq<u8>> {
    seq![header] + Seq::new(received.len(), |j: int| received[j]->0@)
}

/// The message `r` is what `decoded` reads of `ps`, with its page hashed.
pub open spec fn read_as<H: Fn(&[u8]) -> u64>(ps: Seq<Seq<u8>>, sha: H, r: Option<SyncMessage>) -> bool {
    &&& r is Some <==> decoded(ps) is Some
    &&& r matches Some(m) ==> {
        let (t, pre, post, d) = decoded(ps)->0;
        &&& m.m_type == t
        &&& m.requirements.pre@ == pre
        &&& m.requirements.post@ == post
        &&& m.data.1@ == d
        &&& hashes_to(sha, d, m.data.0)
    }
}

/// What `process` does with `part`: the pending messages `o` become `f`
/// and `r` is returned (see `PartialStore::process`).
pub open spec fn process_outcome<H: Fn(&[u8]) -> u64>(
    o: Seq<PendingMessage>,
    f: Seq<PendingMessage>,
    part: Vec<u8>,
    sha: H,
    r: Option<SyncMessage>,
) -> bool {
    let p = part@;
    match parse_mt(p) {
        None => r is None && f == o,
        Some((_, k)) => if p.len() < k + 2 {
            r is None && f == o
        } else if p[k as int] == 0 {
            let total = p[k as int + 1] as int;
            if total == 0 {
                f == o && read_as(seq![p], sha, r)
            } else if p.len() < k + 2 + 8 * total || p.len() > 1024 {
                r is None && f == o
            } else {
                &&& r is None
                &&& f.len() == o.len() + 1
                &&& f.take(o.len() as int) == o
                &&& f.last().hashes@ == listed_hashes(p, k as int, total)
                &&& f.last().header@ == p
                &&& f.last().received@.len() == total
                &&& forall|j: int| 0 <= j < total ==> (#[trigger] f.last().received@[j]) is None
            }
        } else if p.len() > 1024 {
            r is None && f == o
        } else {
            exists|h: u64| #[trigger] hashes_to(sha, p, h) && match route(o, h, o.len()) {
                None => r is None && f == o,
                Some((i, j)) => {
                    let m = o[i];
                    let filled = m.received@.update(j, Some(part));
                    let done = forall|x: int| 0 <= x < filled.len() ==> (#[trigger] filled[x]) is Some;
                    &&& done ==> f == o.remove(i) && read_as(parts_in(m.header@, filled), sha, r)
                    &&& !done ==> r is None && f.len() == o.len() && (forall|x: int| 0 <= x < o.len() && x != i ==> f[x] == o[x])
                        && f[i].hashes == m.hashes && f[i].header == m.header && f[i].received@ == filled
                },
            }
        },
    }
}

/// Every pending message has a slot for each hash it lists.
pub open spec fn slots_match(ps: Seq<PendingMessage>) -> bool {
    forall|i: int| 0 <= i < ps.len() ==> (#[trigger] ps[i]).hashes@.len() == ps[i].received@.len()
}

impl PendingMessage {
    /// All later parts have arrived.
    pub open spec fn complete(self) -> bool {
        forall|j: int| 0 <= j < self.received@.len() ==> (#[trigger] self.received@[j]) is Some
    }
}

/// The slot `first_waiting` finds waits for the part.
proof fn lemma_first_waiting(m: PendingMessage, h: u64, j: nat)
    ensures
        first_waiting(m, h, j) matches Some(x) ==> waits_for(m, x, h),
    decreases m.hashes@.len() - j,
{
    if j < m.hashes@.len() && !waits_for(m, j as int, h) {
        lemma_first_waiting(m, h, j + 1);
    }
}

/// The first slot of `m` that waits for a part of hash `h`.
fn find_slot(m: &PendingMessage, h: u64) -> (r: Option<usize>)
    ensures
        r matches Some(j) ==> first_waiting(*m, h, 0) == Some(j as int),
        r is None ==> first_waiting(*m, h, 0) is None,
{
    let mut j: usize = 0;
    while j < m.hashes.len()
        invariant
            j <= m.hashes@.len(),
            first_waiting(*m, h, 0) == first_waiting(*m, h, j as nat),
        decreases m.hashes@.len() - j,
    {
        if j < m.received.len() && m.hashes[j] == h && m.received[j].is_none() {
            return Some(j);
        }
        j += 1;
    }
    None
}

/// Whether every later part of `m` has arrived.
fn all_received(m: &PendingMessage) -> (r: bool)
    ensures
        r == m.complete(),
{
    let mut j: usize = 0;
    while j < m.received.len()
        invariant
            j <= m.received@.len(),
            forall|i: int| 0 <= i < j ==> (#[trigger] m.received@[i]) is Some,
        decreases m.received@.len() - j,
    {
        if m.received[j].is_none() {
            return false;
        }
        j += 1;
    }
    true
}

impl PartialStore {
    pub fn new() -> (r: Self)
        ensures
            r.pending@.len() == 0,
    {
        PartialStore { pending: Vec::new() }
    }

    /// Takes in a part of a message, and gives back the message where this
    /// part completes it. A part starts with its message type, number and
    /// count; one that does not, or a header part longer than a page, or a
    /// later part longer than a page, is dropped. A header part of no later
    /// parts is read at once. A header part of later parts waits, with the
    /// hashes it lists, for them. A later part goes, by its hash, where
    /// `route` says (or is dropped where no message waits for it); once all
    /// parts of that message are in, it is read and no longer waits.
    pub fn process<H: Fn(&[u8]) -> u64>(&mut self, part: Vec<u8>, sha: &H) -> (r: Option<SyncMessage>)
        requires
            hasher_total(*sha),
            slots_match(old(self).pending@),
        ensures
            slots_match(final(self).pending@),
            process_outcome(old(self).pending@, final(self).pending@, part, *sha, r),
    {
        let k = match mt_length(&part) {
            Some(k) => k,
            None => {
                return None;
            },
        };
        if part.len() < k + 2 {
            return None;
        }
        let part_no = part[k];
        let total = part[k + 1] as usize;
        if part_no == 0 {
            if total == 0 {
                let parts = vec![part];
                assert(parts@.map_values(|v: Vec<u8>| v@) =~= seq![parts@[0]@]);
                return match SyncMessage::from_data(&parts, sha) {
                    Ok(m) => Some(m),
                    Err(_) => None,
                };
            }
            if part.len() < k + 2 + 8 * total || part.len() > 1024 {
                return None;
            }
            let mut hashes: Vec<u64> = Vec::new();
            let mut received: Vec<Option<Vec<u8>>> = Vec::new();
            let plen = part.len();
            let mut i: usize = 0;
            while i < total
                invariant
                    plen == part@.len(),
                    i <= total,
                    k + 2 + 8 * total <= part@.len(),
                    hashes@ == listed_hashes(part@, k as int, total as int).take(i as int),
                    received@.len() == i,
                    forall|j: int| 0 <= j < i ==> (#[trigger] received@[j]) is None,
                decreases total - i,
            {
                let h = read_u64_be(&part, k + 2 + 8 * i);
                hashes.push(h);
                received.push(None);
                assert(hashes@ =~= listed_hashes(part@, k as int, total as int).take(i + 1));
                i += 1;
            }
            assert(hashes@ =~= listed_hashes(part@, k as int, total as int));
            let ghost o = self.pending@;
            self.pending.push(PendingMessage { hashes, header: part, received });
            assert(self.pending@.take(o.len() as int) =~= o);
            return None;
        }
        if part.len() > 1024 {
            return None;
        }
        let s = part.as_slice();
        assert(call_requires(*sha, (s,)));
        let h = sha(s);
        assert(hashes_to(*sha, part@, h));
        let ghost o = self.pending@;
        let mut i: usize = self.pending.len();
        while i > 0
            invariant
                hasher_total(*sha),
                o == old(self).pending@,
                hashes_to(*sha, part@, h),
                match parse_mt(part@) {
                    Some((_, kk)) => kk == k && part@.len() >= k + 2 && part@[k as int] != 0 && part@.len() <= 1024,
                    None => false,
                },
                i <= self.pending@.len(),
                self.pending@ == o,
                forall|y: int| 0 <= y < o.len() ==> (#[trigger] o[y]).hashes@.len() == o[y].received@.len(),
                route(o, h, o.len()) == route(o, h, i as nat),
            decreases i,
        {
            match find_slot(&self.pending[i - 1], h) {
                None => {
                    i -= 1;
                },
                Some(j) => {
                    let idx = i - 1;
                    assert(route(o, h, o.len()) == Some((idx as int, j as int)));
                    proof {
                        lemma_first_waiting(o[idx as int], h, 0);
                    }
                    let mut m = self.pending.remove(idx);
                    let ghost filled = m.received@.update(j as int, Some(part));
                    m.received.set(j, Some(part));
                    assert(m.received@ == filled);
                    if all_received(&m) {
                        assert(self.pending@ =~= o.remove(idx as int));
                        let mut parts: Vec<Vec<u8>> = Vec::new();
                        parts.push(m.header);
                        let mut x: usize = 0;
                        while x < m.received.len()
                            invariant
                                hasher_total(*sha),
                                x <= m.received@.len(),
                                m.received@ == filled,
                                forall|y: int| 0 <= y < filled.len() ==> (#[trigger] filled[y]) is Some,
                                parts@.map_values(|v: Vec<u8>| v@) == parts_in(o[idx as int].header@, filled).take(x + 1),
                            decreases m.received@.len() - x,
                        {
                            let v = match &m.received[x] {
                                Some(v) => v.clone(),
                                None => Vec::new(),
                            };
                            assert(filled[x as int] is Some);
                            assert(v@ == filled[x as int]->0@);
                            let ghost before = parts@;
                            parts.push(v);
                            assert(parts@.map_values(|v: Vec<u8>| v@) =~= before.map_values(|v: Vec<u8>| v@).push(v@));
                            assert(parts_in(o[idx as int].header@, filled)[x + 1] == filled[x as int]->0@);
                            assert(parts@.map_values(|v: Vec<u8>| v@) =~= parts_in(o[idx as int].header@, filled).take(x + 2));
                            x += 1;
                        }
                        assert(parts@.map_values(|v: Vec<u8>| v@) =~= parts_in(o[idx as int].header@, filled));
                        return match SyncMessage::from_data(&parts, sha) {
                            Ok(msg) => Some(msg),
                            Err(_) => None,
                        };
                    }
                    self.pending.insert(idx, m);
                    assert(self.pending@ =~= o.update(idx as int, self.pending@[idx as int]));
                    return None;
                },
            }
        }
        None
    }
}

/// The later parts received of the pending messages, in the order of the
/// messages and of their slots.
pub open spec fn received_parts(ps: Seq<PendingMessage>) -> Seq<Seq<u8>>
    decreases ps.len(),
{
    if ps.len() == 0 {
        Seq::empty()
    } else {
        let r = ps.last().received@;
        received_parts(ps.drop_last()) + Seq::new(r.len(), |j: int| r[j]).filter(|o: Option<Vec<u8>>| o is Some).map_values(
            |o: Option<Vec<u8>>| o->0@,
        )
    }
}

impl PartialStore {
    /// The header parts of the pending messages, in order.
    pub fn headers(&self) -> (r: Vec<Vec<u8>>)
        ensures
            r@.len() == self.pending@.len(),
            forall|i: int| 0 <= i < r@.len() ==> (#[trigger] r@[i])@ == self.pending@[i].header@,
    {
        let mut out: Vec<Vec<u8>> = Vec::new();
        let mut i: usize = 0;
        while i < self.pending.len()
            invariant
                i <= self.pending@.len(),
                out@.len() == i,
                forall|k: int| 0 <= k < i ==> (#[trigger] out@[k])@ == self.pending@[k].header@,
            decreases self.pending@.len() - i,
        {
            out.push(self.pending[i].header.clone());
            i += 1;
        }
        out
    }

    /// The later parts received so far (see `received_parts`).
    pub fn received(&self) -> (r: Vec<Vec<u8>>)
        ensures
            r@.map_values(|v: Vec<u8>| v@) == received_parts(self.pending@),
    {
        let mut out: Vec<Vec<u8>> = Vec::new();
        let mut i: usize = 0;
        while i < self.pending.len()
            invariant
                i <= self.pending@.len(),
                out@.map_values(|v: Vec<u8>| v@) == received_parts(self.pending@.take(i as int)),
            decreases self.pending@.len() - i,
        {
            let rec = &self.pending[i].received;
            let ghost before = out@.map_values(|v: Vec<u8>| v@);
            let ghost sq = Seq::new(rec@.len(), |j: int| rec@[j]);
            let ghost pred = |o: Option<Vec<u8>>| o is Some;
            let mut j: usize = 0;
            while j < rec.len()
                invariant
                    j <= rec@.len(),
                    sq == Seq::new(rec@.len(), |x: int| rec@[x]),
                    pred == |o: Option<Vec<u8>>| o is Some,
                    out@.map_values(|v: Vec<u8>| v@) == before + sq.take(j as int).filter(pred).map_values(|o: Option<Vec<u8>>| o->0@),
                decreases rec@.len() - j,
            {
                reveal_with_fuel(Seq::<_>::filter, 1);
                assert(sq.take(j + 1).drop_last() =~= sq.take(j as int));
                match &rec[j] {
                    Some(v) => {
                        let ghost o2 = out@;
                        out.push(v.clone());
                        assert(out@.map_values(|v: Vec<u8>| v@) =~= o2.map_values(|v: Vec<u8>| v@).push(v@));
                        assert(sq.take(j + 1).filter(pred) =~= sq.take(j as int).filter(pred).push(rec@[j as int]));
                        assert(sq.take(j + 1).filter(pred).map_values(|o: Option<Vec<u8>>| o->0@) =~= sq.take(j as int).filter(pred).map_values(
                            |o: Option<Vec<u8>>| o->0@,
                        ).push(v@));
                    },
                    None => {
                        assert(sq.take(j + 1).filter(pred) =~= sq.take(j as int).filter(pred));
                    },
                }
                j += 1;
            }
            assert(sq.take(rec@.len() as int) =~= sq);
            assert(self.pending@.take(i + 1).drop_last() =~= self.pending@.take(i as int));
            i += 1;
        }
        assert(self.pending@.take(self.pending@.len() as int) =~= self.pending@);
        out
    }
}

/// The hasher gives every byte string one hash.
pub open spec fn hasher_deterministic<H: Fn(&[u8]) -> u64>(sha: H) -> bool {
    forall|b: Seq<u8>, h1: u64, h2: u64| #[trigger] hashes_to(sha, b, h1) && #[trigger] hashes_to(sha, b, h2) ==> h1 == h2
}

/// `pm` waits for the later parts of `parts`, of which those before part
/// `i` are in.
pub open spec fn waiting_from(pm: PendingMessage, hs: Seq<u64>, parts: Seq<Vec<u8>>, i: int) -> bool {
    &&& pm.header@ == parts[0]@
    &&& pm.hashes@ == hs
    &&& pm.received@.len() == hs.len()
    &&& forall|j: int| 0 <= j < hs.len() ==> (j < i - 1 ==> #[trigger] pm.received@[j] == Some(parts[j + 1])) && (j
        >= i - 1 ==> pm.received@[j] is None)
}

/// `r` holds what the message `m` carries.
pub open spec fn carries(r: SyncMessage, m: SyncMessage) -> bool {
    &&& r.m_type == m.m_type
    &&& r.requirements.pre@ == m.requirements.pre@
    &&& r.requirements.post@ == m.requirements.post@
    &&& r.data.1@ == m.data.1@
}

/// Feeding the later part `i` to a store that waits for it.
proof fn lemma_later_part_step<H: Fn(&[u8]) -> u64>(
    m: SyncMessage,
    sha: H,
    parts: Seq<Vec<u8>>,
    n: int,
    i: int,
    o: Seq<PendingMessage>,
    f: Seq<PendingMessage>,
    r: Option<SyncMessage>,
)
    requires
        hasher_deterministic(sha),
        m.m_type.canonical(),
        mt_bytes(m.m_type).len() <= 5,
        1 <= i <= n <= 111,
        parts.len() == n + 1,
        893 - 8 * n >= 0,
        parts[0]@.len() == mt_bytes(m.m_type).len() + 2 + 893,
        forall|x: int| 1 <= x <= n ==> {
            &&& (#[trigger] parts[x])@ == mt_bytes(m.m_type) + seq![x as u8, n as u8] + chunk(body_bytes(&m).skip(893 - 8 * n), x - 1)
            &&& hashes_to(sha, parts[x]@, u64_of(slot(parts[0]@, mt_bytes(m.m_type).len() as int + 2, x)))
        },
        o.len() == 1,
        waiting_from(o[0], listed_hashes(parts[0]@, mt_bytes(m.m_type).len() as int, n), parts, i),
        process_outcome(o, f, parts[i], sha, r),
    ensures
        i < n ==> r is None && f.len() == 1 && waiting_from(f[0], listed_hashes(parts[0]@, mt_bytes(m.m_type).len() as int, n), parts, i + 1),
        i == n ==> f.len() == 0 && read_as(parts_in(parts[0]@, o[0].received@.update(n - 1, Some(parts[n]))), sha, r),
{
    let t = m.m_type;
    let mt = mt_bytes(t);
    let k = mt.len() as int;
    let hs = listed_hashes(parts[0]@, k, n);
    let p = parts[i]@;
    let c = chunk(body_bytes(&m).skip(893 - 8 * n), i - 1);
    lemma_message_type_roundtrip(t, seq![i as u8, n as u8] + c);
    assert(p =~= mt + (seq![i as u8, n as u8] + c));
    assert(p[k] == i as u8);
    assert((i as u8) != 0u8);
    assert(c.len() <= 1017);
    let hv = u64_of(slot(parts[0]@, k + 2, i));
    assert(hs[i - 1] == hv) by {
        assert(parts[0]@.subrange(k + 2 + 8 * (i - 1), k + 2 + 8 * (i - 1) + 8) =~= slot(parts[0]@, k + 2, i));
    }
    let h = choose|h: u64| #[trigger] hashes_to(sha, p, h) && match route(o, h, o.len()) {
        None => r is None && f == o,
        Some((a, b)) => {
            let pm = o[a];
            let filled = pm.received@.update(b, Some(parts[i]));
            let done = forall|x: int| 0 <= x < filled.len() ==> (#[trigger] filled[x]) is Some;
            &&& done ==> f == o.remove(a) && read_as(parts_in(pm.header@, filled), sha, r)
            &&& !done ==> r is None && f.len() == o.len() && (forall|x: int| 0 <= x < o.len() && x != a ==> f[x] == o[x])
                && f[a].hashes == pm.hashes && f[a].header == pm.header && f[a].received@ == filled
        },
    };
    assert(hashes_to(sha, p, hv));
    assert(h == hv);
    let pm = o[0];
    assert forall|j: nat| j < i - 1 implies #[trigger] first_waiting(pm, h, j) == first_waiting(pm, h, j + 1) by {
        assert(pm.received@[j as int] == Some(parts[j as int + 1]));
    }
    assert(first_waiting(pm, h, (i - 1) as nat) == Some(i - 1));
    assert forall|j: nat| j <= i - 1 implies #[trigger] first_waiting(pm, h, j) == Some(i - 1) by {
        lemma_first_waiting_from(pm, h, j, (i - 1) as nat);
    }
    assert(route(o, h, 1) == Some((0int, i - 1)));
    let filled = pm.received@.update(i - 1, Some(parts[i]));
    if i < n {
        assert(filled[n - 1] is None);
        assert forall|j: int| 0 <= j < hs.len() implies (j < i ==> #[trigger] f[0].received@[j] == Some(parts[j + 1])) && (j
            >= i ==> f[0].received@[j] is None) by {
        }
    } else {
        assert forall|x: int| 0 <= x < filled.len() implies (#[trigger] filled[x]) is Some by {}
    }
}

/// The slots before `stop` are taken, so the search from any of them ends
/// at `stop`.
proof fn lemma_first_waiting_from(pm: PendingMessage, h: u64, j: nat, stop: nat)
    requires
        j <= stop,
        first_waiting(pm, h, stop) == Some(stop as int),
        forall|x: nat| x < stop ==> #[trigger] first_waiting(pm, h, x) == first_waiting(pm, h, x + 1),
    ensures
        first_waiting(pm, h, j) == Some(stop as int),
    decreases stop - j,
{
    if j < stop {
        lemma_first_waiting_from(pm, h, j + 1, stop);
    }
}

/// The later parts from `i` on, fed in order, leave nothing before the
/// last, which completes the message.
proof fn lemma_later_parts<H: Fn(&[u8]) -> u64>(
    m: SyncMessage,
    sha: H,
    parts: Seq<Vec<u8>>,
    states: Seq<Seq<PendingMessage>>,
    results: Seq<Option<SyncMessage>>,
    n: int,
    i: int,
)
    requires
        hasher_deterministic(sha),
        m.m_type.canonical(),
        mt_bytes(m.m_type).len() <= 5,
        1 <= i <= n <= 111,
        parts.len() == n + 1,
        893 - 8 * n >= 0,
        parts[0]@.len() == mt_bytes(m.m_type).len() + 2 + 893,
        forall|x: int| 1 <= x <= n ==> {
            &&& (#[trigger] parts[x])@ == mt_bytes(m.m_type) + seq![x as u8, n as u8] + chunk(body_bytes(&m).skip(893 - 8 * n), x - 1)
            &&& hashes_to(sha, parts[x]@, u64_of(slot(parts[0]@, mt_bytes(m.m_type).len() as int + 2, x)))
        },
        states.len() == parts.len() + 1,
        results.len() == parts.len(),
        forall|x: int| 0 <= x < parts.len() ==> process_outcome(#[trigger] states[x], states[x + 1], parts[x], sha, results[x]),
        states[i].len() == 1,
        waiting_from(states[i][0], listed_hashes(parts[0]@, mt_bytes(m.m_type).len() as int, n), parts, i),
    ensures
        forall|x: int| i <= x < n ==> #[trigger] results[x] is None,
        states[n + 1].len() == 0,
        read_as(parts.map_values(|v: Vec<u8>| v@), sha, results[n]),
    decreases n - i,
{
    let hs = listed_hashes(parts[0]@, mt_bytes(m.m_type).len() as int, n);
    assert(process_outcome(states[i], states[i + 1], parts[i], sha, results[i]));
    lemma_later_part_step(m, sha, parts, n, i, states[i], states[i + 1], results[i]);
    if i < n {
        lemma_later_parts(m, sha, parts, states, results, n, i + 1);
    } else {
        let filled = states[i][0].received@.update(n - 1, Some(parts[n]));
        assert(parts_in(parts[0]@, filled) =~= parts.map_values(|v: Vec<u8>| v@)) by {
            assert forall|j: int| 0 <= j < n implies #[trigger] filled[j] == Some(parts[j + 1]) by {}
        }
    }
}

/// The header part of a message of `n` later parts starts a pending
/// message.
proof fn lemma_header_step<H: Fn(&[u8]) -> u64>(
    t: SyncMessageType,
    sha: H,
    parts: Seq<Vec<u8>>,
    n: int,
    o: Seq<PendingMessage>,
    f: Seq<PendingMessage>,
    r: Option<SyncMessage>,
)
    requires
        t.canonical(),
        mt_bytes(t).len() <= 5,
        1 <= n <= 111,
        parts.len() == n + 1,
        parts[0]@.len() == mt_bytes(t).len() + 2 + 893,
        parts[0]@.take(mt_bytes(t).len() as int + 2) == mt_bytes(t) + seq![0u8, n as u8],
        o.len() == 0,
        process_outcome(o, f, parts[0], sha, r),
    ensures
        r is None,
        f.len() == 1,
        waiting_from(f[0], listed_hashes(parts[0]@, mt_bytes(t).len() as int, n), parts, 1),
{
    let mt = mt_bytes(t);
    let k = mt.len() as int;
    let p0 = parts[0]@;
    assert(p0 =~= mt + (seq![0u8, n as u8] + p0.skip(k + 2))) by {
        assert(p0 =~= p0.take(k + 2) + p0.skip(k + 2));
    }
    lemma_message_type_roundtrip(t, seq![0u8, n as u8] + p0.skip(k + 2));
    assert(p0[k] == 0u8);
    assert(p0[k + 1] == n as u8);
    assert((n as u8) as int == n);
    assert(f.last() == f[0]);
}

/// A message of one part is read at once.
proof fn lemma_single_step<H: Fn(&[u8]) -> u64>(
    m: SyncMessage,
    sha: H,
    parts: Seq<Vec<u8>>,
    o: Seq<PendingMessage>,
    f: Seq<PendingMessage>,
    r: Option<SyncMessage>,
)
    requires
        m.m_type.canonical(),
        parts.len() == 1,
        parts[0]@ == mt_bytes(m.m_type) + seq![0u8, 0u8] + body_bytes(&m),
        process_outcome(o, f, parts[0], sha, r),
    ensures
        f == o,
        read_as(parts.map_values(|v: Vec<u8>| v@), sha, r),
{
    let t = m.m_type;
    let mt = mt_bytes(t);
    let k = mt.len() as int;
    let body = body_bytes(&m);
    lemma_message_type_roundtrip(t, seq![0u8, 0u8] + body);
    assert(parts[0]@ =~= mt + (seq![0u8, 0u8] + body));
    assert(parts[0]@[k] == 0u8);
    assert(parts[0]@[k + 1] == 0u8);
    assert(seq![parts[0]@] =~= parts.map_values(|v: Vec<u8>| v@));
}

/// What `into_parts` makes of a message, fed part by part to `process`
/// from a store that waits for nothing (header part first, then the later
/// parts in order), gives back nothing until the last part and the message
/// at the last part, and leaves nothing waiting: its type, requirements
/// and page bytes. This holds for a hasher that gives each byte string one
/// hash, a message type of at most five bytes (a later part of a longer one
/// exceeds a page and is dropped), and the messages that `into_parts` and
/// `from_data` carry whole (see `lemma_parts_roundtrip`).
#[verifier::rlimit(40)]
pub proof fn lemma_process_reassembles<H: Fn(&[u8]) -> u64>(
    m: SyncMessage,
    sha: H,
    parts: Seq<Vec<u8>>,
    states: Seq<Seq<PendingMessage>>,
    results: Seq<Option<SyncMessage>>,
)
    requires
        hasher_deterministic(sha),
        parts_of(m, sha, parts),
        m.m_type.canonical(),
        mt_bytes(m.m_type).len() <= 5,
        m.requirements.pre@.len() < 256,
        m.requirements.post@.len() < 256,
        m.data.1@.len() <= 1024,
        m.netto() >= 893 ==> forall|n: int| #[trigger] is_part_count(m.netto(), n) ==> m.netto() - (893 - 8 * n) <= 1017 * n,
        m.netto() <= 893 + 1013 * 111,
        states.len() == parts.len() + 1,
        results.len() == parts.len(),
        states[0].len() == 0,
        forall|i: int| 0 <= i < parts.len() ==> process_outcome(#[trigger] states[i], states[i + 1], parts[i], sha, results[i]),
    ensures
        forall|i: int| 0 <= i < parts.len() - 1 ==> #[trigger] results[i] is None,
        results.last() matches Some(r) && carries(r, m),
        states.last().len() == 0,
{
    lemma_parts_roundtrip(m, sha, parts);
    let mt = mt_bytes(m.m_type);
    let body = body_bytes(&m);
    assert(process_outcome(states[0], states[1], parts[0], sha, results[0]));
    if m.netto() < 893 {
        lemma_single_step(m, sha, parts, states[0], states[1], results[0]);
    } else {
        let n = choose|n: int| {
            &&& #[trigger] is_part_count(m.netto(), n)
            &&& parts.len() == n + 1
            &&& parts[0]@.len() == mt.len() + 2 + 8 * n + (893 - 8 * n)
            &&& parts[0]@.take(mt.len() as int + 2) == mt + seq![0u8, n as u8]
            &&& parts[0]@.skip(mt.len() + 2 + 8 * n) == body.take(893 - 8 * n)
            &&& forall|i: int| 1 <= i <= n ==> {
                &&& (#[trigger] parts[i])@ == mt + seq![i as u8, n as u8] + chunk(body.skip(893 - 8 * n), i - 1)
                &&& hashes_to(sha, parts[i]@, u64_of(slot(parts[0]@, mt.len() as int + 2, i)))
            }
        };
        assert(parts_suffice(m.netto(), 111));
        assert(n <= 111);
        lemma_header_step(m.m_type, sha, parts, n, states[0], states[1], results[0]);
        lemma_later_parts(m, sha, parts, states, results, n, 1);
    }
}

} // verus!
