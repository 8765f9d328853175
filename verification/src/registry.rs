//! The change registry: the ids of the contents changed most recently,
//! newest first, kept outside the datastore so that a neighbour can be told
//! at once what changed.

use vstd::prelude::*;
use crate::content::ContentID;

verus! {

/// One hundred slots of content ids. The listing runs from the first slot
/// up to the first slot that repeats the one before it.
#[derive(Debug)]
pub struct ChangeRegistry(pub [ContentID; 100]);

/// Slot `i` stops the shifting of an insertion of `x`: the slot before it
/// holds `x` or the same id as slot `i`.
pub open spec fn blocks(a: Seq<u16>, x: u16, i: int) -> bool {
    a[i - 1] == x || a[i - 1] == a[i]
}

/// Slot `i` repeats the slot before it.
pub open spec fn repeats(a: Seq<u16>, i: int) -> bool {
    a[i - 1] == a[i]
}

/// The first slot `j` (from 1) where inserting `x` stops shifting: the slot
/// before it holds `x` or the same id as slot `j`; 100 when there is none.
pub open spec fn insert_stop(a: Seq<u16>, x: u16) -> int
    decreases 100 - 1,
{
    stop_from(a, x, 1)
}

/// The first slot from `j` on where inserting `x` stops shifting.
pub open spec fn stop_from(a: Seq<u16>, x: u16, j: int) -> int
    decreases 100 - j,
{
    if j >= 100 {
        100
    } else if a[j - 1] == x || a[j - 1] == a[j] {
        j
    } else {
        stop_from(a, x, j + 1)
    }
}

/// The slots after inserting `x`: `x` first, then the ids before the stop
/// shifted one slot on; the slots from the stop on are kept.
pub open spec fn reg_insert(a: Seq<u16>, x: u16) -> Seq<u16> {
    let k = insert_stop(a, x);
    Seq::new(100, |j: int| if j == 0 { x } else if j < k { a[j - 1] } else { a[j] })
}

/// The first slot `j` (from `from`) that repeats the slot before it; 100
/// when there is none.
pub open spec fn repeat_from(a: Seq<u16>, j: int) -> int
    decreases 100 - j,
{
    if j >= 100 {
        100
    } else if a[j - 1] == a[j] {
        j
    } else {
        repeat_from(a, j + 1)
    }
}

/// The listing of the registry's slots.
pub open spec fn reg_read(a: Seq<u16>) -> Seq<u16> {
    a.take(repeat_from(a, 1))
}

proof fn lemma_stop_from(a: Seq<u16>, x: u16, j: int)
    requires
        1 <= j <= 100,
    ensures
        j <= stop_from(a, x, j) <= 100,
        stop_from(a, x, j) < 100 ==> (a[stop_from(a, x, j) - 1] == x || a[stop_from(a, x, j) - 1] == a[stop_from(
            a,
            x,
            j,
        )]),
        forall|i: int| j <= i < stop_from(a, x, j) ==> !#[trigger] blocks(a, x, i),
    decreases 100 - j,
{
    if j < 100 && !(a[j - 1] == x || a[j - 1] == a[j]) {
        lemma_stop_from(a, x, j + 1);
        assert(stop_from(a, x, j) == stop_from(a, x, j + 1));
        assert forall|i: int| j <= i < stop_from(a, x, j) implies !#[trigger] blocks(a, x, i) by {
            if i > j {
            }
        }
    }
}

proof fn lemma_repeat_from(a: Seq<u16>, j: int)
    requires
        1 <= j <= 100,
    ensures
        j <= repeat_from(a, j) <= 100,
        repeat_from(a, j) < 100 ==> a[repeat_from(a, j) - 1] == a[repeat_from(a, j)],
        forall|i: int| j <= i < repeat_from(a, j) ==> !#[trigger] repeats(a, i),
    decreases 100 - j,
{
    if j < 100 && a[j - 1] != a[j] {
        lemma_repeat_from(a, j + 1);
        assert(repeat_from(a, j) == repeat_from(a, j + 1));
        assert forall|i: int| j <= i < repeat_from(a, j) implies !#[trigger] repeats(a, i) by {
            if i > j {
            }
        }
    }
}

/// The first slot from `j` on that repeats the one before: it is `m` when
/// no slot from `j` up to `m` does and `m` does (or `m` is 100).
proof fn lemma_repeat_at(a: Seq<u16>, j: int, m: int)
    requires
        1 <= j <= m <= 100,
        forall|i: int| j <= i < m ==> !#[trigger] repeats(a, i),
        m < 100 ==> a[m - 1] == a[m],
    ensures
        repeat_from(a, j) == m,
    decreases 100 - j,
{
    if j < m {
        assert(!repeats(a, j));
        lemma_repeat_at(a, j + 1, m);
    } else if m < 100 {
        assert(repeats(a, m));
    }
}

impl ChangeRegistry {
    pub fn new() -> (r: Self)
        ensures
            r.0@ == Seq::new(100, |i: int| 0u16),
    {
        let r = ChangeRegistry([0;100]);
        assert(r.0@ =~= Seq::new(100, |i: int| 0u16));
        r
    }

    /// Records that content `content_id` changed: it goes first and the ids
    /// before its old place (or before the end of the listing) move one
    /// slot on.
    pub fn insert(&mut self, content_id: ContentID)
        ensures
            final(self).0@ == reg_insert(old(self).0@, content_id),
    {
        let ghost a = self.0@;
        let ghost k = insert_stop(a, content_id);
        proof {
            lemma_stop_from(a, content_id, 1);
        }
        let mut prev = self.0[0];
        self.0[0] = content_id;
        let mut j: usize = 1;
        while j < 100
            invariant_except_break
                1 <= j <= 100,
                j <= k,
                prev == a[j - 1],
            invariant
                a.len() == 100,
                self.0@.len() == 100,
                k == stop_from(a, content_id, 1),
                1 <= k <= 100,
                k < 100 ==> (a[k - 1] == content_id || a[k - 1] == a[k]),
                forall|i: int| 1 <= i < k ==> !#[trigger] blocks(a, content_id, i),
                self.0@[0] == content_id,
                forall|i: int| 1 <= i < j && i < k ==> #[trigger] self.0@[i] == a[i - 1],
                forall|i: int| j <= i < 100 ==> #[trigger] self.0@[i] == a[i],
            ensures
                self.0@ == reg_insert(a, content_id),
            decreases 100 - j,
        {
            let curr = self.0[j];
            if prev == content_id || prev == curr {
                proof {
                    assert(blocks(a, content_id, j as int));
                    assert(j == k);
                    assert(self.0@ =~= reg_insert(a, content_id));
                }
                break;
            }
            self.0[j] = prev;
            prev = curr;
            j += 1;
        }
        proof {
            assert(self.0@ =~= reg_insert(a, content_id));
        }
    }

    /// The listed ids, newest first.
    pub fn read(&self) -> (r: Vec<ContentID>)
        ensures
            r@ == reg_read(self.0@),
    {
        let ghost a = self.0@;
        proof {
            lemma_repeat_from(a, 1);
        }
        let mut result: Vec<ContentID> = Vec::new();
        let mut prev = self.0[0];
        result.push(prev);
        let mut j: usize = 1;
        while j < 100
            invariant_except_break
                1 <= j <= repeat_from(a, 1),
                result@ == a.take(j as int),
                prev == a[j - 1],
            invariant
                a == self.0@,
                a.len() == 100,
                1 <= repeat_from(a, 1) <= 100,
                repeat_from(a, 1) < 100 ==> a[repeat_from(a, 1) - 1] == a[repeat_from(a, 1)],
                forall|i: int| 1 <= i < repeat_from(a, 1) ==> !#[trigger] repeats(a, i),
            ensures
                result@ == reg_read(a),
            decreases 100 - j,
        {
            let curr = self.0[j];
            if prev == curr {
                assert(repeats(a, j as int));
                break;
            }
            result.push(curr);
            assert(a.take(j + 1) =~= a.take(j as int).push(curr));
            prev = curr;
            j += 1;
        }
        result
    }
}

/// The slots after the listing repeat its last id.
pub open spec fn tail_repeats(a: Seq<u16>) -> bool {
    let m = repeat_from(a, 1);
    forall|j: int| m <= j < 100 ==> #[trigger] a[j] == a[m - 1]
}

/// A registry as `new` and `insert` keep it: a hundred slots, a listing
/// that holds no id twice, and the slots after the listing repeating its
/// last id.
pub open spec fn reg_wf(a: Seq<u16>) -> bool {
    &&& a.len() == 100
    &&& reg_read(a).no_duplicates()
    &&& tail_repeats(a)
}

/// A new registry is well formed, and lists a single 0.
pub proof fn lemma_new_wf()
    ensures
        reg_wf(Seq::new(100, |i: int| 0u16)),
        reg_read(Seq::new(100, |i: int| 0u16)) == seq![0u16],
{
    let a = Seq::new(100, |i: int| 0u16);
    lemma_repeat_at(a, 1, 1);
    assert(reg_read(a) =~= seq![0u16]);
}

/// Inserting an id into a well-formed registry lists it first, followed by
/// the ids listed before in their order: without it, when it was listed;
/// otherwise all of them, the oldest dropped when all hundred slots were in
/// use. The registry stays well formed. This holds unless the id is the last
/// one listed while slots are left (that id is then listed twice).
#[verifier::spinoff_prover]
#[verifier::rlimit(60)]
pub proof fn lemma_insert_read(a: Seq<u16>, x: u16)
    requires
        reg_wf(a),
        !(repeat_from(a, 1) < 100 && a[repeat_from(a, 1) - 1] == x),
    ensures
        reg_wf(reg_insert(a, x)),
        reg_read(a).contains(x) ==> reg_read(reg_insert(a, x)) == seq![x] + reg_read(a).remove(
            reg_read(a).index_of(x),
        ),
        !reg_read(a).contains(x) ==> reg_read(reg_insert(a, x)) == if reg_read(a).len() < 100 {
            seq![x] + reg_read(a)
        } else {
            seq![x] + reg_read(a).take(99)
        },
{
    let m = repeat_from(a, 1);
    let k = insert_stop(a, x);
    let pl = reg_read(a);
    let b = reg_insert(a, x);
    lemma_repeat_from(a, 1);
    lemma_stop_from(a, x, 1);
    assert(pl.len() == m);
    if pl.contains(x) {
        let p = pl.index_of(x);
        assert(a[p] == x);
        assert forall|i: int| 1 <= i <= p implies #[trigger] a[i - 1] != x by {
            assert(pl[i - 1] != pl[p]);
        }
        if k <= p {
            assert(blocks(a, x, k));
            assert(a[k - 1] != x);
            assert(!repeats(a, k));
        }
        if k > p + 1 {
            assert(blocks(a, x, p + 1));
        }
        assert(k == p + 1);
        let e = seq![x] + pl.remove(p);
        assert(e.len() == m);
        if m == 100 && p == 99 {
            assert forall|i: int| 1 <= i < 100 implies !#[trigger] repeats(b, i) by {
                if i == 1 {
                    assert(b[0] == x && b[1] == a[0]);
                    assert(pl[0] != pl[99]);
                } else {
                    assert(b[i - 1] == a[i - 2] && b[i] == a[i - 1]);
                    assert(!repeats(a, i - 1));
                }
            }
            lemma_repeat_at(b, 1, 100);
            assert(reg_read(b) =~= e);
        } else {
            assert(p < m - 1);
            assert forall|i: int| 1 <= i < m implies !#[trigger] repeats(b, i) by {
                if i == 1 {
                    if p == 0 {
                        assert(b[1] == a[1]);
                        assert(!repeats(a, 1));
                    } else {
                        assert(b[1] == a[0]);
                        assert(pl[0] != pl[p]);
                    }
                } else if i <= p {
                    assert(b[i - 1] == a[i - 2] && b[i] == a[i - 1]);
                    assert(!repeats(a, i - 1));
                } else if i == p + 1 {
                    assert(b[p] == a[p - 1] && b[p + 1] == a[p + 1]);
                    assert(pl[p - 1] != pl[p + 1]);
                } else {
                    assert(b[i - 1] == a[i - 1] && b[i] == a[i]);
                    assert(!repeats(a, i));
                }
            }
            if m < 100 {
                assert(b[m - 1] == a[m - 1] && b[m] == a[m]);
            }
            lemma_repeat_at(b, 1, m);
            assert(reg_read(b) =~= e);
            assert forall|j: int| m <= j < 100 implies #[trigger] b[j] == b[m - 1] by {
                assert(b[j] == a[j]);
            }
        }
        assert(e.no_duplicates()) by {
            assert forall|i: int, j: int| 0 <= i < j < e.len() implies e[i] != e[j] by {
                if i == 0 {
                    if j - 1 < p {
                        assert(pl[j - 1] != pl[p]);
                    } else {
                        assert(pl[j] != pl[p]);
                    }
                } else {
                    let ii = if i - 1 < p { i - 1 } else { i };
                    let jj = if j - 1 < p { j - 1 } else { j };
                    assert(e[i] == pl[ii] && e[j] == pl[jj]);
                    assert(pl[ii] != pl[jj]);
                }
            }
        }
    } else {
        assert forall|i: int| 1 <= i < m implies #[trigger] a[i - 1] != x by {
            assert(pl.contains(pl[i - 1]));
        }
        if k < m {
            assert(blocks(a, x, k));
            assert(!repeats(a, k));
            assert(a[k - 1] != x);
        }
        if k > m {
            assert(repeats(a, m));
            assert(blocks(a, x, m));
        }
        assert(k == m);
        let e = if m < 100 { seq![x] + pl } else { seq![x] + pl.take(99) };
        if m == 100 {
            assert forall|i: int| 1 <= i < 100 implies !#[trigger] repeats(b, i) by {
                if i == 1 {
                    assert(b[1] == a[0]);
                    assert(pl.contains(pl[0]));
                } else {
                    assert(b[i - 1] == a[i - 2] && b[i] == a[i - 1]);
                    assert(!repeats(a, i - 1));
                }
            }
            lemma_repeat_at(b, 1, 100);
            assert(reg_read(b) =~= e);
        } else {
            let m2 = m + 1;
            assert(repeats(a, m));
            assert forall|i: int| 1 <= i < m2 implies !#[trigger] repeats(b, i) by {
                if i == 1 {
                    if m == 1 {
                        assert(b[1] == a[1] && a[1] == a[0]);
                        assert(pl.contains(pl[0]));
                    } else {
                        assert(b[1] == a[0]);
                        assert(pl.contains(pl[0]));
                    }
                } else if i < m {
                    assert(b[i - 1] == a[i - 2] && b[i] == a[i - 1]);
                    assert(!repeats(a, i - 1));
                } else {
                    assert(b[m - 1] == a[m - 2] && b[m] == a[m] && a[m] == a[m - 1]);
                    assert(!repeats(a, m - 1));
                }
            }
            if m2 < 100 {
                assert(b[m2 - 1] == a[m] && b[m2] == a[m + 1]);
                assert(a[m] == a[m - 1] && a[m + 1] == a[m - 1]);
            }
            lemma_repeat_at(b, 1, m2);
            assert(reg_read(b) =~= e) by {
                assert(e.len() == m2);
                assert(reg_read(b).len() == m2);
                assert forall|i: int| 0 <= i < m2 implies reg_read(b)[i] == e[i] by {
                    assert(reg_read(b)[i] == b[i]);
                    if i == 0 {
                    } else if i < m {
                        assert(b[i] == a[i - 1] && e[i] == pl[i - 1]);
                    } else {
                        assert(b[m] == a[m] && a[m] == a[m - 1] && e[m] == pl[m - 1]);
                    }
                }
            }
            assert forall|j: int| m2 <= j < 100 implies #[trigger] b[j] == b[m2 - 1] by {
                assert(b[j] == a[j] && a[j] == a[m - 1]);
                assert(b[m2 - 1] == a[m]);
            }
        }
        assert(e.no_duplicates()) by {
            assert forall|i: int, j: int| 0 <= i < j < e.len() implies e[i] != e[j] by {
                if i == 0 {
                    assert(pl.contains(pl[j - 1]));
                } else {
                    assert(pl[i - 1] != pl[j - 1]);
                }
            }
        }
    }
}


/// The ids of `xs`, each once, the one that occurs last first: an id goes
/// to the front each time it occurs.
pub open spec fn recent_first(xs: Seq<u16>) -> Seq<u16>
    decreases xs.len(),
{
    if xs.len() == 0 {
        Seq::empty()
    } else {
        let r = recent_first(xs.drop_last());
        let x = xs.last();
        seq![x] + if r.contains(x) {
            r.remove(r.index_of(x))
        } else {
            r
        }
    }
}

/// The slots after inserting the ids `xs` in turn into the slots `a`.
pub open spec fn reg_inserts(a: Seq<u16>, xs: Seq<u16>) -> Seq<u16>
    decreases xs.len(),
{
    if xs.len() == 0 {
        a
    } else {
        reg_insert(reg_inserts(a, xs.drop_last()), xs.last())
    }
}

proof fn lemma_remove_at(r: Seq<u16>, i: int)
    requires
        r.no_duplicates(),
        0 <= i < r.len(),
    ensures
        r.remove(i).len() == r.len() - 1,
        r.remove(i).no_duplicates(),
        forall|k: int| 0 <= k < i ==> #[trigger] r.remove(i)[k] == r[k],
        forall|k: int| i <= k < r.len() - 1 ==> #[trigger] r.remove(i)[k] == r[k + 1],
        forall|y: u16| #[trigger] r.remove(i).contains(y) <==> (r.contains(y) && y != r[i]),
{
    let q = r.remove(i);
    assert forall|k: int| 0 <= k < i implies #[trigger] q[k] == r[k] by {}
    assert forall|k: int| i <= k < r.len() - 1 implies #[trigger] q[k] == r[k + 1] by {}
    assert forall|a: int, b: int| 0 <= a < b < q.len() implies q[a] != q[b] by {
        let ra = if a < i { a } else { a + 1 };
        let rb = if b < i { b } else { b + 1 };
        assert(q[a] == r[ra] && q[b] == r[rb]);
    }
    assert forall|y: u16| #[trigger] q.contains(y) <==> (r.contains(y) && y != r[i]) by {
        if q.contains(y) {
            let a = choose|a: int| 0 <= a < q.len() && q[a] == y;
            let ra = if a < i { a } else { a + 1 };
            assert(r[ra] == y);
        }
        if r.contains(y) && y != r[i] {
            let a = choose|a: int| 0 <= a < r.len() && r[a] == y;
            if a < i {
                assert(q[a] == y);
            } else {
                assert(q[a - 1] == y);
            }
        }
    }
}

/// The ids listed most recent first hold each id of `xs` once.
proof fn lemma_recent_first(xs: Seq<u16>)
    ensures
        recent_first(xs).no_duplicates(),
        forall|y: u16| #[trigger] recent_first(xs).contains(y) <==> xs.contains(y),
    decreases xs.len(),
{
    if xs.len() > 0 {
        let t = xs.drop_last();
        let x = xs.last();
        let r = recent_first(t);
        lemma_recent_first(t);
        let q = if r.contains(x) { r.remove(r.index_of(x)) } else { r };
        if r.contains(x) {
            lemma_remove_at(r, r.index_of(x));
        }
        let f = recent_first(xs);
        assert(f == seq![x] + q);
        assert forall|a: int, b: int| 0 <= a < b < f.len() implies f[a] != f[b] by {
            if a == 0 {
                assert(f[b] == q[b - 1]);
                assert(q.contains(q[b - 1]));
            } else {
                assert(f[a] == q[a - 1] && f[b] == q[b - 1]);
            }
        }
        assert forall|y: u16| #[trigger] f.contains(y) <==> xs.contains(y) by {
            if f.contains(y) {
                let a = choose|a: int| 0 <= a < f.len() && f[a] == y;
                if a == 0 {
                    assert(xs[xs.len() - 1] == y);
                } else {
                    assert(q.contains(f[a]));
                    assert(t.contains(y));
                    let b = choose|b: int| 0 <= b < t.len() && t[b] == y;
                    assert(xs[b] == y);
                }
            }
            if xs.contains(y) {
                let a = choose|a: int| 0 <= a < xs.len() && xs[a] == y;
                if y == x {
                    assert(f[0] == y);
                } else {
                    assert(t[a] == y);
                    assert(t.contains(y));
                    assert(q.contains(y));
                    let b = choose|b: int| 0 <= b < q.len() && q[b] == y;
                    assert(f[b + 1] == y);
                }
            }
        }
    }
}

/// When the first id of `s` does not occur again, it is listed last.
proof fn lemma_recent_last(s: Seq<u16>)
    requires
        s.len() > 0,
        forall|k: int| 1 <= k < s.len() ==> #[trigger] s[k] != s[0],
    ensures
        recent_first(s).len() > 0,
        recent_first(s).last() == s[0],
    decreases s.len(),
{
    if s.len() == 1 {
        assert(s.drop_last() =~= Seq::<u16>::empty());
        assert(recent_first(s.drop_last()) == Seq::<u16>::empty());
        assert(s.last() == s[0]);
        assert(recent_first(s) =~= seq![s[0]]);
    } else {
        let t = s.drop_last();
        let x = s.last();
        assert forall|k: int| 1 <= k < t.len() implies #[trigger] t[k] != t[0] by {
            assert(t[k] == s[k]);
        }
        lemma_recent_last(t);
        lemma_recent_first(t);
        let r = recent_first(t);
        assert(x != s[0]);
        if r.contains(x) {
            let i = r.index_of(x);
            lemma_remove_at(r, i);
            assert(i != r.len() - 1);
            assert(r.remove(i).last() == r.last());
        }
    }
}

/// The first hundred of `s` (all of them when there are fewer).
pub open spec fn first_hundred(s: Seq<u16>) -> Seq<u16> {
    if s.len() <= 100 {
        s
    } else {
        s.take(100)
    }
}

/// Inserting the ids `xs` (none of them 0) in turn into a new registry
/// lists them each once, the most recently inserted first, and after them
/// the 0 a new registry lists, at most a hundred ids in all. The registry
/// stays well formed.
pub proof fn lemma_inserts_read(xs: Seq<u16>)
    requires
        forall|k: int| 0 <= k < xs.len() ==> #[trigger] xs[k] != 0,
    ensures
        reg_wf(reg_inserts(Seq::new(100, |i: int| 0u16), xs)),
        reg_read(reg_inserts(Seq::new(100, |i: int| 0u16), xs)) == first_hundred(recent_first(seq![0u16] + xs)),
    decreases xs.len(),
{
    let z = Seq::new(100, |i: int| 0u16);
    lemma_new_wf();
    if xs.len() == 0 {
        let s0 = seq![0u16];
        assert(seq![0u16] + xs =~= s0);
        assert(s0.drop_last() =~= Seq::<u16>::empty());
        assert(recent_first(s0.drop_last()) == Seq::<u16>::empty());
        assert(recent_first(s0) =~= seq![0u16]);
    } else {
        let xt = xs.drop_last();
        let x = xs.last();
        assert forall|k: int| 0 <= k < xt.len() implies #[trigger] xt[k] != 0 by {
            assert(xt[k] == xs[k]);
        }
        lemma_inserts_read(xt);
        let a = reg_inserts(z, xt);
        let ys = seq![0u16] + xs;
        let yt = seq![0u16] + xt;
        assert(ys.drop_last() =~= yt);
        assert(ys.last() == x);
        let r = recent_first(yt);
        let p = reg_read(a);
        lemma_recent_first(yt);
        assert forall|k: int| 1 <= k < yt.len() implies #[trigger] yt[k] != yt[0] by {
            assert(yt[k] == xt[k - 1]);
        }
        lemma_recent_last(yt);
        lemma_repeat_from(a, 1);
        assert(p.len() == repeat_from(a, 1));
        assert(p == first_hundred(r));
        if p.len() < 100 {
            assert(p == r);
            assert(a[repeat_from(a, 1) - 1] == p.last());
        }
        assert(x != 0);
        lemma_insert_read(a, x);
        let f = recent_first(ys);
        let q = if r.contains(x) { r.remove(r.index_of(x)) } else { r };
        assert(f == seq![x] + q);
        assert(reg_inserts(z, xs) == reg_insert(a, x));
        if p.contains(x) {
            let j = p.index_of(x);
            assert(r[j] == x);
            assert(r.contains(x));
            let i = r.index_of(x);
            assert(i == j);
            lemma_remove_at(r, i);
            lemma_remove_at(p, j);
            assert(first_hundred(f) =~= seq![x] + p.remove(j));
        } else {
            if r.contains(x) {
                let i = r.index_of(x);
                lemma_remove_at(r, i);
                if i < 100 {
                    assert(p[i] == x);
                }
                assert(p.len() == 100);
                assert(first_hundred(f) =~= seq![x] + p.take(99));
            } else {
                if p.len() < 100 {
                    assert(p == r);
                    assert(first_hundred(f) =~= seq![x] + p);
                } else {
                    assert(first_hundred(f) =~= seq![x] + p.take(99));
                }
            }
        }
    }
}

} // verus!
