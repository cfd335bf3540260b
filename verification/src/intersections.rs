//! Ordered intersection records.
//!
//! Every hit a ray produces is recorded here and kept sorted by an
//! order key: a caller-supplied unsigned encoding of the hit time whose
//! integer order agrees with the numeric order of the times, with the
//! not-a-number encodings above every finite one.  Each record also
//! carries the identity of the object that was struck, an opaque code
//! for the refractive medium of that object's material, and a payload
//! slot the renderer uses to find its own full hit record again.
//!
//! The same sorted list drives the refractive-media walk: scanning the
//! records in order while toggling objects on a stack of open
//! containers yields the media on either side of any chosen hit.

use vstd::prelude::*;

verus! {

/// One recorded hit: the order key of its time, the identity of the
/// object struck, the medium code of that object's material, and the
/// caller's payload slot.
#[derive(Clone, Copy, Debug)]
pub struct Intersection {
    pub key: u64,
    pub object: usize,
    pub medium: u64,
    pub payload: usize,
}

/// Sorted ascending by order key.
pub open spec fn sorted(s: Seq<Intersection>) -> bool {
    forall|i: int, j: int| 0 <= i < j < s.len() ==> s[i].key <= s[j].key
}

/// The slot where a record with this key is inserted: after every
/// record whose key is not larger.
pub open spec fn insert_pos(s: Seq<Intersection>, key: u64) -> int
    decreases s.len(),
{
    if s.len() == 0 {
        0
    } else if s[0].key > key {
        0
    } else {
        1 + insert_pos(s.drop_first(), key)
    }
}

/// The position of the first record for `object`, or `-1`.
pub open spec fn find_object(s: Seq<Intersection>, object: usize) -> int
    decreases s.len(),
{
    if s.len() == 0 {
        -1
    } else if s[0].object == object {
        0
    } else if find_object(s.drop_first(), object) < 0 {
        -1
    } else {
        1 + find_object(s.drop_first(), object)
    }
}

/// Toggle `e`'s object on the container stack: drop the first open
/// record of the same object, or push `e` on top.
pub open spec fn toggled(s: Seq<Intersection>, e: Intersection) -> Seq<Intersection> {
    if find_object(s, e.object) >= 0 {
        s.remove(find_object(s, e.object))
    } else {
        s.push(e)
    }
}

/// The stack of containers still open after the first `k` records of
/// `s` have been walked in order.
pub open spec fn containers_after(s: Seq<Intersection>, k: int) -> Seq<Intersection>
    decreases k,
{
    if k <= 0 {
        Seq::<Intersection>::empty()
    } else {
        toggled(containers_after(s, k - 1), s[k - 1])
    }
}

/// The medium of the innermost open container, or the surrounding
/// medium when none is open.
pub open spec fn top_medium(s: Seq<Intersection>, surround: u64) -> u64 {
    if s.len() == 0 {
        surround
    } else {
        s.last().medium
    }
}

/// The records of a cast ray, sorted ascending by order key.
#[derive(Debug)]
pub struct Intersections {
    records: Vec<Intersection>,
}

impl Intersections {
    pub closed spec fn view(&self) -> Seq<Intersection> {
        self.records@
    }

    /// The records stay sorted by key at all times.
    pub open spec fn wf(&self) -> bool {
        sorted(self@)
    }

    pub fn new() -> (r: Self)
        ensures
            r.wf(),
            r@ == Seq::<Intersection>::empty(),
    {
        Intersections { records: Vec::new() }
    }

    pub fn len(&self) -> (n: usize)
        ensures
            n == self@.len(),
    {
        self.records.len()
    }

    pub fn is_empty(&self) -> (r: bool)
        ensures
            r == (self@.len() == 0),
    {
        self.records.len() == 0
    }

    /// The record at `index`.
    pub fn get(&self, index: usize) -> (r: Intersection)
        requires
            index < self@.len(),
        ensures
            r == self@[index as int],
    {
        self.records[index]
    }

    /// Record a hit, keeping the list sorted: the new record lands
    /// after every record whose key is not larger.
    pub fn push(&mut self, record: Intersection)
        requires
            old(self).wf(),
        ensures
            final(self).wf(),
            final(self)@ == old(self)@.insert(insert_pos(old(self)@, record.key), record),
    {
        let mut i: usize = 0;
        let n = self.records.len();
        while i < n && self.records[i].key <= record.key
            invariant
                n == self@.len(),
                i <= n,
                forall|j: int| 0 <= j < i ==> self@[j].key <= record.key,
            decreases n - i,
        {
            i = i + 1;
        }
        proof {
            lemma_insert_pos_stops(self@, record.key, i as int);
            lemma_insert_sorted(self@, record, i as int);
        }
        self.records.insert(i, record);
    }

    /// The hit: the first record whose key lies in `(miss, limit]`,
    /// the window the renderer uses for positive finite times.
    pub fn get_hit_index(&self, miss: u64, limit: u64) -> (r: Option<usize>)
        ensures
            match r {
                Some(i) => {
                    &&& i < self@.len()
                    &&& miss < self@[i as int].key <= limit
                    &&& forall|j: int|
                        0 <= j < i ==> !(miss < #[trigger] self@[j].key <= limit)
                },
                None => forall|j: int|
                    0 <= j < self@.len() ==> !(miss < #[trigger] self@[j].key <= limit),
            },
    {
        let n = self.records.len();
        let mut i: usize = 0;
        while i < n
            invariant
                n == self@.len(),
                i <= n,
                forall|j: int| 0 <= j < i ==> !(miss < #[trigger] self@[j].key <= limit),
            decreases n - i,
        {
            let k = self.records[i].key;
            if miss < k && k <= limit {
                return Some(i);
            }
            i = i + 1;
        }
        None
    }

    /// The media on either side of the hit at `target`: walk the
    /// records in order, toggling each object on the container stack;
    /// the medium entered is read just before the target's toggle, the
    /// medium left just after, each defaulting to the surrounding
    /// medium when no container is open.
    pub fn refraction_media(&self, target: usize, surround: u64) -> (r: (u64, u64))
        requires
            target < self@.len(),
        ensures
            r.0 == top_medium(containers_after(self@, target as int), surround),
            r.1 == top_medium(containers_after(self@, target as int + 1), surround),
    {
        let mut containers: Vec<Intersection> = Vec::new();
        let mut k: usize = 0;
        while k < target
            invariant
                target < self@.len(),
                k <= target,
                containers@ == containers_after(self@, k as int),
            decreases target - k,
        {
            let e = self.records[k];
            toggle(&mut containers, e);
            k = k + 1;
        }
        let n1 = if containers.len() == 0 {
            surround
        } else {
            containers[containers.len() - 1].medium
        };
        let e = self.records[target];
        toggle(&mut containers, e);
        let n2 = if containers.len() == 0 {
            surround
        } else {
            containers[containers.len() - 1].medium
        };
        (n1, n2)
    }
}

/// On a sorted record list the hit is the nearest record in the
/// window: the first record whose key lies in `(miss, limit]` carries
/// the least such key, so the hit is the nearest positive hit.
pub proof fn lemma_hit_is_nearest(s: Seq<Intersection>, i: int, miss: u64, limit: u64)
    requires
        sorted(s),
        0 <= i < s.len(),
        miss < s[i].key <= limit,
        forall|j: int| 0 <= j < i ==> !(miss < #[trigger] s[j].key <= limit),
    ensures
        forall|j: int|
            0 <= j < s.len() && miss < #[trigger] s[j].key <= limit ==> s[i].key <= s[j].key,
{
    assert forall|j: int|
        0 <= j < s.len() && miss < #[trigger] s[j].key <= limit implies s[i].key <= s[j].key by {
        if j < i {
            assert(s[j].key <= s[i].key);
        }
    }
}

/// Apply one container toggle in place.
fn toggle(containers: &mut Vec<Intersection>, e: Intersection)
    ensures
        final(containers)@ == toggled(old(containers)@, e),
{
    let n = containers.len();
    let mut i: usize = 0;
    while i < n
        invariant
            containers@ == old(containers)@,
            n == containers@.len(),
            i <= n,
            forall|j: int| 0 <= j < i ==> containers@[j].object != e.object,
        decreases n - i,
    {
        if containers[i].object == e.object {
            proof {
                lemma_find_object_at(containers@, e.object, i as int);
            }
            containers.remove(i);
            return ;
        }
        i = i + 1;
    }
    proof {
        lemma_find_object_none(containers@, e.object);
    }
    containers.push(e);
}

/// Once a key larger than `key` is met at `i`, or the list ends, the
/// insertion slot is exactly `i`.
proof fn lemma_insert_pos_stops(s: Seq<Intersection>, key: u64, i: int)
    requires
        0 <= i <= s.len(),
        forall|j: int| 0 <= j < i ==> s[j].key <= key,
        i < s.len() ==> s[i].key > key,
    ensures
        insert_pos(s, key) == i,
    decreases i,
{
    if i == 0 {
    } else {
        assert(forall|j: int|
            0 <= j < i - 1 ==> s.drop_first()[j] == s[j + 1] && s[j + 1].key <= key);
        assert(i - 1 < s.drop_first().len() ==> s.drop_first()[i - 1] == s[i]);
        lemma_insert_pos_stops(s.drop_first(), key, i - 1);
    }
}

/// Inserting at the slot keeps the list sorted.
proof fn lemma_insert_sorted(s: Seq<Intersection>, e: Intersection, i: int)
    requires
        sorted(s),
        0 <= i <= s.len(),
        forall|j: int| 0 <= j < i ==> s[j].key <= e.key,
        i < s.len() ==> s[i].key > e.key,
    ensures
        sorted(s.insert(i, e)),
{
    let t = s.insert(i, e);
    assert forall|p: int, q: int| 0 <= p < q < t.len() implies t[p].key <= t[q].key by {
        if p < i {
            assert(t[p] == s[p]);
        } else if p == i {
            assert(t[p] == e);
        } else {
            assert(t[p] == s[p - 1]);
        }
        if q < i {
            assert(t[q] == s[q]);
        } else if q == i {
            assert(t[q] == e);
        } else {
            assert(t[q] == s[q - 1]);
        }
    }
}

/// A match at `i` with none before it is the first match.
proof fn lemma_find_object_at(s: Seq<Intersection>, object: usize, i: int)
    requires
        0 <= i < s.len(),
        s[i].object == object,
        forall|j: int| 0 <= j < i ==> s[j].object != object,
    ensures
        find_object(s, object) == i,
    decreases i,
{
    if i == 0 {
    } else {
        assert(forall|j: int|
            0 <= j < i - 1 ==> s.drop_first()[j] == s[j + 1] && s[j + 1].object != object);
        assert(s.drop_first()[i - 1] == s[i]);
        lemma_find_object_at(s.drop_first(), object, i - 1);
    }
}

/// No match anywhere means no first match.
proof fn lemma_find_object_none(s: Seq<Intersection>, object: usize)
    requires
        forall|j: int| 0 <= j < s.len() ==> s[j].object != object,
    ensures
        find_object(s, object) < 0,
    decreases s.len(),
{
    if s.len() > 0 {
        assert(forall|j: int|
            0 <= j < s.drop_first().len() ==> s.drop_first()[j] == s[j + 1] && s[j
                + 1].object != object);
        lemma_find_object_none(s.drop_first(), object);
    }
}

} // verus!
