use vstd::prelude::*;
use vstd::set_lib::{lemma_int_range, lemma_len_subset, set_int_range};

verus! {

/// The 32-bit FNV prime.
pub const FNV_PRIME: u32 = 16777619;

/// The 32-bit FNV offset basis: the hash of the empty string.
pub const FNV_OFFSET: u32 = 2166136261;

/// One round of FNV-1a: mix in a byte, then multiply modulo 2^32.
pub open spec fn fnv_step(h: u32, b: u8) -> u32 {
    (((h ^ (b as u32)) as nat * FNV_PRIME as nat) % 0x1_0000_0000) as u32
}

/// The 32-bit FNV-1a hash of `s`.
pub open spec fn fnv1a(s: Seq<u8>) -> u32
    decreases s.len(),
{
    if s.len() == 0 {
        FNV_OFFSET
    } else {
        fnv_step(fnv1a(s.drop_last()), s.last())
    }
}

/// A 32-bit hash of a key.
pub trait Hash32 {
    spec fn hash_spec(&self) -> u32;

    fn hash32(&self) -> (r: u32)
        ensures
            r == self.hash_spec(),
    ;
}

impl Hash32 for [u8] {
    open spec fn hash_spec(&self) -> u32 {
        fnv1a(self@)
    }

    fn hash32(&self) -> (r: u32) {
        let mut hash: u32 = FNV_OFFSET;
        let mut i: usize = 0;
        while i < self.len()
            invariant
                i <= self@.len(),
                hash == fnv1a(self@.subrange(0, i as int)),
            decreases self@.len() - i,
        {
            proof {
                assert(self@.subrange(0, i + 1).drop_last() =~= self@.subrange(0, i as int));
            }
            hash = (hash ^ self[i] as u32).wrapping_mul(FNV_PRIME);
            i = i + 1;
        }
        proof {
            assert(self@.subrange(0, self@.len() as int) =~= self@);
        }
        hash
    }
}

/// Whether two byte strings are equal.
pub fn bytes_eq(a: &[u8], b: &[u8]) -> (r: bool)
    ensures
        r == (a@ == b@),
{
    if a.len() != b.len() {
        return false;
    }
    let mut i: usize = 0;
    while i < a.len()
        invariant
            a@.len() == b@.len(),
            i <= a@.len(),
            a@.subrange(0, i as int) == b@.subrange(0, i as int),
        decreases a@.len() - i,
    {
        if a[i] != b[i] {
            assert(a@[i as int] != b@[i as int]);
            return false;
        }
        proof {
            assert(a@.subrange(0, i + 1) =~= a@.subrange(0, i as int).push(a@[i as int]));
            assert(b@.subrange(0, i + 1) =~= b@.subrange(0, i as int).push(b@[i as int]));
        }
        i = i + 1;
    }
    proof {
        assert(a@ =~= a@.subrange(0, i as int));
        assert(b@ =~= b@.subrange(0, i as int));
    }
    true
}

/// A record that a symbol table can hold: it has a name, and a counter of how
/// many slots it sits past the slot its name hashes to.
pub trait Mappable: Sized {
    spec fn key(&self) -> Seq<u8>;

    spec fn probe(&self) -> nat;

    /// Whether the two records are equal but for their probe counters.
    spec fn agrees(&self, other: Self) -> bool;

    proof fn lemma_agrees_refl(&self)
        ensures
            self.agrees(*self),
    ;

    proof fn lemma_agrees_key(&self, b: Self)
        requires
            self.agrees(b),
        ensures
            self.key() == b.key(),
    ;

    proof fn lemma_agrees_sym(&self, b: Self)
        requires
            self.agrees(b),
        ensures
            b.agrees(*self),
    ;

    proof fn lemma_agrees_trans(&self, b: Self, c: Self)
        requires
            self.agrees(b),
            b.agrees(c),
        ensures
            self.agrees(c),
    ;

    fn id(&self) -> (r: &[u8])
        ensures
            r@ == self.key(),
    ;

    fn next(&self) -> (r: usize)
        ensures
            r as nat == self.probe(),
    ;

    fn next_mut(&mut self) -> (r: &mut usize)
        ensures
            *r as nat == old(self).probe(),
            final(self).probe() == *final(r) as nat,
            final(self).key() == old(self).key(),
            final(self).agrees(*old(self)),
    ;
}

/// `x`, brought back into `0..cap` where it is below `2 * cap`.
pub open spec fn wrap(x: int, cap: int) -> int {
    if x < cap {
        x
    } else {
        x - cap
    }
}

/// How many steps forward, around a table of `cap` slots, `b` lies from `a`.
pub open spec fn dist(a: int, b: int, cap: int) -> int {
    if a <= b {
        b - a
    } else {
        b + cap - a
    }
}

/// The slot that key `k` hashes to in a table of `cap` slots.
pub open spec fn ideal(k: Seq<u8>, cap: nat) -> int {
    (fnv1a(k) as nat % cap) as int
}

/// Whether slot `j` is in range and holds a record.
pub open spec fn occupied<V>(s: Seq<Option<V>>, j: int) -> bool {
    0 <= j < s.len() && s[j] is Some
}

/// The indices of the slots that hold a record.
pub open spec fn occupied_set<V>(s: Seq<Option<V>>) -> Set<int> {
    Set::new(|j: int| occupied(s, j))
}

/// The record in slot `j` sits `probe` slots past its ideal slot, and every
/// slot between is taken.
pub open spec fn slot_ok<V: Mappable>(s: Seq<Option<V>>, j: int) -> bool {
    let v = s[j]->Some_0;
    let cap = s.len() as int;
    let a = ideal(v.key(), s.len());
    &&& v.probe() == dist(a, j, cap)
    &&& forall|d: int| 0 <= d < v.probe() ==> #[trigger] occupied(s, wrap(a + d, cap))
}

/// The slot at which a search for `k` that begins at `start`, `t` steps
/// along, stops on a match; `None` where it meets an empty slot or comes back
/// round.
pub open spec fn walk<V: Mappable>(s: Seq<Option<V>>, k: Seq<u8>, start: int, t: int) -> Option<
    int,
>
    decreases s.len() - t,
{
    if t < 0 || t >= s.len() {
        None
    } else {
        let j = wrap(start + t, s.len() as int);
        match s[j] {
            None => None,
            Some(v) => if v.key() == k {
                Some(j)
            } else {
                walk(s, k, start, t + 1)
            },
        }
    }
}

/// Whether some slot of `s` holds a record named `k`.
pub open spec fn has_key<V: Mappable>(s: Seq<Option<V>>, k: Seq<u8>) -> bool {
    exists|j: int| #[trigger] occupied(s, j) && s[j]->Some_0.key() == k
}

/// Putting `v` in slot `i` adds its name and takes away only the name of the
/// record that was there.
proof fn lemma_update_keys<V: Mappable>(s: Seq<Option<V>>, i: int, v: V)
    requires
        0 <= i < s.len(),
    ensures
        forall|k: Seq<u8>|
            (has_key(s.update(i, Some(v)), k) || (s[i] is Some && k == s[i]->Some_0.key())) <==> (
            has_key(s, k) || k == v.key()),
{
    let s2 = s.update(i, Some(v));
    assert forall|k: Seq<u8>|
        (has_key(s2, k) || (s[i] is Some && k == s[i]->Some_0.key())) <==> (has_key(s, k) || k
            == v.key()) by {
        if has_key(s2, k) {
            let j = choose|j: int| #[trigger] occupied(s2, j) && s2[j]->Some_0.key() == k;
            if j != i {
                assert(occupied(s, j));
            }
        }
        if has_key(s, k) {
            let j = choose|j: int| #[trigger] occupied(s, j) && s[j]->Some_0.key() == k;
            if j != i {
                assert(occupied(s2, j));
            }
        }
        if k == v.key() {
            assert(occupied(s2, i));
        }
        if s[i] is Some && k == s[i]->Some_0.key() {
            assert(occupied(s, i));
        }
    }
}

/// Records other than the one in slot `i` keep their place where no slot is emptied.
proof fn lemma_keep_ok<V: Mappable>(s: Seq<Option<V>>, s2: Seq<Option<V>>, i: int)
    requires
        s2.len() == s.len(),
        0 <= i < s.len(),
        occupied(s2, i),
        slot_ok(s2, i),
        forall|j: int| #[trigger] occupied(s, j) ==> occupied(s2, j),
        forall|j: int| 0 <= j < s.len() && j != i ==> s2[j] == s[j],
        forall|j: int| #[trigger] occupied(s, j) ==> slot_ok(s, j),
    ensures
        forall|j: int| #[trigger] occupied(s2, j) ==> slot_ok(s2, j),
{
    let cap = s.len() as int;
    assert forall|j: int| #[trigger] occupied(s2, j) implies slot_ok(s2, j) by {
        if j != i {
            assert(occupied(s, j));
            assert(slot_ok(s, j));
            let v = s[j]->Some_0;
            let a = ideal(v.key(), s.len());
            assert forall|d: int| 0 <= d < v.probe() implies #[trigger] occupied(
                s2,
                wrap(a + d, cap),
            ) by {
                assert(occupied(s, wrap(a + d, cap)));
            }
        }
    }
}

/// Emptying slot `i` takes away only the name of the record that was there.
proof fn lemma_remove_keys<V: Mappable>(s: Seq<Option<V>>, i: int)
    requires
        0 <= i < s.len(),
    ensures
        forall|k: Seq<u8>|
            (has_key(s.update(i, None), k) || (s[i] is Some && k == s[i]->Some_0.key())) <==> has_key(
                s,
                k,
            ),
{
    let s2 = s.update(i, None);
    assert forall|k: Seq<u8>|
        (has_key(s2, k) || (s[i] is Some && k == s[i]->Some_0.key())) <==> has_key(s, k) by {
        if has_key(s2, k) {
            let j = choose|j: int| #[trigger] occupied(s2, j) && s2[j]->Some_0.key() == k;
            assert(occupied(s, j));
        }
        if has_key(s, k) {
            let j = choose|j: int| #[trigger] occupied(s, j) && s[j]->Some_0.key() == k;
            if j != i {
                assert(occupied(s2, j));
            }
        }
        if s[i] is Some && k == s[i]->Some_0.key() {
            assert(occupied(s, i));
        }
    }
}

/// The first taken slot at or after `p`.
pub open spec fn next_occupied<V>(s: Seq<Option<V>>, p: int) -> Option<int>
    decreases s.len() - p,
{
    if p < 0 || p >= s.len() {
        None
    } else if s[p] is Some {
        Some(p)
    } else {
        next_occupied(s, p + 1)
    }
}

/// The taken slots of `s` whose record is equal but for its probe counter to `r`.
pub open spec fn agreeing<V: Mappable>(s: Seq<Option<V>>, r: V) -> Set<int> {
    Set::new(|j: int| occupied(s, j) && s[j]->Some_0.agrees(r))
}

/// How many records of `s` are equal but for their probe counters to `r`.
pub open spec fn agree_count<V: Mappable>(s: Seq<Option<V>>, r: V) -> nat {
    agreeing(s, r).len()
}

/// One if the slot value `x` holds a record equal but for its probe counter to `r`.
pub open spec fn agrees_at<V: Mappable>(x: Option<V>, r: V) -> nat {
    if x is Some && x->Some_0.agrees(r) {
        1
    } else {
        0
    }
}

proof fn lemma_agreeing_finite<V: Mappable>(s: Seq<Option<V>>, r: V)
    ensures
        agreeing(s, r).finite(),
{
    lemma_occupied_finite(s);
    lemma_len_subset(agreeing(s, r), occupied_set(s));
}

/// Writing `x` into slot `i` changes each count by what leaves and what comes.
proof fn lemma_count_update<V: Mappable>(s: Seq<Option<V>>, i: int, x: Option<V>)
    requires
        0 <= i < s.len(),
    ensures
        forall|r: V|
            #[trigger] agree_count(s.update(i, x), r) + agrees_at(s[i], r) == agree_count(s, r)
                + agrees_at(x, r),
{
    let s2 = s.update(i, x);
    assert forall|r: V|
        #[trigger] agree_count(s2, r) + agrees_at(s[i], r) == agree_count(s, r) + agrees_at(x, r) by {
        lemma_agreeing_finite(s, r);
        lemma_agreeing_finite(s2, r);
        let a = agreeing(s, r);
        let b = agreeing(s2, r);
        assert(a.remove(i) =~= b.remove(i));
        if agrees_at(s[i], r) == 1 {
            assert(a.contains(i));
        } else {
            assert(!a.contains(i));
            assert(a.remove(i) =~= a);
        }
        if agrees_at(x, r) == 1 {
            assert(b.contains(i));
        } else {
            assert(!b.contains(i));
            assert(b.remove(i) =~= b);
        }
    }
}

/// A table with no taken slot counts nothing.
pub proof fn lemma_count_empty<V: Mappable>(s: Seq<Option<V>>)
    requires
        forall|j: int| !#[trigger] occupied(s, j),
    ensures
        forall|r: V| #[trigger] agree_count(s, r) == 0,
{
    assert forall|r: V| #[trigger] agree_count(s, r) == 0 by {
        assert(agreeing(s, r) =~= Set::empty());
    }
}

/// Whether `v` is equal but for its probe counter to `item` or to a record of `old`.
pub open spec fn comes_from<V: Mappable>(v: V, old: Seq<Option<V>>, item: V) -> bool {
    v.agrees(item) || exists|i: int| #[trigger] occupied(old, i) && v.agrees(old[i]->Some_0)
}

/// Every record of `new` comes from `old` or is `item`.
pub open spec fn only_from<V: Mappable>(new: Seq<Option<V>>, old: Seq<Option<V>>, item: V) -> bool {
    forall|j: int| #[trigger] occupied(new, j) ==> comes_from(new[j]->Some_0, old, item)
}

proof fn lemma_comes_from_trans<V: Mappable>(a: V, b: V, old: Seq<Option<V>>, item: V)
    requires
        a.agrees(b),
        comes_from(b, old, item),
    ensures
        comes_from(a, old, item),
{
    if b.agrees(item) {
        a.lemma_agrees_trans(b, item);
    } else {
        let i = choose|i: int| #[trigger] occupied(old, i) && b.agrees(old[i]->Some_0);
        a.lemma_agrees_trans(b, old[i]->Some_0);
    }
}

/// The slot before `i`, round a table of `cap` slots.
pub open spec fn prev_slot(i: int, cap: int) -> int {
    if i == 0 {
        cap - 1
    } else {
        i - 1
    }
}

/// The slot after `i`, round a table of `cap` slots.
pub open spec fn next_slot(i: int, cap: int) -> int {
    if i + 1 == cap {
        0
    } else {
        i + 1
    }
}

/// The Robin-Hood order: of two neighbouring records, the later one sits at
/// most one slot farther from its ideal slot than the earlier one.
pub open spec fn rh_ordered<V: Mappable>(s: Seq<Option<V>>) -> bool {
    forall|j: int|
        #[trigger] occupied(s, j) && occupied(s, next_slot(j, s.len() as int)) ==> s[next_slot(
            j,
            s.len() as int,
        )]->Some_0.probe() <= s[j]->Some_0.probe() + 1
}

/// A record walking at slot `i` keeps the order with the record before it.
pub open spec fn walker_ordered<V: Mappable>(s: Seq<Option<V>>, i: int, w: V) -> bool {
    occupied(s, prev_slot(i, s.len() as int)) ==> w.probe() <= s[prev_slot(
        i,
        s.len() as int,
    )]->Some_0.probe() + 1
}

proof fn lemma_place_ordered<V: Mappable>(before: Seq<Option<V>>, s2: Seq<Option<V>>, i: int, w: V)
    requires
        0 <= i < before.len(),
        before[i] is None,
        s2 == before.update(i, Some(w)),
        rh_ordered(before),
        walker_ordered(before, i, w),
        forall|j: int| #[trigger] occupied(before, j) ==> slot_ok(before, j),
    ensures
        rh_ordered(s2),
{
    let cap = before.len() as int;
    assert forall|j: int|
        #[trigger] occupied(s2, j) && occupied(s2, next_slot(j, cap)) implies s2[next_slot(
            j,
            cap,
        )]->Some_0.probe() <= s2[j]->Some_0.probe() + 1 by {
        let n = next_slot(j, cap);
        if j == i && n != i {
            assert(occupied(before, n));
            assert(slot_ok(before, n));
            let v = before[n]->Some_0;
            let a = ideal(v.key(), before.len());
            if v.probe() > 0 {
                let d = v.probe() - 1;
                assert(occupied(before, wrap(a + d, cap)));
                assert(wrap(a + d, cap) == i);
            }
        } else if j != i && n == i {
            assert(j == prev_slot(i, cap));
        } else if j != i && n != i {
            assert(occupied(before, j));
        }
    }
}

proof fn lemma_swap_ordered<V: Mappable>(before: Seq<Option<V>>, s2: Seq<Option<V>>, i: int, w: V)
    requires
        0 <= i < before.len(),
        before[i] is Some,
        before[i]->Some_0.probe() < w.probe(),
        s2 == before.update(i, Some(w)),
        rh_ordered(before),
        walker_ordered(before, i, w),
    ensures
        rh_ordered(s2),
{
    let cap = before.len() as int;
    assert forall|j: int|
        #[trigger] occupied(s2, j) && occupied(s2, next_slot(j, cap)) implies s2[next_slot(
            j,
            cap,
        )]->Some_0.probe() <= s2[j]->Some_0.probe() + 1 by {
        let n = next_slot(j, cap);
        assert(occupied(before, j));
        if j == i && n != i {
            assert(occupied(before, n));
        } else if j != i && n == i {
            assert(j == prev_slot(i, cap));
        }
    }
}

/// Every record of `new` is equal but for its probe counter to a record of `old`.
/// Opaque: `reveal(derived)` brings in its body.
#[verifier::opaque]
pub open spec fn derived<V: Mappable>(new: Seq<Option<V>>, old: Seq<Option<V>>) -> bool {
    forall|j: int|
        #[trigger] occupied(new, j) ==> exists|i: int|
            #[trigger] occupied(old, i) && new[j]->Some_0.agrees(old[i]->Some_0)
}

/// Moving the record of slot `i` of `old` into a new table keeps the new
/// table made of records of `old`, and holding those of the first `i + 1` slots.
proof fn lemma_moved<V: Mappable>(
    t0: Seq<Option<V>>,
    t1: Seq<Option<V>>,
    old: Seq<Option<V>>,
    i: int,
    v0: V,
    v1: V,
)
    requires
        0 <= i < old.len(),
        old[i] == Some(v0),
        v1.agrees(v0),
        derived(t0, old),
        forall|x: int|
            #[trigger] occupied(old, x) && x < i ==> exists|j: int|
                #[trigger] occupied(t0, j) && t0[j]->Some_0.agrees(old[x]->Some_0),
        kept(t0, t1, None),
        only_from(t1, t0, v1),
        exists|j: int| #[trigger] occupied(t1, j) && t1[j]->Some_0.agrees(v1),
    ensures
        derived(t1, old),
        forall|x: int|
            #[trigger] occupied(old, x) && x < i + 1 ==> exists|j: int|
                #[trigger] occupied(t1, j) && t1[j]->Some_0.agrees(old[x]->Some_0),
{
    reveal(derived);
    assert(occupied(old, i));
    assert forall|j: int| #[trigger] occupied(t1, j) implies exists|x: int|
        #[trigger] occupied(old, x) && t1[j]->Some_0.agrees(old[x]->Some_0) by {
        let w = t1[j]->Some_0;
        if w.agrees(v1) {
            w.lemma_agrees_trans(v1, v0);
        } else {
            let j0 = choose|j0: int| #[trigger] occupied(t0, j0) && w.agrees(t0[j0]->Some_0);
            let x = choose|x: int| #[trigger] occupied(old, x) && t0[j0]->Some_0.agrees(old[x]->Some_0);
            w.lemma_agrees_trans(t0[j0]->Some_0, old[x]->Some_0);
        }
    }
    assert forall|x: int| #[trigger] occupied(old, x) && x < i + 1 implies exists|j: int|
        #[trigger] occupied(t1, j) && t1[j]->Some_0.agrees(old[x]->Some_0) by {
        if x == i {
            let j = choose|j: int| #[trigger] occupied(t1, j) && t1[j]->Some_0.agrees(v1);
            t1[j]->Some_0.lemma_agrees_trans(v1, v0);
        } else {
            let j0 = choose|j: int| #[trigger] occupied(t0, j) && t0[j]->Some_0.agrees(old[x]->Some_0);
            assert(occupied(t0, j0));
            let j = choose|j: int| #[trigger] occupied(t1, j) && t1[j]->Some_0.agrees(t0[j0]->Some_0);
            t1[j]->Some_0.lemma_agrees_trans(t0[j0]->Some_0, old[x]->Some_0);
        }
    }
}

/// After an insertion of `item` into `t1`, itself `t0` or made of records of
/// `t0`, a record named like `item`, a name `t0` lacked, is `item`.
pub proof fn lemma_new_name_is_item<V: Mappable>(
    t0: Seq<Option<V>>,
    t1: Seq<Option<V>>,
    t2: Seq<Option<V>>,
    item: V,
    l: int,
)
    requires
        occupied(t2, l),
        t2[l]->Some_0.key() == item.key(),
        only_from(t2, t1, item),
        !has_key(t0, item.key()),
        t1 == t0 || derived(t1, t0),
    ensures
        t2[l]->Some_0.agrees(item),
{
    reveal(derived);
    let found = t2[l]->Some_0;
    assert(comes_from(found, t1, item));
    if !found.agrees(item) {
        let x = choose|x: int| #[trigger] occupied(t1, x) && found.agrees(t1[x]->Some_0);
        found.lemma_agrees_key(t1[x]->Some_0);
        if t1 != t0 {
            let y = choose|y: int| #[trigger] occupied(t0, y) && t1[x]->Some_0.agrees(t0[y]->Some_0);
            t1[x]->Some_0.lemma_agrees_key(t0[y]->Some_0);
            assert(occupied(t0, y) && t0[y]->Some_0.key() == item.key());
        } else {
            assert(occupied(t0, x) && t0[x]->Some_0.key() == item.key());
        }
    }
}

/// Every record of `old` has a record equal but for its probe counter in `new`,
/// or is equal but for its probe counter to `extra`.
pub open spec fn kept<V: Mappable>(old: Seq<Option<V>>, new: Seq<Option<V>>, extra: Option<V>) -> bool {
    forall|i: int|
        #[trigger] occupied(old, i) ==> (extra is Some && extra->Some_0.agrees(old[i]->Some_0)) || exists|
            j: int,
        | #[trigger] occupied(new, j) && new[j]->Some_0.agrees(old[i]->Some_0)
}

/// Keeping records carries over from one table to the next.
pub proof fn lemma_kept_trans<V: Mappable>(a: Seq<Option<V>>, b: Seq<Option<V>>, c: Seq<Option<V>>)
    requires
        kept(a, b, None),
        kept(b, c, None),
    ensures
        kept(a, c, None),
{
    assert forall|x: int| #[trigger] occupied(a, x) implies exists|j: int|
        #[trigger] occupied(c, j) && c[j]->Some_0.agrees(a[x]->Some_0) by {
        let jb = choose|j: int| #[trigger] occupied(b, j) && b[j]->Some_0.agrees(a[x]->Some_0);
        let jc = choose|j: int| #[trigger] occupied(c, j) && c[j]->Some_0.agrees(b[jb]->Some_0);
        c[jc]->Some_0.lemma_agrees_trans(b[jb]->Some_0, a[x]->Some_0);
    }
}

/// The facts about a walking record at slot `i` of `s` that an insertion keeps.
pub open spec fn walker_ok<V: Mappable>(s: Seq<Option<V>>, i: int, w: V) -> bool {
    let cap = s.len() as int;
    let a = ideal(w.key(), s.len());
    &&& w.probe() == dist(a, i, cap)
    &&& forall|d: int| 0 <= d < w.probe() ==> #[trigger] occupied(s, wrap(a + d, cap))
}

/// Placing the walking record `w` in the empty slot `i`.
proof fn lemma_place<V: Mappable>(
    before: Seq<Option<V>>,
    s2: Seq<Option<V>>,
    i: int,
    w: V,
    item: V,
    old_items: Seq<Option<V>>,
)
    requires
        0 <= i < before.len(),
        before[i] is None,
        s2 == before.update(i, Some(w)),
        occupied_set(before).finite(),
        forall|j: int| #[trigger] occupied(before, j) ==> slot_ok(before, j),
        walker_ok(before, i, w),
        forall|k: Seq<u8>|
            (has_key(before, k) || k == w.key()) <==> (has_key(old_items, k) || k == item.key()),
        w.agrees(item) || exists|j: int| #[trigger] occupied(before, j) && before[j]->Some_0.agrees(item),
        kept(old_items, before, Some(w)),
        only_from(before, old_items, item),
        comes_from(w, old_items, item),
    ensures
        only_from(s2, old_items, item),
        kept(old_items, s2, None),
        occupied_set(s2).finite(),
        occupied_set(s2).len() == occupied_set(before).len() + 1,
        forall|j: int| #[trigger] occupied(s2, j) ==> slot_ok(s2, j),
        forall|k: Seq<u8>| #[trigger] has_key(s2, k) <==> (has_key(old_items, k) || k == item.key()),
        exists|j: int| #[trigger] occupied(s2, j) && s2[j]->Some_0.agrees(item),
{
    let cap = before.len() as int;
    assert(occupied_set(s2) =~= occupied_set(before).insert(i));
    assert(!occupied_set(before).contains(i));
    let a = ideal(w.key(), before.len());
    assert forall|d: int| 0 <= d < w.probe() implies #[trigger] occupied(s2, wrap(a + d, cap)) by {
        assert(occupied(before, wrap(a + d, cap)));
    }
    lemma_keep_ok(before, s2, i);
    lemma_update_keys(before, i, w);
    if w.agrees(item) {
        assert(occupied(s2, i) && s2[i]->Some_0.agrees(item));
    } else {
        let j = choose|j: int| #[trigger] occupied(before, j) && before[j]->Some_0.agrees(item);
        assert(s2[j] == before[j]);
        assert(occupied(s2, j) && s2[j]->Some_0.agrees(item));
    }
    assert forall|j: int| #[trigger] occupied(s2, j) implies comes_from(s2[j]->Some_0, old_items, item) by {
        if j != i {
            assert(s2[j] == before[j]);
            assert(occupied(before, j));
        }
    }
    assert forall|x: int| #[trigger] occupied(old_items, x) implies exists|j: int|
        #[trigger] occupied(s2, j) && s2[j]->Some_0.agrees(old_items[x]->Some_0) by {
        if w.agrees(old_items[x]->Some_0) {
            assert(occupied(s2, i) && s2[i]->Some_0.agrees(old_items[x]->Some_0));
        } else {
            let j = choose|j: int| #[trigger] occupied(before, j) && before[j]->Some_0.agrees(old_items[x]->Some_0);
            assert(s2[j] == before[j]);
            assert(occupied(s2, j) && s2[j]->Some_0.agrees(old_items[x]->Some_0));
        }
    }
}

/// Trading the walking record `w` for the record in slot `i`, which walks on.
proof fn lemma_swap<V: Mappable>(
    before: Seq<Option<V>>,
    s2: Seq<Option<V>>,
    i: int,
    w: V,
    item: V,
    old_items: Seq<Option<V>>,
)
    requires
        0 <= i < before.len(),
        before[i] is Some,
        s2 == before.update(i, Some(w)),
        forall|j: int| #[trigger] occupied(before, j) ==> slot_ok(before, j),
        walker_ok(before, i, w),
        forall|k: Seq<u8>|
            (has_key(before, k) || k == w.key()) <==> (has_key(old_items, k) || k == item.key()),
        w.agrees(item) || exists|j: int| #[trigger] occupied(before, j) && before[j]->Some_0.agrees(item),
        kept(old_items, before, Some(w)),
        only_from(before, old_items, item),
        comes_from(w, old_items, item),
    ensures
        only_from(s2, old_items, item),
        comes_from(before[i]->Some_0, old_items, item),
        kept(old_items, s2, Some(before[i]->Some_0)),
        occupied_set(s2) == occupied_set(before),
        forall|j: int| #[trigger] occupied(s2, j) ==> slot_ok(s2, j),
        walker_ok(s2, i, before[i]->Some_0),
        forall|k: Seq<u8>|
            (has_key(s2, k) || k == before[i]->Some_0.key()) <==> (has_key(old_items, k) || k
                == item.key()),
        before[i]->Some_0.agrees(item) || exists|j: int|
            #[trigger] occupied(s2, j) && s2[j]->Some_0.agrees(item),
{
    let cap = before.len() as int;
    let inc = before[i]->Some_0;
    assert(occupied_set(s2) =~= occupied_set(before));
    assert(occupied(before, i));
    assert(slot_ok(before, i));
    let a = ideal(w.key(), before.len());
    assert forall|d: int| 0 <= d < w.probe() implies #[trigger] occupied(s2, wrap(a + d, cap)) by {
        assert(occupied(before, wrap(a + d, cap)));
    }
    let b = ideal(inc.key(), before.len());
    assert forall|d: int| 0 <= d < inc.probe() implies #[trigger] occupied(s2, wrap(b + d, cap)) by {
        assert(occupied(before, wrap(b + d, cap)));
    }
    lemma_keep_ok(before, s2, i);
    lemma_update_keys(before, i, w);
    if w.agrees(item) {
        assert(occupied(s2, i) && s2[i]->Some_0.agrees(item));
    } else {
        let j = choose|j: int| #[trigger] occupied(before, j) && before[j]->Some_0.agrees(item);
        if j != i {
            assert(s2[j] == before[j]);
            assert(occupied(s2, j) && s2[j]->Some_0.agrees(item));
        }
    }
    assert forall|j: int| #[trigger] occupied(s2, j) implies comes_from(s2[j]->Some_0, old_items, item) by {
        if j != i {
            assert(s2[j] == before[j]);
            assert(occupied(before, j));
        }
    }
    assert(occupied(before, i));
    assert forall|x: int| #[trigger] occupied(old_items, x) implies inc.agrees(old_items[x]->Some_0)
        || exists|j: int| #[trigger] occupied(s2, j) && s2[j]->Some_0.agrees(old_items[x]->Some_0) by {
        if w.agrees(old_items[x]->Some_0) {
            assert(occupied(s2, i) && s2[i]->Some_0.agrees(old_items[x]->Some_0));
        } else {
            let j = choose|j: int| #[trigger] occupied(before, j) && before[j]->Some_0.agrees(old_items[x]->Some_0);
            if j != i {
                assert(s2[j] == before[j]);
                assert(occupied(s2, j) && s2[j]->Some_0.agrees(old_items[x]->Some_0));
            }
        }
    }
}

/// An open-addressing table with Robin-Hood displacement, keyed by name.
pub struct Mapping<V> {
    size: usize,
    capacity: usize,
    items: Vec<Option<V>>,
}

/// A walk over the records of a table, in slot order.
pub struct MappingIter<'a, V> {
    pos: usize,
    mapping: &'a Mapping<V>,
}

proof fn lemma_occupied_finite<V>(s: Seq<Option<V>>)
    ensures
        occupied_set(s).finite(),
        occupied_set(s).len() <= s.len(),
{
    lemma_int_range(0, s.len() as int);
    lemma_len_subset(occupied_set(s), set_int_range(0, s.len() as int));
}

/// A run of `n` taken slots from `a` onward shows that at least `n` slots are taken.
proof fn lemma_run_count<V>(s: Seq<Option<V>>, a: int, n: int)
    requires
        0 <= a < s.len(),
        0 <= n <= s.len(),
        forall|d: int| 0 <= d < n ==> #[trigger] occupied(s, wrap(a + d, s.len() as int)),
    ensures
        occupied_set(s).len() >= n,
{
    let cap = s.len() as int;
    let run = Set::new(|j: int| 0 <= j < cap && dist(a, j, cap) < n);
    lemma_int_range(0, cap);
    assert(run.subset_of(occupied_set(s))) by {
        assert forall|j: int| run.contains(j) implies occupied_set(s).contains(j) by {
            let d = dist(a, j, cap);
            assert(wrap(a + d, cap) == j);
            assert(occupied(s, wrap(a + d, cap)));
        }
    }
    lemma_occupied_finite(s);
    lemma_run_len(cap, a, n);
    lemma_len_subset(run, occupied_set(s));
}

proof fn lemma_run_len(cap: int, a: int, n: int)
    requires
        0 <= a < cap,
        0 <= n <= cap,
    ensures
        Set::new(|j: int| 0 <= j < cap && dist(a, j, cap) < n).finite(),
        Set::new(|j: int| 0 <= j < cap && dist(a, j, cap) < n).len() == n,
    decreases n,
{
    let run = Set::new(|j: int| 0 <= j < cap && dist(a, j, cap) < n);
    if n == 0 {
        assert(run =~= Set::empty());
    } else {
        lemma_run_len(cap, a, n - 1);
        let prev = Set::new(|j: int| 0 <= j < cap && dist(a, j, cap) < n - 1);
        let last = wrap(a + n - 1, cap);
        assert(dist(a, last, cap) == n - 1);
        assert(run =~= prev.insert(last));
    }
}

proof fn lemma_walk_in_range<V: Mappable>(s: Seq<Option<V>>, k: Seq<u8>, start: int, t: int)
    requires
        0 <= start < s.len(),
        walk(s, k, start, t) is Some,
    ensures
        occupied(s, walk(s, k, start, t)->Some_0),
        s[walk(s, k, start, t)->Some_0]->Some_0.key() == k,
    decreases s.len() - t,
{
    let j = wrap(start + t, s.len() as int);
    if s[j]->Some_0.key() != k {
        lemma_walk_in_range(s, k, start, t + 1);
    }
}

/// A record with key `k` that sits `p` slots past `a`, with the slots between
/// taken, is found by a walk from `a`.
proof fn lemma_walk_finds<V: Mappable>(s: Seq<Option<V>>, k: Seq<u8>, a: int, j: int, t: int)
    requires
        0 <= a < s.len(),
        occupied(s, j),
        s[j]->Some_0.key() == k,
        0 <= t <= dist(a, j, s.len() as int),
        forall|d: int|
            0 <= d < dist(a, j, s.len() as int) ==> #[trigger] occupied(
                s,
                wrap(a + d, s.len() as int),
            ),
    ensures
        walk(s, k, a, t) is Some,
    decreases dist(a, j, s.len() as int) - t,
{
    let cap = s.len() as int;
    let i = wrap(a + t, cap);
    if t < dist(a, j, cap) {
        assert(occupied(s, wrap(a + t, cap)));
        if s[i]->Some_0.key() != k {
            lemma_walk_finds(s, k, a, j, t + 1);
        }
    } else {
        assert(i == j);
    }
}

impl<V: Mappable> Mapping<V> {
    /// The slots of the table.
    pub closed spec fn slots(self) -> Seq<Option<V>> {
        self.items@
    }

    /// How many records the table holds.
    pub closed spec fn count(self) -> nat {
        self.size as nat
    }

    /// How many slots the table has.
    pub closed spec fn cap(self) -> nat {
        self.capacity as nat
    }

    /// The slots agree with the capacity, the count with the taken slots, and
    /// every record sits where its probe counter says, with no gap before it.
    pub closed spec fn wf(self) -> bool {
        &&& self.items@.len() == self.capacity
        &&& occupied_set(self.items@).len() == self.size
        &&& forall|j: int| #[trigger] occupied(self.items@, j) ==> slot_ok(self.items@, j)
        &&& rh_ordered(self.items@)
    }

    /// Whether some record in the table has name `k`.
    pub open spec fn contains(self, k: Seq<u8>) -> bool {
        has_key(self.slots(), k)
    }

    /// The slot at which a search for `k` stops on a match.
    pub open spec fn lookup(self, k: Seq<u8>) -> Option<int> {
        if self.count() == 0 || self.cap() == 0 {
            None
        } else {
            walk(self.slots(), k, ideal(k, self.cap()), 0)
        }
    }

    proof fn lemma_lookup(self, k: Seq<u8>)
        requires
            self.wf(),
        ensures
            self.lookup(k) is Some <==> self.contains(k),
            self.lookup(k) is Some ==> occupied(self.slots(), self.lookup(k)->Some_0)
                && self.slots()[self.lookup(k)->Some_0]->Some_0.key() == k,
    {
        let s = self.slots();
        if self.lookup(k) is Some {
            lemma_walk_in_range(s, k, ideal(k, self.cap()), 0);
        }
        if self.contains(k) {
            let j = choose|j: int| #[trigger] occupied(s, j) && s[j]->Some_0.key() == k;
            assert(occupied_set(s).contains(j));
            lemma_occupied_finite(s);
            assert(self.count() > 0) by {
                vstd::set::axiom_set_contains_len(occupied_set(s), j);
            }
            assert(slot_ok(s, j));
            lemma_walk_finds(s, k, ideal(k, self.cap()), j, 0);
        }
    }

    /// A table never holds more records than it has slots.
    pub proof fn lemma_count_bound(self)
        requires
            self.wf(),
        ensures
            self.count() <= self.cap(),
    {
        lemma_occupied_finite(self.items@);
    }

    /// Every record of a table is kept in the table itself.
    pub proof fn lemma_kept_refl(self)
        ensures
            kept(self.slots(), self.slots(), None),
    {
        let s = self.slots();
        assert forall|x: int| #[trigger] occupied(s, x) implies exists|j: int|
            #[trigger] occupied(s, j) && s[j]->Some_0.agrees(s[x]->Some_0) by {
            s[x]->Some_0.lemma_agrees_refl();
        }
    }

    /// Every record sits exactly its probe counter past the slot its name
    /// hashes to, with every slot between taken.
    pub proof fn lemma_slots_ok(self)
        requires
            self.wf(),
        ensures
            self.slots().len() == self.cap(),
            forall|j: int| #[trigger] occupied(self.slots(), j) ==> slot_ok(self.slots(), j),
    {
    }

    /// The records keep the Robin-Hood order.
    pub proof fn lemma_ordered(self)
        requires
            self.wf(),
        ensures
            rh_ordered(self.slots()),
    {
    }

    /// The count is the number of taken slots.
    pub proof fn lemma_count(self)
        requires
            self.wf(),
        ensures
            occupied_set(self.slots()).finite(),
            occupied_set(self.slots()).len() == self.count(),
            self.count() <= self.cap(),
    {
        lemma_occupied_finite(self.items@);
    }

    /// An empty table holds no name.
    pub proof fn lemma_empty(self)
        requires
            self.wf(),
            self.count() == 0,
        ensures
            forall|k: Seq<u8>| !#[trigger] self.contains(k),
            forall|j: int| !#[trigger] occupied(self.slots(), j),
    {
        lemma_occupied_finite(self.items@);
        assert forall|j: int| !#[trigger] occupied(self.slots(), j) by {
            if occupied(self.slots(), j) {
                assert(occupied_set(self.items@).contains(j));
            }
        }
        assert forall|k: Seq<u8>| !#[trigger] self.contains(k) by {
            if self.contains(k) {
                let j = choose|j: int| #[trigger] occupied(self.items@, j) && self.items@[j]->Some_0.key() == k;
                assert(occupied_set(self.items@).contains(j));
            }
        }
    }

    /// A name that the table holds is found: the search from the slot it
    /// hashes to stops at a record of that name.
    pub proof fn lemma_contained_found(self, k: Seq<u8>)
        requires
            self.wf(),
            self.contains(k),
        ensures
            self.lookup(k) is Some,
            occupied(self.slots(), self.lookup(k)->Some_0),
            self.slots()[self.lookup(k)->Some_0]->Some_0.key() == k,
    {
        self.lemma_lookup(k);
    }

    /// No record sits farther from the slot its name hashes to than there are
    /// other records in the table.
    pub proof fn lemma_probe_bound(self)
        requires
            self.wf(),
        ensures
            forall|j: int| #[trigger]
                occupied(self.slots(), j) ==> self.slots()[j]->Some_0.probe() < self.count(),
    {
        let s = self.slots();
        let cap = s.len() as int;
        assert forall|j: int| #[trigger] occupied(s, j) implies s[j]->Some_0.probe() < self.count() by {
            assert(slot_ok(s, j));
            let v = s[j]->Some_0;
            let a = ideal(v.key(), s.len());
            let p = v.probe() as int;
            assert forall|d: int| 0 <= d < p + 1 implies #[trigger] occupied(s, wrap(a + d, cap)) by {
                if d == p {
                    assert(wrap(a + d, cap) == j);
                }
            }
            lemma_run_count(s, a, p + 1);
        }
    }

    /// A table of `capacity` empty slots, its room taken from `allocator`;
    /// `None`, with the allocator unchanged, where that has no room.
    pub fn from(allocator: &mut crate::mem::MemoryRange, capacity: usize) -> (r: Option<Self>)
        ensures
            r is Some <==> old(allocator).cursor() + vstd::layout::size_of::<V>() * capacity
                <= old(allocator).reserved(),
            r is None ==> *final(allocator) == *old(allocator),
            r is Some ==> {
                &&& r.unwrap().wf()
                &&& r.unwrap().cap() == capacity
                &&& r.unwrap().count() == 0
                &&& final(allocator).cursor() == old(allocator).cursor() + vstd::layout::size_of::<
                    V,
                >() * capacity
            },
            final(allocator).base() == old(allocator).base(),
            final(allocator).reserved() == old(allocator).reserved(),
            final(allocator).page() == old(allocator).page(),
            final(allocator).is_exec() == old(allocator).is_exec(),
    {
        match allocator.alloc_many::<V>(capacity) {
            None => None,
            Some(_) => {
                let mut items: Vec<Option<V>> = Vec::new();
                let mut i: usize = 0;
                while i < capacity
                    invariant
                        i <= capacity,
                        items@.len() == i,
                        forall|j: int| 0 <= j < i ==> items@[j] is None,
                    decreases capacity - i,
                {
                    items.push(None);
                    i = i + 1;
                }
                proof {
                    assert(occupied_set(items@) =~= Set::empty());
                }
                Some(Mapping { size: 0, capacity, items })
            },
        }
    }

    /// How many records the table holds.
    pub fn len(&self) -> (r: usize)
        ensures
            r == self.count(),
    {
        self.size
    }

    /// How many slots the table has.
    pub fn capacity(&self) -> (r: usize)
        ensures
            r == self.cap(),
    {
        self.capacity
    }

    /// Places `item`: from the slot its name hashes to, forward until an
    /// empty slot, and where a record sits nearer its own ideal slot than the
    /// walking one, the two trade places and the displaced one walks on.
    /// `None`, with nothing changed, when every slot is taken.
    #[verifier::rlimit(50)]
    pub fn insert(&mut self, item: V) -> (r: Option<()>)
        requires
            old(self).wf(),
            item.probe() == 0,
        ensures
            final(self).wf(),
            final(self).cap() == old(self).cap(),
            old(self).count() < old(self).cap() ==> r is Some,
            old(self).count() < old(self).cap() ==> final(self).count() == old(self).count() + 1,
            old(self).count() < old(self).cap() ==> forall|k: Seq<u8>|
                #![trigger final(self).contains(k)]
                #![trigger old(self).contains(k)]
                final(self).contains(k) <==> (old(self).contains(k) || k == item.key()),
            old(self).count() < old(self).cap() ==> exists|j: int|
                #[trigger] occupied(final(self).slots(), j) && final(self).slots()[j]->Some_0.agrees(
                    item,
                ),
            kept(old(self).slots(), final(self).slots(), None),
            old(self).count() < old(self).cap() ==> only_from(final(self).slots(), old(self).slots(), item),
            rh_ordered(final(self).slots()),
            old(self).count() < old(self).cap() ==> forall|r: V|
                #[trigger] agree_count(final(self).slots(), r) == agree_count(old(self).slots(), r)
                    + agrees_at(Some(item), r),
            old(self).count() >= old(self).cap() ==> {
                &&& r is None
                &&& *final(self) == *old(self)
            },
    {
        if self.size >= self.capacity {
            proof {
                self.lemma_kept_refl();
            }
            return None;
        }
        let cap = self.capacity;
        let ghost old_items = self.items@;
        proof {
            lemma_occupied_finite(old_items);
            item.lemma_agrees_refl();
            assert(comes_from(item, old_items, item));
            assert forall|x: int| #[trigger] occupied(old_items, x) implies exists|j: int|
                #[trigger] occupied(old_items, j) && old_items[j]->Some_0.agrees(old_items[x]->Some_0) by {
                old_items[x]->Some_0.lemma_agrees_refl();
            }
            assert forall|j: int| #[trigger] occupied(old_items, j) implies comes_from(
                old_items[j]->Some_0,
                old_items,
                item,
            ) by {
                old_items[j]->Some_0.lemma_agrees_refl();
            }
        }
        let mut cur = item;
        let start = (cur.id().hash32() as usize) % cap;
        let mut index = start;
        let mut t: usize = 0;
        while t < cap
            invariant
                self.capacity == cap,
                cap == old(self).capacity,
                old_items == old(self).items@,
                self.size == old(self).size,
                self.size < cap,
                self.items@.len() == cap,
                occupied_set(self.items@) == occupied_set(old_items),
                occupied_set(old_items).len() == self.size,
                occupied_set(old_items).finite(),
                forall|j: int| #[trigger] occupied(self.items@, j) ==> slot_ok(self.items@, j),
                0 <= start < cap,
                0 <= index < cap,
                t < cap ==> index == wrap(start + t, cap as int),
                forall|d: int| 0 <= d < t ==> #[trigger] occupied(self.items@, wrap(start + d, cap as int)),
                walker_ok(self.items@, index as int, cur),
                rh_ordered(self.items@),
                walker_ordered(self.items@, index as int, cur),
                forall|r: V|
                    #[trigger] agree_count(self.items@, r) + agrees_at(Some(cur), r) == agree_count(
                        old_items,
                        r,
                    ) + agrees_at(Some(item), r),
                forall|k: Seq<u8>|
                    #![trigger has_key(self.items@, k)]
                    #![trigger has_key(old_items, k)]
                    (has_key(self.items@, k) || k == cur.key()) <==> (has_key(old_items, k) || k
                        == item.key()),
                cur.agrees(item) || exists|j: int|
                    #[trigger] occupied(self.items@, j) && self.items@[j]->Some_0.agrees(item),
                kept(old_items, self.items@, Some(cur)),
                only_from(self.items@, old_items, item),
                comes_from(cur, old_items, item),
            decreases cap - t,
        {
            let ghost before = self.items@;
            let incumbent: Option<usize> = match &self.items[index] {
                Some(v) => Some(v.next()),
                None => None,
            };
            match incumbent {
                None => {
                    let ghost walker = cur;
                    let mut slot = Some(cur);
                    core::mem::swap(&mut self.items[index], &mut slot);
                    self.size = self.size + 1;
                    proof {
                        lemma_place(before, self.items@, index as int, walker, item, old_items);
                        lemma_place_ordered(before, self.items@, index as int, walker);
                        lemma_count_update(before, index as int, Some(walker));
                        let j = choose|j: int| #[trigger] occupied(self.items@, j) && self.items@[j]->Some_0.agrees(item);
                        assert(occupied(self.slots(), j) && self.slots()[j]->Some_0.agrees(item));
                    }
                    return Some(());
                },
                Some(p) => {
                    if p < cur.next() {
                        let ghost walker = cur;
                        let mut slot = Some(cur);
                        core::mem::swap(&mut self.items[index], &mut slot);
                        cur = slot.unwrap();
                        proof {
                            lemma_swap(before, self.items@, index as int, walker, item, old_items);
                            lemma_swap_ordered(before, self.items@, index as int, walker);
                            lemma_count_update(before, index as int, Some(walker));
                        }
                    }
                    let ghost a = ideal(cur.key(), cap as nat);
                    let ghost probe = cur.probe();
                    proof {
                        assert(wrap(a + probe, cap as int) == index);
                        assert forall|d: int| 0 <= d < probe + 1 implies #[trigger] occupied(
                            self.items@,
                            wrap(a + d, cap as int),
                        ) by {
                            if d == probe {
                                assert(wrap(a + d, cap as int) == index);
                            }
                        }
                        lemma_run_count(self.items@, a, (probe + 1) as int);
                    }
                    assert(cur.probe() <= self.items@[index as int]->Some_0.probe());
                    let ghost pre = cur;
                    let c = cur.next_mut();
                    *c = *c + 1;
                    proof {
                        if pre.agrees(item) {
                            cur.lemma_agrees_trans(pre, item);
                        }
                        lemma_comes_from_trans(cur, pre, old_items, item);
                        assert forall|r: V| agrees_at(Some(cur), r) == agrees_at(Some(pre), r) by {
                            if pre.agrees(r) {
                                cur.lemma_agrees_trans(pre, r);
                            }
                            if cur.agrees(r) {
                                cur.lemma_agrees_sym(pre);
                                pre.lemma_agrees_trans(cur, r);
                            }
                        }
                        assert(prev_slot(next_slot(index as int, cap as int), cap as int) == index);
                        assert forall|x: int| #[trigger] occupied(old_items, x) implies cur.agrees(
                            old_items[x]->Some_0,
                        ) || exists|j: int|
                            #[trigger] occupied(self.items@, j) && self.items@[j]->Some_0.agrees(
                                old_items[x]->Some_0,
                            ) by {
                            if pre.agrees(old_items[x]->Some_0) {
                                cur.lemma_agrees_trans(pre, old_items[x]->Some_0);
                            }
                        }
                        assert forall|k: Seq<u8>|
                            #![trigger has_key(self.items@, k)]
                            #![trigger has_key(old_items, k)]
                            (has_key(self.items@, k) || k == cur.key()) <==> (has_key(old_items, k) || k
                                == item.key()) by {
                            assert(cur.key() == pre.key());
                        }
                        assert forall|d: int| 0 <= d < t + 1 implies #[trigger] occupied(
                            self.items@,
                            wrap(start + d, cap as int),
                        ) by {
                            if d == t {
                                assert(wrap(start + d, cap as int) == index);
                            } else {
                                assert(occupied(before, wrap(start + d, cap as int)));
                                assert(occupied_set(before).contains(wrap(start + d, cap as int)));
                                assert(occupied_set(self.items@).contains(
                                    wrap(start + d, cap as int),
                                ));
                            }
                        }
                    }
                    index = if index + 1 == cap {
                        0
                    } else {
                        index + 1
                    };
                    t = t + 1;
                },
            }
        }
        proof {
            lemma_run_count(self.items@, start as int, cap as int);
        }
        None
    }

    /// Doubles the number of slots, taking room for the new slots from
    /// `allocator`, and puts every record back in its place in the larger
    /// table. `false`, with nothing changed, where the doubled size overflows
    /// or the allocator has no room for it.
    #[verifier::rlimit(80)]
    pub fn expand(&mut self, allocator: &mut crate::mem::MemoryRange) -> (r: bool)
        requires
            old(self).wf(),
        ensures
            final(self).wf(),
            r == (2 * old(self).cap() <= usize::MAX && old(allocator).cursor()
                + vstd::layout::size_of::<V>() * (2 * old(self).cap()) <= old(allocator).reserved()),
            r ==> {
                &&& final(self).cap() == 2 * old(self).cap()
                &&& final(self).count() == old(self).count()
                &&& forall|k: Seq<u8>|
                    #![trigger final(self).contains(k)]
                    #![trigger old(self).contains(k)]
                    final(self).contains(k) <==> old(self).contains(k)
                &&& final(allocator).cursor() == old(allocator).cursor()
                    + vstd::layout::size_of::<V>() * (2 * old(self).cap())
                &&& kept(old(self).slots(), final(self).slots(), None)
                &&& derived(final(self).slots(), old(self).slots())
                &&& forall|r: V|
                    #[trigger] agree_count(final(self).slots(), r) == agree_count(old(self).slots(), r)
            },
            !r ==> *final(self) == *old(self) && *final(allocator) == *old(allocator),
            final(allocator).base() == old(allocator).base(),
            final(allocator).reserved() == old(allocator).reserved(),
            final(allocator).page() == old(allocator).page(),
            final(allocator).is_exec() == old(allocator).is_exec(),
    {
        let new_cap = match self.capacity.checked_mul(2) {
            Some(c) => c,
            None => return false,
        };
        let mut table = match Mapping::<V>::from(allocator, new_cap) {
            Some(m) => m,
            None => return false,
        };
        let ghost old_items = self.items@;
        proof {
            lemma_occupied_finite(old_items);
            lemma_occupied_finite(table.items@);
            assert forall|k: Seq<u8>| !table.contains(k) by {
                if table.contains(k) {
                    let j = choose|j: int| #[trigger] occupied(table.items@, j) && table.items@[j]->Some_0.key() == k;
                    assert(occupied_set(table.items@).contains(j));
                }
            }
            assert forall|j: int| #[trigger] occupied(table.slots(), j) implies exists|x: int|
                #[trigger] occupied(old_items, x) && table.slots()[j]->Some_0.agrees(old_items[x]->Some_0) by {
                assert(occupied_set(table.items@).contains(j));
            }
            reveal(derived);
            table.lemma_empty();
            lemma_count_empty(table.slots());
        }
        let mut i: usize = 0;
        while i < self.capacity
            invariant
                table.wf(),
                table.cap() == new_cap,
                new_cap == 2 * old(self).capacity,
                self.capacity == old(self).capacity,
                self.size == old(self).size,
                old_items == old(self).items@,
                self.items@.len() == self.capacity,
                i <= self.capacity,
                forall|j: int| 0 <= j < i ==> self.items@[j] is None,
                occupied_set(self.items@).finite(),
                table.count() + occupied_set(self.items@).len() == self.size,
                occupied_set(old_items).len() == self.size,
                self.size <= self.capacity,
                forall|k: Seq<u8>|
                    (table.contains(k) || has_key(self.items@, k)) <==> has_key(old_items, k),
                forall|x: int| i <= x < self.capacity ==> self.items@[x] == old_items[x],
                derived(table.slots(), old_items),
                forall|r: V|
                    #[trigger] agree_count(old_items, r) == agree_count(table.slots(), r)
                        + agree_count(self.items@, r),
                old_items.len() == self.capacity,
                forall|x: int|
                    #[trigger] occupied(old_items, x) && x < i ==> exists|j: int|
                        #[trigger] occupied(table.slots(), j) && table.slots()[j]->Some_0.agrees(
                            old_items[x]->Some_0,
                        ),
            decreases self.capacity - i,
        {
            let ghost before = self.items@;
            let mut slot: Option<V> = None;
            core::mem::swap(&mut self.items[i], &mut slot);
            proof {
                assert(self.items@ == before.update(i as int, None));
                lemma_remove_keys(before, i as int);
                lemma_count_update(before, i as int, None);
            }
            match slot {
                Some(mut v) => {
                    proof {
                        assert(occupied_set(self.items@) =~= occupied_set(before).remove(i as int));
                        assert(occupied_set(before).contains(i as int));
                    }
                    let ghost v0 = v;
                    let c = v.next_mut();
                    *c = 0;
                    let ghost v1 = v;
                    let ghost t0 = table;
                    let _ = table.insert(v);
                    proof {
                        assert(before[i as int] == old_items[i as int]);
                        lemma_moved(t0.slots(), table.slots(), old_items, i as int, v0, v1);
                        assert forall|r: V| agrees_at(Some(v1), r) == agrees_at(before[i as int], r) by {
                            if v0.agrees(r) {
                                v1.lemma_agrees_trans(v0, r);
                            }
                            if v1.agrees(r) {
                                v1.lemma_agrees_sym(v0);
                                v0.lemma_agrees_trans(v1, r);
                            }
                        }
                    }
                },
                None => {
                    proof {
                        assert(occupied_set(self.items@) =~= occupied_set(before));
                    }
                },
            }
            i = i + 1;
        }
        proof {
            assert(occupied_set(self.items@) =~= Set::empty());
            assert forall|j: int| !#[trigger] occupied(self.items@, j) by {
                if occupied(self.items@, j) {
                    assert(occupied_set(self.items@).contains(j));
                }
            }
            lemma_count_empty(self.items@);
            assert forall|k: Seq<u8>| !has_key(self.items@, k) by {
                if has_key(self.items@, k) {
                    let j = choose|j: int| #[trigger] occupied(self.items@, j) && self.items@[j]->Some_0.key() == k;
                    assert(occupied_set(self.items@).contains(j));
                }
            }
        }
        proof {
            assert forall|x: int| #[trigger] occupied(old_items, x) implies exists|j: int|
                #[trigger] occupied(table.slots(), j) && table.slots()[j]->Some_0.agrees(old_items[x]->Some_0) by {
                assert(occupied(old_items, x) && x < self.capacity);
            }
        }
        *self = table;
        true
    }

    /// A walk over the records, in slot order.
    pub fn iter<'a>(&'a self) -> (r: MappingIter<'a, V>)
        ensures
            r.position() == 0,
            r.table() == *self,
    {
        MappingIter { pos: 0, mapping: self }
    }

    /// The record a search for `key` stops at: from the slot the key hashes
    /// to, forward past records of other names, until a match, an empty slot,
    /// or a full round.
    pub fn find(&self, key: &[u8]) -> (r: Option<&V>)
        requires
            self.wf(),
        ensures
            r is Some <==> self.lookup(key@) is Some,
            r is Some ==> *r.unwrap() == self.slots()[self.lookup(key@)->Some_0]->Some_0,
            r is Some <==> self.contains(key@),
            r is Some ==> r.unwrap().key() == key@,
    {
        proof {
            self.lemma_lookup(key@);
        }
        if self.size == 0 {
            return None;
        }
        let cap = self.capacity;
        if cap == 0 {
            return None;
        }
        let ghost s = self.items@;
        let start = (key.hash32() as usize) % cap;
        let mut index = start;
        let mut t: usize = 0;
        while t < cap
            invariant
                s == self.items@,
                s.len() == cap,
                cap > 0,
                cap == self.capacity,
                self.size > 0,
                self.lookup(key@) is Some <==> self.contains(key@),
                self.lookup(key@) is Some ==> s[self.lookup(key@)->Some_0]->Some_0.key() == key@,
                0 <= start < cap,
                start == ideal(key@, cap as nat),
                t <= cap,
                t < cap ==> index == wrap(start + t, cap as int),
                walk(s, key@, start as int, 0) == walk(s, key@, start as int, t as int),
            decreases cap - t,
        {
            match &self.items[index] {
                None => {
                    assert(walk(s, key@, start as int, t as int) is None);
                    return None;
                },
                Some(v) => {
                    if bytes_eq(v.id(), key) {
                        assert(walk(s, key@, start as int, t as int) == Some(index as int));
                        return Some(v);
                    }
                },
            }
            index = if index + 1 == cap {
                0
            } else {
                index + 1
            };
            t = t + 1;
        }
        None
    }
}

impl<'a, V: Mappable> MappingIter<'a, V> {
    /// The slot the walk goes on from.
    pub closed spec fn position(self) -> nat {
        self.pos as nat
    }

    /// The table being walked.
    pub closed spec fn table(self) -> Mapping<V> {
        *self.mapping
    }

    /// The next record at or after the walk's position, in slot order; the
    /// walk then goes on after it.
    pub fn next(&mut self) -> (r: Option<&'a V>)
        ensures
            final(self).table() == old(self).table(),
            next_occupied(old(self).table().slots(), old(self).position() as int) is Some ==> {
                let j = next_occupied(old(self).table().slots(), old(self).position() as int)->Some_0;
                &&& r is Some
                &&& *r.unwrap() == old(self).table().slots()[j]->Some_0
                &&& final(self).position() == j + 1
            },
            next_occupied(old(self).table().slots(), old(self).position() as int) is None ==> {
                &&& r is None
                &&& final(self).position() >= old(self).table().slots().len()
            },
    {
        let m: &'a Mapping<V> = self.mapping;
        let n = m.items.len();
        while self.pos < n
            invariant
                self.mapping == m,
                old(self).mapping == m,
                n == m.items@.len(),
                next_occupied(m.items@, old(self).pos as int) == next_occupied(m.items@, self.pos as int),
            decreases n - self.pos,
        {
            let p = self.pos;
            self.pos = p + 1;
            match &m.items[p] {
                Some(v) => {
                    assert(next_occupied(m.items@, p as int) == Some(p as int));
                    return Some(v);
                },
                None => {},
            }
        }
        None
    }
}

} // verus!
