//! A hash set resolving collisions by open addressing with bounded
//! linear probing: each slot holds at most one element; an element lives
//! in the first free slot at or after its home, found within the
//! collision limit. A probe run that reaches the limit forces a rebuild
//! at the next capacity.

use vstd::prelude::*;

use crate::bucket_set::bucket_index;
use crate::bucket_set::home_of;
use crate::bucket_set::lemma_take_one_more;
use crate::bucket_set::next_capacity_step;
use crate::settable::DIGEST_BOUND;
use crate::settable::Settable;

verus! {

broadcast use vstd::set::group_set_axioms, vstd::seq_lib::group_seq_lib_default;

/// A probe run may examine at most this many slots before the table is
/// considered too dense and is rebuilt.
const COLLISION_LIMIT: usize = 2;

/// How a lookup of an element resolves: an equal element at a slot, a
/// free slot where it could be stored, or a probe run at the limit.
enum IndexResult {
    Existing(usize),
    Empty(usize),
    CollisionLimitReached,
}

spec fn occ<T>(d: Seq<Option<T>>, j: int) -> bool {
    d[j] is Some
}

spec fn slot_val<T>(d: Seq<Option<T>>, j: int) -> T {
    d[j]->Some_0
}

/// No two slots hold equal elements, and every element sits at its home
/// slot, or one past it with the home slot occupied.
spec fn slots_wf<T: Settable>(d: Seq<Option<T>>) -> bool {
    &&& d.len() >= 4
    &&& forall|j1: int, j2: int|
        0 <= j1 < j2 < d.len() && #[trigger] occ(d, j1) && #[trigger] occ(d, j2) ==> slot_val(
            d,
            j1,
        ) != slot_val(d, j2)
    &&& forall|j: int|
        0 <= j < d.len() && #[trigger] occ(d, j) ==> {
            let h = home_of(slot_val(d, j), d.len() as int);
            j == h || (j == (h + 1) % (d.len() as int) && occ(d, h))
        }
}

/// The elements of the first `k` slots, as a set.
spec fn slots_set_prefix<T>(d: Seq<Option<T>>, k: int) -> Set<T> {
    Set::new(|x: T| exists|j: int| 0 <= j < k && (#[trigger] d[j]) == Option::Some(x))
}

/// The elements of the whole table, as a set.
spec fn slots_set<T>(d: Seq<Option<T>>) -> Set<T> {
    slots_set_prefix(d, d.len() as int)
}

/// Past `DIGEST_BOUND` slots, every stored element sits exactly at its
/// home slot: homes equal digests there, and a displaced element would
/// need another element sharing its home.
proof fn lemma_all_at_home<T: Settable>(d: Seq<Option<T>>, j: int)
    requires
        slots_wf(d),
        d.len() > DIGEST_BOUND,
        0 <= j < d.len(),
        occ(d, j),
    ensures
        home_of(slot_val(d, j), d.len() as int) == j,
        slot_val(d, j).digest() == j,
    decreases j,
{
    let n = d.len() as int;
    let x = slot_val(d, j);
    T::digest_bounded(x);
    vstd::arithmetic::div_mod::lemma_small_mod(x.digest() as nat, n as nat);
    let h = home_of(x, n);
    assert(h == x.digest());
    if j != h {
        assert(h + 1 < n);
        vstd::arithmetic::div_mod::lemma_small_mod((h + 1) as nat, n as nat);
        assert(j == h + 1);
        assert(occ(d, h));
        lemma_all_at_home(d, h);
        let y = slot_val(d, h);
        assert(y.digest() == h && x.digest() == h);
        T::digest_injective(x, y);
        assert(false);
    }
}

/// Resolves where `element` is or would go: the slot of an equal
/// element, a free slot within the probe limit, or the report that the
/// probe run hit the limit — which can only happen while the table is
/// still small enough to double.
fn probe_slots<T: Settable>(data: &Vec<Option<T>>, element: &T) -> (r: IndexResult)
    requires
        slots_wf(data@),
    ensures
        ({
            let d = data@;
            let n = d.len() as int;
            let h = home_of(*element, n);
            match r {
                IndexResult::Existing(j) => j < d.len() && d[j as int] == Option::Some(*element),
                IndexResult::Empty(j) => {
                    &&& j < d.len()
                    &&& d[j as int] is None
                    &&& !slots_set(d).contains(*element)
                    &&& (j == h || (j == (h + 1) % n && occ(d, h)))
                },
                IndexResult::CollisionLimitReached => {
                    &&& !slots_set(d).contains(*element)
                    &&& d.len() <= DIGEST_BOUND
                },
            }
        }),
{
    let cap = data.len();
    let h = bucket_index(element, cap);
    let ghost n = data@.len() as int;
    proof {
        vstd::arithmetic::div_mod::lemma_small_mod(h as nat, cap as nat);
    }
    let mut collisions: usize = 0;
    loop
        invariant
            slots_wf(data@),
            cap == data@.len(),
            h as int == home_of(*element, n),
            n == cap as int,
            h < cap,
            collisions < COLLISION_LIMIT,
            forall|p: int|
                0 <= p < collisions ==> occ(data@, #[trigger] ((h + p) % n)) && slot_val(
                    data@,
                    (h + p) % n,
                ) != *element,
        decreases COLLISION_LIMIT - collisions,
    {
        let idx = (h + collisions) % cap;
        proof {
            assert(idx as int == (h + collisions) % n);
        }
        match &data[idx] {
            Option::Some(stored) => {
                if stored.eq_val(element) {
                    return IndexResult::Existing(idx);
                }
                collisions = collisions + 1;
                if collisions >= COLLISION_LIMIT {
                    proof {
                        vstd::arithmetic::div_mod::lemma_small_mod(h as nat, cap as nat);
                        assert((h + 0) % n == h as int);
                        assert(occ(data@, h as int) && slot_val(data@, h as int) != *element);
                        assert(idx as int == (h + 1) % n);
                        assert(data@[idx as int] == Option::Some(*stored));
                        assert(occ(data@, (h + 1) % n) && slot_val(data@, (h + 1) % n)
                            != *element);
                        assert(!slots_set(data@).contains(*element)) by {
                            if slots_set(data@).contains(*element) {
                                let j = choose|j: int|
                                    0 <= j < n && (#[trigger] data@[j]) == Option::Some(*element);
                                assert(occ(data@, j));
                                assert(slot_val(data@, j) == *element);
                                assert(j == h as int || j == (h + 1) % n);
                                assert(false);
                            }
                        }
                        assert(data@.len() <= DIGEST_BOUND) by {
                            if data@.len() > DIGEST_BOUND {
                                lemma_all_at_home(data@, h as int);
                                let y = slot_val(data@, h as int);
                                T::digest_bounded(*element);
                                vstd::arithmetic::div_mod::lemma_small_mod(
                                    element.digest() as nat,
                                    cap as nat,
                                );
                                assert(y.digest() == h && element.digest() == h);
                                T::digest_injective(y, *element);
                                assert(false);
                            }
                        }
                    }
                    return IndexResult::CollisionLimitReached;
                }
            },
            Option::None => {
                proof {
                    vstd::arithmetic::div_mod::lemma_small_mod(h as nat, cap as nat);
                    assert((h + 0) % n == h as int);
                    assert(data@[idx as int] is None);
                    assert(!slots_set(data@).contains(*element)) by {
                        if slots_set(data@).contains(*element) {
                            let j = choose|j: int|
                                0 <= j < n && (#[trigger] data@[j]) == Option::Some(*element);
                            assert(occ(data@, j));
                            assert(slot_val(data@, j) == *element);
                            assert(j == h as int || (j == (h + 1) % n && occ(data@, h as int)));
                            if collisions == 0 {
                                assert(idx as int == h);
                                assert(j != h as int);
                                assert(occ(data@, h as int));
                                assert(j == idx as int);
                            } else {
                                assert(occ(data@, h as int));
                                assert(slot_val(data@, h as int) != *element);
                                assert(j == (h + 1) % n);
                                assert(idx as int == j);
                            }
                            assert(false);
                        }
                    }
                    if collisions == 1 {
                        assert(occ(data@, h as int));
                    }
                }
                return IndexResult::Empty(idx);
            },
        }
    }
}

fn empty_slots<T>(cap: usize) -> (r: Vec<Option<T>>)
    ensures
        r@.len() == cap,
        forall|j: int| 0 <= j < cap ==> r@[j] is None,
{
    let mut r: Vec<Option<T>> = Vec::new();
    while r.len() < cap
        invariant
            r@.len() <= cap,
            forall|j: int| 0 <= j < r@.len() ==> r@[j] is None,
        decreases cap - r@.len(),
    {
        r.push(Option::None);
    }
    r
}

/// A set of elements stored as a table of single-element slots, together
/// with the count of elements currently inserted.
pub struct GlobalSet<T: Settable> {
    data: Vec<Option<T>>,
    inserted_elements: usize,
}

impl<T: Settable> View for GlobalSet<T> {
    type V = Set<T>;

    closed spec fn view(&self) -> Set<T> {
        slots_set(self.data@)
    }
}

impl<T: Settable> GlobalSet<T> {
    /// The table is well formed and the element count matches it.
    pub closed spec fn wf(self) -> bool {
        &&& slots_wf(self.data@)
        &&& self@.finite()
        &&& self.inserted_elements == self@.len()
    }

    /// A set holding each distinct element of `input` once. The table is
    /// seeded at the growth step of the input length.
    pub fn new(input: &[T]) -> (r: Self)
        requires
            input@.len() <= usize::MAX / 2,
        ensures
            r.wf(),
            r@ == input@.to_set(),
    {
        let cap = next_capacity_step(input.len());
        let mut r = Self { data: empty_slots(cap), inserted_elements: 0 };
        proof {
            assert(r@ =~= Set::<T>::empty());
            assert(r.wf());
        }
        let n = input.len();
        let mut k: usize = 0;
        while k < n
            invariant
                r.wf(),
                n == input@.len(),
                k <= n,
                r@ == input@.take(k as int).to_set(),
            decreases n - k,
        {
            let x = input[k].clone_val();
            r.add(x);
            proof {
                lemma_take_one_more(input@, k as int);
            }
            k = k + 1;
        }
        proof {
            assert(input@.take(n as int) =~= input@);
        }
        r
    }

    /// Whether an element equal to `element` is stored: a probe run from
    /// the element's home slot.
    pub fn contains(&self, element: &T) -> (r: bool)
        requires
            self.wf(),
        ensures
            r == self@.contains(*element),
    {
        let probe = probe_slots(&self.data, element);
        match probe {
            IndexResult::Existing(j) => {
                proof {
                    assert(self.data@[j as int] == Option::Some(*element));
                }
                true
            },
            IndexResult::Empty(_) => false,
            IndexResult::CollisionLimitReached => false,
        }
    }

    /// Inserts `element` if no equal element is stored; re-adding is a
    /// no-op. May rebuild the table at a larger capacity first.
    pub fn add(&mut self, element: T)
        requires
            old(self).wf(),
        ensures
            final(self).wf(),
            final(self)@ == old(self)@.insert(element),
    {
        loop
            invariant
                self.wf(),
                self@ == old(self)@,
            decreases usize::MAX - self.data.len(),
        {
            let probe = probe_slots(&self.data, &element);
            match probe {
                IndexResult::Existing(j) => {
                    proof {
                        assert(self.data@[j as int] == Option::Some(element));
                        assert(self@.contains(element));
                        assert(old(self)@.insert(element) =~= self@);
                    }
                    return ;
                },
                IndexResult::Empty(idx) => {
                    proof {
                        crate::settable::lemma_card_below_digest_bound(self@);
                    }
                    let ghost before = self.data@;
                    let slot = &mut self.data[idx];
                    *slot = Option::Some(element);
                    self.inserted_elements = self.inserted_elements + 1;
                    proof {
                        let d2 = self.data@;
                        assert(d2 =~= before.update(idx as int, Option::Some(element)));
                        assert forall|j1: int, j2: int|
                            0 <= j1 < j2 < d2.len() && #[trigger] occ(d2, j1) && #[trigger] occ(
                                d2,
                                j2,
                            ) implies slot_val(d2, j1) != slot_val(d2, j2) by {
                            if j1 != idx && j2 != idx {
                                assert(occ(before, j1) && occ(before, j2));
                            } else {
                                let o = if j1 == idx {
                                    j2
                                } else {
                                    j1
                                };
                                assert(occ(before, o));
                                if slot_val(d2, o) == element {
                                    assert(before[o] == Option::Some(element));
                                    assert(slots_set(before).contains(element));
                                }
                            }
                        }
                        assert forall|j: int| 0 <= j < d2.len() && #[trigger] occ(d2, j) implies {
                            let h = home_of(slot_val(d2, j), d2.len() as int);
                            j == h || (j == (h + 1) % (d2.len() as int) && occ(d2, h))
                        } by {
                            if j != idx {
                                assert(occ(before, j));
                                let h = home_of(slot_val(before, j), before.len() as int);
                                if j != h {
                                    assert(occ(before, h));
                                    assert(occ(d2, h));
                                }
                            } else {
                                let h = home_of(element, d2.len() as int);
                                if idx as int != h {
                                    assert(occ(before, h));
                                    assert(occ(d2, h));
                                }
                            }
                        }
                        assert forall|x: T| slots_set(d2).contains(x) == old(
                            self,
                        )@.insert(element).contains(x) by {
                            if x == element {
                                assert(d2[idx as int] == Option::Some(x));
                            } else {
                                if slots_set(before).contains(x) {
                                    let j = choose|j: int|
                                        0 <= j < before.len() && (#[trigger] before[j])
                                            == Option::Some(x);
                                    assert(d2[j] == Option::Some(x));
                                } else if slots_set(d2).contains(x) {
                                    let j = choose|j: int|
                                        0 <= j < d2.len() && (#[trigger] d2[j]) == Option::Some(x);
                                    assert(before[j] == Option::Some(x));
                                }
                            }
                        }
                        assert(self@ =~= old(self)@.insert(element));
                        assert(self.wf());
                    }
                    return ;
                },
                IndexResult::CollisionLimitReached => {
                    self.grow();
                },
            }
        }
    }

    /// Rebuilds the table at the next capacity that fits every element,
    /// and recomputes the element count from scratch.
    fn grow(&mut self)
        requires
            old(self).wf(),
            old(self).data@.len() <= DIGEST_BOUND,
        ensures
            final(self).wf(),
            final(self)@ == old(self)@,
            final(self).data@.len() > old(self).data@.len(),
    {
        let elems = self.all_elements();
        let mut target = next_capacity_step(self.data.len());
        loop
            invariant
                self.wf(),
                self == old(self),
                target > self.data@.len(),
                target <= 2 * DIGEST_BOUND,
                elems@.no_duplicates(),
                forall|x: T| elems@.contains(x) == self@.contains(x),
                elems@.len() == self@.len(),
            decreases 2 * DIGEST_BOUND - target,
        {
            let attempt = Self::build_table(&elems, target);
            match attempt {
                Option::Some(table) => {
                    let count = elems.len();
                    let ghost prev = *self;
                    self.data = table;
                    self.inserted_elements = count;
                    proof {
                        assert forall|x: T| self@.contains(x) == prev@.contains(x) by {
                            assert(self@.contains(x) == elems@.contains(x));
                        }
                        assert(self@ =~= old(self)@);
                        elems@.unique_seq_to_set();
                        assert(elems@.to_set() =~= self@);
                        assert(self.wf());
                    }
                    return ;
                },
                Option::None => {
                    target = next_capacity_step(target);
                },
            }
        }
    }

    /// Fills a fresh table of `cap` slots with `elems`, or reports that
    /// some probe run would pass the collision limit.
    fn build_table(elems: &Vec<T>, cap: usize) -> (r: Option<Vec<Option<T>>>)
        requires
            cap >= 4,
            elems@.no_duplicates(),
        ensures
            match r {
                Option::Some(table) => {
                    &&& slots_wf(table@)
                    &&& table@.len() == cap
                    &&& forall|x: T| slots_set(table@).contains(x) == elems@.contains(x)
                },
                Option::None => cap <= DIGEST_BOUND,
            },
    {
        let mut table = empty_slots(cap);
        proof {
            assert(slots_wf(table@));
            assert forall|x: T| slots_set(table@).contains(x) == elems@.take(0).contains(x) by {
                if slots_set(table@).contains(x) {
                    let j = choose|j: int|
                        0 <= j < cap && (#[trigger] table@[j]) == Option::Some(x);
                }
            }
        }
        let n = elems.len();
        let mut k: usize = 0;
        while k < n
            invariant
                n == elems@.len(),
                k <= n,
                cap >= 4,
                elems@.no_duplicates(),
                slots_wf(table@),
                table@.len() == cap,
                forall|x: T| slots_set(table@).contains(x) == elems@.take(k as int).contains(x),
            decreases n - k,
        {
            let x = elems[k].clone_val();
            proof {
                assert(!elems@.take(k as int).contains(x)) by {
                    if elems@.take(k as int).contains(x) {
                        let j = choose|j: int| 0 <= j < k && #[trigger] elems@.take(k as int)[j]
                            == x;
                        assert(elems@[j] == elems@[k as int]);
                    }
                }
                lemma_take_one_more(elems@, k as int);
            }
            let probe = probe_slots(&table, &x);
            match probe {
                IndexResult::Existing(j) => {
                    proof {
                        assert(table@[j as int] == Option::Some(x));
                        assert(slots_set(table@).contains(x));
                        assert(false);
                    }
                },
                IndexResult::Empty(idx) => {
                    let ghost before = table@;
                    let slot = &mut table[idx];
                    *slot = Option::Some(x);
                    proof {
                        let d2 = table@;
                        assert(d2 =~= before.update(idx as int, Option::Some(x)));
                        assert forall|j1: int, j2: int|
                            0 <= j1 < j2 < d2.len() && #[trigger] occ(d2, j1) && #[trigger] occ(
                                d2,
                                j2,
                            ) implies slot_val(d2, j1) != slot_val(d2, j2) by {
                            if j1 != idx && j2 != idx {
                                assert(occ(before, j1) && occ(before, j2));
                            } else {
                                let o = if j1 == idx {
                                    j2
                                } else {
                                    j1
                                };
                                assert(occ(before, o));
                                if slot_val(d2, o) == x {
                                    assert(before[o] == Option::Some(x));
                                    assert(slots_set(before).contains(x));
                                }
                            }
                        }
                        assert forall|j: int| 0 <= j < d2.len() && #[trigger] occ(d2, j) implies {
                            let h = home_of(slot_val(d2, j), d2.len() as int);
                            j == h || (j == (h + 1) % (d2.len() as int) && occ(d2, h))
                        } by {
                            if j != idx {
                                assert(occ(before, j));
                                let h = home_of(slot_val(before, j), before.len() as int);
                                if j != h {
                                    assert(occ(before, h));
                                    assert(occ(d2, h));
                                }
                            } else {
                                let h = home_of(x, d2.len() as int);
                                if idx as int != h {
                                    assert(occ(before, h));
                                    assert(occ(d2, h));
                                }
                            }
                        }
                        assert(elems@.take(k + 1 as int) =~= elems@.take(k as int).push(
                            elems@[k as int],
                        ));
                        assert forall|y: T| slots_set(d2).contains(y) == elems@.take(
                            k + 1 as int,
                        ).contains(y) by {
                            if y == x {
                                assert(d2[idx as int] == Option::Some(y));
                                assert(elems@.take(k + 1 as int)[k as int] == y);
                            } else {
                                if slots_set(before).contains(y) {
                                    let j = choose|j: int|
                                        0 <= j < before.len() && (#[trigger] before[j])
                                            == Option::Some(y);
                                    assert(d2[j] == Option::Some(y));
                                } else if slots_set(d2).contains(y) {
                                    let j = choose|j: int|
                                        0 <= j < d2.len() && (#[trigger] d2[j]) == Option::Some(y);
                                    assert(before[j] == Option::Some(y));
                                }
                                if elems@.take(k as int).contains(y) {
                                    let j = choose|j: int|
                                        0 <= j < k && #[trigger] elems@.take(k as int)[j] == y;
                                    assert(elems@.take(k + 1 as int)[j] == y);
                                } else if elems@.take(k + 1 as int).contains(y) {
                                    let j = choose|j: int|
                                        0 <= j < k + 1 && #[trigger] elems@.take(k + 1 as int)[j]
                                            == y;
                                    assert(j < k);
                                    assert(elems@.take(k as int)[j] == y);
                                }
                            }
                        }
                    }
                },
                IndexResult::CollisionLimitReached => {
                    return Option::None;
                },
            }
            k = k + 1;
        }
        proof {
            assert(elems@.take(n as int) =~= elems@);
        }
        Option::Some(table)
    }

    /// Every stored element, each exactly once, in slot order.
    fn all_elements(&self) -> (r: Vec<T>)
        requires
            self.wf(),
        ensures
            r@.no_duplicates(),
            forall|x: T| r@.contains(x) == self@.contains(x),
            r@.len() == self@.len(),
    {
        let mut r: Vec<T> = Vec::new();
        let cap = self.data.len();
        let mut j: usize = 0;
        while j < cap
            invariant
                self.wf(),
                cap == self.data@.len(),
                j <= cap,
                r@.no_duplicates(),
                forall|x: T| r@.contains(x) == slots_set_prefix(self.data@, j as int).contains(x),
            decreases cap - j,
        {
            let ghost rbefore = r@;
            match &self.data[j] {
                Option::Some(stored) => {
                    let x = stored.clone_val();
                    proof {
                        assert(!r@.contains(x)) by {
                            if slots_set_prefix(self.data@, j as int).contains(x) {
                                let w = choose|w: int|
                                    0 <= w < j && (#[trigger] self.data@[w]) == Option::Some(x);
                                assert(occ(self.data@, w) && occ(self.data@, j as int));
                                assert(slot_val(self.data@, w) == slot_val(self.data@, j as int));
                                assert(false);
                            }
                        }
                    }
                    r.push(x);
                    proof {
                        assert forall|y: T| r@.contains(y) == (rbefore.contains(y) || y == x) by {
                            if r@.contains(y) {
                                let w = choose|w: int| 0 <= w < r@.len() && r@[w] == y;
                                if w < rbefore.len() {
                                    assert(rbefore[w] == y);
                                }
                            }
                            if rbefore.contains(y) {
                                let w = choose|w: int| 0 <= w < rbefore.len() && rbefore[w] == y;
                                assert(r@[w] == y);
                            }
                            if y == x {
                                assert(r@[rbefore.len() as int] == y);
                            }
                        }
                        assert(r@.no_duplicates()) by {
                            assert forall|w1: int, w2: int|
                                0 <= w1 < w2 < r@.len() implies r@[w1] != r@[w2] by {
                                if w2 == rbefore.len() {
                                    assert(rbefore.contains(rbefore[w1]));
                                }
                            }
                        }
                    }
                    proof {
                        assert(self.data@[j as int] == Option::Some(x));
                        assert forall|y: T| r@.contains(y) == slots_set_prefix(
                            self.data@,
                            j + 1 as int,
                        ).contains(y) by {
                            if rbefore.contains(y) {
                                let w = choose|w: int|
                                    0 <= w < j && (#[trigger] self.data@[w]) == Option::Some(y);
                                assert(slots_set_prefix(self.data@, j + 1 as int).contains(y));
                            }
                            if y == x {
                                assert(slots_set_prefix(self.data@, j + 1 as int).contains(y));
                            }
                            if slots_set_prefix(self.data@, j + 1 as int).contains(y) {
                                let w = choose|w: int|
                                    0 <= w < j + 1 && (#[trigger] self.data@[w]) == Option::Some(
                                        y,
                                    );
                                if w < j {
                                    assert(slots_set_prefix(self.data@, j as int).contains(y));
                                    assert(rbefore.contains(y));
                                } else {
                                    assert(y == x);
                                }
                            }
                        }
                    }
                },
                Option::None => {
                    proof {
                        assert(self.data@[j as int] is None);
                        assert forall|y: T| r@.contains(y) == slots_set_prefix(
                            self.data@,
                            j + 1 as int,
                        ).contains(y) by {
                            if slots_set_prefix(self.data@, j as int).contains(y) {
                                let w = choose|w: int|
                                    0 <= w < j && (#[trigger] self.data@[w]) == Option::Some(y);
                                assert(slots_set_prefix(self.data@, j + 1 as int).contains(y));
                            }
                            if slots_set_prefix(self.data@, j + 1 as int).contains(y) {
                                let w = choose|w: int|
                                    0 <= w < j + 1 && (#[trigger] self.data@[w]) == Option::Some(
                                        y,
                                    );
                                assert(w < j);
                                assert(slots_set_prefix(self.data@, j as int).contains(y));
                            }
                        }
                    }
                },
            }
            j = j + 1;
        }
        proof {
            assert(r@.to_set() =~= self@);
            r@.unique_seq_to_set();
        }
        r
    }

    /// Whether every stored element of `self` is stored in `other`.
    /// Rejects immediately when `self` holds more elements than `other`.
    pub fn is_subset(&self, other: &Self) -> (r: bool)
        requires
            self.wf(),
            other.wf(),
        ensures
            r == self@.subset_of(other@),
    {
        if self.inserted_elements > other.inserted_elements {
            proof {
                if self@.subset_of(other@) {
                    vstd::set_lib::lemma_len_subset(self@, other@);
                }
            }
            return false;
        }
        let elems = self.all_elements();
        let n = elems.len();
        let mut k: usize = 0;
        while k < n
            invariant
                self.wf(),
                other.wf(),
                n == elems@.len(),
                k <= n,
                forall|x: T| elems@.contains(x) == self@.contains(x),
                forall|j: int| 0 <= j < k ==> other@.contains(#[trigger] elems@[j]),
            decreases n - k,
        {
            if !other.contains(&elems[k]) {
                proof {
                    assert(elems@.contains(elems@[k as int]));
                }
                return false;
            }
            k = k + 1;
        }
        proof {
            assert forall|x: T| self@.contains(x) implies other@.contains(x) by {
                let j = choose|j: int| 0 <= j < elems@.len() && elems@[j] == x;
            }
        }
        true
    }

    /// Whether no element is stored.
    pub fn is_empty(&self) -> (r: bool)
        requires
            self.wf(),
        ensures
            r == (self@.len() == 0),
            r == (self@ == Set::<T>::empty()),
    {
        proof {
            if self@.len() == 0 {
                self@.lemma_len0_is_empty();
            }
            if self@ == Set::<T>::empty() {
                assert(self@.len() == 0);
            }
        }
        self.inserted_elements == 0
    }

    /// Whether no stored element of `self` is stored in `other`.
    pub fn is_disjoint(&self, other: &Self) -> (r: bool)
        requires
            self.wf(),
            other.wf(),
        ensures
            r == self@.disjoint(other@),
    {
        let elems = self.all_elements();
        let n = elems.len();
        let mut k: usize = 0;
        while k < n
            invariant
                self.wf(),
                other.wf(),
                n == elems@.len(),
                k <= n,
                forall|x: T| elems@.contains(x) == self@.contains(x),
                forall|j: int| 0 <= j < k ==> !other@.contains(#[trigger] elems@[j]),
            decreases n - k,
        {
            if other.contains(&elems[k]) {
                proof {
                    assert(elems@.contains(elems@[k as int]));
                }
                return false;
            }
            k = k + 1;
        }
        proof {
            assert forall|x: T| self@.contains(x) implies !other@.contains(x) by {
                let j = choose|j: int| 0 <= j < elems@.len() && elems@[j] == x;
            }
        }
        true
    }

    /// A new set of the elements stored in both `self` and `other`.
    pub fn intersection(&self, other: &Self) -> (r: Self)
        requires
            self.wf(),
            other.wf(),
        ensures
            r.wf(),
            r@ == self@.intersect(other@),
    {
        let elems = self.all_elements();
        let mut r = Self { data: empty_slots(4), inserted_elements: 0 };
        proof {
            assert(r@ =~= Set::<T>::empty());
            assert(r.wf());
        }
        let n = elems.len();
        let mut k: usize = 0;
        while k < n
            invariant
                self.wf(),
                other.wf(),
                r.wf(),
                n == elems@.len(),
                k <= n,
                elems@.no_duplicates(),
                forall|x: T| elems@.contains(x) == self@.contains(x),
                r@ == elems@.take(k as int).to_set().intersect(other@),
            decreases n - k,
        {
            let x = elems[k].clone_val();
            proof {
                lemma_take_one_more(elems@, k as int);
            }
            if other.contains(&x) {
                r.add(x);
            }
            proof {
                assert(r@ =~= elems@.take(k + 1 as int).to_set().intersect(other@));
            }
            k = k + 1;
        }
        proof {
            assert(elems@.take(n as int) =~= elems@);
            assert(r@ =~= self@.intersect(other@)) by {
                assert(elems@.to_set().intersect(other@) =~= self@.intersect(other@));
            }
        }
        r
    }

    /// A new set of the elements stored in `self` but not in `other`.
    pub fn difference(&self, other: &Self) -> (r: Self)
        requires
            self.wf(),
            other.wf(),
        ensures
            r.wf(),
            r@ == self@.difference(other@),
    {
        let elems = self.all_elements();
        let mut r = Self { data: empty_slots(4), inserted_elements: 0 };
        proof {
            assert(r@ =~= Set::<T>::empty());
            assert(r.wf());
        }
        let n = elems.len();
        let mut k: usize = 0;
        while k < n
            invariant
                self.wf(),
                other.wf(),
                r.wf(),
                n == elems@.len(),
                k <= n,
                elems@.no_duplicates(),
                forall|x: T| elems@.contains(x) == self@.contains(x),
                r@ == elems@.take(k as int).to_set().difference(other@),
            decreases n - k,
        {
            let x = elems[k].clone_val();
            proof {
                lemma_take_one_more(elems@, k as int);
            }
            if !other.contains(&x) {
                r.add(x);
            }
            proof {
                assert(r@ =~= elems@.take(k + 1 as int).to_set().difference(other@));
            }
            k = k + 1;
        }
        proof {
            assert(elems@.take(n as int) =~= elems@);
            assert(r@ =~= self@.difference(other@)) by {
                assert(elems@.to_set().difference(other@) =~= self@.difference(other@));
            }
        }
        r
    }

    /// A new set of the elements stored in `self` or in `other`.
    pub fn union(&self, other: &Self) -> (r: Self)
        requires
            self.wf(),
            other.wf(),
        ensures
            r.wf(),
            r@ == self@.union(other@),
    {
        let ours = self.all_elements();
        let theirs = other.all_elements();
        let mut r = Self { data: empty_slots(4), inserted_elements: 0 };
        proof {
            assert(r@ =~= Set::<T>::empty());
            assert(r.wf());
        }
        let n = ours.len();
        let mut k: usize = 0;
        while k < n
            invariant
                self.wf(),
                r.wf(),
                n == ours@.len(),
                k <= n,
                forall|x: T| ours@.contains(x) == self@.contains(x),
                r@ == ours@.take(k as int).to_set(),
            decreases n - k,
        {
            let x = ours[k].clone_val();
            proof {
                lemma_take_one_more(ours@, k as int);
            }
            r.add(x);
            k = k + 1;
        }
        proof {
            assert(ours@.take(n as int) =~= ours@);
        }
        let m = theirs.len();
        let mut k2: usize = 0;
        while k2 < m
            invariant
                other.wf(),
                r.wf(),
                m == theirs@.len(),
                k2 <= m,
                forall|x: T| ours@.contains(x) == self@.contains(x),
                forall|x: T| theirs@.contains(x) == other@.contains(x),
                r@ == ours@.to_set().union(theirs@.take(k2 as int).to_set()),
            decreases m - k2,
        {
            let x = theirs[k2].clone_val();
            proof {
                lemma_take_one_more(theirs@, k2 as int);
                assert(ours@.to_set().union(theirs@.take(k2 + 1 as int).to_set()) =~= ours@.to_set().union(
                    theirs@.take(k2 as int).to_set(),
                ).insert(theirs@[k2 as int]));
            }
            r.add(x);
            k2 = k2 + 1;
        }
        proof {
            assert(theirs@.take(m as int) =~= theirs@);
            assert(r@ =~= self@.union(other@)) by {
                assert(ours@.to_set() =~= self@);
                assert(theirs@.to_set() =~= other@);
            }
        }
        r
    }

    /// Whether `self` and `other` store the same elements: equal counts
    /// plus subset suffices, since a subset of equal finite cardinality
    /// is the whole set.
    pub fn equals(&self, other: &Self) -> (r: bool)
        requires
            self.wf(),
            other.wf(),
        ensures
            r == (self@ == other@),
    {
        if self.inserted_elements != other.inserted_elements {
            proof {
                if self@ == other@ {
                    assert(self@.len() == other@.len());
                }
            }
            return false;
        }
        let r = self.is_subset(other);
        proof {
            if r {
                vstd::set_lib::lemma_subset_equality(self@, other@);
            }
        }
        r
    }
}

} // verus!
