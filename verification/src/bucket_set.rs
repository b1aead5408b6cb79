//! A hash set resolving collisions by separate chaining: each bucket is
//! a singly-linked list of the elements whose digest maps to it. When a
//! bucket's chain would grow past the collision limit, the whole table
//! is rebuilt at the next capacity and every element reinserted.

use vstd::prelude::*;

use crate::linked_list::SimpleLinkedList;
use crate::settable::DIGEST_BOUND;
use crate::settable::Settable;

verus! {

broadcast use vstd::set::group_set_axioms, vstd::seq_lib::group_seq_lib_default;

/// A bucket's chain may hold at most this many elements; a chain that
/// would grow past it forces a rebuild at the next capacity.
const COLLISION_LIMIT: usize = 2;

/// The bucket an element with digest `d` belongs to in a table of
/// `cap` buckets.
pub open spec fn home_of<T: Settable>(x: T, cap: int) -> int {
    (x.digest() as int) % cap
}

spec fn buckets_of<T>(data: Seq<SimpleLinkedList<T>>) -> Seq<Seq<T>> {
    data.map_values(|l: SimpleLinkedList<T>| l@)
}

spec fn lists_wf<T>(data: Seq<SimpleLinkedList<T>>) -> bool {
    forall|i: int| 0 <= i < data.len() ==> (#[trigger] data[i]).wf()
}

/// Every element sits in its home bucket, no bucket has duplicates,
/// and no chain is longer than the collision limit.
spec fn table_wf<T: Settable>(bs: Seq<Seq<T>>) -> bool {
    &&& bs.len() >= 4
    &&& forall|i: int, j: int|
        0 <= i < bs.len() && 0 <= j < bs[i].len() ==> home_of(#[trigger] bs[i][j], bs.len() as int)
            == i
    &&& forall|i: int| 0 <= i < bs.len() ==> (#[trigger] bs[i]).no_duplicates()
    &&& forall|i: int| 0 <= i < bs.len() ==> (#[trigger] bs[i]).len() <= COLLISION_LIMIT
}

/// The elements of the first `k` buckets, as a set.
spec fn set_prefix<T>(bs: Seq<Seq<T>>, k: int) -> Set<T> {
    Set::new(|x: T| exists|i: int| 0 <= i < k && (#[trigger] bs[i]).contains(x))
}

/// The elements of the whole table, as a set.
spec fn table_set<T>(bs: Seq<Seq<T>>) -> Set<T> {
    set_prefix(bs, bs.len() as int)
}

/// Taking one more element of a sequence adds that element to the set
/// of the taken prefix.
pub proof fn lemma_take_one_more<T>(s: Seq<T>, k: int)
    requires
        0 <= k < s.len(),
    ensures
        s.take(k + 1).to_set() == s.take(k).to_set().insert(s[k]),
{
    assert forall|y: T|
        s.take(k + 1).to_set().contains(y) == s.take(k).to_set().insert(s[k]).contains(y) by {
        if s.take(k + 1).contains(y) {
            let j = choose|j: int| 0 <= j < k + 1 && #[trigger] s.take(k + 1)[j] == y;
            if j < k {
                assert(s.take(k)[j] == y);
                assert(s.take(k).contains(y));
            }
        }
        if s.take(k).contains(y) {
            let j = choose|j: int| 0 <= j < k && #[trigger] s.take(k)[j] == y;
            assert(s.take(k + 1)[j] == y);
            assert(s.take(k + 1).contains(y));
        }
        if y == s[k] {
            assert(s.take(k + 1)[k] == y);
            assert(s.take(k + 1).contains(y));
        }
    }
    assert(s.take(k + 1).to_set() =~= s.take(k).to_set().insert(s[k]));
}

/// In a well-formed table, a chain at the collision limit means the
/// table is still small: past `DIGEST_BOUND` buckets, an element's home
/// equals its digest, so distinct elements never share a bucket.
proof fn lemma_full_bucket_bounds_cap<T: Settable>(bs: Seq<Seq<T>>, i: int)
    requires
        table_wf(bs),
        0 <= i < bs.len(),
        bs[i].len() >= COLLISION_LIMIT,
    ensures
        bs.len() <= DIGEST_BOUND,
{
    if bs.len() > DIGEST_BOUND {
        let a = bs[i][0];
        let b = bs[i][1];
        assert(a != b);
        T::digest_bounded(a);
        T::digest_bounded(b);
        vstd::arithmetic::div_mod::lemma_small_mod(a.digest() as nat, bs.len() as nat);
        vstd::arithmetic::div_mod::lemma_small_mod(b.digest() as nat, bs.len() as nat);
        assert(a.digest() == i && b.digest() == i);
        T::digest_injective(a, b);
    }
}

/// `max(current * 2, 4)`: the shared growth policy. Applied to the
/// current capacity on a rebuild, and to the input length to seed a new
/// table.
pub(crate) fn next_capacity_step(current: usize) -> (r: usize)
    requires
        current <= usize::MAX / 2,
    ensures
        r == if 2 * current < 4 {
            4int
        } else {
            2 * current as int
        },
        r > current,
        r >= 4,
{
    let doubled = current * 2;
    if doubled < 4 {
        4
    } else {
        doubled
    }
}

/// A table of the given number of empty buckets.
fn empty_table<T>(cap: usize) -> (r: Vec<SimpleLinkedList<T>>)
    ensures
        r@.len() == cap,
        lists_wf(r@),
        forall|i: int| 0 <= i < cap ==> buckets_of(r@)[i] == Seq::<T>::empty(),
{
    let mut r: Vec<SimpleLinkedList<T>> = Vec::new();
    while r.len() < cap
        invariant
            r@.len() <= cap,
            lists_wf(r@),
            forall|i: int| 0 <= i < r@.len() ==> buckets_of(r@)[i] == Seq::<T>::empty(),
        decreases cap - r@.len(),
    {
        let ghost prev = r@;
        r.push(SimpleLinkedList::new());
        proof {
            assert forall|i: int| 0 <= i < r@.len() implies buckets_of(r@)[i]
                == Seq::<T>::empty() by {
                if i < prev.len() {
                    assert(buckets_of(prev)[i] == Seq::<T>::empty());
                    assert(r@[i] == prev[i]);
                } else {
                    assert(r@[i]@ =~= Seq::<T>::empty());
                }
            }
        }
    }
    r
}

pub(crate) fn bucket_index<T: Settable>(x: &T, cap: usize) -> (i: usize)
    requires
        cap >= 1,
    ensures
        i as int == home_of(*x, cap as int),
        i < cap,
{
    let h = x.hash_code();
    (h % (cap as u64)) as usize
}

/// A set of elements stored as a table of linked-list buckets, together
/// with the count of elements currently inserted.
pub struct BucketSet<T: Settable> {
    data: Vec<SimpleLinkedList<T>>,
    inserted_elements: usize,
}

impl<T: Settable> View for BucketSet<T> {
    type V = Set<T>;

    closed spec fn view(&self) -> Set<T> {
        table_set(buckets_of(self.data@))
    }
}

impl<T: Settable> BucketSet<T> {
    spec fn buckets(self) -> Seq<Seq<T>> {
        buckets_of(self.data@)
    }

    /// The table is well formed and the element count matches it.
    pub closed spec fn wf(self) -> bool {
        &&& lists_wf(self.data@)
        &&& table_wf(self.buckets())
        &&& self@.finite()
        &&& self.inserted_elements == self@.len()
    }

    /// A set holding each distinct element of `input` once. The table is
    /// seeded at the growth step of the input length.
    pub fn new(input: &[T]) -> (r: Self)
        requires
            input@.len() <= usize::MAX / 2,
        ensures
            r.wf(),
            r@ == input@.to_set(),
    {
        let cap = next_capacity_step(input.len());
        let mut r = Self { data: empty_table(cap), inserted_elements: 0 };
        proof {
            assert(r@ =~= Set::<T>::empty());
            assert(r.wf());
        }
        let n = input.len();
        let mut k: usize = 0;
        while k < n
            invariant
                r.wf(),
                n == input@.len(),
                k <= n,
                r@ == input@.take(k as int).to_set(),
            decreases n - k,
        {
            let x = input[k].clone_val();
            r.add(x);
            proof {
                lemma_take_one_more(input@, k as int);
            }
            k = k + 1;
        }
        proof {
            assert(input@.take(n as int) =~= input@);
        }
        r
    }

    /// Whether an element equal to `element` is stored: a scan of the
    /// element's home bucket alone.
    pub fn contains(&self, element: &T) -> (r: bool)
        requires
            self.wf(),
        ensures
            r == self@.contains(*element),
    {
        let i = bucket_index(element, self.data.len());
        let r = self.data[i].contains(element);
        proof {
            if r {
                assert(self.buckets()[i as int].contains(*element));
                assert(self@.contains(*element));
            } else if self@.contains(*element) {
                let w = choose|w: int|
                    0 <= w < self.buckets().len() && (#[trigger] self.buckets()[w]).contains(
                        *element,
                    );
                let j = choose|j: int|
                    0 <= j < self.buckets()[w].len() && self.buckets()[w][j] == *element;
                assert(home_of(self.buckets()[w][j], self.buckets().len() as int) == w);
                assert(false);
            }
        }
        r
    }

    /// Inserts `element` if no equal element is stored; re-adding is a
    /// no-op. May rebuild the table at a larger capacity first.
    pub fn add(&mut self, element: T)
        requires
            old(self).wf(),
        ensures
            final(self).wf(),
            final(self)@ == old(self)@.insert(element),
    {
        loop
            invariant
                self.wf(),
                self@ == old(self)@,
            decreases usize::MAX - self.data.len(),
        {
            let cap = self.data.len();
            let i = bucket_index(&element, cap);
            if self.data[i].contains(&element) {
                proof {
                    assert(self.buckets()[i as int].contains(element));
                    assert(self@.contains(element));
                    assert(old(self)@.insert(element) =~= self@);
                }
                return ;
            }
            if self.data[i].len() < COLLISION_LIMIT {
                proof {
                    crate::settable::lemma_card_below_digest_bound(self@);
                }
                let ghost before = *self;
                let list = &mut self.data[i];
                list.push(element);
                self.inserted_elements = self.inserted_elements + 1;
                proof {
                    let bs = before.buckets();
                    let bs2 = self.buckets();
                    assert(bs2 =~= bs.update(i as int, seq![element] + bs[i as int]));
                    assert forall|x: T| self@.contains(x) == before@.insert(element).contains(
                        x,
                    ) by {
                        if x == element {
                            assert(bs2[i as int][0] == x);
                            assert(bs2[i as int].contains(x));
                        } else if before@.contains(x) {
                            let w = choose|w: int|
                                0 <= w < bs.len() && (#[trigger] bs[w]).contains(x);
                            if w == i {
                                let j = choose|j: int| 0 <= j < bs[w].len() && bs[w][j] == x;
                                assert(bs2[w][j + 1] == x);
                                assert(bs2[w].contains(x));
                            } else {
                                assert(bs2[w].contains(x));
                            }
                        } else if self@.contains(x) {
                            let w = choose|w: int|
                                0 <= w < bs2.len() && (#[trigger] bs2[w]).contains(x);
                            if w == i {
                                let j = choose|j: int| 0 <= j < bs2[w].len() && bs2[w][j] == x;
                                assert(bs[w].contains(x) || x == element);
                            } else {
                                assert(bs[w].contains(x));
                            }
                        }
                    }
                    assert(self@ =~= before@.insert(element));
                    assert(old(self)@.insert(element) =~= self@);
                    assert forall|w: int, j: int|
                        0 <= w < bs2.len() && 0 <= j < bs2[w].len() implies home_of(
                        #[trigger] bs2[w][j],
                        bs2.len() as int,
                    ) == w by {
                        if w == i && j == 0 {
                        } else if w == i {
                            assert(bs2[w][j] == bs[w][j - 1]);
                        } else {
                            assert(bs2[w][j] == bs[w][j]);
                        }
                    }
                    assert forall|w: int| 0 <= w < bs2.len() implies (
                    #[trigger] bs2[w]).no_duplicates() by {
                        if w == i {
                            assert(!bs[w].contains(element));
                            assert forall|j1: int, j2: int|
                                0 <= j1 < j2 < bs2[w].len() implies bs2[w][j1] != bs2[w][j2] by {
                                if j1 == 0 {
                                    assert(bs2[w][j2] == bs[w][j2 - 1]);
                                    assert(bs[w].contains(bs[w][j2 - 1]));
                                } else {
                                    assert(bs2[w][j1] == bs[w][j1 - 1]);
                                    assert(bs2[w][j2] == bs[w][j2 - 1]);
                                }
                            }
                        }
                    }
                    assert(self.wf());
                }
                return ;
            }
            proof {
                lemma_full_bucket_bounds_cap(self.buckets(), i as int);
            }
            self.grow();
        }
    }

    /// Rebuilds the table at the next capacity that fits every element,
    /// and recomputes the element count from scratch.
    fn grow(&mut self)
        requires
            old(self).wf(),
            old(self).data@.len() <= DIGEST_BOUND,
        ensures
            final(self).wf(),
            final(self)@ == old(self)@,
            final(self).data@.len() > old(self).data@.len(),
    {
        let elems = self.values();
        let mut target = next_capacity_step(self.data.len());
        loop
            invariant
                self.wf(),
                self == old(self),
                target > self.data@.len(),
                target <= 2 * DIGEST_BOUND,
                elems@.no_duplicates(),
                forall|x: T| elems@.contains(x) == self@.contains(x),
                elems@.len() == self@.len(),
            decreases 2 * DIGEST_BOUND - target,
        {
            let attempt = Self::build_table(&elems, target);
            match attempt {
                Option::Some(table) => {
                    let count = elems.len();
                    let ghost prev = *self;
                    self.data = table;
                    self.inserted_elements = count;
                    proof {
                        assert forall|x: T| self@.contains(x) == prev@.contains(x) by {
                            assert(self@.contains(x) == elems@.contains(x));
                        }
                        assert(self@ =~= old(self)@);
                        elems@.unique_seq_to_set();
                        assert(elems@.to_set() =~= self@);
                        assert(self.wf());
                    }
                    return ;
                },
                Option::None => {
                    proof {
                        assert(target <= DIGEST_BOUND);
                    }
                    target = next_capacity_step(target);
                },
            }
        }
    }

    /// Fills a fresh table of `cap` buckets with `elems`, or reports
    /// that some bucket would grow past the collision limit.
    fn build_table(elems: &Vec<T>, cap: usize) -> (r: Option<Vec<SimpleLinkedList<T>>>)
        requires
            cap >= 4,
            elems@.no_duplicates(),
        ensures
            match r {
                Option::Some(table) => {
                    &&& lists_wf(table@)
                    &&& table_wf(buckets_of(table@))
                    &&& table@.len() == cap
                    &&& forall|x: T|
                        table_set(buckets_of(table@)).contains(x) == elems@.contains(x)
                },
                Option::None => cap <= DIGEST_BOUND,
            },
    {
        let mut table = empty_table(cap);
        proof {
            assert(table_wf(buckets_of(table@)));
        }
        let n = elems.len();
        let mut k: usize = 0;
        while k < n
            invariant
                n == elems@.len(),
                k <= n,
                cap >= 4,
                elems@.no_duplicates(),
                lists_wf(table@),
                table_wf(buckets_of(table@)),
                table@.len() == cap,
                forall|x: T|
                    table_set(buckets_of(table@)).contains(x) == elems@.take(k as int).contains(x),
            decreases n - k,
        {
            let x = elems[k].clone_val();
            let i = bucket_index(&x, cap);
            if table[i].len() >= COLLISION_LIMIT {
                proof {
                    lemma_full_bucket_bounds_cap(buckets_of(table@), i as int);
                }
                return Option::None;
            }
            proof {
                assert(!elems@.take(k as int).contains(x)) by {
                    if elems@.take(k as int).contains(x) {
                        let j = choose|j: int| 0 <= j < k && elems@.take(k as int)[j] == x;
                        assert(elems@[j] == elems@[k as int]);
                    }
                }
                assert(!buckets_of(table@)[i as int].contains(x));
            }
            let ghost before = table@;
            let list = &mut table[i];
            list.push(x);
            proof {
                let bs = buckets_of(before);
                let bs2 = buckets_of(table@);
                assert(bs2 =~= bs.update(i as int, seq![x] + bs[i as int]));
                assert forall|w: int, j: int|
                    0 <= w < bs2.len() && 0 <= j < bs2[w].len() implies home_of(
                    #[trigger] bs2[w][j],
                    bs2.len() as int,
                ) == w by {
                    if w == i && j == 0 {
                    } else if w == i {
                        assert(bs2[w][j] == bs[w][j - 1]);
                    } else {
                        assert(bs2[w][j] == bs[w][j]);
                    }
                }
                assert forall|w: int| 0 <= w < bs2.len() implies (
                #[trigger] bs2[w]).no_duplicates() by {
                    if w == i {
                        assert forall|j1: int, j2: int|
                            0 <= j1 < j2 < bs2[w].len() implies bs2[w][j1] != bs2[w][j2] by {
                            if j1 == 0 {
                                assert(bs2[w][j2] == bs[w][j2 - 1]);
                                assert(bs[w].contains(bs[w][j2 - 1]));
                            } else {
                                assert(bs2[w][j1] == bs[w][j1 - 1]);
                                assert(bs2[w][j2] == bs[w][j2 - 1]);
                            }
                        }
                    }
                }
                assert(elems@.take(k + 1 as int) =~= elems@.take(k as int).push(elems@[k as int]));
                assert forall|y: T| table_set(bs2).contains(y) == elems@.take(
                    k + 1 as int,
                ).contains(y) by {
                    if y == x {
                        assert(bs2[i as int][0] == y);
                        assert(bs2[i as int].contains(y));
                        assert(elems@.take(k + 1 as int)[k as int] == y);
                    } else {
                        assert(table_set(bs).contains(y) == elems@.take(k as int).contains(y));
                        if table_set(bs).contains(y) {
                            let w = choose|w: int|
                                0 <= w < bs.len() && (#[trigger] bs[w]).contains(y);
                            if w == i {
                                let j = choose|j: int| 0 <= j < bs[w].len() && bs[w][j] == y;
                                assert(bs2[w][j + 1] == y);
                                assert(bs2[w].contains(y));
                            } else {
                                assert(bs2[w].contains(y));
                            }
                        } else if table_set(bs2).contains(y) {
                            let w = choose|w: int|
                                0 <= w < bs2.len() && (#[trigger] bs2[w]).contains(y);
                            if w == i {
                                let j = choose|j: int| 0 <= j < bs2[w].len() && bs2[w][j] == y;
                                assert(bs[w].contains(y) || y == x);
                            } else {
                                assert(bs[w].contains(y));
                            }
                        }
                        if elems@.take(k as int).contains(y) {
                            let j = choose|j: int| 0 <= j < k && elems@.take(k as int)[j] == y;
                            assert(elems@.take(k + 1 as int)[j] == y);
                        } else if elems@.take(k + 1 as int).contains(y) {
                            let j = choose|j: int|
                                0 <= j < k + 1 && #[trigger] elems@.take(k + 1 as int)[j] == y;
                            assert(j < k);
                            assert(elems@.take(k as int)[j] == y);
                        }
                    }
                }
            }
            k = k + 1;
        }
        proof {
            assert(elems@.take(n as int) =~= elems@);
        }
        Option::Some(table)
    }

    /// Every stored element, each exactly once, in table order.
    pub fn values(&self) -> (r: Vec<T>)
        requires
            self.wf(),
        ensures
            r@.no_duplicates(),
            forall|x: T| r@.contains(x) == self@.contains(x),
            r@.len() == self@.len(),
    {
        let mut r: Vec<T> = Vec::new();
        let cap = self.data.len();
        let mut i: usize = 0;
        while i < cap
            invariant
                self.wf(),
                cap == self.data@.len(),
                i <= cap,
                r@.no_duplicates(),
                forall|x: T| r@.contains(x) == set_prefix(self.buckets(), i as int).contains(x),
            decreases cap - i,
        {
            let list = &self.data[i];
            let m = list.len();
            let mut j: usize = 0;
            while j < m
                invariant
                    self.wf(),
                    cap == self.data@.len(),
                    i < cap,
                    list == &self.data@[i as int],
                    list.wf(),
                    m == list@.len(),
                    j <= m,
                    r@.no_duplicates(),
                    forall|x: T|
                        r@.contains(x) == (set_prefix(self.buckets(), i as int).contains(x)
                            || list@.take(j as int).contains(x)),
                decreases m - j,
            {
                let x = list.get(j).clone_val();
                proof {
                    assert(list@ == self.buckets()[i as int]);
                    assert(!r@.contains(x)) by {
                        if set_prefix(self.buckets(), i as int).contains(x) {
                            let w = choose|w: int|
                                0 <= w < i && (#[trigger] self.buckets()[w]).contains(x);
                            let jj = choose|jj: int|
                                0 <= jj < self.buckets()[w].len() && self.buckets()[w][jj] == x;
                            assert(home_of(x, cap as int) == w);
                            assert(home_of(x, cap as int) == i);
                        } else if list@.take(j as int).contains(x) {
                            let jj = choose|jj: int|
                                0 <= jj < j && list@.take(j as int)[jj] == x;
                            assert(list@[jj] == list@[j as int]);
                        }
                    }
                }
                let ghost rbefore = r@;
                r.push(x);
                proof {
                    assert forall|y: T| r@.contains(y) == (set_prefix(
                        self.buckets(),
                        i as int,
                    ).contains(y) || list@.take(j + 1 as int).contains(y)) by {
                        assert(list@.take(j + 1 as int) =~= list@.take(j as int).push(
                            list@[j as int],
                        ));
                        if r@.contains(y) {
                            let w = choose|w: int| 0 <= w < r@.len() && r@[w] == y;
                            if w < rbefore.len() {
                                assert(rbefore[w] == y);
                                assert(rbefore.contains(y));
                            } else {
                                assert(y == x);
                                assert(list@.take(j + 1 as int)[j as int] == y);
                            }
                        } else {
                            assert(!rbefore.contains(y)) by {
                                if rbefore.contains(y) {
                                    let w = choose|w: int|
                                        0 <= w < rbefore.len() && rbefore[w] == y;
                                    assert(r@[w] == y);
                                }
                            }
                            assert(y != x) by {
                                if y == x {
                                    assert(r@[rbefore.len() as int] == y);
                                }
                            }
                        }
                    }
                    assert(r@.no_duplicates()) by {
                        assert forall|j1: int, j2: int|
                            0 <= j1 < j2 < r@.len() implies r@[j1] != r@[j2] by {
                            if j2 == rbefore.len() {
                                assert(rbefore.contains(rbefore[j1]));
                            }
                        }
                    }
                }
                j = j + 1;
            }
            proof {
                assert(list@.take(m as int) =~= list@);
                assert forall|x: T| r@.contains(x) == set_prefix(
                    self.buckets(),
                    i + 1 as int,
                ).contains(x) by {
                    if set_prefix(self.buckets(), i as int).contains(x) {
                        let w = choose|w: int|
                            0 <= w < i && (#[trigger] self.buckets()[w]).contains(x);
                        assert(set_prefix(self.buckets(), i + 1 as int).contains(x));
                    }
                    if list@.contains(x) {
                        assert(self.buckets()[i as int].contains(x));
                        assert(set_prefix(self.buckets(), i + 1 as int).contains(x));
                    }
                    if set_prefix(self.buckets(), i + 1 as int).contains(x) {
                        let w = choose|w: int|
                            0 <= w < i + 1 && (#[trigger] self.buckets()[w]).contains(x);
                        if w == i {
                            assert(list@.contains(x));
                        } else {
                            assert(set_prefix(self.buckets(), i as int).contains(x));
                        }
                    }
                }
            }
            i = i + 1;
        }
        proof {
            assert(r@.to_set() =~= self@);
            r@.unique_seq_to_set();
        }
        r
    }

    /// Whether every stored element of `self` is stored in `other`.
    /// Rejects immediately when `self` holds more elements than `other`.
    pub fn is_subset(&self, other: &Self) -> (r: bool)
        requires
            self.wf(),
            other.wf(),
        ensures
            r == self@.subset_of(other@),
    {
        if self.inserted_elements > other.inserted_elements {
            proof {
                if self@.subset_of(other@) {
                    vstd::set_lib::lemma_len_subset(self@, other@);
                }
            }
            return false;
        }
        let elems = self.values();
        let n = elems.len();
        let mut k: usize = 0;
        while k < n
            invariant
                self.wf(),
                other.wf(),
                n == elems@.len(),
                k <= n,
                forall|x: T| elems@.contains(x) == self@.contains(x),
                forall|j: int| 0 <= j < k ==> other@.contains(#[trigger] elems@[j]),
            decreases n - k,
        {
            if !other.contains(&elems[k]) {
                proof {
                    assert(elems@.contains(elems@[k as int]));
                }
                return false;
            }
            k = k + 1;
        }
        proof {
            assert forall|x: T| self@.contains(x) implies other@.contains(x) by {
                let j = choose|j: int| 0 <= j < elems@.len() && elems@[j] == x;
            }
        }
        true
    }

    /// Whether no element is stored.
    pub fn is_empty(&self) -> (r: bool)
        requires
            self.wf(),
        ensures
            r == (self@.len() == 0),
            r == (self@ == Set::<T>::empty()),
    {
        proof {
            if self@.len() == 0 {
                self@.lemma_len0_is_empty();
            }
            if self@ == Set::<T>::empty() {
                assert(self@.len() == 0);
            }
        }
        self.inserted_elements == 0
    }

    /// Whether no stored element of `self` is stored in `other`.
    pub fn is_disjoint(&self, other: &Self) -> (r: bool)
        requires
            self.wf(),
            other.wf(),
        ensures
            r == self@.disjoint(other@),
    {
        let elems = self.values();
        let n = elems.len();
        let mut k: usize = 0;
        while k < n
            invariant
                self.wf(),
                other.wf(),
                n == elems@.len(),
                k <= n,
                forall|x: T| elems@.contains(x) == self@.contains(x),
                forall|j: int| 0 <= j < k ==> !other@.contains(#[trigger] elems@[j]),
            decreases n - k,
        {
            if other.contains(&elems[k]) {
                proof {
                    assert(elems@.contains(elems@[k as int]));
                }
                return false;
            }
            k = k + 1;
        }
        proof {
            assert forall|x: T| self@.contains(x) implies !other@.contains(x) by {
                let j = choose|j: int| 0 <= j < elems@.len() && elems@[j] == x;
            }
        }
        true
    }

    /// A new set of the elements stored in both `self` and `other`.
    pub fn intersection(&self, other: &Self) -> (r: Self)
        requires
            self.wf(),
            other.wf(),
        ensures
            r.wf(),
            r@ == self@.intersect(other@),
    {
        let elems = self.values();
        let mut r = Self { data: empty_table(4), inserted_elements: 0 };
        proof {
            assert(r@ =~= Set::<T>::empty());
            assert(r.wf());
        }
        let n = elems.len();
        let mut k: usize = 0;
        while k < n
            invariant
                self.wf(),
                other.wf(),
                r.wf(),
                n == elems@.len(),
                k <= n,
                elems@.no_duplicates(),
                forall|x: T| elems@.contains(x) == self@.contains(x),
                r@ == elems@.take(k as int).to_set().intersect(other@),
            decreases n - k,
        {
            let x = elems[k].clone_val();
            proof {
                lemma_take_one_more(elems@, k as int);
            }
            if other.contains(&x) {
                r.add(x);
            }
            proof {
                assert(r@ =~= elems@.take(k + 1 as int).to_set().intersect(other@));
            }
            k = k + 1;
        }
        proof {
            assert(elems@.take(n as int) =~= elems@);
            assert(r@ =~= self@.intersect(other@)) by {
                assert forall|x: T| elems@.to_set().contains(x) == self@.contains(x) by {}
                assert(elems@.to_set().intersect(other@) =~= self@.intersect(other@));
            }
        }
        r
    }

    /// A new set of the elements stored in `self` but not in `other`.
    pub fn difference(&self, other: &Self) -> (r: Self)
        requires
            self.wf(),
            other.wf(),
        ensures
            r.wf(),
            r@ == self@.difference(other@),
    {
        let elems = self.values();
        let mut r = Self { data: empty_table(4), inserted_elements: 0 };
        proof {
            assert(r@ =~= Set::<T>::empty());
            assert(r.wf());
        }
        let n = elems.len();
        let mut k: usize = 0;
        while k < n
            invariant
                self.wf(),
                other.wf(),
                r.wf(),
                n == elems@.len(),
                k <= n,
                elems@.no_duplicates(),
                forall|x: T| elems@.contains(x) == self@.contains(x),
                r@ == elems@.take(k as int).to_set().difference(other@),
            decreases n - k,
        {
            let x = elems[k].clone_val();
            proof {
                lemma_take_one_more(elems@, k as int);
            }
            if !other.contains(&x) {
                r.add(x);
            }
            proof {
                assert(r@ =~= elems@.take(k + 1 as int).to_set().difference(other@));
            }
            k = k + 1;
        }
        proof {
            assert(elems@.take(n as int) =~= elems@);
            assert(r@ =~= self@.difference(other@)) by {
                assert(elems@.to_set().difference(other@) =~= self@.difference(other@));
            }
        }
        r
    }

    /// A new set of the elements stored in `self` or in `other`.
    pub fn union(&self, other: &Self) -> (r: Self)
        requires
            self.wf(),
            other.wf(),
        ensures
            r.wf(),
            r@ == self@.union(other@),
    {
        let ours = self.values();
        let theirs = other.values();
        let mut r = Self { data: empty_table(4), inserted_elements: 0 };
        proof {
            assert(r@ =~= Set::<T>::empty());
            assert(r.wf());
        }
        let n = ours.len();
        let mut k: usize = 0;
        while k < n
            invariant
                self.wf(),
                r.wf(),
                n == ours@.len(),
                k <= n,
                forall|x: T| ours@.contains(x) == self@.contains(x),
                r@ == ours@.take(k as int).to_set(),
            decreases n - k,
        {
            let x = ours[k].clone_val();
            proof {
                lemma_take_one_more(ours@, k as int);
            }
            r.add(x);
            k = k + 1;
        }
        proof {
            assert(ours@.take(n as int) =~= ours@);
        }
        let m = theirs.len();
        let mut k2: usize = 0;
        while k2 < m
            invariant
                other.wf(),
                r.wf(),
                m == theirs@.len(),
                k2 <= m,
                forall|x: T| ours@.contains(x) == self@.contains(x),
                forall|x: T| theirs@.contains(x) == other@.contains(x),
                r@ == ours@.to_set().union(theirs@.take(k2 as int).to_set()),
            decreases m - k2,
        {
            let x = theirs[k2].clone_val();
            proof {
                lemma_take_one_more(theirs@, k2 as int);
                assert(ours@.to_set().union(theirs@.take(k2 + 1 as int).to_set()) =~= ours@.to_set().union(
                    theirs@.take(k2 as int).to_set(),
                ).insert(theirs@[k2 as int]));
            }
            r.add(x);
            k2 = k2 + 1;
        }
        proof {
            assert(theirs@.take(m as int) =~= theirs@);
            assert(r@ =~= self@.union(other@)) by {
                assert(ours@.to_set() =~= self@);
                assert(theirs@.to_set() =~= other@);
            }
        }
        r
    }

    /// Whether `self` and `other` store the same elements: equal counts
    /// plus subset suffices, since a subset of equal finite cardinality
    /// is the whole set.
    pub fn equals(&self, other: &Self) -> (r: bool)
        requires
            self.wf(),
            other.wf(),
        ensures
            r == (self@ == other@),
    {
        if self.inserted_elements != other.inserted_elements {
            proof {
                if self@ == other@ {
                    assert(self@.len() == other@.len());
                }
            }
            return false;
        }
        let r = self.is_subset(other);
        proof {
            if r {
                vstd::set_lib::lemma_subset_equality(self@, other@);
            }
        }
        r
    }
}

} // verus!
