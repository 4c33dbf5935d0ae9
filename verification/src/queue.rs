//! The flood's queue: buckets by height, with a heap for the one being drained.
//!
//! Pushes are appends into one of a handful of hot vectors, and a pop sifts
//! inside a heap small enough to stay in cache. It hands cells out in exactly
//! the order one big heap would.

use vstd::prelude::*;
use crate::heap::MinHeap;

verus! {

/// How many bits of the height range the buckets tell apart.
pub const BUCKET_BITS: u32 = 16;

/// How many buckets the queue spreads the height range over.
pub const BUCKETS: usize = 65536;

/// A cell's height key above its index, so that one comparison settles the
/// height first and the index on a tie.
pub open spec fn packed(key: u32, index: int) -> int {
    key * 0x1_0000_0000 + index
}

fn pack(key: u32, index: u32) -> (word: u64)
    ensures
        word == packed(key, index as int),
{
    assert(((key as u64) << 32) | (index as u64) == key * 0x1_0000_0000 + index) by (bit_vector);
    ((key as u64) << 32) | (index as u64)
}

fn unpack(word: u64) -> (index: u32)
    ensures
        index == word as int % 0x1_0000_0000,
{
    assert(word & 0xffff_ffff == word % 0x1_0000_0000) by (bit_vector);
    (word & 0xffff_ffff) as u32
}

/// How many cells wait in all the buckets together.
spec fn total(waiting: Seq<Vec<u32>>) -> nat
    decreases waiting.len(),
{
    if waiting.len() == 0 {
        0
    } else {
        total(waiting.drop_last()) + waiting.last()@.len()
    }
}

proof fn lemma_total_update(waiting: Seq<Vec<u32>>, b: int, bucket: Vec<u32>)
    requires
        0 <= b < waiting.len(),
    ensures
        total(waiting.update(b, bucket)) == total(waiting) - waiting[b]@.len() + bucket@.len(),
    decreases waiting.len(),
{
    let changed = waiting.update(b, bucket);
    if b == waiting.len() - 1 {
        assert(changed.drop_last() =~= waiting.drop_last());
    } else {
        assert(changed.drop_last() =~= waiting.drop_last().update(b, bucket));
        lemma_total_update(waiting.drop_last(), b, bucket);
    }
}

proof fn lemma_total_of_empty(waiting: Seq<Vec<u32>>)
    requires
        forall|b: int| 0 <= b < waiting.len() ==> #[trigger] waiting[b]@.len() == 0,
    ensures
        total(waiting) == 0,
    decreases waiting.len(),
{
    if waiting.len() > 0 {
        assert forall|b: int| 0 <= b < waiting.drop_last().len() implies #[trigger]
        waiting.drop_last()[b]@.len() == 0 by {
            assert(waiting[b]@.len() == 0);
        }
        lemma_total_of_empty(waiting.drop_last());
    }
}

proof fn lemma_total_bounds(waiting: Seq<Vec<u32>>, b: int)
    requires
        0 <= b < waiting.len(),
    ensures
        waiting[b]@.len() <= total(waiting),
    decreases waiting.len(),
{
    if b < waiting.len() - 1 {
        lemma_total_bounds(waiting.drop_last(), b);
    }
}

/// A monotone priority queue of cells, keyed on the height each was reached at.
pub struct Queue {
    waiting: Vec<Vec<u32>>,
    active: MinHeap,
    at: usize,
    parked: usize,
    base: u32,
    shift: u32,
}

impl Queue {
    /// Which bucket a height key falls into.
    pub closed spec fn bucket_of(&self, key: u32) -> int {
        let above = if key >= self.base {
            (key - self.base) as u32
        } else {
            0u32
        };
        let bucket = (above >> self.shift) as int;
        if bucket < BUCKETS {
            bucket
        } else {
            BUCKETS - 1
        }
    }

    /// The bucket being drained; nothing lower can be pushed any more.
    pub closed spec fn cursor(&self) -> int {
        self.at as int
    }

    /// How many buckets there are: none before the first reset.
    pub closed spec fn buckets(&self) -> nat {
        self.waiting@.len()
    }

    /// Whether the buckets are laid out, which they are from the first reset on.
    spec fn laid_out(&self) -> bool {
        &&& self.waiting@.len() == BUCKETS
        &&& self.at < BUCKETS
        &&& self.shift < 32
        &&& self.active.wf()
        &&& self.parked == total(self.waiting@)
    }

    /// Every parked cell sits in the bucket of its height, once.
    spec fn filed(&self, filled: Seq<u32>) -> bool {
        &&& forall|b: int, k: int|
            #![trigger self.waiting@[b]@[k]]
            0 <= b < BUCKETS && 0 <= k < self.waiting@[b]@.len() ==> {
                let cell = self.waiting@[b]@[k];
                cell < filled.len() && self.bucket_of(filled[cell as int]) == b
            }
        &&& forall|b: int| 0 <= b < BUCKETS ==> #[trigger] self.waiting@[b]@.no_duplicates()
    }

    /// Every word in the heap is the key of a cell in the bucket being drained.
    spec fn keyed(&self, filled: Seq<u32>) -> bool {
        forall|word: u64| #[trigger]
            self.active@.contains(word) ==> {
                let cell = word as int % 0x1_0000_0000;
                &&& cell < filled.len()
                &&& word == packed(filled[cell], cell)
                &&& self.bucket_of(filled[cell]) == self.at
                &&& self.active@.count(word) == 1
            }
    }

    /// The queue agrees with the surface its cells were pushed at.
    pub closed spec fn wf(&self, filled: Seq<u32>) -> bool {
        &&& self.laid_out()
        &&& self.filed(filled)
        &&& self.keyed(filled)
        &&& forall|b: int| 0 <= b <= self.at ==> #[trigger] self.waiting@[b]@.len() == 0
    }

    /// What a queue keeps between floods: either nothing at all or empty buckets.
    pub closed spec fn idle(&self) -> bool {
        &&& self.waiting@.len() == 0 || self.waiting@.len() == BUCKETS
        &&& forall|b: int| 0 <= b < self.waiting@.len() ==> #[trigger] self.waiting@[b]@.len() == 0
    }

    /// Whether a cell waits in the queue.
    pub closed spec fn holds(&self, filled: Seq<u32>, cell: int) -> bool {
        &&& 0 <= cell < filled.len()
        &&& {
            ||| self.active@.contains(packed(filled[cell], cell) as u64)
            ||| self.bucket_of(filled[cell]) < self.buckets() && self.waiting@[self.bucket_of(
                filled[cell],
            )]@.contains(cell as u32)
        }
    }

    proof fn lemma_bucket_is_monotone(&self, low: u32, high: u32)
        requires
            self.shift < 32,
            low <= high,
        ensures
            0 <= self.bucket_of(low) <= self.bucket_of(high) < BUCKETS,
    {
        let a = if low >= self.base {
            (low - self.base) as u32
        } else {
            0u32
        };
        let b = if high >= self.base {
            (high - self.base) as u32
        } else {
            0u32
        };
        let shift = self.shift;
        assert(a <= b && shift < 32 ==> a >> shift <= b >> shift) by (bit_vector);
    }

    /// A higher key never falls into an earlier bucket.
    pub proof fn lemma_bucket_order(&self, filled: Seq<u32>, low: u32, high: u32)
        requires
            self.wf(filled),
            low <= high,
        ensures
            0 <= self.bucket_of(low) <= self.bucket_of(high),
    {
        self.lemma_bucket_is_monotone(low, high);
    }

    /// The height of a cell that does not wait is free to change.
    pub proof fn lemma_unheld_height_is_free(&self, filled: Seq<u32>, cell: int, key: u32)
        requires
            self.wf(filled),
            0 <= cell < filled.len() <= u32::MAX,
            !self.holds(filled, cell),
        ensures
            self.wf(filled.update(cell, key)),
            forall|other: int|
                #![trigger self.holds(filled.update(cell, key), other)]
                self.holds(filled.update(cell, key), other) <==> self.holds(filled, other),
    {
        let changed = filled.update(cell, key);
        assert forall|b: int, k: int|
            #![trigger self.waiting@[b]@[k]]
            0 <= b < BUCKETS && 0 <= k < self.waiting@[b]@.len() implies self.waiting@[b]@[k] != cell by {
            let row = self.waiting@[b]@;
            if row[k] == cell {
                assert(row.contains(cell as u32));
            }
        }
        assert forall|word: u64| #[trigger] self.active@.contains(word) implies word as int % 0x1_0000_0000
            != cell by {
            if word as int % 0x1_0000_0000 == cell {
                assert(self.holds(filled, cell));
            }
        }
        assert(self.filed(changed)) by {
            assert forall|b: int, k: int|
                #![trigger self.waiting@[b]@[k]]
                0 <= b < BUCKETS && 0 <= k < self.waiting@[b]@.len() implies {
                let c = self.waiting@[b]@[k];
                c < changed.len() && self.bucket_of(changed[c as int]) == b
            } by {
                assert(self.waiting@[b]@[k] != cell);
            }
        }
        assert(!self.holds(changed, cell)) by {
            self.lemma_bucket_is_monotone(key, key);
            let row = self.waiting@[self.bucket_of(key)]@;
            if row.contains(cell as u32) {
                let k = choose|k: int| 0 <= k < row.len() && row[k] == cell as u32;
                assert(row[k] == cell);
            }
        }
    }

    /// A queue that has never been used: no bucket, and no cell waiting.
    pub fn new() -> (queue: Queue)
        ensures
            queue.idle(),
            queue.buckets() == 0,
            queue.cursor() == 0,
            forall|filled: Seq<u32>, cell: int| !#[trigger] queue.holds(filled, cell),
    {
        Queue {
            waiting: Vec::new(),
            active: MinHeap::new(),
            at: 0,
            parked: 0,
            base: 0,
            shift: 0,
        }
    }

    /// Empties the queue and spreads the buckets over the keys from `low` to
    /// `high`.
    pub fn reset(&mut self, low: u32, high: u32)
        requires
            old(self).idle(),
        ensures
            final(self).cursor() == 0,
            forall|filled: Seq<u32>| #[trigger] final(self).wf(filled),
            forall|filled: Seq<u32>, cell: int| !#[trigger] final(self).holds(filled, cell),
    {
        if self.waiting.len() != BUCKETS {
            while self.waiting.len() < BUCKETS
                invariant
                    self.waiting@.len() <= BUCKETS,
                    forall|b: int|
                        0 <= b < self.waiting@.len() ==> #[trigger] self.waiting@[b]@.len() == 0,
                decreases BUCKETS - self.waiting@.len(),
            {
                self.waiting.push(Vec::new());
            }
        }
        self.active.clear();
        self.at = 0;
        self.parked = 0;
        self.base = low;
        let span: u32 = high.saturating_sub(low);
        proof {
            vstd::std_specs::bits::axiom_u32_leading_zeros(span);
        }
        self.shift = (32 - span.leading_zeros()).saturating_sub(BUCKET_BITS);
        proof {
            lemma_total_of_empty(self.waiting@);
            assert forall|filled: Seq<u32>, cell: int| !#[trigger] self.holds(filled, cell) by {
                if 0 <= cell < filled.len() {
                    self.lemma_bucket_is_monotone(filled[cell], filled[cell]);
                    assert(self.waiting@[self.bucket_of(filled[cell])]@.len() == 0);
                }
            }
        }
    }

    fn bucket(&self, key: u32) -> (bucket: usize)
        requires
            self.shift < 32,
        ensures
            bucket == self.bucket_of(key),
            bucket < BUCKETS,
    {
        proof {
            self.lemma_bucket_is_monotone(key, key);
        }
        let bucket: usize = (key.saturating_sub(self.base) >> self.shift) as usize;
        if bucket < BUCKETS {
            bucket
        } else {
            BUCKETS - 1
        }
    }

    /// Adds a cell at the height it was reached at.
    ///
    /// Nothing may be pushed into a bucket the cursor has gone past.
    pub fn push(&mut self, cell: u32, filled: &Vec<u32>)
        requires
            old(self).wf(filled@),
            cell < filled@.len(),
            !old(self).holds(filled@, cell as int),
            old(self).bucket_of(filled@[cell as int]) >= old(self).cursor(),
            filled@.len() <= u32::MAX,
        ensures
            final(self).wf(filled@),
            final(self).cursor() == old(self).cursor(),
            forall|key: u32| final(self).bucket_of(key) == old(self).bucket_of(key),
            forall|other: int|
                #![trigger final(self).holds(filled@, other)]
                final(self).holds(filled@, other) <==> old(self).holds(filled@, other) || other == cell,
    {
        let key: u32 = filled[cell as usize];
        let bucket: usize = self.bucket(key);
        if bucket <= self.at {
            let word: u64 = pack(key, cell);
            self.active.push(word);
            proof {
                let before = old(self);
                assert(before.active@.count(word) == 0);
                assert forall|w: u64| #[trigger] self.active@.contains(w) implies {
                    let c = w as int % 0x1_0000_0000;
                    &&& c < filled@.len()
                    &&& w == packed(filled@[c], c)
                    &&& self.bucket_of(filled@[c]) == self.at
                    &&& self.active@.count(w) == 1
                } by {
                    if w != word {
                        assert(before.active@.contains(w));
                    }
                }
            }
        } else {
            proof {
                self.lemma_parked_fits(filled@, cell as int);
                assert(!self.waiting@[bucket as int]@.contains(cell));
                assert(self.waiting@[bucket as int]@.no_duplicates());
            }
            self.waiting[bucket].push(cell);
            self.parked = self.parked + 1;
            proof {
                let before = old(self);
                let row = before.waiting@[bucket as int]@;
                assert(self.waiting@[bucket as int]@ == row.push(cell));
                assert(self.waiting@ =~= before.waiting@.update(bucket as int, self.waiting@[bucket as int]));
                lemma_total_update(before.waiting@, bucket as int, self.waiting@[bucket as int]);
                assert forall|b: int| 0 <= b < BUCKETS implies #[trigger] self.waiting@[b]@.no_duplicates() by {
                    assert(before.waiting@[b]@.no_duplicates());
                }
                assert forall|b: int, k: int|
                    #![trigger self.waiting@[b]@[k]]
                    0 <= b < BUCKETS && 0 <= k < self.waiting@[b]@.len() implies {
                    let c = self.waiting@[b]@[k];
                    c < filled@.len() && self.bucket_of(filled@[c as int]) == b
                } by {
                    if b == bucket && k == row.len() {
                    } else {
                        let c = before.waiting@[b]@[k];
                        assert(c == self.waiting@[b]@[k]);
                    }
                }
                assert forall|other: int| #![trigger self.holds(filled@, other)]
                    self.holds(filled@, other) <==> before.holds(filled@, other) || other == cell by {
                    if 0 <= other < filled@.len() {
                        let b = self.bucket_of(filled@[other]);
                        self.lemma_bucket_is_monotone(filled@[other], filled@[other]);
                        if b == bucket {
                            if row.contains(other as u32) {
                                let k = choose|k: int| 0 <= k < row.len() && row[k] == other as u32;
                                assert(self.waiting@[b]@[k] == other as u32);
                            }
                            if other == cell {
                                assert(self.waiting@[b]@[row.len() as int] == cell);
                            }
                        }
                    }
                }
                assert forall|b: int| 0 <= b <= self.at implies #[trigger] self.waiting@[b]@.len() == 0 by {
                    assert(before.waiting@[b]@.len() == 0);
                }
                assert forall|word: u64| #[trigger] self.active@.contains(word) implies {
                    let c = word as int % 0x1_0000_0000;
                    &&& c < filled@.len()
                    &&& word == packed(filled@[c], c)
                    &&& self.bucket_of(filled@[c]) == self.at
                    &&& self.active@.count(word) == 1
                } by {
                    assert(before.active@.contains(word));
                }
            }
        }
    }

    /// Every parked cell is a cell of its own, so while one is not parked there
    /// are fewer parked cells than cells.
    proof fn lemma_parked_fits(&self, filled: Seq<u32>, spare: int)
        requires
            self.laid_out(),
            self.filed(filled),
            0 <= spare < filled.len() <= u32::MAX,
            !self.holds(filled, spare),
        ensures
            total(self.waiting@) < filled.len(),
    {
        let parked = self.lemma_parked_cells(filled, BUCKETS as int);
        let cells = parked.insert(spare);
        assert(self.waiting@.take(BUCKETS as int) =~= self.waiting@);
        let all = vstd::set_lib::set_int_range(0, filled.len() as int);
        vstd::set_lib::lemma_int_range(0, filled.len() as int);
        vstd::set_lib::lemma_len_subset(cells, all);
    }

    proof fn lemma_parked_cells(&self, filled: Seq<u32>, upto: int) -> (cells: Set<int>)
        requires
            self.laid_out(),
            self.filed(filled),
            0 <= upto <= BUCKETS,
        ensures
            cells.finite(),
            cells.len() == total(self.waiting@.take(upto)),
            forall|c: int| #[trigger]
                cells.contains(c) ==> {
                    &&& 0 <= c < filled.len()
                    &&& self.bucket_of(filled[c]) < upto
                    &&& self.waiting@[self.bucket_of(filled[c])]@.contains(c as u32)
                },
        decreases upto,
    {
        if upto == 0 {
            Set::empty()
        } else {
            let below = self.lemma_parked_cells(filled, upto - 1);
            let row = self.waiting@[upto - 1]@;
            let wide = row.map_values(|c: u32| c as int);
            assert(wide.no_duplicates()) by {
                assert(row.no_duplicates());
            }
            wide.unique_seq_to_set();
            let here = wide.to_set();
            assert(self.waiting@.take(upto).drop_last() =~= self.waiting@.take(upto - 1));
            assert forall|c: int| #[trigger] here.contains(c) implies 0 <= c < filled.len()
                && self.bucket_of(filled[c]) == upto - 1 && row.contains(c as u32) by {
                let k = choose|k: int| 0 <= k < wide.len() && wide[k] == c;
                assert(self.waiting@[upto - 1]@[k] == c);
            }
            assert(below.disjoint(here));
            vstd::set_lib::lemma_set_disjoint_lens(below, here);
            below.union(here)
        }
    }

    /// Moves the next bucket into the heap.
    fn wake(&mut self, filled: &Vec<u32>)
        requires
            old(self).wf(filled@),
            old(self).active@.len() == 0,
            old(self).at + 1 < BUCKETS,
            filled@.len() <= u32::MAX,
        ensures
            final(self).wf(filled@),
            final(self).at == old(self).at + 1,
            final(self).base == old(self).base,
            final(self).shift == old(self).shift,
            forall|cell: int|
                #![trigger final(self).holds(filled@, cell)]
                final(self).holds(filled@, cell) <==> old(self).holds(filled@, cell),
    {
        self.at = self.at + 1;
        let at: usize = self.at;
        while self.waiting[at].len() > 0
            invariant
                at == self.at,
                self.laid_out(),
                self.filed(filled@),
                self.keyed(filled@),
                filled@.len() <= u32::MAX,
                self.base == old(self).base,
                self.shift == old(self).shift,
                at == old(self).at + 1,
                forall|b: int| 0 <= b < at ==> #[trigger] self.waiting@[b]@.len() == 0,
                forall|word: u64| #[trigger]
                    self.active@.contains(word) ==> !self.waiting@[at as int]@.contains(
                        (word as int % 0x1_0000_0000) as u32,
                    ),
                forall|cell: int|
                    #![trigger self.holds(filled@, cell)]
                    self.holds(filled@, cell) <==> old(self).holds(filled@, cell),
            decreases self.waiting@[at as int]@.len(),
        {
            let ghost before = *self;
            let ghost row = self.waiting@[at as int]@;
            let last: usize = self.waiting[at].len() - 1;
            let cell: u32 = self.waiting[at][last];
            proof {
                assert(self.waiting@[at as int]@[last as int] == cell);
                assert(row.no_duplicates());
                lemma_total_bounds(self.waiting@, at as int);
            }
            self.waiting[at].truncate(last);
            self.parked = self.parked - 1;
            let word: u64 = pack(filled[cell as usize], cell);
            self.active.push(word);
            proof {
                let shorter = self.waiting@[at as int];
                assert(shorter@ =~= row.drop_last());
                assert(self.waiting@ =~= before.waiting@.update(at as int, shorter));
                lemma_total_update(before.waiting@, at as int, shorter);
                assert forall|c: int| #![trigger self.holds(filled@, c)]
                    self.holds(filled@, c) <==> before.holds(filled@, c) by {
                    if 0 <= c < filled@.len() {
                        self.lemma_bucket_is_monotone(filled@[c], filled@[c]);
                        if self.bucket_of(filled@[c]) == at && row.contains(c as u32) {
                            let k = choose|k: int| 0 <= k < row.len() && row[k] == c as u32;
                            if k < last {
                                assert(shorter@[k] == c as u32);
                            }
                        }
                        if self.bucket_of(filled@[c]) == at && shorter@.contains(c as u32) {
                            let k = choose|k: int| 0 <= k < shorter@.len() && shorter@[k] == c as u32;
                            assert(row[k] == c as u32);
                        }
                        if c == cell {
                            assert(row[last as int] == cell);
                        }
                    }
                }
                assert forall|b: int, k: int|
                    #![trigger self.waiting@[b]@[k]]
                    0 <= b < BUCKETS && 0 <= k < self.waiting@[b]@.len() implies {
                    let c = self.waiting@[b]@[k];
                    c < filled@.len() && self.bucket_of(filled@[c as int]) == b
                } by {
                    assert(self.waiting@[b]@[k] == before.waiting@[b]@[k]);
                }
                assert forall|b: int| 0 <= b < BUCKETS implies #[trigger] self.waiting@[b]@.no_duplicates() by {
                    assert(before.waiting@[b]@.no_duplicates());
                }
                assert(!before.active@.contains(word)) by {
                    assert(row[last as int] == cell);
                }
                assert(before.active@.count(word) == 0);
                assert forall|w: u64| #[trigger] self.active@.contains(w) implies {
                    let c = w as int % 0x1_0000_0000;
                    &&& c < filled@.len()
                    &&& w == packed(filled@[c], c)
                    &&& self.bucket_of(filled@[c]) == self.at
                    &&& self.active@.count(w) == 1
                    &&& !shorter@.contains(c as u32)
                } by {
                    let c = w as int % 0x1_0000_0000;
                    if w != word {
                        assert(before.active@.contains(w));
                    }
                    if shorter@.contains(c as u32) {
                        let k = choose|k: int| 0 <= k < shorter@.len() && shorter@[k] == c as u32;
                        assert(row[k] == c as u32);
                    }
                }
            }
        }
    }
}

impl Queue {
    /// Takes out the lowest cell, the lowest index first among equals.
    pub fn pop(&mut self, filled: &Vec<u32>) -> (lowest: Option<u32>)
        requires
            old(self).wf(filled@),
            filled@.len() <= u32::MAX,
        ensures
            final(self).wf(filled@),
            forall|key: u32| final(self).bucket_of(key) == old(self).bucket_of(key),
            match lowest {
                Some(cell) => {
                    &&& cell < filled@.len()
                    &&& old(self).holds(filled@, cell as int)
                    &&& forall|other: int|
                        #![trigger old(self).holds(filled@, other)]
                        old(self).holds(filled@, other) ==> packed(filled@[cell as int], cell as int)
                            <= packed(filled@[other], other)
                    &&& forall|other: int|
                        #![trigger final(self).holds(filled@, other)]
                        final(self).holds(filled@, other) <==> old(self).holds(filled@, other)
                            && other != cell
                    &&& final(self).cursor() == final(self).bucket_of(filled@[cell as int])
                },
                None => final(self).idle() && forall|other: int|
                    !#[trigger] old(self).holds(filled@, other),
            },
    {
        loop
            invariant
                self.wf(filled@),
                filled@.len() <= u32::MAX,
                self.base == old(self).base,
                self.shift == old(self).shift,
                forall|other: int|
                    #![trigger self.holds(filled@, other)]
                    #![trigger old(self).holds(filled@, other)]
                    self.holds(filled@, other) <==> old(self).holds(filled@, other),
            decreases BUCKETS - self.at,
        {
            let ghost before = *self;
            if let Some(word) = self.active.pop() {
                let cell: u32 = unpack(word);
                proof {
                    assert(before.active@.contains(word));
                    assert(before.holds(filled@, cell as int));
                    assert forall|other: int| #![trigger old(self).holds(filled@, other)]
                        old(self).holds(filled@, other) implies word <= packed(filled@[other], other) by {
                        assert(before.holds(filled@, other));
                        let b = self.bucket_of(filled@[other]);
                        if before.waiting@[b]@.contains(other as u32) {
                            if filled@[other] <= filled@[cell as int] {
                                self.lemma_bucket_is_monotone(filled@[other], filled@[cell as int]);
                            }
                            assert(before.waiting@[b]@.len() != 0);
                        }
                    }
                    assert forall|other: int| #![trigger self.holds(filled@, other)]
                        self.holds(filled@, other) <==> old(self).holds(filled@, other) && other != cell by {
                        assert(before.holds(filled@, other) <==> old(self).holds(filled@, other));
                        if 0 <= other < filled@.len() {
                            let b = self.bucket_of(filled@[other]);
                            if other == cell {
                                assert(self.waiting@[b]@.len() == 0);
                                assert(before.active@.count(word) == 1);
                            } else {
                                assert(packed(filled@[other], other) != word);
                            }
                        }
                    }
                    assert forall|w: u64| #[trigger] self.active@.contains(w) implies before.active@.contains(w)
                        && self.active@.count(w) == before.active@.count(w) by {
                        if w == word {
                            assert(before.active@.count(word) == 1);
                        }
                    }
                }
                return Some(cell);
            }
            if self.parked == 0 {
                proof {
                    assert forall|b: int| 0 <= b < self.waiting@.len() implies #[trigger] self.waiting@[b]@.len() == 0 by {
                        lemma_total_bounds(self.waiting@, b);
                    }
                    self.lemma_nothing_held(filled@);
                }
                return None;
            }
            proof {
                if self.at + 1 >= BUCKETS {
                    lemma_total_of_empty(self.waiting@);
                }
            }
            self.wake(filled);
        }
    }

    proof fn lemma_nothing_held(&self, filled: Seq<u32>)
        requires
            self.laid_out(),
            self.active@.len() == 0,
            forall|b: int| 0 <= b < self.waiting@.len() ==> #[trigger] self.waiting@[b]@.len() == 0,
        ensures
            forall|other: int| !#[trigger] self.holds(filled, other),
    {
        assert forall|other: int| !#[trigger] self.holds(filled, other) by {
            if 0 <= other < filled.len() {
                self.lemma_bucket_is_monotone(filled[other], filled[other]);
                assert(self.waiting@[self.bucket_of(filled[other])]@.len() == 0);
            }
        }
    }
}

/// Cells are ordered by height first, and by index where they stand at one
/// height.
pub proof fn cells_wait_by_height_and_then_by_index(a: u32, i: int, b: u32, j: int)
    requires
        0 <= i < 0x1_0000_0000,
        0 <= j < 0x1_0000_0000,
    ensures
        packed(a, i) < packed(b, j) <==> a < b || (a == b && i < j),
        packed(a, i) == packed(b, j) <==> a == b && i == j,
{
}

} // verus!
