//! The main vectors of all records in one run of memory.
use vstd::prelude::*;
use crate::order::Duplicate;
use crate::quantization::lemma_row_bounds;
use crate::record::{KeyModel, RecordKey, RecordModel};
use crate::snapshot::Records;

verus! {

/// Vectors of one dimension, one after the other, with their keys.
pub struct VectorArena {
    pub(crate) buf: Vec<u32>,
    pub(crate) keys: Vec<(String, String)>,
    pub(crate) dim: usize,
}

/// The rows whose main vector has the given dimension, with these vectors.
pub open spec fn arena_rows(rows: Seq<(KeyModel, RecordModel)>, dim: nat) -> Seq<
    (KeyModel, Seq<u32>),
>
    decreases rows.len(),
{
    if rows.len() == 0 {
        Seq::empty()
    } else {
        let before = arena_rows(rows.drop_last(), dim);
        if rows.last().1.vector.len() == dim {
            before.push((rows.last().0, rows.last().1.vector))
        } else {
            before
        }
    }
}

impl VectorArena {
    /// The number of components that each vector has.
    pub open(crate) spec fn width(&self) -> nat {
        self.dim as nat
    }

    /// The keys with their vectors.
    pub open(crate) spec fn view(&self) -> Seq<(KeyModel, Seq<u32>)> {
        Seq::new(
            self.keys@.len(),
            |i: int|
                (
                    self.keys@[i].deep_view(),
                    self.buf@.subrange(i * self.dim, i * self.dim + self.dim),
                ),
        )
    }

    pub open(crate) spec fn wf(&self) -> bool {
        self.buf@.len() == self.keys@.len() * self.dim
    }

    /// An arena without vectors.
    pub fn new(dim: usize) -> (r: Self)
        ensures
            r.wf(),
            r.width() == dim,
            r@ == Seq::<(KeyModel, Seq<u32>)>::empty(),
    {
        let r = VectorArena { buf: Vec::new(), keys: Vec::new(), dim };
        proof {
            assert(0 * (dim as int) == 0) by (nonlinear_arith);
            assert(r@ =~= Seq::<(KeyModel, Seq<u32>)>::empty());
        }
        r
    }

    /// Appends a vector. One of another dimension is ignored.
    pub fn append(&mut self, key: RecordKey, vector: &Vec<u32>)
        requires
            old(self).wf(),
        ensures
            final(self).wf(),
            final(self).width() == old(self).width(),
            final(self)@ == if vector@.len() == old(self).width() {
                old(self)@.push((key.deep_view(), vector@))
            } else {
                old(self)@
            },
    {
        if vector.len() != self.dim {
            return;
        }
        let ghost before = self@;
        let ghost buf = self.buf@;
        let ghost keys = self.keys@;
        let ghost w = self.dim as nat;
        let n: usize = vector.len();
        let mut i: usize = 0;
        proof {
            assert(buf + vector@.take(0) =~= buf);
        }
        while i < n
            invariant
                n == vector@.len(),
                i <= n,
                self.buf@ == buf + vector@.take(i as int),
                self.keys@ == keys,
                self.dim == w,
            decreases n - i,
        {
            self.buf.push(vector[i]);
            proof {
                assert(self.buf@ =~= buf + vector@.take(i + 1));
            }
            i += 1;
        }
        self.keys.push(key);
        proof {
            let count = keys.len();
            assert(vector@.take(n as int) =~= vector@);
            assert((count + 1) * w == count * w + w) by (nonlinear_arith);
            let after = before.push((key.deep_view(), vector@));
            assert forall|k: int| 0 <= k < after.len() implies #[trigger] self@[k] == after[k] by {
                if k < count {
                    lemma_row_bounds(count, w, k);
                    assert(self.keys@[k] == keys[k]);
                    assert(self.buf@.subrange(k * w, k * w + w) =~= buf.subrange(
                        k * w,
                        k * w + w,
                    ));
                } else {
                    assert(self.buf@.subrange(k * w, k * w + w) =~= vector@);
                }
            }
            assert(self@ =~= after);
        }
    }

    /// The arena of the records, in key order.
    pub fn rebuild_from(records: &Records, dim: usize) -> (r: Self)
        ensures
            r.wf(),
            r.width() == dim,
            r@ == arena_rows(records.pairs(), dim as nat),
    {
        let ghost rows = records.pairs();
        let mut arena = VectorArena::new(dim);
        let mut i: usize = 0;
        proof {
            assert(rows.take(0) =~= Seq::empty());
        }
        while i < records.len()
            invariant
                i <= rows.len(),
                rows == records.pairs(),
                arena.wf(),
                arena.width() == dim,
                arena@ == arena_rows(rows.take(i as int), dim as nat),
            decreases rows.len() - i,
        {
            let record = records.value_at(i);
            proof {
                assert(rows.take(i + 1).drop_last() =~= rows.take(i as int));
                assert(rows.take(i + 1).last() == rows[i as int]);
                assert(record@.vector =~= record.vector@);
            }
            arena.append(records.key_at(i).duplicate(), &record.vector);
            i += 1;
        }
        proof {
            assert(rows.take(i as int) =~= rows);
        }
        arena
    }

    /// The number of vectors.
    pub fn len(&self) -> (r: usize)
        ensures
            r == self@.len(),
    {
        self.keys.len()
    }

    /// The key and the vector at a position.
    pub fn entry(&self, i: usize) -> (r: (&RecordKey, &[u32]))
        requires
            self.wf(),
            i < self@.len(),
        ensures
            (r.0.deep_view(), r.1@) == self@[i as int],
    {
        let total: usize = self.buf.len();
        proof {
            lemma_row_bounds(self.keys@.len(), self.dim as nat, i as int);
        }
        let start: usize = i * self.dim;
        let row = vstd::slice::slice_subrange(self.buf.as_slice(), start, start + self.dim);
        (&self.keys[i], row)
    }
}

} // verus!
