//! Handing out the items of a list in random order.

pub mod traits;

use vstd::prelude::*;

verus! {

/// The type `getrandom::Error`. Nothing of its inside is known here.
#[verifier::external_type_specification]
#[verifier::external_body]
pub struct ExRandomSourceError(getrandom::Error);

/// `getrandom::getrandom`: fills the buffer with bytes from the random source
/// of the system, or fails. The length of the buffer stays as it is; nothing
/// is said of the bytes. For an empty buffer the source is not asked, and
/// the call succeeds.
#[verifier::external_body]
fn fill_random(buffer: &mut Vec<u8>) -> (r: Result<(), getrandom::Error>)
    ensures
        final(buffer)@.len() == old(buffer)@.len(),
        old(buffer)@.len() == 0 ==> r is Ok,
{
    getrandom::getrandom(buffer)
}

/// The random source of the system gave no bytes.
#[derive(Clone, Copy, Debug, PartialEq, Eq, Structural)]
pub struct RandomError;

/// The number that a run of bytes spells, the first byte the most significant.
pub open spec fn bytes_value(bytes: Seq<u8>) -> usize
    decreases bytes.len(),
{
    if bytes.len() == 0 {
        0
    } else {
        (bytes_value(bytes.drop_last()) << 8) | (bytes.last() as usize)
    }
}

proof fn lemma_shift_step(m: u64, a: u64, b: u64)
    by (bit_vector)
    requires
        a <= 64,
        b == a + 8,
        m <= (0xffff_ffff_ffff_ffffu64 >> a),
        m != 0,
    ensures
        a < 64,
        (m >> 8) <= (0xffff_ffff_ffff_ffffu64 >> b),
        (m >> 8) < m,
{
}

/// Hands out the items of a list in random order, each once, then `None`
/// once, and then starts over with new random bytes.
///
/// The items still to come stand at the front of the list, those handed out
/// behind them.
pub struct RandomIter<'a, T> {
    items: Vec<&'a T>,
    done: bool,
    step: usize,
    cursor: usize,
    random: Vec<u8>,
}

impl<'a, T> RandomIter<'a, T> {
    /// The items in their present order.
    pub closed spec fn items(&self) -> Seq<&'a T> {
        self.items@
    }

    /// The place of the last item still to come.
    pub closed spec fn cursor(&self) -> usize {
        self.cursor
    }

    /// Whether all items were handed out.
    pub closed spec fn done(&self) -> bool {
        self.done
    }

    /// The random bytes of this pass.
    pub closed spec fn random(&self) -> Seq<u8> {
        self.random@
    }

    /// The number of random bytes for each item: as many as the largest
    /// index needs.
    pub closed spec fn step(&self) -> usize {
        self.step
    }

    /// The number of items still to come in this pass.
    pub open spec fn left(&self) -> nat {
        if self.done() {
            0
        } else {
            (self.cursor() + 1) as nat
        }
    }

    /// The index, among the items still to come, that the random bytes pick next.
    pub open spec fn picked(&self) -> int {
        let index = self.items().len() - 1 - self.cursor();
        bytes_value(self.random().subrange(index, index + self.step())) as int % (self.cursor()
            + 1)
    }

    /// There is an item, the cursor lies in the list, and there are random
    /// bytes for every item.
    pub closed spec fn wf(&self) -> bool {
        &&& self.items@.len() > 0
        &&& self.cursor < self.items@.len()
        &&& self.random@.len() == self.items@.len() * self.step
        &&& self.step >= 1 || self.items@.len() == 1
    }

    /// A consistent iterator has an item, and its cursor lies in the list.
    pub proof fn lemma_wf(&self)
        requires
            self.wf(),
        ensures
            self.items().len() > 0,
            self.cursor() < self.items().len(),
            self.left() <= self.items().len(),
    {
    }

    /// An iterator over a list of items. There must be an item, and no more
    /// than an eighth of what `usize` can count.
    pub fn new(items: Vec<&'a T>) -> (r: Result<Self, RandomError>)
        requires
            0 < items@.len() <= usize::MAX / 8,
        ensures
            r matches Ok(iter) ==> (iter.wf() && iter.items() == items@ && !iter.done()
                && iter.cursor() == items@.len() - 1 && (items@.len() == 1
                ==> iter.random().len() == 0)),
            items@.len() == 1 ==> r is Ok,
    {
        let cursor = items.len() - 1;

        // As many random bytes are asked for each item as the largest index
        // takes.
        let mut step: usize = 0;
        let mut max = cursor;

        proof {
            assert(0xffff_ffff_ffff_ffffu64 >> 0u64 == 0xffff_ffff_ffff_ffffu64) by (bit_vector);
        }
        while max != 0
            invariant
                step <= 8,
                max as u64 <= (0xffff_ffff_ffff_ffffu64 >> ((8 * step) as u64)),
                step == 0 ==> max == cursor,
                step > 0 ==> cursor > 0,
            decreases max,
        {
            proof {
                lemma_shift_step(max as u64, (8 * step) as u64, (8 * step + 8) as u64);
                assert((max >> 8) as u64 == (max as u64) >> 8) by (bit_vector);
            }
            max >>= 8;
            step += 1;
        }

        let mut random: Vec<u8> = Vec::new();
        proof {
            let len = items@.len() as int;
            assert(len * step <= len * 8) by (nonlinear_arith)
                requires
                    len >= 0,
                    0 <= step <= 8,
            ;
        }
        let size = items.len() * step;
        let mut n: usize = 0;
        while n < size
            invariant
                n <= size,
                random@.len() == n,
            decreases size - n,
        {
            random.push(0);
            n += 1;
        }

        let filled = fill_random(&mut random);
        Self::assemble(items, step, random, filled)
    }

    /// The iterator over a list of items and the random bytes for a pass, if
    /// the bytes were had.
    fn assemble(
        items: Vec<&'a T>,
        step: usize,
        random: Vec<u8>,
        filled: Result<(), getrandom::Error>,
    ) -> (r: Result<Self, RandomError>)
        requires
            items@.len() > 0,
            random@.len() == items@.len() * step,
            step >= 1 || items@.len() == 1,
        ensures
            match r {
                Ok(iter) => filled is Ok && iter.wf() && iter.items() == items@ && !iter.done()
                    && iter.cursor() == items@.len() - 1 && iter.random() == random@
                    && iter.step() == step,
                Err(_) => filled is Err,
            },
    {
        let cursor = items.len() - 1;
        match filled {
            Ok(_) => Ok(Self { items, cursor, step, random, done: false }),
            Err(_) => Err(RandomError),
        }
    }

    /// Starts a new pass with new random bytes. Where the random source
    /// fails, the iterator stays at its place in the pass. An iterator
    /// without random bytes, as that of a single item, asks nothing of the
    /// source and always starts anew.
    pub fn reset(&mut self) -> (r: Result<(), RandomError>)
        requires
            old(self).wf(),
        ensures
            final(self).wf(),
            final(self).items() == old(self).items(),
            final(self).random().len() == old(self).random().len(),
            final(self).step() == old(self).step(),
            r is Ok ==> !final(self).done() && final(self).cursor() == old(self).items().len() - 1,
            r is Err ==> final(self).done() == old(self).done() && final(self).cursor()
                == old(self).cursor(),
            old(self).random().len() == 0 ==> r is Ok,
    {
        let filled = fill_random(&mut self.random);
        self.restart(filled)
    }

    /// Starts a new pass if the random bytes for it were had, and else
    /// leaves the iterator as it is.
    fn restart(&mut self, filled: Result<(), getrandom::Error>) -> (r: Result<(), RandomError>)
        requires
            old(self).wf(),
        ensures
            final(self).wf(),
            final(self).items() == old(self).items(),
            final(self).random() == old(self).random(),
            final(self).step() == old(self).step(),
            match r {
                Ok(_) => filled is Ok && !final(self).done() && final(self).cursor() == old(
                    self,
                ).items().len() - 1,
                Err(_) => filled is Err && final(self).done() == old(self).done()
                    && final(self).cursor() == old(self).cursor(),
            },
    {
        match filled {
            Ok(_) => {
                self.cursor = self.items.len() - 1;
                self.done = false;
                Ok(())
            },
            Err(_) => Err(RandomError),
        }
    }

    /// The index, among the items still to come, that the random bytes pick next.
    fn next_index(&self) -> (r: usize)
        requires
            self.wf(),
        ensures
            r == self.picked(),
            r <= self.cursor,
    {
        let index = (self.items.len() - 1) - self.cursor;
        proof {
            let len = self.items@.len() as int;
            let step = self.step as int;
            if step >= 1 {
                assert((len - 1) + step <= len * step) by (nonlinear_arith)
                    requires
                        len >= 1,
                        step >= 1,
                ;
            }
        }
        let total = self.random.len();
        assert(index + self.step <= total);
        assert(self.random@.subrange(index as int, index as int) =~= Seq::<u8>::empty());
        let mut acc: usize = 0;
        let mut k: usize = 0;
        while k < self.step
            invariant
                k <= self.step,
                total == self.random@.len(),
                index + self.step <= total,
                acc == bytes_value(self.random@.subrange(index as int, index + k)),
            decreases self.step - k,
        {
            proof {
                let longer = self.random@.subrange(index as int, index + k + 1);
                assert(longer.drop_last() == self.random@.subrange(index as int, index + k));
            }
            acc = acc << 8 | self.random[index + k] as usize;
            k += 1;
        }
        acc % (self.cursor + 1)
    }

    /// The next item of the pass, picked at random among those still to
    /// come: it changes places with the last of them. After the last item,
    /// `None` once, and a new pass begins.
    pub fn next(&mut self) -> (r: Result<Option<&'a T>, RandomError>)
        requires
            old(self).wf(),
        ensures
            final(self).wf(),
            !old(self).done() ==> (r matches Ok(Some(item)) && item == old(self).items()[old(self).picked()]
                && final(self).items() == old(self).items().update(
                old(self).picked(),
                old(self).items()[old(self).cursor() as int],
            ).update(old(self).cursor() as int, item) && final(self).left() == old(self).left()
                - 1),
            old(self).done() ==> final(self).items() == old(self).items() && match r {
                Ok(item) => item is None && final(self).left() == old(self).items().len(),
                Err(_) => final(self).done(),
            },
            final(self).random().len() == old(self).random().len(),
            final(self).step() == old(self).step(),
            old(self).random().len() == 0 ==> r is Ok,
    {
        if self.done {
            return match self.reset() {
                Ok(_) => Ok(None),
                Err(e) => Err(e),
            };
        }
        let next_index = self.next_index();
        let picked = self.items[next_index];
        let last = self.items[self.cursor];
        self.items.set(next_index, last);
        self.items.set(self.cursor, picked);
        let random_item = self.items[self.cursor];

        if self.cursor > 0 {
            self.cursor -= 1;
        } else {
            self.done = true;
        }

        Ok(Some(random_item))
    }
}

} // verus!
