//! The striped array: bits spread round-robin over a fixed set of data disks.
use vstd::prelude::*;
use vstd::arithmetic::div_mod::{lemma_fundamental_div_mod, lemma_fundamental_div_mod_converse};
use crate::disk::{Disk, DiskType};
use crate::RaidError;

verus! {

/// How many bits disk `i` holds after `n` bits were striped over `d` disks.
pub open spec fn disk_len(n: nat, d: nat, i: nat) -> nat {
    if i < n % d {
        n / d + 1
    } else {
        n / d
    }
}

/// The layer counter after `n` bits were striped over `d` disks: it moves on
/// each time a layer after the first one is started.
pub open spec fn current_layer(n: nat, d: nat) -> nat {
    if n == 0 {
        0
    } else {
        ((n - 1) as nat / d) as nat
    }
}

/// The outcome of writing `input` after `written` into an array of total
/// capacity `total`: refused when the new length would reach the capacity.
pub open spec fn write_outcome(written: Seq<bool>, input: Seq<bool>, total: nat) -> Option<Seq<bool>> {
    if written.len() + input.len() >= total {
        None
    } else {
        Some(written + input)
    }
}

/// The outcome of a run of writes, one after the other, from `written`; `None`
/// once one of them is refused.
pub open spec fn writes_outcome(written: Seq<bool>, writes: Seq<Seq<bool>>, total: nat) -> Option<Seq<bool>>
    decreases writes.len(),
{
    if writes.len() == 0 {
        Some(written)
    } else {
        match writes_outcome(written, writes.drop_last(), total) {
            Some(w) => write_outcome(w, writes.last(), total),
            None => None,
        }
    }
}

/// Total length of a run of writes.
pub open spec fn total_len(writes: Seq<Seq<bool>>) -> nat
    decreases writes.len(),
{
    if writes.len() == 0 {
        0
    } else {
        total_len(writes.drop_last()) + writes.last().len()
    }
}

/// Bits striped over a fixed number of data disks.
pub struct Data {
    disks: Vec<Disk>,
    disk_count: usize,
    last_index: usize,
    last_layer: usize,
    total_capacity: usize,
}

impl View for Data {
    type V = Seq<bool>;

    /// The bits written so far, in logical order.
    closed spec fn view(&self) -> Seq<bool> {
        Seq::new(
            self.last_index as nat,
            |i: int| self.disks@[i % (self.disk_count as int)]@[i / (self.disk_count as int)],
        )
    }
}

/// `n` and `n + 1` share a quotient unless `n + 1` starts a new one.
proof fn lemma_next_index(n: nat, d: nat)
    requires
        d > 0,
    ensures
        n % d + 1 < d ==> (n + 1) % d == n % d + 1 && (n + 1) / d == n / d,
        n % d + 1 == d ==> (n + 1) % d == 0 && (n + 1) / d == n / d + 1,
        n % d < d,
{
    lemma_fundamental_div_mod(n as int, d as int);
    let q = (n / d) as int;
    let di = d as int;
    let r = (n % d) as int;
    if n % d + 1 < d {
        assert((n + 1) as int == q * di + (r + 1)) by (nonlinear_arith)
            requires
                n == di * q + r,
        ;
        lemma_fundamental_div_mod_converse((n + 1) as int, d as int, (n / d) as int, (n % d + 1) as int);
    } else {
        assert((n + 1) as int == (q + 1) * di + 0) by (nonlinear_arith)
            requires
                n == di * q + di - 1,
        ;
        lemma_fundamental_div_mod_converse((n + 1) as int, d as int, (n / d + 1) as int, 0);
    }
}

/// A position below `n` lies inside what its disk holds.
proof fn lemma_index_in_disk(n: nat, d: nat, i: nat)
    requires
        d > 0,
        i < n,
    ensures
        i / d < disk_len(n, d, i % d),
        i % d < d,
        i % d == n % d ==> i / d < n / d,
{
    lemma_fundamental_div_mod(n as int, d as int);
    lemma_fundamental_div_mod(i as int, d as int);
    let q = n / d;
    let qi = i / d;
    assert(qi < q || (qi == q && i % d < n % d)) by (nonlinear_arith)
        requires
            n == d * q + n % d,
            i == d * qi + i % d,
            i < n,
            n % d < d,
            i % d < d,
            d > 0,
    ;
}

/// Offset `l` of disk `i` is striped position `l * d + i`.
proof fn lemma_layer_position(l: nat, d: nat, i: nat)
    requires
        i < d,
    ensures
        (l * d + i) % d == i,
        (l * d + i) / d == l,
{
    lemma_fundamental_div_mod_converse((l * d + i) as int, d as int, l as int, i as int);
}

impl Data {
    pub closed spec fn spec_disk_count(&self) -> nat {
        self.disk_count as nat
    }

    pub closed spec fn spec_total_capacity(&self) -> nat {
        self.total_capacity as nat
    }

    pub closed spec fn spec_last_layer(&self) -> nat {
        self.last_layer as nat
    }

    /// What disk `i` holds.
    pub closed spec fn spec_disk(&self, i: int) -> Seq<bool> {
        self.disks@[i]@
    }

    /// The capacity each disk was declared with.
    pub closed spec fn spec_disk_size(&self, i: int) -> nat {
        self.disks@[i].spec_capacity()
    }

    /// The array's invariant: disk `i` holds the bits at positions congruent
    /// to `i`, the counters agree with the bits written, and the bits stay
    /// below the total capacity.
    pub closed spec fn wf(&self) -> bool {
        let d = self.disk_count as nat;
        let n = self.last_index as nat;
        &&& d > 0
        &&& self.disks@.len() == d
        &&& n <= self.total_capacity
        &&& (n < self.total_capacity || n == 0)
        &&& self.last_layer == current_layer(n, d)
        &&& forall|i: int| 0 <= i < d ==> #[trigger] self.disks@[i]@.len() == disk_len(n, d, i as nat)
        &&& forall|i: int| 0 <= i < d ==> #[trigger] self.disks@[i].spec_disk_type() == DiskType::Data
        &&& forall|i: int|
            0 <= i < d ==> #[trigger] self.disks@[i].spec_capacity() == self.disks@[0].spec_capacity()
        &&& self.total_capacity == d * self.disks@[0].spec_capacity()
    }

    /// An empty array of `disk_count` disks holding `disk_size` bits each.
    pub fn new(disk_count: usize, disk_size: usize) -> (r: Self)
        requires
            disk_count > 0,
            disk_count * disk_size <= usize::MAX,
        ensures
            r.wf(),
            r@ == Seq::<bool>::empty(),
            r.spec_disk_count() == disk_count,
            r.spec_total_capacity() == disk_count * disk_size,
            r.spec_disk_size(0) == disk_size,
            r.spec_last_layer() == 0,
            forall|i: int|
                0 <= i < disk_count ==> r.spec_disk(i) == Seq::<bool>::empty() && r.spec_disk_size(i)
                    == disk_size,
    {
        let mut disks: Vec<Disk> = Vec::with_capacity(disk_count);
        let mut i: usize = 0;
        while i < disk_count
            invariant
                i <= disk_count,
                disks@.len() == i,
                forall|j: int|
                    0 <= j < i ==> (#[trigger] disks@[j])@ == Seq::<bool>::empty()
                        && disks@[j].spec_disk_type() == DiskType::Data
                        && disks@[j].spec_capacity() == disk_size,
            decreases disk_count - i,
        {
            disks.push(Disk::new(disk_size, DiskType::Data));
            i = i + 1;
        }
        proof {
            lemma_fundamental_div_mod_converse(0, disk_count as int, 0, 0);
        }
        let r = Data {
            disk_count,
            disks,
            last_index: 0,
            last_layer: 0,
            total_capacity: disk_count * disk_size,
        };
        assert(r@ =~= Seq::<bool>::empty());
        r
    }

    /// Number of data disks.
    pub fn disk_count(&self) -> (r: usize)
        ensures
            r == self.spec_disk_count(),
    {
        self.disk_count
    }

    /// Number of bits the array was made to hold.
    pub fn total_capacity(&self) -> (r: usize)
        ensures
            r == self.spec_total_capacity(),
    {
        self.total_capacity
    }

    /// Number of bits written so far.
    pub fn last_index(&self) -> (r: usize)
        ensures
            r == self@.len(),
    {
        self.last_index
    }

    /// The layer counter.
    pub fn last_layer(&self) -> (r: usize)
        requires
            self.wf(),
        ensures
            r == self.spec_last_layer(),
            r == current_layer(self@.len(), self.spec_disk_count()),
    {
        self.last_layer
    }

    /// Data disk `i`.
    pub fn disk(&self, i: usize) -> (r: &Disk)
        requires
            self.wf(),
            i < self.spec_disk_count(),
        ensures
            r@ == self.spec_disk(i as int),
            r.spec_capacity() == self.spec_disk_size(0),
    {
        &self.disks[i]
    }

    /// Appends one bit at the next position; the caller keeps the total
    /// below the capacity.
    fn write_bit(&mut self, value: bool)
        requires
            old(self).wf(),
            old(self)@.len() + 1 < old(self).spec_total_capacity(),
        ensures
            final(self).wf(),
            final(self)@ == old(self)@.push(value),
            final(self).spec_disk_count() == old(self).spec_disk_count(),
            final(self).spec_total_capacity() == old(self).spec_total_capacity(),
            final(self).spec_disk_size(0) == old(self).spec_disk_size(0),
    {
        let ghost d = self.disk_count as nat;
        let ghost n = self.last_index as nat;
        let ghost before = self@;
        let ghost old_disks = self.disks@;
        let adjusted_index = self.last_index % self.disk_count;
        proof {
            lemma_next_index(n, d);
            if n > 0 {
                lemma_next_index((n - 1) as nat, d);
            }
        }
        self.disks[adjusted_index].write(value);
        if adjusted_index == 0 && self.last_index != 0 {
            self.last_layer += 1;
        }
        self.last_index += 1;
        proof {
            assert forall|i: int| 0 <= i < d implies #[trigger] self.disks@[i]@.len() == disk_len(
                (n + 1) as nat,
                d,
                i as nat,
            ) by {
                if i != adjusted_index {
                    assert(self.disks@[i] == old_disks[i]);
                }
            }
            assert forall|i: int| 0 <= i < d implies #[trigger] self.disks@[i].spec_disk_type()
                == DiskType::Data by {
                if i != adjusted_index {
                    assert(self.disks@[i] == old_disks[i]);
                }
            }
            assert forall|i: int| 0 <= i < d implies #[trigger] self.disks@[i].spec_capacity()
                == self.disks@[0].spec_capacity() by {
                if i != adjusted_index {
                    assert(self.disks@[i] == old_disks[i]);
                }
                if 0 != adjusted_index {
                    assert(self.disks@[0] == old_disks[0]);
                }
            }
            if 0 != adjusted_index {
                assert(self.disks@[0] == old_disks[0]);
            }
            assert forall|i: int| 0 <= i < n + 1 implies #[trigger] self@[i] == before.push(value)[i] by {
                if i < n {
                    lemma_index_in_disk(n, d, i as nat);
                    if i % (d as int) != adjusted_index {
                        assert(self.disks@[i % (d as int)] == old_disks[i % (d as int)]);
                    }
                }
            }
            assert(self@ =~= before.push(value));
        }
    }

    /// Stripes `bits` over the disks after what is already written. Refused
    /// with `CapacityExceeded`, writing nothing, when the new total would
    /// reach the capacity.
    pub fn write_sequence(&mut self, bits: &[bool]) -> (r: Result<(), RaidError>)
        requires
            old(self).wf(),
        ensures
            final(self).wf(),
            final(self).spec_disk_count() == old(self).spec_disk_count(),
            final(self).spec_total_capacity() == old(self).spec_total_capacity(),
            final(self).spec_disk_size(0) == old(self).spec_disk_size(0),
            old(self)@.len() + bits@.len() >= old(self).spec_total_capacity() ==> r == Err::<
                (),
                RaidError,
            >(RaidError::CapacityExceeded) && *final(self) == *old(self),
            old(self)@.len() + bits@.len() < old(self).spec_total_capacity() ==> r == Ok::<
                (),
                RaidError,
            >(()) && final(self)@ == old(self)@ + bits@,
            r is Ok ==> write_outcome(old(self)@, bits@, old(self).spec_total_capacity()) == Some(
                final(self)@,
            ),
            r is Err ==> write_outcome(old(self)@, bits@, old(self).spec_total_capacity()) is None,
    {
        if bits.len() >= self.total_capacity - self.last_index {
            return Err(RaidError::CapacityExceeded);
        }
        let ghost before = self@;
        let mut j: usize = 0;
        while j < bits.len()
            invariant
                self.wf(),
                j <= bits@.len(),
                before.len() + bits@.len() < self.spec_total_capacity(),
                self@ == before + bits@.subrange(0, j as int),
                self.spec_disk_count() == old(self).spec_disk_count(),
                self.spec_total_capacity() == old(self).spec_total_capacity(),
                self.spec_disk_size(0) == old(self).spec_disk_size(0),
            decreases bits@.len() - j,
        {
            self.write_bit(bits[j]);
            j = j + 1;
            assert(bits@.subrange(0, j as int) =~= bits@.subrange(0, j - 1).push(bits@[j - 1]));
        }
        assert(bits@.subrange(0, j as int) =~= bits@);
        Ok(())
    }

    /// The bit at logical position `index`; `OutOfRange` unless it has been
    /// written.
    pub fn get_bit(&self, index: usize) -> (r: Result<bool, RaidError>)
        requires
            self.wf(),
        ensures
            index < self@.len() ==> r == Ok::<bool, RaidError>(self@[index as int]),
            index >= self@.len() ==> r == Err::<bool, RaidError>(RaidError::OutOfRange),
    {
        if index > self.last_index {
            return Err(RaidError::OutOfRange);
        }
        let disk_number = index % self.disk_count;
        let adjusted_index = index / self.disk_count;
        proof {
            let d = self.disk_count as nat;
            if index < self.last_index {
                lemma_index_in_disk(self.last_index as nat, d, index as nat);
            } else {
                lemma_next_index(index as nat, d);
            }
        }
        self.disks[disk_number].get(adjusted_index)
    }

    /// The bits at logical positions `start_index` up to, not including,
    /// `end_index`; `OutOfRange` when `end_index` is past what was written.
    pub fn get_slice(&self, start_index: usize, end_index: usize) -> (r: Result<Vec<bool>, RaidError>)
        requires
            self.wf(),
        ensures
            end_index <= self@.len() && start_index <= end_index ==> r is Ok && r->Ok_0@ == self@.subrange(
                start_index as int,
                end_index as int,
            ),
            end_index > self@.len() ==> r == Err::<Vec<bool>, RaidError>(RaidError::OutOfRange),
            start_index > end_index ==> r == Err::<Vec<bool>, RaidError>(RaidError::OutOfRange),
    {
        if end_index > self.last_index {
            return Err(RaidError::OutOfRange);
        }
        if start_index > end_index {
            return Err(RaidError::OutOfRange);
        }
        let mut result: Vec<bool> = Vec::with_capacity(end_index - start_index);
        let mut index: usize = start_index;
        while index < end_index
            invariant
                self.wf(),
                start_index <= index <= end_index,
                end_index <= self@.len(),
                result@ == self@.subrange(start_index as int, index as int),
            decreases end_index - index,
        {
            match self.get_bit(index) {
                Ok(b) => result.push(b),
                Err(e) => return Err(e),
            }
            index = index + 1;
            assert(result@ =~= self@.subrange(start_index as int, index as int));
        }
        Ok(result)
    }

    /// Whether layer `layer_index` counts as full: it lies below the layer in
    /// progress, or is the layer in progress while that one holds no bit.
    fn is_layer_full(&self, layer_index: usize) -> (r: bool)
        requires
            self.wf(),
        ensures
            r == (layer_index < self@.len() / self.spec_disk_count() || (layer_index == self@.len()
                / self.spec_disk_count() && self@.len() % self.spec_disk_count() == 0)),
    {
        layer_index < self.last_index / self.disk_count || (layer_index == self.last_index
            / self.disk_count && self.last_index % self.disk_count == 0)
    }

    /// The bits of layer `layer_index`, one per disk in disk order;
    /// `LayerIncomplete` unless every disk holds a bit at that offset.
    pub fn get_data_layer(&self, layer_index: usize) -> (r: Result<Vec<bool>, RaidError>)
        requires
            self.wf(),
        ensures
            layer_index < self@.len() / self.spec_disk_count() ==> r is Ok && r->Ok_0@
                == self@.subrange(
                layer_index * self.spec_disk_count(),
                layer_index * self.spec_disk_count() + self.spec_disk_count(),
            ),
            layer_index >= self@.len() / self.spec_disk_count() ==> r == Err::<Vec<bool>, RaidError>(
                RaidError::LayerIncomplete,
            ),
    {
        // At an exact multiple of the disk count the layer in progress holds
        // no bit yet, so it is refused too.
        if layer_index > self.last_index / self.disk_count || !self.is_layer_full(layer_index)
            || layer_index == self.last_index / self.disk_count {
            return Err(RaidError::LayerIncomplete);
        }
        let ghost d = self.disk_count as nat;
        let ghost n = self.last_index as nat;
        let ghost start = layer_index * d;
        proof {
            lemma_fundamental_div_mod(n as int, d as int);
            assert(start + d <= n) by (nonlinear_arith)
                requires
                    layer_index < n / d,
                    start == layer_index * d,
                    d > 0,
                    n >= d * (n / d),
            {
            }
        }
        let mut layer: Vec<bool> = Vec::with_capacity(self.disk_count);
        let mut i: usize = 0;
        while i < self.disk_count
            invariant
                self.wf(),
                d == self.disk_count,
                n == self.last_index,
                layer_index < n / d,
                start == layer_index * d,
                start + d <= n,
                i <= d,
                layer@ == self@.subrange(start as int, start + i),
            decreases d - i,
        {
            proof {
                lemma_layer_position(layer_index as nat, d, i as nat);
                assert(self.disks@[i as int]@.len() == disk_len(n, d, i as nat));
            }
            match self.disks[i].get(layer_index) {
                Ok(b) => layer.push(b),
                Err(e) => return Err(e),
            }
            i = i + 1;
            assert(layer@ =~= self@.subrange(start as int, start + i));
        }
        Ok(layer)
    }
}

/// A layer below the layer counter is complete, and stays so as bits are
/// added.
pub proof fn lemma_started_layer_complete(n: nat, d: nat, layer: nat)
    requires
        d > 0,
        layer < current_layer(n, d),
    ensures
        layer < n / d,
        layer * d + d < n,
{
    lemma_fundamental_div_mod((n - 1) as int, d as int);
    lemma_fundamental_div_mod(n as int, d as int);
    let q1 = ((n - 1) as nat / d) as int;
    let q = (n / d) as int;
    assert(layer * d + d < n && layer < q) by (nonlinear_arith)
        requires
            layer < q1,
            (n - 1) as int == d * q1 + ((n - 1) as nat % d),
            n as int == d * q + (n % d),
            0 <= (n - 1) as nat % d < d,
            0 <= n % d < d,
            d > 0,
    ;
}

/// The layer counter never goes back.
pub proof fn lemma_current_layer_monotone(n1: nat, n2: nat, d: nat)
    requires
        d > 0,
        n1 <= n2,
    ensures
        current_layer(n1, d) <= current_layer(n2, d),
{
    if n1 > 0 {
        vstd::arithmetic::div_mod::lemma_div_is_ordered((n1 - 1) as int, (n2 - 1) as int, d as int);
    }
}

/// An array that holds more bits than it has disks has disks of at least two
/// bits each, so its disk count is at most half the address space.
pub proof fn lemma_disk_count_bound(data: &Data)
    requires
        data.wf(),
        data@.len() > data.spec_disk_count(),
    ensures
        data.spec_disk_count() <= usize::MAX / 2,
        data.spec_total_capacity() == data.spec_disk_count() * data.spec_disk_size(0),
{
    let d = data.spec_disk_count() as int;
    let c = data.spec_disk_size(0) as int;
    assert(2 * d <= d * c) by (nonlinear_arith)
        requires
            d > 0,
            d < d * c,
    ;
}

/// What each data disk holds: disk `i` holds the bits at the positions
/// congruent to `i`, in order, so `disk_len(n, d, i)` of them, within its
/// declared capacity, which all disks share. The layer counter is the one the
/// bits give, and the bits stay below the total capacity.
pub proof fn lemma_disks(data: &Data)
    requires
        data.wf(),
    ensures
        data.spec_disk_count() > 0,
        data.spec_last_layer() == current_layer(data@.len(), data.spec_disk_count()),
        data@.len() < data.spec_total_capacity() || data@.len() == 0,
        data.spec_total_capacity() == data.spec_disk_count() * data.spec_disk_size(0),
        forall|i: int|
            0 <= i < data.spec_disk_count() ==> (#[trigger] data.spec_disk(i)).len() == disk_len(
                data@.len(),
                data.spec_disk_count(),
                i as nat,
            ) && data.spec_disk_size(i) == data.spec_disk_size(0) && data.spec_disk(i).len()
                <= data.spec_disk_size(i) && data.spec_disk(i) == Seq::new(
                disk_len(data@.len(), data.spec_disk_count(), i as nat),
                |k: int| data@[k * data.spec_disk_count() + i],
            ),
{
    let d = data.spec_disk_count();
    let n = data@.len();
    assert forall|i: int| 0 <= i < d implies (#[trigger] data.spec_disk(i)).len() == disk_len(
        n,
        d,
        i as nat,
    ) && data.spec_disk_size(i) == data.spec_disk_size(0) && data.spec_disk(i).len()
        <= data.spec_disk_size(i) && data.spec_disk(i) == Seq::new(
        disk_len(n, d, i as nat),
        |k: int| data@[k * d + i],
    ) by {
        assert(data.disks@[i]@.len() == disk_len(n, d, i as nat));
        assert(data.disks@[i].spec_capacity() == data.disks@[0].spec_capacity());
        lemma_disks_within_capacity(data, i);
        lemma_fundamental_div_mod(n as int, d as int);
        assert forall|k: int| 0 <= k < disk_len(n, d, i as nat) implies data.spec_disk(i)[k]
            == data@[k * d + i] by {
            let q = (n / d) as int;
            let r = (n % d) as int;
            let di = d as int;
            assert(k * di + i < n) by (nonlinear_arith)
                requires
                    n == di * q + r,
                    0 <= i < di,
                    0 <= r < di,
                    0 <= k,
                    i < r ==> k <= q,
                    i >= r ==> k < q,
            ;
            lemma_layer_position(k as nat, d, i as nat);
        }
        assert(data.spec_disk(i) =~= Seq::new(disk_len(n, d, i as nat), |k: int| data@[k * d + i]));
    }
}

/// No data disk holds more bits than its declared capacity.
proof fn lemma_disks_within_capacity(data: &Data, i: int)
    requires
        data.wf(),
        0 <= i < data.spec_disk_count(),
    ensures
        data.spec_disk(i).len() <= data.spec_disk_size(i),
{
    let d = data.spec_disk_count() as int;
    let c = data.spec_disk_size(0) as int;
    let n = data@.len() as int;
    assert(data.disks@[i]@.len() == disk_len(n as nat, d as nat, i as nat));
    assert(data.disks@[i].spec_capacity() == c);
    if n > 0 {
        lemma_fundamental_div_mod(n, d);
        let q = n / d;
        assert(q < c) by (nonlinear_arith)
            requires
                n == d * q + n % d,
                0 <= n % d,
                n < d * c,
                d > 0,
        ;
    } else {
        lemma_fundamental_div_mod_converse(0, d, 0, 0);
    }
}

/// Striping: every written position `i` sits on disk `i mod d` at offset
/// `i div d`.
pub proof fn lemma_striping(data: &Data, i: nat)
    requires
        data.wf(),
        i < data@.len(),
    ensures
        i / data.spec_disk_count() < data.spec_disk(i as int % data.spec_disk_count() as int).len(),
        data.spec_disk(i as int % data.spec_disk_count() as int)[(i / data.spec_disk_count()) as int]
            == data@[i as int],
{
    lemma_index_in_disk(data@.len(), data.spec_disk_count(), i);
}

/// A layer can be read exactly when every disk holds a bit at that offset.
pub proof fn lemma_layer_complete(data: &Data, layer: nat)
    requires
        data.wf(),
    ensures
        (forall|i: int| 0 <= i < data.spec_disk_count() ==> layer < #[trigger] data.spec_disk(i).len())
            <==> layer < data@.len() / data.spec_disk_count(),
{
    let d = data.spec_disk_count();
    let n = data@.len();
    assert(data.spec_disk((d - 1) as int).len() == disk_len(n, d, (d - 1) as nat));
    lemma_next_index(n, d);
}

/// Reading back: a run of writes into a new array whose total length stays
/// below the capacity is accepted whole, and the array then holds the writes
/// one after the other.
pub proof fn lemma_read_back(writes: Seq<Seq<bool>>, total: nat)
    requires
        total_len(writes) < total,
    ensures
        writes_outcome(Seq::empty(), writes, total) == Some(writes.flatten()),
        writes.flatten().len() == total_len(writes),
    decreases writes.len(),
{
    if writes.len() > 0 {
        let init = writes.drop_last();
        lemma_read_back(init, total);
        assert(writes =~= init.push(writes.last()));
        init.lemma_flatten_push(writes.last());
    }
}

} // verus!
